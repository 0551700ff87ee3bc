use varint_codec::Codec;
use varint_codec::DecodeError;
use varint_codec::SliceSource;
use varint_codec::VarInt;
use varint_codec::VecSink;

fn encode_to_vec(v: i64) -> Vec<u8> {
    let mut sink = VecSink::new();
    VarInt(v).encode(&mut sink).expect("a VecSink write never fails");
    sink.into_bytes()
}

fn decode_from_bytes(bytes: &[u8]) -> Result<VarInt, DecodeError> {
    let mut source = SliceSource::new(bytes);
    VarInt::decode(&mut source)
}

#[test]
fn encode_zero_is_one_zero_byte() {
    assert_eq!(encode_to_vec(0), vec![0x00]);
}

#[test]
fn decode_zero_byte_is_zero() {
    assert_eq!(decode_from_bytes(&[0x00]).unwrap().0, 0);
}

#[test]
fn encode_127_is_one_byte() {
    assert_eq!(encode_to_vec(127), vec![0x7F]);
}

#[test]
fn decode_7f_is_127() {
    assert_eq!(decode_from_bytes(&[0x7F]).unwrap().0, 127);
}

#[test]
fn encode_128_is_two_bytes() {
    assert_eq!(encode_to_vec(128), vec![0x80, 0x01]);
}

#[test]
fn decode_two_bytes_is_128() {
    assert_eq!(decode_from_bytes(&[0x80, 0x01]).unwrap().0, 128);
}

#[test]
fn encode_ceiling_value_is_five_bytes() {
    // The largest value within the five-chunk ceiling: 2^35 - 1.
    assert_eq!(encode_to_vec(0x7_FFFF_FFFF), vec![0xFF, 0xFF, 0xFF, 0xFF, 0x7F]);
}

#[test]
fn round_trip_ceiling_value() {
    let bytes = encode_to_vec(0x7_FFFF_FFFF);
    assert_eq!(decode_from_bytes(&bytes).unwrap().0, 0x7_FFFF_FFFF);
}

#[test]
fn round_trip_small_values() {
    for v in [0i64, 1, 2, 63, 64, 127, 128, 129, 255, 300, 16383, 16384, 16385, 1000000] {
        let bytes = encode_to_vec(v);
        assert!(bytes.len() <= 5);
        assert_eq!(decode_from_bytes(&bytes).unwrap().0, v, "value {v}");
    }
}

#[test]
fn round_trip_chunk_boundaries() {
    // One value on each side of every chunk-count boundary.
    for v in [
        127i64,
        128,
        16383,
        16384,
        2097151,
        2097152,
        268435455,
        268435456,
        34359738367,
    ] {
        let bytes = encode_to_vec(v);
        assert_eq!(decode_from_bytes(&bytes).unwrap().0, v, "value {v}");
    }
}

#[test]
fn continuation_bits_set_on_all_but_last() {
    for v in [0i64, 127, 128, 300, 16384, 2097152, 34359738367] {
        let bytes = encode_to_vec(v);
        for (i, b) in bytes.iter().enumerate() {
            if i + 1 < bytes.len() {
                assert_eq!(b & 0x80, 0x80, "value {v}, byte {i}");
            } else {
                assert_eq!(b & 0x80, 0x00, "value {v}, last byte");
            }
        }
    }
}

#[test]
fn encode_negative_one_fills_the_ceiling() {
    // -1 reinterprets to a 64-bit pattern of all ones, which exceeds the
    // five-chunk ceiling: the fifth chunk is emitted with its continuation
    // bit still set, so the output is not a well-formed encoding.
    assert_eq!(encode_to_vec(-1), vec![0xFF, 0xFF, 0xFF, 0xFF, 0xFF]);
    assert_eq!(decode_from_bytes(&[0xFF, 0xFF, 0xFF, 0xFF, 0xFF]), Err(DecodeError::MalformedEncoding));
}

#[test]
fn decode_five_continuation_bytes_is_malformed() {
    assert_eq!(decode_from_bytes(&[0x80, 0x80, 0x80, 0x80, 0x80]), Err(DecodeError::MalformedEncoding));
}

#[test]
fn decode_terminal_fifth_byte_keeps_low_bits() {
    // A cleared fifth-byte flag ends the value: four full chunks and the
    // 0x0F chunk give the low 32 bits all set, read as an unsigned pattern.
    assert_eq!(decode_from_bytes(&[0xFF, 0xFF, 0xFF, 0xFF, 0x0F]).unwrap().0, 0xFFFF_FFFF);
}

#[test]
fn decode_truncated_stream_fails() {
    assert_eq!(decode_from_bytes(&[0x80]), Err(DecodeError::SourceRead));
}

#[test]
fn decode_empty_stream_fails() {
    assert_eq!(decode_from_bytes(&[]), Err(DecodeError::SourceRead));
}

#[test]
fn decode_longer_truncated_stream_fails() {
    assert_eq!(decode_from_bytes(&[0xFF, 0xFF, 0xFF, 0xFF]), Err(DecodeError::SourceRead));
}

#[test]
fn decode_consumes_exactly_one_value() {
    // Two values back to back: each decode takes exactly its own bytes.
    let bytes: Vec<u8> = vec![0x80, 0x01, 0x07];
    let mut source = SliceSource::new(&bytes);
    assert_eq!(VarInt::decode(&mut source).unwrap().0, 128);
    assert_eq!(VarInt::decode(&mut source).unwrap().0, 7);
    assert_eq!(VarInt::decode(&mut source), Err(DecodeError::SourceRead));
}

#[test]
fn decode_ignores_bytes_after_the_value() {
    assert_eq!(decode_from_bytes(&[0x05, 0xFF, 0xFF]).unwrap().0, 5);
}

#[test]
fn encode_appends_to_earlier_writes() {
    let mut sink = VecSink::new();
    VarInt(1).encode(&mut sink).unwrap();
    VarInt(128).encode(&mut sink).unwrap();
    assert_eq!(sink.bytes().as_slice(), &[0x01, 0x80, 0x01]);
}

#[test]
fn round_trip_powers_of_two() {
    for k in 0..35u32 {
        let v: i64 = 1i64 << k;
        let bytes = encode_to_vec(v);
        assert_eq!(decode_from_bytes(&bytes).unwrap().0, v, "power 2^{k}");
        let above = v - 1;
        let bytes = encode_to_vec(above);
        assert_eq!(decode_from_bytes(&bytes).unwrap().0, above, "2^{k} - 1");
    }
}

#[test]
fn new_sink_holds_nothing() {
    let sink = VecSink::new();
    assert!(sink.bytes().is_empty());
    assert!(sink.into_bytes().is_empty());
}

#[test]
fn max_size_is_five() {
    assert_eq!(<VarInt as Codec<VarInt>>::max_size(), 5);
    assert_eq!(VarInt::MAX_SIZE, 5);
}

#[test]
fn align_chunk_weights_by_position() {
    assert_eq!(VarInt::align_chunk(0x05, 0), 0x05);
    assert_eq!(VarInt::align_chunk(0x85, 0), 0x05);
    assert_eq!(VarInt::align_chunk(0x7F, 1), 0x7F * 128);
    assert_eq!(VarInt::align_chunk(0x01, 4), 1u64 << 28);
}

#[test]
fn decode_chunk_rejects_fifth_continuation() {
    assert_eq!(VarInt::decode_chunk(0x80, 4), Err(DecodeError::MalformedEncoding));
    assert_eq!(VarInt::decode_chunk(0x7F, 4), Ok((false, 0x7Fu64 << 28)));
    assert_eq!(VarInt::decode_chunk(0x81, 3), Ok((true, 0x01u64 << 21)));
}
