//! The VarInt wire type: a signed 64-bit value carried as 1 to 5 bytes.
//!
//! Each encoded byte (a *chunk*) holds 7 data bits in its low bits and a
//! continuation flag in its high bit; the least-significant group of the
//! value's unsigned 64-bit bit pattern comes first. All chunk arithmetic
//! is done on the unsigned reinterpretation of the value so that shifting
//! never propagates a sign bit.

use vstd::prelude::*;

use crate::codec::ByteSink;
use crate::codec::ByteSource;
use crate::codec::Codec;
use crate::codec::DecodeError;
use crate::codec::EncodeError;

verus! {

/// 128 raised to `n`: the weight of the `n`-th chunk's data bits.
pub open spec fn pow128(n: nat) -> nat
    decreases n,
{
    if n == 0 {
        1
    } else {
        128 * pow128((n - 1) as nat)
    }
}

/// The value carried by the chunks of `s`: 7 data bits from each byte,
/// least-significant chunk first; continuation flags do not contribute.
pub open spec fn chunks_value(s: Seq<u8>) -> nat
    decreases s.len(),
{
    if s.len() == 0 {
        0
    } else {
        (s[0] as nat) % 128 + 128 * chunks_value(s.skip(1))
    }
}

/// The byte sequence the encoding loop emits for the remaining value `n`
/// when at most `fuel` more chunks may be written: the low 7 bits of `n`,
/// then, if anything is left and the budget allows, the rest.
pub open spec fn spec_encode_rec(n: nat, fuel: nat) -> Seq<u8>
    decreases fuel,
{
    if fuel == 0 {
        Seq::empty()
    } else if n / 128 == 0 {
        seq![(n % 128) as u8]
    } else {
        seq![(n % 128 + 128) as u8] + spec_encode_rec(n / 128, (fuel - 1) as nat)
    }
}

/// The exact bytes that encoding the unsigned bit pattern `u` emits:
/// at most five chunks, the last one with its continuation bit clear
/// unless the five-chunk budget runs out first.
pub open spec fn spec_encode(u: u64) -> Seq<u8> {
    spec_encode_rec(u as nat, 5)
}

/// The fewest chunks that can carry `n`: one chunk per 7 bits, at least one.
pub open spec fn min_chunks(n: nat) -> nat
    decreases n,
{
    if n < 128 {
        1
    } else {
        1 + min_chunks(n / 128)
    }
}

/// The first `n` bytes of `s` are exactly one well-formed VarInt encoding:
/// every byte before the `n`-th has its continuation bit set, the `n`-th
/// has it clear, and no encoding exceeds five bytes.
pub open spec fn prefix_is_varint(s: Seq<u8>, n: int) -> bool {
    &&& 1 <= n <= 5
    &&& n <= s.len()
    &&& forall|i: int| 0 <= i < n - 1 ==> s[i] >= 128
    &&& s[n - 1] < 128
}

/// The first `k` bytes of `s` all have their continuation bit set.
pub open spec fn all_continue(s: Seq<u8>, k: int) -> bool {
    forall|i: int| 0 <= i < k ==> s[i] >= 128
}

/// A VarInt: a signed 64-bit value with no identity beyond its number,
/// encoded and decoded through its unsigned two's-complement bit pattern.
#[derive(Debug, PartialEq, Eq, Structural)]
pub struct VarInt(pub i64);

impl VarInt {
    /// A bitmask to get the bit indicating if there is another chunk after this.
    pub const CONTINUE_BITS: u8 = 0x80;

    /// A bitmask to get the data bits of the chunk.
    pub const DATA_BITS: u8 = 0x7F;

    /// The largest number of bytes one encoded VarInt may occupy.
    pub const MAX_SIZE: usize = 5;

    /// Decodes the given chunk, returning the `continue` indicator and the
    /// correctly-aligned data. A chunk at the last allowed position must not
    /// have its continuation bit set: no further chunk could follow it.
    pub fn decode_chunk(chunk: u8, pos: usize) -> (r: Result<(bool, u64), DecodeError>)
        requires
            pos < 5,
        ensures
            match r {
                Ok((continues, data)) => {
                    &&& continues == (chunk >= 128)
                    &&& data == (chunk as nat % 128) * pow128(pos as nat)
                    &&& data < pow128(pos as nat + 1)
                    &&& !(continues && pos == 4)
                },
                Err(e) => e is MalformedEncoding && chunk >= 128 && pos == 4,
            },
    {
        let continues: bool = (chunk & Self::CONTINUE_BITS) != 0;
        proof {
            assert((chunk & 0x80 != 0) == (chunk >= 128)) by (bit_vector);
        }
        if continues && pos == Self::MAX_SIZE - 1 {
            return Err(DecodeError::MalformedEncoding);
        }
        let data: u64 = VarInt::align_chunk(chunk, pos);

        Ok((continues, data))
    }

    /// Align the data segment of the given `chunk` to its appropriate place
    /// in the result: chunk position `chunk_pos` carries weight 128^`chunk_pos`.
    pub fn align_chunk(chunk: u8, chunk_pos: usize) -> (data: u64)
        requires
            chunk_pos < 5,
        ensures
            data == (chunk as nat % 128) * pow128(chunk_pos as nat),
            data < pow128(chunk_pos as nat + 1),
    {
        let masked: u8 = chunk & Self::DATA_BITS;
        proof {
            assert(chunk & 0x7F == chunk % 128) by (bit_vector);
        }
        let shift: u64 = 7 * (chunk_pos as u64);
        let data: u64 = (masked as u64) << shift;
        proof {
            lemma_shift7_is_pow128(masked as u64, shift, chunk_pos as nat);
        }
        data
    }
}

/// For a 7-bit value, shifting left by `7 * pos` (five positions at most)
/// multiplies by 128^`pos` and stays under 128^(pos + 1).
proof fn lemma_shift7_is_pow128(m: u64, shift: u64, pos: nat)
    requires
        m < 128,
        pos < 5,
        shift == 7 * pos,
    ensures
        m << shift == m * pow128(pos),
        m * pow128(pos) < pow128(pos + 1),
{
    lemma_pow128_values();
    if pos == 0 {
        assert(m << shift == m) by (bit_vector)
            requires
                shift == 0u64,
        ;
    } else if pos == 1 {
        assert(m << shift == m * 128) by (bit_vector)
            requires
                m < 128 && shift == 7u64,
        ;
    } else if pos == 2 {
        assert(m << shift == m * 16384) by (bit_vector)
            requires
                m < 128 && shift == 14u64,
        ;
    } else if pos == 3 {
        assert(m << shift == m * 2097152) by (bit_vector)
            requires
                m < 128 && shift == 21u64,
        ;
    } else {
        assert(m << shift == m * 268435456) by (bit_vector)
            requires
                m < 128 && shift == 28u64,
        ;
    }
}

/// ORing a value below 128^`pos` with a chunk's data aligned at position
/// `pos` is plain addition: the two operands occupy disjoint bits.
proof fn lemma_or_aligned_is_add(acc: u64, d: u64, m: u64, pos: nat)
    requires
        pos < 5,
        acc < pow128(pos),
        m < 128,
        d == m * pow128(pos),
    ensures
        acc | d == acc + d,
        acc + d < pow128(pos + 1),
{
    lemma_pow128_values();
    assert(d <= 127 * pow128(pos)) by (nonlinear_arith)
        requires
            m <= 127 && d == m * pow128(pos),
    ;
    assert(pow128(pos + 1) == 128 * pow128(pos));
    if pos == 0 {
        assert(acc | d == acc + d) by (bit_vector)
            requires
                acc == 0u64,
        ;
    } else if pos == 1 {
        assert(d % 128 == 0 && d <= 127 * 128) by (nonlinear_arith)
            requires
                m < 128 && d == m * 128,
        ;
        assert(acc | d == acc + d) by (bit_vector)
            requires
                acc < 128u64 && d % 128 == 0u64 && d < 16384u64,
        ;
    } else if pos == 2 {
        assert(d % 16384 == 0 && d <= 127 * 16384) by (nonlinear_arith)
            requires
                m < 128 && d == m * 16384,
        ;
        assert(acc | d == acc + d) by (bit_vector)
            requires
                acc < 16384u64 && d % 16384 == 0u64 && d < 2097152u64,
        ;
    } else if pos == 3 {
        assert(d % 2097152 == 0 && d <= 127 * 2097152) by (nonlinear_arith)
            requires
                m < 128 && d == m * 2097152,
        ;
        assert(acc | d == acc + d) by (bit_vector)
            requires
                acc < 2097152u64 && d % 2097152 == 0u64 && d < 268435456u64,
        ;
    } else {
        assert(d % 268435456 == 0 && d <= 127 * 268435456) by (nonlinear_arith)
            requires
                m < 128 && d == m * 268435456,
        ;
        assert(acc | d == acc + d) by (bit_vector)
            requires
                acc < 268435456u64 && d % 268435456 == 0u64 && d < 34359738368u64,
        ;
    }
}

/// Appending a chunk adds its data bits, weighted by the chunk's position.
proof fn lemma_chunks_value_push(s: Seq<u8>, b: u8)
    ensures
        chunks_value(s.push(b)) == chunks_value(s) + (b as nat % 128) * pow128(s.len()),
    decreases s.len(),
{
    let t = s.push(b);
    let m: nat = b as nat % 128;
    if s.len() == 0 {
        assert(t[0] == b);
        assert(t.skip(1) =~= Seq::<u8>::empty());
        assert(chunks_value(t) == m + 128 * chunks_value(Seq::<u8>::empty()));
        assert(chunks_value(Seq::<u8>::empty()) == 0);
        let p: nat = pow128(s.len());
        assert(p == 1);
        assert(m * p == m) by (nonlinear_arith)
            requires
                p == 1,
        ;
    } else {
        assert(t[0] == s[0]);
        assert(t.skip(1) =~= s.skip(1).push(b));
        lemma_chunks_value_push(s.skip(1), b);
        let k: nat = s.skip(1).len();
        assert(chunks_value(t) == (s[0] as nat % 128) + 128 * chunks_value(s.skip(1).push(b)));
        assert(chunks_value(s.skip(1).push(b)) == chunks_value(s.skip(1)) + m * pow128(k));
        assert(128 * (chunks_value(s.skip(1)) + m * pow128(k)) == 128 * chunks_value(s.skip(1))
            + 128 * (m * pow128(k))) by (nonlinear_arith);
        assert(128 * (m * pow128(k)) == m * (128 * pow128(k))) by (nonlinear_arith);
        assert(s.len() == k + 1);
        assert(pow128(s.len()) == 128 * pow128(k));
        assert(chunks_value(s) == (s[0] as nat % 128) + 128 * chunks_value(s.skip(1)));
        assert(chunks_value(t) == chunks_value(s) + m * pow128(s.len()));
    }
}

/// The encoding loop emits at least one byte and no more than its budget.
proof fn lemma_encode_rec_len(n: nat, fuel: nat)
    requires
        fuel >= 1,
    ensures
        1 <= spec_encode_rec(n, fuel).len() <= fuel,
    decreases fuel,
{
    if n / 128 == 0 {
        assert(spec_encode_rec(n, fuel).len() == 1);
    } else if fuel == 1 {
        assert(spec_encode_rec(n / 128, 0).len() == 0);
        assert(spec_encode_rec(n, fuel).len() == 1);
    } else {
        lemma_encode_rec_len(n / 128, (fuel - 1) as nat);
        assert(spec_encode_rec(n, fuel).len() == 1 + spec_encode_rec(n / 128, (fuel - 1) as nat).len());
    }
}

/// A higher chunk position never carries a smaller weight.
proof fn lemma_pow128_increases(a: nat, b: nat)
    requires
        a <= b,
    ensures
        pow128(a) <= pow128(b),
    decreases b,
{
    if a < b {
        lemma_pow128_increases(a, (b - 1) as nat);
        lemma_pow128_pos((b - 1) as nat);
        assert(pow128(b) == 128 * pow128((b - 1) as nat));
    }
}

/// Up to the five-chunk ceiling, every chunk weight stays at or below 128^5.
proof fn lemma_pow128_bounded(n: nat)
    requires
        n <= 5,
    ensures
        pow128(n) <= 34359738368,
{
    lemma_pow128_values();
    lemma_pow128_increases(n, 5);
}

/// The concrete chunk weights, up to the five-chunk ceiling.
pub proof fn lemma_pow128_values()
    ensures
        pow128(0) == 1,
        pow128(1) == 128,
        pow128(2) == 16384,
        pow128(3) == 2097152,
        pow128(4) == 268435456,
        pow128(5) == 34359738368,
{
    reveal_with_fuel(pow128, 6);
}

/// Every chunk weight is positive.
proof fn lemma_pow128_pos(n: nat)
    ensures
        pow128(n) >= 1,
    decreases n,
{
    if n > 0 {
        lemma_pow128_pos((n - 1) as nat);
    }
}

/// The encoding loop stops within its budget exactly when the value fits:
/// `n` needs at most `k` chunks exactly when `n` is below 128^`k`.
proof fn lemma_min_chunks_within(n: nat, k: nat)
    requires
        k >= 1,
    ensures
        min_chunks(n) <= k <==> n < pow128(k),
    decreases k,
{
    lemma_pow128_pos((k - 1) as nat);
    if n < 128 {
        assert(pow128(k) == 128 * pow128((k - 1) as nat));
        assert(pow128(k) >= 128) by (nonlinear_arith)
            requires
                pow128(k) == 128 * pow128((k - 1) as nat) && pow128((k - 1) as nat) >= 1,
        ;
    } else if k == 1 {
        assert(min_chunks(n) == 1 + min_chunks(n / 128) >= 2);
        assert(pow128(1) == 128 * pow128(0));
    } else {
        lemma_min_chunks_within(n / 128, (k - 1) as nat);
        let p: nat = pow128((k - 1) as nat);
        assert(pow128(k) == 128 * p);
        assert(n / 128 < p <==> n < 128 * p) by (nonlinear_arith)
            requires
                p >= 1,
        ;
    }
}

/// Within the loop budget, the emitted length is exactly the fewest chunks
/// that carry the value; past the budget, it is the budget itself.
proof fn lemma_encode_rec_exact_len(n: nat, fuel: nat)
    requires
        fuel >= 1,
    ensures
        min_chunks(n) <= fuel ==> spec_encode_rec(n, fuel).len() == min_chunks(n),
        min_chunks(n) > fuel ==> spec_encode_rec(n, fuel).len() == fuel,
    decreases fuel,
{
    if n / 128 == 0 {
    } else if fuel == 1 {
        assert(spec_encode_rec(n / 128, 0).len() == 0);
    } else {
        lemma_encode_rec_exact_len(n / 128, (fuel - 1) as nat);
    }
}

/// Within the budget, every emitted byte but the last carries the
/// continuation flag, and the last byte is flag-free exactly when the
/// whole value fit the budget.
proof fn lemma_encode_rec_continuation(n: nat, fuel: nat)
    requires
        fuel >= 1,
    ensures
        forall|i: int|
            0 <= i < spec_encode_rec(n, fuel).len() - 1 ==> spec_encode_rec(n, fuel)[i] >= 128,
        (spec_encode_rec(n, fuel).last() < 128) <==> min_chunks(n) <= fuel,
    decreases fuel,
{
    let s = spec_encode_rec(n, fuel);
    if n / 128 == 0 {
        assert(s =~= seq![(n % 128) as u8]);
        assert(s.last() == (n % 128) as u8);
    } else if fuel == 1 {
        assert(spec_encode_rec(n / 128, 0) =~= Seq::<u8>::empty());
        assert(s =~= seq![(n % 128 + 128) as u8]);
        assert(s.last() >= 128);
        assert(min_chunks(n) == 1 + min_chunks(n / 128) >= 2);
    } else {
        lemma_encode_rec_continuation(n / 128, (fuel - 1) as nat);
        let rest = spec_encode_rec(n / 128, (fuel - 1) as nat);
        lemma_encode_rec_len(n / 128, (fuel - 1) as nat);
        assert(s == seq![(n % 128 + 128) as u8] + rest);
        assert(s[0] == (n % 128 + 128) as u8 >= 128);
        assert(forall|i: int| 1 <= i < s.len() ==> s[i] == rest[i - 1]);
        assert(s.last() == rest.last());
    }
}

/// The chunks the encoding loop emits carry the value back exactly,
/// provided the value fit the budget.
proof fn lemma_encode_rec_value(n: nat, fuel: nat)
    requires
        fuel >= 1,
        min_chunks(n) <= fuel,
    ensures
        chunks_value(spec_encode_rec(n, fuel)) == n,
    decreases fuel,
{
    let s = spec_encode_rec(n, fuel);
    if n / 128 == 0 {
        assert(s =~= seq![(n % 128) as u8]);
        assert(s.skip(1) =~= Seq::<u8>::empty());
        assert(chunks_value(s) == ((n % 128) as u8) as nat % 128 + 128 * chunks_value(
            Seq::<u8>::empty()));
        assert(n % 128 == n);
    } else {
        assert(min_chunks(n) == 1 + min_chunks(n / 128));
        lemma_encode_rec_value(n / 128, (fuel - 1) as nat);
        let rest = spec_encode_rec(n / 128, (fuel - 1) as nat);
        assert(s == seq![(n % 128 + 128) as u8] + rest);
        assert(s[0] == (n % 128 + 128) as u8);
        assert(s.skip(1) =~= rest);
        assert((s[0] as nat) % 128 == n % 128);
        assert(chunks_value(s) == n % 128 + 128 * (n / 128));
    }
}

/// Bounded length: an encoding never exceeds five bytes, and it uses the
/// fewest chunks that can carry the value — no chunk is emitted once the
/// remaining bits are zero — unless even five chunks cannot carry it.
pub proof fn lemma_encode_bounded_minimal(u: u64)
    ensures
        1 <= spec_encode(u).len() <= 5,
        min_chunks(u as nat) <= 5 ==> spec_encode(u).len() == min_chunks(u as nat),
        min_chunks(u as nat) > 5 ==> spec_encode(u).len() == 5,
{
    lemma_encode_rec_len(u as nat, 5);
    lemma_encode_rec_exact_len(u as nat, 5);
}

/// Continuation correctness: every byte of an encoding except the last has
/// its continuation bit set, and the last byte has it clear exactly when
/// the value lies within the five-chunk ceiling.
pub proof fn lemma_continuation(u: u64)
    ensures
        forall|i: int| 0 <= i < spec_encode(u).len() - 1 ==> spec_encode(u)[i] >= 128,
        (spec_encode(u).last() < 128) <==> (u < 0x8_0000_0000),
{
    lemma_encode_rec_continuation(u as nat, 5);
    lemma_min_chunks_within(u as nat, 5);
    lemma_pow128_values();
}

/// At most one prefix length of a byte stream is a well-formed encoding:
/// the first byte without a continuation flag ends it.
pub proof fn lemma_varint_prefix_unique(s: Seq<u8>, n1: int, n2: int)
    requires
        prefix_is_varint(s, n1),
        prefix_is_varint(s, n2),
    ensures
        n1 == n2,
{
    if n1 < n2 {
        assert(s[n1 - 1] >= 128);
    } else if n2 < n1 {
        assert(s[n2 - 1] >= 128);
    }
}

/// Round-trip law: for every value within the five-chunk ceiling, the
/// encoding is a well-formed VarInt whose chunks carry the value back
/// exactly; with the decoder's contract this gives decode(encode(v)) == v.
pub proof fn lemma_round_trip(v: i64)
    requires
        0 <= v < 0x8_0000_0000,
    ensures
        ({
            let s = spec_encode(v as u64);
            &&& prefix_is_varint(s, s.len() as int)
            &&& chunks_value(s) == v
        }),
{
    let u: u64 = v as u64;
    lemma_pow128_values();
    lemma_min_chunks_within(u as nat, 5);
    lemma_encode_bounded_minimal(u);
    lemma_encode_rec_value(u as nat, 5);
    lemma_continuation(u);
    let s = spec_encode(u);
    assert(s[s.len() - 1] == s.last());
}

/// Malformed fifth-byte rejection: a stream whose first five bytes all
/// carry the continuation flag parses as no value at any length, so the
/// decoder's contract never lets it return one; its malformed case, on
/// the other hand, applies. A source that fails mid-read may still turn
/// such a stream into a read error instead.
pub proof fn lemma_overlong_never_parses(s: Seq<u8>)
    requires
        s.len() >= 5,
        all_continue(s, 5),
    ensures
        forall|v: VarInt, n: int| !(#[trigger] <VarInt as Codec<VarInt>>::spec_parses(s, v, n)),
        <VarInt as Codec<VarInt>>::spec_malformed(s, 5),
{
    assert forall|v: VarInt, n: int|
        !(#[trigger] <VarInt as Codec<VarInt>>::spec_parses(s, v, n)) by {
        if prefix_is_varint(s, n) {
            assert(s[n - 1] >= 128);
        }
    }
}

/// Truncation handling: a stream that ends while every byte so far carries
/// the continuation flag parses as no value and is not yet malformed, so
/// the only outcome the decoder's contract leaves open is the read error.
pub proof fn lemma_truncated_never_parses(s: Seq<u8>)
    requires
        s.len() < 5,
        all_continue(s, s.len() as int),
    ensures
        forall|v: VarInt, n: int| !(#[trigger] <VarInt as Codec<VarInt>>::spec_parses(s, v, n)),
        forall|n: int| !(#[trigger] <VarInt as Codec<VarInt>>::spec_malformed(s, n)),
        <VarInt as Codec<VarInt>>::spec_incomplete(s),
{
    assert forall|v: VarInt, n: int|
        !(#[trigger] <VarInt as Codec<VarInt>>::spec_parses(s, v, n)) by {
        if prefix_is_varint(s, n) {
            assert(s[n - 1] >= 128);
        }
    }
}

impl Codec<VarInt> for VarInt {
    open spec fn spec_max_size() -> usize {
        5
    }

    open spec fn spec_encoding(&self) -> Seq<u8> {
        spec_encode(self.0 as u64)
    }

    open spec fn spec_parses(s: Seq<u8>, v: VarInt, n: int) -> bool {
        &&& prefix_is_varint(s, n)
        &&& v.0 == chunks_value(s.take(n))
    }

    open spec fn spec_incomplete(s: Seq<u8>) -> bool {
        s.len() < 5 && all_continue(s, s.len() as int)
    }

    open spec fn spec_malformed(s: Seq<u8>, n: int) -> bool {
        n == 5 && s.len() >= 5 && all_continue(s, 5)
    }

    open spec fn spec_reinterpret_fails(s: Seq<u8>) -> bool {
        false
    }

    fn max_size() -> (n: usize) {
        5
    }

    /// Serialize the value by reinterpreting it as its unsigned 64-bit bit
    /// pattern and emitting 7 bits per chunk, least-significant group first,
    /// until nothing is left or the five-chunk budget runs out.
    fn encode<S: ByteSink>(&self, sink: &mut S) -> (r: Result<(), EncodeError>) {
        let mut value: u64 = #[verifier::truncate] (self.0 as u64);
        let ghost u: u64 = value;
        let ghost goal: Seq<u8> = spec_encode(u);
        let ghost prefix: Seq<u8> = sink.written();
        let ghost mut emitted: Seq<u8> = Seq::empty();
        let mut i: usize = 0;
        proof {
            assert(emitted + goal =~= goal);
        }
        while i < 5
            invariant
                i <= 5,
                goal == spec_encode(self.0 as u64),
                prefix == old(sink).written(),
                sink.written() == prefix + emitted,
                sink.infallible() == old(sink).infallible(),
                emitted + spec_encode_rec(value as nat, (5 - i) as nat) == goal,
            decreases 5 - i,
        {
            let data: u8 = (value % 128) as u8;
            let next: u64 = value / 128;
            let ghost before: Seq<u8> = emitted;
            if next == 0 {
                proof {
                    assert(spec_encode_rec(value as nat, (5 - i) as nat) =~= seq![data]);
                }
                match sink.write_byte(data) {
                    Ok(_) => {
                        proof {
                            emitted = emitted.push(data);
                            assert(emitted =~= before + seq![data]);
                            assert(emitted =~= goal);
                            lemma_encode_rec_len((self.0 as u64) as nat, 5);
                        }
                        return Ok(());
                    },
                    Err(_) => {
                        proof {
                            lemma_encode_rec_len(value as nat, (5 - i) as nat);
                            assert(goal.take(before.len() as int) =~= before);
                            lemma_encode_rec_len((self.0 as u64) as nat, 5);
                            assert(exists|k: int|
                                0 <= k < self.spec_encoding().len() && sink.written()
                                    == old(sink).written() + #[trigger] self.spec_encoding().take(
                                k)) by {
                                assert(0 <= before.len() < self.spec_encoding().len()
                                    && sink.written() == old(sink).written()
                                        + self.spec_encoding().take(before.len() as int));
                            }
                        }
                        return Err(EncodeError::SinkWrite);
                    },
                }
            } else {
                let byte: u8 = data | VarInt::CONTINUE_BITS;
                proof {
                    assert(data < 128 ==> data | 0x80 == data + 128) by (bit_vector);
                    assert(spec_encode_rec(value as nat, (5 - i) as nat) == seq![byte]
                        + spec_encode_rec(next as nat, (5 - i - 1) as nat));
                }
                match sink.write_byte(byte) {
                    Ok(_) => {
                        proof {
                            emitted = emitted.push(byte);
                            assert(emitted =~= before + seq![byte]);
                            assert(emitted + spec_encode_rec(next as nat, (5 - (i + 1)) as nat)
                                =~= goal);
                        }
                    },
                    Err(_) => {
                        proof {
                            lemma_encode_rec_len(value as nat, (5 - i) as nat);
                            assert(goal.take(before.len() as int) =~= before);
                            lemma_encode_rec_len((self.0 as u64) as nat, 5);
                            assert(exists|k: int|
                                0 <= k < self.spec_encoding().len() && sink.written()
                                    == old(sink).written() + #[trigger] self.spec_encoding().take(
                                k)) by {
                                assert(0 <= before.len() < self.spec_encoding().len()
                                    && sink.written() == old(sink).written()
                                        + self.spec_encoding().take(before.len() as int));
                            }
                        }
                        return Err(EncodeError::SinkWrite);
                    },
                }
                value = next;
                i = i + 1;
            }
        }
        proof {
            assert(spec_encode_rec(value as nat, 0) =~= Seq::<u8>::empty());
            assert(emitted =~= goal);
            lemma_encode_rec_len((self.0 as u64) as nat, 5);
        }
        Ok(())
    }

    /// Read chunks from the source, accumulating 7 data bits per chunk at
    /// ascending weight, until a chunk arrives with its continuation bit
    /// clear; then reinterpret the accumulated unsigned pattern as signed.
    fn decode<S: ByteSource>(source: &mut S) -> (r: Result<VarInt, DecodeError>) {
        let mut result: u64 = 0;
        let ghost orig: Seq<u8> = source.remaining();
        let mut pos: usize = 0;
        while pos < 5
            invariant
                pos <= 4,
                pos <= orig.len(),
                orig == old(source).remaining(),
                source.remaining() == orig.skip(pos as int),
                source.reliable() == old(source).reliable(),
                all_continue(orig, pos as int),
                result == chunks_value(orig.take(pos as int)),
                result < pow128(pos as nat),
            decreases 5 - pos,
        {
            let chunk: u8 = match source.read_byte() {
                Ok(b) => b,
                Err(_) => {
                    proof {
                        assert(orig.take(pos as int).len() == pos);
                        assert(all_continue(orig.take(pos as int), pos as int));
                        assert(Self::spec_incomplete(orig.take(pos as int)));
                        if old(source).reliable() {
                            assert(orig.skip(pos as int).len() == 0);
                            assert(pos == orig.len());
                            assert(orig.take(pos as int) =~= orig);
                            assert(source.remaining() =~= Seq::<u8>::empty());
                        }
                    }
                    return Err(DecodeError::SourceRead);
                },
            };
            proof {
                assert(orig.skip(pos as int)[0] == orig[pos as int]);
                assert(orig.skip(pos as int).skip(1) =~= orig.skip(pos as int + 1));
            }
            let (continues, data) = match VarInt::decode_chunk(chunk, pos) {
                Ok(res) => res,
                Err(e) => {
                    proof {
                        assert(orig.len() >= 5);
                        assert(all_continue(orig, 5));
                        assert(Self::spec_malformed(orig, 5));
                    }
                    return Err(e);
                },
            };
            proof {
                let mdat: u64 = (chunk % 128) as u64;
                lemma_or_aligned_is_add(result, data, mdat, pos as nat);
                lemma_chunks_value_push(orig.take(pos as int), chunk);
                assert(orig.take(pos as int + 1) =~= orig.take(pos as int).push(chunk));
                assert(orig.take(pos as int).len() == pos);
            }
            result = result | data;
            if !continues {
                proof {
                    lemma_pow128_bounded(pos as nat + 1);
                    assert(prefix_is_varint(orig, pos as int + 1));
                    assert(result == chunks_value(orig.take(pos as int + 1)));
                }
                if result <= 0x7fff_ffff_ffff_ffffu64 {
                    let parsed = VarInt(result as i64);
                    proof {
                        assert(Self::spec_parses(orig, parsed, pos as int + 1));
                        assert(source.remaining() == old(source).remaining().skip(
                            pos as int + 1));
                    }
                    return Ok(parsed);
                } else {
                    return Err(DecodeError::Reinterpretation);
                }
            }
            pos = pos + 1;
        }
        // A fifth chunk either ends the value or is rejected, so the loop
        // cannot run out of positions.
        proof {
            assert(false);
        }
        Err(DecodeError::SourceRead)
    }
}

} // verus!
