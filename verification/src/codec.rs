//! The codec capability: a contract that any wire-format data type can
//! implement, together with the abstract byte sink and byte source it
//! writes to and reads from, and one concrete implementation of each.

use vstd::prelude::*;

verus! {

/// Failure of an encode operation.
#[derive(Debug, Clone, Copy, PartialEq, Eq)]
pub enum EncodeError {
    /// The byte sink rejected a write. Propagated immediately; no retry.
    SinkWrite,
}

/// Failure of a decode operation.
#[derive(Debug, Clone, Copy, PartialEq, Eq)]
pub enum DecodeError {
    /// The byte source could not supply the next expected byte
    /// (end of stream or a read fault). Propagated immediately.
    SourceRead,
    /// A final chunk was read with its continuation bit still set,
    /// indicating an over-long or corrupt encoding.
    MalformedEncoding,
    /// The accumulated unsigned bit pattern could not be converted to the
    /// output type. Unreachable with matched 64-bit widths, but kept as a
    /// defined failure path for narrower variants.
    Reinterpretation,
}

/// An abstract destination for a byte stream, owned by the caller.
/// A write may fail; a failed write leaves the sink unchanged.
pub trait ByteSink {
    /// The bytes accepted by this sink so far.
    spec fn written(&self) -> Seq<u8>;

    /// Whether this sink accepts every write; a write to an infallible
    /// sink never fails.
    spec fn infallible(&self) -> bool;

    /// Append one byte to the sink, or fail and leave it unchanged.
    fn write_byte(&mut self, b: u8) -> (r: Result<(), ()>)
        ensures
            r is Ok ==> final(self).written() == old(self).written().push(b),
            r is Err ==> final(self).written() == old(self).written(),
            old(self).infallible() ==> r is Ok,
            final(self).infallible() == old(self).infallible(),
    ;
}

/// An abstract origin of a byte stream, owned by the caller.
/// A read may fail (end of stream or a read fault); a failed read
/// consumes nothing.
pub trait ByteSource {
    /// The bytes this source can still yield, in order.
    spec fn remaining(&self) -> Seq<u8>;

    /// Whether this source fails only at exhaustion: a read from a
    /// reliable source succeeds as long as bytes remain.
    spec fn reliable(&self) -> bool;

    /// Take the next byte from the source, or fail and consume nothing.
    fn read_byte(&mut self) -> (r: Result<u8, ()>)
        ensures
            match r {
                Ok(b) => old(self).remaining().len() > 0 && b == old(self).remaining()[0]
                    && final(self).remaining() == old(self).remaining().skip(1),
                Err(()) => final(self).remaining() == old(self).remaining(),
            },
            old(self).reliable() && old(self).remaining().len() > 0 ==> r is Ok,
            final(self).reliable() == old(self).reliable(),
    ;
}

/// The capability a wire-format data type offers: a bounded encoded size,
/// an encode operation into a byte sink, and a decode operation from a
/// byte source. Each implementing type fixes, through the spec functions,
/// exactly which byte sequences stand for which values.
pub trait Codec<T>: Sized {
    /// The largest number of bytes one encoded value may occupy.
    spec fn spec_max_size() -> usize;

    /// The exact byte sequence that encoding `self` emits.
    spec fn spec_encoding(&self) -> Seq<u8>;

    /// The first `n` bytes of `s` are exactly one encoded value `v`.
    spec fn spec_parses(s: Seq<u8>, v: T, n: int) -> bool;

    /// `s` is a proper prefix of some encoding: more bytes are needed.
    spec fn spec_incomplete(s: Seq<u8>) -> bool;

    /// The first `n` bytes of `s` already prove the stream malformed.
    spec fn spec_malformed(s: Seq<u8>, n: int) -> bool;

    /// Whether decoding may fail to reinterpret an accumulated pattern
    /// whose consumed bytes were `s`.
    spec fn spec_reinterpret_fails(s: Seq<u8>) -> bool;

    /// The largest number of bytes one encoded value may occupy.
    fn max_size() -> (n: usize)
        ensures
            n == Self::spec_max_size(),
            n > 0,
    ;

    /// Serialize `self` by writing its encoding to `sink`, byte by byte.
    /// Writing to an infallible sink succeeds; on the first rejected write
    /// the operation stops and fails, leaving a proper prefix of the
    /// encoding in the sink.
    fn encode<S: ByteSink>(&self, sink: &mut S) -> (r: Result<(), EncodeError>)
        ensures
            self.spec_encoding().len() <= Self::spec_max_size(),
            r is Ok ==> final(sink).written() == old(sink).written() + self.spec_encoding(),
            r matches Err(e) ==> e is SinkWrite && (exists|k: int|
                0 <= k < self.spec_encoding().len()
                    && final(sink).written() == old(sink).written()
                        + #[trigger] self.spec_encoding().take(k)),
            old(sink).infallible() ==> r is Ok,
            final(sink).infallible() == old(sink).infallible(),
    ;

    /// Read bytes from `source` and parse exactly one value, consuming
    /// exactly the bytes of that value; on failure, exactly the bytes
    /// read up to the point of failure.
    fn decode<S: ByteSource>(source: &mut S) -> (r: Result<T, DecodeError>)
        ensures
            r is Ok ==> exists|n: int|
                Self::spec_parses(old(source).remaining(), r->Ok_0, n)
                    && final(source).remaining() == #[trigger] old(source).remaining().skip(n),
            r == Err::<T, DecodeError>(DecodeError::MalformedEncoding) ==> exists|n: int|
                #[trigger] Self::spec_malformed(old(source).remaining(), n)
                    && final(source).remaining() == old(source).remaining().skip(n),
            r == Err::<T, DecodeError>(DecodeError::SourceRead) ==> exists|k: int|
                0 <= k <= old(source).remaining().len()
                    && Self::spec_incomplete(#[trigger] old(source).remaining().take(k))
                    && final(source).remaining() == old(source).remaining().skip(k),
            r == Err::<T, DecodeError>(DecodeError::Reinterpretation) ==> exists|k: int|
                0 <= k <= old(source).remaining().len()
                    && Self::spec_reinterpret_fails(#[trigger] old(source).remaining().take(k))
                    && final(source).remaining() == old(source).remaining().skip(k),
            old(source).reliable() && r == Err::<T, DecodeError>(DecodeError::SourceRead)
                ==> Self::spec_incomplete(old(source).remaining())
                    && final(source).remaining() == Seq::<u8>::empty(),
            final(source).reliable() == old(source).reliable(),
    ;
}

/// A byte sink backed by a growable buffer; a write never fails.
pub struct VecSink {
    bytes: Vec<u8>,
}

impl VecSink {
    /// An empty sink.
    pub fn new() -> (s: Self)
        ensures
            s.written() == Seq::<u8>::empty(),
    {
        VecSink { bytes: Vec::new() }
    }

    /// The bytes written so far.
    pub fn bytes(&self) -> (r: &Vec<u8>)
        ensures
            r@ == self.written(),
    {
        &self.bytes
    }

    /// Give up the sink and keep the bytes it accepted.
    pub fn into_bytes(self) -> (r: Vec<u8>)
        ensures
            r@ == self.written(),
    {
        self.bytes
    }
}

impl ByteSink for VecSink {
    closed spec fn written(&self) -> Seq<u8> {
        self.bytes@
    }

    open spec fn infallible(&self) -> bool {
        true
    }

    fn write_byte(&mut self, b: u8) -> (r: Result<(), ()>) {
        self.bytes.push(b);
        Ok(())
    }
}

/// A byte source that yields the bytes of a borrowed slice, in order;
/// a read fails exactly when the slice is exhausted.
pub struct SliceSource<'a> {
    bytes: &'a [u8],
    pos: usize,
}

impl<'a> SliceSource<'a> {
    /// A source that will yield all of `bytes`.
    pub fn new(bytes: &'a [u8]) -> (s: Self)
        ensures
            s.remaining() == bytes@,
    {
        let s = SliceSource { bytes, pos: 0 };
        proof {
            assert(s.remaining() =~= bytes@);
        }
        s
    }

}

impl<'a> ByteSource for SliceSource<'a> {
    closed spec fn remaining(&self) -> Seq<u8> {
        if self.pos <= self.bytes@.len() {
            self.bytes@.skip(self.pos as int)
        } else {
            Seq::empty()
        }
    }

    open spec fn reliable(&self) -> bool {
        true
    }

    fn read_byte(&mut self) -> (r: Result<u8, ()>) {
        if self.pos < self.bytes.len() {
            let b = self.bytes[self.pos];
            self.pos = self.pos + 1;
            proof {
                assert(old(self).remaining()[0] == b);
                assert(self.remaining() =~= old(self).remaining().skip(1));
            }
            Ok(b)
        } else {
            Err(())
        }
    }
}

} // verus!
