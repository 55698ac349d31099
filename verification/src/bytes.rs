//! A compact pairing of the `Serializer` and `Deserializer` objects for
//! callers that only move framed byte arrays: every array is written as its
//! length followed by its bytes, and read back the same way.

use vstd::prelude::*;

use crate::error::Error;
use crate::framing::{frame_decode, frame_encoding, push_frame, take_frame};
use crate::varint::{push_varint, take_varint, varint_decode, varint_encoding};

verus! {

/// A read cursor over a borrowed, immutable byte slice. Its view is the
/// sequence of bytes not yet consumed.
pub struct Deserializer<'a> {
    readable: &'a [u8],
}

impl<'a> View for Deserializer<'a> {
    type V = Seq<u8>;

    closed spec fn view(&self) -> Seq<u8> {
        self.readable@
    }
}

impl<'a> Deserializer<'a> {
    /// Starts reading at the front of `bytes`.
    pub fn new(bytes: &'a [u8]) -> (d: Deserializer<'a>)
        ensures
            d@ == bytes@,
    {
        Deserializer { readable: bytes }
    }

    /// Reads one variable-length integer and consumes exactly its bytes.
    /// Fails on a truncated integer, one using more than ten bytes, or one
    /// overflowing 64 bits.
    pub fn read_u64(&mut self) -> (r: Result<u64, Error>)
        ensures
            match r {
                Ok(v) => varint_decode(old(self)@) matches Some(p) && p.0 == v && 0 < p.1
                    <= old(self)@.len() && final(self)@ == old(self)@.skip(p.1),
                Err(e) => varint_decode(old(self)@) is None && final(self)@ == old(self)@
                    && e is InvalidSize,
            },
    {
        let (v, k) = match take_varint(self.readable) {
            Ok(p) => p,
            Err(e) => return Err(e),
        };
        self.readable = vstd::slice::slice_subrange(self.readable, k, self.readable.len());
        proof {
            assert(self@ =~= old(self)@.skip(k as int));
        }
        Ok(v)
    }

    /// Reads one framed byte array — a length, then that many bytes — and
    /// consumes exactly its bytes. A declared length of zero yields an empty
    /// array. Fails, with the cursor unmoved, on a malformed length or when
    /// fewer bytes remain than the length declares.
    pub fn read_array(&mut self) -> (r: Result<Vec<u8>, Error>)
        ensures
            match r {
                Ok(v) => frame_decode(old(self)@) matches Some(p) && p.0 == v@ && 0 < p.1
                    <= old(self)@.len() && final(self)@ == old(self)@.skip(p.1),
                Err(e) => frame_decode(old(self)@) is None && final(self)@ == old(self)@
                    && e is InvalidSize,
            },
    {
        let (v, k) = match take_frame(self.readable) {
            Ok(p) => p,
            Err(e) => return Err(e),
        };
        self.readable = vstd::slice::slice_subrange(self.readable, k, self.readable.len());
        proof {
            assert(self@ =~= old(self)@.skip(k as int));
        }
        Ok(v)
    }
}

/// An owned, growing, append-only byte buffer. Its view is the sequence of
/// bytes written so far.
pub struct Serializer {
    writable: Vec<u8>,
}

impl View for Serializer {
    type V = Seq<u8>;

    closed spec fn view(&self) -> Seq<u8> {
        self.writable@
    }
}

impl Serializer {
    /// Creates an empty buffer.
    pub fn new() -> (s: Serializer)
        ensures
            s@ == Seq::<u8>::empty(),
    {
        Serializer { writable: Vec::new() }
    }

    /// Appends the variable-length encoding of `n` and tells how many bytes
    /// were written. Never fails.
    pub fn write_u64(&mut self, n: u64) -> (r: Result<usize, Error>)
        ensures
            r matches Ok(c) && final(self)@ == old(self)@ + varint_encoding(n as nat) && c
                == varint_encoding(n as nat).len(),
    {
        Ok(push_varint(&mut self.writable, n))
    }

    /// Appends the frame of `array` — its length as a variable-length
    /// integer, then its bytes — and tells how many bytes were written.
    /// Never fails.
    pub fn write_array(&mut self, array: &[u8]) -> (r: Result<usize, Error>)
        ensures
            r matches Ok(c) && final(self)@ == old(self)@ + frame_encoding(array@) && c
                == frame_encoding(array@).len(),
    {
        Ok(push_frame(&mut self.writable, array))
    }

    /// The bytes written so far, without consuming the buffer.
    #[inline]
    pub fn value(&self) -> (r: &[u8])
        ensures
            r@ == self@,
    {
        self.writable.as_slice()
    }
}

impl Default for Serializer {
    /// An empty buffer.
    fn default() -> (s: Serializer)
        ensures
            s@ == Seq::<u8>::empty(),
    {
        Serializer::new()
    }
}

} // verus!
