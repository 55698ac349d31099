//! The `Serializer`: an append-only growable buffer offering variable-length
//! integer, raw and length-prefixed writes. Bytes already written are never
//! mutated or removed; every operation only appends.

use vstd::prelude::*;

use crate::error::Error;
use crate::framing::{frame_encoding, push_frame};
use crate::varint::{push_varint, varint_encoding};

verus! {

/// An owned, growing, append-only byte buffer. Its view is the sequence of
/// bytes written so far.
pub struct Serializer {
    output: Vec<u8>,
}

impl View for Serializer {
    type V = Seq<u8>;

    closed spec fn view(&self) -> Seq<u8> {
        self.output@
    }
}

impl Serializer {
    /// Creates an empty buffer.
    pub fn new() -> (s: Serializer)
        ensures
            s@ == Seq::<u8>::empty(),
    {
        Serializer { output: Vec::new() }
    }

    /// Appends the variable-length encoding of `n` and tells how many bytes
    /// were written. Never fails.
    pub fn write_u64(&mut self, n: u64) -> (r: Result<usize, Error>)
        ensures
            r matches Ok(c) && final(self)@ == old(self)@ + varint_encoding(n as nat) && c
                == varint_encoding(n as nat).len(),
    {
        Ok(push_varint(&mut self.output, n))
    }

    /// Appends the variable-length encoding of `n` and tells how many bytes
    /// were written. Never fails.
    #[inline]
    pub fn write_usize(&mut self, n: usize) -> (r: Result<usize, Error>)
        ensures
            r matches Ok(c) && final(self)@ == old(self)@ + varint_encoding(n as nat) && c
                == varint_encoding(n as nat).len(),
    {
        self.write_u64(n as u64)
    }

    /// Appends `array` verbatim and tells how many bytes were written.
    /// Never fails.
    pub fn write_array(&mut self, array: &[u8]) -> (r: Result<usize, Error>)
        ensures
            r matches Ok(c) && final(self)@ == old(self)@ + array@ && c == array@.len(),
    {
        let start: usize = self.output.len();
        let mut payload: Vec<u8> = vstd::slice::slice_to_vec(array);
        self.output.append(&mut payload);
        Ok(self.output.len() - start)
    }

    /// Appends the frame of `array` — its length as a variable-length
    /// integer, then its bytes — and tells how many bytes were written.
    /// Never fails.
    pub fn write_vec(&mut self, array: &[u8]) -> (r: Result<usize, Error>)
        ensures
            r matches Ok(c) && final(self)@ == old(self)@ + frame_encoding(array@) && c
                == frame_encoding(array@).len(),
    {
        Ok(push_frame(&mut self.output, array))
    }

    /// The bytes written so far, without consuming the buffer.
    #[inline]
    pub fn value(&self) -> (r: &[u8])
        ensures
            r@ == self@,
    {
        self.output.as_slice()
    }

    /// Consumes the buffer and yields the accumulated bytes.
    #[must_use]
    #[inline]
    pub fn finalize(self) -> (r: Vec<u8>)
        ensures
            r@ == self@,
    {
        self.output
    }
}

impl Default for Serializer {
    /// An empty buffer.
    fn default() -> (s: Serializer)
        ensures
            s@ == Seq::<u8>::empty(),
    {
        Serializer::new()
    }
}

} // verus!
