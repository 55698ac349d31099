//! The `Deserializer`: a cursor over a borrowed byte slice offering
//! variable-length integer, exact-length and length-prefixed reads. The
//! cursor only ever advances; a failed read leaves it where it was and no
//! partial result is handed out.

use vstd::prelude::*;

use crate::error::Error;
use crate::framing::{frame_decode, take_frame};
use crate::varint::{take_varint, varint_decode};

verus! {

/// A read cursor over a borrowed, immutable byte slice. Its view is the
/// sequence of bytes not yet consumed.
pub struct Deserializer<'a> {
    input: &'a [u8],
}

impl<'a> View for Deserializer<'a> {
    type V = Seq<u8>;

    closed spec fn view(&self) -> Seq<u8> {
        self.input@
    }
}

impl<'a> Deserializer<'a> {
    /// Starts reading at the front of `bytes`.
    pub fn new(bytes: &'a [u8]) -> (d: Deserializer<'a>)
        ensures
            d@ == bytes@,
    {
        Deserializer { input: bytes }
    }

    /// Reads one variable-length integer and consumes exactly its bytes.
    /// Fails on a truncated integer, one using more than ten bytes, or one
    /// overflowing 64 bits.
    pub fn read_u64(&mut self) -> (r: Result<u64, Error>)
        ensures
            match r {
                Ok(v) => varint_decode(old(self)@) matches Some(p) && p.0 == v && 0 < p.1
                    <= old(self)@.len() && final(self)@ == old(self)@.skip(p.1),
                Err(e) => varint_decode(old(self)@) is None && final(self)@ == old(self)@
                    && e is InvalidSize,
            },
    {
        let (v, k) = match take_varint(self.input) {
            Ok(p) => p,
            Err(e) => return Err(e),
        };
        self.input = vstd::slice::slice_subrange(self.input, k, self.input.len());
        proof {
            assert(self@ =~= old(self)@.skip(k as int));
        }
        Ok(v)
    }

    /// Reads one variable-length integer as a length, additionally failing
    /// — with the cursor unmoved — when the value cannot be represented in
    /// the platform's addressable size.
    pub fn read_usize(&mut self) -> (r: Result<usize, Error>)
        ensures
            match r {
                Ok(v) => varint_decode(old(self)@) matches Some(p) && p.0 == v as u64 && p.0
                    <= usize::MAX && 0 < p.1 <= old(self)@.len() && final(self)@ == old(
                    self,
                )@.skip(p.1),
                Err(e) => (varint_decode(old(self)@) is None || (varint_decode(old(self)@) matches
                    Some(p) && p.0 > usize::MAX)) && final(self)@ == old(self)@ && e is InvalidSize,
            },
    {
        let (v, k) = match take_varint(self.input) {
            Ok(p) => p,
            Err(e) => return Err(e),
        };
        if v > usize::MAX as u64 {
            return Err(
                Error::InvalidSize("declared size exceeds the addressable range".to_owned()),
            );
        }
        self.input = vstd::slice::slice_subrange(self.input, k, self.input.len());
        proof {
            assert(self@ =~= old(self)@.skip(k as int));
        }
        Ok(v as usize)
    }

    /// Reads one frame — a length, then that many bytes — and consumes
    /// exactly its bytes. A declared length of zero yields an empty array.
    /// Fails, with the cursor unmoved, on a malformed length or when fewer
    /// bytes remain than the length declares.
    pub fn read_vec(&mut self) -> (r: Result<Vec<u8>, Error>)
        ensures
            match r {
                Ok(v) => frame_decode(old(self)@) matches Some(p) && p.0 == v@ && 0 < p.1
                    <= old(self)@.len() && final(self)@ == old(self)@.skip(p.1),
                Err(e) => frame_decode(old(self)@) is None && final(self)@ == old(self)@
                    && e is InvalidSize,
            },
    {
        let (v, k) = match take_frame(self.input) {
            Ok(p) => p,
            Err(e) => return Err(e),
        };
        self.input = vstd::slice::slice_subrange(self.input, k, self.input.len());
        proof {
            assert(self@ =~= old(self)@.skip(k as int));
        }
        Ok(v)
    }

    /// Reads exactly `len` bytes, a width the caller knows in advance, with
    /// no length prefix. Fails, with the cursor unmoved, when fewer bytes
    /// remain.
    pub fn read_array(&mut self, len: usize) -> (r: Result<Vec<u8>, Error>)
        ensures
            match r {
                Ok(v) => old(self)@.len() >= len && v@ == old(self)@.take(len as int)
                    && final(self)@ == old(self)@.skip(len as int),
                Err(e) => old(self)@.len() < len && final(self)@ == old(self)@ && e is InvalidSize,
            },
    {
        if len > self.input.len() {
            return Err(
                Error::InvalidSize("not enough bytes remain for the requested read".to_owned()),
            );
        }
        let v: Vec<u8> = vstd::slice::slice_to_vec(
            vstd::slice::slice_subrange(self.input, 0, len),
        );
        self.input = vstd::slice::slice_subrange(self.input, len, self.input.len());
        proof {
            assert(self@ =~= old(self)@.skip(len as int));
            assert(v@ =~= old(self)@.take(len as int));
        }
        Ok(v)
    }
}

} // verus!
