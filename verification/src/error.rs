//! The error taxonomy of the decoders. Encoding never fails in normal
//! operation; only decoding is expected to fail, and only on malformed or
//! truncated input.

use vstd::prelude::*;

verus! {

/// An error raised while decoding a byte stream.
#[derive(Debug)]
pub enum Error {
    /// The stream is truncated or malformed: a variable-length integer is
    /// unterminated or would overflow 64 bits, or a length prefix asks for
    /// more bytes than remain in the source.
    InvalidSize(String),
    /// A value's size differs from what the caller expected.
    WrongSize { given: usize, expected: usize },
}

} // verus!
