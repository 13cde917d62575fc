//! Failure taxonomy of the sequence codecs.

use vstd::prelude::*;

verus! {

/// Everything that can go wrong while encoding or decoding a
/// length-prefixed sequence.
#[derive(Clone, Copy, Debug, PartialEq, Eq, Structural)]
pub enum Error {
    /// The sequence is longer than the count prefix can represent
    /// (encode-time; detected before any byte is produced).
    CountOverflow,
    /// The input ends before the prefix or the elements' bytes are all
    /// available (decode-time).
    Truncated,
    /// An element's bytes are not a valid encoding of any value of the
    /// element type (decode-time).
    ElementError,
}

} // verus!
