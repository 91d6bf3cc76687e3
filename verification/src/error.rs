use vstd::prelude::*;

verus! {

/// What can go wrong while encoding or decoding.
#[derive(Debug, Clone, PartialEq, Eq)]
pub enum Error {
    /// The input ended in the middle of a value.
    Eof,
    /// A byte breaks the framing rules: a bad escape after a sentinel, a tag
    /// byte other than `0x00` or `0x01`, a number that is no Unicode scalar
    /// value, a boolean byte other than `0x00` or `0x01`.
    InvalidEncoding,
    /// The decoded integer does not fit the requested width.
    IntegerOverflow,
    /// The format has no such facility.
    Unsupported,
    /// Any other failure, described in words.
    Message(String),
}

} // verus!
