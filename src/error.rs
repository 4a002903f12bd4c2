use vstd::prelude::*;

verus! {

/// Why a byte stream could not be decoded.
#[derive(Debug, Clone, Copy, PartialEq, Eq)]
pub enum DecodeError {
    /// The input ended before a tag, a length or a payload was complete.
    Truncated,
    /// A tag byte outside `0..=6`.
    InvalidTag,
    /// A text payload that is not well-formed UTF-8.
    InvalidUtf8,
    /// A varint that runs past ten bytes or past `u64::MAX`.
    VarintOverflow,
    /// Arrays and objects nested deeper than the decoder allows.
    TooDeep,
    /// Bytes left over after the value.
    TrailingBytes,
}

} // verus!
