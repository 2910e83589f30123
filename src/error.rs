use vstd::prelude::*;

verus! {

/// What can go wrong while encoding or decoding a value.
#[derive(Debug, Clone, Copy, PartialEq, Eq, Structural)]
pub enum Error {
    /// The decoder met a byte that starts no value.
    InvalidMarker(u8),
    /// A structure carries a signature that names no known graph type.
    InvalidSignature(u8),
    /// A structure with a known signature has the wrong field count or field types.
    InvalidStructure(u8),
    /// The input ended in the middle of a value.
    Truncated,
    /// A string payload is not valid UTF-8.
    Utf8,
    /// Values are nested deeper than the decoder accepts.
    NestingTooDeep,
    /// A string, list or map holds 2^32 items or more and cannot be encoded.
    ValueTooLarge(usize),
}

/// Whether an encoding result is the error for an over-long string, list or map.
pub open spec fn is_too_large<T>(r: Result<T, Error>) -> bool {
    match r {
        Err(Error::ValueTooLarge(n)) => n >= 0x1_0000_0000,
        _ => false,
    }
}

} // verus!
