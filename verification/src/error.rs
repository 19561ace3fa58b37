//! The decode-failure taxonomy.
//!
//! Every decoding failure is one of these kinds; none is ever signalled by a
//! panic.  Three kinds mean only that the buffer does not yet hold a whole
//! value — a streaming caller buffers more bytes and retries — while every
//! other kind is a protocol violation by the peer.

use vstd::prelude::*;

verus! {

/// Why decoding failed.
#[derive(Debug, Clone, Copy, PartialEq, Eq)]
pub enum DecodeError {
    /// Input was exhausted before a required byte (the leading type tag).
    UnexpectedEndOfInput,
    /// The leading byte is not one of the five type tags.
    UnknownTypeTag,
    /// A CR LF terminator was expected but the buffer ended first.
    MissingTerminator,
    /// A CR was found that is not followed by LF.
    MalformedTerminator,
    /// An integer payload is not a canonical signed decimal in 64-bit range.
    InvalidInteger,
    /// A length or count header is not a canonical non-negative decimal, or
    /// exceeds `MAX_LENGTH`.
    InvalidLength,
    /// A declared bulk-string length exceeds the bytes remaining.
    TruncatedBody,
    /// One value was decoded but input remained after it.
    TrailingData,
    /// Array nesting exceeds `MAX_DEPTH`.
    RecursionLimitExceeded,
}

/// The failure kinds that mean "buffer more bytes and retry": the input was
/// merely incomplete, not malformed.
pub open spec fn spec_retry_eligible(e: DecodeError) -> bool {
    ||| e is UnexpectedEndOfInput
    ||| e is MissingTerminator
    ||| e is TruncatedBody
}

/// Whether a failure is resolved by waiting for more input rather than by
/// treating the peer as protocol-violating.
pub fn is_retry_eligible(e: &DecodeError) -> (b: bool)
    ensures
        b == spec_retry_eligible(*e),
{
    match e {
        DecodeError::UnexpectedEndOfInput => true,
        DecodeError::MissingTerminator => true,
        DecodeError::TruncatedBody => true,
        _ => false,
    }
}

} // verus!
