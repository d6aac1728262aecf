//! Error taxonomy of the protocol codec.
//!
//! Every decode failure is unrecoverable at single-packet granularity: the
//! wire format has no resynchronization marker, so the connection owner must
//! terminate the connection on any of these.

use vstd::prelude::*;

verus! {

/// Failure of the variable-length integer codec.
#[derive(Copy, Clone, Debug, PartialEq, Eq, Structural)]
pub enum VarIntError {
    /// The byte source was exhausted before a terminating byte (one with the
    /// continuation bit clear) was found.
    NotEnoughBytes,
    /// More byte groups than the wire type allows (5 for the 32-bit variant,
    /// 10 for the 64-bit variant) appeared before a terminating byte.
    TooManyBytes,
}

/// Failure of a field or packet decode.
#[derive(Copy, Clone, Debug, PartialEq, Eq, Structural)]
pub enum DecodeError {
    /// The byte source ended before the field or frame was complete.
    NotEnoughBytes,
    /// A variable-length integer ran past its maximum group count.
    TooManyBytes,
    /// A length prefix that cannot denote a length (negative, or an element
    /// that claims to occupy no bytes in a source that is not exhausted).
    BadLength,
    /// A string field whose bytes are not valid UTF-8.
    InvalidUtf8,
    /// The bytes do not hold one well-formed compound tag: a missing or
    /// wrong tag id, a negative length, a truncated payload, or nesting
    /// beyond the scanner's depth bound.
    InvalidNbt,
    /// An out-of-range discriminant for a tagged field (a presence byte that
    /// is neither 0 nor 1, or a handshake next-state outside {1, 2}).
    InvalidDiscriminant,
    /// No packet catalog entry for the current direction, state and id.
    UnknownPacketId,
    /// Bytes were left over after the packet's declared fields were decoded:
    /// a definition mismatch, treated as a hard error.
    TrailingBytes,
    /// A packet body too large for the 32-bit frame length prefix (encode side).
    FrameTooLarge,
}

/// How a variable-length integer failure surfaces from a field decode.
pub open spec fn varint_err(e: VarIntError) -> DecodeError {
    match e {
        VarIntError::NotEnoughBytes => DecodeError::NotEnoughBytes,
        VarIntError::TooManyBytes => DecodeError::TooManyBytes,
    }
}

/// Exec counterpart of [`varint_err`]: maps a variable-length integer
/// failure into the field-decode taxonomy.
pub fn varint_err_to_decode(e: VarIntError) -> (r: DecodeError)
    ensures
        r == varint_err(e),
{
    match e {
        VarIntError::NotEnoughBytes => DecodeError::NotEnoughBytes,
        VarIntError::TooManyBytes => DecodeError::TooManyBytes,
    }
}

} // verus!
