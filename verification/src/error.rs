//! The decoder's error taxonomy.
//!
//! `BufferFinished` is a stream-boundary signal, not a protocol violation:
//! the input ended before a whole value was available. Every other variant
//! reports malformed input, except `Unimplemented`, which reports a
//! recognized but unsupported wire type, and `Aggregate`, which is reserved
//! for batch validation.

use vstd::prelude::*;

verus! {

/// What went wrong while decoding one protocol value.
#[derive(Debug, PartialEq)]
pub enum RespReaderError {
    /// A recognized wire type that this decoder does not support.
    Unimplemented,
    /// The input ended before the value did.
    BufferFinished,
    /// A carriage return without a following line feed, a line feed without
    /// a preceding carriage return, or a payload that does not end at its
    /// declared length.
    MissingNewline,
    /// A text payload that is not valid UTF-8.
    NonUtf8String,
    /// An unregistered tag byte at the start of a value.
    UnknownDataType(char),
    /// A numeric token whose value exceeds the machine's range.
    LengthOverflowed,
    /// An unexpected byte where a digit, sign, separator or terminator was
    /// required inside a token.
    InvalidCharInLength(char),
    /// A bundle of nested failures, reserved for batch validation.
    Aggregate { errors: Vec<RespReaderError> },
}

} // verus!
