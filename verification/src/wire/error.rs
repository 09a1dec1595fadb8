//! Wire-parse errors.

use vstd::prelude::*;

verus! {

/// Errors returned by the wire codec. Every variant is intentionally specific so
/// that operators can reason about *what* went wrong on the wire.
#[derive(Debug, PartialEq, Eq, Clone)]
pub enum ParseError {
    /// Buffer was shorter than the 12-byte fixed header.
    TruncatedHeader { got: usize },
    /// Parser ran past the end of the buffer while consuming a field.
    UnexpectedEof { offset: usize, context: &'static str },
    /// Label exceeded the RFC 1035 §2.3.4 63-byte limit (or was empty).
    LabelTooLong { len: usize },
    /// Fully-qualified name exceeded the RFC 1035 §2.3.4 255-byte limit.
    NameTooLong { len: usize },
    /// Pointer loop, forward pointer or reserved label form on the reader side.
    InvalidCompression(&'static str),
    /// Reserved header bit (Z) was set.
    ReservedBitsSet { bits: u8 },
    /// Unknown op-code.
    UnknownOpCode(u8),
    /// Invalid QTYPE / TYPE value.
    InvalidQType(u16),
    /// Invalid QCLASS / CLASS value.
    InvalidQClass(u16),
    /// Provided buffer was too small to serialize the message.
    OutputBufferTooSmall { need: usize, have: usize },
    /// QDCOUNT in the header doesn't match the number of questions parsed.
    QdCountMismatch { expected: u16, got: u16 },
}

} // verus!
