//! The ways in which decoding, encoding and resolution fail.

use vstd::prelude::*;

verus! {

/// Why a byte sequence is not a well-formed DNS message.
#[derive(Clone, Copy, Debug, PartialEq, Eq, Structural)]
pub enum DecodeError {
    /// The buffer ends before a field that it must hold.
    Truncated,
    /// A length octet has the reserved prefix `01` or `10`.
    BadLabelLength,
    /// A compression pointer does not point before its own offset.
    BadPointer,
    /// A name's compression pointers lead round a loop: more jumps were
    /// needed than the message has bytes.
    TooManyJumps,
    /// A name's bytes are not UTF-8.
    InvalidText,
    /// A record type code that names no known type.
    UnknownType(u16),
    /// A record class code that names no known class.
    UnknownClass(u16),
}

/// Why a message cannot be written in the wire format.
#[derive(Clone, Copy, Debug, PartialEq, Eq, Structural)]
pub enum EncodeError {
    /// A name holds an empty label, or one longer than 63 bytes.
    BadLabel,
    /// A record's payload is longer than 65535 bytes.
    PayloadTooLong,
    /// A section holds more than 65535 entries.
    TooManyEntries,
}

} // verus!
