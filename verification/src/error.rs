//! The ways in which decoding can fail, and the classes they fall into.

use vstd::prelude::*;

verus! {

/// The class of a failure.
#[derive(Debug, Clone, Copy, PartialEq, Eq, Structural)]
pub enum ErrorClass {
    /// The input is not what the format allows.
    Format,
    /// More bits were asked for than are left, or than the result can hold.
    Range,
    /// The decoded data does not match the checksum or size stored with it.
    Integrity,
    /// An operation was called in a state in which it has nothing to work on.
    Usage,
}

/// A decoding failure.
#[derive(Debug, Clone, Copy, PartialEq, Eq, Structural)]
pub enum DecodeError {
    /// The input ends before the item being read is complete.
    UnexpectedEnd,
    /// A gzip member does not start with the bytes `0x1f 0x8b`.
    BadMagic,
    /// A gzip member names a compression method other than deflate.
    BadMethod,
    /// A block has the reserved type 3.
    ReservedBlockType,
    /// A stored block's length and its complement do not agree.
    BadStoredLength,
    /// The next bits are no code of the active table, at any length.
    NoMatchingCode,
    /// A length or distance symbol lies outside the alphabet.
    BadSymbol,
    /// The code lengths that a block gives for its codes make no code.
    BadCodeLengths,
    /// A back-reference has distance zero or points before the start of
    /// the output.
    BadReference,
    /// Decoded bytes that should be text are no valid UTF-8.
    BadText,
    /// A read asks for more bits than are left or than its result can hold.
    Range,
    /// The trailer's CRC-32 is not that of the decoded data.
    CrcMismatch,
    /// The trailer's size is not that of the decoded data.
    SizeMismatch,
    /// Decompression was asked for before anything was compressed.
    NothingCompressed,
    /// Decoding was asked for before anything was coded.
    NothingEncoded,
}

impl DecodeError {
    /// The class that each failure belongs to.
    pub open spec fn class_spec(self) -> ErrorClass {
        match self {
            DecodeError::UnexpectedEnd
            | DecodeError::BadMagic
            | DecodeError::BadMethod
            | DecodeError::ReservedBlockType
            | DecodeError::BadStoredLength
            | DecodeError::NoMatchingCode
            | DecodeError::BadSymbol
            | DecodeError::BadCodeLengths
            | DecodeError::BadReference
            | DecodeError::BadText => ErrorClass::Format,
            DecodeError::Range => ErrorClass::Range,
            DecodeError::CrcMismatch | DecodeError::SizeMismatch => ErrorClass::Integrity,
            DecodeError::NothingCompressed | DecodeError::NothingEncoded => ErrorClass::Usage,
        }
    }

    /// The class of this failure.
    #[verifier::when_used_as_spec(class_spec)]
    pub fn class(self) -> (res: ErrorClass)
        ensures
            res == self.class_spec(),
    {
        match self {
            DecodeError::UnexpectedEnd
            | DecodeError::BadMagic
            | DecodeError::BadMethod
            | DecodeError::ReservedBlockType
            | DecodeError::BadStoredLength
            | DecodeError::NoMatchingCode
            | DecodeError::BadSymbol
            | DecodeError::BadCodeLengths
            | DecodeError::BadReference
            | DecodeError::BadText => ErrorClass::Format,
            DecodeError::Range => ErrorClass::Range,
            DecodeError::CrcMismatch | DecodeError::SizeMismatch => ErrorClass::Integrity,
            DecodeError::NothingCompressed | DecodeError::NothingEncoded => ErrorClass::Usage,
        }
    }
}

} // verus!
