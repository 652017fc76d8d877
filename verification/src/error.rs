//! The errors of the engine.

use vstd::prelude::*;

verus! {

/// What went wrong.
#[derive(Clone, Copy, Debug, PartialEq, Eq, Structural)]
pub enum LsmError {
    /// A key was empty.
    EmptyKey,
    /// A value handed to `put` was empty.
    EmptyValue,
    /// A range has a bound of a kind that it cannot have.
    InvalidBounds,
    /// A stored checksum differs from the checksum of the bytes it covers.
    ChecksumMismatch { expected: u32, actual: u32 },
    /// A block envelope ends in a tag that names no codec.
    UnknownCodec,
    /// Stored bytes end before the structure they hold is complete, or a
    /// length or offset in them points outside of them.
    Truncated,
    /// A length does not fit the field that stores it.
    Overflow,
    /// A MANIFEST record starts with a byte that names no operation.
    MalformedManifest,
    /// The codec refused its input.
    Compression,
    /// An append went to a log that was opened for reading.
    WalReadOnly,
    /// A replay was asked of a log that was opened for writing.
    WalWriteOnly,
    /// A change creates a table whose id is live.
    DuplicateTable { id: u64 },
    /// A change deletes a table whose id is not live.
    UnknownTable { id: u64 },
    /// A level does not fit the byte that stores it, or the engine has no
    /// such level.
    InvalidLevel,
    /// A table that is live has no file, or two files have one id.
    MissingTable,
}

/// The kinds into which errors fall.
#[derive(Clone, Copy, Debug, PartialEq, Eq, Structural)]
pub enum ErrorKind {
    /// The caller handed in something the engine does not accept.
    Validation,
    /// Stored bytes are not what was written.
    Corruption,
    /// A codec failed.
    Compression,
    /// The operation does not fit the state of the object.
    State,
}

impl LsmError {
    /// The kind of this error.
    pub open spec fn spec_kind(self) -> ErrorKind {
        match self {
            LsmError::EmptyKey
            | LsmError::EmptyValue
            | LsmError::InvalidLevel
            | LsmError::InvalidBounds => ErrorKind::Validation,
            LsmError::ChecksumMismatch { .. }
            | LsmError::UnknownCodec
            | LsmError::Truncated
            | LsmError::Overflow
            | LsmError::MissingTable
            | LsmError::MalformedManifest => ErrorKind::Corruption,
            LsmError::Compression => ErrorKind::Compression,
            LsmError::WalReadOnly
            | LsmError::WalWriteOnly
            | LsmError::DuplicateTable { .. }
            | LsmError::UnknownTable { .. } => ErrorKind::State,
        }
    }

    /// The kind of this error.
    #[verifier::when_used_as_spec(spec_kind)]
    pub fn kind(self) -> (k: ErrorKind)
        ensures
            k == self.spec_kind(),
    {
        match self {
            LsmError::EmptyKey
            | LsmError::EmptyValue
            | LsmError::InvalidLevel
            | LsmError::InvalidBounds => ErrorKind::Validation,
            LsmError::ChecksumMismatch { .. }
            | LsmError::UnknownCodec
            | LsmError::Truncated
            | LsmError::Overflow
            | LsmError::MissingTable
            | LsmError::MalformedManifest => ErrorKind::Corruption,
            LsmError::Compression => ErrorKind::Compression,
            LsmError::WalReadOnly
            | LsmError::WalWriteOnly
            | LsmError::DuplicateTable { .. }
            | LsmError::UnknownTable { .. } => ErrorKind::State,
        }
    }
}

} // verus!
