//! The failures that the storage engine reports.
use vstd::prelude::*;

verus! {

/// Why a storage operation failed.
///
/// The first three variants are input/output failures; `Corrupt` is the
/// data-corruption failure raised when stored bytes do not decode. Looking up
/// an identifier that is absent is not a failure and has no variant here.
#[derive(Debug, Clone, Copy, PartialEq, Eq, Structural)]
pub enum StorageError {
    /// The backing file ends before the whole block that was asked for.
    UnexpectedEof,
    /// The backing file cannot grow to the length that was asked for.
    ResizeFailed,
    /// A block handed over for writing cannot be laid out in one slot.
    InvalidData,
    /// The leading bytes of a slot are not the encoding of a block header.
    Corrupt,
}

impl StorageError {
    /// Whether this is an input/output failure rather than corrupt data.
    pub open spec fn spec_is_io(&self) -> bool {
        !(*self is Corrupt)
    }

    /// Whether this is an input/output failure rather than corrupt data.
    #[verifier::when_used_as_spec(spec_is_io)]
    pub fn is_io(&self) -> (r: bool)
        ensures
            r == self.spec_is_io(),
    {
        match self {
            StorageError::Corrupt => false,
            _ => true,
        }
    }
}

} // verus!
