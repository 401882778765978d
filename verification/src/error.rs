//! The ways in which a merge fails.

use vstd::prelude::*;

verus! {

/// Why a merge produced no document.
#[derive(Clone, Copy, Debug, PartialEq, Eq, Structural)]
pub enum MergeError {
    /// No document was given.
    EmptyInput,
    /// The input at `index` is not a well-formed document.
    ParseFailure { index: usize },
    /// An object refers to an identifier that its document does not hold, so
    /// that the reference would have no target in the merged table.
    DanglingReferenceAfterMerge,
    /// The merged document cannot be encoded to bytes.
    SerializationFailure,
    /// The objects need more identifiers than there are object numbers.
    TooManyObjects,
}

} // verus!
