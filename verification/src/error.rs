//! Failure kinds reported by the library.

use vstd::prelude::*;

use crate::hash::Sha1Hash;

verus! {

/// Every failure the core can report, as a distinct, inspectable kind.
///
/// I/O failures themselves (missing files, permissions) are reported by the
/// unverified caller that performs the I/O; the kinds here are the ones the
/// verified logic can decide.
#[derive(Debug)]
pub enum GitError {
    /// A hex string held a character outside `0-9a-fA-F`, or had odd length.
    DecodeError,
    /// A decoded hash was not exactly 20 bytes long.
    SizeNotMatch,
    /// The named object was expected to be a tree but is not.
    NotTreeError(Sha1Hash),
    /// The named object is a tree where a blob or commit was expected.
    IsTreeError(Sha1Hash),
    /// Stored object bytes failed to decompress or decode.
    CorruptObject,
    /// Stored index bytes failed to decode.
    CorruptIndex,
    /// The index lock file already exists: another writer holds the index.
    ConcurrentModification,
}

} // verus!
