//! The error taxonomy shared by the path codec and the store.

use vstd::prelude::*;

verus! {

/// Why an operation on the codec or the store was refused.
///
/// - `InvalidSegment`: a segment sequence handed to the codec was empty, or a
///   segment could not be produced within the machine's integer range.
/// - `MalformedPath`: a path string is not the canonical dot-rendering of a
///   non-empty sequence of non-negative integers.
/// - `DuplicatePath`: an insert named a path that already exists.
/// - `NotFound`: a read, update or delete named a path that does not exist.
/// - `IndexDrift`: a consistency check found the search index disagreeing
///   with the node table; recoverable only by a full rebuild.
/// - `StorageFailure`: the storage layer itself refused the operation; here
///   that is exhaustion of an id counter, surfaced whole, nothing partially
///   applied.
#[derive(Clone, Copy, PartialEq, Eq, Structural, Debug, Hash)]
pub enum StoreError {
    InvalidSegment,
    MalformedPath,
    DuplicatePath,
    NotFound,
    IndexDrift,
    StorageFailure,
}

} // verus!
