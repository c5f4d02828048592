//! The ways in which an operation of the storage core can fail.

use vstd::prelude::*;

verus! {

/// Why an operation did not complete.
#[derive(Clone, Copy, Debug, PartialEq, Eq, Structural)]
pub enum StoreError {
    /// The storage medium, or what was read back from it, could not be used;
    /// or the system clock could not be read.
    StorageIoError,
    /// No object is stored under the digest that was asked for.
    ObjectNotFound,
    /// The persisted index is not the persisted form of any staged set.
    IndexCorrupt,
    /// A staged path no longer resolves to stored content.
    StaleStagingEntry,
    /// A commit was asked for with an empty message.
    EmptyMessage,
    /// A commit was asked for with nothing staged.
    NothingStaged,
}

} // verus!
