//! Errors of the tree state store.

use vstd::prelude::*;

verus! {

/// What can go wrong when the tree state store is read or written.
#[derive(Debug, PartialEq)]
pub enum ErrorKind {
    /// The file at this path is not a valid store file.
    NotAStoreFile(String),
    UnsupportedTreeVersion(u32),
    UnsupportedVersion(u32),
    InvalidStoreId(u64),
    ReadOnlyStore,
    CorruptTree,
    CallbackError(String),
    /// The dirstate or treestate was out of date and therefore did not flush.
    TreestateOutOfDate,
    /// Timed out waiting for the working copy lock.
    LockTimeout,
}

} // verus!
