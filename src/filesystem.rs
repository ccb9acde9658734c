//! Kinds of working copy file systems.

use vstd::prelude::*;

verus! {

/// How the working copy learns about file changes.
#[derive(PartialEq, Eq, Structural)]
pub enum FileSystemType {
    Normal,
    Watchman,
    Eden,
}

} // verus!
