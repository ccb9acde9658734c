//! Operations that DAG storage backends offer.

use vstd::prelude::*;

verus! {

/// An error of a DAG operation.
#[derive(Debug)]
pub struct DagError {
    pub message: String,
}

/// Import an ASCII graph into the DAG.
pub trait ImportAscii {
    /// Imports the vertexes described in an ASCII graph. `heads` optionally
    /// gives the order in which heads are inserted.
    fn import_ascii_with_heads(&mut self, text: &str, heads: Option<&[String]>) -> Result<
        (),
        DagError,
    >;

    /// Imports the vertexes described in an ASCII graph.
    fn import_ascii(&mut self, text: &str) -> Result<(), DagError> {
        self.import_ascii_with_heads(text, None)
    }
}

/// Describes how to persist state to disk.
pub trait Persist {
    /// What `lock` returns.
    type Lock;

    /// Obtains an exclusive lock for writing, which keeps other writers out.
    fn lock(&mut self) -> Result<Self::Lock, DagError>;

    /// Reloads from the source of truth, dropping pending changes.
    fn reload(&mut self, lock: &Self::Lock) -> Result<(), DagError>;

    /// Writes pending changes to the source of truth.
    fn persist(&mut self, lock: &Self::Lock) -> Result<(), DagError>;
}

/// An address that can be used to open things. The address type decides
/// what `open` returns.
pub trait Open: Clone {
    type OpenTarget;

    fn open(&self) -> Result<Self::OpenTarget, DagError>;
}

/// Clone that may fail.
pub trait TryClone: Sized {
    fn try_clone(&self) -> Result<Self, DagError>;
}

} // verus!
