//! Failure records accumulated during a run.
//!
//! An error arising from a single path is isolated to that path: it is
//! recorded and the path drops out of further processing, but the rest of
//! the run goes on.  Nothing here aborts.

use vstd::prelude::*;

verus! {

/// What went wrong with one path, mapped from the underlying failure.
#[derive(Debug, Clone, Copy, PartialEq, Eq, Structural)]
pub enum ErrorKind {
    /// The path did not exist when its metadata was read.
    NotFound,
    /// The path could not be accessed.
    PermissionDenied,
    /// A file that had passed classification could not be read back
    /// when its content was needed for a comparison.
    IoReadError,
    /// Any other failure of the underlying system.
    Other,
}

/// One recorded failure: the offending path and a description of the cause.
#[derive(Debug)]
pub struct TraversalError {
    pub path: String,
    pub kind: ErrorKind,
    pub detail: String,
}

impl TraversalError {
    pub fn new(path: String, kind: ErrorKind, detail: String) -> (e: Self)
        ensures
            e.path == path,
            e.kind == kind,
            e.detail == detail,
    {
        TraversalError { path, kind, detail }
    }
}

} // verus!
