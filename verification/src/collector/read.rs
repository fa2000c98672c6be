//! What came of reading a file or a directory.

use vstd::prelude::*;

verus! {

#[derive(Debug, Clone, Copy, PartialEq, Eq, Structural)]
pub enum FailureKind {
    /// The file or directory is not there.
    NotFound,
    /// The kernel denied access.
    PermissionDenied,
    /// Anything else.
    Other,
}

/// Why a file or a directory could not be read.
#[derive(Debug)]
pub struct ReadFailure {
    pub kind: FailureKind,
    /// The system's own words for it.
    pub cause: String,
}

impl ReadFailure {
    /// Whether the file is absent or closed to us: nothing to report, but no
    /// value either.
    pub open spec fn is_gated(self) -> bool {
        self.kind is NotFound || self.kind is PermissionDenied
    }

    /// Whether the file is absent or closed to us.
    pub fn gated(&self) -> (r: bool)
        ensures
            r == self.is_gated(),
    {
        match self.kind {
            FailureKind::NotFound => true,
            FailureKind::PermissionDenied => true,
            FailureKind::Other => false,
        }
    }
}

} // verus!
