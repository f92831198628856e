//! Failure kinds for shape-changing operations.

use vstd::prelude::*;

verus! {

/// Why an append was refused.
#[derive(Clone, Copy, Debug, PartialEq, Eq, Structural)]
pub enum ErrorKind {
    /// Axis-complement shapes differ, or the array has rank 0 where an axis
    /// is required.
    IncompatibleShape,
    /// The view does not cover its whole buffer (holes), or the requested
    /// growing axis would force existing data to move.
    IncompatibleLayout,
    /// The resulting element count cannot be represented in the size type.
    ShapeOverflow,
}

/// A recoverable shape error, carrying its kind.
#[derive(Clone, Copy, Debug, PartialEq, Eq, Structural)]
pub struct ShapeError {
    pub kind: ErrorKind,
}

impl ShapeError {
    /// Build an error of the given kind.
    pub fn from_kind(kind: ErrorKind) -> (r: ShapeError)
        ensures
            r.kind == kind,
    {
        ShapeError { kind }
    }

    /// The kind of this error.
    pub fn kind(&self) -> (k: ErrorKind)
        ensures
            k == self.kind,
    {
        self.kind
    }
}

} // verus!
