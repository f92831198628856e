//! Storage and growth engine for a strided, owned, n-dimensional array.
//!
//! An [`array::Array`] interprets one contiguous buffer through a shape
//! (per-axis extents) and strides (per-axis steps, in elements).  The crate
//! provides the in-place growth protocol (`try_append_array` and its
//! row/column sugar), ownership transfer with unreachable-element collection
//! (`move_into`), and the axis canonicalization the two rely on.

pub mod append;
pub mod array;
pub mod errors;
pub mod walk;
pub mod geom;
pub mod laws;
pub mod sorting;
pub mod transfer;
