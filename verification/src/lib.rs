//! Annotated, content-addressed, recursive data structures.
//!
//! Persistent tree-shaped collections where every interior node caches a
//! monoidal summary (the annotation) of its subtree.  Annotations enable
//! logarithmic-time queries — the `Nth` leaf, the maximum key, the
//! cardinality — without traversing the whole structure, and subtrees can be
//! lazily materialized from a content-addressed store.

use vstd::prelude::*;

pub mod annotation;
pub mod cardinality;
pub mod canon;
pub mod codec;
pub mod compound;
pub mod generic;
pub mod link;
pub mod max;
pub mod nth;
pub mod store;
pub mod walk;

verus! {

/// The error kinds surfaced by the core.
#[derive(Clone, Copy, Debug, PartialEq, Eq, Structural)]
pub enum Error {
    /// A decoded byte stream does not match the expected schema.
    MalformedData,
    /// The store has no value for a requested identifier.
    NotFound,
    /// The underlying store reports an I/O failure.
    Io,
    /// A walker received nonsensical state.
    InvalidArgument,
}

} // verus!
