//! Edges between items by key.

use crate::key::Key;
use vstd::prelude::*;

verus! {

/// Sides of an edge between items.
#[derive(Debug, Clone, Copy, PartialEq, Eq, Structural, Hash)]
pub enum Side {
    /// The source, where the edge's data can be inlined.
    Source,
    /// The drain.
    Drain,
}

/// An edge from the item of `source` to the item of `drain`.
pub struct Edge<S: ?Sized, D: ?Sized> {
    pub source: Key<S>,
    pub drain: Key<D>,
}

/// An edge seen from one side, with the key of the item at the other.
pub struct PartialEdge<T: ?Sized>(pub Side, pub Key<T>);

} // verus!
