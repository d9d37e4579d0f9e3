//! Edges between items, as source and drain: source[data] -> drain.

use std::ops::Not;
use vstd::prelude::*;

verus! {

/// Sides of an edge.
#[derive(Debug, Clone, Copy, PartialEq, Eq, Structural, Hash)]
pub enum Side {
    /// The source, where the edge's data can be inlined.
    Source,
    /// The drain.
    Drain,
}

/// The other side.
pub open spec fn opposite(side: Side) -> Side {
    match side {
        Side::Source => Side::Drain,
        Side::Drain => Side::Source,
    }
}

impl Side {
    /// An edge seen from this side, with `object` at the other.
    pub fn object<T>(self, object: T) -> (r: PartialEdge<T>)
        ensures
            r.subject == self,
            r.object == object,
    {
        PartialEdge { subject: self, object }
    }
}

impl Not for Side {
    type Output = Side;

    fn not(self) -> (r: Side) {
        match self {
            Side::Source => Side::Drain,
            Side::Drain => Side::Source,
        }
    }
}

impl vstd::std_specs::ops::NotSpecImpl for Side {
    open spec fn obeys_not_spec() -> bool {
        true
    }

    open spec fn not_req(self) -> bool {
        true
    }

    open spec fn not_spec(self) -> Side {
        opposite(self)
    }
}

/// Flipping a side twice gives it back.
pub proof fn lemma_opposite_involutive(side: Side)
    ensures
        opposite(opposite(side)) == side,
        opposite(side) != side,
{
}

/// An edge: its source and its drain.
#[derive(Debug, PartialEq, Eq, Hash, Clone, Copy)]
pub struct Edge<S, D> {
    pub source: S,
    pub drain: D,
}

/// An edge seen from one side, the subject, with what is at the other side,
/// the object.
#[derive(Debug, PartialEq, Eq, Hash, Clone, Copy)]
pub struct PartialEdge<T> {
    pub subject: Side,
    pub object: T,
}

impl<T> PartialEdge<T> {
    /// The same edge with `map` applied to its object.
    pub fn map<F, M: FnOnce(T) -> F>(self, map: M) -> (r: PartialEdge<F>)
        requires
            map.requires((self.object,)),
        ensures
            r.subject == self.subject,
            map.ensures((self.object,), r.object),
    {
        PartialEdge { subject: self.subject, object: map(self.object) }
    }

    /// The edge seen from the other side, with `object` where the subject
    /// was.
    pub fn reverse<F>(self, object: F) -> (r: PartialEdge<F>)
        ensures
            r.subject == opposite(self.subject),
            r.object == object,
    {
        PartialEdge { subject: self.subject.not(), object }
    }
}

} // verus!
