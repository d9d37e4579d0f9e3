//! References between items, one way or both ways.

use crate::key::Key;
use vstd::prelude::*;
use vstd::std_specs::convert::FromSpecImpl;

verus! {

/// Whether a reference is known at one end or at both.
#[derive(Debug, Clone, Copy, PartialEq, Eq, Structural)]
pub enum Directionality {
    /// Known to the referrer only.
    Uni,
    /// Known to both ends.
    Bi,
}

/// A reference known to the referrer only.
#[derive(Debug, Clone, Copy, PartialEq, Eq, Hash, PartialOrd, Ord)]
pub struct UniRef<T: ?Sized>(pub Key<T>);

/// A reference known to both ends.
#[derive(Debug, Clone, Copy, PartialEq, Eq, Hash, PartialOrd, Ord)]
pub struct BiRef<T: ?Sized>(pub Key<T>);

impl<T: ?Sized> From<UniRef<T>> for Key<T> {
    fn from(r: UniRef<T>) -> (k: Key<T>) {
        r.0
    }
}

impl<T: ?Sized> FromSpecImpl<UniRef<T>> for Key<T> {
    open spec fn obeys_from_spec() -> bool {
        true
    }

    open spec fn from_spec(v: UniRef<T>) -> Key<T> {
        v.0
    }
}

impl<T: ?Sized> From<BiRef<T>> for Key<T> {
    fn from(r: BiRef<T>) -> (k: Key<T>) {
        r.0
    }
}

impl<T: ?Sized> FromSpecImpl<BiRef<T>> for Key<T> {
    open spec fn obeys_from_spec() -> bool {
        true
    }

    open spec fn from_spec(v: BiRef<T>) -> Key<T> {
        v.0
    }
}

} // verus!
