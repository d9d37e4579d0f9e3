//! Collections seen without knowing the types of their items.

use crate::key::AnyKey;
use crate::permit::{AnyPermit, Mut, Ref, Slot};
use vstd::prelude::*;

verus! {

/// The keys of a collection, of whatever type.
pub trait AnyKeyCollection {
    /// The first key.
    fn first_any(&self) -> Option<AnyKey>;

    /// The key after `key`, indices ascending; how types are ordered is
    /// left open.
    fn next_any(&self, key: AnyKey) -> Option<AnyKey>;
}

/// Access to the slots of a container of type `M`.
pub trait Access<M> {
    /// Reading access.
    fn access(&self) -> AnyPermit<'_, Ref, Slot, M>;

    /// Writing access.
    fn access_mut(&mut self) -> AnyPermit<'_, Mut, Slot, M>;
}

} // verus!
