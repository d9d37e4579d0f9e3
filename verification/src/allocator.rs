//! Reservation of keys by containers.

use crate::key::{
    can_split_prefix, can_split_prefix_try, can_with_prefix, split_prefix_spec, with_prefix_spec,
    Index, SubKey,
};
use vstd::prelude::*;

verus! {

/// Manages allocation, placement and deallocation of items of type `T`.
pub trait Allocator<T: ?Sized> {
    /// Reserves a slot for `item`; none if the container is out of keys or memory.
    fn reserve(&mut self, item: &T) -> Option<ReservedKey<T>>;

    /// Cancels the reservation `key`.
    fn cancel(&mut self, key: ReservedKey<T>);

    /// Fulfills the reservation `key` with `item`.
    fn fulfill(&mut self, key: ReservedKey<T>, item: T) -> SubKey<T> where T: Sized;

    /// Frees the slot at `key` and returns its item, if it holds one.
    fn unfill(&mut self, key: SubKey<T>) -> Option<T> where T: Sized;
}

/// A key reserved by a container for an item that is yet to be placed.
pub struct ReservedKey<T: ?Sized>(SubKey<T>);

impl<T: ?Sized> View for ReservedKey<T> {
    type V = u64;

    closed spec fn view(&self) -> u64 {
        self.0@
    }
}

impl<T: ?Sized> ReservedKey<T> {
    /// Reservation of `key`. Only containers should make one.
    pub fn new(key: SubKey<T>) -> (r: Self)
        ensures
            r@ == key@,
    {
        ReservedKey(key)
    }

    /// The reserved key.
    pub fn key(&self) -> (r: SubKey<T>)
        ensures
            r@ == self@,
    {
        self.0
    }

    /// Pushes `prefix` of `prefix_len` bits on top of the reserved key.
    pub fn with_prefix(self, prefix_len: u32, prefix: Index) -> (r: Self)
        requires
            can_with_prefix(self@, prefix_len, prefix@),
        ensures
            r@ == with_prefix_spec(self@, prefix_len, prefix@),
    {
        ReservedKey(self.0.with_prefix(prefix_len, prefix))
    }

    /// Splits off the prefix of `prefix_len` bits from the rest.
    pub fn split_prefix(self, prefix_len: u32) -> (r: (Index, Self))
        requires
            can_split_prefix(self@, prefix_len),
        ensures
            (r.0@, r.1@) == split_prefix_spec(self@, prefix_len),
    {
        let (prefix, suffix) = self.0.split_prefix(prefix_len);
        (prefix, ReservedKey(suffix))
    }

    /// Splits off the prefix of `prefix_len` bits; none where nothing is left
    /// below it.
    pub fn split_prefix_try(self, prefix_len: u32) -> (r: (Index, Option<Self>))
        requires
            can_split_prefix_try(self@, prefix_len),
        ensures
            r.0@ == split_prefix_spec(self@, prefix_len).0,
            r.1 is Some <==> split_prefix_spec(self@, prefix_len).1 != 0,
            r.1 matches Some(s) ==> s@ == split_prefix_spec(self@, prefix_len).1,
    {
        let (prefix, suffix) = self.0.split_prefix_try(prefix_len);
        match suffix {
            Some(suffix) => (prefix, Some(ReservedKey(suffix))),
            None => (prefix, None),
        }
    }

    /// Finishes the reservation, the one proper way to end it.
    pub fn take(self) -> (r: SubKey<T>)
        ensures
            r@ == self@,
    {
        self.0
    }
}

} // verus!
