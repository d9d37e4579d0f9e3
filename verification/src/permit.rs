//! Permits: proofs, held in the type, of what a borrow of a container may
//! do. A permit reads (`Ref`) or writes (`Mut`), and covers whole slots
//! (`Slot`), or only their items (`Item`) or only their shells (`Shell`).
//! A slot permit splits into an item permit and a shell permit.

use crate::types::{same_type_id, type_id_of};
use std::any::TypeId;
use std::marker::PhantomData;
use vstd::prelude::*;

verus! {

/// Reads.
pub struct Ref;

/// Reads and writes.
pub struct Mut;

/// Covers whole slots.
pub struct Slot;

/// Covers the items of slots.
pub struct Item;

/// Covers the shells of slots.
pub struct Shell;

/// Two halves of a split: the item part and the shell part.
pub struct Split<I, S> {
    pub item: I,
    pub shell: S,
}

impl<I, S> Split<I, S> {
    /// Pairs `item` with `shell`.
    pub fn new(item: I, shell: S) -> (r: Self)
        ensures
            r.item == item,
            r.shell == shell,
    {
        Split { item, shell }
    }

    /// Maps the item part with `f` and the shell part with `g`.
    pub fn map<I2, S2, F: FnOnce(I) -> I2, G: FnOnce(S) -> S2>(self, f: F, g: G) -> (r: Split<I2, S2>)
        requires
            f.requires((self.item,)),
            g.requires((self.shell,)),
        ensures
            f.ensures((self.item,), r.item),
            g.ensures((self.shell,), r.shell),
    {
        Split { item: f(self.item), shell: g(self.shell) }
    }
}

/// Ownership of one part, `S`, of every slot of a container.
pub struct SplitOwnership<'a, S, C> {
    container: &'a C,
    _marker: PhantomData<S>,
}

impl<'a, S, C> SplitOwnership<'a, S, C> {
    /// The container.
    pub closed spec fn container(&self) -> C {
        *self.container
    }

    /// Ownership over `container`.
    pub fn new(container: &'a C) -> (r: Self)
        ensures
            r.container() == *container,
    {
        SplitOwnership { container, _marker: PhantomData }
    }

    /// A reading permit for every type.
    pub fn get(&self) -> (r: AnyPermit<'_, Ref, S, C>)
        ensures
            r.container() == self.container(),
    {
        AnyPermit::new(self.container)
    }

    /// A writing permit for every type.
    pub fn get_mut(&mut self) -> (r: AnyPermit<'_, Mut, S, C>)
        ensures
            r.container() == old(self).container(),
    {
        AnyPermit::new(self.container)
    }

    /// Ownership that hands out permits type by type.
    pub fn complex(self) -> (r: ComplexOwnership<'a, S, C>)
        ensures
            r.container() == self.container(),
            r.splitted().len() == 0,
    {
        ComplexOwnership::new(self.container)
    }
}

/// Ownership of one part, `S`, of every slot of a container, that hands out
/// a writing permit for each type once.
pub struct ComplexOwnership<'a, S, C> {
    container: &'a C,
    splitted: Vec<TypeId>,
    _marker: PhantomData<S>,
}

impl<'a, S, C> ComplexOwnership<'a, S, C> {
    /// The container.
    pub closed spec fn container(&self) -> C {
        *self.container
    }

    /// The types whose permits were handed out, in order.
    pub closed spec fn splitted(&self) -> Seq<TypeId> {
        self.splitted@
    }

    /// Ownership over `container` that has handed out nothing.
    pub fn new(container: &'a C) -> (r: Self)
        ensures
            r.container() == *container,
            r.splitted().len() == 0,
    {
        ComplexOwnership { container, splitted: Vec::new(), _marker: PhantomData }
    }

    /// The writing permit for `T`, the first time it is asked for; none
    /// after that. Which type identifier is recorded is that of
    /// `TypeId::of::<T>()`, which `split_off_with` is handed.
    pub fn split_off<T: 'static>(&mut self) -> (r: Option<Permit<'a, Mut, T, S, C>>)
        ensures
            final(self).container() == old(self).container(),
            r matches Some(p) ==> {
                &&& p.container() == old(self).container()
                &&& final(self).splitted().len() == old(self).splitted().len() + 1
                &&& final(self).splitted().drop_last() == old(self).splitted()
                &&& !old(self).splitted().contains(final(self).splitted().last())
            },
            r is None ==> final(self).splitted() == old(self).splitted() && old(
                self,
            ).splitted().len() > 0,
    {
        self.split_off_with::<T>(type_id_of::<T>())
    }

    /// The writing permit for `T`, whose type identifier is `id`, the first
    /// time `id` is asked for, recording it; none, changing nothing, after
    /// that.
    pub fn split_off_with<T>(&mut self, id: TypeId) -> (r: Option<Permit<'a, Mut, T, S, C>>)
        ensures
            final(self).container() == old(self).container(),
            r is Some <==> !old(self).splitted().contains(id),
            r matches Some(p) ==> p.container() == old(self).container() && final(self).splitted()
                == old(self).splitted().push(id),
            r is None ==> final(self).splitted() == old(self).splitted(),
    {
        let mut i: usize = 0;
        while i < self.splitted.len()
            invariant
                i <= self.splitted@.len(),
                self.splitted@ == old(self).splitted@,
                self.container == old(self).container,
                forall|j: int| 0 <= j < i ==> self.splitted@[j] != id,
            decreases self.splitted@.len() - i,
        {
            if same_type_id(&self.splitted[i], &id) {
                return None;
            }
            i += 1;
        }
        self.splitted.push(id);
        Some(Permit::new(self.container))
    }
}

/// A permit to access, as `R` allows, part `S` of the slots of type `T` of
/// a container.
pub struct Permit<'a, R, T, S, C> {
    container: &'a C,
    _marker: PhantomData<(R, T, S)>,
}

impl<'a, R, T, S, C> Permit<'a, R, T, S, C> {
    /// The container.
    pub closed spec fn container(&self) -> C {
        *self.container
    }

    /// A permit over `container`.
    fn new(container: &'a C) -> (r: Self)
        ensures
            r.container() == *container,
    {
        Permit { container, _marker: PhantomData }
    }

    /// The access this permit gives.
    pub fn access(&self) -> Access<R, S> {
        Access { _marker: PhantomData }
    }
}

impl<'a, T, S, C> Permit<'a, Mut, T, S, C> {
    /// A reading permit, while this one is borrowed.
    pub fn borrow(&self) -> (r: Permit<'_, Ref, T, S, C>)
        ensures
            r.container() == self.container(),
    {
        Permit::new(self.container)
    }

    /// A writing permit, while this one is borrowed.
    pub fn borrow_mut(&mut self) -> (r: Permit<'_, Mut, T, S, C>)
        ensures
            r.container() == old(self).container(),
    {
        Permit::new(self.container)
    }
}

impl<'a, R, T, C> Permit<'a, R, T, Slot, C> {
    /// Splits a slot permit into an item permit and a shell permit.
    pub fn split(self) -> (r: Split<Permit<'a, R, T, Item, C>, Permit<'a, R, T, Shell, C>>)
        ensures
            r.item.container() == self.container(),
            r.shell.container() == self.container(),
    {
        Split { item: Permit::new(self.container), shell: Permit::new(self.container) }
    }
}

/// A permit to access, as `R` allows, part `S` of the slots of every type
/// of a container.
pub struct AnyPermit<'a, R, S, C> {
    container: &'a C,
    _marker: PhantomData<(R, S)>,
}

impl<'a, R, S, C> AnyPermit<'a, R, S, C> {
    /// The container.
    pub closed spec fn container(&self) -> C {
        *self.container
    }

    /// A permit over `container`.
    fn new(container: &'a C) -> (r: Self)
        ensures
            r.container() == *container,
    {
        AnyPermit { container, _marker: PhantomData }
    }

    /// The permit narrowed to the slots of type `T`.
    pub fn of<T>(self) -> (r: Permit<'a, R, T, S, C>)
        ensures
            r.container() == self.container(),
    {
        Permit::new(self.container)
    }
}

impl<'a, S, C> AnyPermit<'a, Mut, S, C> {
    /// A reading permit, while this one is borrowed.
    pub fn borrow(&self) -> (r: AnyPermit<'_, Ref, S, C>)
        ensures
            r.container() == self.container(),
    {
        AnyPermit::new(self.container)
    }

    /// A writing permit, while this one is borrowed.
    pub fn borrow_mut(&mut self) -> (r: AnyPermit<'_, Mut, S, C>)
        ensures
            r.container() == old(self).container(),
    {
        AnyPermit::new(self.container)
    }
}

impl<'a, R, C> AnyPermit<'a, R, Slot, C> {
    /// Splits a slot permit into an item permit and a shell permit.
    pub fn split(self) -> (r: Split<AnyPermit<'a, R, Item, C>, AnyPermit<'a, R, Shell, C>>)
        ensures
            r.item.container() == self.container(),
            r.shell.container() == self.container(),
    {
        Split { item: AnyPermit::new(self.container), shell: AnyPermit::new(self.container) }
    }
}

/// The access that a permit gives: `R` to part `S` of slots.
pub struct Access<R, S> {
    _marker: PhantomData<(R, S)>,
}

impl<R> Access<R, Slot> {
    /// Splits slot access into item access and shell access.
    pub fn split(self) -> Split<Access<R, Item>, Access<R, Shell>> {
        Split { item: Access { _marker: PhantomData }, shell: Access { _marker: PhantomData } }
    }
}

} // verus!
