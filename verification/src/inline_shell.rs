//! A shell that packs each reference into one word: the number of the
//! referring type in the low three bits, the index above them, in 45 bits.

use crate::key::{AnyKey, Index, Key};
use crate::types::type_id_of;
use std::any::TypeId;
use std::marker::PhantomData;
use vstd::prelude::*;

verus! {

/// An item that knows which types can reference it, so that references to
/// it can be packed: each such type has a small number.
pub trait Referable {
    /// The number of `ty` among the types that can reference this one.
    spec fn type_index(ty: TypeId) -> Option<u8>;

    /// The type of number `index`.
    spec fn index_type(index: u8) -> Option<TypeId>;

    /// A type's number gives the type back.
    proof fn lemma_type_index(ty: TypeId)
        ensures
            Self::type_index(ty) matches Some(i) ==> Self::index_type(i) == Some(ty),
    ;

    /// A number's type gives the number back.
    proof fn lemma_index_type(index: u8)
        ensures
            Self::index_type(index) matches Some(ty) ==> Self::type_index(ty) == Some(index),
    ;

    /// The number of `ty`, where it can reference this type.
    fn from_type(ty: TypeId) -> (r: Option<u8>)
        ensures
            r == Self::type_index(ty),
    ;

    /// The type of number `index`, where there is one.
    fn from_type_index(index: u8) -> (r: Option<TypeId>)
        ensures
            r == Self::index_type(index),
    ;
}

/// Bits of a packed reference's index.
pub const INDEX_BITS: u64 = 45;

/// A reference of type number `ty` to `index`, packed.
pub open spec fn pack(ty: u64, index: u64) -> u64 {
    ty | (index << 3u64)
}

/// The type number of a packed reference.
pub open spec fn packed_type(r: u64) -> u64 {
    r & 7
}

/// The index of a packed reference.
pub open spec fn packed_index(r: u64) -> u64 {
    r >> 3u64
}

/// Packing keeps both parts, and packed references are equal exactly where
/// both parts are.
pub proof fn lemma_pack(ty: u64, index: u64, ty2: u64, index2: u64)
    requires
        ty < 8,
        index < 0x2000_0000_0000,
        ty2 < 8,
        index2 < 0x2000_0000_0000,
    ensures
        packed_type(pack(ty, index)) == ty,
        packed_index(pack(ty, index)) == index,
        pack(ty, index) < 0x1_0000_0000_0000,
        pack(ty, index) == pack(ty2, index2) <==> ty == ty2 && index == index2,
{
    assert((ty | (index << 3u64)) & 7 == ty) by (bit_vector)
        requires
            ty < 8,
            index < 0x2000_0000_0000,
    ;
    assert((ty | (index << 3u64)) >> 3u64 == index) by (bit_vector)
        requires
            ty < 8,
            index < 0x2000_0000_0000,
    ;
    assert((ty | (index << 3u64)) < 0x1_0000_0000_0000) by (bit_vector)
        requires
            ty < 8,
            index < 0x2000_0000_0000,
    ;
    assert((ty2 | (index2 << 3u64)) & 7 == ty2) by (bit_vector)
        requires
            ty2 < 8,
            index2 < 0x2000_0000_0000,
    ;
    assert((ty2 | (index2 << 3u64)) >> 3u64 == index2) by (bit_vector)
        requires
            ty2 < 8,
            index2 < 0x2000_0000_0000,
    ;
}

/// The references to an item of type `T`, packed, in the order the shell
/// keeps them.
pub struct InlineShell<T: Referable + ?Sized> {
    from: Vec<u64>,
    _data: PhantomData<T>,
}

impl<T: Referable + ?Sized> InlineShell<T> {
    /// The packed references.
    pub closed spec fn packed(&self) -> Seq<u64> {
        self.from@
    }

    /// The references, each the type and index of the referring item.
    pub closed spec fn refs(&self) -> Seq<(TypeId, u64)> {
        self.from@.map_values(|r: u64| (T::index_type(packed_type(r) as u8)->0, packed_index(r)))
    }

    /// Every packed reference has a type number of a type and an index.
    pub closed spec fn wf(&self) -> bool {
        forall|a: int|
            0 <= a < self.from@.len() ==> {
                let r = #[trigger] self.from@[a];
                &&& T::index_type(packed_type(r) as u8) is Some
                &&& packed_index(r) != 0
                &&& packed_index(r) < 0x2000_0000_0000
            }
    }

    /// `from` can be packed: its type has a number below eight and its
    /// index fits the bits.
    pub open spec fn packable(from: (TypeId, u64)) -> bool {
        &&& T::type_index(from.0) matches Some(i) && i < 8
        &&& from.1 < 0x2000_0000_0000
    }

    /// A shell with no references.
    pub fn new() -> (r: Self)
        ensures
            r.wf(),
            r.refs().len() == 0,
    {
        InlineShell { from: Vec::new(), _data: PhantomData }
    }

    /// `from`, packed.
    fn to_ref(from: AnyKey) -> (r: u64)
        requires
            Self::packable(from@),
        ensures
            r == pack(T::type_index(from@.0)->0 as u64, from@.1),
            T::index_type(packed_type(r) as u8) == Some(from@.0),
            packed_index(r) == from@.1,
            packed_index(r) != 0,
            packed_index(r) < 0x2000_0000_0000,
    {
        let ty_index = match T::from_type(from.ty_id()) {
            Some(i) => i,
            None => 0,
        };
        let key = from.index().get();
        proof {
            T::lemma_type_index(from@.0);
            lemma_pack(ty_index as u64, key, 0, 1);
        }
        (ty_index as u64) | (key << 3u64)
    }

    /// The type of the item the shell belongs to.
    pub fn item_ty(&self) -> TypeId where T: 'static {
        type_id_of::<T>()
    }

    /// Number of references.
    pub fn from_count(&self) -> (r: usize)
        ensures
            r == self.refs().len(),
    {
        self.from.len()
    }

    /// Records a reference from `from`.
    pub fn add_from(&mut self, from: AnyKey)
        requires
            old(self).wf(),
            Self::packable(from@),
        ensures
            final(self).wf(),
            final(self).refs() == old(self).refs().push(from@),
    {
        let r = Self::to_ref(from);
        self.from.push(r);
        proof {
            assert(self.refs() =~= old(self).refs().push(from@));
        }
    }

    /// Drops one reference from `from`, where there is one: the first, the
    /// last reference taking its place.
    pub fn remove_from(&mut self, from: AnyKey)
        requires
            old(self).wf(),
            Self::packable(from@),
        ensures
            final(self).wf(),
            !old(self).refs().contains(from@) ==> final(self).refs() == old(self).refs(),
            old(self).refs().contains(from@) ==> exists|i: int|
                0 <= i < old(self).refs().len() && old(self).refs()[i] == from@ && (forall|j: int|
                    0 <= j < i ==> old(self).refs()[j] != from@) && final(self).refs() == old(
                    self,
                ).refs().update(i, old(self).refs().last()).drop_last(),
    {
        let remove = Self::to_ref(from);
        let mut i: usize = 0;
        while i < self.from.len()
            invariant
                self.wf(),
                *self == *old(self),
                i <= self.from@.len(),
                remove == pack(T::type_index(from@.0)->0 as u64, from@.1),
                T::index_type(packed_type(remove) as u8) == Some(from@.0),
                packed_index(remove) == from@.1,
                forall|j: int| 0 <= j < i ==> self.refs()[j] != from@,
            decreases self.from@.len() - i,
        {
            if self.from[i] == remove {
                let ghost refs0 = self.refs();
                self.from.swap_remove(i);
                proof {
                    assert(refs0[i as int] == from@);
                    assert(self.refs() =~= refs0.update(i as int, refs0.last()).drop_last());
                }
                return;
            }
            proof {
                let r = self.from@[i as int];
                if self.refs()[i as int] == from@ {
                    let t = packed_type(r);
                    assert(t < 8) by (bit_vector)
                        requires
                            t == r & 7,
                    ;
                    assert(t as u8 as u64 == t) by (bit_vector)
                        requires
                            t < 8,
                    ;
                    T::lemma_index_type(t as u8);
                    assert(r == pack(packed_type(r), packed_index(r))) by (bit_vector);
                    assert(false);
                }
            }
            i += 1;
        }
        proof {
            assert(!old(self).refs().contains(from@));
        }
    }

    /// The references, each as a key of any type.
    pub fn iter(&self) -> (r: Vec<AnyKey>)
        requires
            self.wf(),
        ensures
            r@.len() == self.refs().len(),
            forall|a: int| 0 <= a < r@.len() ==> #[trigger] r@[a]@ == self.refs()[a],
    {
        let mut r: Vec<AnyKey> = Vec::new();
        let mut i: usize = 0;
        while i < self.from.len()
            invariant
                self.wf(),
                i <= self.from@.len(),
                r@.len() == i,
                forall|a: int| 0 <= a < i ==> #[trigger] r@[a]@ == self.refs()[a],
            decreases self.from@.len() - i,
        {
            let packed = self.from[i];
            let ty = match T::from_type_index((packed & 7) as u8) {
                Some(ty) => ty,
                None => {
                    proof {
                        assert(false);
                    }
                    return r;
                },
            };
            let index = match Index::new(packed >> 3u64) {
                Some(index) => index,
                None => {
                    proof {
                        assert(false);
                    }
                    return r;
                },
            };
            r.push(AnyKey::new(ty, index));
            i += 1;
        }
        r
    }

    /// Some reference has index `x`.
    pub open spec fn has_index(&self, x: u64) -> bool {
        exists|b: int| 0 <= b < self.refs().len() && #[trigger] self.refs()[b].1 == x
    }

    /// The references from items of type `F`, as keys of `F`: the indices
    /// of all references from items of one type, that of `F`, in the order
    /// the shell keeps them. Which type that is rests on `TypeId::of::<F>()`,
    /// whose value is not stated.
    pub fn from<F: ?Sized + 'static>(&self) -> (r: Vec<Key<F>>)
        requires
            self.wf(),
        ensures
            forall|a: int| 0 <= a < r@.len() ==> self.has_index(#[trigger] r@[a]@),
            exists|ty: TypeId| r@.map_values(|k: Key<F>| k@) == indices_of_type(self.refs(), ty),
    {
        let ty = type_id_of::<F>();
        let all = self.iter();
        let mut r: Vec<Key<F>> = Vec::new();
        let mut i: usize = 0;
        proof {
            assert(self.refs().take(0) =~= Seq::<(TypeId, u64)>::empty());
            assert(r@.map_values(|k: Key<F>| k@) =~= Seq::<u64>::empty());
        }
        while i < all.len()
            invariant
                i <= all@.len(),
                all@.len() == self.refs().len(),
                forall|a: int| 0 <= a < all@.len() ==> #[trigger] all@[a]@ == self.refs()[a],
                forall|a: int| 0 <= a < r@.len() ==> self.has_index(#[trigger] r@[a]@),
                r@.map_values(|k: Key<F>| k@) == indices_of_type(self.refs().take(i as int), ty),
            decreases all@.len() - i,
        {
            let key = all[i];
            let ghost r0 = r@;
            proof {
                assert(self.refs().take(i + 1).drop_last() =~= self.refs().take(i as int));
                assert(self.refs().take(i + 1).last() == self.refs()[i as int]);
                assert(all@[i as int]@ == self.refs()[i as int]);
            }
            match key.downcast_with::<F>(ty) {
                Some(k) => {
                    r.push(k);
                    proof {
                        assert(r@[r@.len() - 1]@ == self.refs()[i as int].1);
                        assert(self.has_index(self.refs()[i as int].1));
                        assert(r@.map_values(|k: Key<F>| k@) =~= r0.map_values(|k: Key<F>| k@).push(k@));
                    }
                },
                None => {},
            }
            i += 1;
        }
        proof {
            assert(self.refs().take(i as int) =~= self.refs());
        }
        r
    }
}

/// The indices of the references in `refs` from items of type `ty`, in
/// order.
pub open spec fn indices_of_type(refs: Seq<(TypeId, u64)>, ty: TypeId) -> Seq<u64>
    decreases refs.len(),
{
    if refs.len() == 0 {
        Seq::empty()
    } else if refs.last().0 == ty {
        indices_of_type(refs.drop_last(), ty).push(refs.last().1)
    } else {
        indices_of_type(refs.drop_last(), ty)
    }
}

} // verus!
