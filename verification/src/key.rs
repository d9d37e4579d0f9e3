//! Numerical keys.
//!
//! A key is a non-zero 64 bit index. Keys are built from the top by pushing
//! prefixes in front of a suffix and taken apart from the top again by
//! splitting prefixes off.

use crate::types::{same_type_id, type_id_of};
use std::any::TypeId;
use std::marker::PhantomData;
use std::ops::{Add, Sub};
use vstd::prelude::*;
use vstd::std_specs::cmp::PartialEqSpecImpl;
use vstd::std_specs::convert::FromSpecImpl;
use vstd::std_specs::ops::{AddSpec, SubSpec};
use vstd::wrapping::u64_specs::{wrapping_add, wrapping_sub};
use vstd::std_specs::bits::{u64_leading_zeros, u64_trailing_zeros};

verus! {

broadcast use vstd::std_specs::bits::group_bits_axioms;

/// Number of bits in an index.
pub const INDEX_BITS: u32 = 64;

/// Longest key, in bits.
pub const MAX_KEY_LEN: u32 = 64;

/// Number of significant bits of `v`: one past its highest set bit.
pub open spec fn low_len(v: u64) -> int {
    64 - u64_leading_zeros(v)
}

/// Number of bits from the top of `v` down to and including its lowest set bit.
pub open spec fn high_len(v: u64) -> int {
    64 - u64_trailing_zeros(v) as int
}

/// Mask of the lowest `n` bits, for `n < 64`.
pub open spec fn low_mask(n: u32) -> u64 {
    ((1u64 << n) - 1) as u64
}

/// `x` with `l` bits appended below it, filled by `s`.
pub open spec fn with_suffix_spec(x: u64, l: u32, s: u64) -> u64 {
    (x << l) | s
}

/// `x` with the `l` bit prefix `p` pushed in at the top; `x` moves down by `l` bits.
pub open spec fn with_prefix_spec(x: u64, l: u32, p: u64) -> u64 {
    (p << ((64 - l) as u32)) | (x >> l)
}

/// `x` split into what is above its lowest `l` bits and those bits.
pub open spec fn split_suffix_spec(x: u64, l: u32) -> (u64, u64) {
    (x >> l, x & low_mask(l))
}

/// `x` split into its top `l` bits and the rest moved up by `l` bits.
pub open spec fn split_prefix_spec(x: u64, l: u32) -> (u64, u64) {
    (x >> ((64 - l) as u32), x << l)
}

/// The inputs on which appending a suffix neither overflows a shift nor
/// yields a zero prefix.
pub open spec fn can_with_suffix(x: u64, l: u32, s: u64) -> bool {
    &&& l < 64
    &&& low_len(s) <= l
    &&& x << l != 0
}

/// The inputs on which pushing a prefix neither overflows a shift nor leaves
/// a zero suffix.
pub open spec fn can_with_prefix(x: u64, l: u32, p: u64) -> bool {
    &&& 1 <= l < 64
    &&& low_len(p) <= l
    &&& x >> l != 0
}

/// The inputs on which splitting off a suffix leaves both parts non-zero.
pub open spec fn can_split_suffix(x: u64, l: u32) -> bool {
    &&& l < 64
    &&& x >> l != 0
    &&& x & low_mask(l) != 0
}

/// The inputs on which splitting off a prefix leaves a non-zero prefix.
pub open spec fn can_split_prefix_try(x: u64, l: u32) -> bool {
    &&& 1 <= l < 64
    &&& x >> ((64 - l) as u32) != 0
}

/// The inputs on which splitting off a prefix leaves both parts non-zero.
pub open spec fn can_split_prefix(x: u64, l: u32) -> bool {
    &&& can_split_prefix_try(x, l)
    &&& x << l != 0
}

/// A value of at most `n` significant bits has nothing at bit `n` or above.
pub proof fn lemma_low_len_shift(v: u64, n: u32)
    requires
        low_len(v) <= n,
        n < 64,
    ensures
        v >> n == 0,
        v & low_mask(n) == v,
        v < (1u64 << n),
{
    let k: u64 = (64 - u64_leading_zeros(v)) as u64;
    assert(v >> k == 0);
    let n64 = n as u64;
    assert(v >> n64 == 0) by (bit_vector)
        requires
            v >> k == 0,
            k <= n64,
            n64 < 64,
    ;
    assert(v >> n == 0) by (bit_vector)
        requires
            v >> n64 == 0,
            n64 == n as u64,
    ;
    assert(v & low_mask(n) == v && v < (1u64 << n)) by (bit_vector)
        requires
            v >> n == 0,
            n < 64,
    ;
}

/// A value below `2^n` has at most `n` significant bits.
pub proof fn lemma_bounded_low_len(v: u64, n: u32)
    requires
        v < (1u64 << n),
        n < 64,
    ensures
        low_len(v) <= n,
{
    if low_len(v) > n {
        let k: u64 = (63 - u64_leading_zeros(v)) as u64;
        assert((v >> k) & 1u64 != 0u64);
        let n64 = n as u64;
        assert(false) by (bit_vector)
            requires
                (v >> k) & 1u64 != 0u64,
                k >= n64,
                n64 < 64,
                n64 == n as u64,
                v < (1u64 << n),
        ;
    }
}

/// Splitting off the suffix that was just appended gives back the index and
/// the suffix, wherever appending lost none of the index's bits.
pub proof fn lemma_split_suffix_of_with_suffix(x: u64, l: u32, s: u64)
    requires
        x != 0,
        s != 0,
        can_with_suffix(x, l, s),
        low_len(x) + l <= 64,
    ensures
        can_split_suffix(with_suffix_spec(x, l, s), l),
        split_suffix_spec(with_suffix_spec(x, l, s), l) == (x, s),
{
    lemma_low_len_shift(s, l);
    if l == 0 {
        assert(s < 1u64 << 0u32 ==> s == 0) by (bit_vector);
    }
    let k: u32 = (64 - l) as u32;
    lemma_low_len_shift(x, k);
    let w = with_suffix_spec(x, l, s);
    assert(w >> l == x && w & low_mask(l) == s) by (bit_vector)
        requires
            x >> k == 0,
            s < (1u64 << l),
            1 <= l < 64,
            k == 64 - l,
            w == (x << l) | s,
    ;
}

/// Appending the suffix that was just split off gives back the index.
pub proof fn lemma_with_suffix_of_split_suffix(y: u64, l: u32)
    requires
        can_split_suffix(y, l),
    ensures
        can_with_suffix(split_suffix_spec(y, l).0, l, split_suffix_spec(y, l).1),
        with_suffix_spec(split_suffix_spec(y, l).0, l, split_suffix_spec(y, l).1) == y,
{
    let (p, s) = split_suffix_spec(y, l);
    assert(s < (1u64 << l) && (p << l) != 0 && ((p << l) | s) == y) by (bit_vector)
        requires
            p == y >> l,
            s == y & low_mask(l),
            p != 0,
            l < 64,
    ;
    lemma_bounded_low_len(s, l);
}

/// Splitting off the prefix that was just pushed gives back the prefix and
/// the index, wherever the index's lowest `l` bits, which pushing drops, are zero.
pub proof fn lemma_split_prefix_of_with_prefix(x: u64, l: u32, p: u64)
    requires
        x != 0,
        p != 0,
        can_with_prefix(x, l, p),
        x & low_mask(l) == 0,
    ensures
        can_split_prefix(with_prefix_spec(x, l, p), l),
        split_prefix_spec(with_prefix_spec(x, l, p), l) == (p, x),
{
    lemma_low_len_shift(p, l);
    let k: u32 = (64 - l) as u32;
    let w = with_prefix_spec(x, l, p);
    assert(w >> k == p && w << l == x) by (bit_vector)
        requires
            p < (1u64 << l),
            x & low_mask(l) == 0,
            1 <= l < 64,
            k == 64 - l,
            w == (p << k) | (x >> l),
    ;
}

/// Pushing back the prefix that was just split off gives back the index,
/// wherever something is left below the prefix.
pub proof fn lemma_with_prefix_of_split_prefix(y: u64, l: u32)
    requires
        can_split_prefix(y, l),
        (y << l) >> l != 0,
    ensures
        can_with_prefix(split_prefix_spec(y, l).1, l, split_prefix_spec(y, l).0),
        with_prefix_spec(split_prefix_spec(y, l).1, l, split_prefix_spec(y, l).0) == y,
{
    let (p, s) = split_prefix_spec(y, l);
    let k: u32 = (64 - l) as u32;
    assert(p < (1u64 << l) && ((p << k) | (s >> l)) == y) by (bit_vector)
        requires
            p == y >> k,
            s == y << l,
            1 <= l < 64,
            k == 64 - l,
    ;
    lemma_bounded_low_len(p, l);
}

/// Index of an item. Never zero; zero is left free so that containers and
/// composite keys can detect invalid indices.
#[derive(Clone, Copy, PartialEq, Eq, PartialOrd, Ord, Hash, Debug)]
pub struct Index(u64);

impl View for Index {
    type V = u64;

    closed spec fn view(&self) -> u64 {
        self.0
    }
}

impl Index {
    #[verifier::type_invariant]
    spec fn non_zero(self) -> bool {
        self.0 != 0
    }

    /// Index with value `value`, none for zero.
    pub fn new(value: u64) -> (r: Option<Index>)
        ensures
            r is Some <==> value != 0,
            r matches Some(i) ==> i@ == value,
    {
        if value == 0 {
            None
        } else {
            Some(Index(value))
        }
    }

    /// The value of the index.
    pub fn get(self) -> (r: u64)
        ensures
            r == self@,
            r != 0,
    {
        proof {
            use_type_invariant(&self);
        }
        self.0
    }

    /// Number of significant bits.
    pub fn len_low(self) -> (r: u32)
        ensures
            r == low_len(self@),
            1 <= r <= 64,
    {
        proof {
            use_type_invariant(&self);
        }
        INDEX_BITS - self.0.leading_zeros()
    }

    /// Number of bits from the top down to the lowest set bit.
    pub fn len_high(self) -> (r: u32)
        ensures
            r == high_len(self@),
            1 <= r <= 64,
    {
        proof {
            use_type_invariant(&self);
        }
        INDEX_BITS - self.0.trailing_zeros()
    }

    /// The index as `usize`, truncated where `usize` is narrower.
    pub fn as_usize(self) -> (r: usize)
        ensures
            r == self@ as usize,
    {
        self.0 as usize
    }

    /// Pushes `suffix` below `self`, `suffix_len` bits wide.
    pub fn with_suffix(self, suffix_len: u32, suffix: Index) -> (r: Self)
        requires
            can_with_suffix(self@, suffix_len, suffix@),
        ensures
            r@ == with_suffix_spec(self@, suffix_len, suffix@),
    {
        let prefix = self.0 << suffix_len;
        let low = suffix.0;
        let value = prefix | low;
        assert(value != 0) by (bit_vector)
            requires
                prefix != 0,
                value == prefix | low,
        ;
        Index(value)
    }

    /// Pushes `prefix`, `prefix_len` bits wide, on top of `self`.
    pub fn with_prefix(self, prefix_len: u32, prefix: Index) -> (r: Self)
        requires
            can_with_prefix(self@, prefix_len, prefix@),
        ensures
            r@ == with_prefix_spec(self@, prefix_len, prefix@),
    {
        let top = prefix.0 << (INDEX_BITS - prefix_len);
        let suffix = self.0 >> prefix_len;
        let value = top | suffix;
        assert(value != 0) by (bit_vector)
            requires
                suffix != 0,
                value == top | suffix,
        ;
        Index(value)
    }

    /// Splits off the lowest `suffix_len` bits. The inverse of `with_suffix`.
    pub fn split_suffix(self, suffix_len: u32) -> (r: (Self, Self))
        requires
            can_split_suffix(self@, suffix_len),
        ensures
            (r.0@, r.1@) == split_suffix_spec(self@, suffix_len),
    {
        assert(1u64 << suffix_len >= 1) by (bit_vector)
            requires
                suffix_len < 64,
        ;
        let prefix = self.0 >> suffix_len;
        let suffix = self.0 & ((1u64 << suffix_len) - 1);
        (Index(prefix), Index(suffix))
    }

    /// Splits off the top `prefix_len` bits. The inverse of `with_prefix`.
    pub fn split_prefix(self, prefix_len: u32) -> (r: (Self, Self))
        requires
            can_split_prefix(self@, prefix_len),
        ensures
            (r.0@, r.1@) == split_prefix_spec(self@, prefix_len),
    {
        let prefix = self.0 >> (INDEX_BITS - prefix_len);
        let suffix = self.0 << prefix_len;
        (Index(prefix), Index(suffix))
    }

    /// Splits off the top `prefix_len` bits; none for the suffix where
    /// nothing is left below the prefix.
    pub fn split_prefix_try(self, prefix_len: u32) -> (r: (Self, Option<Self>))
        requires
            can_split_prefix_try(self@, prefix_len),
        ensures
            r.0@ == split_prefix_spec(self@, prefix_len).0,
            r.1 is Some <==> split_prefix_spec(self@, prefix_len).1 != 0,
            r.1 matches Some(s) ==> s@ == split_prefix_spec(self@, prefix_len).1,
    {
        let prefix = self.0 >> (INDEX_BITS - prefix_len);
        let suffix = self.0 << prefix_len;
        (Index(prefix), Index::new(suffix))
    }
}

/// Value of a sub key built from index `i` of `len` bits: the index sits at the top.
pub open spec fn sub_key_spec(len: u32, i: u64) -> u64 {
    i << ((64 - len) as u32)
}

/// The top `len` bits of a sub key.
pub open spec fn sub_key_index_spec(v: u64, len: u32) -> u64 {
    v >> ((64 - len) as u32)
}

/// A sub key's index, taken with the length it was built with, is the index
/// it was built from.
pub proof fn lemma_sub_key_index_of_new(len: u32, i: u64)
    requires
        1 <= len <= 64,
        low_len(i) <= len,
    ensures
        sub_key_index_spec(sub_key_spec(len, i), len) == i,
{
    let k: u32 = (64 - len) as u32;
    if len < 64 {
        lemma_low_len_shift(i, len);
        assert((i << k) >> k == i) by (bit_vector)
            requires
                i < (1u64 << len),
                1 <= len < 64,
                k == 64 - len,
        ;
    } else {
        assert((i << 0u32) >> 0u32 == i) by (bit_vector);
    }
}

/// A key under construction or deconstruction: built from the top by pushing
/// prefixes in front from below, and taken apart from the top by removing
/// prefixes.
pub struct SubKey<T: ?Sized>(Index, PhantomData<T>);

impl<T: ?Sized> View for SubKey<T> {
    type V = u64;

    closed spec fn view(&self) -> u64 {
        self.0@
    }
}

impl<T: ?Sized> SubKey<T> {
    /// Sub key whose top `len` bits hold `index`.
    pub fn new(len: u32, index: Index) -> (r: Self)
        requires
            1 <= len <= 64,
            sub_key_spec(len, index@) != 0,
        ensures
            r@ == sub_key_spec(len, index@),
    {
        let value = index.get() << (INDEX_BITS - len);
        SubKey(Index(value), PhantomData)
    }

    /// The top `len` bits, as an index.
    pub fn index(&self, len: u32) -> (r: Index)
        requires
            1 <= len <= 64,
            sub_key_index_spec(self@, len) != 0,
        ensures
            r@ == sub_key_index_spec(self@, len),
    {
        Index(self.0.get() >> (INDEX_BITS - len))
    }

    /// The top `len` bits, as `usize`, truncated where `usize` is narrower.
    pub fn as_usize(&self, len: u32) -> (r: usize)
        requires
            1 <= len <= 64,
        ensures
            r == sub_key_index_spec(self@, len) as usize,
    {
        (self.0.get() >> (INDEX_BITS - len)) as usize
    }

    /// The finished key. Only meaningful once all prefixes are pushed.
    pub fn into_key(self) -> (r: Key<T>)
        ensures
            r@ == self@,
    {
        Key::new(self.0)
    }

    /// Pushes `prefix` of `prefix_len` bits on top.
    pub fn with_prefix(self, prefix_len: u32, prefix: Index) -> (r: Self)
        requires
            can_with_prefix(self@, prefix_len, prefix@),
        ensures
            r@ == with_prefix_spec(self@, prefix_len, prefix@),
    {
        SubKey(self.0.with_prefix(prefix_len, prefix), PhantomData)
    }

    /// Splits off the prefix of `prefix_len` bits from the rest.
    pub fn split_prefix(self, prefix_len: u32) -> (r: (Index, Self))
        requires
            can_split_prefix(self@, prefix_len),
        ensures
            (r.0@, r.1@) == split_prefix_spec(self@, prefix_len),
    {
        let (prefix, suffix) = self.0.split_prefix(prefix_len);
        (prefix, SubKey(suffix, PhantomData))
    }

    /// Splits off the prefix of `prefix_len` bits; none where nothing is left
    /// below it.
    pub fn split_prefix_try(self, prefix_len: u32) -> (r: (Index, Option<Self>))
        requires
            can_split_prefix_try(self@, prefix_len),
        ensures
            r.0@ == split_prefix_spec(self@, prefix_len).0,
            r.1 is Some <==> split_prefix_spec(self@, prefix_len).1 != 0,
            r.1 matches Some(s) ==> s@ == split_prefix_spec(self@, prefix_len).1,
    {
        let (prefix, suffix) = self.0.split_prefix_try(prefix_len);
        match suffix {
            Some(suffix) => (prefix, Some(SubKey(suffix, PhantomData))),
            None => (prefix, None),
        }
    }
}

impl<T: ?Sized> Clone for SubKey<T> {
    fn clone(&self) -> (r: Self)
        ensures
            r@ == self@,
    {
        SubKey(self.0, PhantomData)
    }
}

impl<T: ?Sized> Copy for SubKey<T> {
}

impl<T: ?Sized> From<Key<T>> for SubKey<T> {
    fn from(key: Key<T>) -> (r: Self)
        ensures
            r@ == key@,
    {
        SubKey(key.0, PhantomData)
    }
}

impl<T: ?Sized> FromSpecImpl<Key<T>> for SubKey<T> {
    open spec fn obeys_from_spec() -> bool {
        true
    }

    closed spec fn from_spec(v: Key<T>) -> Self {
        SubKey(v.0, PhantomData)
    }
}

/// A sub key of some type: deconstructed from the top by taking prefixes.
#[derive(Clone, Copy, Debug)]
pub struct AnySubKey(TypeId, Index);

impl View for AnySubKey {
    type V = (TypeId, u64);

    closed spec fn view(&self) -> (TypeId, u64) {
        (self.0, self.1@)
    }
}

impl AnySubKey {
    /// The sub key as one of type `T`, where `T` is its type. Whether it is
    /// rests on `TypeId::of::<T>()`, which `downcast_with` is handed.
    pub fn downcast<T: ?Sized + 'static>(self) -> (r: Option<SubKey<T>>)
        ensures
            r matches Some(k) ==> k@ == self@.1,
    {
        self.downcast_with::<T>(type_id_of::<T>())
    }

    /// The sub key as one of type `T`, where `ty`, the identifier of `T`, is
    /// its type.
    pub fn downcast_with<T: ?Sized>(self, ty: TypeId) -> (r: Option<SubKey<T>>)
        ensures
            r is Some <==> self@.0 == ty,
            r matches Some(k) ==> k@ == self@.1,
    {
        if same_type_id(&self.0, &ty) {
            Some(SubKey(self.1, PhantomData))
        } else {
            None
        }
    }

    /// Identifier of the key's type.
    pub fn ty_id(&self) -> (r: TypeId)
        ensures
            r == self@.0,
    {
        self.0
    }

    /// Splits off the prefix of `prefix_len` bits from the rest.
    pub fn split_prefix(self, prefix_len: u32) -> (r: (Index, Self))
        requires
            can_split_prefix(self@.1, prefix_len),
        ensures
            (r.0@, r.1@.1) == split_prefix_spec(self@.1, prefix_len),
            r.1@.0 == self@.0,
    {
        let (prefix, suffix) = self.1.split_prefix(prefix_len);
        (prefix, AnySubKey(self.0, suffix))
    }

    /// Splits off the prefix of `prefix_len` bits; none where nothing is left
    /// below it.
    pub fn split_prefix_try(self, prefix_len: u32) -> (r: (Index, Option<Self>))
        requires
            can_split_prefix_try(self@.1, prefix_len),
        ensures
            r.0@ == split_prefix_spec(self@.1, prefix_len).0,
            r.1 is Some <==> split_prefix_spec(self@.1, prefix_len).1 != 0,
            r.1 matches Some(s) ==> s@ == (self@.0, split_prefix_spec(self@.1, prefix_len).1),
    {
        let (prefix, suffix) = self.1.split_prefix_try(prefix_len);
        match suffix {
            Some(suffix) => (prefix, Some(AnySubKey(self.0, suffix))),
            None => (prefix, None),
        }
    }

    /// Sub key of type `T` with the index of `key`.
    pub fn of<T: ?Sized + 'static>(key: SubKey<T>) -> (r: Self)
        ensures
            r@.1 == key@,
    {
        AnySubKey(type_id_of::<T>(), key.0)
    }
}

impl From<AnyKey> for AnySubKey {
    fn from(key: AnyKey) -> (r: Self)
        ensures
            r@ == key@,
    {
        AnySubKey(key.0, key.1)
    }
}

impl FromSpecImpl<AnyKey> for AnySubKey {
    open spec fn obeys_from_spec() -> bool {
        true
    }

    closed spec fn from_spec(v: AnyKey) -> Self {
        AnySubKey(v.0, v.1)
    }
}

/// Key of an item of type `T`. Collections issue keys so that close indices
/// hold close items.
#[derive(PartialOrd, Ord, Hash, Debug)]
pub struct Key<T: ?Sized>(Index, PhantomData<T>);

impl<T: ?Sized> View for Key<T> {
    type V = u64;

    closed spec fn view(&self) -> u64 {
        self.0@
    }
}

impl<T: ?Sized> Key<T> {
    /// Key with `index`.
    pub fn new(index: Index) -> (r: Self)
        ensures
            r@ == index@,
    {
        Key(index, PhantomData)
    }

    /// The index of the key.
    pub fn index(&self) -> (r: Index)
        ensures
            r@ == self@,
    {
        self.0
    }

    /// The index as `usize`. Its value must fit.
    pub fn as_usize(&self) -> (r: usize)
        requires
            self@ <= usize::MAX,
        ensures
            r == self@,
    {
        self.0.get() as usize
    }

    /// The key as a key of any type.
    pub fn upcast(self) -> (r: AnyKey) where T: 'static
        ensures
            r@.1 == self@,
    {
        AnyKey(type_id_of::<T>(), self.0)
    }

    /// Number of significant bits of the index.
    pub fn len(&self) -> (r: u32)
        ensures
            r == low_len(self@),
    {
        self.0.len_low()
    }
}

impl<T: ?Sized> PartialEq for Key<T> {
    fn eq(&self, other: &Self) -> (r: bool) {
        self.0.0 == other.0.0
    }
}

impl<T: ?Sized> PartialEqSpecImpl for Key<T> {
    open spec fn obeys_eq_spec() -> bool {
        true
    }

    open spec fn eq_spec(&self, other: &Self) -> bool {
        self@ == other@
    }
}

impl<T: ?Sized> Eq for Key<T> {
}

impl<T: ?Sized> Clone for Key<T> {
    fn clone(&self) -> (r: Self)
        ensures
            r@ == self@,
    {
        Key(self.0, PhantomData)
    }
}

impl<T: ?Sized> Copy for Key<T> {
}

/// Key of an item of any type.
#[derive(Clone, Copy, PartialEq, Eq, Hash, PartialOrd, Ord, Debug)]
pub struct AnyKey(TypeId, Index);

impl View for AnyKey {
    type V = (TypeId, u64);

    closed spec fn view(&self) -> (TypeId, u64) {
        (self.0, self.1@)
    }
}

impl AnyKey {
    /// Key of type `ty_id` with `index`.
    pub fn new(ty_id: TypeId, index: Index) -> (r: Self)
        ensures
            r@ == (ty_id, index@),
    {
        AnyKey(ty_id, index)
    }

    /// The key as one of type `T`, where `T` is its type. Whether it is
    /// rests on `TypeId::of::<T>()`, which `downcast_with` is handed.
    pub fn downcast<T: ?Sized + 'static>(self) -> (r: Option<Key<T>>)
        ensures
            r matches Some(k) ==> k@ == self@.1,
    {
        self.downcast_with::<T>(type_id_of::<T>())
    }

    /// The key as one of type `T`, where `ty`, the identifier of `T`, is its
    /// type.
    pub fn downcast_with<T: ?Sized>(self, ty: TypeId) -> (r: Option<Key<T>>)
        ensures
            r is Some <==> self@.0 == ty,
            r matches Some(k) ==> k@ == self@.1,
    {
        if same_type_id(&self.0, &ty) {
            Some(Key::new(self.1))
        } else {
            None
        }
    }

    /// The index of the key.
    pub fn index(&self) -> (r: Index)
        ensures
            r@ == self@.1,
    {
        self.1
    }

    /// Number of significant bits of the index.
    pub fn len(&self) -> (r: u32)
        ensures
            r == low_len(self@.1),
    {
        self.1.len_low()
    }

    /// Identifier of the key's type.
    pub fn ty_id(&self) -> (r: TypeId)
        ensures
            r == self@.0,
    {
        self.0
    }
}

/// Difference between a key and an index: `Key<T> - Index = DeltaKey<T>`.
pub struct DeltaKey<T: ?Sized>(u64, PhantomData<T>);

impl<T: ?Sized> DeltaKey<T> {
    /// Delta of `delta`.
    pub fn new(delta: u64) -> (r: Self)
        ensures
            r.delta_value() == delta,
    {
        DeltaKey(delta, PhantomData)
    }

    /// The value of the delta.
    pub closed spec fn delta_value(&self) -> u64 {
        self.0
    }

    /// The delta. Its upper bits are a string of all zeros or all ones, the
    /// longer the closer the key and index it was made from.
    pub fn delta(self) -> (r: u64)
        ensures
            r == self.delta_value(),
    {
        self.0
    }
}

impl<T: ?Sized> Clone for DeltaKey<T> {
    fn clone(&self) -> (r: Self)
        ensures
            r.delta_value() == self.delta_value(),
    {
        DeltaKey(self.0, PhantomData)
    }
}

impl<T: ?Sized> Copy for DeltaKey<T> {
}

impl<T: ?Sized> Sub<Index> for Key<T> {
    type Output = DeltaKey<T>;

    fn sub(self, other: Index) -> (r: DeltaKey<T>)
        ensures
            r.delta_value() == wrapping_sub(self@, other@),
    {
        DeltaKey(self.0.0.wrapping_sub(other.0), PhantomData)
    }
}

impl<T: ?Sized> vstd::std_specs::ops::SubSpecImpl<Index> for Key<T> {
    open spec fn obeys_sub_spec() -> bool {
        true
    }

    open spec fn sub_req(self, other: Index) -> bool {
        true
    }

    closed spec fn sub_spec(self, other: Index) -> DeltaKey<T> {
        DeltaKey(wrapping_sub(self@, other@), PhantomData)
    }
}

impl<T: ?Sized> Add<Index> for DeltaKey<T> {
    type Output = Key<T>;

    fn add(self, other: Index) -> (r: Key<T>)
        ensures
            r@ == wrapping_add(self.delta_value(), other@),
    {
        let value = self.0.wrapping_add(other.0);
        Key(Index(value), PhantomData)
    }
}

impl<T: ?Sized> vstd::std_specs::ops::AddSpecImpl<Index> for DeltaKey<T> {
    open spec fn obeys_add_spec() -> bool {
        true
    }

    open spec fn add_req(self, other: Index) -> bool {
        wrapping_add(self.delta_value(), other@) != 0
    }

    closed spec fn add_spec(self, other: Index) -> Key<T> {
        Key(Index(wrapping_add(self.0, other@)), PhantomData)
    }
}

impl<T: ?Sized> Add<DeltaKey<T>> for Index {
    type Output = Key<T>;

    fn add(self, other: DeltaKey<T>) -> (r: Key<T>)
        ensures
            r@ == wrapping_add(other.delta_value(), self@),
    {
        other + self
    }
}

impl<T: ?Sized> vstd::std_specs::ops::AddSpecImpl<DeltaKey<T>> for Index {
    open spec fn obeys_add_spec() -> bool {
        true
    }

    open spec fn add_req(self, other: DeltaKey<T>) -> bool {
        wrapping_add(other.delta_value(), self@) != 0
    }

    closed spec fn add_spec(self, other: DeltaKey<T>) -> Key<T> {
        Key(Index(wrapping_add(other.0, self@)), PhantomData)
    }
}

/// Adding back the index that was taken from a key gives back the key:
/// `(key - index) + index == key`, for every key and index.
pub proof fn lemma_delta_round_trip<T: ?Sized>(key: Key<T>, index: Index)
    requires
        key@ != 0,
    ensures
        key.sub_spec(index).delta_value() == wrapping_sub(key@, index@),
        key.sub_spec(index).add_req(index),
        key.sub_spec(index).add_spec(index)@ == key@,
        index.add_req(key.sub_spec(index)),
        index.add_spec(key.sub_spec(index))@ == key@,
{
}

/// Pushing an `n` bit prefix `p` on top of a sub key of the `m` bit index
/// `s` gives the sub key whose top `n + m` bits are `p` with `s` appended as
/// a suffix: prefixing the sub key is suffixing its index.
pub proof fn lemma_prefix_is_suffix(n: u32, m: u32, p: u64, s: u64)
    requires
        1 <= n,
        1 <= m,
        n + m <= 64,
        low_len(p) <= n,
        low_len(s) <= m,
    ensures
        sub_key_index_spec(with_prefix_spec(sub_key_spec(m, s), n, p), (n + m) as u32) == with_suffix_spec(
            p,
            m,
            s,
        ),
{
    lemma_low_len_shift(p, n);
    lemma_low_len_shift(s, m);
    let k: u32 = (n + m) as u32;
    let j: u32 = (64 - k) as u32;
    let a: u32 = (64 - m) as u32;
    let b: u32 = (64 - n) as u32;
    let x: u64 = p << m;
    let y: u64 = s << j;
    assert(s << a == y << n) by (bit_vector)
        requires
            y == s << j,
            a == j + n,
            a < 64,
    ;
    assert(y >> b == 0) by (bit_vector)
        requires
            y == s << j,
            s >> m == 0,
            b == j + m,
            b <= 64,
    ;
    assert((y << n) >> n == y) by (bit_vector)
        requires
            y >> b == 0,
            b == 64 - n,
            1 <= n < 64,
    ;
    assert(p << b == x << j) by (bit_vector)
        requires
            p >> n == 0,
            x == p << m,
            1 <= n,
            1 <= m,
            b == 64 - n,
            j == 64 - n - m,
            n + m <= 64,
    ;
    assert((x << j) | (s << j) == (x | s) << j) by (bit_vector);
    assert((x | s) >> k == 0) by (bit_vector)
        requires
            p >> n == 0,
            s >> m == 0,
            x == p << m,
            k == n + m,
            1 <= n,
            1 <= m,
            k <= 64,
    ;
    assert(((x | s) << j) >> j == x | s) by (bit_vector)
        requires
            (x | s) >> k == 0,
            j == 64 - k,
            1 <= k <= 64,
    ;
}

/// Splitting off the `n` bit prefix `p` just pushed on top of a sub key of
/// the `m` bit index `s` gives back `p` and that sub key, whose index is `s`:
/// splitting a prefix undoes pushing it.
pub proof fn lemma_sub_key_split_prefix(n: u32, m: u32, p: u64, s: u64)
    requires
        1 <= n,
        1 <= m,
        n + m <= 64,
        p != 0,
        s != 0,
        low_len(p) <= n,
        low_len(s) <= m,
    ensures
        can_with_prefix(sub_key_spec(m, s), n, p),
        can_split_prefix(with_prefix_spec(sub_key_spec(m, s), n, p), n),
        split_prefix_spec(with_prefix_spec(sub_key_spec(m, s), n, p), n) == (p, sub_key_spec(m, s)),
        sub_key_index_spec(split_prefix_spec(with_prefix_spec(sub_key_spec(m, s), n, p), n).1, m) == s,
{
    let j: u32 = (64 - m) as u32;
    let x: u64 = s << j;
    lemma_low_len_shift(s, m);
    assert(x != 0 && x >> n != 0 && x & low_mask(n) == 0) by (bit_vector)
        requires
            x == s << j,
            s != 0,
            s >> m == 0,
            j == 64 - m,
            1 <= n <= j,
            1 <= m,
    ;
    lemma_split_prefix_of_with_prefix(x, n, p);
    lemma_sub_key_index_of_new(m, s);
}

} // verus!
