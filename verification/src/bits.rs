//! The bit vectors of the `bitvec` crate that mark taken slots, with what
//! the table container relies on of them.

use bitvec::order::Lsb0;
use bitvec::vec::BitVec;
use vstd::prelude::*;

verus! {

/// A `bitvec` bit vector with bit zero as the least significant bit of its
/// first `u64` element, held in a private field.
#[verifier::external_body]
pub struct TakenBits {
    bits: BitVec<u64, Lsb0>,
}

/// The bits of `b`, from index zero on.
pub uninterp spec fn bits_of(b: TakenBits) -> Seq<bool>;

/// Calls `BitVec::repeat` with `false`: `len` clear bits. `bitvec` asserts
/// that the length can be encoded, that is at most `usize::MAX >> 3` bits.
#[verifier::external_body]
pub(crate) fn zeros(len: usize) -> (r: TakenBits)
    requires
        len <= usize::MAX / 8,
    ensures
        bits_of(r) == Seq::new(len as nat, |i: int| false),
{
    TakenBits { bits: BitVec::repeat(false, len) }
}

/// Indexes bit `i` through `BitSlice`'s `Index<usize>`, which panics past
/// the end.
#[verifier::external_body]
pub(crate) fn bit(b: &TakenBits, i: usize) -> (r: bool)
    requires
        i < bits_of(*b).len(),
    ensures
        r == bits_of(*b)[i as int],
{
    b.bits[i]
}

/// Calls `BitSlice::set`, which writes bit `i` and panics past the end.
#[verifier::external_body]
pub(crate) fn set_bit(b: &mut TakenBits, i: usize, value: bool)
    requires
        i < bits_of(*old(b)).len(),
    ensures
        bits_of(*final(b)) == bits_of(*old(b)).update(i as int, value),
{
    b.bits.set(i, value)
}

/// Calls `BitSlice::first_zero` on the bits from `start` on: the offset from
/// `start` of the first clear bit, if any.
#[verifier::external_body]
pub(crate) fn first_zero_from(b: &TakenBits, start: usize) -> (r: Option<usize>)
    requires
        start <= bits_of(*b).len(),
    ensures
        r matches Some(k) ==> start + k < bits_of(*b).len() && !bits_of(*b)[start + k] && forall|
            j: int,
        |
            start <= j < start + k ==> #[trigger] bits_of(*b)[j],
        r is None ==> forall|j: int| start <= j < bits_of(*b).len() ==> #[trigger] bits_of(*b)[j],
{
    b.bits[start..].first_zero()
}

/// Calls `BitSlice::first_one` on the bits from `start` on: the offset from
/// `start` of the first set bit, if any.
#[verifier::external_body]
pub(crate) fn first_one_from(b: &TakenBits, start: usize) -> (r: Option<usize>)
    requires
        start <= bits_of(*b).len(),
    ensures
        r matches Some(k) ==> start + k < bits_of(*b).len() && bits_of(*b)[start + k] && forall|
            j: int,
        |
            start <= j < start + k ==> !#[trigger] bits_of(*b)[j],
        r is None ==> forall|j: int| start <= j < bits_of(*b).len() ==> !#[trigger] bits_of(*b)[j],
{
    b.bits[start..].first_one()
}

} // verus!
