//! Identity of types, as `std::any` gives it at run time.

use std::any::TypeId;
use vstd::prelude::*;

verus! {

#[verifier::external_type_specification]
#[verifier::external_body]
pub struct ExTypeId(TypeId);

/// Calls `std::any::TypeId::of::<T>()`. Nothing is stated of the identifier it
/// returns: which value belongs to which type is known to the compiler only.
#[verifier::external_body]
pub(crate) fn type_id_of<T: ?Sized + 'static>() -> TypeId {
    TypeId::of::<T>()
}

/// The text that `{:?}` formatting gives of `v`, its decimal digits.
pub uninterp spec fn debug_text(v: u64) -> Seq<char>;

/// Calls `format!` with `{:?}` on `v`: the text of the number.
#[verifier::external_body]
pub(crate) fn number_text(v: u64) -> (r: String)
    ensures
        r@ == debug_text(v),
{
    format!("{:?}", v)
}

/// The text that `{:?}` formatting gives of the type identifier `ty`.
pub uninterp spec fn type_id_text(ty: TypeId) -> Seq<char>;

/// Calls `format!` with `{:?}` on `ty`: the text of the type identifier.
#[verifier::external_body]
pub(crate) fn type_id_debug(ty: &TypeId) -> (r: String)
    ensures
        r@ == type_id_text(*ty),
{
    format!("{:?}", ty)
}

/// Calls `<TypeId as PartialEq>::eq`. Type identifiers are plain values that
/// compare equal exactly when they are the same value.
#[verifier::external_body]
pub(crate) fn same_type_id(a: &TypeId, b: &TypeId) -> (r: bool)
    ensures
        r == (*a == *b),
{
    *a == *b
}

} // verus!
