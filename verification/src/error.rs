//! Errors of collections.

use crate::key::{Index, Key};
use crate::types::{debug_text, number_text, same_type_id, type_id_debug, type_id_of, type_id_text};
use std::any::TypeId;
use vstd::prelude::*;

verus! {

/// Identity of a type, as reported by errors.
#[derive(Clone, Copy, Debug)]
pub struct TypeInfo {
    pub ty: TypeId,
}

impl TypeInfo {
    /// Identity of type `T`.
    pub fn of<T: ?Sized + 'static>() -> (r: Self) {
        TypeInfo { ty: type_id_of::<T>() }
    }

    /// True if both describe the same type.
    pub fn same(&self, other: &TypeInfo) -> (r: bool)
        ensures
            r == (self.ty == other.ty),
    {
        same_type_id(&self.ty, &other.ty)
    }
}

/// Collection level errors. Not fatal in theory, but may be in practice.
#[derive(Clone, Debug)]
pub enum ReferError {
    /// The collection for the type and locality is full.
    OutOfKeys { ty: TypeInfo, locality: String },
    /// The item was expected to be a drain.
    ItemNotDrain { ty: TypeInfo, index: Index },
    /// No item is at the key in the container on the given path.
    InvalidKey { ty: TypeInfo, index: Index, container: u64 },
    /// The item at the key is not of the expected type.
    InvalidCastType { expected: TypeInfo, found: TypeInfo, index: Index },
    /// The item doesn't support the operation.
    InvalidOperation { ty: TypeInfo, index: Index, op: &'static str },
}

/// The message of `e`: what it names, with numbers in decimal and types by
/// the text of their identifiers.
pub open spec fn message_text(e: ReferError) -> Seq<char> {
    match e {
        ReferError::OutOfKeys { ty, locality } => "Collection for type "@ + type_id_text(ty.ty)
            + " and locality "@ + locality@ + " is full."@,
        ReferError::InvalidKey { ty, index, container } => "Item on key "@ + type_id_text(ty.ty)
            + "#"@ + debug_text(index@) + " doesn't exist in container "@ + debug_text(container)
            + "."@,
        ReferError::InvalidCastType { expected, found, index } => "Item on key "@ + debug_text(
            index@,
        ) + ":"@ + type_id_text(found.ty) + " can't be casted to "@ + type_id_text(expected.ty)
            + "."@,
        ReferError::InvalidOperation { ty, index, op } => "Item for key "@ + type_id_text(ty.ty)
            + "#"@ + debug_text(index@) + " doesn't support operation '"@ + op@ + "'."@,
        ReferError::ItemNotDrain { ty, index } => "Item on key "@ + type_id_text(ty.ty) + "#"@
            + debug_text(index@) + " is not drain."@,
    }
}

impl ReferError {
    /// The message of this error.
    pub fn message(&self) -> (r: String)
        ensures
            r@ == message_text(*self),
    {
        match self {
            ReferError::OutOfKeys { ty, locality } => {
                let mut s = String::from_str("Collection for type ");
                s.append(type_id_debug(&ty.ty).as_str());
                s.append(" and locality ");
                s.append(locality.as_str());
                s.append(" is full.");
                s
            },
            ReferError::InvalidKey { ty, index, container } => {
                let mut s = String::from_str("Item on key ");
                s.append(type_id_debug(&ty.ty).as_str());
                s.append("#");
                s.append(number_text(index.get()).as_str());
                s.append(" doesn't exist in container ");
                s.append(number_text(*container).as_str());
                s.append(".");
                s
            },
            ReferError::InvalidCastType { expected, found, index } => {
                let mut s = String::from_str("Item on key ");
                s.append(number_text(index.get()).as_str());
                s.append(":");
                s.append(type_id_debug(&found.ty).as_str());
                s.append(" can't be casted to ");
                s.append(type_id_debug(&expected.ty).as_str());
                s.append(".");
                s
            },
            ReferError::InvalidOperation { ty, index, op } => {
                let mut s = String::from_str("Item for key ");
                s.append(type_id_debug(&ty.ty).as_str());
                s.append("#");
                s.append(number_text(index.get()).as_str());
                s.append(" doesn't support operation '");
                s.append(op);
                s.append("'.");
                s
            },
            ReferError::ItemNotDrain { ty, index } => {
                let mut s = String::from_str("Item on key ");
                s.append(type_id_debug(&ty.ty).as_str());
                s.append("#");
                s.append(number_text(index.get()).as_str());
                s.append(" is not drain.");
                s
            },
        }
    }

    /// The collection for items of type `T` in the locality numbered
    /// `locality` is full.
    pub fn out_of_keys<T: ?Sized + 'static>(locality: u64) -> (r: Self)
        ensures
            r matches ReferError::OutOfKeys { locality: l, .. } && l@ == debug_text(locality),
    {
        ReferError::OutOfKeys { ty: TypeInfo::of::<T>(), locality: number_text(locality) }
    }

    /// No item of type `T` is at `key` in the container at path `container`.
    pub fn invalid_key<T: ?Sized + 'static>(key: Key<T>, container: u64) -> (r: Self)
        ensures
            r matches ReferError::InvalidKey { index, container: c, .. } && index@ == key@ && c
                == container,
    {
        ReferError::InvalidKey { ty: TypeInfo::of::<T>(), index: key.index(), container }
    }

    /// The item of type `T` at `key` doesn't support operation `op`.
    pub fn invalid_op<T: ?Sized + 'static>(key: Key<T>, op: &'static str) -> (r: Self)
        ensures
            r matches ReferError::InvalidOperation { index, op: o, .. } && index@ == key@ && o
                == op,
    {
        ReferError::InvalidOperation { ty: TypeInfo::of::<T>(), index: key.index(), op }
    }

    /// The item of type `T` at `key` was expected to be a drain.
    pub fn not_drain<T: ?Sized + 'static>(key: Key<T>) -> (r: Self)
        ensures
            r matches ReferError::ItemNotDrain { index, .. } && index@ == key@,
    {
        ReferError::ItemNotDrain { ty: TypeInfo::of::<T>(), index: key.index() }
    }

    /// True if this is an invalid key error for the index of `key`.
    pub fn is_invalid_key<T: ?Sized + 'static>(&self, key: Key<T>) -> (r: bool)
        ensures
            r == (self matches ReferError::InvalidKey { index, .. } && index@ == key@),
    {
        match self {
            ReferError::InvalidKey { index, .. } => key.index().get() == index.get(),
            _ => false,
        }
    }
}

} // verus!
