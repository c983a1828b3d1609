use std::any::Any;
use std::any::TypeId;
use std::collections::HashMap;
use vstd::prelude::*;

verus! {

/// `std::any::TypeId`, carried as an opaque value.
#[verifier::external_type_specification]
#[verifier::external_body]
pub struct ExTypeId(TypeId);

/// `TypeId::of::<T>()`: the identity of the type `T`. Nothing is claimed of
/// the value, which cannot be named in a specification without naming `T`.
#[verifier::external_body]
fn type_id_of<T: ?Sized + 'static>() -> TypeId {
    TypeId::of::<T>()
}

/// `<TypeId as PartialEq>::eq`: two type identities compare equal exactly
/// when they are the same identity.
#[verifier::external_body]
fn type_id_eq(a: &TypeId, b: &TypeId) -> (r: bool)
    ensures
        r == (*a == *b),
{
    *a == *b
}

/// Unique identifier for a component type.
#[derive(Clone, Copy, Debug, Eq, Hash)]
pub struct ComponentId(TypeId);

impl ComponentId {
    pub fn of<T: 'static>() -> Self {
        Self(type_id_of::<T>())
    }
}

impl PartialEq for ComponentId {
    fn eq(&self, other: &Self) -> (r: bool) {
        type_id_eq(&self.0, &other.0)
    }
}

impl vstd::std_specs::cmp::PartialEqSpecImpl for ComponentId {
    open spec fn obeys_eq_spec() -> bool {
        true
    }

    open spec fn eq_spec(&self, other: &Self) -> bool {
        *self == *other
    }
}

/// Trait that all components must implement.
pub trait Component: 'static + Send + Sync {}

// Any type that is 'static + Send + Sync is a component.
impl<T: 'static + Send + Sync> Component for T {}

/// The values of one component type, each boxed behind `dyn Any` and keyed
/// by the slot index of the entity that owns it. The map is held opaque:
/// `dyn Any` cannot be named to the verifier, so what the map holds is known
/// only through `column_indices` and the functions below.
#[verifier::external_body]
pub struct ErasedColumn {
    entries: HashMap<u32, Box<dyn Any>>,
}

/// The slot indices that hold a value in a column.
pub uninterp spec fn column_indices(c: ErasedColumn) -> Set<u32>;

/// `HashMap::new`: an empty column.
#[verifier::external_body]
pub(crate) fn column_new() -> (c: ErasedColumn)
    ensures
        column_indices(c) == Set::<u32>::empty(),
{
    ErasedColumn { entries: HashMap::new() }
}

/// `HashMap::insert` of a boxed value: afterwards the index holds a value
/// (the one given, replacing any earlier one), and no other index changes.
#[verifier::external_body]
pub(crate) fn column_insert<T: 'static>(c: &mut ErasedColumn, index: u32, value: T)
    ensures
        column_indices(*final(c)) == column_indices(*old(c)).insert(index),
{
    c.entries.insert(index, Box::new(value));
}

/// `HashMap::remove`: afterwards the index holds no value, and no other index
/// changes.
#[verifier::external_body]
pub(crate) fn column_remove(c: &mut ErasedColumn, index: u32)
    ensures
        column_indices(*final(c)) == column_indices(*old(c)).remove(index),
{
    c.entries.remove(&index);
}

/// `HashMap::get` followed by `downcast_ref::<T>`: a value comes back only
/// from an index that holds one. Whether the held value is a `T` (and so
/// whether `Some` comes back from an occupied index) is not stated: the type
/// of an erased value cannot be named in a specification.
#[verifier::external_body]
pub(crate) fn column_get<T: 'static>(c: &ErasedColumn, index: u32) -> (r: Option<&T>)
    ensures
        r is Some ==> column_indices(*c).contains(index),
{
    match c.entries.get(&index) {
        Some(boxed) => boxed.downcast_ref::<T>(),
        None => None,
    }
}

/// `HashMap::get_mut` followed by `downcast_mut::<T>`: as `column_get`; a
/// write through the returned reference changes a value, never which indices
/// hold one, and when no reference comes back the column is left as it was.
#[verifier::external_body]
pub(crate) fn column_get_mut<T: 'static>(c: &mut ErasedColumn, index: u32) -> (r: Option<&mut T>)
    ensures
        r is Some ==> column_indices(*old(c)).contains(index),
        r is None ==> *final(c) == *old(c),
        column_indices(*final(c)) == column_indices(*old(c)),
{
    match c.entries.get_mut(&index) {
        Some(boxed) => boxed.downcast_mut::<T>(),
        None => None,
    }
}

} // verus!
