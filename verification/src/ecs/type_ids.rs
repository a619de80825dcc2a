use std::any::TypeId;
use vstd::prelude::*;

verus! {

#[verifier::external_type_specification]
#[verifier::external_body]
pub struct ExTypeId(std::any::TypeId);

/// Calls `std::any::TypeId::of::<T>()`. Nothing is claimed of the result: it is an opaque
/// identity of the type `T`.
#[verifier::external_body]
pub(crate) fn type_id_of<T: ?Sized + 'static>() -> TypeId {
    TypeId::of::<T>()
}

/// Calls `<TypeId as PartialEq>::eq`. Claims that the comparison agrees with equality of
/// the two ids as values: `TypeId` compares the identity it holds and nothing else.
#[verifier::external_body]
pub(crate) fn type_ids_equal(a: &TypeId, b: &TypeId) -> (equal: bool)
    ensures
        equal == (*a == *b),
{
    *a == *b
}

} // verus!
