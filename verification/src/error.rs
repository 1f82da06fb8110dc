use vstd::prelude::*;

verus! {

/// The error taxonomy of the store.
///
/// `Validation` reports required variant-specific fields that are missing,
/// `NotFound` a lookup by id that yielded nothing where one row was expected,
/// `Constraint` a foreign-key or uniqueness violation, and `Storage` a failure
/// of the storage layer itself (in this library only the exhaustion of an id
/// counter; the unverified storage mirror maps its own failures to it too).
#[derive(Clone, Copy, Debug, PartialEq, Eq, Structural)]
pub enum StoreError {
    Validation,
    NotFound,
    Constraint,
    Storage,
}

impl StoreError {
    /// A short description of the error kind, for the presentation layer.
    pub fn describe(&self) -> (r: &'static str)
        ensures
            *self == StoreError::Validation ==> r@ == "required fields for the account variant are missing"@,
            *self == StoreError::NotFound ==> r@ == "no row with the requested id exists"@,
            *self == StoreError::Constraint ==> r@ == "a foreign-key or uniqueness constraint is violated"@,
            *self == StoreError::Storage ==> r@ == "the storage layer failed"@,
    {
        match self {
            StoreError::Validation => "required fields for the account variant are missing",
            StoreError::NotFound => "no row with the requested id exists",
            StoreError::Constraint => "a foreign-key or uniqueness constraint is violated",
            StoreError::Storage => "the storage layer failed",
        }
    }
}

} // verus!
