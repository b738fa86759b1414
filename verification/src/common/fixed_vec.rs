//! The fixed-capacity vector of the `arrayvec` crate, as Verus sees it.
use arrayvec::ArrayVec;
use vstd::prelude::*;

verus! {

/// `arrayvec::ArrayVec`, an array-backed vector of at most `CAP` items. Its
/// contents are opaque here; each instantiation used by the kernel names its
/// contents where it is used.
#[verifier::external_type_specification]
#[verifier::external_body]
#[verifier::reject_recursive_types(T)]
pub struct ExArrayVec<T, const CAP: usize>(ArrayVec<T, CAP>);

} // verus!
