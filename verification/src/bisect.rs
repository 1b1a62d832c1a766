//! Binary search in sorted vectors, by the `bisection` crate.

use vstd::prelude::*;

verus! {

/// Whether the values never decrease.
pub open spec fn sorted(a: Seq<u64>) -> bool {
    forall|i: int, j: int| 0 <= i <= j < a.len() ==> a[i] <= a[j]
}

/// Calls `bisection::bisect_left`.
///
/// Of it we claim what its documentation says: for a sorted slice the result splits the
/// slice into the values below `x` and those that are not.
#[verifier::external_body]
pub(crate) fn bisect_left(a: &Vec<u64>, x: u64) -> (index: usize)
    requires
        sorted(a@),
    ensures
        index <= a@.len(),
        forall|i: int| 0 <= i < index ==> a@[i] < x,
        forall|i: int| index <= i < a@.len() ==> a@[i] >= x,
{
    bisection::bisect_left(a, &x)
}

/// Calls `bisection::bisect_right`.
///
/// Of it we claim what its documentation says: for a sorted slice the result splits the
/// slice into the values up to and including `x` and those above it.
#[verifier::external_body]
pub(crate) fn bisect_right(a: &Vec<u64>, x: u64) -> (index: usize)
    requires
        sorted(a@),
    ensures
        index <= a@.len(),
        forall|i: int| 0 <= i < index ==> a@[i] <= x,
        forall|i: int| index <= i < a@.len() ==> a@[i] > x,
{
    bisection::bisect_right(a, &x)
}

} // verus!
