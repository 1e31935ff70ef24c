//! The combinators of constructive solid geometry, on raw signed distances.
//!
//! A distance is negative inside a solid, zero on its boundary and positive outside.
//! The combinators choose between the distances of two solids; the result bounds the
//! distance to the combined solid but need not equal it near the seams.

use crate::scalar::max_int;
use crate::scalar::min_int;
use vstd::prelude::*;

verus! {

/// The distance to the union of two solids: the smaller of their distances.
pub open spec fn union_of(a: int, b: int) -> int {
    min_int(a, b)
}

/// The distance to the intersection of two solids: the larger of their distances.
pub open spec fn intersection_of(a: int, b: int) -> int {
    max_int(a, b)
}

/// The distance to the first solid with the second one cut out of it.
pub open spec fn subtraction_of(a: int, b: int) -> int {
    max_int(a, -b)
}

/// The distance to everything that a solid is not.
pub open spec fn complement_of(a: int) -> int {
    -a
}

/// The union of two solids.
pub fn union(a: i64, b: i64) -> (r: i64)
    ensures
        r == union_of(a as int, b as int),
{
    if a <= b {
        a
    } else {
        b
    }
}

/// The intersection of two solids.
pub fn intersection(a: i64, b: i64) -> (r: i64)
    ensures
        r == intersection_of(a as int, b as int),
{
    if a >= b {
        a
    } else {
        b
    }
}

/// The solid `a` without the solid `b`.
pub fn subtraction(a: i64, b: i64) -> (r: i64)
    requires
        b > i64::MIN,
    ensures
        r == subtraction_of(a as int, b as int),
{
    let nb: i64 = -b;
    if a >= nb {
        a
    } else {
        nb
    }
}

/// The complement of a solid.
pub fn complement(a: i64) -> (r: i64)
    requires
        a > i64::MIN,
    ensures
        r == complement_of(a as int),
{
    -a
}

/// A point is inside a union exactly when it is inside one of the two solids.
pub proof fn lemma_union_sign(a: int, b: int)
    ensures
        union_of(a, b) < 0 <==> a < 0 || b < 0,
{
}

/// A point is inside an intersection exactly when it is inside both solids.
pub proof fn lemma_intersection_sign(a: int, b: int)
    ensures
        intersection_of(a, b) < 0 <==> a < 0 && b < 0,
{
}

/// A point is inside a subtraction exactly when it is inside the first solid and
/// strictly outside the second.
pub proof fn lemma_subtraction_sign(a: int, b: int)
    ensures
        subtraction_of(a, b) < 0 <==> a < 0 && b > 0,
{
}

/// Away from the boundary of the second solid, a point is inside a subtraction exactly
/// when it is inside the first solid and not inside the second. On that boundary
/// (`b == 0`) a point inside the first solid lies on the boundary of the result.
pub proof fn lemma_subtraction_sign_off_boundary(a: int, b: int)
    requires
        !(a < 0 && b == 0),
    ensures
        subtraction_of(a, b) < 0 <==> a < 0 && b >= 0,
{
}

/// Complementing twice gives the solid back, and swaps inside and outside once.
pub proof fn lemma_complement_involution(a: int)
    ensures
        complement_of(complement_of(a)) == a,
        complement_of(a) < 0 <==> a > 0,
{
}

/// Cutting `b` out of `a` is intersecting `a` with the complement of `b`.
pub proof fn lemma_subtraction_is_intersection_with_complement(a: int, b: int)
    ensures
        subtraction_of(a, b) == intersection_of(a, complement_of(b)),
{
}

} // verus!
