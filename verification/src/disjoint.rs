//! The `disjoint` set relation: two geometries are disjoint exactly when
//! they do not intersect.

use vstd::prelude::*;

use crate::intersects::{CartesianIntersects, IntersectsStrategy};

verus! {

/// A strategy deciding whether two geometries share no point.
pub trait DisjointStrategy<A, B> {
    /// Whether `a` and `b` share no point.
    spec fn spec_disjoint(&self, a: A, b: B) -> bool;

    /// Whether `a` and `b` share no point.
    fn disjoint(&self, a: &A, b: &B) -> (r: bool)
        ensures
            r == self.spec_disjoint(*a, *b),
    ;
}

/// The Cartesian disjoint strategy: the negation of
/// [`CartesianIntersects`].
#[derive(Debug, Default, Clone, Copy)]
pub struct CartesianDisjoint;

impl<A, B> DisjointStrategy<A, B> for CartesianDisjoint where
    CartesianIntersects: IntersectsStrategy<A, B>,
 {
    open spec fn spec_disjoint(&self, a: A, b: B) -> bool {
        !CartesianIntersects.spec_intersects(a, b)
    }

    fn disjoint(&self, a: &A, b: &B) -> (r: bool) {
        !CartesianIntersects.intersects(a, b)
    }
}

} // verus!
