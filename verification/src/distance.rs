//! Distance strategies on integer points, and the [`Reversed`] adapter
//! that serves a strategy for `(A, B)` as one for `(B, A)`.
//!
//! [`ComparablePythagoras`] is the squared Euclidean distance: it orders
//! pairs exactly as the true distance does and is exact on integer
//! coordinates.

use vstd::prelude::*;

use crate::geometry::Point;
use crate::intersects::IntersectsStrategy;

verus! {

/// A strategy measuring the distance between two geometries.
pub trait DistanceStrategy<A, B> {
    /// The strategy's form that skips the final square root; it orders
    /// pairs as this strategy does.
    type Comparable;

    /// The distance between `a` and `b`.
    spec fn spec_distance(&self, a: A, b: B) -> int;

    /// The distance between `a` and `b`.
    fn distance(&self, a: &A, b: &B) -> (d: i128)
        ensures
            d == self.spec_distance(*a, *b),
    ;

    /// The comparable form of this strategy.
    spec fn spec_comparable(&self) -> Self::Comparable;

    /// The comparable form of this strategy.
    fn comparable(&self) -> (c: Self::Comparable)
        ensures
            c == self.spec_comparable(),
    ;
}

/// The squared Euclidean distance between two points.
pub open spec fn squared_distance(a: Point, b: Point) -> int {
    (a.x - b.x) * (a.x - b.x) + (a.y - b.y) * (a.y - b.y)
}

/// Squared Pythagorean distance between Cartesian points.
#[derive(Debug, Default, Clone, Copy)]
pub struct ComparablePythagoras;

impl DistanceStrategy<Point, Point> for ComparablePythagoras {
    type Comparable = ComparablePythagoras;

    open spec fn spec_distance(&self, a: Point, b: Point) -> int {
        squared_distance(a, b)
    }

    /// The squared distance is already comparable: its own form.
    open spec fn spec_comparable(&self) -> ComparablePythagoras {
        ComparablePythagoras
    }

    fn distance(&self, a: &Point, b: &Point) -> (d: i128) {
        let dx = a.x as i128 - b.x as i128;
        let dy = a.y as i128 - b.y as i128;
        proof {
            assert(0 <= dx * dx <= 0x1_0000_0000_0000_0000) by (nonlinear_arith)
                requires
                    -0x1_0000_0000 <= dx <= 0x1_0000_0000,
            ;
            assert(0 <= dy * dy <= 0x1_0000_0000_0000_0000) by (nonlinear_arith)
                requires
                    -0x1_0000_0000 <= dy <= 0x1_0000_0000,
            ;
        }
        dx * dx + dy * dy
    }

    fn comparable(&self) -> (c: ComparablePythagoras) {
        ComparablePythagoras
    }
}

/// The squared distance is symmetric.
pub proof fn lemma_squared_distance_symmetric(a: Point, b: Point)
    ensures
        squared_distance(a, b) == squared_distance(b, a),
{
    assert((a.x - b.x) * (a.x - b.x) == (b.x - a.x) * (b.x - a.x)) by (nonlinear_arith);
    assert((a.y - b.y) * (a.y - b.y) == (b.y - a.y) * (b.y - a.y)) by (nonlinear_arith);
}

/// A strategy for `(A, B)` used for `(B, A)`: it calls the inner
/// strategy with the arguments swapped.
#[derive(Debug, Default, Clone, Copy)]
pub struct Reversed<S>(pub S);

impl<A, B, S: DistanceStrategy<A, B>> DistanceStrategy<B, A> for Reversed<S> {
    type Comparable = Reversed<S::Comparable>;

    open spec fn spec_distance(&self, b: B, a: A) -> int {
        self.0.spec_distance(a, b)
    }

    /// The inner strategy's comparable form, reversed in turn.
    open spec fn spec_comparable(&self) -> Reversed<S::Comparable> {
        Reversed(self.0.spec_comparable())
    }

    fn distance(&self, b: &B, a: &A) -> (d: i128) {
        self.0.distance(a, b)
    }

    fn comparable(&self) -> Self::Comparable {
        Reversed(self.0.comparable())
    }
}

impl<A, B, S: IntersectsStrategy<A, B>> IntersectsStrategy<B, A> for Reversed<S> {
    open spec fn spec_intersects(&self, b: B, a: A) -> bool {
        self.0.spec_intersects(a, b)
    }

    fn intersects(&self, b: &B, a: &A) -> (r: bool) {
        self.0.intersects(a, b)
    }
}

} // verus!
