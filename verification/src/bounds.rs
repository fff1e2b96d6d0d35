//! The axis-aligned bounding box the tree keys on.
//!
//! Coordinates are `i32`; every derived quantity (areas, margins,
//! squared distances) is computed exactly in `i128`, so the box
//! arithmetic carries no rounding and its laws hold exactly.

use vstd::prelude::*;

verus! {

/// An axis-aligned bounding box in the plane.
///
/// `min` is the lower corner `[x_min, y_min]`, `max` the upper corner
/// `[x_max, y_max]`. A box is *valid* when `min <= max` on both axes; a
/// valid box with `min == max` on an axis is degenerate on that axis.
#[derive(Debug, Clone, Copy, PartialEq, Eq)]
pub struct Bounds {
    /// Lower corner `[x_min, y_min]`.
    pub min: [i32; 2],
    /// Upper corner `[x_max, y_max]`.
    pub max: [i32; 2],
}

/// The smaller of two integers.
pub open spec fn min_int(a: int, b: int) -> int {
    if a <= b { a } else { b }
}

/// The larger of two integers.
pub open spec fn max_int(a: int, b: int) -> int {
    if a >= b { a } else { b }
}

/// The distance from `v` to the closed interval `[lo, hi]` (0 inside).
pub open spec fn gap(v: int, lo: int, hi: int) -> int {
    if v < lo {
        lo - v
    } else if v > hi {
        v - hi
    } else {
        0
    }
}

impl Bounds {
    /// Lower coordinate on axis `a` (0 = x, 1 = y).
    pub open spec fn lo(self, a: int) -> int {
        if a == 0 { self.min[0] as int } else { self.min[1] as int }
    }

    /// Upper coordinate on axis `a` (0 = x, 1 = y).
    pub open spec fn hi(self, a: int) -> int {
        if a == 0 { self.max[0] as int } else { self.max[1] as int }
    }

    /// `min <= max` on both axes.
    pub open spec fn valid(self) -> bool {
        self.lo(0) <= self.hi(0) && self.lo(1) <= self.hi(1)
    }

    /// Extent along axis `a`.
    pub open spec fn width(self, a: int) -> int {
        self.hi(a) - self.lo(a)
    }

    /// The area of the box.
    pub open spec fn spec_area(self) -> int {
        self.width(0) * self.width(1)
    }

    /// Half the perimeter (the R* "margin").
    pub open spec fn spec_half_perimeter(self) -> int {
        self.width(0) + self.width(1)
    }

    /// The box with the given corners on both axes.
    pub open spec fn from_coords(x0: int, y0: int, x1: int, y1: int) -> Bounds
        recommends
            i32::MIN <= x0 <= i32::MAX,
            i32::MIN <= y0 <= i32::MAX,
            i32::MIN <= x1 <= i32::MAX,
            i32::MIN <= y1 <= i32::MAX,
    {
        Bounds { min: [x0 as i32, y0 as i32], max: [x1 as i32, y1 as i32] }
    }

    /// Whether `self` and `other` have the same corners.
    pub open spec fn same(self, other: Bounds) -> bool {
        self.lo(0) == other.lo(0) && self.lo(1) == other.lo(1) && self.hi(0) == other.hi(0)
            && self.hi(1) == other.hi(1)
    }

    /// The smallest box containing both `self` and `other`, per coordinate.
    pub open spec fn union_lo(self, other: Bounds, a: int) -> int {
        min_int(self.lo(a), other.lo(a))
    }

    pub open spec fn union_hi(self, other: Bounds, a: int) -> int {
        max_int(self.hi(a), other.hi(a))
    }

    /// The union box as a value.
    pub open spec fn spec_union(self, other: Bounds) -> Bounds {
        Bounds::from_coords(
            self.union_lo(other, 0),
            self.union_lo(other, 1),
            self.union_hi(other, 0),
            self.union_hi(other, 1),
        )
    }

    /// How much the area grows when the box is extended to cover `other`.
    pub open spec fn spec_enlargement(self, other: Bounds) -> int {
        self.spec_union(other).spec_area() - self.spec_area()
    }

    /// The two closed boxes share a point (touching counts).
    pub open spec fn spec_intersects(self, other: Bounds) -> bool {
        self.lo(0) <= other.hi(0) && self.hi(0) >= other.lo(0) && self.lo(1) <= other.hi(1)
            && self.hi(1) >= other.lo(1)
    }

    /// `self` fully contains `other` (closed containment, per coordinate).
    pub open spec fn spec_contains(self, other: Bounds) -> bool {
        self.lo(0) <= other.lo(0) && self.hi(0) >= other.hi(0) && self.lo(1) <= other.lo(1)
            && self.hi(1) >= other.hi(1)
    }

    /// `self` lies inside `other`, boundaries included.
    pub open spec fn spec_covered_by(self, other: Bounds) -> bool {
        other.spec_contains(self)
    }

    /// `self` lies inside `other` and is non-degenerate on every axis.
    pub open spec fn spec_within(self, other: Bounds) -> bool {
        other.spec_contains(self) && self.lo(0) < self.hi(0) && self.lo(1) < self.hi(1)
    }

    /// The two boxes share no point.
    pub open spec fn spec_disjoint(self, other: Bounds) -> bool {
        !self.spec_intersects(other)
    }

    /// The interiors overlap on both axes, and neither box covers the other.
    pub open spec fn spec_overlaps(self, other: Bounds) -> bool {
        &&& self.hi(0) > other.lo(0) && self.lo(0) < other.hi(0)
        &&& self.hi(1) > other.lo(1) && self.lo(1) < other.hi(1)
        &&& !self.spec_covered_by(other)
        &&& !other.spec_covered_by(self)
    }

    /// Squared distance from a point to the box (0 inside).
    pub open spec fn spec_comparable_distance(self, p: [i32; 2]) -> int {
        let dx = gap(p[0] as int, self.lo(0), self.hi(0));
        let dy = gap(p[1] as int, self.lo(1), self.hi(1));
        dx * dx + dy * dy
    }

    /// A box from explicit corners.
    pub fn new(min: [i32; 2], max: [i32; 2]) -> (b: Bounds)
        ensures
            b.min == min,
            b.max == max,
    {
        Bounds { min, max }
    }

    /// A degenerate box at a single point.
    pub fn point(p: [i32; 2]) -> (b: Bounds)
        ensures
            b.min == p,
            b.max == p,
    {
        Bounds { min: p, max: p }
    }

    /// The area of the box.
    pub fn area(&self) -> (r: i128)
        ensures
            r == self.spec_area(),
            -0x1_0000_0000_0000_0000 <= r <= 0x1_0000_0000_0000_0000,
    {
        let w = self.max[0] as i128 - self.min[0] as i128;
        let h = self.max[1] as i128 - self.min[1] as i128;
        proof {
            assert(-0x1_0000_0000 <= w <= 0x1_0000_0000);
            assert(-0x1_0000_0000 <= h <= 0x1_0000_0000);
            assert(-0x1_0000_0000_0000_0000 <= w * h <= 0x1_0000_0000_0000_0000) by (nonlinear_arith)
                requires
                    -0x1_0000_0000 <= w <= 0x1_0000_0000,
                    -0x1_0000_0000 <= h <= 0x1_0000_0000,
            ;
        }
        w * h
    }

    /// Half the perimeter, the R* "margin".
    pub fn half_perimeter(&self) -> (r: i128)
        ensures
            r == self.spec_half_perimeter(),
    {
        (self.max[0] as i128 - self.min[0] as i128) + (self.max[1] as i128 - self.min[1] as i128)
    }

    /// The smallest box containing both `self` and `other`.
    pub fn union(&self, other: &Bounds) -> (r: Bounds)
        ensures
            r == self.spec_union(*other),
            r.lo(0) == self.union_lo(*other, 0),
            r.lo(1) == self.union_lo(*other, 1),
            r.hi(0) == self.union_hi(*other, 0),
            r.hi(1) == self.union_hi(*other, 1),
    {
        let x0 = if self.min[0] <= other.min[0] { self.min[0] } else { other.min[0] };
        let y0 = if self.min[1] <= other.min[1] { self.min[1] } else { other.min[1] };
        let x1 = if self.max[0] >= other.max[0] { self.max[0] } else { other.max[0] };
        let y1 = if self.max[1] >= other.max[1] { self.max[1] } else { other.max[1] };
        let r = Bounds { min: [x0, y0], max: [x1, y1] };
        assert(r.min[0] == x0 && r.min[1] == y0 && r.max[0] == x1 && r.max[1] == y1);
        r
    }

    /// How much `self`'s area would grow to also contain `other`.
    pub fn enlargement(&self, other: &Bounds) -> (r: i128)
        ensures
            r == self.spec_enlargement(*other),
            -0x2_0000_0000_0000_0000 <= r <= 0x2_0000_0000_0000_0000,
    {
        let u = self.union(other);
        let ua = u.area();
        let a = self.area();
        ua - a
    }

    /// Whether the two closed boxes share any point.
    pub fn intersects(&self, other: &Bounds) -> (r: bool)
        ensures
            r == self.spec_intersects(*other),
    {
        self.min[0] <= other.max[0] && self.max[0] >= other.min[0] && self.min[1] <= other.max[1]
            && self.max[1] >= other.min[1]
    }

    /// Whether `self` fully contains `other`.
    pub fn contains(&self, other: &Bounds) -> (r: bool)
        ensures
            r == self.spec_contains(*other),
    {
        self.min[0] <= other.min[0] && self.max[0] >= other.max[0] && self.min[1] <= other.min[1]
            && self.max[1] >= other.max[1]
    }

    /// Whether `self` lies inside `other`, boundaries included.
    pub fn covered_by(&self, other: &Bounds) -> (r: bool)
        ensures
            r == self.spec_covered_by(*other),
    {
        other.contains(self)
    }

    /// Whether `self` is non-degenerate and lies inside `other`.
    pub fn within(&self, other: &Bounds) -> (r: bool)
        ensures
            r == self.spec_within(*other),
    {
        other.contains(self) && self.min[0] < self.max[0] && self.min[1] < self.max[1]
    }

    /// Whether the two boxes share no point.
    pub fn disjoint(&self, other: &Bounds) -> (r: bool)
        ensures
            r == self.spec_disjoint(*other),
    {
        !self.intersects(other)
    }

    /// Whether the interiors overlap while neither box covers the other.
    pub fn overlaps(&self, other: &Bounds) -> (r: bool)
        ensures
            r == self.spec_overlaps(*other),
    {
        self.max[0] > other.min[0] && self.min[0] < other.max[0] && self.max[1] > other.min[1]
            && self.min[1] < other.max[1] && !self.covered_by(other) && !other.covered_by(self)
    }

    /// The squared minimum distance from a query point to this box (0
    /// inside): the comparison key of nearest-neighbour search.
    pub fn comparable_min_distance_to(&self, p: [i32; 2]) -> (r: i128)
        ensures
            r == self.spec_comparable_distance(p),
            r >= 0,
    {
        let dx = clamp_gap(p[0], self.min[0], self.max[0]) as i128;
        let dy = clamp_gap(p[1], self.min[1], self.max[1]) as i128;
        proof {
            assert(0 <= dx * dx <= 0x1_0000_0000_0000_0000) by (nonlinear_arith)
                requires
                    0 <= dx <= 0x1_0000_0000,
            ;
            assert(0 <= dy * dy <= 0x1_0000_0000_0000_0000) by (nonlinear_arith)
                requires
                    0 <= dy <= 0x1_0000_0000,
            ;
        }
        dx * dx + dy * dy
    }

    /// Twice the centre of the box, `[min_x + max_x, min_y + max_y]`: the
    /// exact, order-preserving key of the bulk-load sort.
    pub fn doubled_center(&self) -> (c: [i64; 2])
        ensures
            c[0] == self.lo(0) + self.hi(0),
            c[1] == self.lo(1) + self.hi(1),
    {
        let c = [self.min[0] as i64 + self.max[0] as i64, self.min[1] as i64 + self.max[1] as i64];
        c
    }
}

/// Distance from `v` to the interval `[lo, hi]` (0 if inside).
fn clamp_gap(v: i32, lo: i32, hi: i32) -> (r: i64)
    ensures
        r == gap(v as int, lo as int, hi as int),
        0 <= r <= 0x1_0000_0000,
{
    if v < lo {
        lo as i64 - v as i64
    } else if v > hi {
        v as i64 - hi as i64
    } else {
        0
    }
}

/// The union of a sequence of boxes, folded left to right.
pub open spec fn spec_union_all(boxes: Seq<Bounds>) -> Bounds
    recommends
        boxes.len() > 0,
    decreases boxes.len(),
{
    if boxes.len() <= 1 {
        boxes[0]
    } else {
        spec_union_all(boxes.drop_last()).spec_union(boxes.last())
    }
}

/// `b` contains every box of `boxes`.
pub open spec fn covers_boxes(b: Bounds, boxes: Seq<Bounds>) -> bool {
    forall|i: int| 0 <= i < boxes.len() ==> #[trigger] b.spec_contains(boxes[i])
}

/// Each corner coordinate of `b` is attained by some box of `boxes`.
pub open spec fn attained_by_boxes(b: Bounds, boxes: Seq<Bounds>) -> bool {
    &&& exists|i: int| 0 <= i < boxes.len() && #[trigger] boxes[i].lo(0) == b.lo(0)
    &&& exists|i: int| 0 <= i < boxes.len() && #[trigger] boxes[i].lo(1) == b.lo(1)
    &&& exists|i: int| 0 <= i < boxes.len() && #[trigger] boxes[i].hi(0) == b.hi(0)
    &&& exists|i: int| 0 <= i < boxes.len() && #[trigger] boxes[i].hi(1) == b.hi(1)
}

/// `b` is the tightest box around `boxes`: it contains all of them and
/// each of its sides touches one of them.
pub open spec fn tight_around_boxes(b: Bounds, boxes: Seq<Bounds>) -> bool {
    covers_boxes(b, boxes) && attained_by_boxes(b, boxes)
}

/// The union of a non-empty slice of boxes.
pub fn union_all(boxes: &[Bounds]) -> (r: Bounds)
    requires
        boxes@.len() > 0,
    ensures
        r == spec_union_all(boxes@),
        tight_around_boxes(r, boxes@),
{
    let mut acc = boxes[0];
    let mut i: usize = 1;
    proof {
        assert(boxes@.subrange(0, 1).len() == 1);
        assert(boxes@.subrange(0, 1)[0] == boxes@[0]);
        lemma_union_all_tight(boxes@.subrange(0, 1));
    }
    while i < boxes.len()
        invariant
            1 <= i <= boxes@.len(),
            acc == spec_union_all(boxes@.subrange(0, i as int)),
        decreases boxes@.len() - i,
    {
        let ghost prev = boxes@.subrange(0, i as int);
        acc = acc.union(&boxes[i]);
        i = i + 1;
        proof {
            let cur = boxes@.subrange(0, i as int);
            assert(cur.drop_last() =~= prev);
            assert(cur.last() == boxes@[i - 1]);
        }
    }
    proof {
        assert(boxes@.subrange(0, boxes@.len() as int) =~= boxes@);
        lemma_union_all_tight(boxes@);
    }
    acc
}

/// The left fold of `spec_union` is the tight box of the sequence.
pub proof fn lemma_union_all_tight(boxes: Seq<Bounds>)
    requires
        boxes.len() > 0,
    ensures
        tight_around_boxes(spec_union_all(boxes), boxes),
    decreases boxes.len(),
{
    let u = spec_union_all(boxes);
    if boxes.len() == 1 {
        assert(boxes[0].lo(0) == u.lo(0));
        assert(boxes[0].lo(1) == u.lo(1));
        assert(boxes[0].hi(0) == u.hi(0));
        assert(boxes[0].hi(1) == u.hi(1));
        assert(u.spec_contains(boxes[0]));
    } else {
        let init = boxes.drop_last();
        let last = boxes.last();
        lemma_union_all_tight(init);
        let p = spec_union_all(init);
        assert(u == p.spec_union(last));
        lemma_union_coords(p, last);
        assert forall|i: int| 0 <= i < boxes.len() implies #[trigger] u.spec_contains(boxes[i]) by {
            if i < boxes.len() - 1 {
                assert(init[i] == boxes[i]);
                assert(p.spec_contains(init[i]));
            }
        }
        // Each side of the union comes from the prefix box or from the last box.
        if p.lo(0) <= last.lo(0) {
            let j = choose|j: int| 0 <= j < init.len() && #[trigger] init[j].lo(0) == p.lo(0);
            assert(boxes[j].lo(0) == u.lo(0));
        } else {
            assert(boxes[boxes.len() - 1].lo(0) == u.lo(0));
        }
        if p.lo(1) <= last.lo(1) {
            let j = choose|j: int| 0 <= j < init.len() && #[trigger] init[j].lo(1) == p.lo(1);
            assert(boxes[j].lo(1) == u.lo(1));
        } else {
            assert(boxes[boxes.len() - 1].lo(1) == u.lo(1));
        }
        if p.hi(0) >= last.hi(0) {
            let j = choose|j: int| 0 <= j < init.len() && #[trigger] init[j].hi(0) == p.hi(0);
            assert(boxes[j].hi(0) == u.hi(0));
        } else {
            assert(boxes[boxes.len() - 1].hi(0) == u.hi(0));
        }
        if p.hi(1) >= last.hi(1) {
            let j = choose|j: int| 0 <= j < init.len() && #[trigger] init[j].hi(1) == p.hi(1);
            assert(boxes[j].hi(1) == u.hi(1));
        } else {
            assert(boxes[boxes.len() - 1].hi(1) == u.hi(1));
        }
    }
}

/// The corners of `spec_union` are the per-axis minima and maxima.
pub proof fn lemma_union_coords(a: Bounds, b: Bounds)
    ensures
        a.spec_union(b).lo(0) == a.union_lo(b, 0),
        a.spec_union(b).lo(1) == a.union_lo(b, 1),
        a.spec_union(b).hi(0) == a.union_hi(b, 0),
        a.spec_union(b).hi(1) == a.union_hi(b, 1),
{
}

/// A box is determined by its four corner coordinates.
pub proof fn lemma_same_eq(a: Bounds, b: Bounds)
    requires
        a.same(b),
    ensures
        a == b,
{
    assert(a.min =~= b.min);
    assert(a.max =~= b.max);
}

/// Two tight boxes around the same non-empty sequence are equal.
pub proof fn lemma_tight_unique(a: Bounds, b: Bounds, boxes: Seq<Bounds>)
    requires
        tight_around_boxes(a, boxes),
        tight_around_boxes(b, boxes),
    ensures
        a == b,
{
    let i = choose|i: int| 0 <= i < boxes.len() && #[trigger] boxes[i].lo(0) == a.lo(0);
    let j = choose|j: int| 0 <= j < boxes.len() && #[trigger] boxes[j].lo(0) == b.lo(0);
    assert(a.spec_contains(boxes[j]) && b.spec_contains(boxes[i]));
    let i = choose|i: int| 0 <= i < boxes.len() && #[trigger] boxes[i].lo(1) == a.lo(1);
    let j = choose|j: int| 0 <= j < boxes.len() && #[trigger] boxes[j].lo(1) == b.lo(1);
    assert(a.spec_contains(boxes[j]) && b.spec_contains(boxes[i]));
    let i = choose|i: int| 0 <= i < boxes.len() && #[trigger] boxes[i].hi(0) == a.hi(0);
    let j = choose|j: int| 0 <= j < boxes.len() && #[trigger] boxes[j].hi(0) == b.hi(0);
    assert(a.spec_contains(boxes[j]) && b.spec_contains(boxes[i]));
    let i = choose|i: int| 0 <= i < boxes.len() && #[trigger] boxes[i].hi(1) == a.hi(1);
    let j = choose|j: int| 0 <= j < boxes.len() && #[trigger] boxes[j].hi(1) == b.hi(1);
    assert(a.spec_contains(boxes[j]) && b.spec_contains(boxes[i]));
    lemma_same_eq(a, b);
}

/// The union contains both of its arguments.
pub proof fn lemma_union_contains_both(a: Bounds, b: Bounds)
    ensures
        a.spec_union(b).spec_contains(a),
        a.spec_union(b).spec_contains(b),
{
    lemma_union_coords(a, b);
}

/// The union is commutative.
pub proof fn lemma_union_commutative(a: Bounds, b: Bounds)
    ensures
        a.spec_union(b) == b.spec_union(a),
{
    lemma_union_coords(a, b);
    lemma_union_coords(b, a);
    lemma_same_eq(a.spec_union(b), b.spec_union(a));
}

/// The union is associative.
pub proof fn lemma_union_associative(a: Bounds, b: Bounds, c: Bounds)
    ensures
        a.spec_union(b).spec_union(c) == a.spec_union(b.spec_union(c)),
{
    lemma_union_coords(a, b);
    lemma_union_coords(b, c);
    lemma_union_coords(a.spec_union(b), c);
    lemma_union_coords(a, b.spec_union(c));
    lemma_same_eq(a.spec_union(b).spec_union(c), a.spec_union(b.spec_union(c)));
}

/// A box that contains both arguments contains their union: the union
/// is the least box containing both.
pub proof fn lemma_union_least(a: Bounds, b: Bounds, c: Bounds)
    requires
        c.spec_contains(a),
        c.spec_contains(b),
    ensures
        c.spec_contains(a.spec_union(b)),
{
    lemma_union_coords(a, b);
}

/// Containment is transitive.
pub proof fn lemma_contains_transitive(a: Bounds, b: Bounds, c: Bounds)
    requires
        a.spec_contains(b),
        b.spec_contains(c),
    ensures
        a.spec_contains(c),
{
}

/// Intersection is symmetric, and disjointness is its negation.
pub proof fn lemma_intersects_symmetric(a: Bounds, b: Bounds)
    ensures
        a.spec_intersects(b) == b.spec_intersects(a),
        a.spec_disjoint(b) == !a.spec_intersects(b),
{
}

/// A valid box that lies inside `b` meets every box that contains `b`'s
/// point-set; in particular a valid box intersects any box containing it.
pub proof fn lemma_contained_valid_intersects(outer: Bounds, inner: Bounds)
    requires
        outer.spec_contains(inner),
        inner.valid(),
    ensures
        outer.spec_intersects(inner),
        inner.spec_intersects(outer),
{
}

/// Enlargement of a valid box is never negative.
pub proof fn lemma_enlargement_nonneg(a: Bounds, b: Bounds)
    requires
        a.valid(),
    ensures
        a.spec_enlargement(b) >= 0,
{
    let u = a.spec_union(b);
    lemma_union_coords(a, b);
    let w = a.width(0);
    let h = a.width(1);
    let uw = u.width(0);
    let uh = u.width(1);
    assert(uw >= w >= 0 && uh >= h >= 0);
    assert(uw * uh >= w * h) by (nonlinear_arith)
        requires
            uw >= w >= 0,
            uh >= h >= 0,
    ;
}

/// The squared distance to a box never exceeds the squared distance to a
/// valid box inside it: a subtree's box bounds every value below it.
pub proof fn lemma_distance_monotone(outer: Bounds, inner: Bounds, p: [i32; 2])
    requires
        outer.spec_contains(inner),
        inner.valid(),
    ensures
        outer.spec_comparable_distance(p) <= inner.spec_comparable_distance(p),
{
    let ox = gap(p[0] as int, outer.lo(0), outer.hi(0));
    let oy = gap(p[1] as int, outer.lo(1), outer.hi(1));
    let ix = gap(p[0] as int, inner.lo(0), inner.hi(0));
    let iy = gap(p[1] as int, inner.lo(1), inner.hi(1));
    lemma_gap_monotone(p[0] as int, outer.lo(0), outer.hi(0), inner.lo(0), inner.hi(0));
    lemma_gap_monotone(p[1] as int, outer.lo(1), outer.hi(1), inner.lo(1), inner.hi(1));
    assert(ox * ox <= ix * ix) by (nonlinear_arith)
        requires
            0 <= ox <= ix,
    ;
    assert(oy * oy <= iy * iy) by (nonlinear_arith)
        requires
            0 <= oy <= iy,
    ;
}

proof fn lemma_gap_monotone(v: int, olo: int, ohi: int, ilo: int, ihi: int)
    requires
        olo <= ilo,
        ilo <= ihi,
        ihi <= ohi,
    ensures
        0 <= gap(v, olo, ohi) <= gap(v, ilo, ihi),
{
}

/// The squared distance to a box is zero exactly when the point lies in
/// it.
pub proof fn lemma_distance_zero_iff_inside(b: Bounds, p: [i32; 2])
    ensures
        (b.spec_comparable_distance(p) == 0) == (b.lo(0) <= p[0] <= b.hi(0) && b.lo(1) <= p[1]
            <= b.hi(1)),
{
    let dx = gap(p[0] as int, b.lo(0), b.hi(0));
    let dy = gap(p[1] as int, b.lo(1), b.hi(1));
    assert(dx * dx >= 0 && dy * dy >= 0) by (nonlinear_arith);
    if dx != 0 {
        assert(dx * dx > 0) by (nonlinear_arith)
            requires
                dx != 0,
        ;
    }
    if dy != 0 {
        assert(dy * dy > 0) by (nonlinear_arith)
            requires
                dy != 0,
        ;
    }
}


/// Squared distances are never negative.
pub proof fn lemma_distance_nonneg(b: Bounds, p: [i32; 2])
    ensures
        b.spec_comparable_distance(p) >= 0,
{
    let dx = gap(p[0] as int, b.lo(0), b.hi(0));
    let dy = gap(p[1] as int, b.lo(1), b.hi(1));
    assert(dx * dx >= 0 && dy * dy >= 0) by (nonlinear_arith);
}

} // verus!
