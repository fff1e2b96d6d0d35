//! Spatial query predicates.
//!
//! A predicate is tested against candidate values during a query walk;
//! the tree prunes any subtree whose bounds cannot satisfy it and dumps
//! any subtree whose bounds guarantee it. The built-in [`Predicate`]
//! covers the box relations; [`and`], [`not`] and [`satisfies`] build
//! logical and value-level conditions that keep the pruning sound.

use vstd::prelude::*;

use crate::bounds::Bounds;
use crate::indexable::Indexable;

verus! {

/// A spatial query against the index, expressed on bounding boxes. Each
/// variant carries the query box.
#[derive(Debug, Clone, Copy, PartialEq, Eq)]
pub enum Predicate {
    /// Values whose bounds intersect the query box.
    Intersects(Bounds),
    /// Values whose bounds are fully inside the query box, boundaries
    /// included (a point on the window's edge is within it).
    Within(Bounds),
    /// Values whose bounds contain a non-degenerate query box.
    Contains(Bounds),
    /// Values whose bounds are inside the query box, including degenerate
    /// values and coincident boundaries.
    CoveredBy(Bounds),
    /// Values whose bounds contain the query box, including a degenerate
    /// query.
    Covers(Bounds),
    /// Values whose bounds share no point with the query box.
    Disjoint(Bounds),
    /// Values whose bounds overlap the query box without either box
    /// covering the other.
    Overlaps(Bounds),
}

impl Predicate {
    /// Whether a value with box `value` satisfies this predicate.
    pub open spec fn spec_matches_box(self, value: Bounds) -> bool {
        match self {
            Predicate::Intersects(q) => q.spec_intersects(value),
            Predicate::Within(q) => value.spec_covered_by(q),
            Predicate::Contains(q) => q.spec_within(value),
            Predicate::CoveredBy(q) => value.spec_covered_by(q),
            Predicate::Covers(q) => q.spec_covered_by(value),
            Predicate::Disjoint(q) => q.spec_disjoint(value),
            Predicate::Overlaps(q) => q.spec_overlaps(value),
        }
    }

    /// Whether a subtree with box `node` may hold a matching value.
    pub open spec fn spec_could_match_box(self, node: Bounds) -> bool {
        match self {
            Predicate::Intersects(q) => q.spec_intersects(node),
            Predicate::Within(q) => q.spec_intersects(node),
            Predicate::CoveredBy(q) => q.spec_intersects(node),
            Predicate::Overlaps(q) => q.spec_intersects(node),
            Predicate::Contains(q) => node.spec_contains(q),
            Predicate::Covers(q) => node.spec_contains(q),
            Predicate::Disjoint(q) => !node.spec_covered_by(q),
        }
    }

    /// Whether every value in a subtree with box `node` is a match.
    pub open spec fn spec_covers_all_box(self, node: Bounds) -> bool {
        match self {
            Predicate::Intersects(q) => q.spec_contains(node),
            Predicate::CoveredBy(q) => q.spec_contains(node),
            Predicate::Disjoint(q) => q.spec_disjoint(node),
            _ => false,
        }
    }

    /// Whether a leaf value with box `value` satisfies this predicate.
    pub fn matches(&self, value: &Bounds) -> (r: bool)
        ensures
            r == self.spec_matches_box(*value),
    {
        match self {
            Predicate::Intersects(q) => q.intersects(value),
            Predicate::Within(q) => value.covered_by(q),
            Predicate::Contains(q) => q.within(value),
            Predicate::CoveredBy(q) => value.covered_by(q),
            Predicate::Covers(q) => q.covered_by(value),
            Predicate::Disjoint(q) => q.disjoint(value),
            Predicate::Overlaps(q) => q.overlaps(value),
        }
    }

    /// Whether a subtree with box `node` could contain any matching value:
    /// the pruning test.
    pub fn could_match(&self, node: &Bounds) -> (r: bool)
        ensures
            r == self.spec_could_match_box(*node),
    {
        match self {
            Predicate::Intersects(q) => q.intersects(node),
            Predicate::Within(q) => q.intersects(node),
            Predicate::CoveredBy(q) => q.intersects(node),
            Predicate::Overlaps(q) => q.intersects(node),
            Predicate::Contains(q) => node.contains(q),
            Predicate::Covers(q) => node.contains(q),
            Predicate::Disjoint(q) => !node.covered_by(q),
        }
    }

    /// Whether every value in a subtree with box `node` is a guaranteed
    /// match: the containment fast path.
    pub fn covers_all(&self, node: &Bounds) -> (r: bool)
        ensures
            r == self.spec_covers_all_box(*node),
    {
        match self {
            Predicate::Intersects(q) => q.contains(node),
            Predicate::CoveredBy(q) => q.contains(node),
            Predicate::Disjoint(q) => q.disjoint(node),
            _ => false,
        }
    }

    /// Combine this spatial predicate with another condition.
    pub fn and<P>(self, other: P) -> (r: AndPredicate<Self, P>)
        ensures
            r.left() == self,
            r.right() == other,
    {
        and(self, other)
    }
}

/// The values a built-in predicate prunes soundly: every value with a
/// valid box, and for `Contains` and `Covers`, which never drain a
/// subtree untested and test a node by containing the query box, every
/// value at all.
pub open spec fn spec_prunes_soundly(p: Predicate, value: Bounds) -> bool {
    value.valid() || p is Contains || p is Covers
}

/// `Overlaps` asks for boxes whose interiors meet the query's while
/// neither box covers the other: a box that covers the query, or lies
/// inside it, never overlaps it; two boxes whose interiors meet with
/// neither covering the other always do; overlapping boxes intersect;
/// and the relation is symmetric.
pub proof fn lemma_overlaps_excludes_covering(q: Bounds, v: Bounds)
    ensures
        (q.spec_contains(v) || v.spec_contains(q)) ==> !Predicate::Overlaps(q).spec_matches_box(v),
        (q.lo(0) < v.hi(0) && v.lo(0) < q.hi(0) && q.lo(1) < v.hi(1) && v.lo(1) < q.hi(1)
            && !q.spec_contains(v) && !v.spec_contains(q)) ==> Predicate::Overlaps(q).spec_matches_box(v),
        Predicate::Overlaps(q).spec_matches_box(v) ==> Predicate::Intersects(q).spec_matches_box(v),
        Predicate::Overlaps(q).spec_matches_box(v) == Predicate::Overlaps(v).spec_matches_box(q),
{
}

/// A degenerate query window at the point `p`: `Contains` matches no box,
/// since it asks for a window with area, while `Covers` matches exactly
/// the boxes that hold `p`, boundaries included.
pub proof fn lemma_point_window(p: [i32; 2], value: Bounds)
    ensures
        !Predicate::Contains(Bounds { min: p, max: p }).spec_matches_box(value),
        Predicate::Covers(Bounds { min: p, max: p }).spec_matches_box(value) == (value.lo(0) <= p[0]
            <= value.hi(0) && value.lo(1) <= p[1] <= value.hi(1)),
{
}

/// Pruning with a built-in predicate is sound: for a value box inside a
/// node box (valid, or any box for `Contains` and `Covers`), a match
/// implies the node could match, and a node the predicate covers makes
/// every value below it a match.
pub proof fn lemma_predicate_sound(p: Predicate, node: Bounds, value: Bounds)
    requires
        node.spec_contains(value),
        spec_prunes_soundly(p, value),
    ensures
        p.spec_matches_box(value) ==> p.spec_could_match_box(node),
        p.spec_covers_all_box(node) ==> p.spec_matches_box(value),
{
}

/// A valid box intersects itself, so a stored value with a valid box is
/// found by the `Intersects` query of its own box (see
/// [`Rtree::query`](crate::rtree::Rtree::query)).
pub proof fn lemma_own_box_intersects(b: Bounds)
    requires
        b.valid(),
    ensures
        Predicate::Intersects(b).spec_matches_box(b),
{
}

/// A predicate accepted by [`Rtree::query_with`](crate::rtree::Rtree::query_with).
///
/// `matches` decides leaf values. `could_match` and `covers_all` are
/// conservative subtree tests: false from the former prunes a subtree;
/// true from the latter yields it without further predicate calls. An
/// implementation proves, in `lemma_sound`, that both tests agree with
/// `matches` for every value it is sound for (`spec_sound_for`, which
/// holds at least of every valid value box) inside a node box.
pub trait QueryPredicate<T: Indexable> {
    /// The condition under which the three tests are well defined.
    spec fn spec_ready(&self) -> bool;

    /// Whether one indexed value satisfies the predicate.
    spec fn spec_matches(&self, value: T) -> bool;

    /// Whether a subtree with this box may contain a match.
    spec fn spec_could_match(&self, node: Bounds) -> bool;

    /// The values for which the subtree tests are sound (at least every
    /// value with a valid box).
    spec fn spec_sound_for(&self, value: T) -> bool;

    /// Every value with a valid box is one the subtree tests are sound
    /// for.
    proof fn lemma_valid_sound(&self, value: T)
        requires
            self.spec_ready(),
            value.spec_bounds().valid(),
        ensures
            self.spec_sound_for(value),
    ;

    /// Whether every value of a subtree with this box is a match.
    spec fn spec_covers_all(&self, node: Bounds) -> bool;

    /// The subtree tests are sound for values whose box lies inside the
    /// node box.
    proof fn lemma_sound(&self, value: T, node: Bounds)
        requires
            self.spec_ready(),
            node.spec_contains(value.spec_bounds()),
            self.spec_sound_for(value),
        ensures
            self.spec_matches(value) ==> self.spec_could_match(node),
            self.spec_covers_all(node) ==> self.spec_matches(value),
    ;

    /// Whether one indexed value satisfies the predicate.
    fn matches(&self, value: &T) -> (r: bool)
        requires
            self.spec_ready(),
        ensures
            r == self.spec_matches(*value),
    ;

    /// Whether a subtree may contain a match.
    fn could_match(&self, node: &Bounds) -> (r: bool)
        requires
            self.spec_ready(),
        ensures
            r == self.spec_could_match(*node),
    ;

    /// Whether every value in a subtree is guaranteed to match.
    fn covers_all(&self, node: &Bounds) -> (r: bool)
        requires
            self.spec_ready(),
        ensures
            r == self.spec_covers_all(*node),
    ;
}

impl<T: Indexable> QueryPredicate<T> for Predicate {
    open spec fn spec_ready(&self) -> bool {
        true
    }

    open spec fn spec_matches(&self, value: T) -> bool {
        self.spec_matches_box(value.spec_bounds())
    }

    open spec fn spec_could_match(&self, node: Bounds) -> bool {
        self.spec_could_match_box(node)
    }

    open spec fn spec_covers_all(&self, node: Bounds) -> bool {
        self.spec_covers_all_box(node)
    }

    open spec fn spec_sound_for(&self, value: T) -> bool {
        spec_prunes_soundly(*self, value.spec_bounds())
    }

    proof fn lemma_valid_sound(&self, value: T) {
    }

    proof fn lemma_sound(&self, value: T, node: Bounds) {
        lemma_predicate_sound(*self, node, value.spec_bounds());
    }

    fn matches(&self, value: &T) -> (r: bool) {
        let b = value.bounds();
        Predicate::matches(self, &b)
    }

    fn could_match(&self, node: &Bounds) -> (r: bool) {
        Predicate::could_match(self, node)
    }

    fn covers_all(&self, node: &Bounds) -> (r: bool) {
        Predicate::covers_all(self, node)
    }
}

/// The conjunction of two query predicates.
#[derive(Debug, Clone, Copy, PartialEq, Eq)]
pub struct AndPredicate<Left, Right> {
    left: Left,
    right: Right,
}

impl<Left, Right> AndPredicate<Left, Right> {
    /// The first conjunct.
    pub closed spec fn left(self) -> Left {
        self.left
    }

    /// The second conjunct.
    pub closed spec fn right(self) -> Right {
        self.right
    }
}

/// Combine two query predicates with logical conjunction.
pub fn and<Left, Right>(left: Left, right: Right) -> (r: AndPredicate<Left, Right>)
    ensures
        r.left() == left,
        r.right() == right,
{
    AndPredicate { left, right }
}

impl<T, Left, Right> QueryPredicate<T> for AndPredicate<Left, Right> where
    T: Indexable,
    Left: QueryPredicate<T>,
    Right: QueryPredicate<T>,
 {
    open spec fn spec_ready(&self) -> bool {
        self.left().spec_ready() && self.right().spec_ready()
    }

    open spec fn spec_matches(&self, value: T) -> bool {
        self.left().spec_matches(value) && self.right().spec_matches(value)
    }

    open spec fn spec_could_match(&self, node: Bounds) -> bool {
        self.left().spec_could_match(node) && self.right().spec_could_match(node)
    }

    open spec fn spec_covers_all(&self, node: Bounds) -> bool {
        self.left().spec_covers_all(node) && self.right().spec_covers_all(node)
    }

    open spec fn spec_sound_for(&self, value: T) -> bool {
        self.left().spec_sound_for(value) && self.right().spec_sound_for(value)
    }

    proof fn lemma_valid_sound(&self, value: T) {
        self.left().lemma_valid_sound(value);
        self.right().lemma_valid_sound(value);
    }

    proof fn lemma_sound(&self, value: T, node: Bounds) {
        self.left().lemma_sound(value, node);
        self.right().lemma_sound(value, node);
    }

    fn matches(&self, value: &T) -> (r: bool) {
        self.left.matches(value) && self.right.matches(value)
    }

    fn could_match(&self, node: &Bounds) -> (r: bool) {
        self.left.could_match(node) && self.right.could_match(node)
    }

    fn covers_all(&self, node: &Bounds) -> (r: bool) {
        self.left.covers_all(node) && self.right.covers_all(node)
    }
}

/// The logical negation of a query predicate.
#[derive(Debug, Clone, Copy, PartialEq, Eq)]
pub struct NotPredicate<Inner> {
    inner: Inner,
}

impl<Inner> NotPredicate<Inner> {
    /// The negated predicate.
    pub closed spec fn inner(self) -> Inner {
        self.inner
    }
}

/// Negate a query predicate.
pub fn not<Inner>(inner: Inner) -> (r: NotPredicate<Inner>)
    ensures
        r.inner() == inner,
{
    NotPredicate { inner }
}

/// `!predicate` is [`not`]`(predicate)`.
impl core::ops::Not for Predicate {
    type Output = NotPredicate<Predicate>;

    fn not(self) -> (r: NotPredicate<Predicate>) {
        not(self)
    }
}

impl vstd::std_specs::ops::NotSpecImpl for Predicate {
    open spec fn obeys_not_spec() -> bool {
        true
    }

    open spec fn not_req(self) -> bool {
        true
    }

    /// The negation of `self`: its [`inner`](NotPredicate::inner) is
    /// `self` (see [`lemma_not_operator`]).
    closed spec fn not_spec(self) -> NotPredicate<Predicate> {
        NotPredicate { inner: self }
    }
}

/// `!p` negates `p`: its inner predicate is `p`.
pub proof fn lemma_not_operator(p: Predicate)
    ensures
        <Predicate as vstd::std_specs::ops::NotSpec>::not_spec(p).inner() == p,
{
}

impl<T, Inner> QueryPredicate<T> for NotPredicate<Inner> where
    T: Indexable,
    Inner: QueryPredicate<T>,
 {
    open spec fn spec_ready(&self) -> bool {
        self.inner().spec_ready()
    }

    open spec fn spec_matches(&self, value: T) -> bool {
        !self.inner().spec_matches(value)
    }

    open spec fn spec_could_match(&self, node: Bounds) -> bool {
        !self.inner().spec_covers_all(node)
    }

    open spec fn spec_covers_all(&self, node: Bounds) -> bool {
        !self.inner().spec_could_match(node)
    }

    open spec fn spec_sound_for(&self, value: T) -> bool {
        self.inner().spec_sound_for(value)
    }

    proof fn lemma_valid_sound(&self, value: T) {
        self.inner().lemma_valid_sound(value);
    }

    proof fn lemma_sound(&self, value: T, node: Bounds) {
        self.inner().lemma_sound(value, node);
    }

    fn matches(&self, value: &T) -> (r: bool) {
        !self.inner.matches(value)
    }

    fn could_match(&self, node: &Bounds) -> (r: bool) {
        !self.inner.covers_all(node)
    }

    fn covers_all(&self, node: &Bounds) -> (r: bool) {
        !self.inner.could_match(node)
    }
}

/// A value-level query condition: a value matches when the condition
/// returns `true` for it. It never prunes and never dumps a subtree.
pub struct Satisfies<F> {
    condition: F,
}

impl<F> Satisfies<F> {
    /// The wrapped condition.
    pub closed spec fn condition(self) -> F {
        self.condition
    }
}

/// Build a value-level `satisfies` query predicate.
pub fn satisfies<F>(condition: F) -> (r: Satisfies<F>)
    ensures
        r.condition() == condition,
{
    Satisfies { condition }
}

impl<T, F> QueryPredicate<T> for Satisfies<F> where T: Indexable, F: Fn(&T) -> bool {
    /// The condition may be called on every value and answers each value
    /// the same way every time.
    open spec fn spec_ready(&self) -> bool {
        &&& forall|v: &T| #[trigger] call_requires(self.condition(), (v,))
        &&& forall|v: &T, r1: bool, r2: bool|
            #![trigger call_ensures(self.condition(), (v,), r1), call_ensures(self.condition(), (v,), r2)]
            call_ensures(self.condition(), (v,), r1) && call_ensures(self.condition(), (v,), r2)
                ==> r1 == r2
    }

    open spec fn spec_matches(&self, value: T) -> bool {
        call_ensures(self.condition(), (&value,), true)
    }

    open spec fn spec_could_match(&self, node: Bounds) -> bool {
        true
    }

    open spec fn spec_covers_all(&self, node: Bounds) -> bool {
        false
    }

    /// Nothing is pruned or drained untested, so every value is safe.
    open spec fn spec_sound_for(&self, value: T) -> bool {
        true
    }

    proof fn lemma_valid_sound(&self, value: T) {
    }

    proof fn lemma_sound(&self, value: T, node: Bounds) {
    }

    fn matches(&self, value: &T) -> (r: bool) {
        let r = (self.condition)(value);
        proof {
            if !r {
                if call_ensures(self.condition(), (value,), true) {
                    assert(call_ensures(self.condition(), (value,), r));
                }
            }
        }
        r
    }

    fn could_match(&self, node: &Bounds) -> (r: bool) {
        true
    }

    fn covers_all(&self, node: &Bounds) -> (r: bool) {
        false
    }
}

} // verus!
