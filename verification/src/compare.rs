//! Point-ordering policies.
//!
//! The default dimension ([`ALL_DIMENSIONS`]) compares lexicographically
//! across both dimensions; a non-negative dimension compares only that
//! coordinate. Integer coordinates compare exactly, so the epsilon and
//! exact policies agree.

use vstd::prelude::*;

use core::cmp::Ordering;

use crate::geometry::{CartesianFamily, Point};

verus! {

/// Sentinel asking the comparison policies to inspect every shared
/// dimension.
pub const ALL_DIMENSIONS: i8 = -1;

/// The number of dimensions the points share.
pub const SHARED_DIMENSIONS: usize = 2;

/// The relation a comparison asks about.
#[derive(Debug, Clone, Copy, PartialEq, Eq, Structural)]
pub enum Relation {
    /// Strictly precedes.
    Less,
    /// Strictly follows.
    Greater,
    /// Compares equal.
    Equal,
}

/// The outcome of comparing two coordinates.
#[derive(Debug, Clone, Copy, PartialEq, Eq, Structural)]
pub enum CoordinateOrder {
    /// The left coordinate is smaller.
    Less,
    /// The coordinates are equal.
    Equal,
    /// The left coordinate is larger.
    Greater,
}

/// `dimension` selects every dimension or one present in both points.
pub open spec fn valid_dimension(dimension: i8) -> bool {
    dimension == ALL_DIMENSIONS || (0 <= dimension && dimension < SHARED_DIMENSIONS)
}

/// Whether unequal coordinates `a`, `b` stand in `relation`.
pub open spec fn relation_holds(a: int, b: int, relation: Relation) -> bool {
    match relation {
        Relation::Less => a < b,
        Relation::Greater => a > b,
        Relation::Equal => false,
    }
}

/// Whether `left` stands in `relation` to `right` under the policy for
/// `dimension`: the first differing selected coordinate decides; if none
/// differs, only `Equal` holds.
pub open spec fn spec_compare(dimension: i8, left: Point, right: Point, relation: Relation) -> bool {
    if dimension == ALL_DIMENSIONS {
        if left.x != right.x {
            relation_holds(left.x as int, right.x as int, relation)
        } else if left.y != right.y {
            relation_holds(left.y as int, right.y as int, relation)
        } else {
            relation == Relation::Equal
        }
    } else {
        let d = dimension as int;
        if left.coord(d) != right.coord(d) {
            relation_holds(left.coord(d), right.coord(d), relation)
        } else {
            relation == Relation::Equal
        }
    }
}

/// Sort points in ascending order (lexicographically by default), with
/// equality within the coordinate type's epsilon.
#[derive(Debug, Clone, Copy)]
pub struct Less {
    dimension: i8,
}

/// Sort points in ascending order with exact equality.
#[derive(Debug, Clone, Copy)]
pub struct LessExact {
    dimension: i8,
}

/// Sort points in descending order.
#[derive(Debug, Clone, Copy)]
pub struct Greater {
    dimension: i8,
}

/// Test points for coordinate-wise equality.
#[derive(Debug, Clone, Copy)]
pub struct EqualTo {
    dimension: i8,
}

impl Less {
    /// The dimension this policy inspects.
    pub closed spec fn dimension(self) -> i8 {
        self.dimension
    }

    /// The policy for `dimension` ([`ALL_DIMENSIONS`] or a coordinate).
    pub fn new(dimension: i8) -> (p: Less)
        ensures
            p.dimension() == dimension,
    {
        Less { dimension }
    }

    /// Whether `left` precedes `right` under this policy.
    pub fn apply(self, left: &Point, right: &Point) -> (r: bool)
        requires
            valid_dimension(self.dimension()),
        ensures
            r == spec_compare(self.dimension(), *left, *right, Relation::Less),
    {
        CartesianFamily::less(left, right, self.dimension, false)
    }
}

impl LessExact {
    /// The dimension this policy inspects.
    pub closed spec fn dimension(self) -> i8 {
        self.dimension
    }

    /// The policy for `dimension` ([`ALL_DIMENSIONS`] or a coordinate).
    pub fn new(dimension: i8) -> (p: LessExact)
        ensures
            p.dimension() == dimension,
    {
        LessExact { dimension }
    }

    /// Whether `left` exactly precedes `right` under this policy.
    pub fn apply(self, left: &Point, right: &Point) -> (r: bool)
        requires
            valid_dimension(self.dimension()),
        ensures
            r == spec_compare(self.dimension(), *left, *right, Relation::Less),
    {
        CartesianFamily::less(left, right, self.dimension, true)
    }
}

impl Greater {
    /// The dimension this policy inspects.
    pub closed spec fn dimension(self) -> i8 {
        self.dimension
    }

    /// The policy for `dimension` ([`ALL_DIMENSIONS`] or a coordinate).
    pub fn new(dimension: i8) -> (p: Greater)
        ensures
            p.dimension() == dimension,
    {
        Greater { dimension }
    }

    /// Whether `left` follows `right` under this policy.
    pub fn apply(self, left: &Point, right: &Point) -> (r: bool)
        requires
            valid_dimension(self.dimension()),
        ensures
            r == spec_compare(self.dimension(), *left, *right, Relation::Greater),
    {
        CartesianFamily::greater(left, right, self.dimension)
    }
}

impl EqualTo {
    /// The dimension this policy inspects.
    pub closed spec fn dimension(self) -> i8 {
        self.dimension
    }

    /// The policy for `dimension` ([`ALL_DIMENSIONS`] or a coordinate).
    pub fn new(dimension: i8) -> (p: EqualTo)
        ensures
            p.dimension() == dimension,
    {
        EqualTo { dimension }
    }

    /// Whether the selected coordinates are equal.
    pub fn apply(self, left: &Point, right: &Point) -> (r: bool)
        requires
            valid_dimension(self.dimension()),
        ensures
            r == spec_compare(self.dimension(), *left, *right, Relation::Equal),
    {
        CartesianFamily::equal(left, right, self.dimension)
    }
}

impl Default for Less {
    /// The lexicographic policy over every dimension.
    fn default() -> (p: Less)
        ensures
            p.dimension() == ALL_DIMENSIONS,
    {
        Less { dimension: ALL_DIMENSIONS }
    }
}

impl Default for LessExact {
    /// The lexicographic policy over every dimension.
    fn default() -> (p: LessExact)
        ensures
            p.dimension() == ALL_DIMENSIONS,
    {
        LessExact { dimension: ALL_DIMENSIONS }
    }
}

impl Default for Greater {
    /// The lexicographic policy over every dimension.
    fn default() -> (p: Greater)
        ensures
            p.dimension() == ALL_DIMENSIONS,
    {
        Greater { dimension: ALL_DIMENSIONS }
    }
}

impl Default for EqualTo {
    /// The policy over every dimension.
    fn default() -> (p: EqualTo)
        ensures
            p.dimension() == ALL_DIMENSIONS,
    {
        EqualTo { dimension: ALL_DIMENSIONS }
    }
}

/// Coordinate-family dispatch used by [`Less`], [`LessExact`],
/// [`Greater`] and [`EqualTo`].
pub trait ComparisonFamily {
    /// Whether `left` precedes `right` on `dimension` (`exact` selects
    /// exact over epsilon equality).
    fn less(left: &Point, right: &Point, dimension: i8, exact: bool) -> (r: bool)
        requires
            valid_dimension(dimension),
        ensures
            r == spec_compare(dimension, *left, *right, Relation::Less),
    ;

    /// Whether `left` follows `right` on `dimension`.
    fn greater(left: &Point, right: &Point, dimension: i8) -> (r: bool)
        requires
            valid_dimension(dimension),
        ensures
            r == spec_compare(dimension, *left, *right, Relation::Greater),
    ;

    /// Whether `left` equals `right` on `dimension`.
    fn equal(left: &Point, right: &Point, dimension: i8) -> (r: bool)
        requires
            valid_dimension(dimension),
        ensures
            r == spec_compare(dimension, *left, *right, Relation::Equal),
    ;
}

impl ComparisonFamily for CartesianFamily {
    fn less(left: &Point, right: &Point, dimension: i8, exact: bool) -> (r: bool) {
        cartesian_compare(left, right, dimension, Relation::Less, exact)
    }

    fn greater(left: &Point, right: &Point, dimension: i8) -> (r: bool) {
        cartesian_compare(left, right, dimension, Relation::Greater, false)
    }

    fn equal(left: &Point, right: &Point, dimension: i8) -> (r: bool) {
        cartesian_compare(left, right, dimension, Relation::Equal, false)
    }
}

/// Exact three-way comparison of coordinates, with an equality flag
/// (which, for integer coordinates, is exact equality).
pub trait CoordinateComparison<Rhs> {
    /// How `self` compares to `right`, and whether they are equal.
    spec fn spec_compare_coordinate(self, right: Rhs) -> (Option<CoordinateOrder>, bool);

    /// How `self` compares to `right`, and whether they are equal.
    fn compare_coordinate(self, right: Rhs) -> (r: (Option<CoordinateOrder>, bool))
        ensures
            r == self.spec_compare_coordinate(right),
    ;
}

/// The order of two integers.
pub open spec fn int_order(a: int, b: int) -> CoordinateOrder {
    if a < b {
        CoordinateOrder::Less
    } else if a > b {
        CoordinateOrder::Greater
    } else {
        CoordinateOrder::Equal
    }
}

impl CoordinateComparison<i32> for i32 {
    open spec fn spec_compare_coordinate(self, right: i32) -> (Option<CoordinateOrder>, bool) {
        (Some(int_order(self as int, right as int)), self == right)
    }

    fn compare_coordinate(self, right: i32) -> (r: (Option<CoordinateOrder>, bool)) {
        (Some(order_of(self as i64, right as i64)), self == right)
    }
}

impl CoordinateComparison<i64> for i64 {
    open spec fn spec_compare_coordinate(self, right: i64) -> (Option<CoordinateOrder>, bool) {
        (Some(int_order(self as int, right as int)), self == right)
    }

    fn compare_coordinate(self, right: i64) -> (r: (Option<CoordinateOrder>, bool)) {
        (Some(order_of(self, right)), self == right)
    }
}

impl CoordinateComparison<i64> for i32 {
    open spec fn spec_compare_coordinate(self, right: i64) -> (Option<CoordinateOrder>, bool) {
        (Some(int_order(self as int, right as int)), self as int == right as int)
    }

    fn compare_coordinate(self, right: i64) -> (r: (Option<CoordinateOrder>, bool)) {
        let left = self as i64;
        (Some(order_of(left, right)), left == right)
    }
}

impl CoordinateComparison<i32> for i64 {
    open spec fn spec_compare_coordinate(self, right: i32) -> (Option<CoordinateOrder>, bool) {
        (Some(int_order(self as int, right as int)), self as int == right as int)
    }

    fn compare_coordinate(self, right: i32) -> (r: (Option<CoordinateOrder>, bool)) {
        let widened = right as i64;
        (Some(order_of(self, widened)), self == widened)
    }
}

/// The order of two 64-bit integers.
fn order_of(a: i64, b: i64) -> (r: CoordinateOrder)
    ensures
        r == int_order(a as int, b as int),
{
    if a < b {
        CoordinateOrder::Less
    } else if a > b {
        CoordinateOrder::Greater
    } else {
        CoordinateOrder::Equal
    }
}

/// The standard ordering a coordinate order stands for.
fn standard_order(order: CoordinateOrder) -> (r: Ordering)
    ensures
        order == CoordinateOrder::Less ==> r == Ordering::Less,
        order == CoordinateOrder::Equal ==> r == Ordering::Equal,
        order == CoordinateOrder::Greater ==> r == Ordering::Greater,
{
    match order {
        CoordinateOrder::Less => Ordering::Less,
        CoordinateOrder::Equal => Ordering::Equal,
        CoordinateOrder::Greater => Ordering::Greater,
    }
}

/// Whether an ordering answers `relation`: `Less` and `Greater` hold for
/// their own ordering; `Equal` never holds for an unequal pair.
pub fn apply_ordering(ordering: Ordering, relation: Relation) -> (r: bool)
    ensures
        r == match relation {
            Relation::Less => ordering == Ordering::Less,
            Relation::Greater => ordering == Ordering::Greater,
            Relation::Equal => false,
        },
{
    match relation {
        Relation::Less => match ordering {
            Ordering::Less => true,
            _ => false,
        },
        Relation::Greater => match ordering {
            Ordering::Greater => true,
            _ => false,
        },
        Relation::Equal => false,
    }
}

/// Whether a possibly missing ordering answers `relation`: a missing
/// ordering (unordered values) answers nothing.
pub open spec fn ordering_answers(ordering: Option<Ordering>, relation: Relation) -> bool {
    match ordering {
        Some(o) => match relation {
            Relation::Less => o == Ordering::Less,
            Relation::Greater => o == Ordering::Greater,
            Relation::Equal => false,
        },
        None => false,
    }
}

/// [`apply_ordering`] on a possibly missing ordering (false when absent).
pub fn apply_partial_order(ordering: Option<Ordering>, relation: Relation) -> (r: bool)
    ensures
        r == ordering_answers(ordering, relation),
{
    match ordering {
        Some(o) => apply_ordering(o, relation),
        None => false,
    }
}

/// The longitude step of a comparison on angular (spherical or
/// geographic) coordinates, decided from what was measured on the two
/// longitudes: equal longitudes, a pole both points share, or both points
/// on the antimeridian leave the decision to the next coordinate
/// (`None`); a point alone on the antimeridian sorts after the other;
/// otherwise the longitudes' ordering decides.
pub fn angular_longitude_outcome(
    longitudes_equal: bool,
    left_antimeridian: bool,
    right_antimeridian: bool,
    shared_pole: bool,
    ordering: Option<Ordering>,
    relation: Relation,
) -> (r: Option<bool>)
    ensures
        r == (if longitudes_equal || (left_antimeridian && right_antimeridian) || shared_pole {
            None
        } else if left_antimeridian {
            Some(relation == Relation::Greater)
        } else if right_antimeridian {
            Some(relation == Relation::Less)
        } else {
            Some(ordering_answers(ordering, relation))
        }),
{
    if longitudes_equal || (left_antimeridian && right_antimeridian) || shared_pole {
        None
    } else if left_antimeridian {
        Some(apply_ordering(Ordering::Greater, relation))
    } else if right_antimeridian {
        Some(apply_ordering(Ordering::Less, relation))
    } else {
        Some(apply_partial_order(ordering, relation))
    }
}

/// The latitude step of an angular comparison: `None` when the latitudes
/// are equal, otherwise whether their ordering answers `relation`.
pub fn angular_latitude_outcome(latitudes_equal: bool, ordering: Option<Ordering>, relation: Relation) -> (r: Option<bool>)
    ensures
        r == (if latitudes_equal {
            None
        } else {
            Some(ordering_answers(ordering, relation))
        }),
{
    if latitudes_equal {
        None
    } else {
        Some(apply_partial_order(ordering, relation))
    }
}

/// What an undecided step leaves: only `Equal` holds.
pub open spec fn decided_or_equal(step: Option<bool>, relation: Relation) -> bool {
    match step {
        Some(b) => b,
        None => relation == Relation::Equal,
    }
}

/// An angular comparison assembled from its steps: dimension 0 asks the
/// longitude step alone, dimension 1 the latitude step alone, and
/// [`ALL_DIMENSIONS`] the longitude step and then the latitude step; a
/// comparison no step decides holds only for `Equal`.
pub fn angular_outcome(dimension: i8, longitude: Option<bool>, latitude: Option<bool>, relation: Relation) -> (r: bool)
    requires
        valid_dimension(dimension),
    ensures
        r == (if dimension == 0 {
            decided_or_equal(longitude, relation)
        } else if dimension == 1 {
            decided_or_equal(latitude, relation)
        } else {
            match longitude {
                Some(b) => b,
                None => decided_or_equal(latitude, relation),
            }
        }),
{
    let step = if dimension == 0 {
        longitude
    } else if dimension == 1 {
        latitude
    } else {
        match longitude {
            Some(b) => Some(b),
            None => latitude,
        }
    };
    match step {
        Some(b) => b,
        None => match relation {
            Relation::Equal => true,
            _ => false,
        },
    }
}

/// The precondition of every comparison: at most four shared dimensions,
/// and a dimension that is [`ALL_DIMENSIONS`] or present in both points.
pub fn validate_dimension(dimension: i8, shared_dimensions: usize)
    requires
        shared_dimensions <= 4,
        dimension == ALL_DIMENSIONS || (0 <= dimension && dimension < shared_dimensions),
{
}

/// The coordinate index of a validated, non-negative dimension.
pub fn dimension_index(dimension: i8) -> (r: usize)
    requires
        dimension >= 0,
    ensures
        r == dimension,
{
    dimension as usize
}

/// Compare one coordinate: `None` when equal (the next dimension
/// decides), otherwise whether `relation` holds.
fn compare_ordinate(left: &Point, right: &Point, dimension: usize, relation: Relation, exact: bool) -> (r: Option<bool>)
    requires
        dimension < SHARED_DIMENSIONS,
    ensures
        left.coord(dimension as int) == right.coord(dimension as int) ==> r is None,
        left.coord(dimension as int) != right.coord(dimension as int) ==> r == Some(
            relation_holds(left.coord(dimension as int), right.coord(dimension as int), relation),
        ),
{
    let (order, equal_within_epsilon) = if dimension == 0 {
        left.x.compare_coordinate(right.x)
    } else {
        left.y.compare_coordinate(right.y)
    };
    let equal = if exact {
        match order {
            Some(CoordinateOrder::Equal) => true,
            _ => false,
        }
    } else {
        equal_within_epsilon
    };
    if equal {
        None
    } else {
        Some(decide(order, relation))
    }
}

/// Whether a coordinate order answers `relation`.
fn decide(order: Option<CoordinateOrder>, relation: Relation) -> (r: bool)
    ensures
        r == match order {
            Some(o) => match relation {
                Relation::Less => o == CoordinateOrder::Less,
                Relation::Greater => o == CoordinateOrder::Greater,
                Relation::Equal => false,
            },
            None => false,
        },
{
    let ordering = match order {
        Some(o) => Some(standard_order(o)),
        None => None,
    };
    apply_partial_order(ordering, relation)
}

/// The Cartesian comparison: lexicographic over both dimensions, or on
/// the selected dimension alone.
fn cartesian_compare(left: &Point, right: &Point, dimension: i8, relation: Relation, exact: bool) -> (r: bool)
    requires
        valid_dimension(dimension),
    ensures
        r == spec_compare(dimension, *left, *right, relation),
{
    validate_dimension(dimension, SHARED_DIMENSIONS);
    if dimension == ALL_DIMENSIONS {
        let mut index: usize = 0;
        while index < SHARED_DIMENSIONS
            invariant
                index <= SHARED_DIMENSIONS,
                dimension == ALL_DIMENSIONS,
                forall|d: int| 0 <= d < index ==> #[trigger] left.coord(d) == right.coord(d),
            decreases SHARED_DIMENSIONS - index,
        {
            let result = compare_ordinate(left, right, index, relation, exact);
            if let Some(answer) = result {
                proof {
                    assert(left.coord(0) == left.x && left.coord(1) == left.y);
                    assert(right.coord(0) == right.x && right.coord(1) == right.y);
                }
                return answer;
            }
            index = index + 1;
        }
        proof {
            assert(left.coord(0) == right.coord(0));
            assert(left.coord(1) == right.coord(1));
        }
        match relation {
            Relation::Equal => true,
            _ => false,
        }
    } else {
        let result = compare_ordinate(left, right, dimension_index(dimension), relation, exact);
        match result {
            Some(answer) => answer,
            None => match relation {
                Relation::Equal => true,
                _ => false,
            },
        }
    }
}

} // verus!
