//! The Cartesian geometry model the strategies work on: integer points,
//! segments, linestrings, rings, polygons and their multi- collections,
//! with the kind tags that select a strategy for each.

use vstd::prelude::*;

verus! {

/// A point of the integer Cartesian plane.
#[derive(Debug, Clone, Copy, PartialEq, Eq, Structural)]
pub struct Point {
    /// The x coordinate (dimension 0).
    pub x: i32,
    /// The y coordinate (dimension 1).
    pub y: i32,
}

impl Point {
    /// The point `(x, y)`.
    pub fn new(x: i32, y: i32) -> (p: Point)
        ensures
            p.x == x,
            p.y == y,
    {
        Point { x, y }
    }

    /// Coordinate `d` (0 = x, 1 = y).
    pub open spec fn coord(self, d: int) -> int {
        if d == 0 { self.x as int } else { self.y as int }
    }
}

/// A line segment between two points.
#[derive(Debug, Clone, Copy, PartialEq, Eq, Structural)]
pub struct Segment {
    /// The first endpoint.
    pub start: Point,
    /// The second endpoint.
    pub end: Point,
}

impl Segment {
    /// The segment from `start` to `end`.
    pub fn new(start: Point, end: Point) -> (s: Segment)
        ensures
            s.start == start,
            s.end == end,
    {
        Segment { start, end }
    }
}

/// A polyline through a sequence of points.
#[derive(Debug, Clone)]
pub struct Linestring {
    /// The vertices, in order.
    pub points: Vec<Point>,
}

/// The orientation of a ring's vertices.
#[derive(Debug, Clone, Copy, PartialEq, Eq, Structural)]
pub enum PointOrder {
    /// Clockwise (the default orientation: positive area).
    Clockwise,
    /// Counter-clockwise.
    CounterClockwise,
}

/// Whether a ring repeats its first vertex at the end.
#[derive(Debug, Clone, Copy, PartialEq, Eq, Structural)]
pub enum Closure {
    /// The last vertex repeats the first.
    Closed,
    /// The closing edge from the last vertex back to the first is implied.
    Open,
}

/// A closed boundary: a sequence of vertices with an orientation and a
/// closure convention.
#[derive(Debug, Clone)]
pub struct Ring {
    /// The vertices, in order.
    pub points: Vec<Point>,
    /// The orientation the ring is declared with.
    pub order: PointOrder,
    /// Whether the last vertex repeats the first.
    pub closure: Closure,
}

/// A polygon: an exterior ring and any number of holes.
#[derive(Debug, Clone)]
pub struct Polygon {
    /// The outer boundary.
    pub exterior: Ring,
    /// The holes.
    pub interiors: Vec<Ring>,
}

/// A collection of points.
#[derive(Debug, Clone)]
pub struct MultiPoint {
    /// The points.
    pub points: Vec<Point>,
}

/// A collection of linestrings.
#[derive(Debug, Clone)]
pub struct MultiLinestring {
    /// The linestrings.
    pub linestrings: Vec<Linestring>,
}

/// A collection of polygons.
#[derive(Debug, Clone)]
pub struct MultiPolygon {
    /// The polygons.
    pub polygons: Vec<Polygon>,
}

/// Kind tag of points.
#[derive(Debug, Clone, Copy, Default)]
pub struct PointTag;

/// Kind tag of segments.
#[derive(Debug, Clone, Copy, Default)]
pub struct SegmentTag;

/// Kind tag of linestrings.
#[derive(Debug, Clone, Copy, Default)]
pub struct LinestringTag;

/// Kind tag of rings.
#[derive(Debug, Clone, Copy, Default)]
pub struct RingTag;

/// Kind tag of polygons.
#[derive(Debug, Clone, Copy, Default)]
pub struct PolygonTag;

/// Kind tag of boxes.
#[derive(Debug, Clone, Copy, Default)]
pub struct BoxTag;

/// Kind tag of multi-points.
#[derive(Debug, Clone, Copy, Default)]
pub struct MultiPointTag;

/// Kind tag of multi-linestrings.
#[derive(Debug, Clone, Copy, Default)]
pub struct MultiLinestringTag;

/// Kind tag of multi-polygons.
#[derive(Debug, Clone, Copy, Default)]
pub struct MultiPolygonTag;

/// A geometry, with the tag of its kind.
pub trait Geometry {
    /// The kind tag.
    type Kind;
}

impl Geometry for Point {
    type Kind = PointTag;
}

impl Geometry for Segment {
    type Kind = SegmentTag;
}

impl Geometry for Linestring {
    type Kind = LinestringTag;
}

impl Geometry for Ring {
    type Kind = RingTag;
}

impl Geometry for Polygon {
    type Kind = PolygonTag;
}

impl Geometry for crate::bounds::Bounds {
    type Kind = BoxTag;
}

impl Geometry for MultiPoint {
    type Kind = MultiPointTag;
}

impl Geometry for MultiLinestring {
    type Kind = MultiLinestringTag;
}

impl Geometry for MultiPolygon {
    type Kind = MultiPolygonTag;
}

/// The coordinate-system family of the integer Cartesian plane.
#[derive(Debug, Clone, Copy, Default)]
pub struct CartesianFamily;

} // verus!
