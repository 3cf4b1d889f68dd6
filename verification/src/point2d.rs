//! Point in a 2-dimensional vector space.
//!
//! A point holds fixed-point integer coordinates and is ordered
//! lexicographically: by the x-coordinate first, and at a tie by the
//! y-coordinate.

use vstd::prelude::*;

verus! {

/// Largest coordinate magnitude the library accepts.
///
/// Keeping every coordinate within this bound guarantees that all the exact
/// integer computations of the library (orientation tests, line
/// intersections, sweep keys) fit in an `i128`.
pub const COORD_LIMIT: i64 = 500_000_000_000;

/// A point in a 2-dimensional vector space.
///
/// The point is the basic unit of the plane; segments, lines and events are
/// built from it.
#[derive(Clone, Copy, Debug, Hash, PartialEq, Eq, Structural, PartialOrd, Ord)]
pub struct Point2D {
    /// The x-coordinate.
    pub x: i64,
    /// The y-coordinate.
    pub y: i64,
}

/// Both coordinates of `p` lie within [`COORD_LIMIT`].
pub open spec fn in_range(p: Point2D) -> bool {
    -COORD_LIMIT <= p.x <= COORD_LIMIT && -COORD_LIMIT <= p.y <= COORD_LIMIT
}

/// Strict lexicographic order on points: by x first, then by y.
pub open spec fn point_lt(a: Point2D, b: Point2D) -> bool {
    a.x < b.x || (a.x == b.x && a.y < b.y)
}

/// Reflexive lexicographic order on points.
pub open spec fn point_le(a: Point2D, b: Point2D) -> bool {
    point_lt(a, b) || a == b
}

/// The lexicographically smaller of two points.
pub open spec fn point_min(a: Point2D, b: Point2D) -> Point2D {
    if point_lt(b, a) {
        b
    } else {
        a
    }
}

/// The lexicographically larger of two points.
pub open spec fn point_max(a: Point2D, b: Point2D) -> Point2D {
    if point_lt(b, a) {
        a
    } else {
        b
    }
}

impl Point2D {
    /// Returns the origin.
    pub fn new() -> (p: Point2D)
        ensures
            p == (Point2D { x: 0i64, y: 0i64 }),
    {
        Point2D { x: 0, y: 0 }
    }

    /// Returns `true` iff this point comes strictly before `other` in the
    /// lexicographic order.
    pub fn precedes(&self, other: &Point2D) -> (r: bool)
        ensures
            r == point_lt(*self, *other),
    {
        self.x < other.x || (self.x == other.x && self.y < other.y)
    }

    /// Returns `true` iff the point's y-coordinate is greater than the one given in the argument.
    pub fn is_above_of(&self, other: &Point2D) -> (r: bool)
        ensures
            r == (self.y > other.y),
    {
        self.y > other.y
    }

    /// Returns `true` iff the point's y-coordinate is smaller than the one given in the argument.
    pub fn is_below_of(&self, other: &Point2D) -> (r: bool)
        ensures
            r == (self.y < other.y),
    {
        self.y < other.y
    }

    /// Returns `true` iff the point's x-coordinate is smaller than the one given in the argument.
    pub fn is_left_of(&self, other: &Point2D) -> (r: bool)
        ensures
            r == (self.x < other.x),
    {
        self.x < other.x
    }

    /// Returns `true` iff the point's x-coordinate is greater than the one given in the argument.
    pub fn is_right_of(&self, other: &Point2D) -> (r: bool)
        ensures
            r == (self.x > other.x),
    {
        self.x > other.x
    }

    /// Componentwise addition.
    pub fn add(self, other: Point2D) -> (r: Point2D)
        requires
            i64::MIN <= self.x + other.x <= i64::MAX,
            i64::MIN <= self.y + other.y <= i64::MAX,
        ensures
            r.x == self.x + other.x,
            r.y == self.y + other.y,
    {
        Point2D { x: self.x + other.x, y: self.y + other.y }
    }

    /// Componentwise subtraction.
    pub fn sub(self, other: Point2D) -> (r: Point2D)
        requires
            i64::MIN <= self.x - other.x <= i64::MAX,
            i64::MIN <= self.y - other.y <= i64::MAX,
        ensures
            r.x == self.x - other.x,
            r.y == self.y - other.y,
    {
        Point2D { x: self.x - other.x, y: self.y - other.y }
    }
}

impl Default for Point2D {
    /// Returns the origin.
    fn default() -> (p: Point2D)
        ensures
            p == (Point2D { x: 0i64, y: 0i64 }),
    {
        Point2D { x: 0, y: 0 }
    }
}

/// The lexicographic order on points is total: two points are equal, or one
/// strictly precedes the other.
pub proof fn lemma_point_order_total(a: Point2D, b: Point2D)
    ensures
        point_lt(a, b) || point_lt(b, a) || a == b,
        !(point_lt(a, b) && point_lt(b, a)),
{
}

} // verus!
