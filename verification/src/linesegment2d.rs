//! Line segment in a 2-dimensional vector space.
//!
//! A segment is built from two distinct points and normalizes them so that
//! `p1` is the lexicographically smaller endpoint.  It caches its
//! supporting line and its axis-aligned bounding box.

use crate::line2d::Line2D;
use crate::line2d::line_contains;
use crate::line2d::line_isect;
use crate::line2d::line_through;
use crate::point2d::Point2D;
use crate::point2d::in_range;
use crate::point2d::lemma_point_order_total;
use crate::point2d::point_lt;
use crate::point2d::point_max;
use crate::point2d::point_min;
use crate::ratio::round_div;
use crate::ratio::round_div_spec;
use crate::tools2d::ccw;
use crate::tools2d::ccw_spec;
use crate::tools2d::opposite_signs;
use vstd::prelude::*;

verus! {

/// A line segment in a 2-dimensional vector space.
///
/// A segment consists of two distinct endpoints, held with the
/// lexicographically smaller one first, together with its supporting line
/// and bounding box.
#[derive(Clone, Copy, Debug, PartialEq, Eq, Structural, PartialOrd)]
pub struct LineSegment2D {
    /// The line that runs through this segment.
    pub line: Line2D,
    /// The endpoint with the smaller x-coordinate, or if equal, the
    /// smaller y-coordinate.
    pub p1: Point2D,
    /// The endpoint with the higher x-coordinate, or if equal, the higher
    /// y-coordinate.
    pub p2: Point2D,
    /// Maximum x-coordinate of the bounding box of the segment.
    pub max_x: i64,
    /// Maximum y-coordinate of the bounding box of the segment.
    pub max_y: i64,
    /// Minimum x-coordinate of the bounding box of the segment.
    pub min_x: i64,
    /// Minimum y-coordinate of the bounding box of the segment.
    pub min_y: i64,
}

/// The normalized segment over the two endpoints `pa` and `pb`.
pub open spec fn spec_segment(pa: Point2D, pb: Point2D) -> LineSegment2D {
    let p1 = point_min(pa, pb);
    let p2 = point_max(pa, pb);
    LineSegment2D {
        line: line_through(p1, p2),
        p1,
        p2,
        max_x: p2.x,
        max_y: (if p1.y <= p2.y {
            p2.y
        } else {
            p1.y
        }),
        min_x: p1.x,
        min_y: (if p1.y <= p2.y {
            p1.y
        } else {
            p2.y
        }),
    }
}

impl LineSegment2D {
    /// The endpoints are distinct, in range and normalized, and the cached
    /// line and bounding box belong to them.
    pub open spec fn wf(self) -> bool {
        &&& in_range(self.p1)
        &&& in_range(self.p2)
        &&& point_lt(self.p1, self.p2)
        &&& self == spec_segment(self.p1, self.p2)
    }

    /// The point `p` is one of the two endpoints.
    pub open spec fn has_endpoint_spec(self, p: Point2D) -> bool {
        self.p1 == p || self.p2 == p
    }
}

/// The point `p` lies on the segment: it is an endpoint, or it is on the
/// supporting line and within the bounding box.
pub open spec fn seg_contains(s: LineSegment2D, p: Point2D) -> bool {
    s.has_endpoint_spec(p) || (line_contains(s.line, p) && s.min_x <= p.x <= s.max_x && s.min_y
        <= p.y <= s.max_y)
}

/// The intersection point of two segments.
///
/// Equal segments report none.  A shared endpoint is returned directly.
/// Otherwise, when each segment's endpoints do not lie strictly on the
/// same side of the other segment's line, the supporting lines are
/// intersected; colinear overlapping segments report none, since their
/// lines are parallel.
pub open spec fn seg_isect(a: LineSegment2D, b: LineSegment2D) -> Option<Point2D> {
    if a == b {
        None
    } else if a.has_endpoint_spec(b.p1) {
        Some(b.p1)
    } else if a.has_endpoint_spec(b.p2) {
        Some(b.p2)
    } else if ccw_spec(a.p1, a.p2, b.p1) * ccw_spec(a.p1, a.p2, b.p2) <= 0 && ccw_spec(
        b.p1,
        b.p2,
        a.p1,
    ) * ccw_spec(b.p1, b.p2, a.p2) <= 0 {
        line_isect(a.line, b.line)
    } else {
        None
    }
}

/// The cached line of a well-formed segment is itself well formed, passes
/// through both endpoints, and is vertical exactly for equal x-coordinates.
pub proof fn lemma_seg_line(s: LineSegment2D)
    requires
        s.wf(),
    ensures
        s.line.wf(),
        line_contains(s.line, s.p1),
        line_contains(s.line, s.p2),
        (s.line.a == 0) == (s.p1.x == s.p2.x),
        s.line.a == s.p2.x - s.p1.x,
        s.line.b == s.p2.y - s.p1.y,
{
    crate::line2d::lemma_line_through_props(s.p1, s.p2);
}

/// Constructing a segment gives the same normalized value whichever order
/// the two endpoints are passed in.
pub proof fn lemma_segment_symmetric(pa: Point2D, pb: Point2D)
    ensures
        spec_segment(pa, pb) == spec_segment(pb, pa),
{
    lemma_point_order_total(pa, pb);
}

/// A segment never intersects itself.
pub proof fn lemma_isect_self(s: LineSegment2D)
    ensures
        seg_isect(s, s) is None,
{
}

/// Two distinct well-formed segments that share an endpoint report exactly
/// that endpoint as their intersection, regardless of argument order.
pub proof fn lemma_isect_shared_endpoint(a: LineSegment2D, b: LineSegment2D, p: Point2D)
    requires
        a.wf(),
        b.wf(),
        a != b,
        a.has_endpoint_spec(p),
        b.has_endpoint_spec(p),
    ensures
        seg_isect(a, b) == Some(p),
        seg_isect(b, a) == Some(p),
{
    lemma_shared_is_unique(a, b, p);
    lemma_shared_is_unique(b, a, p);
}

/// Intersecting two well-formed segments does not depend on the order of
/// the operands.
pub proof fn lemma_seg_isect_symmetric(a: LineSegment2D, b: LineSegment2D)
    requires
        a.wf(),
        b.wf(),
    ensures
        seg_isect(a, b) == seg_isect(b, a),
{
    if a == b {
    } else if a.has_endpoint_spec(b.p1) {
        lemma_isect_shared_endpoint(a, b, b.p1);
    } else if a.has_endpoint_spec(b.p2) {
        lemma_isect_shared_endpoint(a, b, b.p2);
    } else if b.has_endpoint_spec(a.p1) {
        lemma_isect_shared_endpoint(a, b, a.p1);
    } else if b.has_endpoint_spec(a.p2) {
        lemma_isect_shared_endpoint(a, b, a.p2);
    } else {
        crate::line2d::lemma_line_isect_symmetric(a.line, b.line);
    }
}

/// Two distinct well-formed segments can share at most one endpoint: a
/// second shared endpoint would force the segments to be equal.
proof fn lemma_shared_is_unique(a: LineSegment2D, b: LineSegment2D, p: Point2D)
    requires
        a.wf(),
        b.wf(),
        a != b,
        a.has_endpoint_spec(p),
        b.has_endpoint_spec(p),
    ensures
        seg_isect(a, b) == Some(p),
{
    lemma_point_order_total(a.p1, b.p1);
    lemma_point_order_total(a.p2, b.p2);
    lemma_point_order_total(a.p1, b.p2);
    lemma_point_order_total(a.p2, b.p1);
    if a.has_endpoint_spec(b.p1) && b.p1 != p {
        // b.p1 and p are two distinct shared endpoints, so the endpoint
        // pairs coincide and the segments are equal.
        assert(a.p1 == b.p1 && a.p2 == b.p2);
        assert(false);
    }
    if !a.has_endpoint_spec(b.p1) && a.has_endpoint_spec(b.p2) && b.p2 != p {
        assert(false);
    }
}

impl LineSegment2D {
    /// Returns a new instance given two distinct points, normalized so
    /// that `p1` is the lexicographically smaller endpoint.
    pub fn new(p_a: Point2D, p_b: Point2D) -> (s: LineSegment2D)
        requires
            in_range(p_a),
            in_range(p_b),
            p_a != p_b,
        ensures
            s == spec_segment(p_a, p_b),
            s.wf(),
    {
        proof {
            lemma_point_order_total(p_a, p_b);
        }
        let (p1, p2) = if p_a.precedes(&p_b) {
            (p_a, p_b)
        } else {
            (p_b, p_a)
        };
        let max_x = p2.x;
        let min_x = p1.x;
        let (min_y, max_y) = if p1.y <= p2.y {
            (p1.y, p2.y)
        } else {
            (p2.y, p1.y)
        };
        let line = Line2D::from_point_and_point(p1, p2);
        LineSegment2D { line, p1, p2, max_x, max_y, min_x, min_y }
    }

    /// Returns `true` iff the given point is among the segment endpoints.
    pub fn has_endpoint(self, p: &Point2D) -> (r: bool)
        ensures
            r == self.has_endpoint_spec(*p),
    {
        self.p1 == *p || self.p2 == *p
    }

    /// Returns the center point of the line segment, rounded to the
    /// nearest grid point (half away from zero on each coordinate).
    pub fn center(self) -> (c: Point2D)
        requires
            self.wf(),
        ensures
            c.x == self.p1.x + round_div_spec(self.p2.x - self.p1.x, 2),
            c.y == self.p1.y + round_div_spec(
                (if self.p1.y <= self.p2.y {
                    self.p2.y - self.p1.y
                } else {
                    self.p1.y - self.p2.y
                }),
                2,
            ),
    {
        let dx: i64 = self.p2.x - self.p1.x;
        let dy: i64 = if self.p1.y <= self.p2.y {
            self.p2.y - self.p1.y
        } else {
            self.p1.y - self.p2.y
        };
        let hx = round_div(dx as i128, 2);
        let hy = round_div(dy as i128, 2);
        proof {
            crate::ratio::lemma_round_div_bounds(dx as int, 2, 0, dx as int);
            crate::ratio::lemma_round_div_bounds(dy as int, 2, 0, dy as int);
        }
        Point2D { x: self.p1.x + (hx as i64), y: self.p1.y + (hy as i64) }
    }

    /// Returns `true` iff a point is an element of the segment.
    pub fn contains(self, p: &Point2D) -> (r: bool)
        requires
            self.wf(),
            in_range(*p),
        ensures
            r == seg_contains(self, *p),
    {
        proof {
            lemma_seg_line(self);
        }
        self.has_endpoint(p) || (self.line.contains(p) && (p.x >= self.min_x && p.x <= self.max_x
            && p.y >= self.min_y && p.y <= self.max_y))
    }

    /// Calculates the intersection point with another line segment.
    ///
    /// Equal segments and colinear overlapping segments report none; a
    /// shared endpoint is returned without any algebra; otherwise the
    /// orientation test guards an exact line intersection, rounded to the
    /// grid.
    pub fn intersects(self, other: &LineSegment2D) -> (r: Option<Point2D>)
        requires
            self.wf(),
            other.wf(),
        ensures
            r == seg_isect(self, *other),
            r is Some ==> in_range(r->0),
    {
        proof {
            lemma_seg_line(self);
            lemma_seg_line(*other);
        }
        let (p1, p2, q1, q2) = (self.p1, self.p2, other.p1, other.p2);
        if self == *other {
            return None;
        }
        if self.has_endpoint(&q1) {
            return Some(q1);
        }
        if self.has_endpoint(&q2) {
            return Some(q2);
        }
        let d1 = ccw(&p1, &p2, &q1);
        let d2 = ccw(&p1, &p2, &q2);
        let d3 = ccw(&q1, &q2, &p1);
        let d4 = ccw(&q1, &q2, &p2);
        if opposite_signs(d1, d2) && opposite_signs(d3, d4) {
            return self.line.clipped_intersection(&other.line);
        }
        None
    }
}

} // verus!
