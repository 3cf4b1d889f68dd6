//! Classification of segment pairs by the counter-clockwise test.
//!
//! A [`Line`] here is a plain segment given by its two endpoints, without
//! normalization; [`Line::intersect`] classifies the relation of two such
//! segments into the four cases of [`LineRelation`].

use crate::point::Abs;
use crate::point::Point;
use crate::point::ccw;
use crate::point::ccw_spec;
use crate::point::coord_in_range;
use crate::tools2d::opposite_signs;
use vstd::math::abs;
use vstd::prelude::*;

verus! {

/// How two segments relate to each other.
#[derive(Debug, Clone, Copy, PartialEq, Eq, Structural)]
pub enum LineRelation {
    /// The segments meet in exactly one point and are not colinear.
    Intersecting,
    /// The segments share no point and are not colinear.
    NonIntersecting,
    /// The segments are colinear and at least one endpoint lies on the
    /// other segment.
    ColinearOverlap,
    /// The segments are colinear and share no point.
    ColinearNonOverlap,
}

/// Returns the larger of two values.
pub fn max(f1: &i64, f2: &i64) -> (r: i64)
    ensures
        r == vstd::math::max(*f1 as int, *f2 as int),
{
    if f1 >= f2 {
        *f1
    } else {
        *f2
    }
}

/// Returns the smaller of two values.
pub fn min(f1: &i64, f2: &i64) -> (r: i64)
    ensures
        r == vstd::math::min(*f1 as int, *f2 as int),
{
    if f1 >= f2 {
        *f2
    } else {
        *f1
    }
}

/// A segment between two points, kept exactly as given.
#[derive(Copy, Clone, Debug, PartialEq)]
pub struct Line {
    /// The first endpoint.
    pub start: Point<i64>,
    /// The second endpoint.
    pub end: Point<i64>,
}

impl Line {
    /// Both endpoints lie within the coordinate range.
    pub open spec fn wf(self) -> bool {
        coord_in_range(self.start) && coord_in_range(self.end)
    }
}

/// The point lies within the segment's extent along its pivot dimension:
/// the dimension in which the segment varies the most.
pub open spec fn colinear_overlap_spec(l: Line, p: Point<i64>) -> bool {
    let dx = abs(l.start.x - l.end.x);
    let dy = abs(l.start.y - l.end.y);
    if dx > dy {
        vstd::math::min(l.start.x as int, l.end.x as int) <= p.x <= vstd::math::max(
            l.start.x as int,
            l.end.x as int,
        )
    } else {
        vstd::math::min(l.start.y as int, l.end.y as int) <= p.y <= vstd::math::max(
            l.start.y as int,
            l.end.y as int,
        )
    }
}

/// The relation of two segments: colinear configurations are told apart
/// by an overlap test along the pivot dimension, the rest by the signs of
/// the four orientation values.
pub open spec fn relation_spec(a: Line, b: Line) -> LineRelation {
    let d1 = ccw_spec(a.start, a.end, b.start);
    let d2 = ccw_spec(a.start, a.end, b.end);
    let d3 = ccw_spec(b.start, b.end, a.start);
    let d4 = ccw_spec(b.start, b.end, a.end);
    if d1 == 0 && d2 == 0 && a.start != a.end {
        if colinear_overlap_spec(a, b.start) || colinear_overlap_spec(a, b.end)
            || colinear_overlap_spec(b, a.start) || colinear_overlap_spec(b, a.end) {
            LineRelation::ColinearOverlap
        } else {
            LineRelation::ColinearNonOverlap
        }
    } else if d3 == 0 && d4 == 0 && b.start != b.end {
        if colinear_overlap_spec(a, b.start) || colinear_overlap_spec(a, b.end)
            || colinear_overlap_spec(b, a.start) || colinear_overlap_spec(b, a.end) {
            LineRelation::ColinearOverlap
        } else {
            LineRelation::ColinearNonOverlap
        }
    } else if d1 * d2 <= 0 && d3 * d4 <= 0 {
        LineRelation::Intersecting
    } else {
        LineRelation::NonIntersecting
    }
}

impl Line {
    /// Tests whether a point known to be colinear with the segment lies
    /// within the segment's extent, by a search along the dimension of
    /// most variance.
    fn colinear_overlap(&self, p: &Point<i64>) -> (r: bool)
        requires
            self.wf(),
            coord_in_range(*p),
        ensures
            r == colinear_overlap_spec(*self, *p),
    {
        let pivot_index: usize = self.start.sub(self.end).abs().index_of_significance();
        let pv: i64 = *p.index(pivot_index);
        let s: i64 = *self.start.index(pivot_index);
        let e: i64 = *self.end.index(pivot_index);
        if pv < min(&s, &e) || pv > max(&s, &e) {
            return false;
        }
        return true;
    }

    /// Classifies the relation between this segment and another one.
    pub fn intersect(&self, line: &Line) -> (r: LineRelation)
        requires
            self.wf(),
            line.wf(),
        ensures
            r == relation_spec(*self, *line),
    {
        let (p1, p2, q1, q2) = (self.start, self.end, line.start, line.end);
        let d1 = ccw(&p1, &p2, &q1);
        let d2 = ccw(&p1, &p2, &q2);
        let d3 = ccw(&q1, &q2, &p1);
        let d4 = ccw(&q1, &q2, &p2);
        let a_degenerate = p1.x == p2.x && p1.y == p2.y;
        let b_degenerate = q1.x == q2.x && q1.y == q2.y;
        if d1 == 0 && d2 == 0 && !a_degenerate {
            if self.colinear_overlap(&q1) || self.colinear_overlap(&q2) || line.colinear_overlap(
                &p1,
            ) || line.colinear_overlap(&p2) {
                return LineRelation::ColinearOverlap;
            }
            return LineRelation::ColinearNonOverlap;
        } else if d3 == 0 && d4 == 0 && !b_degenerate {
            if self.colinear_overlap(&q1) || self.colinear_overlap(&q2) || line.colinear_overlap(
                &p1,
            ) || line.colinear_overlap(&p2) {
                return LineRelation::ColinearOverlap;
            }
            return LineRelation::ColinearNonOverlap;
        } else if opposite_signs(d1, d2) && opposite_signs(d3, d4) {
            return LineRelation::Intersecting;
        }
        return LineRelation::NonIntersecting;
    }
}

/// A vector of segments.
#[derive(Clone, Debug)]
pub struct LineVec {
    /// The number of segments held.
    pub rows: usize,
    /// The segments themselves.
    pub data: Vec<Line>,
}

impl LineVec {
    /// Returns a vector of the given number of zero-initialized segments.
    pub fn new(rows: usize) -> (r: LineVec)
        ensures
            r.rows == rows,
            r.data@.len() == rows,
            forall|i: int|
                0 <= i < rows ==> #[trigger] r.data@[i] == (Line {
                    start: Point { x: 0i64, y: 0i64 },
                    end: Point { x: 0i64, y: 0i64 },
                }),
    {
        let mut data: Vec<Line> = Vec::new();
        let mut i: usize = 0;
        while i < rows
            invariant
                0 <= i <= rows,
                data@.len() == i,
                forall|j: int|
                    0 <= j < i ==> #[trigger] data@[j] == (Line {
                        start: Point { x: 0i64, y: 0i64 },
                        end: Point { x: 0i64, y: 0i64 },
                    }),
            decreases rows - i,
        {
            data.push(Line { start: Point { x: 0, y: 0 }, end: Point { x: 0, y: 0 } });
            i += 1;
        }
        LineVec { rows, data }
    }
}

} // verus!
