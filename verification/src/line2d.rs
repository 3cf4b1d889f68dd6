//! Line in a 2-dimensional vector space.
//!
//! A line is stored by the exact integer equation `a * y == b * x + c`.
//! For a non-vertical line `a > 0`, so the slope is `b / a` and the
//! intercept is `c / a`; a vertical line has `a == 0` and `b > 0`, and its
//! x-coordinate is `-c / b`.  This is the integer counterpart of a
//! slope/intercept pair, with an infinite slope standing for a vertical
//! line.

use crate::point2d::COORD_LIMIT;
use crate::point2d::Point2D;
use crate::point2d::in_range;
use crate::point2d::point_lt;
use crate::point2d::point_max;
use crate::point2d::point_min;
use crate::ratio::Ratio;
use crate::ratio::lemma_mul_bound;
use crate::ratio::round_div;
use crate::ratio::round_div_spec;
use vstd::prelude::*;

verus! {

/// Largest magnitude of the coefficients `a` and `b`: twice [`COORD_LIMIT`].
pub const LINE_COEF_LIMIT: i64 = 1_000_000_000_000;

/// Largest magnitude of the offset `c`: four times the square of
/// [`COORD_LIMIT`].
pub const LINE_OFFSET_LIMIT: i128 = 1_000_000_000_000_000_000_000_000;

/// A line in a 2-dimensional vector space, as the set of points `(x, y)`
/// with `a * y == b * x + c`.
#[derive(Clone, Copy, Debug, PartialEq, Eq, Structural, PartialOrd)]
pub struct Line2D {
    /// Coefficient of `y`; positive for a non-vertical line, zero for a
    /// vertical one.
    pub a: i64,
    /// Coefficient of `x`; the slope is `b / a`.  Positive for a vertical
    /// line, whose x-coordinate is `-c / b`.
    pub b: i64,
    /// Constant offset; the intercept is `c / a`.
    pub c: i128,
}

impl Line2D {
    /// The coefficients are normalized and small enough for all exact
    /// computations of the library.
    pub open spec fn wf(self) -> bool {
        &&& 0 <= self.a <= LINE_COEF_LIMIT
        &&& -LINE_COEF_LIMIT <= self.b <= LINE_COEF_LIMIT
        &&& -LINE_OFFSET_LIMIT <= self.c <= LINE_OFFSET_LIMIT
        &&& self.a > 0 || self.b > 0
    }
}

/// The point `p` satisfies the equation of the line `l`.
pub open spec fn line_contains(l: Line2D, p: Point2D) -> bool {
    l.a * p.y == l.b * p.x + l.c
}

/// The lines have equal slopes (both vertical lines count as parallel).
pub open spec fn line_parallel(l1: Line2D, l2: Line2D) -> bool {
    l1.b * l2.a == l2.b * l1.a
}

/// The line through the two points `p` and `q`, for `p` lexicographically
/// smaller than `q`.
pub open spec fn line_through(p: Point2D, q: Point2D) -> Line2D {
    Line2D {
        a: (q.x - p.x) as i64,
        b: (q.y - p.y) as i64,
        c: ((q.x - p.x) * p.y - (q.y - p.y) * p.x) as i128,
    }
}

/// The exact height of the line `l` over the x-coordinate `x`; for a
/// vertical line, the line's own x-coordinate, as a slope/intercept
/// representation would hand it back.
pub open spec fn line_y_at(l: Line2D, x: int) -> Ratio {
    if l.a != 0 {
        Ratio { num: (l.b * x + l.c) as i128, den: l.a as i128 }
    } else {
        Ratio { num: (-l.c) as i128, den: l.b as i128 }
    }
}

/// The intersection point of two lines: none when they are parallel,
/// otherwise the exact rational solution of the two equations, rounded to
/// the nearest grid point.  A solution beyond the coordinate range is also
/// reported as none, so that every returned point is a usable coordinate
/// pair.
pub open spec fn line_isect(l1: Line2D, l2: Line2D) -> Option<Point2D> {
    let d = l2.a * l1.b - l1.a * l2.b;
    let xn = l1.a * l2.c - l2.a * l1.c;
    let yn = l1.b * l2.c - l2.b * l1.c;
    if d == 0 {
        None
    } else {
        let x = if d > 0 {
            round_div_spec(xn, d)
        } else {
            round_div_spec(-xn, -d)
        };
        let y = if d > 0 {
            round_div_spec(yn, d)
        } else {
            round_div_spec(-yn, -d)
        };
        if -COORD_LIMIT <= x <= COORD_LIMIT && -COORD_LIMIT <= y <= COORD_LIMIT {
            Some(Point2D { x: x as i64, y: y as i64 })
        } else {
            None
        }
    }
}

/// The line through two points in range is well formed and passes through
/// both.
pub proof fn lemma_line_through_props(p: Point2D, q: Point2D)
    requires
        in_range(p),
        in_range(q),
        point_lt(p, q),
    ensures
        line_through(p, q).wf(),
        line_through(p, q).a == q.x - p.x,
        line_through(p, q).b == q.y - p.y,
        line_through(p, q).c == (q.x - p.x) * p.y - (q.y - p.y) * p.x,
        line_contains(line_through(p, q), p),
        line_contains(line_through(p, q), q),
        (line_through(p, q).a == 0) == (p.x == q.x),
{
    let l = line_through(p, q);
    lemma_mul_bound(q.x - p.x, p.y as int, 2 * COORD_LIMIT as int, COORD_LIMIT as int);
    lemma_mul_bound(q.y - p.y, p.x as int, 2 * COORD_LIMIT as int, COORD_LIMIT as int);
    assert(l.a == q.x - p.x);
    assert(l.b == q.y - p.y);
    assert(l.c == (q.x - p.x) * p.y - (q.y - p.y) * p.x);
    assert(l.a * p.y == l.b * p.x + l.c) by (nonlinear_arith)
        requires
            l.a == q.x - p.x,
            l.b == q.y - p.y,
            l.c == (q.x - p.x) * p.y - (q.y - p.y) * p.x,
    ;
    assert(l.a * q.y == l.b * q.x + l.c) by (nonlinear_arith)
        requires
            l.a == q.x - p.x,
            l.b == q.y - p.y,
            l.c == (q.x - p.x) * p.y - (q.y - p.y) * p.x,
    ;
}

/// Intersecting two lines does not depend on the order of the operands.
pub proof fn lemma_line_isect_symmetric(l1: Line2D, l2: Line2D)
    ensures
        line_isect(l1, l2) == line_isect(l2, l1),
{
    let d12 = l2.a * l1.b - l1.a * l2.b;
    let d21 = l1.a * l2.b - l2.a * l1.b;
    assert(d21 == -d12);
    assert(l2.a * l1.c - l1.a * l2.c == -(l1.a * l2.c - l2.a * l1.c));
    assert(l2.b * l1.c - l1.b * l2.c == -(l1.b * l2.c - l2.b * l1.c));
}

impl Line2D {
    /// Returns `true` iff the line is vertical.
    pub fn is_vertical(self) -> (r: bool)
        ensures
            r == (self.a == 0),
    {
        self.a == 0
    }

    /// Returns `true` iff the line is horizontal (slope is zero).
    pub fn is_horizontal(self) -> (r: bool)
        ensures
            r == (self.b == 0),
    {
        self.b == 0
    }

    /// Returns a new instance from a slope and one point on the line.
    ///
    /// The slope is the exact quotient `sy / sx` with `sx >= 0`; `sx == 0`
    /// gives the vertical line through `p`.
    pub fn from_slope_and_point(sy: i64, sx: i64, p: Point2D) -> (l: Line2D)
        requires
            0 <= sx <= LINE_COEF_LIMIT,
            -LINE_COEF_LIMIT <= sy <= LINE_COEF_LIMIT,
            sx == 0 ==> sy != 0,
            in_range(p),
        ensures
            l.wf(),
            l.a == sx,
            sx != 0 ==> l.b == sy,
            sx == 0 ==> l.b == (if sy > 0 { sy as int } else { -sy as int }),
            l.c == l.a * p.y - l.b * p.x,
            line_contains(l, p),
    {
        let b: i64 = if sx == 0 && sy < 0 {
            -sy
        } else {
            sy
        };
        proof {
            lemma_mul_bound(sx as int, p.y as int, LINE_COEF_LIMIT as int, COORD_LIMIT as int);
            lemma_mul_bound(b as int, p.x as int, LINE_COEF_LIMIT as int, COORD_LIMIT as int);
        }
        let c: i128 = (sx as i128) * (p.y as i128) - (b as i128) * (p.x as i128);
        Line2D { a: sx, b, c }
    }

    /// Returns a new instance from two distinct points on the line.
    pub fn from_point_and_point(p1: Point2D, p2: Point2D) -> (l: Line2D)
        requires
            in_range(p1),
            in_range(p2),
            p1 != p2,
        ensures
            l == line_through(point_min(p1, p2), point_max(p1, p2)),
            l.wf(),
            line_contains(l, p1),
            line_contains(l, p2),
            (l.a == 0) == (p1.x == p2.x),
    {
        let (s, t) = if p1.precedes(&p2) {
            (p1, p2)
        } else {
            (p2, p1)
        };
        proof {
            crate::point2d::lemma_point_order_total(p1, p2);
            lemma_line_through_props(s, t);
        }
        let a: i64 = t.x - s.x;
        let b: i64 = t.y - s.y;
        proof {
            lemma_mul_bound(a as int, s.y as int, LINE_COEF_LIMIT as int, COORD_LIMIT as int);
            lemma_mul_bound(b as int, s.x as int, LINE_COEF_LIMIT as int, COORD_LIMIT as int);
        }
        let c: i128 = (a as i128) * (s.y as i128) - (b as i128) * (s.x as i128);
        Line2D { a, b, c }
    }

    /// Returns the height of the line over a given x-coordinate, as an
    /// exact rational.
    ///
    /// If the line is vertical, its own x-coordinate is returned instead.
    pub fn y_from_x(self, x: i64) -> (r: Ratio)
        requires
            self.wf(),
            -COORD_LIMIT <= x <= COORD_LIMIT + 1000,
        ensures
            r == line_y_at(self, x as int),
            r.bounded(),
    {
        if self.a != 0 {
            proof {
                lemma_mul_bound(
                    self.b as int,
                    x as int,
                    LINE_COEF_LIMIT as int,
                    COORD_LIMIT as int + 1000,
                );
            }
            Ratio { num: (self.b as i128) * (x as i128) + self.c, den: self.a as i128 }
        } else {
            Ratio { num: -self.c, den: self.b as i128 }
        }
    }

    /// Returns `true` iff a point lies on the line.
    pub fn contains(self, p: &Point2D) -> (r: bool)
        requires
            self.wf(),
            in_range(*p),
        ensures
            r == line_contains(self, *p),
    {
        proof {
            lemma_mul_bound(self.a as int, p.y as int, LINE_COEF_LIMIT as int, COORD_LIMIT as int);
            lemma_mul_bound(self.b as int, p.x as int, LINE_COEF_LIMIT as int, COORD_LIMIT as int);
        }
        (self.a as i128) * (p.y as i128) == (self.b as i128) * (p.x as i128) + self.c
    }

    /// Returns `true` iff this line is parallel to the given other line.
    pub fn is_parallel_to(self, other: &Line2D) -> (r: bool)
        requires
            self.wf(),
            other.wf(),
        ensures
            r == line_parallel(self, *other),
    {
        proof {
            lemma_mul_bound(
                self.b as int,
                other.a as int,
                LINE_COEF_LIMIT as int,
                LINE_COEF_LIMIT as int,
            );
            lemma_mul_bound(
                other.b as int,
                self.a as int,
                LINE_COEF_LIMIT as int,
                LINE_COEF_LIMIT as int,
            );
        }
        (self.b as i128) * (other.a as i128) == (other.b as i128) * (self.a as i128)
    }

    /// Returns the intersection point of two lines, when the lines are not
    /// parallel, rounded to the nearest grid point.
    ///
    /// Non-parallel lines always meet, so the result is none exactly for
    /// parallel lines.  A machine limit stands behind the precondition:
    /// the crossing must lie within the representable coordinate range;
    /// [`Line2D::clipped_intersection`] is the total variant that reports
    /// an unrepresentable crossing as none.
    pub fn intersection(self, other: &Line2D) -> (r: Option<Point2D>)
        requires
            self.wf(),
            other.wf(),
            line_parallel(self, *other) || line_isect(self, *other) is Some,
        ensures
            r == line_isect(self, *other),
            (r is Some) == !line_parallel(self, *other),
            r is Some ==> in_range(r->0),
    {
        self.clipped_intersection(other)
    }

    /// Returns the intersection point of two lines, rounded to the
    /// nearest grid point; none when the lines are parallel, and also
    /// when the rounded crossing lies beyond the coordinate range, so
    /// that every returned point is a usable coordinate pair.
    pub fn clipped_intersection(self, other: &Line2D) -> (r: Option<Point2D>)
        requires
            self.wf(),
            other.wf(),
        ensures
            r == line_isect(self, *other),
            line_parallel(self, *other) ==> r is None,
            r is Some ==> !line_parallel(self, *other),
            r is Some ==> in_range(r->0),
    {
        proof {
            lemma_mul_bound(
                other.a as int,
                self.b as int,
                LINE_COEF_LIMIT as int,
                LINE_COEF_LIMIT as int,
            );
            lemma_mul_bound(
                self.a as int,
                other.b as int,
                LINE_COEF_LIMIT as int,
                LINE_COEF_LIMIT as int,
            );
            lemma_mul_bound(
                self.a as int,
                other.c as int,
                LINE_COEF_LIMIT as int,
                LINE_OFFSET_LIMIT as int,
            );
            lemma_mul_bound(
                other.a as int,
                self.c as int,
                LINE_COEF_LIMIT as int,
                LINE_OFFSET_LIMIT as int,
            );
            lemma_mul_bound(
                self.b as int,
                other.c as int,
                LINE_COEF_LIMIT as int,
                LINE_OFFSET_LIMIT as int,
            );
            lemma_mul_bound(
                other.b as int,
                self.c as int,
                LINE_COEF_LIMIT as int,
                LINE_OFFSET_LIMIT as int,
            );
        }
        let d: i128 = (other.a as i128) * (self.b as i128) - (self.a as i128) * (other.b as i128);
        if d == 0 {
            return None;
        }
        let xn: i128 = (self.a as i128) * other.c - (other.a as i128) * self.c;
        let yn: i128 = (self.b as i128) * other.c - (other.b as i128) * self.c;
        let x: i128 = if d > 0 {
            round_div(xn, d)
        } else {
            round_div(-xn, -d)
        };
        let y: i128 = if d > 0 {
            round_div(yn, d)
        } else {
            round_div(-yn, -d)
        };
        if -COORD_LIMIT as i128 <= x && x <= COORD_LIMIT as i128 && -COORD_LIMIT as i128 <= y && y
            <= COORD_LIMIT as i128 {
            Some(Point2D { x: x as i64, y: y as i64 })
        } else {
            None
        }
    }
}

} // verus!
