//! A generic point in a 2-dimensional vector space.
//!
//! The point is generic in its coordinate type and offers componentwise
//! arithmetic for the integer coordinate types the library works with.

use crate::point2d::COORD_LIMIT;
use crate::ratio::lemma_mul_bound;
use core::cmp::Ordering;
use vstd::math::abs;
use vstd::prelude::*;
use vstd::std_specs::cmp::PartialOrdSpec;

verus! {

/// Twice the signed area of the triangle `p`, `q`, `r`: zero for colinear
/// points, positive when `r` lies counter-clockwise of the directed line
/// from `p` to `q`, negative when clockwise.
pub open spec fn ccw_spec(p: Point<i64>, q: Point<i64>, r: Point<i64>) -> int {
    (p.x * q.y - p.y * q.x) + (q.x * r.y - q.y * r.x) + (p.y * r.x - p.x * r.y)
}

/// The quotient `a / b` truncated toward zero, as machine division
/// computes it: the quotient of the magnitudes, negated when the signs
/// differ.
pub open spec fn trunc_div(a: int, b: int) -> int {
    let q = abs(a) as int / abs(b) as int;
    if (a < 0) != (b < 0) {
        -q
    } else {
        q
    }
}

/// The point's coordinates lie within [`COORD_LIMIT`].
pub open spec fn coord_in_range(p: Point<i64>) -> bool {
    -COORD_LIMIT <= p.x <= COORD_LIMIT && -COORD_LIMIT <= p.y <= COORD_LIMIT
}

/// Returns the counter-clockwise value for three points.
pub fn ccw(p: &Point<i64>, q: &Point<i64>, r: &Point<i64>) -> (c: i128)
    requires
        coord_in_range(*p),
        coord_in_range(*q),
        coord_in_range(*r),
    ensures
        c == ccw_spec(*p, *q, *r),
{
    proof {
        lemma_mul_bound(p.x as int, q.y as int, COORD_LIMIT as int, COORD_LIMIT as int);
        lemma_mul_bound(p.y as int, q.x as int, COORD_LIMIT as int, COORD_LIMIT as int);
        lemma_mul_bound(q.x as int, r.y as int, COORD_LIMIT as int, COORD_LIMIT as int);
        lemma_mul_bound(q.y as int, r.x as int, COORD_LIMIT as int, COORD_LIMIT as int);
        lemma_mul_bound(p.y as int, r.x as int, COORD_LIMIT as int, COORD_LIMIT as int);
        lemma_mul_bound(p.x as int, r.y as int, COORD_LIMIT as int, COORD_LIMIT as int);
    }
    ((p.x as i128) * (q.y as i128) - (p.y as i128) * (q.x as i128)) + ((q.x as i128) * (r.y as i128)
        - (q.y as i128) * (r.x as i128)) + ((p.y as i128) * (r.x as i128) - (p.x as i128) * (r.y
        as i128))
}

/// A point with two coordinates of an arbitrary type.
#[derive(Debug, Clone, Copy, PartialEq, PartialOrd)]
pub struct Point<T> {
    /// The x-coordinate.
    pub x: T,
    /// The y-coordinate.
    pub y: T,
}

/// Componentwise absolute value.
pub trait Abs {
    /// The type of the result.
    type Output;

    /// The input lies in the domain where the absolute value exists.
    spec fn abs_req(self) -> bool;

    /// What the absolute value is.
    spec fn abs_spec(self) -> Self::Output;

    /// Returns the absolute value.
    fn abs(self) -> (r: Self::Output) where Self: core::marker::Sized
        requires
            self.abs_req(),
        ensures
            r == self.abs_spec(),
    ;
}

impl Abs for Point<i64> {
    type Output = Point<i64>;

    /// Negating either coordinate must not overflow.
    open spec fn abs_req(self) -> bool {
        self.x != i64::MIN && self.y != i64::MIN
    }

    open spec fn abs_spec(self) -> Point<i64> {
        Point {
            x: (if self.x < 0 {
                -self.x
            } else {
                self.x as int
            }) as i64,
            y: (if self.y < 0 {
                -self.y
            } else {
                self.y as int
            }) as i64,
        }
    }

    fn abs(self) -> (r: Point<i64>) {
        Point {
            x: if self.x < 0 {
                -self.x
            } else {
                self.x
            },
            y: if self.y < 0 {
                -self.y
            } else {
                self.y
            },
        }
    }
}

impl<T: PartialOrd> Point<T> {
    /// Returns the index of the coordinate of most significance: 0 for the
    /// x-coordinate when it compares greater than the y-coordinate, 1
    /// otherwise.
    pub fn index_of_significance(&self) -> (r: usize)
        ensures
            r == 0 || r == 1,
            T::obeys_partial_cmp_spec() ==> ((r == 0) <==> self.x.partial_cmp_spec(&self.y)
                == Some(Ordering::Greater)),
    {
        if self.x.gt(&self.y) {
            return 0;
        }
        return 1;
    }
}

impl<T> Point<T> {
    /// Returns the coordinate with the given index: 0 is the
    /// x-coordinate, 1 the y-coordinate.
    pub fn index(&self, i: usize) -> (r: &T)
        requires
            i < 2,
        ensures
            i == 0 ==> r == &self.x,
            i == 1 ==> r == &self.y,
    {
        if i == 0 {
            &self.x
        } else {
            &self.y
        }
    }
}

impl Point<i64> {
    /// Componentwise addition.
    pub fn add(self, other: Point<i64>) -> (r: Point<i64>)
        requires
            i64::MIN <= self.x + other.x <= i64::MAX,
            i64::MIN <= self.y + other.y <= i64::MAX,
        ensures
            r.x == self.x + other.x,
            r.y == self.y + other.y,
    {
        Point { x: self.x + other.x, y: self.y + other.y }
    }

    /// Componentwise subtraction.
    pub fn sub(self, other: Point<i64>) -> (r: Point<i64>)
        requires
            i64::MIN <= self.x - other.x <= i64::MAX,
            i64::MIN <= self.y - other.y <= i64::MAX,
        ensures
            r.x == self.x - other.x,
            r.y == self.y - other.y,
    {
        Point { x: self.x - other.x, y: self.y - other.y }
    }

    /// Componentwise multiplication.
    pub fn mul(self, other: Point<i64>) -> (r: Point<i64>)
        requires
            i64::MIN <= self.x * other.x <= i64::MAX,
            i64::MIN <= self.y * other.y <= i64::MAX,
        ensures
            r.x == self.x * other.x,
            r.y == self.y * other.y,
    {
        Point { x: self.x * other.x, y: self.y * other.y }
    }

    /// Componentwise division, truncating toward zero.
    pub fn div(self, other: Point<i64>) -> (r: Point<i64>)
        requires
            other.x != 0,
            other.y != 0,
            !(self.x == i64::MIN && other.x == -1),
            !(self.y == i64::MIN && other.y == -1),
        ensures
            r.x == trunc_div(self.x as int, other.x as int),
            r.y == trunc_div(self.y as int, other.y as int),
    {
        Point { x: trunc_div_exec(self.x, other.x), y: trunc_div_exec(self.y, other.y) }
    }
}

/// Divides two machine integers, truncating toward zero, by dividing the
/// magnitudes and fixing the sign.
fn trunc_div_exec(a: i64, b: i64) -> (r: i64)
    requires
        b != 0,
        !(a == i64::MIN && b == -1),
    ensures
        r == trunc_div(a as int, b as int),
{
    let a_wide: i128 = a as i128;
    let b_wide: i128 = b as i128;
    let aa: i128 = if a_wide < 0 {
        -a_wide
    } else {
        a_wide
    };
    let bb: i128 = if b_wide < 0 {
        -b_wide
    } else {
        b_wide
    };
    let q: i128 = aa / bb;
    proof {
        assert(q <= aa) by (nonlinear_arith)
            requires
                aa >= 0,
                bb >= 1,
                q == aa / bb,
        ;
        assert(q >= 0);
        // The quotient fits back into the narrow type: the one magnitude
        // that does not, |i64::MIN| over a unit divisor, keeps its sign or
        // is excluded.
        if (a < 0) == (b < 0) {
            if b <= -2 {
                assert(q <= aa / 2) by (nonlinear_arith)
                    requires
                        aa >= 0,
                        bb >= 2,
                        q == aa / bb,
                ;
            }
        }
    }
    let signed: i128 = if (a < 0) != (b < 0) {
        -q
    } else {
        q
    };
    signed as i64
}

impl Point<u64> {
    /// Componentwise addition.
    pub fn add(self, other: Point<u64>) -> (r: Point<u64>)
        requires
            self.x + other.x <= u64::MAX,
            self.y + other.y <= u64::MAX,
        ensures
            r.x == self.x + other.x,
            r.y == self.y + other.y,
    {
        Point { x: self.x + other.x, y: self.y + other.y }
    }
}

} // verus!
