//! Exact rational values with a positive denominator.
//!
//! The sweep orders its active segments by the exact height of each segment
//! at the current sweep position.  That height is a quotient of integers, so
//! it is kept as a numerator/denominator pair and compared by
//! cross-multiplication, which is exact.  A quotient is turned back into a
//! grid coordinate by rounding to the nearest integer, half away from zero.

use vstd::prelude::*;

verus! {

/// Largest numerator magnitude for which the comparison operations are
/// guaranteed not to overflow an `i128`.
pub const RATIO_NUM_LIMIT: i128 = 7_000_000_000_000_000_000_000_000;

/// Largest denominator for which the comparison operations are guaranteed
/// not to overflow an `i128`.
pub const RATIO_DEN_LIMIT: i128 = 5_000_000_000_000;

/// Largest numerator magnitude accepted by [`round_div`].
pub const ROUND_NUM_LIMIT: i128 = 20_000_000_000_000_000_000_000_000_000_000_000_000;

/// Largest denominator accepted by [`round_div`].
pub const ROUND_DEN_LIMIT: i128 = 10_000_000_000_000_000_000_000_000;

/// An exact rational value `num / den` with `den > 0`.
#[derive(Clone, Copy, Debug, PartialEq, Eq, Structural)]
pub struct Ratio {
    /// The numerator.
    pub num: i128,
    /// The denominator; always positive for a well-formed value.
    pub den: i128,
}

impl Ratio {
    /// The value is well formed and small enough for exact comparison.
    pub open spec fn bounded(self) -> bool {
        &&& -RATIO_NUM_LIMIT <= self.num <= RATIO_NUM_LIMIT
        &&& 0 < self.den <= RATIO_DEN_LIMIT
    }
}

/// `a < b` as rationals, by cross-multiplication.  Exact whenever both
/// denominators are positive.
pub open spec fn ratio_lt(a: Ratio, b: Ratio) -> bool {
    a.num * b.den < b.num * a.den
}

/// `a <= b` as rationals, by cross-multiplication.
pub open spec fn ratio_le(a: Ratio, b: Ratio) -> bool {
    a.num * b.den <= b.num * a.den
}

/// `a == b` as rationals, by cross-multiplication.
pub open spec fn ratio_eq(a: Ratio, b: Ratio) -> bool {
    a.num * b.den == b.num * a.den
}

/// The product of two values bounded in magnitude is bounded by the product
/// of the bounds.
pub proof fn lemma_mul_bound(x: int, y: int, xb: int, yb: int)
    by (nonlinear_arith)
    requires
        -xb <= x <= xb,
        -yb <= y <= yb,
    ensures
        -(xb * yb) <= x * y <= xb * yb,
{
}

/// Compares two bounded rationals exactly.
pub fn ratio_lt_exec(a: &Ratio, b: &Ratio) -> (r: bool)
    requires
        a.bounded(),
        b.bounded(),
    ensures
        r == ratio_lt(*a, *b),
{
    proof {
        lemma_mul_bound(a.num as int, b.den as int, RATIO_NUM_LIMIT as int, RATIO_DEN_LIMIT as int);
        lemma_mul_bound(b.num as int, a.den as int, RATIO_NUM_LIMIT as int, RATIO_DEN_LIMIT as int);
    }
    a.num * b.den < b.num * a.den
}

/// Tests two bounded rationals for equality of value.
pub fn ratio_eq_exec(a: &Ratio, b: &Ratio) -> (r: bool)
    requires
        a.bounded(),
        b.bounded(),
    ensures
        r == ratio_eq(*a, *b),
{
    proof {
        lemma_mul_bound(a.num as int, b.den as int, RATIO_NUM_LIMIT as int, RATIO_DEN_LIMIT as int);
        lemma_mul_bound(b.num as int, a.den as int, RATIO_NUM_LIMIT as int, RATIO_DEN_LIMIT as int);
    }
    a.num * b.den == b.num * a.den
}

/// The rational order given by cross-multiplication is transitive.
pub proof fn lemma_ratio_lt_trans(a: Ratio, b: Ratio, c: Ratio)
    by (nonlinear_arith)
    requires
        a.den > 0,
        b.den > 0,
        c.den > 0,
        ratio_lt(a, b),
        ratio_lt(b, c),
    ensures
        ratio_lt(a, c),
{
}

/// Mixed transitivity: a strict step followed by a reflexive step stays
/// strict.
pub proof fn lemma_ratio_lt_le_trans(a: Ratio, b: Ratio, c: Ratio)
    by (nonlinear_arith)
    requires
        a.den > 0,
        b.den > 0,
        c.den > 0,
        ratio_lt(a, b),
        ratio_le(b, c),
    ensures
        ratio_lt(a, c),
{
}

/// Reflexive step followed by a strict step stays strict.
pub proof fn lemma_ratio_le_lt_trans(a: Ratio, b: Ratio, c: Ratio)
    by (nonlinear_arith)
    requires
        a.den > 0,
        b.den > 0,
        c.den > 0,
        ratio_le(a, b),
        ratio_lt(b, c),
    ensures
        ratio_lt(a, c),
{
}

/// Equality of rationals by cross-multiplication is transitive.
pub proof fn lemma_ratio_eq_trans(a: Ratio, b: Ratio, c: Ratio)
    by (nonlinear_arith)
    requires
        a.den > 0,
        b.den > 0,
        c.den > 0,
        ratio_eq(a, b),
        ratio_eq(b, c),
    ensures
        ratio_eq(a, c),
{
}

/// The quotient `n / d` rounded to the nearest integer, half away from
/// zero.  Defined for `d > 0`.
pub open spec fn round_div_spec(n: int, d: int) -> int {
    if n >= 0 {
        (2 * n + d) / (2 * d)
    } else {
        -((2 * (-n) + d) / (2 * d))
    }
}

/// Rounds `n / d` to the nearest integer, half away from zero.
pub fn round_div(n: i128, d: i128) -> (q: i128)
    requires
        -ROUND_NUM_LIMIT <= n <= ROUND_NUM_LIMIT,
        0 < d <= ROUND_DEN_LIMIT,
    ensures
        q == round_div_spec(n as int, d as int),
{
    if n >= 0 {
        (2 * n + d) / (2 * d)
    } else {
        -((2 * (-n) + d) / (2 * d))
    }
}

/// Rounding keeps a quotient between any pair of integer bounds that
/// enclose it.
pub proof fn lemma_round_div_bounds(n: int, d: int, lo: int, hi: int)
    by (nonlinear_arith)
    requires
        d > 0,
        lo * d <= n <= hi * d,
    ensures
        lo <= round_div_spec(n, d) <= hi,
{
}

} // verus!
