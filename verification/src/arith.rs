//! Integer arithmetic underlying the geometry: squares, the floor of the
//! square root, and clamping of computed coordinates into the editor's
//! coordinate range.

use vstd::prelude::*;
use vstd::arithmetic::div_mod::{
    lemma_div_is_ordered, lemma_div_multiples_vanish, lemma_div_pos_is_pos,
};

verus! {

/// Coordinates handled by the editor stay within this bound.
pub const COORD_LIMIT: i64 = 1_000_000_000;

/// Edge lengths (stored or measured) stay within this bound.  A segment whose
/// endpoints are within `COORD_LIMIT` measures at most `2 * sqrt(2) * COORD_LIMIT`,
/// which is below this limit.
pub const LEN_LIMIT: i64 = 3_000_000_000;

pub open spec fn sq(x: int) -> int {
    x * x
}

/// The floor of the square root of `n` (0 for negative `n`).
pub open spec fn sqrt_floor(n: int) -> int
    decreases n,
{
    if n <= 0 {
        0
    } else {
        let r = sqrt_floor(n - 1);
        if sq(r + 1) <= n {
            r + 1
        } else {
            r
        }
    }
}

pub proof fn lemma_sq_nonneg(x: int)
    ensures
        sq(x) >= 0,
{
    assert(x * x >= 0) by (nonlinear_arith);
}

pub proof fn lemma_sq_mono(a: int, b: int)
    requires
        0 <= a <= b,
    ensures
        sq(a) <= sq(b),
{
    assert(a * a <= b * b) by (nonlinear_arith)
        requires
            0 <= a <= b,
    ;
}

pub proof fn lemma_sq_strict_mono(a: int, b: int)
    requires
        0 <= a < b,
    ensures
        sq(a) < sq(b),
{
    assert(a * a < b * b) by (nonlinear_arith)
        requires
            0 <= a < b,
    ;
}

/// `sqrt_floor(n)` really is the floor of the square root.
pub proof fn lemma_sqrt_floor_is_root(n: int)
    ensures
        sqrt_floor(n) >= 0,
        n >= 0 ==> sq(sqrt_floor(n)) <= n,
        n >= 0 ==> n < sq(sqrt_floor(n) + 1),
    decreases n,
{
    if n <= 0 {
        assert(sq(0) == 0);
        assert(sq(1) == 1);
    } else {
        lemma_sqrt_floor_is_root(n - 1);
        let r = sqrt_floor(n - 1);
        if sq(r + 1) <= n {
            // Here n == sq(r + 1), so the next square is strictly above n.
            lemma_sq_strict_mono(r + 1, r + 2);
        }
    }
}

/// There is only one floor of the square root.
pub proof fn lemma_sqrt_floor_unique(n: int, r: int)
    requires
        r >= 0,
        sq(r) <= n,
        n < sq(r + 1),
    ensures
        r == sqrt_floor(n),
{
    lemma_sq_nonneg(r);
    lemma_sqrt_floor_is_root(n);
    let s = sqrt_floor(n);
    if r < s {
        lemma_sq_mono(r + 1, s);
    }
    if s < r {
        lemma_sq_mono(s + 1, r);
    }
}

pub proof fn lemma_sqrt_floor_mono(a: int, b: int)
    requires
        0 <= a <= b,
    ensures
        sqrt_floor(a) <= sqrt_floor(b),
{
    lemma_sqrt_floor_is_root(a);
    lemma_sqrt_floor_is_root(b);
    if sqrt_floor(a) > sqrt_floor(b) {
        lemma_sq_mono(sqrt_floor(b) + 1, sqrt_floor(a));
    }
}

/// On a perfect square the root is recovered exactly.
pub proof fn lemma_sqrt_floor_sq(x: int)
    requires
        x >= 0,
    ensures
        sqrt_floor(sq(x)) == x,
{
    lemma_sq_nonneg(x);
    lemma_sq_strict_mono(x, x + 1);
    lemma_sqrt_floor_unique(sq(x), x);
}

/// An upper bound on the input gives an upper bound on the root.
pub proof fn lemma_sqrt_floor_le(n: int, b: int)
    requires
        0 <= n,
        0 <= b,
        n <= sq(b),
    ensures
        sqrt_floor(n) <= b,
{
    lemma_sq_nonneg(b);
    lemma_sqrt_floor_mono(n, sq(b));
    lemma_sqrt_floor_sq(b);
}

/// Executable floor of the square root, by binary search.
pub fn isqrt(n: u64) -> (r: u64)
    ensures
        r == sqrt_floor(n as int),
{
    let mut lo: u64 = 0;
    let mut hi: u64 = 4294967296;
    proof {
        assert(sq(4294967296) == 18446744073709551616);
    }
    while hi - lo > 1
        invariant
            lo < hi <= 4294967296,
            sq(lo as int) <= n as int,
            (n as int) < sq(hi as int),
        decreases hi - lo,
    {
        let mid: u64 = lo + (hi - lo) / 2;
        proof {
            assert((mid as int) * (mid as int) <= 18446744073709551616) by (nonlinear_arith)
                requires
                    0 <= mid as int <= 4294967296,
            ;
        }
        let m2: u128 = (mid as u128) * (mid as u128);
        if m2 <= n as u128 {
            lo = mid;
        } else {
            hi = mid;
        }
    }
    proof {
        lemma_sqrt_floor_unique(n as int, lo as int);
    }
    lo
}

/// Division truncating towards zero (the rounding of the editor's coordinate
/// formulas), for a positive divisor.
pub open spec fn tdiv(a: int, b: int) -> int
    recommends
        b >= 1,
{
    if a >= 0 {
        a / b
    } else {
        -((-a) / b)
    }
}

/// A bound on the dividend gives a bound on the truncated quotient.
pub proof fn lemma_tdiv_le(a: int, b: int, c: int)
    requires
        b >= 1,
        c >= 0,
        -(b * c) <= a <= b * c,
    ensures
        -c <= tdiv(a, b) <= c,
{
    if a >= 0 {
        lemma_div_pos_is_pos(a, b);
        lemma_div_is_ordered(a, b * c, b);
        lemma_div_multiples_vanish(c, b);
    } else {
        lemma_div_pos_is_pos(-a, b);
        lemma_div_is_ordered(-a, b * c, b);
        lemma_div_multiples_vanish(c, b);
    }
}

/// Executable division truncating towards zero.
pub fn div_trunc(a: i128, b: i128) -> (r: i128)
    requires
        b >= 1,
        a > i128::MIN,
    ensures
        r as int == tdiv(a as int, b as int),
{
    if a >= 0 {
        let q: u128 = (a as u128) / (b as u128);
        proof {
            lemma_div_pos_is_pos(a as int, b as int);
            lemma_div_is_ordered(a as int, i128::MAX as int, b as int);
            lemma_div_is_ordered(0, a as int, b as int);
            assert((i128::MAX as int) / (b as int) <= i128::MAX as int) by {
                vstd::arithmetic::div_mod::lemma_div_nonincreasing(i128::MAX as int, b as int);
            }
        }
        q as i128
    } else {
        let m: i128 = -a;
        let q: u128 = (m as u128) / (b as u128);
        proof {
            lemma_div_pos_is_pos(m as int, b as int);
            lemma_div_is_ordered(m as int, i128::MAX as int, b as int);
            assert((i128::MAX as int) / (b as int) <= i128::MAX as int) by {
                vstd::arithmetic::div_mod::lemma_div_nonincreasing(i128::MAX as int, b as int);
            }
        }
        -(q as i128)
    }
}

/// Clamping of a computed coordinate into the editor's coordinate range.
pub open spec fn clamp_spec(v: int) -> int {
    if v > COORD_LIMIT as int {
        COORD_LIMIT as int
    } else if v < -(COORD_LIMIT as int) {
        -(COORD_LIMIT as int)
    } else {
        v
    }
}

pub fn clamp_coord(v: i128) -> (r: i64)
    ensures
        r as int == clamp_spec(v as int),
{
    if v > COORD_LIMIT as i128 {
        COORD_LIMIT
    } else if v < -(COORD_LIMIT as i128) {
        -COORD_LIMIT
    } else {
        v as i64
    }
}

} // verus!
