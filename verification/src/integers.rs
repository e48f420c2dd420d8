//! Integer helpers shared by the grid-point modules: small exec utilities
//! and the exact rational-rounding arithmetic that digital line
//! rasterization is specified with.

use vstd::arithmetic::div_mod::lemma_basic_div;
use vstd::arithmetic::div_mod::lemma_div_is_ordered;
use vstd::arithmetic::div_mod::lemma_div_plus_one;
use vstd::arithmetic::div_mod::lemma_div_pos_is_pos;
use vstd::arithmetic::div_mod::lemma_fundamental_div_mod;
use vstd::arithmetic::div_mod::lemma_fundamental_div_mod_converse;
use vstd::arithmetic::div_mod::lemma_mod_bound;
use vstd::arithmetic::div_mod::lemma_multiply_divide_lt;
use vstd::prelude::*;

verus! {

/// Sign of an integer: 1 for positive, -1 for negative, 0 for zero.
pub open spec fn sgn(v: int) -> int {
    if v > 0 {
        1
    } else if v < 0 {
        -1
    } else {
        0
    }
}

/// Absolute value of an integer.
pub open spec fn iabs(v: int) -> int {
    if v >= 0 {
        v
    } else {
        -v
    }
}

/// The larger of two integers.
pub open spec fn imax(a: int, b: int) -> int {
    if a >= b {
        a
    } else {
        b
    }
}

/// The integer nearest to the rational `p / q` (for `q > 0`), with halves
/// rounded away from zero: `round_to_nearest(3, 2) == 2` and
/// `round_to_nearest(-3, 2) == -2`.
pub open spec fn round_to_nearest(p: int, q: int) -> int {
    if p >= 0 {
        (2 * p + q) / (2 * q)
    } else {
        -((2 * (-p) + q) / (2 * q))
    }
}

/// Rounding zero yields zero.
pub proof fn lemma_round_to_nearest_zero(q: int)
    requires
        0 < q,
    ensures
        round_to_nearest(0, q) == 0,
{
    lemma_basic_div(q, 2 * q);
}

/// Rounding an exact multiple of the denominator yields the exact quotient.
pub proof fn lemma_round_to_nearest_exact(d: int, q: int)
    requires
        0 < q,
    ensures
        round_to_nearest(q * d, q) == d,
{
    if d >= 0 {
        assert(q * d >= 0) by (nonlinear_arith)
            requires
                q > 0,
                d >= 0,
        ;
        assert(2 * (q * d) + q == d * (2 * q) + q) by (nonlinear_arith);
        lemma_fundamental_div_mod_converse(2 * (q * d) + q, 2 * q, d, q);
    } else {
        assert(q * d < 0) by (nonlinear_arith)
            requires
                q > 0,
                d < 0,
        ;
        assert(2 * (-(q * d)) + q == (-d) * (2 * q) + q) by (nonlinear_arith);
        lemma_fundamental_div_mod_converse(2 * (-(q * d)) + q, 2 * q, -d, q);
    }
}

/// Rewrites the rounded fraction `i * d / n` (for `i >= 0`) as a sign times
/// a quotient of non-negative integers, the shape in which executable code
/// computes it.
pub proof fn lemma_round_to_nearest_signed(i: int, d: int, n: int)
    requires
        0 <= i,
        0 < n,
    ensures
        round_to_nearest(i * d, n) == sgn(d) * ((2 * (i * iabs(d)) + n) / (2 * n)),
{
    if d == 0 {
        lemma_basic_div(n, 2 * n);
    } else if d > 0 {
        assert(i * d >= 0) by (nonlinear_arith)
            requires
                i >= 0,
                d > 0,
        ;
    } else {
        if i == 0 {
            lemma_basic_div(n, 2 * n);
        } else {
            assert(i * d < 0) by (nonlinear_arith)
                requires
                    i > 0,
                    d < 0,
            ;
            assert(-(i * d) == i * (-d)) by (nonlinear_arith);
        }
    }
}

/// For step indices `0 <= i <= n`, the rounded fraction `i * d / n` stays
/// between 0 and `d`: the interpolated minor coordinate never overshoots
/// either endpoint.
pub proof fn lemma_round_to_nearest_bound(i: int, d: int, n: int)
    requires
        0 <= i <= n,
        0 < n,
    ensures
        d >= 0 ==> 0 <= round_to_nearest(i * d, n) <= d,
        d <= 0 ==> d <= round_to_nearest(i * d, n) <= 0,
{
    let m: int = iabs(d);
    let q: int = (2 * (i * m) + n) / (2 * n);
    lemma_round_to_nearest_signed(i, d, n);
    assert(2 * (i * m) >= 0) by (nonlinear_arith)
        requires
            i >= 0,
            m >= 0,
    ;
    lemma_div_pos_is_pos(2 * (i * m) + n, 2 * n);
    assert(2 * (i * m) + n < (2 * n) * (m + 1)) by (nonlinear_arith)
        requires
            0 <= i <= n,
            0 <= m,
            0 < n,
    ;
    lemma_multiply_divide_lt(2 * (i * m) + n, 2 * n, m + 1);
    assert(0 <= q <= m);
}

/// From one step index to the next, the rounded fraction `i * d / n` moves
/// by at most one, toward `d`, whenever `|d| <= n`: digital-line
/// continuity of the minor coordinate.
pub proof fn lemma_round_to_nearest_step(i: int, d: int, n: int)
    requires
        0 <= i,
        0 < n,
        iabs(d) <= n,
    ensures
        d >= 0 ==> round_to_nearest(i * d, n) <= round_to_nearest((i + 1) * d, n)
            <= round_to_nearest(i * d, n) + 1,
        d <= 0 ==> round_to_nearest(i * d, n) - 1 <= round_to_nearest((i + 1) * d, n)
            <= round_to_nearest(i * d, n),
{
    let m: int = iabs(d);
    let a: int = 2 * (i * m) + n;
    let b: int = 2 * ((i + 1) * m) + n;
    lemma_round_to_nearest_signed(i, d, n);
    lemma_round_to_nearest_signed(i + 1, d, n);
    assert(2 * ((i + 1) * m) + n == (2 * (i * m) + n) + 2 * m) by (nonlinear_arith);
    lemma_div_is_ordered(a, b, 2 * n);
    lemma_div_is_ordered(b, a + 2 * n, 2 * n);
    lemma_div_plus_one(a, 2 * n);
    let q1: int = a / (2 * n);
    let q2: int = b / (2 * n);
    assert(q1 <= q2 <= q1 + 1);
    if d > 0 {
        assert(sgn(d) * q1 == q1) by (nonlinear_arith)
            requires
                sgn(d) == 1,
        ;
        assert(sgn(d) * q2 == q2) by (nonlinear_arith)
            requires
                sgn(d) == 1,
        ;
    } else if d < 0 {
        assert(sgn(d) * q1 == -q1) by (nonlinear_arith)
            requires
                sgn(d) == -1,
        ;
        assert(sgn(d) * q2 == -q2) by (nonlinear_arith)
            requires
                sgn(d) == -1,
        ;
    } else {
        assert(i * d == 0);
        assert((i + 1) * d == 0);
        assert(round_to_nearest((i + 1) * d, n) == round_to_nearest(i * d, n));
    }
}

/// Squares a 32-bit integer exactly.
pub fn sq(value: i32) -> (r: i32)
    requires
        value * value <= i32::MAX,
    ensures
        r == value * value,
{
    proof {
        assert(value * value >= 0) by (nonlinear_arith);
    }
    value * value
}

/// Divides, rounding the quotient up to the next integer.
pub fn round_up_div(dividend: i32, divisor: i32) -> (r: i32)
    requires
        0 <= dividend,
        0 < divisor,
        dividend + divisor - 1 <= i32::MAX,
    ensures
        r == (dividend + divisor - 1) / (divisor as int),
        dividend <= divisor * r < dividend + divisor,
{
    proof {
        lemma_fundamental_div_mod(dividend + divisor - 1, divisor as int);
        lemma_mod_bound(dividend + divisor - 1, divisor as int);
    }
    (dividend + (divisor - 1)) / divisor
}

} // verus!
