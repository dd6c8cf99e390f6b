//! Fixed-point helpers: rounded division by a positive divisor, and clamping.
//!
//! Derived report values (average delay in centi-days, percentages in
//! deci-percent, scores in centi-points) are quotients rounded to the nearest
//! integer, halves away from zero.

use vstd::prelude::*;

verus! {

/// Mathematical absolute value.
pub open spec fn abs_int(n: int) -> int {
    if n >= 0 {
        n
    } else {
        -n
    }
}

/// Quotient `n / d` rounded to the nearest integer, halves away from zero.
/// Meaningful only for `d > 0`.
pub open spec fn round_div(n: int, d: int) -> int
    recommends
        d > 0,
{
    if n >= 0 {
        (2 * n + d) / (2 * d)
    } else {
        -((2 * -n + d) / (2 * d))
    }
}

/// `v` forced into the inclusive interval `[lo, hi]`.
pub open spec fn clamp_int(v: int, lo: int, hi: int) -> int
    recommends
        lo <= hi,
{
    if v < lo {
        lo
    } else if v > hi {
        hi
    } else {
        v
    }
}

/// The rounded quotient never exceeds the numerator's magnitude.
proof fn lemma_round_div_magnitude(n: int, d: int)
    requires
        d > 0,
        n >= 0,
    ensures
        0 <= (2 * n + d) / (2 * d) <= n,
{
    assert(2 * n + d >= 0);
    assert((2 * n + d) / (2 * d) >= 0) by {
        vstd::arithmetic::div_mod::lemma_div_pos_is_pos(2 * n + d, 2 * d);
    }
    assert(2 * n + d < (2 * d) * (n + 1)) by (nonlinear_arith)
        requires
            d > 0,
            n >= 0,
    ;
    assert((2 * n + d) / (2 * d) < n + 1) by {
        vstd::arithmetic::div_mod::lemma_multiply_divide_lt(2 * n + d, 2 * d, n + 1);
    }
}

/// A rounded quotient of a numerator within `k` times the divisor lies in
/// `[0, k]`.
pub proof fn lemma_round_div_range(x: int, d: int, k: int)
    requires
        d > 0,
        k >= 0,
        0 <= x <= k * d,
    ensures
        0 <= round_div(x, d) <= k,
{
    assert(2 * x + d >= 0);
    assert((2 * x + d) / (2 * d) >= 0) by {
        vstd::arithmetic::div_mod::lemma_div_pos_is_pos(2 * x + d, 2 * d);
    }
    assert(2 * x + d < (2 * d) * (k + 1)) by (nonlinear_arith)
        requires
            d > 0,
            k >= 0,
            x <= k * d,
    ;
    assert((2 * x + d) / (2 * d) < k + 1) by {
        vstd::arithmetic::div_mod::lemma_multiply_divide_lt(2 * x + d, 2 * d, k + 1);
    }
}

/// A product's magnitude is bounded by the product of its factors' bounds.
pub proof fn lemma_abs_mul_le(x: int, y: int, xb: int, yb: int)
    requires
        abs_int(x) <= xb,
        abs_int(y) <= yb,
    ensures
        abs_int(x * y) <= xb * yb,
{
    assert(abs_int(x * y) <= xb * yb) by (nonlinear_arith)
        requires
            abs_int(x) <= xb,
            abs_int(y) <= yb,
    ;
}

/// Rounded division on machine integers.
pub fn div_round_i128(n: i128, d: i128) -> (q: i128)
    requires
        d > 0,
        2 * abs_int(n as int) + d <= u128::MAX,
    ensures
        q == round_div(n as int, d as int),
        abs_int(q as int) <= abs_int(n as int),
{
    let du = d as u128;
    if n >= 0 {
        let m = n as u128;
        let qu = (2 * m + du) / (2 * du);
        proof {
            lemma_round_div_magnitude(n as int, d as int);
        }
        qu as i128
    } else {
        let m = ((-(n + 1)) as u128) + 1;
        proof {
            assert(m == abs_int(n as int));
            lemma_round_div_magnitude(m as int, d as int);
        }
        let qu = (2 * m + du) / (2 * du);
        let qi = qu as i128;
        proof {
            assert(-qi == round_div(n as int, d as int));
        }
        -qi
    }
}

} // verus!
