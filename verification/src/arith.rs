//! Rounded integer division.
//!
//! Boundary crossings are interpolated in fixed-point coordinates, so the
//! quotient `n / d` is rounded to the nearest integer, with halves rounded
//! away from zero. This module defines that rounding as a spec function and
//! proves the facts the clipper needs: the rounding is exact on multiples,
//! monotone in the numerator, and an interpolated value `rounded_div(k * m, d)`
//! with `k / d` between 0 and 1 stays between `0` and `m`.

use vstd::prelude::*;
use vstd::arithmetic::div_mod::{
    lemma_div_is_ordered, lemma_div_pos_is_pos, lemma_fundamental_div_mod,
    lemma_fundamental_div_mod_converse, lemma_mod_bound,
};

verus! {

/// Magnitude of an integer.
pub open spec fn iabs(x: int) -> int {
    if x < 0 {
        -x
    } else {
        x
    }
}

/// `n / d` for positive `d`, rounded to the nearest integer, halves away from zero.
pub open spec fn rnd_pos(n: int, d: int) -> int
    recommends
        d > 0,
{
    if n >= 0 {
        (2 * n + d) / (2 * d)
    } else {
        -((2 * (-n) + d) / (2 * d))
    }
}

/// `n / d`, rounded to the nearest integer, halves away from zero.
pub open spec fn rounded_div(n: int, d: int) -> int
    recommends
        d != 0,
{
    if d < 0 {
        rnd_pos(-n, -d)
    } else {
        rnd_pos(n, d)
    }
}

/// For a non-negative numerator, the rounding is the floored quotient,
/// plus one when the remainder is at least half the divisor.
pub proof fn lemma_rnd_pos_by_parts(n: int, d: int)
    requires
        n >= 0,
        d > 0,
    ensures
        rnd_pos(n, d) == n / d + (if 2 * (n % d) >= d {
            1int
        } else {
            0int
        }),
{
    let q = n / d;
    let r = n % d;
    lemma_fundamental_div_mod(n, d);
    lemma_mod_bound(n, d);
    if 2 * r >= d {
        assert(2 * n + d == (q + 1) * (2 * d) + (2 * r - d)) by (nonlinear_arith)
            requires
                n == d * q + r,
        ;
        lemma_fundamental_div_mod_converse(2 * n + d, 2 * d, q + 1, 2 * r - d);
    } else {
        assert(2 * n + d == q * (2 * d) + (2 * r + d)) by (nonlinear_arith)
            requires
                n == d * q + r,
        ;
        lemma_fundamental_div_mod_converse(2 * n + d, 2 * d, q, 2 * r + d);
    }
}

proof fn lemma_rnd_pos_exact(m: int, d: int)
    requires
        d > 0,
    ensures
        rnd_pos(m * d, d) == m,
{
    if m >= 0 {
        assert(m * d >= 0) by (nonlinear_arith)
            requires
                m >= 0 && d > 0,
        ;
        assert(2 * (m * d) + d == m * (2 * d) + d) by (nonlinear_arith);
        lemma_fundamental_div_mod_converse(2 * (m * d) + d, 2 * d, m, d);
    } else {
        assert(m * d <= -d) by (nonlinear_arith)
            requires
                m <= -1 && d > 0,
        ;
        assert(2 * (-(m * d)) + d == (-m) * (2 * d) + d) by (nonlinear_arith);
        lemma_fundamental_div_mod_converse(2 * (-(m * d)) + d, 2 * d, -m, d);
    }
}

proof fn lemma_rnd_pos_monotone(n1: int, n2: int, d: int)
    requires
        d > 0,
        n1 <= n2,
    ensures
        rnd_pos(n1, d) <= rnd_pos(n2, d),
{
    if n1 >= 0 {
        lemma_div_is_ordered(2 * n1 + d, 2 * n2 + d, 2 * d);
    } else if n2 >= 0 {
        lemma_div_pos_is_pos(2 * (-n1) + d, 2 * d);
        lemma_div_pos_is_pos(2 * n2 + d, 2 * d);
    } else {
        lemma_div_is_ordered(2 * (-n2) + d, 2 * (-n1) + d, 2 * d);
    }
}

/// Rounding a zero numerator gives zero.
pub proof fn lemma_rounded_div_zero(d: int)
    requires
        d != 0,
    ensures
        rounded_div(0, d) == 0,
{
    if d < 0 {
        lemma_rnd_pos_exact(0, -d);
        assert(0int * -d == 0);
    } else {
        lemma_rnd_pos_exact(0, d);
        assert(0int * d == 0);
    }
}

/// The interpolation bound: when `k / d` lies between 0 and 1, the rounded
/// product `rounded_div(k * m, d)` lies between `0` and `m`.
pub proof fn lemma_rounded_div_between(k: int, d: int, m: int)
    requires
        d != 0,
        if d > 0 {
            0 <= k <= d
        } else {
            d <= k <= 0
        },
    ensures
        m >= 0 ==> 0 <= rounded_div(k * m, d) <= m,
        m <= 0 ==> m <= rounded_div(k * m, d) <= 0,
{
    if d < 0 {
        assert(-(k * m) == (-k) * m) by (nonlinear_arith);
        lemma_rnd_pos_between(-k, -d, m);
    } else {
        lemma_rnd_pos_between(k, d, m);
    }
}

proof fn lemma_rnd_pos_between(k: int, d: int, m: int)
    requires
        d > 0,
        0 <= k <= d,
    ensures
        m >= 0 ==> 0 <= rnd_pos(k * m, d) <= m,
        m <= 0 ==> m <= rnd_pos(k * m, d) <= 0,
{
    lemma_rnd_pos_exact(0, d);
    assert(0int * d == 0);
    lemma_rnd_pos_exact(m, d);
    assert(m * d == d * m) by (nonlinear_arith);
    if m >= 0 {
        assert(0 <= k * m <= d * m) by (nonlinear_arith)
            requires
                0 <= k <= d && m >= 0,
        ;
        lemma_rnd_pos_monotone(0, k * m, d);
        lemma_rnd_pos_monotone(k * m, d * m, d);
    } else {
        assert(d * m <= k * m <= 0) by (nonlinear_arith)
            requires
                0 <= k <= d && m <= 0,
        ;
        lemma_rnd_pos_monotone(d * m, k * m, d);
        lemma_rnd_pos_monotone(k * m, 0, d);
    }
}

/// The rounding of `n / d` is the rounding of the magnitudes, negated exactly
/// when the signs of `n` and `d` differ.
pub proof fn lemma_rounded_div_signs(n: int, d: int)
    requires
        d != 0,
    ensures
        rounded_div(n, d) == if (n < 0) != (d < 0) {
            -rnd_pos(iabs(n), iabs(d))
        } else {
            rnd_pos(iabs(n), iabs(d))
        },
{
    if n == 0 {
        lemma_rounded_div_zero(d);
        if d < 0 {
            assert(rounded_div(0, d) == rnd_pos(0, -d));
        }
    } else if d < 0 {
        if n > 0 {
            assert(rounded_div(n, d) == -((2 * n + (-d)) / (2 * (-d))));
        } else {
            assert(rounded_div(n, d) == (2 * (-n) + (-d)) / (2 * (-d)));
        }
    }
}

} // verus!
