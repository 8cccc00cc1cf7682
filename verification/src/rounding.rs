//! Facts about rounding toward zero, clamping and integer square roots, on
//! which the laws of the geometry rest.

use crate::scalar::{isqrt, lemma_isqrt_exists, lemma_isqrt_is, trunc_div};
use vstd::arithmetic::div_mod::{
    lemma_div_is_ordered, lemma_div_pos_is_pos, lemma_fundamental_div_mod,
    lemma_fundamental_div_mod_converse, lemma_mod_bound,
};
use vstd::prelude::*;

verus! {

/// The quotient rounded toward zero leaves a remainder smaller than the
/// divisor and of the sign of the dividend.
pub proof fn lemma_trunc_div(a: int, b: int)
    requires
        b > 0,
    ensures
        a >= 0 ==> 0 <= a - trunc_div(a, b) * b < b && trunc_div(a, b) >= 0,
        a <= 0 ==> -b < a - trunc_div(a, b) * b <= 0 && trunc_div(a, b) <= 0,
        a == 0 ==> trunc_div(a, b) == 0,
{
    if a >= 0 {
        lemma_fundamental_div_mod(a, b);
        lemma_mod_bound(a, b);
        lemma_div_pos_is_pos(a, b);
        assert(b * (a / b) == (a / b) * b) by (nonlinear_arith);
    } else {
        lemma_fundamental_div_mod(-a, b);
        lemma_mod_bound(-a, b);
        lemma_div_pos_is_pos(-a, b);
        assert((-((-a) / b)) * b == -(b * ((-a) / b))) by (nonlinear_arith);
    }
}

/// The only quotient that leaves such a remainder is the one rounded toward
/// zero.
pub proof fn lemma_trunc_div_is(a: int, b: int, q: int)
    requires
        b > 0,
        (a >= 0 && 0 <= a - q * b < b) || (a <= 0 && -b < a - q * b <= 0),
    ensures
        trunc_div(a, b) == q,
{
    if a >= 0 && 0 <= a - q * b < b {
        lemma_fundamental_div_mod_converse(a, b, q, a - q * b);
    } else {
        assert((-q) * b == -(q * b)) by (nonlinear_arith);
        lemma_fundamental_div_mod_converse(-a, b, -q, -a - (-q) * b);
    }
}

/// A multiple of the divisor is divided exactly.
pub proof fn lemma_trunc_div_multiple(q: int, b: int)
    requires
        b > 0,
    ensures
        trunc_div(q * b, b) == q,
{
    if q >= 0 {
        assert(q * b >= 0) by (nonlinear_arith)
            requires
                q >= 0,
                b > 0,
        ;
    } else {
        assert(q * b <= 0) by (nonlinear_arith)
            requires
                q <= 0,
                b > 0,
        ;
    }
    lemma_trunc_div_is(q * b, b, q);
}

/// Rounding toward zero keeps the order of the dividends.
pub proof fn lemma_trunc_div_monotone(a1: int, a2: int, b: int)
    requires
        a1 <= a2,
        b > 0,
    ensures
        trunc_div(a1, b) <= trunc_div(a2, b),
{
    if a1 >= 0 {
        lemma_div_is_ordered(a1, a2, b);
    } else if a2 < 0 {
        lemma_div_is_ordered(-a2, -a1, b);
    } else {
        lemma_trunc_div(a1, b);
        lemma_trunc_div(a2, b);
    }
}

/// Rounding toward zero commutes with negation.
pub proof fn lemma_trunc_div_negated(a: int, b: int)
    requires
        b > 0,
    ensures
        trunc_div(-a, b) == -trunc_div(a, b),
{
    if a == 0 {
        lemma_trunc_div(0, b);
    }
}

/// Dividends that differ by at most `k` times the divisor have rounded
/// quotients that differ by at most `k + 1`.
pub proof fn lemma_trunc_div_close(a: int, b: int, d: int, k: int)
    requires
        d > 0,
        k >= 0,
        -(k * d) <= a - b <= k * d,
    ensures
        -(k + 1) <= trunc_div(a, d) - trunc_div(b, d) <= k + 1,
{
    lemma_trunc_div(a, d);
    lemma_trunc_div(b, d);
    let qa = trunc_div(a, d);
    let qb = trunc_div(b, d);
    assert((qa - qb) * d == qa * d - qb * d) by (nonlinear_arith);
    assert(-(k + 2) * d < (qa - qb) * d < (k + 2) * d) by (nonlinear_arith)
        requires
            -(k * d) <= a - b <= k * d,
            -d < a - qa * d < d,
            -d < b - qb * d < d,
            (qa - qb) * d == qa * d - qb * d,
    ;
    assert(-(k + 2) < qa - qb < k + 2) by (nonlinear_arith)
        requires
            -(k + 2) * d < (qa - qb) * d < (k + 2) * d,
            d > 0,
    ;
}

/// The integer square root keeps the order of its arguments.
pub proof fn lemma_isqrt_monotone(m: int, n: int)
    requires
        0 <= m <= n,
    ensures
        0 <= isqrt(m) <= isqrt(n),
{
    lemma_isqrt_exists(m);
    lemma_isqrt_exists(n);
    let r = isqrt(m);
    let s = isqrt(n);
    if r > s {
        assert((s + 1) * (s + 1) <= r * r) by (nonlinear_arith)
            requires
                0 <= s,
                s + 1 <= r,
        ;
    }
}

/// The integer square root of a square is its root.
pub proof fn lemma_isqrt_square(k: int)
    requires
        k >= 0,
    ensures
        isqrt(k * k) == k,
{
    assert(k * k < (k + 1) * (k + 1)) by (nonlinear_arith)
        requires
            k >= 0,
    ;
    lemma_isqrt_is(k * k, k);
}

} // verus!
