//! Unit vectors, and what reflection and refraction do to them.
//!
//! In fixed-point arithmetic a vector is rarely of length exactly one. The
//! laws here hold for vectors that are of unit length within a stated slack,
//! and bound the error of the results.

use crate::rounding::{
    lemma_trunc_div, lemma_trunc_div_close, lemma_trunc_div_monotone, lemma_trunc_div_multiple,
    lemma_trunc_div_negated,
};
use crate::scalar::{trunc_div, Scalar, SCALE};
use crate::vec::{dot_raw, lemma_dot_raw_self, lemma_norm_raw, lemma_square_sign, Vec3};
use vstd::prelude::*;

verus! {

/// By how much the exact squared length of a unit vector may differ from
/// one: eight millionths.
pub const UNIT_SLACK: i64 = 8_000_000;

/// Shortest raw length of a vector that divided by its length is of unit
/// length within the slack: three tenths.
pub const NORMALIZABLE: i64 = 300_000;

/// Whether a vector counts as of unit length: no component exceeds one in
/// magnitude, and the exact squared length is one within the slack.
pub open spec fn is_unit(v: Vec3) -> bool {
    &&& -SCALE <= v.x.raw <= SCALE
    &&& -SCALE <= v.y.raw <= SCALE
    &&& -SCALE <= v.z.raw <= SCALE
    &&& SCALE * SCALE - UNIT_SLACK <= dot_raw(v, v) <= SCALE * SCALE + UNIT_SLACK
}

/// What one component of the normalized vector contributes to the squared
/// length: with `q` the component `x` times the scale over the length `n`,
/// rounded toward zero, `n^2 q^2` lies between `s^2 x^2 - 2 s n^2` and
/// `s^2 x^2`.
proof fn lemma_normalized_term(x: int, n: int, q: int)
    requires
        n > 0,
        -n <= x <= n,
        q == trunc_div(x * 1_000_000, n),
    ensures
        1_000_000_000_000 * (x * x) - 2_000_000 * (n * n) <= (n * n) * (q * q) <= 1_000_000_000_000
            * (x * x),
{
    lemma_trunc_div(x * 1_000_000, n);
    let rho = x * 1_000_000 - q * n;
    if x >= 0 {
        assert(x * 1_000_000 >= 0);
        assert(0 <= rho < n);
        assert(q >= 0);
        assert(q * n >= 0) by (nonlinear_arith)
            requires
                q >= 0,
                n > 0,
        ;
        assert((n * n) * (q * q) == (q * n) * (q * n)) by (nonlinear_arith);
        assert((q * n) * (q * n) <= (x * 1_000_000) * (x * 1_000_000)) by (nonlinear_arith)
            requires
                0 <= q * n <= x * 1_000_000,
        ;
        assert((x * 1_000_000) * (x * 1_000_000) == 1_000_000_000_000 * (x * x))
            by (nonlinear_arith);
        assert((q * n) * (q * n) >= (x * 1_000_000) * (x * 1_000_000) - 2 * ((x * 1_000_000)
            * rho)) by (nonlinear_arith)
            requires
                q * n == x * 1_000_000 - rho,
        ;
        assert((x * 1_000_000) * rho <= (n * 1_000_000) * n) by (nonlinear_arith)
            requires
                0 <= x <= n,
                0 <= rho < n,
        ;
        assert((n * 1_000_000) * n == 1_000_000 * (n * n)) by (nonlinear_arith);
    } else {
        assert(x * 1_000_000 <= 0);
        assert(-n < rho <= 0);
        assert(q <= 0);
        assert(q * n <= 0) by (nonlinear_arith)
            requires
                q <= 0,
                n > 0,
        ;
        assert((n * n) * (q * q) == (q * n) * (q * n)) by (nonlinear_arith);
        assert((q * n) * (q * n) <= (x * 1_000_000) * (x * 1_000_000)) by (nonlinear_arith)
            requires
                x * 1_000_000 <= q * n <= 0,
        ;
        assert((x * 1_000_000) * (x * 1_000_000) == 1_000_000_000_000 * (x * x))
            by (nonlinear_arith);
        assert((q * n) * (q * n) >= (x * 1_000_000) * (x * 1_000_000) - 2 * ((x * 1_000_000)
            * rho)) by (nonlinear_arith)
            requires
                q * n == x * 1_000_000 - rho,
        ;
        assert((x * 1_000_000) * rho <= (n * 1_000_000) * n) by (nonlinear_arith)
            requires
                -n <= x <= 0,
                -n < rho <= 0,
        ;
        assert((n * 1_000_000) * n == 1_000_000 * (n * n)) by (nonlinear_arith);
    }
}

/// Dividing a vector that is at least three tenths long by its length gives
/// a vector of unit length within the slack.
pub proof fn lemma_over_norm_is_unit(v: Vec3)
    requires
        v.norm_raw() >= NORMALIZABLE,
    ensures
        is_unit(v.over_norm()),
{
    lemma_norm_raw(v);
    lemma_dot_raw_self(v);
    crate::vec::lemma_over_norm_bounds(v);
    let n = v.norm_raw();
    let total = dot_raw(v, v);
    let u = v.over_norm();
    lemma_normalized_term(v.x@, n, u.x@);
    lemma_normalized_term(v.y@, n, u.y@);
    lemma_normalized_term(v.z@, n, u.z@);
    let unit = dot_raw(u, u);
    assert((n * n) * unit == (n * n) * (u.x@ * u.x@) + (n * n) * (u.y@ * u.y@) + (n * n) * (u.z@
        * u.z@)) by (nonlinear_arith)
        requires
            unit == u.x@ * u.x@ + u.y@ * u.y@ + u.z@ * u.z@,
    ;
    // From below: n^2 unit >= s^2 total - 6 s n^2 >= (s^2 - 6 s) n^2.
    assert(1_000_000_000_000 * total >= 1_000_000_000_000 * (n * n));
    assert((n * n) * unit >= (n * n) * 999_994_000_000);
    assert(unit >= 999_994_000_000) by (nonlinear_arith)
        requires
            (n * n) * unit >= (n * n) * 999_994_000_000,
            n > 0,
    ;
    // From above: n^2 unit <= s^2 total < s^2 (n + 1)^2 <= (s^2 + 8 s) n^2.
    assert((n + 1) * (n + 1) == n * n + 2 * n + 1) by (nonlinear_arith);
    assert(total <= n * n + 2 * n);
    assert(1_000_000_000_000 * (2 * n) <= 8_000_000 * (n * n)) by {
        assert(n * 300_000 <= n * n) by (nonlinear_arith)
            requires
                n >= 300_000,
        ;
    }
    assert((n * n) * unit <= (n * n) * 1_000_008_000_000);
    assert(unit <= 1_000_008_000_000) by (nonlinear_arith)
        requires
            (n * n) * unit <= (n * n) * 1_000_008_000_000,
            n > 0,
    ;
}

/// Normalizing any vector but the zero vector gives a vector of unit length
/// within the slack.
pub proof fn lemma_normalized_is_unit(v: Vec3)
    requires
        !v.is_zero_spec(),
    ensures
        is_unit(v.normalized_spec()),
{
    crate::vec::lemma_magnified(v);
    lemma_over_norm_is_unit(v.magnified());
}

/// The negation of a unit vector is a unit vector.
pub proof fn lemma_negated_is_unit(v: Vec3)
    requires
        is_unit(v),
    ensures
        is_unit(v.negated()),
{
    let u = v.negated();
    assert(u.x@ * u.x@ == v.x@ * v.x@) by (nonlinear_arith)
        requires
            u.x@ == -v.x@,
    ;
    assert(u.y@ * u.y@ == v.y@ * v.y@) by (nonlinear_arith)
        requires
            u.y@ == -v.y@,
    ;
    assert(u.z@ * u.z@ == v.z@ * v.z@) by (nonlinear_arith)
        requires
            u.z@ == -v.z@,
    ;
}

/// The product of two sums of three terms, term by term.
proof fn lemma_product_of_sums(x1: int, x2: int, x3: int, y1: int, y2: int, y3: int)
    ensures
        (x1 + x2 + x3) * (y1 + y2 + y3) == x1 * y1 + x1 * y2 + x1 * y3 + x2 * y1 + x2 * y2 + x2
            * y3 + x3 * y1 + x3 * y2 + x3 * y3,
{
    assert((x1 + x2 + x3) * (y1 + y2 + y3) == x1 * (y1 + y2 + y3) + x2 * (y1 + y2 + y3) + x3 * (y1
        + y2 + y3)) by (nonlinear_arith);
    assert(x1 * (y1 + y2 + y3) == x1 * y1 + x1 * y2 + x1 * y3) by (nonlinear_arith);
    assert(x2 * (y1 + y2 + y3) == x2 * y1 + x2 * y2 + x2 * y3) by (nonlinear_arith);
    assert(x3 * (y1 + y2 + y3) == x3 * y1 + x3 * y2 + x3 * y3) by (nonlinear_arith);
}

/// The square of a two-by-two determinant, in products of pairs.
proof fn lemma_cross_square(a: int, b: int, c: int, d: int)
    ensures
        (a * d - c * b) * (a * d - c * b) == (a * a) * (d * d) + (c * c) * (b * b) - 2 * ((a * b)
            * (c * d)),
        (a * b) * (a * b) == (a * a) * (b * b),
        (c * d) * (a * b) == (a * b) * (c * d),
{
    let p = a * d;
    let q = c * b;
    assert((p - q) * (p - q) == p * p + q * q - 2 * (p * q)) by (nonlinear_arith);
    assert(p * p == (a * a) * (d * d)) by (nonlinear_arith)
        requires
            p == a * d,
    ;
    assert(q * q == (c * c) * (b * b)) by (nonlinear_arith)
        requires
            q == c * b,
    ;
    assert(p * q == (a * b) * (c * d)) by (nonlinear_arith)
        requires
            p == a * d,
            q == c * b,
    ;
    assert((a * b) * (a * b) == (a * a) * (b * b)) by (nonlinear_arith);
    assert((c * d) * (a * b) == (a * b) * (c * d)) by (nonlinear_arith);
}

/// The identity of Lagrange: the product of the exact squared lengths of two
/// vectors, less the square of their exact dot product, is the sum of the
/// squares of the three determinants of their components, which are the
/// components of their cross product.
pub proof fn lemma_lagrange(a: Vec3, b: Vec3)
    ensures
        dot_raw(a, a) * dot_raw(b, b) - dot_raw(a, b) * dot_raw(a, b) == (a.x@ * b.y@ - a.y@
            * b.x@) * (a.x@ * b.y@ - a.y@ * b.x@) + (a.x@ * b.z@ - a.z@ * b.x@) * (a.x@ * b.z@
            - a.z@ * b.x@) + (a.y@ * b.z@ - a.z@ * b.y@) * (a.y@ * b.z@ - a.z@ * b.y@),
{
    lemma_lagrange_of(a.x@, a.y@, a.z@, b.x@, b.y@, b.z@);
}

/// The identity of Lagrange for two triples of integers.
pub proof fn lemma_lagrange_of(a1: int, a2: int, a3: int, b1: int, b2: int, b3: int)
    ensures
        (a1 * a1 + a2 * a2 + a3 * a3) * (b1 * b1 + b2 * b2 + b3 * b3) - (a1 * b1 + a2 * b2 + a3
            * b3) * (a1 * b1 + a2 * b2 + a3 * b3) == (a1 * b2 - a2 * b1) * (a1 * b2 - a2 * b1)
            + (a1 * b3 - a3 * b1) * (a1 * b3 - a3 * b1) + (a2 * b3 - a3 * b2) * (a2 * b3 - a3
            * b2),
{
    lemma_product_of_sums(a1 * a1, a2 * a2, a3 * a3, b1 * b1, b2 * b2, b3 * b3);
    lemma_product_of_sums(a1 * b1, a2 * b2, a3 * b3, a1 * b1, a2 * b2, a3 * b3);
    // Each pair of places gives one squared determinant.
    lemma_cross_square(a1, b1, a2, b2);
    lemma_cross_square(a1, b1, a3, b3);
    lemma_cross_square(a2, b2, a3, b3);
    lemma_cross_square(a3, b3, a1, b1);
}

/// The inequality of Cauchy and Schwarz for the exact dot product.
pub proof fn lemma_cauchy_schwarz(a: Vec3, b: Vec3)
    ensures
        dot_raw(a, b) * dot_raw(a, b) <= dot_raw(a, a) * dot_raw(b, b),
{
    lemma_lagrange(a, b);
    crate::vec::lemma_square_sign(a.x@ * b.y@ - a.y@ * b.x@);
    crate::vec::lemma_square_sign(a.x@ * b.z@ - a.z@ * b.x@);
    crate::vec::lemma_square_sign(a.y@ * b.z@ - a.z@ * b.y@);
}

/// A number whose square is at most that of a bound lies within the bound.
proof fn lemma_within(x: int, bound: int)
    requires
        bound >= 0,
        x * x <= bound * bound,
    ensures
        -bound <= x <= bound,
{
    if x > bound {
        assert(x * x > bound * bound) by (nonlinear_arith)
            requires
                x > bound,
                bound >= 0,
        ;
    } else if x < -bound {
        assert(x * x > bound * bound) by (nonlinear_arith)
            requires
                x < -bound,
                bound >= 0,
        ;
    }
}

/// The product of two bounded numbers is bounded by the product of the
/// bounds.
proof fn lemma_product_within(x: int, y: int, bx: int, by: int)
    requires
        -bx <= x <= bx,
        -by <= y <= by,
    ensures
        -(bx * by) <= x * y <= bx * by,
{
    assert(-(bx * by) <= x * y <= bx * by) by (nonlinear_arith)
        requires
            -bx <= x <= bx,
            -by <= y <= by,
    ;
}

/// One component of the reflected vector times the normal, scaled: with
/// `w` the rounded share `n k / s` that is taken from the component `d`, and
/// `rho` the remainder of that division.
proof fn lemma_reflect_along(d: int, n: int, w: int, rho: int, k: int)
    requires
        n * k == w * 1_000_000 + rho,
    ensures
        1_000_000 * ((d - w) * n) == 1_000_000 * (d * n) - k * (n * n) + rho * n,
{
    assert((d - w) * n == d * n - w * n) by (nonlinear_arith);
    assert((w * 1_000_000) * n == 1_000_000 * (w * n)) by (nonlinear_arith);
    assert((n * k - rho) * n == k * (n * n) - rho * n) by (nonlinear_arith);
}

/// One component of the reflected vector squared, scaled.
proof fn lemma_reflect_square(d: int, n: int, w: int, rho: int, k: int)
    requires
        n * k == w * 1_000_000 + rho,
    ensures
        1_000_000_000_000 * ((d - w) * (d - w)) == 1_000_000_000_000 * (d * d) + (k * k) * (n * n)
            + rho * rho - 2_000_000 * (k * (d * n)) + 2_000_000 * (d * rho) - 2 * (k * (n * rho)),
{
    let e = 1_000_000 * d - n * k + rho;
    assert(1_000_000 * (d - w) == e);
    assert(1_000_000_000_000 * ((d - w) * (d - w)) == (1_000_000 * (d - w)) * (1_000_000 * (d - w)))
        by (nonlinear_arith);
    let p = 1_000_000 * d;
    let q = n * k;
    assert((p - q + rho) * (p - q + rho) == p * p + q * q + rho * rho - 2 * (p * q) + 2 * (p * rho)
        - 2 * (q * rho)) by (nonlinear_arith);
    assert(p * p == 1_000_000_000_000 * (d * d)) by (nonlinear_arith)
        requires
            p == 1_000_000 * d,
    ;
    assert(q * q == (k * k) * (n * n)) by (nonlinear_arith)
        requires
            q == n * k,
    ;
    assert(p * q == 1_000_000 * (k * (d * n))) by (nonlinear_arith)
        requires
            p == 1_000_000 * d,
            q == n * k,
    ;
    assert(p * rho == 1_000_000 * (d * rho)) by (nonlinear_arith)
        requires
            p == 1_000_000 * d,
    ;
    assert(q * rho == k * (n * rho)) by (nonlinear_arith)
        requires
            q == n * k,
    ;
}

/// The shares that reflection takes from the components of `d`: the
/// components of the normal times twice the dot product, rounded.
pub open spec fn reflect_share(d: Vec3, n: Vec3) -> Vec3 {
    n.scaled((Scalar { raw: 2_000_000 }).times(d.dot_spec(n)))
}

/// What reflection computes from unit vectors stays within range: the dot
/// product is at most one and eight millionths in magnitude, twice it is
/// computed exactly, and each share is rounded from the exact product with a
/// remainder below the scale.
proof fn lemma_reflect_parts(d: Vec3, n: Vec3)
    requires
        is_unit(d),
        is_unit(n),
    ensures
        ({
            let dn = d.dot_spec(n)@;
            let k = 2 * dn;
            let w = reflect_share(d, n);
            let r = d.reflect_spec(n);
            &&& -1_000_008 <= dn <= 1_000_008
            &&& -1_000_000 < dot_raw(d, n) - dn * 1_000_000 < 1_000_000
            &&& -1_000_000 < n.x@ * k - w.x@ * 1_000_000 < 1_000_000
            &&& -1_000_000 < n.y@ * k - w.y@ * 1_000_000 < 1_000_000
            &&& -1_000_000 < n.z@ * k - w.z@ * 1_000_000 < 1_000_000
            &&& r.x@ == d.x@ - w.x@
            &&& r.y@ == d.y@ - w.y@
            &&& r.z@ == d.z@ - w.z@
        }),
{
    let s = 1_000_000int;
    let along = dot_raw(d, n);
    lemma_cauchy_schwarz(d, n);
    lemma_dot_raw_self(d);
    lemma_dot_raw_self(n);
    let bound = 1_000_008_000_000int;
    assert(dot_raw(d, d) * dot_raw(n, n) <= bound * bound) by (nonlinear_arith)
        requires
            0 <= dot_raw(d, d) <= bound,
            0 <= dot_raw(n, n) <= bound,
    ;
    lemma_within(along, bound);
    lemma_trunc_div(along, s);
    lemma_trunc_div_multiple(1_000_008, s);
    lemma_trunc_div_multiple(-1_000_008, s);
    lemma_trunc_div_monotone(along, 1_000_008 * s, s);
    lemma_trunc_div_monotone(-1_000_008 * s, along, s);
    let dn = d.dot_spec(n)@;
    assert(dn == trunc_div(along, s));
    let k = 2 * dn;
    assert(2_000_000 * dn == k * s);
    lemma_trunc_div_multiple(k, s);
    let twice = (Scalar { raw: 2_000_000 }).times(d.dot_spec(n));
    assert(twice@ == k);
    lemma_reflect_share(n.x@, k);
    lemma_reflect_share(n.y@, k);
    lemma_reflect_share(n.z@, k);
}

/// One share: the component `n` times `k`, divided by the scale.
proof fn lemma_reflect_share(n: int, k: int)
    requires
        -1_000_000 <= n <= 1_000_000,
        -2_000_016 <= k <= 2_000_016,
    ensures
        -2_000_016 <= trunc_div(n * k, 1_000_000) <= 2_000_016,
        -1_000_000 < n * k - trunc_div(n * k, 1_000_000) * 1_000_000 < 1_000_000,
{
    let s = 1_000_000int;
    lemma_product_within(n, k, s, 2_000_016);
    assert(s * 2_000_016 == 2_000_016 * s);
    lemma_trunc_div(n * k, s);
    lemma_trunc_div_multiple(2_000_016, s);
    lemma_trunc_div_multiple(-2_000_016, s);
    lemma_trunc_div_monotone(n * k, 2_000_016 * s, s);
    lemma_trunc_div_monotone(-2_000_016 * s, n * k, s);
}

/// Reflection about a unit normal reverses the part of a unit vector that
/// lies along the normal, within twenty-one millionths: the dot product of
/// the reflected vector with the normal is the negated dot product of the
/// vector with the normal, up to that error.
pub proof fn lemma_reflect_reverses(d: Vec3, n: Vec3)
    requires
        is_unit(d),
        is_unit(n),
    ensures
        -21 <= d.reflect_spec(n).dot_spec(n)@ + d.dot_spec(n)@ <= 21,
{
    let s = 1_000_000int;
    lemma_reflect_parts(d, n);
    let dn = d.dot_spec(n)@;
    let k = 2 * dn;
    let w = reflect_share(d, n);
    let r = d.reflect_spec(n);
    let along = dot_raw(d, n);
    let rho_d = along - dn * s;
    let rho_x = n.x@ * k - w.x@ * s;
    let rho_y = n.y@ * k - w.y@ * s;
    let rho_z = n.z@ * k - w.z@ * s;
    let unit = dot_raw(n, n);
    let eps = unit - s * s;
    lemma_reflect_along(d.x@, n.x@, w.x@, rho_x, k);
    lemma_reflect_along(d.y@, n.y@, w.y@, rho_y, k);
    lemma_reflect_along(d.z@, n.z@, w.z@, rho_z, k);
    let back = dot_raw(r, n);
    assert(back == (d.x@ - w.x@) * n.x@ + (d.y@ - w.y@) * n.y@ + (d.z@ - w.z@) * n.z@);
    assert(k * unit == k * (n.x@ * n.x@) + k * (n.y@ * n.y@) + k * (n.z@ * n.z@))
        by (nonlinear_arith)
        requires
            unit == n.x@ * n.x@ + n.y@ * n.y@ + n.z@ * n.z@,
    ;
    assert(s * back == s * along - k * unit + rho_x * n.x@ + rho_y * n.y@ + rho_z * n.z@);
    assert(k * unit == 2 * (dn * 1_000_000_000_000) + 2 * (dn * eps)) by (nonlinear_arith)
        requires
            k == 2 * dn,
            unit == 1_000_000_000_000 + eps,
    ;
    let error = s * rho_d - 2 * (dn * eps) + rho_x * n.x@ + rho_y * n.y@ + rho_z * n.z@;
    assert(s * back + dn * 1_000_000_000_000 == error);
    lemma_product_within(dn, eps, 1_000_008, 8_000_000);
    lemma_product_within(rho_x, n.x@, 999_999, 1_000_000);
    lemma_product_within(rho_y, n.y@, 999_999, 1_000_000);
    lemma_product_within(rho_z, n.z@, 999_999, 1_000_000);
    assert(1_000_008 * 8_000_000 == 8_000_064_000_000int);
    assert(999_999 * 1_000_000 == 999_999_000_000int);
    assert(-21_000_000_000_000 < error < 21_000_000_000_000);
    assert(-21 * s < back + dn * s < 21 * s);
    lemma_trunc_div_multiple(-dn + 21, s);
    lemma_trunc_div_multiple(-dn - 21, s);
    lemma_trunc_div_monotone(back, (-dn + 21) * s, s);
    lemma_trunc_div_monotone((-dn - 21) * s, back, s);
}

/// Reflection about a unit normal keeps the length of a unit vector: the
/// exact squared lengths differ by at most fifty-five millionths, and the
/// lengths by at most twenty-eight.
pub proof fn lemma_reflect_keeps_length(d: Vec3, n: Vec3)
    requires
        is_unit(d),
        is_unit(n),
    ensures
        -55 * SCALE <= dot_raw(d.reflect_spec(n), d.reflect_spec(n)) - dot_raw(d, d) <= 55 * SCALE,
        -28 <= d.reflect_spec(n).norm_raw() - d.norm_raw() <= 28,
{
    let s = 1_000_000int;
    lemma_reflect_parts(d, n);
    let dn = d.dot_spec(n)@;
    let k = 2 * dn;
    let w = reflect_share(d, n);
    let r = d.reflect_spec(n);
    let along = dot_raw(d, n);
    let rho_d = along - dn * s;
    let rho_x = n.x@ * k - w.x@ * s;
    let rho_y = n.y@ * k - w.y@ * s;
    let rho_z = n.z@ * k - w.z@ * s;
    let unit = dot_raw(n, n);
    let eps = unit - s * s;
    let before = dot_raw(d, d);
    let after = dot_raw(r, r);
    lemma_reflect_square(d.x@, n.x@, w.x@, rho_x, k);
    lemma_reflect_square(d.y@, n.y@, w.y@, rho_y, k);
    lemma_reflect_square(d.z@, n.z@, w.z@, rho_z, k);
    assert(after == (d.x@ - w.x@) * (d.x@ - w.x@) + (d.y@ - w.y@) * (d.y@ - w.y@) + (d.z@ - w.z@)
        * (d.z@ - w.z@));
    let kk = k * k;
    assert(kk * unit == kk * (n.x@ * n.x@) + kk * (n.y@ * n.y@) + kk * (n.z@ * n.z@))
        by (nonlinear_arith)
        requires
            unit == n.x@ * n.x@ + n.y@ * n.y@ + n.z@ * n.z@,
    ;
    assert(k * along == k * (d.x@ * n.x@) + k * (d.y@ * n.y@) + k * (d.z@ * n.z@))
        by (nonlinear_arith)
        requires
            along == d.x@ * n.x@ + d.y@ * n.y@ + d.z@ * n.z@,
    ;
    let dr = d.x@ * rho_x + d.y@ * rho_y + d.z@ * rho_z;
    let nr = n.x@ * rho_x + n.y@ * rho_y + n.z@ * rho_z;
    let rr = rho_x * rho_x + rho_y * rho_y + rho_z * rho_z;
    assert(k * nr == k * (n.x@ * rho_x) + k * (n.y@ * rho_y) + k * (n.z@ * rho_z))
        by (nonlinear_arith)
        requires
            nr == n.x@ * rho_x + n.y@ * rho_y + n.z@ * rho_z,
    ;
    assert(1_000_000_000_000 * after == 1_000_000_000_000 * before + kk * unit + rr - 2_000_000 * (k
        * along) + 2_000_000 * dr - 2 * (k * nr));
    // With k = 2 dn the terms of the second order cancel.
    let dd = dn * dn;
    assert(kk == 4 * dd) by (nonlinear_arith)
        requires
            kk == k * k,
            k == 2 * dn,
            dd == dn * dn,
    ;
    assert(kk * unit == 4 * (dd * 1_000_000_000_000) + 4 * (dd * eps)) by (nonlinear_arith)
        requires
            kk == 4 * dd,
            unit == 1_000_000_000_000 + eps,
    ;
    assert(k * along == 2 * (dd * 1_000_000) + 2 * (dn * rho_d)) by (nonlinear_arith)
        requires
            k == 2 * dn,
            along == dn * 1_000_000 + rho_d,
            dd == dn * dn,
    ;
    assert(k * nr == 2 * (dn * nr)) by (nonlinear_arith)
        requires
            k == 2 * dn,
    ;
    let error = 4 * (dd * eps) - 4_000_000 * (dn * rho_d) + rr + 2_000_000 * dr - 4 * (dn * nr);
    assert(1_000_000_000_000 * (after - before) == error);
    // Every term of the error is small.
    lemma_product_within(dn, dn, 1_000_008, 1_000_008);
    assert(1_000_008 * 1_000_008 == 1_000_016_000_064int);
    lemma_product_within(dd, eps, 1_000_016_000_064, 8_000_000);
    assert(1_000_016_000_064 * 8_000_000 == 8_000_128_000_512_000_000int);
    lemma_product_within(dn, rho_d, 1_000_008, 999_999);
    assert(1_000_008 * 999_999 == 1_000_006_999_992int);
    lemma_product_within(rho_x, rho_x, 999_999, 999_999);
    lemma_product_within(rho_y, rho_y, 999_999, 999_999);
    lemma_product_within(rho_z, rho_z, 999_999, 999_999);
    assert(999_999 * 999_999 == 999_998_000_001int);
    lemma_product_within(d.x@, rho_x, 1_000_000, 999_999);
    lemma_product_within(d.y@, rho_y, 1_000_000, 999_999);
    lemma_product_within(d.z@, rho_z, 1_000_000, 999_999);
    lemma_product_within(n.x@, rho_x, 1_000_000, 999_999);
    lemma_product_within(n.y@, rho_y, 1_000_000, 999_999);
    lemma_product_within(n.z@, rho_z, 1_000_000, 999_999);
    assert(1_000_000 * 999_999 == 999_999_000_000int);
    assert(-2_999_997_000_000 <= nr <= 2_999_997_000_000);
    lemma_product_within(dn, nr, 1_000_008, 2_999_997_000_000);
    assert(1_000_008 * 2_999_997_000_000 == 3_000_020_999_976_000_000int);
    assert(-55_000_000_000_000_000_000 <= error <= 55_000_000_000_000_000_000);
    assert(-55 * s <= after - before <= 55 * s);
    // From the squared lengths to the lengths.
    lemma_dot_raw_self(r);
    lemma_dot_raw_self(d);
    lemma_norm_raw(r);
    lemma_norm_raw(d);
    let a = d.norm_raw();
    let b = r.norm_raw();
    assert((s - 5) * (s - 5) <= before);
    lemma_floor_root_at_least(before, a, s - 5);
    assert((s - 32) * (s - 32) <= after);
    lemma_floor_root_at_least(after, b, s - 32);
    lemma_roots_close(before, a, after, b);
    lemma_roots_close(after, b, before, a);
}

/// The integer square root of a number that is at least a square is at
/// least the root of that square.
proof fn lemma_floor_root_at_least(total: int, root: int, least: int)
    requires
        crate::scalar::is_isqrt(total, root),
        0 <= least,
        least * least <= total,
    ensures
        least <= root,
{
    if root < least {
        assert((root + 1) * (root + 1) <= least * least) by (nonlinear_arith)
            requires
                0 <= root,
                root + 1 <= least,
        ;
    }
}

/// Where two numbers differ by at most fifty-five millionths and their
/// integer square roots are near one, the second root exceeds the first by
/// at most twenty-eight.
proof fn lemma_roots_close(m: int, a: int, n: int, b: int)
    requires
        crate::scalar::is_isqrt(m, a),
        crate::scalar::is_isqrt(n, b),
        a >= 999_968,
        n - m <= 55_000_000,
    ensures
        b - a <= 28,
{
    if b >= a + 29 {
        assert(b * b >= (a + 29) * (a + 29)) by (nonlinear_arith)
            requires
                b >= a + 29,
                a >= 0,
        ;
        assert((a + 29) * (a + 29) == (a + 1) * (a + 1) + 56 * a + 840) by (nonlinear_arith);
    }
}

/// By how much a component of a refracted direction may differ from the
/// component of the incoming one where the indices on the two sides are
/// equal: less than seven thousandths. The square root that refraction takes
/// turns an error of millionths under the root into one of thousandths.
pub const STRAIGHT_SLACK: i64 = 6_858;

/// One component of the part of the refracted direction that lies across the
/// normal, squared and scaled: with `w` the rounded share `n c / s` that is
/// added to the component `u`, and `rho` the remainder of that division.
proof fn lemma_refract_square(u: int, n: int, w: int, rho: int, c: int)
    requires
        n * c == w * 1_000_000 + rho,
    ensures
        1_000_000_000_000 * ((u + w) * (u + w)) == 1_000_000_000_000 * (u * u) + (c * c) * (n * n)
            + rho * rho + 2_000_000 * (c * (u * n)) - 2_000_000 * (u * rho) - 2 * (c * (n * rho)),
{
    assert(1_000_000 * (u + w) == 1_000_000 * u + n * c - rho);
    assert(1_000_000_000_000 * ((u + w) * (u + w)) == (1_000_000 * (u + w)) * (1_000_000 * (u + w)))
        by (nonlinear_arith);
    let p = 1_000_000 * u;
    let q = n * c;
    assert((p + q - rho) * (p + q - rho) == p * p + q * q + rho * rho + 2 * (p * q) - 2 * (p * rho)
        - 2 * (q * rho)) by (nonlinear_arith);
    assert(p * p == 1_000_000_000_000 * (u * u)) by (nonlinear_arith)
        requires
            p == 1_000_000 * u,
    ;
    assert(q * q == (c * c) * (n * n)) by (nonlinear_arith)
        requires
            q == n * c,
    ;
    assert(p * q == 1_000_000 * (c * (u * n))) by (nonlinear_arith)
        requires
            p == 1_000_000 * u,
            q == n * c,
    ;
    assert(p * rho == 1_000_000 * (u * rho)) by (nonlinear_arith)
        requires
            p == 1_000_000 * u,
    ;
    assert(q * rho == c * (n * rho)) by (nonlinear_arith)
        requires
            q == n * c,
    ;
}

/// The integer square root of a number near a square is near the root of
/// that square.
proof fn lemma_root_near(total: int, root: int, c: int)
    requires
        crate::scalar::is_isqrt(total, root),
        c >= 0,
        -47_000_003 <= total - c * c <= 47_000_003,
    ensures
        -6_857 <= root - c <= 6_857,
{
    if root >= c + 6_858 {
        assert(root * root >= c * c + 6_858 * 6_858) by (nonlinear_arith)
            requires
                root >= c + 6_858,
                c >= 0,
        ;
    }
    if c >= root + 6_858 {
        assert(c * c >= (root + 1) * (root + 1) + 6_857 * 6_857) by (nonlinear_arith)
            requires
                c >= (root + 1) + 6_857,
                root >= 0,
        ;
    }
}

/// One component of the refracted direction: the rounded shares of a
/// component `n` of the normal at the cosine `c` and at the root `sigma`
/// differ by at most the difference of the two, and one.
proof fn lemma_shares_close(n: int, c: int, sigma: int)
    requires
        -1_000_000 <= n <= 1_000_000,
        -6_857 <= sigma - c <= 6_857,
    ensures
        -6_858 <= trunc_div(n * c, 1_000_000) - trunc_div(n * sigma, 1_000_000) <= 6_858,
{
    assert(n * c - n * sigma == n * (c - sigma)) by (nonlinear_arith);
    lemma_product_within(n, c - sigma, 1_000_000, 6_857);
    assert(6_857 * 1_000_000 == 1_000_000 * 6_857);
    lemma_trunc_div_close(n * c, n * sigma, 1_000_000, 6_857);
}

/// The cosine that refraction takes for a unit vector `u` that runs against
/// a unit normal `n`, in raw units: between zero and one, and the negated
/// exact dot product over the scale within nine.
proof fn lemma_refract_cosine(u: Vec3, n: Vec3)
    requires
        is_unit(u),
        is_unit(n),
        dot_raw(u, n) <= 0,
    ensures
        ({
            let c = u.negated().dot_spec(n).min_spec(Scalar { raw: SCALE })@;
            &&& 0 <= c <= 1_000_000
            &&& 0 <= -dot_raw(u, n) - c * 1_000_000 < 9_000_000
        }),
{
    let s = 1_000_000int;
    let along = dot_raw(u, n);
    lemma_dot_raw_self(u);
    lemma_dot_raw_self(n);
    lemma_cauchy_schwarz(u, n);
    let bound = 1_000_008_000_000int;
    assert(dot_raw(u, u) * dot_raw(n, n) <= bound * bound) by (nonlinear_arith)
        requires
            0 <= dot_raw(u, u) <= bound,
            0 <= dot_raw(n, n) <= bound,
    ;
    lemma_within(along, bound);
    let flipped = u.negated();
    assert(dot_raw(flipped, n) == -along) by (nonlinear_arith)
        requires
            flipped.x@ == -u.x@,
            flipped.y@ == -u.y@,
            flipped.z@ == -u.z@,
            along == u.x@ * n.x@ + u.y@ * n.y@ + u.z@ * n.z@,
            dot_raw(flipped, n) == flipped.x@ * n.x@ + flipped.y@ * n.y@ + flipped.z@ * n.z@,
    ;
    lemma_trunc_div(-along, s);
    lemma_trunc_div_multiple(1_000_008, s);
    lemma_trunc_div_monotone(-along, 1_000_008 * s, s);
}

/// The part of the refracted direction that lies across the normal, for a
/// unit vector `u` that runs against a unit normal `n`, where the indices
/// are equal: it is `u` plus the rounded shares of the normal at the cosine,
/// and one less its exact squared length is the squared cosine within
/// forty-six millionths.
proof fn lemma_refract_across(u: Vec3, n: Vec3)
    requires
        is_unit(u),
        is_unit(n),
        dot_raw(u, n) <= 0,
    ensures
        ({
            let cosine = u.negated().dot_spec(n).min_spec(Scalar { raw: SCALE });
            let perp = u.plus(n.scaled(cosine)).scaled(Scalar { raw: SCALE });
            &&& perp == u.plus(n.scaled(cosine))
            &&& perp.x@ == u.x@ + trunc_div(n.x@ * cosine@, 1_000_000)
            &&& perp.y@ == u.y@ + trunc_div(n.y@ * cosine@, 1_000_000)
            &&& perp.z@ == u.z@ + trunc_div(n.z@ * cosine@, 1_000_000)
            &&& 0 <= dot_raw(perp, perp) <= 27_000_288_000_768
            &&& -46_000_003 <= 1_000_000_000_000 - dot_raw(perp, perp) - cosine@ * cosine@
                <= 46_000_003
        }),
{
    let s = 1_000_000int;
    let one = Scalar { raw: SCALE };
    let along = dot_raw(u, n);
    lemma_refract_cosine(u, n);
    let cosine = u.negated().dot_spec(n).min_spec(one);
    let c = cosine@;
    let rho_c = -along - c * s;
    lemma_reflect_share(n.x@, c);
    lemma_reflect_share(n.y@, c);
    lemma_reflect_share(n.z@, c);
    let w = n.scaled(cosine);
    let rho_x = n.x@ * c - w.x@ * s;
    let rho_y = n.y@ * c - w.y@ * s;
    let rho_z = n.z@ * c - w.z@ * s;
    let sum = u.plus(w);
    lemma_trunc_div_multiple(sum.x@, s);
    lemma_trunc_div_multiple(sum.y@, s);
    lemma_trunc_div_multiple(sum.z@, s);
    let perp = sum.scaled(one);
    assert(perp == sum);
    let across = dot_raw(perp, perp);
    lemma_dot_raw_self(perp);
    lemma_product_within(perp.x@, perp.x@, 3_000_016, 3_000_016);
    lemma_product_within(perp.y@, perp.y@, 3_000_016, 3_000_016);
    lemma_product_within(perp.z@, perp.z@, 3_000_016, 3_000_016);
    assert(3_000_016 * 3_000_016 == 9_000_096_000_256int);
    lemma_refract_square(u.x@, n.x@, w.x@, rho_x, c);
    lemma_refract_square(u.y@, n.y@, w.y@, rho_y, c);
    lemma_refract_square(u.z@, n.z@, w.z@, rho_z, c);
    assert(across == (u.x@ + w.x@) * (u.x@ + w.x@) + (u.y@ + w.y@) * (u.y@ + w.y@) + (u.z@ + w.z@)
        * (u.z@ + w.z@));
    let before = dot_raw(u, u);
    let unit = dot_raw(n, n);
    let eps = unit - s * s;
    let cc = c * c;
    assert(cc * unit == cc * (n.x@ * n.x@) + cc * (n.y@ * n.y@) + cc * (n.z@ * n.z@))
        by (nonlinear_arith)
        requires
            unit == n.x@ * n.x@ + n.y@ * n.y@ + n.z@ * n.z@,
    ;
    assert(c * along == c * (u.x@ * n.x@) + c * (u.y@ * n.y@) + c * (u.z@ * n.z@))
        by (nonlinear_arith)
        requires
            along == u.x@ * n.x@ + u.y@ * n.y@ + u.z@ * n.z@,
    ;
    let ur = u.x@ * rho_x + u.y@ * rho_y + u.z@ * rho_z;
    let nr = n.x@ * rho_x + n.y@ * rho_y + n.z@ * rho_z;
    let rr = rho_x * rho_x + rho_y * rho_y + rho_z * rho_z;
    assert(c * nr == c * (n.x@ * rho_x) + c * (n.y@ * rho_y) + c * (n.z@ * rho_z))
        by (nonlinear_arith)
        requires
            nr == n.x@ * rho_x + n.y@ * rho_y + n.z@ * rho_z,
    ;
    assert(1_000_000_000_000 * across == 1_000_000_000_000 * before + cc * unit + rr + 2_000_000
        * (c * along) - 2_000_000 * ur - 2 * (c * nr));
    assert(cc * unit == cc * 1_000_000_000_000 + cc * eps) by (nonlinear_arith)
        requires
            unit == 1_000_000_000_000 + eps,
    ;
    assert(c * along == -(cc * 1_000_000) - c * rho_c) by (nonlinear_arith)
        requires
            along == -(c * 1_000_000) - rho_c,
            cc == c * c,
    ;
    let gap = 1_000_000_000_000 - across;
    let error = 1_000_000_000_000 * (1_000_000_000_000 - before) - cc * eps - rr + 2_000_000 * (c
        * rho_c) + 2_000_000 * ur + 2 * (c * nr);
    assert(1_000_000_000_000 * (gap - cc) == error);
    lemma_refract_error(u, n, c, rho_c, rho_x, rho_y, rho_z);
}

/// The error of the squared length of the part across the normal is small:
/// every term of it is a product of bounded numbers.
proof fn lemma_refract_error(
    u: Vec3,
    n: Vec3,
    c: int,
    rho_c: int,
    rho_x: int,
    rho_y: int,
    rho_z: int,
)
    requires
        is_unit(u),
        is_unit(n),
        0 <= c <= 1_000_000,
        0 <= rho_c < 9_000_000,
        -1_000_000 < rho_x < 1_000_000,
        -1_000_000 < rho_y < 1_000_000,
        -1_000_000 < rho_z < 1_000_000,
    ensures
        ({
            let eps = dot_raw(n, n) - 1_000_000_000_000;
            let ur = u.x@ * rho_x + u.y@ * rho_y + u.z@ * rho_z;
            let nr = n.x@ * rho_x + n.y@ * rho_y + n.z@ * rho_z;
            let rr = rho_x * rho_x + rho_y * rho_y + rho_z * rho_z;
            let error = 1_000_000_000_000 * (1_000_000_000_000 - dot_raw(u, u)) - (c * c) * eps
                - rr + 2_000_000 * (c * rho_c) + 2_000_000 * ur + 2 * (c * nr);
            -46_000_003_000_000_000_000 <= error <= 46_000_003_000_000_000_000
        }),
{
    let eps = dot_raw(n, n) - 1_000_000_000_000;
    let nr = n.x@ * rho_x + n.y@ * rho_y + n.z@ * rho_z;
    let cc = c * c;
    lemma_product_within(c, c, 1_000_000, 1_000_000);
    lemma_product_within(cc, eps, 1_000_000_000_000, 8_000_000);
    lemma_product_within(rho_x, rho_x, 999_999, 999_999);
    lemma_product_within(rho_y, rho_y, 999_999, 999_999);
    lemma_product_within(rho_z, rho_z, 999_999, 999_999);
    assert(999_999 * 999_999 == 999_998_000_001int);
    lemma_product_within(c, rho_c, 1_000_000, 9_000_000);
    lemma_product_within(u.x@, rho_x, 1_000_000, 999_999);
    lemma_product_within(u.y@, rho_y, 1_000_000, 999_999);
    lemma_product_within(u.z@, rho_z, 1_000_000, 999_999);
    lemma_product_within(n.x@, rho_x, 1_000_000, 999_999);
    lemma_product_within(n.y@, rho_y, 1_000_000, 999_999);
    lemma_product_within(n.z@, rho_z, 1_000_000, 999_999);
    assert(1_000_000 * 999_999 == 999_999_000_000int);
    assert(-2_999_997_000_000 <= nr <= 2_999_997_000_000);
    lemma_product_within(c, nr, 1_000_000, 2_999_997_000_000);
    assert(1_000_000 * 2_999_997_000_000 == 2_999_997_000_000_000_000int);
    assert(1_000_000_000_000 * 8_000_000 == 8_000_000_000_000_000_000int);
    assert(1_000_000 * 9_000_000 == 9_000_000_000_000int);
}

/// Where the indices on the two sides of a surface are equal, refraction
/// does not bend the light: the refracted direction of a unit vector that
/// runs against a unit normal is the vector itself, within
/// `STRAIGHT_SLACK` in each component.
pub proof fn lemma_refract_straight(u: Vec3, n: Vec3)
    requires
        is_unit(u),
        is_unit(n),
        dot_raw(u, n) <= 0,
    ensures
        ({
            let r = u.refract_spec(n, Scalar { raw: SCALE });
            &&& -STRAIGHT_SLACK <= r.x@ - u.x@ <= STRAIGHT_SLACK
            &&& -STRAIGHT_SLACK <= r.y@ - u.y@ <= STRAIGHT_SLACK
            &&& -STRAIGHT_SLACK <= r.z@ - u.z@ <= STRAIGHT_SLACK
        }),
{
    let s = 1_000_000int;
    let one = Scalar { raw: SCALE };
    lemma_refract_cosine(u, n);
    lemma_refract_across(u, n);
    let cosine = u.negated().dot_spec(n).min_spec(one);
    let c = cosine@;
    let perp = u.plus(n.scaled(cosine)).scaled(one);
    let across = dot_raw(perp, perp);
    let gap = 1_000_000_000_000 - across;
    // The square root of what is left.
    lemma_trunc_div(across, s);
    lemma_trunc_div_multiple(27_000_289, s);
    lemma_trunc_div_monotone(across, 27_000_289 * s, s);
    let rounded = perp.dot_spec(perp);
    assert(rounded@ == trunc_div(across, s));
    let left = one.minus(rounded);
    let rest = left.abs_spec();
    assert(left@ * s == gap + (across - rounded@ * s));
    assert(rest@ * s == if left@ < 0 {
        -(left@ * s)
    } else {
        left@ * s
    });
    lemma_square_sign(c);
    assert(-47_000_003 <= rest@ * s - c * c <= 47_000_003);
    crate::scalar::lemma_sqrt_fits(rest@);
    let sigma = rest.sqrt_spec()@;
    lemma_root_near(rest@ * s, sigma, c);
    // The part along the normal.
    let down = rest.sqrt_spec().negated();
    assert(down@ == -sigma);
    assert(n.x@ * (-sigma) == -(n.x@ * sigma)) by (nonlinear_arith);
    assert(n.y@ * (-sigma) == -(n.y@ * sigma)) by (nonlinear_arith);
    assert(n.z@ * (-sigma) == -(n.z@ * sigma)) by (nonlinear_arith);
    lemma_trunc_div_negated(n.x@ * sigma, s);
    lemma_trunc_div_negated(n.y@ * sigma, s);
    lemma_trunc_div_negated(n.z@ * sigma, s);
    lemma_shares_close(n.x@, c, sigma);
    lemma_shares_close(n.y@, c, sigma);
    lemma_shares_close(n.z@, c, sigma);
    lemma_share_bounded(n.x@, sigma);
    lemma_share_bounded(n.y@, sigma);
    lemma_share_bounded(n.z@, sigma);
}

/// The rounded share of a component of the normal at a root that is at most
/// one and seven thousandths is no larger than that in magnitude.
proof fn lemma_share_bounded(n: int, sigma: int)
    requires
        -1_000_000 <= n <= 1_000_000,
        0 <= sigma <= 1_006_857,
    ensures
        -1_006_857 <= trunc_div(n * sigma, 1_000_000) <= 1_006_857,
{
    let s = 1_000_000int;
    let top = 1_006_857int;
    lemma_product_within(n, sigma, s, top);
    assert(s * top == top * s);
    lemma_trunc_div_multiple(top, s);
    lemma_trunc_div_multiple(-top, s);
    lemma_trunc_div_monotone(n * sigma, top * s, s);
    lemma_trunc_div_monotone((-top) * s, n * sigma, s);
}

} // verus!
