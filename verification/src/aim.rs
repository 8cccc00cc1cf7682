//! Rays aimed at the centre of a sphere by a direction in millionths.
//!
//! A unit vector of scalars points where it is meant to point only to the
//! last digit, so the line of a ray aimed at a centre passes it by up to a
//! few millionths of the distance. The laws of this module say what holds
//! of such a ray: the direction that normalizing gives is aimed, and an
//! aimed ray hits where the distance less the radius says, within a slack
//! that grows with the distance, and with the factor by which large
//! offsets and radii are reduced.

use crate::centre::{lemma_cut_product, lemma_quotient_between, lemma_settled_ahead};
use crate::ray::Ray;
use crate::rounding::{lemma_isqrt_monotone, lemma_isqrt_square, lemma_trunc_div};
use crate::scalar::{is_isqrt, isqrt, trunc_div, Scalar, SCALE};
use crate::sphere::{
    excess_factor, largest, lemma_div_one, lemma_excess_factor, magnitude, Sphere,
};
use crate::unit::{is_unit, lemma_lagrange, lemma_lagrange_of, lemma_normalized_is_unit};
use crate::vec::{
    dot_raw, lemma_dot_raw_self, lemma_magnified, lemma_norm_raw, lemma_over_norm_bounds,
    lemma_square_sign, Vec3,
};
use vstd::arithmetic::div_mod::{lemma_fundamental_div_mod, lemma_mod_bound};
use vstd::prelude::*;

verus! {

/// The exact squared length of the cross product of two vectors.
pub open spec fn cross_square(a: Vec3, b: Vec3) -> int {
    let first = a.x@ * b.y@ - a.y@ * b.x@;
    let second = a.x@ * b.z@ - a.z@ * b.x@;
    let third = a.y@ * b.z@ - a.z@ * b.y@;
    first * first + second * second + third * third
}

/// Whether `direction` is aimed at the centre from a point at `offset` from
/// it, as well as a unit vector of scalars can be: it is of unit length, it
/// runs against the offset, and the line along it passes the centre within
/// the square root of three millionths of the distance.
pub open spec fn aimed(offset: Vec3, direction: Vec3) -> bool {
    &&& is_unit(direction)
    &&& dot_raw(offset, direction) < 0
    &&& cross_square(offset, direction) <= 3 * dot_raw(offset, offset)
}

/// A number that is not negative lies below a bound if its square lies
/// below the square of the bound.
proof fn lemma_root_below(x: int, bound: int)
    requires
        x >= 0,
        bound >= 0,
        x * x < bound * bound,
    ensures
        x < bound,
{
    if x >= bound {
        assert(x * x >= bound * bound) by (nonlinear_arith)
            requires
                x >= bound,
                bound >= 0,
        ;
    }
}

/// A number that is not negative is at least a bound if its square is at
/// least the square of the bound.
proof fn lemma_root_at_least(x: int, bound: int)
    requires
        x >= 0,
        bound >= 0,
        x * x >= bound * bound,
    ensures
        x >= bound,
{
    if x < bound {
        assert(x * x < bound * bound) by (nonlinear_arith)
            requires
                0 <= x < bound,
        ;
    }
}

/// How far an aimed direction runs against the offset: the dot product,
/// negated, is the distance times the scale to within five millionths of
/// it, and a scale more.
proof fn lemma_along_bounds(oo: int, a: int, b: int, x: int, n: int)
    requires
        is_isqrt(oo, n),
        999_992_000_000 <= a <= 1_000_008_000_000,
        b < 0,
        oo * a - b * b == x,
        0 <= x <= 3 * oo,
    ensures
        999_995 * n <= -b < 1_000_005 * (n + 1),
{
    let high = 1_000_005 * (n + 1);
    let low = 999_995 * n;
    let over = (n + 1) * (n + 1);
    assert(high * high == 1_000_010_000_025 * over) by (nonlinear_arith)
        requires
            high == 1_000_005 * (n + 1),
            over == (n + 1) * (n + 1),
    ;
    assert(oo * a <= oo * 1_000_008_000_000) by (nonlinear_arith)
        requires
            oo >= 0,
            a <= 1_000_008_000_000,
    ;
    assert((-b) * (-b) == b * b) by (nonlinear_arith);
    assert((-b) * (-b) < high * high);
    lemma_root_below(-b, high);
    assert(low * low == 999_990_000_025 * (n * n)) by (nonlinear_arith)
        requires
            low == 999_995 * n,
    ;
    assert(oo * a >= oo * 999_992_000_000) by (nonlinear_arith)
        requires
            oo >= 0,
            a >= 999_992_000_000,
    ;
    assert((-b) * (-b) >= low * low);
    lemma_root_at_least(-b, low);
}

/// The integer square root of the discriminant for an aimed ray: the
/// radius times the scale to within five millionths of it, less at most
/// the distance and one. The sphere must not be too small to be aimed at.
proof fn lemma_spread_aimed(oo: int, a: int, m: int, x: int, n: int, disc: int)
    requires
        is_isqrt(oo, n),
        999_992_000_000 <= a <= 1_000_008_000_000,
        m >= 0,
        0 <= x <= 3 * oo,
        disc == a * (m * m) - x,
        999_995 * m >= 2 * (n + 1),
    ensures
        disc >= 0,
        999_995 * m - (n + 1) <= isqrt(disc) <= 1_000_005 * m,
{
    let high = 1_000_005 * m;
    let reach = 999_995 * m;
    let w = n + 1;
    let low = reach - w;
    let mm = m * m;
    lemma_square_sign(m);
    assert(high * high == 1_000_010_000_025 * mm) by (nonlinear_arith)
        requires
            high == 1_000_005 * m,
            mm == m * m,
    ;
    assert(reach * reach == 999_990_000_025 * mm) by (nonlinear_arith)
        requires
            reach == 999_995 * m,
            mm == m * m,
    ;
    assert(999_992_000_000 * mm <= a * mm <= 1_000_008_000_000 * mm) by (nonlinear_arith)
        requires
            mm >= 0,
            999_992_000_000 <= a <= 1_000_008_000_000,
    ;
    assert(low * low == reach * reach - 2 * (reach * w) + w * w) by (nonlinear_arith)
        requires
            low == reach - w,
    ;
    assert(reach * w >= 2 * (w * w)) by (nonlinear_arith)
        requires
            reach >= 2 * w,
            w >= 0,
    ;
    assert(oo < w * w);
    assert(low * low <= disc);
    lemma_isqrt_monotone(low * low, disc);
    lemma_isqrt_square(low);
    assert(disc <= high * high);
    lemma_isqrt_monotone(disc, high * high);
    lemma_isqrt_square(high);
}

/// One determinant of offset and normalized direction, in terms of the
/// remainders that the division by the length leaves: with `k o = -v` and
/// `n d = s v - rest` in each component, `k n` times the determinant of
/// `o` and `d` is the determinant of `v` and the remainders.
proof fn lemma_aim_determinant(
    k: int,
    n: int,
    s: int,
    o1: int,
    o2: int,
    v1: int,
    v2: int,
    d1: int,
    d2: int,
    r1: int,
    r2: int,
)
    requires
        k * o1 == -v1,
        k * o2 == -v2,
        n * d1 == v1 * s - r1,
        n * d2 == v2 * s - r2,
    ensures
        ((k * n) * (k * n)) * ((o1 * d2 - o2 * d1) * (o1 * d2 - o2 * d1)) == (v1 * r2 - v2 * r1)
            * (v1 * r2 - v2 * r1),
{
    let kn = k * n;
    let det = o1 * d2 - o2 * d1;
    let cut = v1 * r2 - v2 * r1;
    assert(kn * (o1 * d2) == (k * o1) * (n * d2)) by (nonlinear_arith)
        requires
            kn == k * n,
    ;
    assert(kn * (o2 * d1) == (k * o2) * (n * d1)) by (nonlinear_arith)
        requires
            kn == k * n,
    ;
    assert((-v1) * (v2 * s - r2) == -(v1 * v2) * s + v1 * r2) by (nonlinear_arith);
    assert((-v2) * (v1 * s - r1) == -(v1 * v2) * s + v2 * r1) by (nonlinear_arith);
    assert(kn * det == kn * (o1 * d2) - kn * (o2 * d1)) by (nonlinear_arith)
        requires
            det == o1 * d2 - o2 * d1,
    ;
    assert(kn * det == cut);
    assert((kn * kn) * (det * det) == (kn * det) * (kn * det)) by (nonlinear_arith);
}

/// The square of a multiple.
proof fn lemma_scaled_square(k: int, o: int, v: int)
    requires
        k * o == -v,
    ensures
        v * v == (k * k) * (o * o),
{
    assert((k * o) * (k * o) == (k * k) * (o * o)) by (nonlinear_arith);
    assert((-v) * (-v) == v * v) by (nonlinear_arith);
}

/// A component of the offset and the matching component of the normalized
/// way to the centre are of opposite sign: their product is not positive,
/// and negative where the component of the direction is not zero.
proof fn lemma_aim_opposes(k: int, o: int, v: int, d: int, n: int, s: int)
    requires
        k > 0,
        n > 0,
        s > 0,
        k * o == -v,
        d == trunc_div(v * s, n),
    ensures
        o * d <= 0,
        d != 0 ==> o * d < 0,
{
    lemma_trunc_div(v * s, n);
    if v > 0 {
        assert(v * s > 0 && o < 0) by (nonlinear_arith)
            requires
                v > 0,
                s > 0,
                k > 0,
                k * o == -v,
        ;
        assert(o * d <= 0 && (d != 0 ==> o * d < 0)) by (nonlinear_arith)
            requires
                o < 0,
                d >= 0,
        ;
    } else if v < 0 {
        assert(v * s < 0 && o > 0) by (nonlinear_arith)
            requires
                v < 0,
                s > 0,
                k > 0,
                k * o == -v,
        ;
        assert(o * d <= 0 && (d != 0 ==> o * d < 0)) by (nonlinear_arith)
            requires
                o > 0,
                d <= 0,
        ;
    } else {
        assert(v * s == 0) by (nonlinear_arith)
            requires
                v == 0,
        ;
        assert(o == 0) by (nonlinear_arith)
            requires
                k > 0,
                k * o == 0,
        ;
        assert(o * d == 0) by (nonlinear_arith)
            requires
                o == 0,
        ;
    }
}

/// The direction that normalizing the way from a point to the centre gives
/// is aimed at the centre. `toward` is that way: the offset of the point
/// from the centre, negated.
pub proof fn lemma_normalized_is_aimed(offset: Vec3, toward: Vec3)
    requires
        toward.x@ == -offset.x@,
        toward.y@ == -offset.y@,
        toward.z@ == -offset.z@,
        !offset.is_zero_spec(),
    ensures
        aimed(offset, toward.normalized_spec()),
{
    let scale = SCALE as int;
    let v = toward.magnified();
    let d = toward.normalized_spec();
    let k: int = if toward.is_small_spec() {
        crate::vec::MAGNIFY as int
    } else {
        1
    };
    assert(!toward.is_zero_spec());
    lemma_magnified(toward);
    lemma_norm_raw(v);
    lemma_over_norm_bounds(v);
    lemma_normalized_is_unit(toward);
    let n = v.norm_raw();
    let (ox, oy, oz) = (offset.x@, offset.y@, offset.z@);
    let (vx, vy, vz) = (v.x@, v.y@, v.z@);
    let (dx, dy, dz) = (d.x@, d.y@, d.z@);
    assert(vx == k * toward.x@ && vy == k * toward.y@ && vz == k * toward.z@);
    assert(k * ox == -vx && k * oy == -vy && k * oz == -vz) by (nonlinear_arith)
        requires
            vx == k * (-ox),
            vy == k * (-oy),
            vz == k * (-oz),
    ;
    assert(dx == trunc_div(vx * scale, n));
    assert(dy == trunc_div(vy * scale, n));
    assert(dz == trunc_div(vz * scale, n));
    // The direction runs against the offset.
    lemma_aim_opposes(k, ox, vx, dx, n, scale);
    lemma_aim_opposes(k, oy, vy, dy, n, scale);
    lemma_aim_opposes(k, oz, vz, dz, n, scale);
    assert(dx != 0 || dy != 0 || dz != 0) by {
        if dx == 0 && dy == 0 && dz == 0 {
            assert(0int * 0int == 0);
        }
    }
    assert(dot_raw(offset, d) < 0);
    // The line along it passes the centre closely.
    lemma_trunc_div(vx * scale, n);
    lemma_trunc_div(vy * scale, n);
    lemma_trunc_div(vz * scale, n);
    let (rx, ry, rz) = (vx * scale - dx * n, vy * scale - dy * n, vz * scale - dz * n);
    assert(n * dx == dx * n && n * dy == dy * n && n * dz == dz * n) by (nonlinear_arith);
    lemma_aim_determinant(k, n, scale, ox, oy, vx, vy, dx, dy, rx, ry);
    lemma_aim_determinant(k, n, scale, ox, oz, vx, vz, dx, dz, rx, rz);
    lemma_aim_determinant(k, n, scale, oy, oz, vy, vz, dy, dz, ry, rz);
    lemma_lagrange_of(vx, vy, vz, rx, ry, rz);
    let kn = (k * n) * (k * n);
    let across = cross_square(offset, d);
    let cut = (vx * ry - vy * rx) * (vx * ry - vy * rx) + (vx * rz - vz * rx) * (vx * rz - vz * rx)
        + (vy * rz - vz * ry) * (vy * rz - vz * ry);
    let (c1, c2, c3) = (
        (ox * dy - oy * dx) * (ox * dy - oy * dx),
        (ox * dz - oz * dx) * (ox * dz - oz * dx),
        (oy * dz - oz * dy) * (oy * dz - oz * dy),
    );
    assert(kn * across == cut) by (nonlinear_arith)
        requires
            across == c1 + c2 + c3,
            cut == kn * c1 + kn * c2 + kn * c3,
    ;
    let vv = vx * vx + vy * vy + vz * vz;
    let rr = rx * rx + ry * ry + rz * rz;
    let oo = dot_raw(offset, offset);
    lemma_square_sign(vx * rx + vy * ry + vz * rz);
    assert(cut <= vv * rr);
    assert(rx * rx <= n * n && ry * ry <= n * n && rz * rz <= n * n) by (nonlinear_arith)
        requires
            -n < rx < n,
            -n < ry < n,
            -n < rz < n,
    ;
    lemma_scaled_square(k, ox, vx);
    lemma_scaled_square(k, oy, vy);
    lemma_scaled_square(k, oz, vz);
    assert(vv == (k * k) * oo) by (nonlinear_arith)
        requires
            vv == (k * k) * (ox * ox) + (k * k) * (oy * oy) + (k * k) * (oz * oz),
            oo == ox * ox + oy * oy + oz * oz,
    ;
    lemma_dot_raw_self(offset);
    lemma_square_sign(rx);
    lemma_square_sign(ry);
    lemma_square_sign(rz);
    assert(kn > 0) by (nonlinear_arith)
        requires
            kn == (k * n) * (k * n),
            k > 0,
            n > 0,
    ;
    assert(vv * rr <= kn * (3 * oo)) by (nonlinear_arith)
        requires
            vv == (k * k) * oo,
            oo >= 0,
            0 <= rr <= 3 * (n * n),
            kn == (k * n) * (k * n),
    ;
    assert(across <= 3 * oo) by (nonlinear_arith)
        requires
            kn * across <= kn * (3 * oo),
            kn > 0,
    ;
}

/// By how much the parameter at which an aimed ray hits may differ from
/// the distance less the radius where offset and radius were reduced by the
/// factor `grow`: twenty-one millionths for each whole unit of distance,
/// seven for each unit of the factor above one, and twenty-two.
pub open spec fn aim_slack(distance: int, grow: int) -> int {
    21 * (distance / (SCALE as int)) + 7 * (grow - 1) + 22
}

/// How small a sphere an aimed ray is sure to hit where offset and radius
/// were reduced by the factor `grow`: the magnitude of the radius less the
/// factor, times nearly a million, is at least four times the distance and
/// four million times the factor less one, and a little.
pub open spec fn within_aim(distance: int, radius: int, grow: int) -> bool {
    (SCALE - 5) * (magnitude(radius) - grow) >= 4 * (distance + 1) + 4 * ((grow - 1) * (SCALE
        + 5))
}

/// What the reduction cuts off a component of the offset, times a
/// component of a unit direction, is below the factor times the scale in
/// magnitude; the part cut off is smaller than the factor.
proof fn lemma_cut_within(o: int, d: int, g: int)
    requires
        g >= 1,
        -SCALE <= d <= SCALE,
    ensures
        ({
            let cut = o - g * trunc_div(o, g);
            &&& -((g - 1) * SCALE) <= cut * d <= (g - 1) * SCALE
            &&& cut * cut <= (g - 1) * (g - 1)
        }),
{
    lemma_trunc_div(o, g);
    let t = trunc_div(o, g);
    let cut = o - g * t;
    assert(g * t == t * g) by (nonlinear_arith);
    assert(-((g - 1) * SCALE) <= cut * d <= (g - 1) * SCALE) by (nonlinear_arith)
        requires
            -(g - 1) <= cut <= g - 1,
            -SCALE <= d <= SCALE,
    ;
    assert(cut * cut <= (g - 1) * (g - 1)) by (nonlinear_arith)
        requires
            -(g - 1) <= cut <= g - 1,
    ;
}

/// The square of a determinant of reduced offset and direction: the factor
/// squared times it is at most twice the square of the determinant of the
/// offset itself and the direction, and twice that of the parts cut off.
proof fn lemma_far_determinant(o1: int, o2: int, t1: int, t2: int, d1: int, d2: int, g: int)
    ensures
        (g * g) * ((t1 * d2 - t2 * d1) * (t1 * d2 - t2 * d1)) <= 2 * ((o1 * d2 - o2 * d1) * (o1
            * d2 - o2 * d1)) + 2 * (((o1 - g * t1) * d2 - (o2 - g * t2) * d1) * ((o1 - g * t1)
            * d2 - (o2 - g * t2) * d1)),
{
    let reduced = t1 * d2 - t2 * d1;
    let whole = o1 * d2 - o2 * d1;
    let cut = (o1 - g * t1) * d2 - (o2 - g * t2) * d1;
    assert((o1 - g * t1) * d2 == o1 * d2 - g * (t1 * d2)) by (nonlinear_arith);
    assert((o2 - g * t2) * d1 == o2 * d1 - g * (t2 * d1)) by (nonlinear_arith);
    assert(g * reduced == g * (t1 * d2) - g * (t2 * d1)) by (nonlinear_arith)
        requires
            reduced == t1 * d2 - t2 * d1,
    ;
    assert(g * reduced == whole - cut);
    assert((g * g) * (reduced * reduced) == (g * reduced) * (g * reduced)) by (nonlinear_arith);
    assert((whole - cut) * (whole - cut) <= 2 * (whole * whole) + 2 * (cut * cut))
        by (nonlinear_arith);
}

/// The integer square root of the discriminant of the reduced quadratic
/// for an aimed ray, taken back by the factor: the radius times the scale
/// to within five millionths of it, less what the reduction and the aim
/// may cost.
proof fn lemma_far_spread(a: int, k: int, g: int, m: int, oo: int, n: int, xr: int, disc: int)
    requires
        is_isqrt(oo, n),
        999_992_000_000 <= a <= 1_000_008_000_000,
        g >= 1,
        k >= 0,
        m - g < g * k <= m,
        xr >= 0,
        (g * g) * xr <= 6 * oo + 6 * (((g - 1) * (g - 1)) * a),
        disc == a * (k * k) - xr,
        999_995 * (m - g) >= 4 * (n + 1) + 4 * ((g - 1) * 1_000_005),
    ensures
        ({
            let s = if disc >= 0 {
                isqrt(disc)
            } else {
                0
            };
            999_995 * m - 999_996 * (g - 1) - (2 * (n + 1) + 2 * ((g - 1) * 1_000_005)) <= g * s
                <= 1_000_005 * m
        }),
{
    let whole = g * k;
    let reach = 999_995 * whole;
    let h = (g - 1) * 1_000_005;
    let w = 2 * (n + 1) + 2 * h;
    let low = reach - w;
    let kk = k * k;
    let ww = whole * whole;
    lemma_square_sign(k);
    assert(h >= 0) by (nonlinear_arith)
        requires
            h == (g - 1) * 1_000_005,
            g >= 1,
    ;
    assert(reach >= 999_995 * (m - g)) by (nonlinear_arith)
        requires
            reach == 999_995 * whole,
            whole > m - g,
    ;
    assert(ww == (g * g) * kk) by (nonlinear_arith)
        requires
            ww == (g * k) * (g * k),
            kk == k * k,
    ;
    assert(reach * reach == 999_990_000_025 * ww) by (nonlinear_arith)
        requires
            reach == 999_995 * whole,
            ww == whole * whole,
    ;
    lemma_square_sign(whole);
    assert(999_992_000_000 * ww <= a * ww) by (nonlinear_arith)
        requires
            ww >= 0,
            999_992_000_000 <= a,
    ;
    assert((g * g) * (a * kk) == a * ww) by (nonlinear_arith)
        requires
            ww == (g * g) * kk,
    ;
    assert((g * g) * disc == (g * g) * (a * kk) - (g * g) * xr) by (nonlinear_arith)
        requires
            disc == a * kk - xr,
    ;
    let gap = (g - 1) * (g - 1);
    lemma_square_sign(g - 1);
    assert(gap * a <= gap * 1_000_010_000_025) by (nonlinear_arith)
        requires
            gap >= 0,
            a <= 1_000_008_000_000,
    ;
    assert(h * h == gap * 1_000_010_000_025) by (nonlinear_arith)
        requires
            h == (g - 1) * 1_000_005,
            gap == (g - 1) * (g - 1),
    ;
    let over = (n + 1) * (n + 1);
    assert(oo < over);
    assert(w * w >= 4 * over + 4 * (h * h)) by (nonlinear_arith)
        requires
            w == 2 * (n + 1) + 2 * h,
            over == (n + 1) * (n + 1),
            n >= 0,
            h >= 0,
    ;
    assert(low * low == reach * reach - 2 * (reach * w) + w * w) by (nonlinear_arith)
        requires
            low == reach - w,
    ;
    assert(reach * w >= 2 * (w * w)) by (nonlinear_arith)
        requires
            reach >= 2 * w,
            w >= 0,
    ;
    assert(low * low <= (g * g) * disc);
    // The discriminant is not negative, and its root is at least the
    // bound over the factor.
    assert(disc >= 0) by (nonlinear_arith)
        requires
            low * low <= (g * g) * disc,
            low * low >= 0,
            g >= 1,
    ;
    let l = low / g;
    lemma_fundamental_div_mod(low, g);
    lemma_mod_bound(low, g);
    vstd::arithmetic::div_mod::lemma_div_pos_is_pos(low, g);
    assert(l * l <= disc) by (nonlinear_arith)
        requires
            0 <= g * l <= low,
            low * low <= (g * g) * disc,
            l >= 0,
            g >= 1,
    ;
    lemma_isqrt_monotone(l * l, disc);
    lemma_isqrt_square(l);
    let s = isqrt(disc);
    assert(g * s >= g * l) by (nonlinear_arith)
        requires
            s >= l,
            g >= 1,
    ;
    // And at most the radius times a little over the scale.
    let high = 1_000_005 * k;
    assert(high * high == 1_000_010_000_025 * kk) by (nonlinear_arith)
        requires
            high == 1_000_005 * k,
            kk == k * k,
    ;
    assert(a * kk <= 1_000_008_000_000 * kk) by (nonlinear_arith)
        requires
            kk >= 0,
            a <= 1_000_008_000_000,
    ;
    lemma_isqrt_monotone(disc, high * high);
    lemma_isqrt_square(high);
    assert(g * s <= 1_000_005 * whole) by (nonlinear_arith)
        requires
            s <= 1_000_005 * k,
            whole == g * k,
            g >= 1,
    ;
}

/// The root of an aimed ray where offset and radius were reduced: the
/// quotient is the distance less the radius within the slack.
proof fn lemma_far_quotient(a: int, x: int, top: int, n: int, m: int, g: int)
    requires
        999_992_000_000 <= a <= 1_000_008_000_000,
        0 <= m <= n,
        g >= 1,
        x == 1_000_000 * top,
        999_995 * n - 3_000_000 * (g - 1) - 1_000_005 * m <= top,
        top <= 1_000_005 * (n + 1) - 1 + 3_000_000 * (g - 1) - (999_995 * m - 999_996 * (g - 1)
            - (2 * (n + 1) + 2 * ((g - 1) * 1_000_005))),
    ensures
        n - m - aim_slack(n, g) <= x / (a * 1) <= n - m + aim_slack(n, g),
{
    let scale = SCALE as int;
    let q = n / scale;
    lemma_fundamental_div_mod(n, scale);
    lemma_mod_bound(n, scale);
    vstd::arithmetic::div_mod::lemma_div_pos_is_pos(n, scale);
    let slack = aim_slack(n, g);
    let target = n - m;
    let above = target + slack + 1;
    let below = target - slack;
    assert(a * above >= 999_992_000_000 * above) by (nonlinear_arith)
        requires
            a >= 999_992_000_000,
            above >= 0,
    ;
    if below >= 0 {
        assert(a * below <= 1_000_008_000_000 * below) by (nonlinear_arith)
            requires
                a <= 1_000_008_000_000,
                below >= 0,
        ;
    } else {
        assert(a * below <= 999_992_000_000 * below) by (nonlinear_arith)
            requires
                a >= 999_992_000_000,
                below < 0,
        ;
    }
    assert(a * 1 == a);
    lemma_quotient_between(x, a * 1, below, target + slack);
}

/// A ray aimed at the centre of a sphere from outside it, from however far
/// and whatever the radius, hits the sphere where the distance of its
/// origin from the centre less the magnitude of the radius says, within the
/// slack for that distance and for the factor by which offset and radius
/// were reduced: the line of the ray meets the sphere, the smaller root
/// lies within the slack of the distance less the radius, and within an
/// interval that holds the smaller root, that is where the ray hits. The
/// distance is the length of the offset, rounded down to millionths, and a
/// difference beyond the range of a scalar is clamped to it.
///
/// The law is stated for centres within reach of the origin and for
/// spheres that neither the direction in millionths nor the reduction can
/// miss.
pub proof fn lemma_aimed_ray_hits(
    sphere: Sphere,
    ray: Ray,
    t_min: Scalar,
    t_max: Scalar,
)
    requires
        sphere.within_reach(ray),
        aimed(sphere.offset(ray), ray.direction()),
        dot_raw(sphere.offset(ray), sphere.offset(ray)) > sphere.radius()@ * sphere.radius()@,
        within_aim(
            sphere.offset(ray).norm_raw(),
            sphere.radius()@,
            excess_factor(largest(sphere.offset(ray), sphere.radius())),
        ),
    ensures
        ({
            let grow = excess_factor(largest(sphere.offset(ray), sphere.radius()));
            let distance = sphere.offset(ray).norm_raw();
            let near = Scalar::clip(distance - magnitude(sphere.radius()@))@;
            &&& sphere.has_roots(ray)
            &&& near - aim_slack(distance, grow) <= sphere.near_root(ray)@ <= near + aim_slack(
                distance,
                grow,
            )
            &&& t_min.raw <= sphere.near_root(ray).raw <= t_max.raw ==> (sphere.hit_model(
                ray,
                t_min,
                t_max,
            ) matches Some(rec) && rec.t == sphere.near_root(ray))
        }),
{
    reveal(Sphere::hit_model);
    let scale = SCALE as int;
    let oc = sphere.offset(ray);
    let d = ray.direction();
    let (ox, oy, oz) = (oc.x@, oc.y@, oc.z@);
    let (dx, dy, dz) = (d.x@, d.y@, d.z@);
    let r = sphere.radius()@;
    let m = magnitude(r);
    let oo = dot_raw(oc, oc);
    let a = dot_raw(d, d);
    let b = dot_raw(oc, d);
    let x = cross_square(oc, d);
    let n = oc.norm_raw();
    let g = excess_factor(largest(oc, sphere.radius()));
    lemma_excess_factor(largest(oc, sphere.radius()));
    lemma_norm_raw(oc);
    lemma_dot_raw_self(oc);
    assert(!d.is_zero_spec()) by {
        if d.is_zero_spec() {
            assert(0int * 0int == 0);
        }
    }
    // The direction is of unit length: it is not reduced.
    lemma_div_one(dx);
    lemma_div_one(dy);
    lemma_div_one(dz);
    let q = sphere.quadratic(ray);
    let (tx, ty, tz) = (trunc_div(ox, g), trunc_div(oy, g), trunc_div(oz, g));
    let tr = trunc_div(r, g);
    assert(q.shrink == 1);
    assert(q.grow == g);
    assert(q.a == a);
    assert(q.b == tx * dx + ty * dy + tz * dz);
    assert(q.c == tx * tx + ty * ty + tz * tz - tr * tr);
    // How far the direction runs against the offset, and against the
    // reduced offset.
    lemma_lagrange(oc, d);
    lemma_square_sign(ox * dy - oy * dx);
    lemma_square_sign(ox * dz - oz * dx);
    lemma_square_sign(oy * dz - oz * dy);
    lemma_along_bounds(oo, a, b, x, n);
    lemma_cut_within(ox, dx, g);
    lemma_cut_within(oy, dy, g);
    lemma_cut_within(oz, dz, g);
    let (cx, cy, cz) = (ox - g * tx, oy - g * ty, oz - g * tz);
    let cut_along = cx * dx + cy * dy + cz * dz;
    lemma_cut_product(ox, tx, dx, g);
    lemma_cut_product(oy, ty, dy, g);
    lemma_cut_product(oz, tz, dz, g);
    assert(q.b * g == (tx * dx) * g + (ty * dy) * g + (tz * dz) * g) by (nonlinear_arith)
        requires
            q.b == tx * dx + ty * dy + tz * dz,
    ;
    assert(q.b * g == b - cut_along);
    assert((g - 1) * SCALE == 1_000_000 * (g - 1)) by (nonlinear_arith);
    assert(-(3_000_000 * (g - 1)) <= cut_along <= 3_000_000 * (g - 1));
    // The discriminant of the reduced quadratic.
    lemma_lagrange_of(tx, ty, tz, dx, dy, dz);
    lemma_lagrange_of(cx, cy, cz, dx, dy, dz);
    lemma_far_determinant(ox, oy, tx, ty, dx, dy, g);
    lemma_far_determinant(ox, oz, tx, tz, dx, dz, g);
    lemma_far_determinant(oy, oz, ty, tz, dy, dz, g);
    let (r1, r2, r3) = (
        (tx * dy - ty * dx) * (tx * dy - ty * dx),
        (tx * dz - tz * dx) * (tx * dz - tz * dx),
        (ty * dz - tz * dy) * (ty * dz - tz * dy),
    );
    let (e1, e2, e3) = (
        (cx * dy - cy * dx) * (cx * dy - cy * dx),
        (cx * dz - cz * dx) * (cx * dz - cz * dx),
        (cy * dz - cz * dy) * (cy * dz - cz * dy),
    );
    let across = r1 + r2 + r3;
    let cut_across = e1 + e2 + e3;
    let cut_square = cx * cx + cy * cy + cz * cz;
    let gap = (g - 1) * (g - 1);
    assert((g * g) * across == (g * g) * r1 + (g * g) * r2 + (g * g) * r3) by (nonlinear_arith)
        requires
            across == r1 + r2 + r3,
    ;
    assert((g * g) * across <= 2 * x + 2 * cut_across);
    lemma_square_sign(cut_along);
    assert(cut_across <= cut_square * a);
    assert(cut_square * a <= (3 * gap) * a) by (nonlinear_arith)
        requires
            cut_square <= 3 * gap,
            a >= 0,
    ;
    assert((3 * gap) * a == 3 * (gap * a)) by (nonlinear_arith);
    lemma_square_sign(tx * dy - ty * dx);
    lemma_square_sign(tx * dz - tz * dx);
    lemma_square_sign(ty * dz - tz * dy);
    let k = magnitude(tr);
    assert(k * k == tr * tr) by (nonlinear_arith)
        requires
            k == tr || k == -tr,
    ;
    let tt = tx * tx + ty * ty + tz * tz;
    assert(q.discriminant() == a * (k * k) - across) by (nonlinear_arith)
        requires
            q.discriminant() == q.b * q.b - a * (tt - tr * tr),
            tt * a - q.b * q.b == across,
            k * k == tr * tr,
    ;
    // The reduced radius, taken back, is the radius but for the factor.
    lemma_trunc_div(r, g);
    assert(g * k == m - magnitude(r - tr * g)) by (nonlinear_arith)
        requires
            (r >= 0 && tr >= 0) || (r <= 0 && tr <= 0),
            k == magnitude(tr),
            m == magnitude(r),
            -g < r - tr * g < g,
            (r >= 0 ==> r - tr * g >= 0),
            (r <= 0 ==> r - tr * g <= 0),
    ;
    assert((g - 1) * (SCALE + 5) == (g - 1) * 1_000_005);
    lemma_far_spread(a, k, g, m, oo, n, across, q.discriminant());
    let s = q.spread();
    // The line meets the sphere: the exact discriminant is not negative.
    assert(m * m == r * r) by (nonlinear_arith)
        requires
            m == r || m == -r,
    ;
    assert(999_995 * m >= 2 * (n + 1)) by (nonlinear_arith)
        requires
            999_995 * (m - g) >= 4 * (n + 1) + 4 * ((g - 1) * 1_000_005),
            g >= 1,
            n >= 0,
    ;
    lemma_spread_aimed(oo, a, m, x, n, a * (m * m) - x);
    assert(b * b - a * (oo - r * r) == a * (m * m) - x) by (nonlinear_arith)
        requires
            oo * a - b * b == x,
            m * m == r * r,
    ;
    assert(sphere.has_roots(ray));
    // The root.
    let top = -(q.b * g) - g * s;
    let whole = SCALE * (-q.b - s) * g;
    assert(whole == 1_000_000 * top) by (nonlinear_arith)
        requires
            whole == 1_000_000 * (-q.b - s) * g,
            top == -(q.b * g) - g * s,
    ;
    lemma_square_sign(m);
    lemma_isqrt_monotone(m * m, oo);
    lemma_isqrt_square(m);
    assert(n >= m);
    lemma_far_quotient(a, whole, top, n, m, g);
    lemma_fundamental_div_mod(n, scale);
    lemma_mod_bound(n, scale);
    vstd::arithmetic::div_mod::lemma_div_pos_is_pos(n, scale);
    lemma_settled_ahead(whole / (a * 1), n - m, aim_slack(n, g), aim_slack(n, g));
}

/// A ray from outside a sphere whose direction is the normalized way from
/// its origin to the centre, from however far, hits the sphere at the
/// distance of its origin from the centre less the magnitude of the radius,
/// within the slack for that distance and for the factor by which offset
/// and radius were reduced. `toward` is the way from the origin to the
/// centre: the offset of the origin from the centre, negated.
///
/// The law is stated for centres within reach of the origin and for
/// spheres that neither the direction in millionths nor the reduction can
/// miss.
pub proof fn lemma_ray_at_centre_hits(
    sphere: Sphere,
    ray: Ray,
    toward: Vec3,
    t_min: Scalar,
    t_max: Scalar,
)
    requires
        sphere.within_reach(ray),
        toward.x@ == -sphere.offset(ray).x@,
        toward.y@ == -sphere.offset(ray).y@,
        toward.z@ == -sphere.offset(ray).z@,
        ray.direction() == toward.normalized_spec(),
        dot_raw(sphere.offset(ray), sphere.offset(ray)) > sphere.radius()@ * sphere.radius()@,
        within_aim(
            sphere.offset(ray).norm_raw(),
            sphere.radius()@,
            excess_factor(largest(sphere.offset(ray), sphere.radius())),
        ),
    ensures
        ({
            let grow = excess_factor(largest(sphere.offset(ray), sphere.radius()));
            let distance = sphere.offset(ray).norm_raw();
            let near = Scalar::clip(distance - magnitude(sphere.radius()@))@;
            &&& sphere.has_roots(ray)
            &&& near - aim_slack(distance, grow) <= sphere.near_root(ray)@ <= near + aim_slack(
                distance,
                grow,
            )
            &&& t_min.raw <= sphere.near_root(ray).raw <= t_max.raw ==> (sphere.hit_model(
                ray,
                t_min,
                t_max,
            ) matches Some(rec) && rec.t == sphere.near_root(ray))
        }),
{
    let oc = sphere.offset(ray);
    lemma_square_sign(sphere.radius()@);
    assert(!oc.is_zero_spec()) by {
        if oc.is_zero_spec() {
            assert(0int * 0int == 0);
        }
    }
    lemma_normalized_is_aimed(oc, toward);
    lemma_aimed_ray_hits(sphere, ray, t_min, t_max);
}

} // verus!
