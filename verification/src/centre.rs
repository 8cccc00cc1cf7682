//! Rays that run straight at the centre of a sphere.
//!
//! Such a ray meets the sphere at the distance of its origin from the
//! centre, less the radius and plus it. Where offset and radius are below
//! `REACH` the roots are exactly that. Where they are so large that the
//! quadratic is formed from reduced components, a root is off by a few
//! times the factor of the reduction, in millionths.

use crate::ray::Ray;
use crate::rounding::{lemma_isqrt_monotone, lemma_isqrt_square, lemma_trunc_div};
use crate::scalar::{is_isqrt, isqrt, lemma_isqrt_is, trunc_div, Scalar, SCALE};
use crate::sphere::{
    excess_factor, largest, lemma_bounded_root, lemma_div_one, lemma_excess_factor,
    lemma_near_is_in_reach, lemma_small_product, lemma_unit_components, lemma_unreduced,
    magnitude, settled, Place, Sphere, REACH,
};
use crate::unit::{lemma_lagrange, lemma_lagrange_of};
use crate::vec::{dot_raw, lemma_dot_raw_self, lemma_square_sign};
use vstd::arithmetic::div_mod::{
    lemma_div_pos_is_pos, lemma_fundamental_div_mod, lemma_fundamental_div_mod_converse,
    lemma_mod_bound,
};
use vstd::prelude::*;

verus! {

/// A quotient rounded down lies between two integers if the dividend lies
/// between their multiples.
pub proof fn lemma_quotient_between(x: int, d: int, lo: int, hi: int)
    requires
        d > 0,
        d * lo <= x,
        x < d * (hi + 1),
    ensures
        lo <= x / d <= hi,
{
    lemma_fundamental_div_mod(x, d);
    lemma_mod_bound(x, d);
    let q = x / d;
    if q < lo {
        assert(d * q + d <= d * lo) by (nonlinear_arith)
            requires
                d > 0,
                q + 1 <= lo,
        ;
    }
    if q > hi {
        assert(d * q >= d * (hi + 1)) by (nonlinear_arith)
            requires
                d > 0,
                q >= hi + 1,
        ;
    }
}

/// Along a line through the centre the distance of the origin, rounded
/// down, is the dot product of offset and unit direction over the scale.
proof fn lemma_distance_on_line(along: int, square: int)
    requires
        along >= 0,
        along * along == square * (SCALE * SCALE),
    ensures
        isqrt(square) == along / (SCALE as int),
        is_isqrt(square, along / (SCALE as int)),
{
    let scale = SCALE as int;
    let f = along / scale;
    let rest = along % scale;
    lemma_fundamental_div_mod(along, scale);
    lemma_mod_bound(along, scale);
    lemma_div_pos_is_pos(along, scale);
    assert(f * f <= square && square < (f + 1) * (f + 1)) by (nonlinear_arith)
        requires
            along == scale * f + rest,
            0 <= rest < scale,
            f >= 0,
            along * along == square * (scale * scale),
            scale > 0,
    ;
    lemma_isqrt_is(square, f);
}

/// Where offset and direction lie along one line, the direction times their
/// dot product is the offset times the squared length of the direction,
/// component by component.
proof fn lemma_along(ox: int, oy: int, oz: int, dx: int, dy: int, dz: int)
    requires
        ox * dy == oy * dx,
        ox * dz == oz * dx,
        oy * dz == oz * dy,
    ensures
        (ox * dx + oy * dy + oz * dz) * dx == (dx * dx + dy * dy + dz * dz) * ox,
        (ox * dx + oy * dy + oz * dz) * dy == (dx * dx + dy * dy + dz * dz) * oy,
        (ox * dx + oy * dy + oz * dz) * dz == (dx * dx + dy * dy + dz * dz) * oz,
{
    lemma_along_one(ox, oy, oz, dx, dy, dz);
    lemma_along_one(oy, ox, oz, dy, dx, dz);
    lemma_along_one(oz, ox, oy, dz, dx, dy);
}

/// The first component of that identity.
proof fn lemma_along_one(ox: int, oy: int, oz: int, dx: int, dy: int, dz: int)
    requires
        ox * dy == oy * dx,
        ox * dz == oz * dx,
    ensures
        (ox * dx + oy * dy + oz * dz) * dx == (dx * dx + dy * dy + dz * dz) * ox,
{
    assert((oy * dy) * dx == (dy * dy) * ox) by (nonlinear_arith)
        requires
            ox * dy == oy * dx,
    ;
    assert((oz * dz) * dx == (dz * dz) * ox) by (nonlinear_arith)
        requires
            ox * dz == oz * dx,
    ;
    assert((ox * dx) * dx == (dx * dx) * ox) by (nonlinear_arith);
    assert((ox * dx + oy * dy + oz * dz) * dx == (ox * dx) * dx + (oy * dy) * dx + (oz * dz)
        * dx) by (nonlinear_arith);
    assert((dx * dx + dy * dy + dz * dz) * ox == (dx * dx) * ox + (dy * dy) * ox + (dz * dz)
        * ox) by (nonlinear_arith);
}

/// What the reduction cuts off a component of the offset, times the
/// component of a direction that runs the other way: never positive, and
/// above the factor times the scale, negated. The part cut off is smaller
/// than the factor.
proof fn lemma_cut(o: int, d: int, along: int, square: int, g: int)
    requires
        g >= 1,
        along < 0,
        square > 0,
        along * d == square * o,
        -SCALE <= d <= SCALE,
    ensures
        ({
            let cut = o - g * trunc_div(o, g);
            &&& -(g * SCALE) <= cut * d <= 0
            &&& cut * cut <= g * g
        }),
{
    lemma_trunc_div(o, g);
    let t = trunc_div(o, g);
    let cut = o - g * t;
    assert(g * t == t * g) by (nonlinear_arith);
    if o > 0 {
        assert(d <= 0) by (nonlinear_arith)
            requires
                along * d == square * o,
                along < 0,
                square > 0,
                o > 0,
        ;
        assert(-(g * SCALE) <= cut * d <= 0) by (nonlinear_arith)
            requires
                0 <= cut < g,
                -SCALE <= d <= 0,
        ;
        assert(cut * cut <= g * g) by (nonlinear_arith)
            requires
                0 <= cut < g,
        ;
    } else if o < 0 {
        assert(d >= 0) by (nonlinear_arith)
            requires
                along * d == square * o,
                along < 0,
                square > 0,
                o < 0,
        ;
        assert(-(g * SCALE) <= cut * d <= 0) by (nonlinear_arith)
            requires
                -g < cut <= 0,
                0 <= d <= SCALE,
        ;
        assert(cut * cut <= g * g) by (nonlinear_arith)
            requires
                -g < cut <= 0,
        ;
    } else {
        assert(cut * d == 0) by (nonlinear_arith)
            requires
                cut == 0,
        ;
        assert(cut * cut <= g * g) by (nonlinear_arith)
            requires
                cut == 0,
        ;
    }
}

/// What the reduction cuts off a component, times a component of the
/// direction.
pub proof fn lemma_cut_product(o: int, t: int, d: int, g: int)
    ensures
        (o - g * t) * d == o * d - (t * d) * g,
{
    assert((o - g * t) * d == o * d - (g * t) * d) by (nonlinear_arith);
    assert((g * t) * d == (t * d) * g) by (nonlinear_arith);
}

/// The square of a determinant of reduced offset and direction, where the
/// determinant of the offset itself and the direction is zero: the factor
/// squared times it is the square of the determinant of the parts cut off.
proof fn lemma_cut_determinant(o1: int, o2: int, t1: int, t2: int, d1: int, d2: int, g: int)
    requires
        o1 * d2 == o2 * d1,
    ensures
        (g * g) * ((t1 * d2 - t2 * d1) * (t1 * d2 - t2 * d1)) == ((o1 - g * t1) * d2 - (o2 - g
            * t2) * d1) * ((o1 - g * t1) * d2 - (o2 - g * t2) * d1),
{
    let reduced = t1 * d2 - t2 * d1;
    let cut = (o1 - g * t1) * d2 - (o2 - g * t2) * d1;
    assert((o1 - g * t1) * d2 == o1 * d2 - g * (t1 * d2)) by (nonlinear_arith);
    assert((o2 - g * t2) * d1 == o2 * d1 - g * (t2 * d1)) by (nonlinear_arith);
    assert(g * reduced == g * (t1 * d2) - g * (t2 * d1)) by (nonlinear_arith)
        requires
            reduced == t1 * d2 - t2 * d1,
    ;
    assert(cut == -(g * reduced));
    assert(cut * cut == (g * g) * (reduced * reduced)) by (nonlinear_arith)
        requires
            cut == -(g * reduced),
    ;
}

/// The integer square root of a discriminant that lies at most three times
/// the scale squared under the square of the scale times `k`: between the
/// scale times `k - 2` and the scale times `k`.
proof fn lemma_spread_bounds(disc: int, k: int)
    requires
        k >= 0,
        disc <= (SCALE * SCALE) * (k * k),
        disc >= (SCALE * SCALE) * (k * k) - 3 * (SCALE * SCALE),
    ensures
        ({
            let s = if disc >= 0 {
                isqrt(disc)
            } else {
                0
            };
            SCALE * (k - 2) <= s <= SCALE * k
        }),
{
    let scale = SCALE as int;
    let high = scale * k;
    assert(high >= 0 && high * high == (scale * scale) * (k * k)) by (nonlinear_arith)
        requires
            high == scale * k,
            k >= 0,
            scale > 0,
    ;
    if disc >= 0 {
        lemma_isqrt_monotone(disc, high * high);
        lemma_isqrt_square(high);
        if k >= 2 {
            let low = scale * (k - 2);
            assert(low >= 0 && low * low <= (scale * scale) * (k * k) - 3 * (scale * scale))
                by (nonlinear_arith)
                requires
                    low == scale * (k - 2),
                    k >= 2,
                    scale > 0,
            ;
            lemma_isqrt_monotone(low * low, disc);
            lemma_isqrt_square(low);
        }
    } else {
        assert(k < 2) by (nonlinear_arith)
            requires
                (scale * scale) * (k * k) - 3 * (scale * scale) < 0,
                k >= 0,
                scale > 0,
        ;
    }
}

/// A ray that runs from outside a sphere straight at its centre meets the
/// sphere at the distance of its origin from the centre less the magnitude
/// of the radius, and again at that distance plus it; within an interval
/// that holds the first of these, that is where it hits. The distance is
/// the length of the offset, rounded down to millionths as every length is.
///
/// The law is stated for rays whose direction is exactly of unit length
/// and exactly opposite to the offset of the origin from the centre, with
/// offset and radius below `REACH` in every component.
pub proof fn lemma_ray_through_centre(sphere: Sphere, ray: Ray, t_min: Scalar, t_max: Scalar)
    requires
        largest(sphere.offset(ray), sphere.radius()) < REACH,
        dot_raw(ray.direction(), ray.direction()) == SCALE * SCALE,
        sphere.offset(ray).x@ * ray.direction().y@ == sphere.offset(ray).y@ * ray.direction().x@,
        sphere.offset(ray).x@ * ray.direction().z@ == sphere.offset(ray).z@ * ray.direction().x@,
        sphere.offset(ray).y@ * ray.direction().z@ == sphere.offset(ray).z@ * ray.direction().y@,
        dot_raw(sphere.offset(ray), ray.direction()) < 0,
        dot_raw(sphere.offset(ray), sphere.offset(ray)) > sphere.radius()@
            * sphere.radius()@,
    ensures
        sphere.near_root(ray)@ == sphere.offset(ray).norm_raw() - magnitude(sphere.radius()@),
        sphere.far_root(ray)@ == sphere.offset(ray).norm_raw() + magnitude(sphere.radius()@),
        t_min.raw <= sphere.near_root(ray).raw <= t_max.raw ==> (sphere.hit_model(
            ray,
            t_min,
            t_max,
        ) matches Some(rec) && rec.t@ == sphere.offset(ray).norm_raw() - magnitude(
            sphere.radius()@,
        )),
{
    reveal(Sphere::hit_model);
    lemma_near_is_in_reach(sphere, ray);
    let scale = SCALE as int;
    let oc = sphere.offset(ray);
    let d = ray.direction();
    let r = sphere.radius()@;
    let m = magnitude(r);
    let oo = dot_raw(oc, oc);
    let od = dot_raw(oc, d);
    lemma_dot_raw_self(d);
    lemma_dot_raw_self(oc);
    lemma_unit_components(d);
    lemma_unreduced(oc, sphere.radius(), d);
    let q = sphere.quadratic(ray);
    let unit = scale * scale;
    assert(unit > 0) by (nonlinear_arith)
        requires
            unit == scale * scale,
            scale > 0,
    ;
    // Offset and direction lie along one line: the square of their dot
    // product is the product of their squared lengths.
    lemma_lagrange(oc, d);
    assert(0int * 0int == 0);
    assert(od * od == oo * unit);
    // The discriminant is the square of the scale times the radius.
    let sm = scale * m;
    assert(q.discriminant() == sm * sm) by (nonlinear_arith)
        requires
            q.discriminant() == od * od - unit * (oo - r * r),
            od * od == oo * unit,
            unit == scale * scale,
            sm == scale * m,
            m == r || m == -r,
    ;
    assert(sm >= 0) by (nonlinear_arith)
        requires
            sm == scale * m,
            scale > 0,
            m >= 0,
    ;
    lemma_isqrt_square(sm);
    // The distance, rounded down, is the dot product over the scale.
    let far_off = (-od) / scale;
    lemma_fundamental_div_mod(-od, scale);
    lemma_mod_bound(-od, scale);
    let rest = (-od) % scale;
    assert((-od) * (-od) == od * od) by (nonlinear_arith);
    lemma_distance_on_line(-od, oo);
    assert(oc.norm_raw() == far_off);
    // The roots.
    lemma_root_on_line(-od, far_off, rest, -m);
    lemma_root_on_line(-od, far_off, rest, m);
    assert(-q.b - sm == -od + scale * (-m)) by (nonlinear_arith)
        requires
            q.b == od,
            sm == scale * m,
    ;
    assert(-q.b + sm == -od + scale * m);
    lemma_small_product(oc.x@, oc.x@);
    lemma_small_product(oc.y@, oc.y@);
    lemma_small_product(oc.z@, oc.z@);
    if far_off >= 2 * REACH {
        assert(far_off * far_off >= 0x4000_0000_0000_0000) by (nonlinear_arith)
            requires
                far_off >= 0x8000_0000,
        ;
    }
    // The line meets the sphere.
    lemma_square_sign(r);
    assert(od * od >= unit * (oo - r * r)) by (nonlinear_arith)
        requires
            od * od == oo * unit,
            unit > 0,
            r * r >= 0,
    ;
    // The origin is outside: the distance is at least the radius.
    lemma_square_sign(sm);
    assert(q.spread() == sm);
    assert(m * m == r * r) by (nonlinear_arith)
        requires
            m == r || m == -r,
    ;
    lemma_square_sign(m);
    lemma_isqrt_monotone(m * m, oo);
    lemma_isqrt_square(m);
    assert(far_off >= m);
    assert(q.near()@ == far_off - m);
    assert(q.far()@ == far_off + m);
}

/// The root of a ray on the line through the centre: with the numerator
/// `n + s k`, where `n` is `s f + rest`, the quotient by the scale squared
/// of the scale times the numerator is `f + k`.
proof fn lemma_root_on_line(n: int, f: int, rest: int, k: int)
    requires
        n == SCALE * f + rest,
        0 <= rest < SCALE,
    ensures
        (SCALE * (n + SCALE * k) * 1) / (SCALE * SCALE * 1) == f + k,
{
    let s = SCALE as int;
    let top = s * (n + s * k);
    assert(top == (f + k) * (s * s) + s * rest) by (nonlinear_arith)
        requires
            top == s * (n + s * k),
            n == s * f + rest,
    ;
    assert(0 <= s * rest < s * s) by (nonlinear_arith)
        requires
            0 <= rest < s,
            s > 0,
    ;
    lemma_fundamental_div_mod_converse(top, s * s, f + k, s * rest);
    assert(SCALE * (n + SCALE * k) * 1 == top);
    assert(SCALE * SCALE * 1 == s * s);
}

/// A ray that runs from outside a sphere straight at its centre, with a
/// direction of whatever length, meets the sphere at the distance of its
/// origin from the centre less the magnitude of the radius, over the length
/// of the direction, and again at that distance plus the magnitude of the
/// radius, over that length; within an interval that holds the first of
/// these, that is where it hits. Each quotient is formed from exact
/// integers: the product of the lengths of offset and direction, less or
/// plus the product of radius and length of the direction rounded down,
/// over the squared length of the direction, rounded down to millionths.
///
/// The law is stated for rays whose direction is exactly opposite to the
/// offset of the origin from the centre, with offset, radius and direction
/// below `REACH` in every component.
pub proof fn lemma_ray_toward_centre(sphere: Sphere, ray: Ray, t_min: Scalar, t_max: Scalar)
    requires
        largest(sphere.offset(ray), sphere.radius()) < REACH,
        largest(ray.direction(), Scalar { raw: 0 }) < REACH,
        sphere.offset(ray).x@ * ray.direction().y@ == sphere.offset(ray).y@ * ray.direction().x@,
        sphere.offset(ray).x@ * ray.direction().z@ == sphere.offset(ray).z@ * ray.direction().x@,
        sphere.offset(ray).y@ * ray.direction().z@ == sphere.offset(ray).z@ * ray.direction().y@,
        dot_raw(sphere.offset(ray), ray.direction()) < 0,
        dot_raw(sphere.offset(ray), sphere.offset(ray)) > sphere.radius()@ * sphere.radius()@,
    ensures
        ({
            let a = dot_raw(ray.direction(), ray.direction());
            let along = isqrt(a * dot_raw(sphere.offset(ray), sphere.offset(ray)));
            let across = isqrt(a * (sphere.radius()@ * sphere.radius()@));
            &&& a > 0
            &&& sphere.has_roots(ray)
            &&& sphere.near_root(ray) == Scalar::clip((SCALE * (along - across)) / a)
            &&& sphere.far_root(ray) == Scalar::clip((SCALE * (along + across)) / a)
            &&& t_min.raw <= sphere.near_root(ray).raw <= t_max.raw ==> (sphere.hit_model(
                ray,
                t_min,
                t_max,
            ) matches Some(rec) && rec.t == sphere.near_root(ray))
        }),
{
    reveal(Sphere::hit_model);
    lemma_near_is_in_reach(sphere, ray);
    let scale = SCALE as int;
    let oc = sphere.offset(ray);
    let d = ray.direction();
    let r = sphere.radius()@;
    let oo = dot_raw(oc, oc);
    let od = dot_raw(oc, d);
    let a = dot_raw(d, d);
    lemma_dot_raw_self(d);
    lemma_dot_raw_self(oc);
    lemma_unreduced(oc, sphere.radius(), d);
    let q = sphere.quadratic(ray);
    // Offset and direction lie along one line: the square of their dot
    // product is the product of their squared lengths.
    lemma_lagrange(oc, d);
    assert(0int * 0int == 0);
    assert(od * od == oo * a);
    assert(a > 0) by (nonlinear_arith)
        requires
            od * od == oo * a,
            od < 0,
            a >= 0,
    ;
    lemma_square_sign(r);
    let rr = r * r;
    assert(q.discriminant() == a * rr && a * rr >= 0 && a * rr <= a * oo && a * oo == (-od) * (-od))
        by (nonlinear_arith)
        requires
            q.discriminant() == od * od - a * (oo - rr),
            od * od == oo * a,
            a > 0,
            0 <= rr < oo,
    ;
    assert(sphere.has_roots(ray));
    lemma_isqrt_square(-od);
    lemma_isqrt_monotone(a * rr, a * oo);
    let along = isqrt(a * oo);
    let across = isqrt(a * rr);
    assert(along == -q.b);
    assert(across == q.spread());
    assert(scale * (-q.b - across) * 1 == scale * (along - across));
    assert(scale * (-q.b + across) * 1 == scale * (along + across));
    assert(a * 1 == a);
    assert(scale * (along - across) >= 0 && scale * (along + across) >= 0) by (nonlinear_arith)
        requires
            0 <= across <= along,
            scale > 0,
    ;
    lemma_div_pos_is_pos(scale * (along - across), a);
    lemma_div_pos_is_pos(scale * (along + across), a);
}

/// A root that lies ahead, clamped and put on its side of the origin, is as
/// close to a clamped target that is not negative as the quotient was to
/// the target.
pub proof fn lemma_settled_ahead(quotient: int, target: int, below: int, above: int)
    requires
        target >= 0,
        below >= 0,
        above >= 0,
        target - below <= quotient <= target + above,
    ensures
        ({
            let t = settled(Scalar::clip(quotient), Place::Ahead);
            Scalar::clip(target)@ - below <= t@ <= Scalar::clip(target)@ + above
        }),
{
}

/// A ray that runs from outside a sphere straight at its centre, from
/// however far and whatever the radius, meets the sphere near the distance
/// of its origin from the centre less the magnitude of the radius, and
/// again near that distance plus it. A root is off by at most three times
/// the factor by which offset and radius were reduced, in millionths, the
/// larger root by at most six times the factor and never too large; within
/// an interval that holds the smaller root, that is where the ray hits.
/// The distance is the length of the offset, rounded down to millionths,
/// and a sum or difference beyond the range of a scalar is clamped to it.
///
/// The law is stated for rays whose direction is exactly of unit length
/// and exactly opposite to the offset of the origin from the centre, with
/// the centre within reach of the origin.
pub proof fn lemma_ray_through_far_centre(sphere: Sphere, ray: Ray, t_min: Scalar, t_max: Scalar)
    requires
        sphere.within_reach(ray),
        dot_raw(ray.direction(), ray.direction()) == SCALE * SCALE,
        sphere.offset(ray).x@ * ray.direction().y@ == sphere.offset(ray).y@ * ray.direction().x@,
        sphere.offset(ray).x@ * ray.direction().z@ == sphere.offset(ray).z@ * ray.direction().x@,
        sphere.offset(ray).y@ * ray.direction().z@ == sphere.offset(ray).z@ * ray.direction().y@,
        dot_raw(sphere.offset(ray), ray.direction()) < 0,
        dot_raw(sphere.offset(ray), sphere.offset(ray)) > sphere.radius()@ * sphere.radius()@,
    ensures
        ({
            let grow = excess_factor(largest(sphere.offset(ray), sphere.radius()));
            let distance = sphere.offset(ray).norm_raw();
            let m = magnitude(sphere.radius()@);
            let near = Scalar::clip(distance - m)@;
            let far = Scalar::clip(distance + m)@;
            &&& sphere.has_roots(ray)
            &&& near - 3 * grow <= sphere.near_root(ray)@ <= near + 3 * grow
            &&& far - 6 * grow <= sphere.far_root(ray)@ <= far
            &&& t_min.raw <= sphere.near_root(ray).raw <= t_max.raw ==> (sphere.hit_model(
                ray,
                t_min,
                t_max,
            ) matches Some(rec) && rec.t == sphere.near_root(ray))
        }),
{
    reveal(Sphere::hit_model);
    let scale = SCALE as int;
    let unit = scale * scale;
    let oc = sphere.offset(ray);
    let d = ray.direction();
    let (ox, oy, oz) = (oc.x@, oc.y@, oc.z@);
    let (dx, dy, dz) = (d.x@, d.y@, d.z@);
    let r = sphere.radius()@;
    let m = magnitude(r);
    let oo = dot_raw(oc, oc);
    let od = dot_raw(oc, d);
    let g = excess_factor(largest(oc, sphere.radius()));
    lemma_excess_factor(largest(oc, sphere.radius()));
    assert(unit == 1_000_000_000_000) by (nonlinear_arith)
        requires
            unit == scale * scale,
            scale == 1_000_000,
    ;
    // The direction is of unit length: it is not reduced.
    lemma_dot_raw_self(d);
    lemma_dot_raw_self(oc);
    lemma_square_sign(dx);
    lemma_square_sign(dy);
    lemma_square_sign(dz);
    lemma_bounded_root(dx);
    lemma_bounded_root(dy);
    lemma_bounded_root(dz);
    lemma_unit_components(d);
    lemma_div_one(dx);
    lemma_div_one(dy);
    lemma_div_one(dz);
    let q = sphere.quadratic(ray);
    let (tx, ty, tz) = (trunc_div(ox, g), trunc_div(oy, g), trunc_div(oz, g));
    let tr = trunc_div(r, g);
    assert(q.shrink == 1);
    assert(q.grow == g);
    assert(q.a == unit);
    assert(q.b == tx * dx + ty * dy + tz * dz);
    assert(q.c == tx * tx + ty * ty + tz * tz - tr * tr);
    // Offset and direction lie along one line.
    lemma_lagrange_of(ox, oy, oz, dx, dy, dz);
    assert(0int * 0int == 0);
    assert(od * od == oo * unit);
    lemma_square_sign(r);
    assert(od * od >= unit * (oo - r * r)) by (nonlinear_arith)
        requires
            od * od == oo * unit,
            unit > 0,
            r * r >= 0,
    ;
    assert(sphere.has_roots(ray));
    assert((-od) * (-od) == od * od) by (nonlinear_arith);
    lemma_distance_on_line(-od, oo);
    let distance = (-od) / scale;
    lemma_fundamental_div_mod(-od, scale);
    lemma_mod_bound(-od, scale);
    let rest = (-od) % scale;
    assert(oc.norm_raw() == distance);
    // What the reduction cuts off.
    lemma_along(ox, oy, oz, dx, dy, dz);
    lemma_cut(ox, dx, od, unit, g);
    lemma_cut(oy, dy, od, unit, g);
    lemma_cut(oz, dz, od, unit, g);
    let (cx, cy, cz) = (ox - g * tx, oy - g * ty, oz - g * tz);
    let cut_along = cx * dx + cy * dy + cz * dz;
    lemma_cut_product(ox, tx, dx, g);
    lemma_cut_product(oy, ty, dy, g);
    lemma_cut_product(oz, tz, dz, g);
    assert(q.b * g == (tx * dx) * g + (ty * dy) * g + (tz * dz) * g) by (nonlinear_arith)
        requires
            q.b == tx * dx + ty * dy + tz * dz,
    ;
    assert(q.b * g == od - cut_along);
    assert(-(3 * (g * scale)) <= cut_along <= 0);
    // The discriminant of the reduced quadratic.
    lemma_lagrange_of(tx, ty, tz, dx, dy, dz);
    lemma_lagrange_of(cx, cy, cz, dx, dy, dz);
    lemma_cut_determinant(ox, oy, tx, ty, dx, dy, g);
    lemma_cut_determinant(ox, oz, tx, tz, dx, dz, g);
    lemma_cut_determinant(oy, oz, ty, tz, dy, dz, g);
    let across = (tx * dy - ty * dx) * (tx * dy - ty * dx) + (tx * dz - tz * dx) * (tx * dz - tz
        * dx) + (ty * dz - tz * dy) * (ty * dz - tz * dy);
    let cut_across = (cx * dy - cy * dx) * (cx * dy - cy * dx) + (cx * dz - cz * dx) * (cx * dz
        - cz * dx) + (cy * dz - cz * dy) * (cy * dz - cz * dy);
    let cut_square = cx * cx + cy * cy + cz * cz;
    assert((g * g) * across == cut_across) by (nonlinear_arith)
        requires
            (g * g) * ((tx * dy - ty * dx) * (tx * dy - ty * dx)) == (cx * dy - cy * dx) * (cx
                * dy - cy * dx),
            (g * g) * ((tx * dz - tz * dx) * (tx * dz - tz * dx)) == (cx * dz - cz * dx) * (cx
                * dz - cz * dx),
            (g * g) * ((ty * dz - tz * dy) * (ty * dz - tz * dy)) == (cy * dz - cz * dy) * (cy
                * dz - cz * dy),
            across == (tx * dy - ty * dx) * (tx * dy - ty * dx) + (tx * dz - tz * dx) * (tx * dz
                - tz * dx) + (ty * dz - tz * dy) * (ty * dz - tz * dy),
            cut_across == (cx * dy - cy * dx) * (cx * dy - cy * dx) + (cx * dz - cz * dx) * (cx
                * dz - cz * dx) + (cy * dz - cz * dy) * (cy * dz - cz * dy),
    ;
    lemma_square_sign(cut_along);
    assert(cut_across <= cut_square * unit);
    assert(cut_square * unit <= 3 * (g * g) * unit) by (nonlinear_arith)
        requires
            cut_square <= 3 * (g * g),
            unit > 0,
    ;
    lemma_square_sign(tx * dy - ty * dx);
    lemma_square_sign(tx * dz - tz * dx);
    lemma_square_sign(ty * dz - tz * dy);
    assert(0 <= across <= 3 * unit) by (nonlinear_arith)
        requires
            (g * g) * across <= 3 * (g * g) * unit,
            g >= 1,
            across >= 0,
    ;
    let k = magnitude(tr);
    assert(k * k == tr * tr) by (nonlinear_arith)
        requires
            k == tr || k == -tr,
    ;
    let tt = tx * tx + ty * ty + tz * tz;
    assert(q.discriminant() == unit * (k * k) - across) by (nonlinear_arith)
        requires
            q.discriminant() == q.b * q.b - unit * (tt - tr * tr),
            tt * unit - q.b * q.b == across,
            k * k == tr * tr,
    ;
    lemma_spread_bounds(q.discriminant(), k);
    let s = q.spread();
    // The reduced radius, taken back, is the radius but for the factor.
    lemma_trunc_div(r, g);
    assert(g * k == m - magnitude(r - tr * g)) by (nonlinear_arith)
        requires
            (r >= 0 && tr >= 0) || (r <= 0 && tr <= 0),
            k == magnitude(tr),
            m == magnitude(r),
            -g < r - tr * g < g,
            (r >= 0 ==> r - tr * g >= 0),
            (r <= 0 ==> r - tr * g <= 0),
    ;
    assert(m - g < g * k <= m);
    assert(scale * m - 3 * (g * scale) <= s * g <= scale * m) by (nonlinear_arith)
        requires
            scale * (k - 2) <= s <= scale * k,
            m - g < g * k <= m,
            g >= 1,
            scale > 0,
    ;
    // The roots.
    let low = distance - m - 3 * g;
    let near_top = scale * (-q.b - s) * g;
    assert(near_top == scale * (-(q.b * g) - s * g)) by (nonlinear_arith)
        requires
            near_top == scale * (-q.b - s) * g,
    ;
    assert(unit * low <= near_top && near_top < unit * (distance - m + 3 * g + 1))
        by (nonlinear_arith)
        requires
            near_top == scale * (-(q.b * g) - s * g),
            q.b * g == od - cut_along,
            -od == scale * distance + rest,
            0 <= rest < scale,
            -(3 * (g * scale)) <= cut_along <= 0,
            scale * m - 3 * (g * scale) <= s * g <= scale * m,
            unit == scale * scale,
            low == distance - m - 3 * g,
            scale > 0,
    ;
    assert(unit * 1 == unit);
    lemma_quotient_between(near_top, unit, low, distance - m + 3 * g);
    let far_top = scale * (-q.b + s) * g;
    assert(far_top == scale * (-(q.b * g) + s * g)) by (nonlinear_arith)
        requires
            far_top == scale * (-q.b + s) * g,
    ;
    assert(unit * (distance + m - 6 * g) <= far_top && far_top < unit * (distance + m + 1))
        by (nonlinear_arith)
        requires
            far_top == scale * (-(q.b * g) + s * g),
            q.b * g == od - cut_along,
            -od == scale * distance + rest,
            0 <= rest < scale,
            -(3 * (g * scale)) <= cut_along <= 0,
            scale * m - 3 * (g * scale) <= s * g <= scale * m,
            unit == scale * scale,
            scale > 0,
    ;
    lemma_quotient_between(far_top, unit, distance + m - 6 * g, distance + m);
    // The origin is outside: the distance is at least the radius.
    assert(m * m == r * r) by (nonlinear_arith)
        requires
            m == r || m == -r,
    ;
    lemma_square_sign(m);
    lemma_isqrt_monotone(m * m, oo);
    lemma_isqrt_square(m);
    assert(distance >= m);
    lemma_settled_ahead(near_top / unit, distance - m, 3 * g, 3 * g);
    lemma_settled_ahead(far_top / unit, distance + m, 6 * g, 0);
}

} // verus!
