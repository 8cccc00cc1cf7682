//! Spheres, the one kind of surface.
//!
//! Where a ray meets a sphere is found from a quadratic in the ray
//! parameter. Its coefficients are formed as exact integers from the raw
//! components, so that neither a small radius nor a short direction is lost
//! to rounding. The square root of the discriminant is the integer square
//! root, and each root is a quotient rounded down to millionths. Components
//! of a thousand units and more are halved first until the coefficients
//! fit. Whether the line meets the sphere at all, and on which side of the
//! origin each root lies, is decided from the components as they are,
//! whatever their size.

use crate::hit::{lemma_facing_opposes, Hit, HitRecord};
use crate::material::Material;
use crate::ray::Ray;
use crate::rounding::lemma_trunc_div;
use crate::scalar::{
    clamp_wide, isqrt, isqrt_u128, lemma_isqrt_exists, trunc_div, Scalar, SCALE,
};
use crate::unit::{is_unit, lemma_negated_is_unit, lemma_normalized_is_unit};
use crate::vec::{dot_raw, lemma_normalized_bounds, lemma_square_sign, Point3, Vec3};
use crate::wide::product_at_least;
use core::ops::Neg;
use vstd::arithmetic::div_mod::{
    lemma_div_denominator, lemma_div_is_ordered, lemma_div_pos_is_pos,
    lemma_fundamental_div_mod, lemma_fundamental_div_mod_converse, lemma_mod_bound,
};
use vstd::prelude::*;

verus! {

/// Raw magnitude below which the quadratic is formed from the components as
/// they are: two to the thirtieth, a little over a thousand units. Larger
/// components are halved until they are below it.
pub const REACH: i64 = 1_073_741_824;

/// The magnitude of an integer.
pub open spec fn magnitude(x: int) -> int {
    if x < 0 {
        -x
    } else {
        x
    }
}

/// The larger of two integers.
pub open spec fn larger(a: int, b: int) -> int {
    if a >= b {
        a
    } else {
        b
    }
}

/// The largest magnitude among the raw components of a vector and one more
/// raw value.
pub open spec fn largest(v: Vec3, s: Scalar) -> int {
    larger(larger(magnitude(v.x@), magnitude(v.y@)), larger(magnitude(v.z@), magnitude(s@)))
}

/// The power of two by which a magnitude `m` has to be divided to come
/// below `REACH`: one for a magnitude that is below it already.
pub open spec fn excess_factor(m: int) -> int
    decreases m,
{
    if m < REACH {
        1
    } else {
        2 * excess_factor(m / 2)
    }
}

/// The factor is at least one and brings the magnitude below `REACH`, but
/// not below half of it unless the factor is one; for a magnitude that a raw
/// value can have it is at most two to the thirty-fourth.
pub proof fn lemma_excess_factor(m: int)
    requires
        m >= 0,
    ensures
        excess_factor(m) >= 1,
        m / excess_factor(m) < REACH,
        excess_factor(m) > 1 ==> m / excess_factor(m) >= REACH / 2,
        m <= 0x8000_0000_0000_0000 ==> excess_factor(m) <= 0x4_0000_0000,
    decreases m,
{
    if m >= REACH {
        lemma_excess_factor(m / 2);
        let f = excess_factor(m / 2);
        lemma_div_denominator(m, 2, f);
        assert(2 * f == f * 2) by (nonlinear_arith);
        lemma_div_denominator(m, f, 2);
        if f == 1 {
            assert(m / 2 < REACH);
        }
        if m <= 0x8000_0000_0000_0000 {
            assert(m / 2 <= 0x8000_0000_0000_0000);
            let g = 2 * f;
            lemma_fundamental_div_mod(m, g);
            lemma_mod_bound(m, g);
            assert(g * (m / g) <= m);
            assert(g <= 0x4_0000_0000) by (nonlinear_arith)
                requires
                    g * (m / g) <= m,
                    m / g >= 0x2000_0000,
                    m <= 0x8000_0000_0000_0000,
                    g >= 1,
            ;
        }
    }
}

/// The quadratic `a t^2 + 2 b t + c = 0` for the parameters at which a ray
/// meets a sphere, in exact integers. The offset from the centre and the
/// radius were divided by `grow`, the direction by `shrink`, before the
/// coefficients were formed.
pub struct Quadratic {
    pub a: int,
    pub b: int,
    pub c: int,
    pub grow: int,
    pub shrink: int,
}

/// The quadratic for the ray that starts at `offset` from the centre of a
/// sphere of the given radius and runs along `direction`: `a` is the squared
/// length of the direction, `b` the offset dotted with the direction, and `c`
/// the squared length of the offset less the squared radius, all of raw
/// components. Components of a magnitude of `REACH` or more are first
/// divided, rounding toward zero, by the power of two that brings the
/// largest of them below `REACH`: offset and radius by one power, the
/// direction by another.
pub open spec fn quadratic(offset: Vec3, radius: Scalar, direction: Vec3) -> Quadratic {
    let grow = excess_factor(largest(offset, radius));
    let shrink = excess_factor(largest(direction, Scalar { raw: 0 }));
    let ox = trunc_div(offset.x@, grow);
    let oy = trunc_div(offset.y@, grow);
    let oz = trunc_div(offset.z@, grow);
    let r = trunc_div(radius@, grow);
    let dx = trunc_div(direction.x@, shrink);
    let dy = trunc_div(direction.y@, shrink);
    let dz = trunc_div(direction.z@, shrink);
    Quadratic {
        a: dx * dx + dy * dy + dz * dz,
        b: ox * dx + oy * dy + oz * dz,
        c: ox * ox + oy * oy + oz * oz - r * r,
        grow,
        shrink,
    }
}

impl Quadratic {
    /// The quarter discriminant `b^2 - a c`.
    pub open spec fn discriminant(self) -> int {
        self.b * self.b - self.a * self.c
    }

    /// A root as a scalar: the numerator `n` of `n / a`, taken back to the
    /// size of the ray's own offset and direction, in millionths, rounded
    /// down and clamped.
    pub open spec fn scaled(self, n: int) -> Scalar {
        Scalar::clip((SCALE * n * self.grow) / (self.a * self.shrink))
    }

    /// The integer square root of the discriminant, or zero where the
    /// discriminant is negative.
    pub open spec fn spread(self) -> int {
        if self.discriminant() >= 0 {
            isqrt(self.discriminant())
        } else {
            0
        }
    }

    /// The smaller root `(-b - sqrt(b^2 - a c)) / a`, with the integer
    /// square root.
    pub open spec fn near(self) -> Scalar {
        self.scaled(-self.b - self.spread())
    }

    /// The larger root `(-b + sqrt(b^2 - a c)) / a`.
    pub open spec fn far(self) -> Scalar {
        self.scaled(-self.b + self.spread())
    }
}

/// Where on its line a ray meets a sphere: behind its origin, at it, or
/// ahead of it.
pub enum Place {
    Behind,
    Origin,
    Ahead,
}

/// The coefficient `b` of the quadratic from the components as they are,
/// however large: the offset dotted with the direction.
pub open spec fn exact_b(offset: Vec3, direction: Vec3) -> int {
    dot_raw(offset, direction)
}

/// The coefficient `c` of the quadratic from the components as they are,
/// however large: the squared length of the offset less the squared radius.
/// It is positive for an origin outside the sphere, negative for one inside.
pub open spec fn exact_c(offset: Vec3, radius: Scalar) -> int {
    dot_raw(offset, offset) - radius@ * radius@
}

/// Where the smaller root lies, by the signs of `b` and `c`. From outside
/// the sphere both roots lie behind a ray that does not run toward the
/// centre and ahead of one that does; from inside the smaller lies behind;
/// from a point of the surface it is the origin itself unless the ray runs
/// outward.
pub open spec fn near_place(b: int, c: int) -> Place {
    if c > 0 {
        if b >= 0 {
            Place::Behind
        } else {
            Place::Ahead
        }
    } else if c < 0 {
        Place::Behind
    } else if b > 0 {
        Place::Behind
    } else {
        Place::Origin
    }
}

/// Where the larger root lies, by the signs of `b` and `c`.
pub open spec fn far_place(b: int, c: int) -> Place {
    if c > 0 {
        if b >= 0 {
            Place::Behind
        } else {
            Place::Ahead
        }
    } else if c < 0 {
        Place::Ahead
    } else if b >= 0 {
        Place::Origin
    } else {
        Place::Ahead
    }
}

/// A root put where it lies: a root behind the origin is at most minus one
/// millionth, one at the origin is zero, and one ahead is at least zero.
/// Rounding can move a root by some millionths, but never across the origin.
pub open spec fn settled(t: Scalar, place: Place) -> Scalar {
    match place {
        Place::Behind => if t.raw < 0 {
            t
        } else {
            Scalar { raw: -1i64 }
        },
        Place::Origin => Scalar { raw: 0 },
        Place::Ahead => if t.raw >= 0 {
            t
        } else {
            Scalar { raw: 0 }
        },
    }
}

/// Whether the line of the ray meets the sphere at all: whether the
/// discriminant `b^2 - a c` of the quadratic is not negative, with the
/// coefficients from the components as they are, however large.
pub open spec fn has_roots(offset: Vec3, radius: Scalar, direction: Vec3) -> bool {
    exact_b(offset, direction) * exact_b(offset, direction) >= dot_raw(direction, direction)
        * exact_c(offset, radius)
}

/// The smaller of the two parameters at which the line of the ray meets the
/// sphere: the smaller root of the quadratic, put where the signs of the
/// exact coefficients say it lies.
pub open spec fn near_of(offset: Vec3, radius: Scalar, direction: Vec3) -> Scalar {
    settled(
        quadratic(offset, radius, direction).near(),
        near_place(exact_b(offset, direction), exact_c(offset, radius)),
    )
}

/// The larger of the two parameters at which the line of the ray meets the
/// sphere.
pub open spec fn far_of(offset: Vec3, radius: Scalar, direction: Vec3) -> Scalar {
    settled(
        quadratic(offset, radius, direction).far(),
        far_place(exact_b(offset, direction), exact_c(offset, radius)),
    )
}

/// The exact dot product of two vectors: its sign, as one, zero or minus
/// one, and its magnitude.
fn exact_dot(a: Vec3, b: Vec3) -> (r: (i32, u128))
    ensures
        -1 <= r.0 <= 1,
        r.0 > 0 <==> dot_raw(a, b) > 0,
        r.0 < 0 <==> dot_raw(a, b) < 0,
        r.1 == magnitude(dot_raw(a, b)),
{
    proof {
        crate::scalar::lemma_raw_product_bounds(a.x@, b.x@);
        crate::scalar::lemma_raw_product_bounds(a.y@, b.y@);
        crate::scalar::lemma_raw_product_bounds(a.z@, b.z@);
    }
    let px: i128 = (a.x.raw as i128) * (b.x.raw as i128);
    let py: i128 = (a.y.raw as i128) * (b.y.raw as i128);
    let pz: i128 = (a.z.raw as i128) * (b.z.raw as i128);
    let mut up: u128 = 0;
    let mut down: u128 = 0;
    if px >= 0 {
        up = up + (px as u128);
    } else {
        down = down + ((-px) as u128);
    }
    if py >= 0 {
        up = up + (py as u128);
    } else {
        down = down + ((-py) as u128);
    }
    if pz >= 0 {
        up = up + (pz as u128);
    } else {
        down = down + ((-pz) as u128);
    }
    assert(up - down == dot_raw(a, b));
    if up > down {
        (1, up - down)
    } else if up < down {
        (-1, down - up)
    } else {
        (0, 0)
    }
}

/// The exact coefficient `c`: its sign, one for an origin outside the
/// sphere, zero for one on it, minus one for one inside; and its magnitude.
fn exact_c_of(offset: Vec3, radius: Scalar) -> (r: (i32, u128))
    ensures
        -1 <= r.0 <= 1,
        r.0 > 0 <==> exact_c(offset, radius) > 0,
        r.0 < 0 <==> exact_c(offset, radius) < 0,
        r.1 == magnitude(exact_c(offset, radius)),
{
    proof {
        crate::scalar::lemma_raw_product_bounds(radius@, radius@);
        lemma_square_sign(radius@);
    }
    let along: u128 = offset.square_wide();
    let wide: i128 = (radius.raw as i128) * (radius.raw as i128);
    let across: u128 = wide as u128;
    if along > across {
        (1, along - across)
    } else if along < across {
        (-1, across - along)
    } else {
        (0, 0)
    }
}

/// Puts a root where it lies.
fn settle(t: Scalar, behind: bool, ahead: bool) -> (r: Scalar)
    requires
        !(behind && ahead),
    ensures
        r == settled(
            t,
            if behind {
                Place::Behind
            } else if ahead {
                Place::Ahead
            } else {
                Place::Origin
            },
        ),
{
    if behind {
        if t.raw < 0 {
            t
        } else {
            Scalar::new(-1)
        }
    } else if ahead {
        if t.raw >= 0 {
            t
        } else {
            Scalar::zero()
        }
    } else {
        Scalar::zero()
    }
}

/// The coefficients of a quadratic are bounded, its factors are positive, and
/// `a` is positive unless the direction is the zero vector.
pub proof fn lemma_quadratic(offset: Vec3, radius: Scalar, direction: Vec3)
    ensures
        ({
            let q = quadratic(offset, radius, direction);
            &&& 1 <= q.grow <= 0x4_0000_0000
            &&& 1 <= q.shrink <= 0x4_0000_0000
            &&& 0 <= q.a <= 0x3000_0000_0000_0000
            &&& -0x3000_0000_0000_0000 <= q.b <= 0x3000_0000_0000_0000
            &&& -0x1000_0000_0000_0000 <= q.c <= 0x3000_0000_0000_0000
            &&& q.a == 0 <==> direction.is_zero_spec()
        }),
{
    let zero = Scalar { raw: 0 };
    let mo = largest(offset, radius);
    let md = largest(direction, zero);
    lemma_excess_factor(mo);
    lemma_excess_factor(md);
    let grow = excess_factor(mo);
    let shrink = excess_factor(md);
    lemma_reduced(offset.x@, mo, grow);
    lemma_reduced(offset.y@, mo, grow);
    lemma_reduced(offset.z@, mo, grow);
    lemma_reduced(radius@, mo, grow);
    lemma_reduced(direction.x@, md, shrink);
    lemma_reduced(direction.y@, md, shrink);
    lemma_reduced(direction.z@, md, shrink);
    let ox = trunc_div(offset.x@, grow);
    let oy = trunc_div(offset.y@, grow);
    let oz = trunc_div(offset.z@, grow);
    let r = trunc_div(radius@, grow);
    let dx = trunc_div(direction.x@, shrink);
    let dy = trunc_div(direction.y@, shrink);
    let dz = trunc_div(direction.z@, shrink);
    lemma_small_product(dx, dx);
    lemma_small_product(dy, dy);
    lemma_small_product(dz, dz);
    lemma_small_product(ox, dx);
    lemma_small_product(oy, dy);
    lemma_small_product(oz, dz);
    lemma_small_product(ox, ox);
    lemma_small_product(oy, oy);
    lemma_small_product(oz, oz);
    lemma_small_product(r, r);
    lemma_square_sign(dx);
    lemma_square_sign(dy);
    lemma_square_sign(dz);
    lemma_square_sign(ox);
    lemma_square_sign(oy);
    lemma_square_sign(oz);
    lemma_square_sign(r);
    if !direction.is_zero_spec() {
        // The largest component of the direction is not divided away.
        if magnitude(direction.x@) == md {
            lemma_reduced_largest(direction.x@, shrink);
        } else if magnitude(direction.y@) == md {
            lemma_reduced_largest(direction.y@, shrink);
        } else {
            lemma_reduced_largest(direction.z@, shrink);
        }
    } else {
        lemma_trunc_div(0, shrink);
    }
}

/// A value divided by the factor of a magnitude that is at least its own
/// lies below `REACH` in magnitude.
proof fn lemma_reduced(x: int, m: int, f: int)
    requires
        magnitude(x) <= m,
        f >= 1,
        m / f < REACH,
    ensures
        -REACH < trunc_div(x, f) < REACH,
{
    lemma_trunc_div(x, f);
    if x >= 0 {
        lemma_div_is_ordered(x, m, f);
    } else {
        lemma_div_is_ordered(-x, m, f);
    }
}

/// The largest component is not zero after the division by its factor,
/// unless it was zero before.
proof fn lemma_reduced_largest(x: int, f: int)
    requires
        x != 0,
        f == excess_factor(magnitude(x)),
    ensures
        trunc_div(x, f) != 0,
{
    lemma_excess_factor(magnitude(x));
    if f == 1 {
        vstd::arithmetic::div_mod::lemma_div_basics(magnitude(x));
    }
}

/// The product of two values below `REACH` in magnitude is below its
/// square.
pub proof fn lemma_small_product(x: int, y: int)
    requires
        -REACH < x < REACH,
        -REACH < y < REACH,
    ensures
        -0x1000_0000_0000_0000 <= x * y <= 0x1000_0000_0000_0000,
{
    assert(-0x1000_0000_0000_0000 <= x * y <= 0x1000_0000_0000_0000) by (nonlinear_arith)
        requires
            -0x4000_0000 < x < 0x4000_0000,
            -0x4000_0000 < y < 0x4000_0000,
    ;
}

/// The magnitude of a raw value.
fn magnitude_of(x: i64) -> (m: u64)
    ensures
        m == magnitude(x as int),
{
    let wide: i128 = x as i128;
    if wide < 0 {
        (-wide) as u64
    } else {
        wide as u64
    }
}

/// The largest magnitude among the raw components of a vector and one more
/// raw value.
fn largest_of(v: Vec3, s: Scalar) -> (m: u64)
    ensures
        m == largest(v, s),
{
    let x = magnitude_of(v.x.raw);
    let y = magnitude_of(v.y.raw);
    let z = magnitude_of(v.z.raw);
    let w = magnitude_of(s.raw);
    let first = if x >= y {
        x
    } else {
        y
    };
    let second = if z >= w {
        z
    } else {
        w
    };
    if first >= second {
        first
    } else {
        second
    }
}

/// The factor that brings a magnitude below `REACH`.
fn factor_of(m: u64) -> (f: i128)
    requires
        m <= 0x8000_0000_0000_0000,
    ensures
        f == excess_factor(m as int),
        1 <= f <= 0x4_0000_0000,
        (m as int) / (f as int) < REACH,
{
    proof {
        lemma_excess_factor(m as int);
    }
    let mut f: i128 = 1;
    let mut v: u64 = m;
    while v >= 1_073_741_824
        invariant
            f >= 1,
            f * excess_factor(v as int) == excess_factor(m as int),
            excess_factor(m as int) <= 0x4_0000_0000,
        decreases v,
    {
        proof {
            lemma_excess_factor((v / 2) as int);
            let e = excess_factor((v / 2) as int);
            assert(f * (2 * e) == (2 * f) * e) by (nonlinear_arith);
            assert(2 * f <= (2 * f) * e) by (nonlinear_arith)
                requires
                    e >= 1,
                    f >= 1,
            ;
        }
        v = v / 2;
        f = 2 * f;
    }
    assert(f * 1 == f);
    f
}

/// The quotient of `n` by a positive `d`, rounded down.
fn floor_div(n: i128, d: i128) -> (q: i128)
    requires
        d > 0,
        -0x4000_0000_0000_0000_0000_0000_0000_0000 < n < 0x4000_0000_0000_0000_0000_0000_0000_0000,
        d < 0x4000_0000_0000_0000_0000_0000_0000_0000,
    ensures
        q == n / d,
{
    if n >= 0 {
        n / d
    } else {
        let up: i128 = ((-n) + (d - 1)) / d;
        proof {
            // -n = d k - r with 0 <= r < d, where k rounds -n / d up.
            let den = d as int;
            let m = -(n as int) + (den - 1);
            lemma_fundamental_div_mod(m, den);
            lemma_mod_bound(m, den);
            lemma_div_pos_is_pos(m, den);
            let k = m / den;
            let rest = (den - 1) - m % den;
            assert(den * k == k * den) by (nonlinear_arith);
            assert((-k) * den == -(k * den)) by (nonlinear_arith);
            assert(n == (-k) * den + rest);
            lemma_fundamental_div_mod_converse(n as int, den, -k, rest);
        }
        -up
    }
}

/// The two parameters at which the line of a ray meets a sphere, the
/// smaller first; nothing if it does not meet the sphere.
fn solve(offset: Vec3, radius: Scalar, direction: Vec3) -> (r: Option<(Scalar, Scalar)>)
    requires
        !direction.is_zero_spec(),
    ensures
        match r {
            None => !has_roots(offset, radius, direction),
            Some((near, far)) => has_roots(offset, radius, direction) && near == near_of(
                offset,
                radius,
                direction,
            ) && far == far_of(offset, radius, direction),
        },
{
    let ghost q = quadratic(offset, radius, direction);
    proof {
        lemma_quadratic(offset, radius, direction);
    }
    let grow = factor_of(largest_of(offset, radius));
    let shrink = factor_of(largest_of(direction, Scalar::zero()));
    let ox: i128 = (offset.x.raw as i128) / grow;
    let oy: i128 = (offset.y.raw as i128) / grow;
    let oz: i128 = (offset.z.raw as i128) / grow;
    let r: i128 = (radius.raw as i128) / grow;
    let dx: i128 = (direction.x.raw as i128) / shrink;
    let dy: i128 = (direction.y.raw as i128) / shrink;
    let dz: i128 = (direction.z.raw as i128) / shrink;
    proof {
        let mo = largest(offset, radius);
        let md = largest(direction, Scalar { raw: 0 });
        lemma_excess_factor(mo);
        lemma_excess_factor(md);
        lemma_reduced(offset.x@, mo, grow as int);
        lemma_reduced(offset.y@, mo, grow as int);
        lemma_reduced(offset.z@, mo, grow as int);
        lemma_reduced(radius@, mo, grow as int);
        lemma_reduced(direction.x@, md, shrink as int);
        lemma_reduced(direction.y@, md, shrink as int);
        lemma_reduced(direction.z@, md, shrink as int);
        lemma_small_product(dx as int, dx as int);
        lemma_small_product(dy as int, dy as int);
        lemma_small_product(dz as int, dz as int);
        lemma_small_product(ox as int, dx as int);
        lemma_small_product(oy as int, dy as int);
        lemma_small_product(oz as int, dz as int);
        lemma_small_product(ox as int, ox as int);
        lemma_small_product(oy as int, oy as int);
        lemma_small_product(oz as int, oz as int);
        lemma_small_product(r as int, r as int);
    }
    let a: i128 = dx * dx + dy * dy + dz * dz;
    let b: i128 = ox * dx + oy * dy + oz * dz;
    let c: i128 = ox * ox + oy * oy + oz * oz - r * r;
    assert(a == q.a && b == q.b && c == q.c);
    proof {
        lemma_wide_product(b as int, b as int);
        lemma_wide_product(a as int, c as int);
    }
    let discriminant: i128 = b * b - a * c;
    let (sign_b, size_b) = exact_dot(offset, direction);
    let (sign_c, size_c) = exact_c_of(offset, radius);
    proof {
        let eb = exact_b(offset, direction);
        assert(magnitude(eb) * magnitude(eb) == eb * eb) by (nonlinear_arith)
            requires
                magnitude(eb) == eb || magnitude(eb) == -eb,
        ;
        crate::vec::lemma_dot_raw_self(direction);
        lemma_square_sign(eb);
        if sign_c <= 0 {
            assert(dot_raw(direction, direction) * exact_c(offset, radius) <= 0)
                by (nonlinear_arith)
                requires
                    dot_raw(direction, direction) >= 0,
                    exact_c(offset, radius) <= 0,
            ;
        }
    }
    if sign_c > 0 && !product_at_least(size_b, size_b, direction.square_wide(), size_c) {
        return None;
    }
    let root: i128 = if discriminant >= 0 {
        isqrt_u128(discriminant as u128) as i128
    } else {
        0
    };
    let low: i128 = -b - root;
    let high: i128 = -b + root;
    proof {
        lemma_numerator(low as int, grow as int);
        lemma_numerator(high as int, grow as int);
        assert(0 < a * shrink <= 0x3000_0000_0000_0000 * 0x4_0000_0000) by (nonlinear_arith)
            requires
                0 < a <= 0x3000_0000_0000_0000,
                1 <= shrink <= 0x4_0000_0000,
        ;
    }
    let scale: i128 = SCALE as i128;
    let below: i128 = a * shrink;
    let near = Scalar { raw: clamp_wide(floor_div(scale * low * grow, below)) };
    let far = Scalar { raw: clamp_wide(floor_div(scale * high * grow, below)) };
    let near_behind = sign_c < 0 || (sign_c > 0 && sign_b >= 0) || (sign_c == 0 && sign_b > 0);
    let near_ahead = sign_c > 0 && sign_b < 0;
    let far_behind = sign_c > 0 && sign_b >= 0;
    let far_ahead = sign_c < 0 || (sign_c > 0 && sign_b < 0) || (sign_c == 0 && sign_b < 0);
    Some((settle(near, near_behind, near_ahead), settle(far, far_behind, far_ahead)))
}

/// The product of two coefficients fits a wide integer with room to spare.
proof fn lemma_wide_product(x: int, y: int)
    requires
        -0x3000_0000_0000_0000 <= x <= 0x3000_0000_0000_0000,
        -0x3000_0000_0000_0000 <= y <= 0x3000_0000_0000_0000,
    ensures
        -0x0900_0000_0000_0000_0000_0000_0000_0000 <= x * y
            <= 0x0900_0000_0000_0000_0000_0000_0000_0000,
{
    assert(-0x0900_0000_0000_0000_0000_0000_0000_0000 <= x * y
        <= 0x0900_0000_0000_0000_0000_0000_0000_0000) by (nonlinear_arith)
        requires
            -0x3000_0000_0000_0000 <= x <= 0x3000_0000_0000_0000,
            -0x3000_0000_0000_0000 <= y <= 0x3000_0000_0000_0000,
    ;
}

/// The numerator of a root, in millionths and taken back to the size of the
/// offset, fits a wide integer.
proof fn lemma_numerator(n: int, grow: int)
    requires
        -0x2_0000_0000_0000_0000 <= n <= 0x2_0000_0000_0000_0000,
        1 <= grow <= 0x4_0000_0000,
    ensures
        -0x0100_0000_0000_0000_0000_0000_0000_0000 < SCALE * n * grow
            < 0x0100_0000_0000_0000_0000_0000_0000_0000,
        -0x0020_0000_0000_0000_0000_0000 < SCALE * n < 0x0020_0000_0000_0000_0000_0000,
{
    let s = SCALE * n;
    assert(-0x0020_0000_0000_0000_0000_0000 < s < 0x0020_0000_0000_0000_0000_0000);
    assert(-0x0100_0000_0000_0000_0000_0000_0000_0000 < s * grow
        < 0x0100_0000_0000_0000_0000_0000_0000_0000) by (nonlinear_arith)
        requires
            -0x0020_0000_0000_0000_0000_0000 < s < 0x0020_0000_0000_0000_0000_0000,
            1 <= grow <= 0x4_0000_0000,
    ;
}

/// Whether a centre is within reach of an origin: whether the difference
/// of the two is a vector of scalars, none of its components clamped. A
/// sphere about a centre out of reach is taken to be missed, since where it
/// lies as seen from the origin cannot be told.
pub open spec fn within_reach(origin: Point3, center: Point3) -> bool {
    &&& i64::MIN <= origin.x@ - center.x@ <= i64::MAX
    &&& i64::MIN <= origin.y@ - center.y@ <= i64::MAX
    &&& i64::MIN <= origin.z@ - center.z@ <= i64::MAX
}

/// Whether the difference of two scalars is a scalar.
fn fits(a: Scalar, b: Scalar) -> (r: bool)
    ensures
        r == (i64::MIN <= a@ - b@ <= i64::MAX),
{
    let apart: i128 = (a.raw as i128) - (b.raw as i128);
    -0x8000_0000_0000_0000 <= apart && apart <= 0x7fff_ffff_ffff_ffff
}

/// Whether a centre is within reach of an origin.
fn reaches(origin: Point3, center: Point3) -> (r: bool)
    ensures
        r == within_reach(origin, center),
{
    fits(origin.x, center.x) && fits(origin.y, center.y) && fits(origin.z, center.z)
}

/// The parameter at which the line of `ray` first meets the sphere about
/// `center` with the given radius: the smaller root of the quadratic; minus
/// one if the line misses the sphere or the centre is out of reach.
pub open spec fn hit_sphere_spec(center: Point3, radius: Scalar, ray: Ray) -> Scalar {
    if within_reach(ray.origin(), center) && has_roots(
        ray.origin().minus(center),
        radius,
        ray.direction(),
    ) {
        near_of(ray.origin().minus(center), radius, ray.direction())
    } else {
        (Scalar { raw: SCALE }).negated()
    }
}

/// The parameter at which the line of `ray` first meets a sphere, which may
/// be negative, or minus one if the line misses the sphere or the centre is
/// out of reach of the ray's origin. The ray must have a direction.
pub fn hit_sphere(center: Point3, radius: Scalar, ray: &Ray) -> (t: Scalar)
    requires
        !ray.direction().is_zero_spec(),
    ensures
        t == hit_sphere_spec(center, radius, *ray),
{
    if !reaches(ray.origin(), center) {
        return Scalar::new(-1_000_000);
    }
    match solve(ray.origin() - center, radius, ray.direction()) {
        Some((near, _)) => near,
        None => Scalar::new(-1_000_000),
    }
}

/// A sphere. A negative radius gives the same surface with its normal
/// pointing inward.
#[derive(Clone, Copy, Debug, PartialEq, Eq, Structural)]
pub struct Sphere {
    center: Point3,
    radius: Scalar,
    mat: Material,
}

impl Sphere {
    /// The centre, for contracts.
    pub closed spec fn center(self) -> Point3 {
        self.center
    }

    /// The radius, for contracts.
    pub closed spec fn radius(self) -> Scalar {
        self.radius
    }

    /// The material, for contracts.
    pub closed spec fn material(self) -> Material {
        self.mat
    }

    /// The sphere about `cen` with radius `r`, made of `mat`.
    pub fn new(cen: Point3, r: Scalar, mat: Material) -> (s: Sphere)
        ensures
            s.center() == cen,
            s.radius() == r,
            s.material() == mat,
    {
        Sphere { center: cen, radius: r, mat }
    }

    /// The vector from the centre to the ray's origin.
    pub open spec fn offset(self, ray: Ray) -> Vec3 {
        ray.origin().minus(self.center())
    }

    /// Whether the centre is within reach of the ray's origin.
    pub open spec fn within_reach(self, ray: Ray) -> bool {
        within_reach(ray.origin(), self.center())
    }

    /// The squared distance of the ray's origin from the centre, of the raw
    /// coordinates as they are, however far apart.
    pub open spec fn distance_squared(self, ray: Ray) -> int {
        let x = ray.origin().x@ - self.center().x@;
        let y = ray.origin().y@ - self.center().y@;
        let z = ray.origin().z@ - self.center().z@;
        x * x + y * y + z * z
    }

    /// The way from the centre to the ray's origin dotted with the
    /// direction, of the raw coordinates as they are: negative for a ray
    /// that runs toward the centre.
    pub open spec fn departure(self, ray: Ray) -> int {
        let x = ray.origin().x@ - self.center().x@;
        let y = ray.origin().y@ - self.center().y@;
        let z = ray.origin().z@ - self.center().z@;
        x * ray.direction().x@ + y * ray.direction().y@ + z * ray.direction().z@
    }

    /// The quadratic for the parameters at which the ray meets the sphere.
    pub open spec fn quadratic(self, ray: Ray) -> Quadratic {
        quadratic(self.offset(ray), self.radius(), ray.direction())
    }

    /// Whether the line of the ray meets the sphere at all, its centre
    /// within reach.
    pub open spec fn has_roots(self, ray: Ray) -> bool {
        self.within_reach(ray) && has_roots(self.offset(ray), self.radius(), ray.direction())
    }

    /// The smaller of the two parameters at which the line of the ray meets
    /// the sphere.
    pub open spec fn near_root(self, ray: Ray) -> Scalar {
        near_of(self.offset(ray), self.radius(), ray.direction())
    }

    /// The larger of the two parameters at which the line of the ray meets
    /// the sphere.
    pub open spec fn far_root(self, ray: Ray) -> Scalar {
        far_of(self.offset(ray), self.radius(), ray.direction())
    }

    /// The parameter at which the ray is taken to hit: the smaller root if it
    /// lies in `[t_min, t_max]`, else the larger if that one does. There is
    /// none if the ray has no direction, if the centre is out of reach or
    /// if the line of the ray misses the sphere.
    pub open spec fn root(self, ray: Ray, t_min: Scalar, t_max: Scalar) -> Option<Scalar> {
        if ray.direction().is_zero_spec() || !self.has_roots(ray) {
            None
        } else if t_min.raw <= self.near_root(ray).raw <= t_max.raw {
            Some(self.near_root(ray))
        } else if t_min.raw <= self.far_root(ray).raw <= t_max.raw {
            Some(self.far_root(ray))
        } else {
            None
        }
    }

    /// The surface's own unit normal where the ray meets the sphere at the
    /// point `p`: from the centre to `p` for a positive radius, the other
    /// way for a negative one. Where `p` falls on the centre itself, as it
    /// can on a sphere of a few millionths, the reversed direction of the
    /// ray stands for the way from the centre to `p`.
    pub open spec fn outward(self, ray: Ray, p: Point3) -> Vec3 {
        let from_center = p.minus(self.center());
        let unit = if from_center.is_zero_spec() {
            ray.direction().negated().normalized_spec()
        } else {
            from_center.normalized_spec()
        };
        if self.radius().raw < 0 {
            unit.negated()
        } else {
            unit
        }
    }

    /// The record of the ray hitting at parameter `t`.
    pub open spec fn record_at(self, ray: Ray, t: Scalar) -> HitRecord {
        let p = ray.at_spec(t);
        HitRecord::facing(ray, p, t, self.outward(ray, p), self.material())
    }

    /// The hit of `ray` on the sphere with parameter in `[t_min, t_max]`:
    /// the record at the root that is taken, if there is one.
    #[verifier::opaque]
    pub open spec fn hit_model(self, ray: Ray, t_min: Scalar, t_max: Scalar) -> Option<
        HitRecord,
    > {
        match self.root(ray, t_min, t_max) {
            Some(t) => Some(self.record_at(ray, t)),
            None => None,
        }
    }
}

/// A sphere is hit exactly where the line of the ray meets it within the
/// interval: by every ray that has a direction, whose line meets the sphere,
/// and of whose two parameters there one lies in `[t_min, t_max]`.
pub proof fn lemma_hit_iff_root(sphere: Sphere, ray: Ray, t_min: Scalar, t_max: Scalar)
    ensures
        sphere.hit_model(ray, t_min, t_max) is Some <==> {
            &&& !ray.direction().is_zero_spec()
            &&& sphere.has_roots(ray)
            &&& (t_min.raw <= sphere.near_root(ray).raw <= t_max.raw || t_min.raw
                <= sphere.far_root(ray).raw <= t_max.raw)
        },
        sphere.hit_model(ray, t_min, t_max) matches Some(rec) ==> rec.t == (if t_min.raw
            <= sphere.near_root(ray).raw <= t_max.raw {
            sphere.near_root(ray)
        } else {
            sphere.far_root(ray)
        }),
{
    reveal(Sphere::hit_model);
}

/// The smaller parameter is not beyond the larger one.
pub proof fn lemma_roots_ordered(sphere: Sphere, ray: Ray)
    requires
        !ray.direction().is_zero_spec(),
    ensures
        sphere.near_root(ray).raw <= sphere.far_root(ray).raw,
{
    let q = sphere.quadratic(ray);
    lemma_quadratic(sphere.offset(ray), sphere.radius(), ray.direction());
    if q.discriminant() >= 0 {
        lemma_isqrt_exists(q.discriminant());
    }
    let s = q.spread();
    let low = -q.b - s;
    let high = -q.b + s;
    let below = q.a * q.shrink;
    assert(below > 0) by (nonlinear_arith)
        requires
            q.a > 0,
            q.shrink >= 1,
            below == q.a * q.shrink,
    ;
    assert(SCALE * low * q.grow <= SCALE * high * q.grow) by (nonlinear_arith)
        requires
            low <= high,
            q.grow >= 1,
            SCALE > 0,
    ;
    lemma_div_is_ordered(SCALE * low * q.grow, SCALE * high * q.grow, below);
}

/// A ray that starts strictly outside a sphere and does not run toward its
/// centre hits the sphere nowhere, however large offset and radius are:
/// both parameters at which its line meets the sphere are below zero, so
/// that there is no hit in any interval that begins at zero or above.
pub proof fn lemma_ray_pointing_away_misses(
    sphere: Sphere,
    ray: Ray,
    t_min: Scalar,
    t_max: Scalar,
)
    requires
        dot_raw(sphere.offset(ray), sphere.offset(ray)) > sphere.radius()@ * sphere.radius()@,
        dot_raw(sphere.offset(ray), ray.direction()) >= 0,
    ensures
        sphere.near_root(ray).raw < 0,
        sphere.far_root(ray).raw < 0,
        sphere.hit_model(ray, t_min, t_max) matches Some(rec) ==> rec.t.raw < 0,
        t_min.raw >= 0 ==> sphere.hit_model(ray, t_min, t_max) is None,
{
    reveal(Sphere::hit_model);
}

/// The same of origin and centre as they are, however far apart: a ray
/// whose origin lies strictly outside a sphere, by the exact distance of
/// the two, and that does not run toward the centre, by the exact
/// difference of the two dotted with its direction, hits the sphere nowhere
/// in an interval that begins at zero or above.
pub proof fn lemma_ray_pointing_away_misses_anywhere(
    sphere: Sphere,
    ray: Ray,
    t_min: Scalar,
    t_max: Scalar,
)
    requires
        sphere.distance_squared(ray) > sphere.radius()@ * sphere.radius()@,
        sphere.departure(ray) >= 0,
    ensures
        sphere.hit_model(ray, t_min, t_max) matches Some(rec) ==> rec.t.raw < 0,
        t_min.raw >= 0 ==> sphere.hit_model(ray, t_min, t_max) is None,
{
    reveal(Sphere::hit_model);
    if sphere.within_reach(ray) {
        lemma_offset_in_reach(sphere, ray);
        lemma_ray_pointing_away_misses(sphere, ray, t_min, t_max);
    }
}

/// Within reach the offset is the difference of origin and centre, and its
/// exact products are those of the difference.
pub proof fn lemma_offset_in_reach(sphere: Sphere, ray: Ray)
    requires
        sphere.within_reach(ray),
    ensures
        sphere.offset(ray).x@ == ray.origin().x@ - sphere.center().x@,
        sphere.offset(ray).y@ == ray.origin().y@ - sphere.center().y@,
        sphere.offset(ray).z@ == ray.origin().z@ - sphere.center().z@,
        dot_raw(sphere.offset(ray), sphere.offset(ray)) == sphere.distance_squared(ray),
        dot_raw(sphere.offset(ray), ray.direction()) == sphere.departure(ray),
{
}

/// An offset whose components are all below `REACH` is the difference of
/// origin and centre: the centre is within reach.
pub proof fn lemma_near_is_in_reach(sphere: Sphere, ray: Ray)
    requires
        largest(sphere.offset(ray), sphere.radius()) < REACH,
    ensures
        sphere.within_reach(ray),
{
}

/// From inside a sphere the line of a ray meets it once behind the origin
/// and once ahead: within an interval that begins at zero, the hit is never
/// at the smaller parameter.
pub proof fn lemma_ray_from_inside(sphere: Sphere, ray: Ray)
    requires
        dot_raw(sphere.offset(ray), sphere.offset(ray)) < sphere.radius()@ * sphere.radius()@,
    ensures
        sphere.within_reach(ray) ==> sphere.has_roots(ray),
        sphere.near_root(ray).raw < 0,
        sphere.far_root(ray).raw >= 0,
{
    let offset = sphere.offset(ray);
    let d = ray.direction();
    crate::vec::lemma_dot_raw_self(d);
    lemma_square_sign(exact_b(offset, d));
    assert(dot_raw(d, d) * exact_c(offset, sphere.radius()) <= 0) by (nonlinear_arith)
        requires
            dot_raw(d, d) >= 0,
            exact_c(offset, sphere.radius()) < 0,
    ;
}

/// From outside a sphere a ray that runs toward the centre meets it, if at
/// all, ahead of its origin at both parameters.
pub proof fn lemma_ray_toward(sphere: Sphere, ray: Ray)
    requires
        dot_raw(sphere.offset(ray), sphere.offset(ray)) > sphere.radius()@ * sphere.radius()@,
        dot_raw(sphere.offset(ray), ray.direction()) < 0,
    ensures
        sphere.near_root(ray).raw >= 0,
        sphere.far_root(ray).raw >= 0,
{
}

/// Where no component reaches `REACH`, the quadratic is formed from the raw
/// components themselves.
pub proof fn lemma_unreduced(offset: Vec3, radius: Scalar, direction: Vec3)
    requires
        largest(offset, radius) < REACH,
        largest(direction, Scalar { raw: 0 }) < REACH,
    ensures
        ({
            let q = quadratic(offset, radius, direction);
            &&& q.grow == 1
            &&& q.shrink == 1
            &&& q.a == crate::vec::dot_raw(direction, direction)
            &&& q.b == crate::vec::dot_raw(offset, direction)
            &&& q.c == crate::vec::dot_raw(offset, offset) - radius@ * radius@
        }),
{
    lemma_div_one(offset.x@);
    lemma_div_one(offset.y@);
    lemma_div_one(offset.z@);
    lemma_div_one(radius@);
    lemma_div_one(direction.x@);
    lemma_div_one(direction.y@);
    lemma_div_one(direction.z@);
}

/// Division by one changes nothing.
pub proof fn lemma_div_one(x: int)
    ensures
        trunc_div(x, 1) == x,
{
    vstd::arithmetic::div_mod::lemma_div_basics(x);
    vstd::arithmetic::div_mod::lemma_div_basics(-x);
}

/// A negative number divided by a positive one and rounded down is negative.
proof fn lemma_negative_quotient(n: int, d: int)
    requires
        n < 0,
        d > 0,
    ensures
        n / d < 0,
{
    lemma_fundamental_div_mod(n, d);
    lemma_mod_bound(n, d);
    if n / d >= 0 {
        assert(d * (n / d) >= 0) by (nonlinear_arith)
            requires
                d > 0,
                n / d >= 0,
        ;
    }
}

/// The components of a vector whose exact squared length is the scale
/// squared are at most the scale in magnitude.
pub proof fn lemma_unit_components(d: Vec3)
    requires
        crate::vec::dot_raw(d, d) == SCALE * SCALE,
    ensures
        largest(d, Scalar { raw: 0 }) < REACH,
{
    crate::vec::lemma_dot_raw_self(d);
    assert(SCALE * SCALE == 1_000_000_000_000);
    lemma_bounded_root(d.x@);
    lemma_bounded_root(d.y@);
    lemma_bounded_root(d.z@);
}

/// A number whose square is at most the scale squared is at most the scale
/// in magnitude.
pub proof fn lemma_bounded_root(x: int)
    requires
        x * x <= 1_000_000_000_000,
    ensures
        -1_000_000 <= x <= 1_000_000,
{
    if x > 1_000_000 {
        assert(x * x > 1_000_000_000_000) by (nonlinear_arith)
            requires
                x > 1_000_000,
        ;
    } else if x < -1_000_000 {
        assert(x * x > 1_000_000_000_000) by (nonlinear_arith)
            requires
                x < -1_000_000,
        ;
    }
}

/// A hit found within a tighter upper limit is the hit that would be found
/// within the wider one.
pub proof fn lemma_hit_within_limit(
    sphere: Sphere,
    ray: Ray,
    t_min: Scalar,
    limit: Scalar,
    t_max: Scalar,
)
    requires
        limit.raw <= t_max.raw,
        sphere.hit_model(ray, t_min, limit) is Some,
    ensures
        sphere.hit_model(ray, t_min, t_max) == sphere.hit_model(ray, t_min, limit),
        t_min.raw <= sphere.hit_model(ray, t_min, limit)->0.t.raw <= limit.raw,
{
    reveal(Sphere::hit_model);
    lemma_roots_ordered(sphere, ray);
}

/// Where nothing is hit within a tighter upper limit, any hit within the
/// wider one lies beyond the tighter.
pub proof fn lemma_miss_within_limit(
    sphere: Sphere,
    ray: Ray,
    t_min: Scalar,
    limit: Scalar,
    t_max: Scalar,
)
    requires
        limit.raw <= t_max.raw,
        sphere.hit_model(ray, t_min, limit) is None,
        sphere.hit_model(ray, t_min, t_max) is Some,
    ensures
        sphere.hit_model(ray, t_min, t_max)->0.t.raw > limit.raw,
{
    reveal(Sphere::hit_model);
}

/// What a hit on a sphere records: a parameter within the interval asked
/// for, one of the two roots; the point of the ray at that parameter; the
/// sphere's material; and a normal of unit length that is the sphere's own
/// normal where the ray meets the front, its negation where it meets the
/// back, and in either case does not run along the ray.
pub proof fn lemma_hit_record(sphere: Sphere, ray: Ray, t_min: Scalar, t_max: Scalar)
    requires
        sphere.hit_model(ray, t_min, t_max) is Some,
    ensures
        ({
            let rec = sphere.hit_model(ray, t_min, t_max)->0;
            let outward = sphere.outward(ray, rec.p);
            &&& t_min.raw <= rec.t.raw <= t_max.raw
            &&& rec.t == sphere.near_root(ray) || rec.t == sphere.far_root(ray)
            &&& rec.p == ray.at_spec(rec.t)
            &&& rec.mat == sphere.material()
            &&& rec.front_face <==> ray.direction().dot_spec(outward).raw < 0
            &&& rec.normal == if rec.front_face {
                outward
            } else {
                outward.negated()
            }
            &&& ray.direction().dot_spec(rec.normal).raw <= 0
            &&& -SCALE <= rec.normal.x.raw <= SCALE
            &&& -SCALE <= rec.normal.y.raw <= SCALE
            &&& -SCALE <= rec.normal.z.raw <= SCALE
            &&& is_unit(rec.normal)
        }),
{
    reveal(Sphere::hit_model);
    let t = sphere.root(ray, t_min, t_max)->0;
    let p = ray.at_spec(t);
    let from_center = p.minus(sphere.center());
    let base = if from_center.is_zero_spec() {
        ray.direction().negated()
    } else {
        from_center
    };
    assert(!base.is_zero_spec());
    lemma_normalized_bounds(base);
    lemma_normalized_is_unit(base);
    lemma_negated_is_unit(base.normalized_spec());
    lemma_facing_opposes(ray, p, t, sphere.outward(ray, p), sphere.material());
    lemma_negated_is_unit(sphere.outward(ray, p));
}

/// A sphere is hit only by a ray that has a direction.
pub proof fn lemma_hit_has_direction(sphere: Sphere, ray: Ray, t_min: Scalar, t_max: Scalar)
    ensures
        sphere.hit_model(ray, t_min, t_max) is Some ==> !ray.direction().is_zero_spec(),
{
    reveal(Sphere::hit_model);
}

/// A sphere is hit at the root of the quadratic that is taken.
impl Hit for Sphere {
    open spec fn hit_spec(&self, ray: Ray, t_min: Scalar, t_max: Scalar) -> Option<HitRecord> {
        self.hit_model(ray, t_min, t_max)
    }

    fn hit(&self, ray: &Ray, t_min: Scalar, t_max: Scalar) -> (r: Option<HitRecord>)
        ensures
            r is Some <==> {
                &&& !ray.direction().is_zero_spec()
                &&& self.has_roots(*ray)
                &&& (t_min.raw <= self.near_root(*ray).raw <= t_max.raw || t_min.raw
                    <= self.far_root(*ray).raw <= t_max.raw)
            },
            r matches Some(rec) ==> {
                &&& t_min.raw <= rec.t.raw <= t_max.raw
                &&& rec.t == (if t_min.raw <= self.near_root(*ray).raw <= t_max.raw {
                    self.near_root(*ray)
                } else {
                    self.far_root(*ray)
                })
                &&& rec.p == ray.at_spec(rec.t)
                &&& rec.mat == self.material()
                &&& ray.direction().dot_spec(rec.normal).raw <= 0
                &&& is_unit(rec.normal)
                &&& rec.front_face <==> ray.direction().dot_spec(self.outward(*ray, rec.p)).raw
                    < 0
            },
    {
        proof {
            lemma_hit_iff_root(*self, *ray, t_min, t_max);
            if self.hit_model(*ray, t_min, t_max) is Some {
                lemma_hit_record(*self, *ray, t_min, t_max);
            }
            reveal(Sphere::hit_model);
        }
        if ray.direction().is_zero() || !reaches(ray.origin(), self.center) {
            return None;
        }
        let (near, far) = match solve(ray.origin() - self.center, self.radius, ray.direction()) {
            Some(roots) => roots,
            None => {
                return None;
            },
        };
        let root = if t_min.raw <= near.raw && near.raw <= t_max.raw {
            near
        } else if t_min.raw <= far.raw && far.raw <= t_max.raw {
            far
        } else {
            return None;
        };
        let p = ray.at(root);
        let from_center = p - self.center;
        let unit = if from_center.is_zero() {
            ray.direction().neg().normalized()
        } else {
            from_center.normalized()
        };
        let outward = if self.radius.raw < 0 {
            unit.neg()
        } else {
            unit
        };
        let mut rec = HitRecord {
            p,
            normal: Vec3::zero(),
            mat: self.mat,
            t: root,
            front_face: false,
        };
        rec.set_face_normal(ray, outward);
        Some(rec)
    }
}

} // verus!
