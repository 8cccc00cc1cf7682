//! Three-component vectors over fixed-point scalars, used for points,
//! directions and colours alike.

use crate::sampler::{lemma_advance, Sampler, Stream};
use crate::scalar::{
    clamp_wide, is_isqrt, isqrt, isqrt_u128, lemma_raw_product_bounds, sat, trunc_div, Scalar,
    SCALE,
};
use crate::rounding::{lemma_trunc_div_monotone, lemma_trunc_div_multiple};
use core::ops::Neg;
use vstd::prelude::*;

verus! {

/// A vector with components `x`, `y` and `z`.
#[derive(Clone, Copy, Debug, PartialEq, Eq, Structural)]
pub struct Vec3 {
    pub x: Scalar,
    pub y: Scalar,
    pub z: Scalar,
}

/// A position in space.
pub type Point3 = Vec3;

/// A colour: red, green and blue in `x`, `y` and `z`.
pub type Color = Vec3;

/// Raw magnitude below which a component counts as vanishing: one
/// thousandth, the square root of the resolution, under which a square
/// rounds to zero.
pub const NEAR_ZERO: i64 = 1_000;

/// Raw magnitude under which the components of a vector count as small: two
/// to the thirtieth.
pub const SMALL: i64 = 1_073_741_824;

/// The factor by which a small vector is magnified before its length is
/// taken: two to the thirty-second.
pub const MAGNIFY: i64 = 4_294_967_296;

/// How many candidate points the rejection sampler tries before it gives up.
pub const BALL_TRIES: u32 = 64;

/// The exact sum of the products of matching raw components: the dot product
/// in units of one millionth of a millionth.
pub open spec fn dot_raw(a: Vec3, b: Vec3) -> int {
    a.x@ * b.x@ + a.y@ * b.y@ + a.z@ * b.z@
}

/// The sum of three wide products, divided by the scale and clamped.
fn scaled_sum(first: i128, second: i128, third: i128) -> (r: i64)
    requires
        -0x4000_0000_0000_0000_0000_0000_0000_0000 <= first
            <= 0x4000_0000_0000_0000_0000_0000_0000_0000,
        -0x4000_0000_0000_0000_0000_0000_0000_0000 <= second
            <= 0x4000_0000_0000_0000_0000_0000_0000_0000,
        -0x4000_0000_0000_0000_0000_0000_0000_0000 <= third
            <= 0x4000_0000_0000_0000_0000_0000_0000_0000,
    ensures
        r == sat(trunc_div(first + second + third, SCALE as int)),
{
    match first.checked_add(second) {
        None => i64::MAX,
        Some(s) => match s.checked_add(third) {
            None => if third > 0 {
                i64::MAX
            } else {
                i64::MIN
            },
            Some(t) => clamp_wide(t / (SCALE as i128)),
        },
    }
}

/// The difference of two wide products, divided by the scale and clamped.
fn scaled_difference(first: i128, second: i128) -> (r: i64)
    requires
        -0x4000_0000_0000_0000_0000_0000_0000_0000 <= first
            <= 0x4000_0000_0000_0000_0000_0000_0000_0000,
        -0x4000_0000_0000_0000_0000_0000_0000_0000 <= second
            <= 0x4000_0000_0000_0000_0000_0000_0000_0000,
    ensures
        r == sat(trunc_div(first - second, SCALE as int)),
{
    match first.checked_sub(second) {
        None => i64::MAX,
        Some(t) => clamp_wide(t / (SCALE as i128)),
    }
}

impl Vec3 {
    /// The vector with the given components.
    pub fn new(x: Scalar, y: Scalar, z: Scalar) -> (v: Vec3)
        ensures
            v == (Vec3 { x, y, z }),
    {
        Vec3 { x, y, z }
    }

    /// The vector whose components are the given counts of millionths.
    pub fn from_raw(x: i64, y: i64, z: i64) -> (v: Vec3)
        ensures
            v.x.raw == x,
            v.y.raw == y,
            v.z.raw == z,
    {
        Vec3 { x: Scalar::new(x), y: Scalar::new(y), z: Scalar::new(z) }
    }

    /// The first component.
    pub fn x(&self) -> (c: Scalar)
        ensures
            c == self.x,
    {
        self.x
    }

    /// The second component.
    pub fn y(&self) -> (c: Scalar)
        ensures
            c == self.y,
    {
        self.y
    }

    /// The third component.
    pub fn z(&self) -> (c: Scalar)
        ensures
            c == self.z,
    {
        self.z
    }

    /// The zero vector.
    pub open spec fn zero_spec() -> Vec3 {
        Vec3 { x: Scalar { raw: 0 }, y: Scalar { raw: 0 }, z: Scalar { raw: 0 } }
    }

    /// The zero vector.
    pub fn zero() -> (v: Vec3)
        ensures
            v == Vec3::zero_spec(),
    {
        Vec3 { x: Scalar::zero(), y: Scalar::zero(), z: Scalar::zero() }
    }

    /// Whether every component is exactly zero.
    pub open spec fn is_zero_spec(self) -> bool {
        self.x.raw == 0 && self.y.raw == 0 && self.z.raw == 0
    }

    /// Whether every component is exactly zero.
    pub fn is_zero(&self) -> (b: bool)
        ensures
            b == self.is_zero_spec(),
    {
        self.x.raw == 0 && self.y.raw == 0 && self.z.raw == 0
    }

    /// The negation, component by component.
    pub open spec fn negated(self) -> Vec3 {
        Vec3 { x: self.x.negated(), y: self.y.negated(), z: self.z.negated() }
    }

    /// The sum, component by component.
    pub open spec fn plus(self, rhs: Vec3) -> Vec3 {
        Vec3 { x: self.x.plus(rhs.x), y: self.y.plus(rhs.y), z: self.z.plus(rhs.z) }
    }

    /// The difference, component by component.
    pub open spec fn minus(self, rhs: Vec3) -> Vec3 {
        Vec3 { x: self.x.minus(rhs.x), y: self.y.minus(rhs.y), z: self.z.minus(rhs.z) }
    }

    /// Every component multiplied by the scalar `t`.
    pub open spec fn scaled(self, t: Scalar) -> Vec3 {
        Vec3 { x: self.x.times(t), y: self.y.times(t), z: self.z.times(t) }
    }

    /// The product, component by component.
    pub open spec fn times(self, rhs: Vec3) -> Vec3 {
        Vec3 { x: self.x.times(rhs.x), y: self.y.times(rhs.y), z: self.z.times(rhs.z) }
    }

    /// Every component divided by the scalar `t`.
    pub open spec fn over(self, t: Scalar) -> Vec3
        recommends
            t.raw != 0,
    {
        Vec3 { x: self.x.over(t), y: self.y.over(t), z: self.z.over(t) }
    }

    /// The dot product: the exact sum of products, rounded toward zero to
    /// millionths and clamped.
    pub open spec fn dot_spec(self, other: Vec3) -> Scalar {
        Scalar::clip(trunc_div(dot_raw(self, other), SCALE as int))
    }

    /// Dot product: the exact sum of products, rounded once.
    pub fn dot(self, other: Vec3) -> (r: Scalar)
        ensures
            r == self.dot_spec(other),
    {
        proof {
            lemma_raw_product_bounds(self.x@, other.x@);
            lemma_raw_product_bounds(self.y@, other.y@);
            lemma_raw_product_bounds(self.z@, other.z@);
        }
        let xx: i128 = (self.x.raw as i128) * (other.x.raw as i128);
        let yy: i128 = (self.y.raw as i128) * (other.y.raw as i128);
        let zz: i128 = (self.z.raw as i128) * (other.z.raw as i128);
        Scalar { raw: scaled_sum(xx, yy, zz) }
    }

    /// The cross product: each component the exact difference of two
    /// products, rounded toward zero to millionths and clamped.
    pub open spec fn cross_spec(self, other: Vec3) -> Vec3 {
        Vec3 {
            x: Scalar::clip(trunc_div(self.y@ * other.z@ - self.z@ * other.y@, SCALE as int)),
            y: Scalar::clip(trunc_div(self.z@ * other.x@ - self.x@ * other.z@, SCALE as int)),
            z: Scalar::clip(trunc_div(self.x@ * other.y@ - self.y@ * other.x@, SCALE as int)),
        }
    }

    /// Cross product: each component an exact difference of products, rounded
    /// once.
    pub fn cross(self, other: Vec3) -> (r: Vec3)
        ensures
            r == self.cross_spec(other),
    {
        proof {
            lemma_raw_product_bounds(self.y@, other.z@);
            lemma_raw_product_bounds(self.z@, other.y@);
            lemma_raw_product_bounds(self.z@, other.x@);
            lemma_raw_product_bounds(self.x@, other.z@);
            lemma_raw_product_bounds(self.x@, other.y@);
            lemma_raw_product_bounds(self.y@, other.x@);
        }
        let yz: i128 = (self.y.raw as i128) * (other.z.raw as i128);
        let zy: i128 = (self.z.raw as i128) * (other.y.raw as i128);
        let zx: i128 = (self.z.raw as i128) * (other.x.raw as i128);
        let xz: i128 = (self.x.raw as i128) * (other.z.raw as i128);
        let xy: i128 = (self.x.raw as i128) * (other.y.raw as i128);
        let yx: i128 = (self.y.raw as i128) * (other.x.raw as i128);
        Vec3 {
            x: Scalar { raw: scaled_difference(yz, zy) },
            y: Scalar { raw: scaled_difference(zx, xz) },
            z: Scalar { raw: scaled_difference(xy, yx) },
        }
    }

    /// The length in raw units, before any clamping: the integer square root
    /// of the exact sum of squares.
    pub open spec fn norm_raw(self) -> int {
        isqrt(dot_raw(self, self))
    }

    /// The exact sum of the squares of the raw components.
    pub(crate) fn square_wide(&self) -> (sum: u128)
        ensures
            sum == dot_raw(*self, *self),
    {
        proof {
            lemma_raw_product_bounds(self.x@, self.x@);
            lemma_raw_product_bounds(self.y@, self.y@);
            lemma_raw_product_bounds(self.z@, self.z@);
            lemma_square_sign(self.x@);
            lemma_square_sign(self.y@);
            lemma_square_sign(self.z@);
        }
        let xx: i128 = (self.x.raw as i128) * (self.x.raw as i128);
        let yy: i128 = (self.y.raw as i128) * (self.y.raw as i128);
        let zz: i128 = (self.z.raw as i128) * (self.z.raw as i128);
        (xx as u128) + (yy as u128) + (zz as u128)
    }

    /// The length in raw units as a wide integer.
    fn norm_wide(&self) -> (n: u64)
        ensures
            n == self.norm_raw(),
            is_isqrt(dot_raw(*self, *self), n as int),
            self.is_zero_spec() <==> n == 0,
    {
        let n: u64 = isqrt_u128(self.square_wide());
        proof {
            lemma_dot_raw_self(*self);
            if n == 0 {
                assert((n + 1) * (n + 1) == 1) by (nonlinear_arith)
                    requires
                        n == 0,
                ;
            } else {
                assert(n * n >= 1) by (nonlinear_arith)
                    requires
                        n >= 1,
                ;
            }
        }
        n
    }

    /// The squared length: the dot product of the vector with itself.
    pub open spec fn length_squared_spec(self) -> Scalar {
        self.dot_spec(self)
    }

    /// The squared length.
    pub fn length_squared(self) -> (r: Scalar)
        ensures
            r == self.length_squared_spec(),
    {
        self.dot(self)
    }

    /// The length: the raw length, clamped.
    pub open spec fn length_spec(self) -> Scalar {
        Scalar::clip(self.norm_raw())
    }

    /// The length, rounded down to the nearest millionth.
    pub fn length(self) -> (r: Scalar)
        ensures
            r == self.length_spec(),
    {
        let n: u64 = self.norm_wide();
        Scalar { raw: clamp_wide(n as i128) }
    }

    /// Whether every component is smaller in magnitude than `SMALL`.
    pub open spec fn is_small_spec(self) -> bool {
        &&& -SMALL < self.x.raw < SMALL
        &&& -SMALL < self.y.raw < SMALL
        &&& -SMALL < self.z.raw < SMALL
    }

    /// The vector with its raw components multiplied by `MAGNIFY` if it is
    /// small, else the vector itself: the same direction, long enough for its
    /// length to be found to many digits.
    pub open spec fn magnified(self) -> Vec3 {
        if self.is_small_spec() {
            Vec3 {
                x: Scalar { raw: (self.x.raw * MAGNIFY) as i64 },
                y: Scalar { raw: (self.y.raw * MAGNIFY) as i64 },
                z: Scalar { raw: (self.z.raw * MAGNIFY) as i64 },
            }
        } else {
            self
        }
    }

    /// Each component times the scale, divided by the raw length and rounded
    /// toward zero.
    pub open spec fn over_norm(self) -> Vec3
        recommends
            !self.is_zero_spec(),
    {
        let n = self.norm_raw();
        Vec3 {
            x: Scalar::clip(trunc_div(self.x@ * SCALE, n)),
            y: Scalar::clip(trunc_div(self.y@ * SCALE, n)),
            z: Scalar::clip(trunc_div(self.z@ * SCALE, n)),
        }
    }

    /// The vector scaled to unit length: the magnified vector, each
    /// component divided by the magnified vector's length.
    pub open spec fn normalized_spec(self) -> Vec3
        recommends
            !self.is_zero_spec(),
    {
        self.magnified().over_norm()
    }

    /// The vector scaled to unit length. A small vector is magnified first,
    /// so that the result is of unit length to within a few millionths
    /// however short the vector is.
    pub fn normalized(self) -> (r: Vec3)
        requires
            !self.is_zero_spec(),
        ensures
            r == self.normalized_spec(),
    {
        let small = -SMALL < self.x.raw && self.x.raw < SMALL && -SMALL < self.y.raw && self.y.raw
            < SMALL && -SMALL < self.z.raw && self.z.raw < SMALL;
        let w = if small {
            Vec3::from_raw(self.x.raw * MAGNIFY, self.y.raw * MAGNIFY, self.z.raw * MAGNIFY)
        } else {
            self
        };
        assert(w == self.magnified());
        let n: i128 = w.norm_wide() as i128;
        let scale: i128 = SCALE as i128;
        Vec3 {
            x: Scalar { raw: clamp_wide(((w.x.raw as i128) * scale) / n) },
            y: Scalar { raw: clamp_wide(((w.y.raw as i128) * scale) / n) },
            z: Scalar { raw: clamp_wide(((w.z.raw as i128) * scale) / n) },
        }
    }

    /// Whether every component is smaller in magnitude than `NEAR_ZERO`.
    pub open spec fn near_zero_spec(self) -> bool {
        &&& -NEAR_ZERO < self.x.raw < NEAR_ZERO
        &&& -NEAR_ZERO < self.y.raw < NEAR_ZERO
        &&& -NEAR_ZERO < self.z.raw < NEAR_ZERO
    }

    /// Whether every component is smaller in magnitude than one thousandth.
    pub fn near_zero(&self) -> (b: bool)
        ensures
            b == self.near_zero_spec(),
    {
        -NEAR_ZERO < self.x.raw && self.x.raw < NEAR_ZERO && -NEAR_ZERO < self.y.raw && self.y.raw
            < NEAR_ZERO && -NEAR_ZERO < self.z.raw && self.z.raw < NEAR_ZERO
    }

    /// The mirror image about the plane with normal `n`: the vector less
    /// the normal times twice the dot product of the two.
    pub open spec fn reflect_spec(self, n: Vec3) -> Vec3 {
        self.minus(n.scaled((Scalar { raw: 2_000_000 }).times(self.dot_spec(n))))
    }

    /// The mirror image of `self` about the plane with normal `n`:
    /// `self - 2 (self . n) n`.
    pub fn reflect(self, n: Vec3) -> (r: Vec3)
        ensures
            r == self.reflect_spec(n),
    {
        self - n * (Scalar::new(2_000_000) * self.dot(n))
    }

    /// The refracted direction by Snell's law in vector form. With the
    /// cosine `c = min(-self . n, 1)`, the part across the normal is
    /// `ratio (self + c n)`, and the part along it is the normal times
    /// `-sqrt(|1 - p . p|)`, where `p` is the part across.
    pub open spec fn refract_spec(self, n: Vec3, ratio: Scalar) -> Vec3 {
        let cos_theta = self.negated().dot_spec(n).min_spec(Scalar { raw: SCALE });
        let perp = self.plus(n.scaled(cos_theta)).scaled(ratio);
        let rest = (Scalar { raw: SCALE }).minus(perp.dot_spec(perp)).abs_spec();
        let par = n.scaled(rest.sqrt_spec().negated());
        perp.plus(par)
    }

    /// The direction of `self`, a unit vector, after it crosses a surface of
    /// normal `n` between media whose refractive indices stand in `ratio`
    /// (Snell's law in vector form).
    pub fn refract(self, n: Vec3, ratio: Scalar) -> (r: Vec3)
        ensures
            r == self.refract_spec(n, ratio),
    {
        let cos_theta = self.neg().dot(n).min(Scalar::one());
        let perp = (self + n * cos_theta) * ratio;
        let rest = (Scalar::one() - perp.dot(perp)).abs();
        let par = n * rest.sqrt().neg();
        perp + par
    }

    /// Whether the point lies strictly inside the unit ball, tested on the
    /// exact sum of squares.
    pub open spec fn in_unit_ball_spec(self) -> bool {
        dot_raw(self, self) < SCALE * SCALE
    }

    /// Whether the point lies strictly inside the unit ball.
    pub fn in_unit_ball(&self) -> (b: bool)
        ensures
            b == self.in_unit_ball_spec(),
    {
        assert(SCALE * SCALE == 1_000_000_000_000) by (nonlinear_arith)
            requires
                SCALE == 1_000_000,
        ;
        self.square_wide() < 1_000_000_000_000
    }

    /// The point of the cube `[-1, 1)^3` that the next three draws of a stream
    /// give.
    pub open spec fn candidate(s: Stream) -> Vec3 {
        Vec3 {
            x: Scalar { raw: (2 * s.peek().raw - SCALE) as i64 },
            y: Scalar { raw: (2 * s.advance(1).peek().raw - SCALE) as i64 },
            z: Scalar { raw: (2 * s.advance(2).peek().raw - SCALE) as i64 },
        }
    }

    /// The first of up to `tries` candidate points that lies in the unit
    /// ball, with the stream as it stands after the draws that were taken;
    /// the zero vector if none does.
    pub open spec fn ball_sample(s: Stream, tries: nat) -> (Vec3, Stream)
        decreases tries,
    {
        if tries == 0 {
            (Vec3::zero_spec(), s)
        } else {
            let p = Vec3::candidate(s);
            if p.in_unit_ball_spec() {
                (p, s.advance(3))
            } else {
                Vec3::ball_sample(s.advance(3), (tries - 1) as nat)
            }
        }
    }

    /// A point in the unit ball, by rejection: candidates are drawn from the
    /// enclosing cube until one falls inside the ball. After `BALL_TRIES`
    /// rejections the zero vector is returned.
    pub fn random_in_unit_sphere(sampler: &mut Sampler) -> (p: Vec3)
        ensures
            (p, final(sampler)@) == Vec3::ball_sample(old(sampler)@, BALL_TRIES as nat),
            final(sampler)@.table == old(sampler)@.table,
            p.in_unit_ball_spec(),
    {
        let mut tries: u32 = BALL_TRIES;
        loop
            invariant
                0 < tries <= BALL_TRIES,
                sampler@.table == old(sampler)@.table,
                Vec3::ball_sample(old(sampler)@, BALL_TRIES as nat) == Vec3::ball_sample(
                    sampler@,
                    tries as nat,
                ),
            decreases tries,
        {
            let ghost before = sampler@;
            proof {
                use_type_invariant(&*sampler);
            }
            let a = sampler.next_unit();
            let b = sampler.next_unit();
            let c = sampler.next_unit();
            proof {
                lemma_advance(before, 1, 1);
                lemma_advance(before, 2, 1);
            }
            let p = Vec3::from_raw(2 * a.raw - SCALE, 2 * b.raw - SCALE, 2 * c.raw - SCALE);
            assert(p == Vec3::candidate(before));
            if p.in_unit_ball() {
                return p;
            }
            tries = tries - 1;
            if tries == 0 {
                proof {
                    lemma_square_sign(0);
                    assert(SCALE * SCALE > 0) by (nonlinear_arith)
                        requires
                            SCALE == 1_000_000,
                    ;
                    assert(Vec3::ball_sample(sampler@, 0) == (Vec3::zero_spec(), sampler@));
                }
                return Vec3::zero();
            }
        }
    }
}

/// The dot product of the zero vector with any vector is zero.
pub proof fn lemma_dot_zero(a: Vec3, b: Vec3)
    requires
        a.is_zero_spec(),
    ensures
        dot_raw(a, b) == 0,
        a.dot_spec(b).raw == 0,
{
    assert(a.x@ * b.x@ + a.y@ * b.y@ + a.z@ * b.z@ == 0) by (nonlinear_arith)
        requires
            a.x@ == 0,
            a.y@ == 0,
            a.z@ == 0,
    ;
}

/// The exact sum of squares of a vector is not negative, is zero only for the
/// zero vector, and bounds the square of every component.
pub proof fn lemma_dot_raw_self(v: Vec3)
    ensures
        dot_raw(v, v) >= 0,
        dot_raw(v, v) == 0 <==> v.is_zero_spec(),
        v.x@ * v.x@ <= dot_raw(v, v),
        v.y@ * v.y@ <= dot_raw(v, v),
        v.z@ * v.z@ <= dot_raw(v, v),
{
    lemma_square_sign(v.x@);
    lemma_square_sign(v.y@);
    lemma_square_sign(v.z@);
}

/// The raw length of a vector is at least the magnitude of each component,
/// and positive unless the vector is zero.
pub proof fn lemma_norm_raw(v: Vec3)
    ensures
        is_isqrt(dot_raw(v, v), v.norm_raw()),
        -v.norm_raw() <= v.x@ <= v.norm_raw(),
        -v.norm_raw() <= v.y@ <= v.norm_raw(),
        -v.norm_raw() <= v.z@ <= v.norm_raw(),
        v.norm_raw() == 0 <==> v.is_zero_spec(),
{
    lemma_dot_raw_self(v);
    crate::scalar::lemma_isqrt_exists(dot_raw(v, v));
    let n = v.norm_raw();
    lemma_root_bounds(v.x@, n, dot_raw(v, v));
    lemma_root_bounds(v.y@, n, dot_raw(v, v));
    lemma_root_bounds(v.z@, n, dot_raw(v, v));
    if n == 0 {
        assert((n + 1) * (n + 1) == 1) by (nonlinear_arith)
            requires
                n == 0,
        ;
    } else {
        assert(n * n >= 1) by (nonlinear_arith)
            requires
                n >= 1,
        ;
    }
}

/// A number whose square does not exceed `total` lies within the integer
/// square root of `total` on either side of zero.
proof fn lemma_root_bounds(x: int, n: int, total: int)
    requires
        is_isqrt(total, n),
        x * x <= total,
    ensures
        -n <= x <= n,
{
    if x > n {
        assert((n + 1) * (n + 1) <= x * x) by (nonlinear_arith)
            requires
                0 <= n,
                n + 1 <= x,
        ;
    } else if x < -n {
        assert((n + 1) * (n + 1) <= x * x) by (nonlinear_arith)
            requires
                0 <= n,
                x <= -(n + 1),
        ;
    }
}

/// Magnifying a vector keeps it from being zero.
pub proof fn lemma_magnified(v: Vec3)
    ensures
        v.magnified().is_zero_spec() <==> v.is_zero_spec(),
        !v.is_zero_spec() ==> v.magnified().norm_raw() >= SMALL,
{
    let w = v.magnified();
    lemma_norm_raw(w);
}

/// No component of a vector divided by its length exceeds one in magnitude.
pub proof fn lemma_over_norm_bounds(v: Vec3)
    requires
        !v.is_zero_spec(),
    ensures
        -SCALE <= v.over_norm().x.raw <= SCALE,
        -SCALE <= v.over_norm().y.raw <= SCALE,
        -SCALE <= v.over_norm().z.raw <= SCALE,
{
    lemma_norm_raw(v);
    lemma_unit_component(v.x@, v.norm_raw());
    lemma_unit_component(v.y@, v.norm_raw());
    lemma_unit_component(v.z@, v.norm_raw());
}

/// No component of a normalized vector exceeds one in magnitude.
pub proof fn lemma_normalized_bounds(v: Vec3)
    requires
        !v.is_zero_spec(),
    ensures
        -SCALE <= v.normalized_spec().x.raw <= SCALE,
        -SCALE <= v.normalized_spec().y.raw <= SCALE,
        -SCALE <= v.normalized_spec().z.raw <= SCALE,
{
    lemma_magnified(v);
    lemma_over_norm_bounds(v.magnified());
}

/// A component divided by a length that is at least its magnitude is at
/// most one in magnitude.
proof fn lemma_unit_component(x: int, n: int)
    requires
        n > 0,
        -n <= x <= n,
    ensures
        -SCALE <= trunc_div(x * SCALE, n) <= SCALE,
{
    let scale = SCALE as int;
    assert(-(scale * n) <= x * scale <= scale * n) by (nonlinear_arith)
        requires
            -n <= x <= n,
            scale > 0,
    ;
    lemma_trunc_div_multiple(scale, n);
    lemma_trunc_div_multiple(-scale, n);
    assert((-scale) * n == -(scale * n)) by (nonlinear_arith);
    lemma_trunc_div_monotone(x * scale, scale * n, n);
    lemma_trunc_div_monotone((-scale) * n, x * scale, n);
}

/// A square is zero exactly when its root is, and never negative.
pub proof fn lemma_square_sign(a: int)
    ensures
        a * a >= 0,
        a * a == 0 <==> a == 0,
{
    assert(a * a >= 0 && (a * a == 0 <==> a == 0)) by (nonlinear_arith);
}

/// Negation, component by component.
impl core::ops::Neg for Vec3 {
    type Output = Vec3;

    fn neg(self) -> (r: Vec3) {
        Vec3 { x: self.x.neg(), y: self.y.neg(), z: self.z.neg() }
    }
}

/// What `-v` means in contracts.
impl vstd::std_specs::ops::NegSpecImpl for Vec3 {
    open spec fn obeys_neg_spec() -> bool {
        true
    }

    open spec fn neg_req(self) -> bool {
        true
    }

    open spec fn neg_spec(self) -> Vec3 {
        self.negated()
    }
}

/// Addition, component by component.
impl core::ops::Add for Vec3 {
    type Output = Vec3;

    fn add(self, rhs: Vec3) -> (r: Vec3) {
        Vec3 { x: self.x + rhs.x, y: self.y + rhs.y, z: self.z + rhs.z }
    }
}

/// What `v + w` means in contracts.
impl vstd::std_specs::ops::AddSpecImpl for Vec3 {
    open spec fn obeys_add_spec() -> bool {
        true
    }

    open spec fn add_req(self, rhs: Vec3) -> bool {
        true
    }

    open spec fn add_spec(self, rhs: Vec3) -> Vec3 {
        self.plus(rhs)
    }
}

/// Subtraction, component by component.
impl core::ops::Sub for Vec3 {
    type Output = Vec3;

    fn sub(self, rhs: Vec3) -> (r: Vec3) {
        Vec3 { x: self.x - rhs.x, y: self.y - rhs.y, z: self.z - rhs.z }
    }
}

/// What `v - w` means in contracts.
impl vstd::std_specs::ops::SubSpecImpl for Vec3 {
    open spec fn obeys_sub_spec() -> bool {
        true
    }

    open spec fn sub_req(self, rhs: Vec3) -> bool {
        true
    }

    open spec fn sub_spec(self, rhs: Vec3) -> Vec3 {
        self.minus(rhs)
    }
}

/// Multiplication of every component by a scalar.
impl core::ops::Mul<Scalar> for Vec3 {
    type Output = Vec3;

    fn mul(self, rhs: Scalar) -> (r: Vec3) {
        Vec3 { x: self.x * rhs, y: self.y * rhs, z: self.z * rhs }
    }
}

/// What `v * t` means in contracts.
impl vstd::std_specs::ops::MulSpecImpl<Scalar> for Vec3 {
    open spec fn obeys_mul_spec() -> bool {
        true
    }

    open spec fn mul_req(self, rhs: Scalar) -> bool {
        true
    }

    open spec fn mul_spec(self, rhs: Scalar) -> Vec3 {
        self.scaled(rhs)
    }
}

/// Multiplication component by component, as colours are multiplied.
impl core::ops::Mul<Vec3> for Vec3 {
    type Output = Vec3;

    fn mul(self, rhs: Vec3) -> (r: Vec3) {
        Vec3 { x: self.x * rhs.x, y: self.y * rhs.y, z: self.z * rhs.z }
    }
}

/// What `v * w` means in contracts.
impl vstd::std_specs::ops::MulSpecImpl<Vec3> for Vec3 {
    open spec fn obeys_mul_spec() -> bool {
        true
    }

    open spec fn mul_req(self, rhs: Vec3) -> bool {
        true
    }

    open spec fn mul_spec(self, rhs: Vec3) -> Vec3 {
        self.times(rhs)
    }
}

/// Division of every component by a scalar other than zero.
impl core::ops::Div<Scalar> for Vec3 {
    type Output = Vec3;

    fn div(self, rhs: Scalar) -> (r: Vec3) {
        Vec3 { x: self.x / rhs, y: self.y / rhs, z: self.z / rhs }
    }
}

/// What `v / t` means in contracts, and when it may be written.
impl vstd::std_specs::ops::DivSpecImpl<Scalar> for Vec3 {
    open spec fn obeys_div_spec() -> bool {
        true
    }

    open spec fn div_req(self, rhs: Scalar) -> bool {
        rhs.raw != 0
    }

    open spec fn div_spec(self, rhs: Scalar) -> Vec3 {
        self.over(rhs)
    }
}

} // verus!
