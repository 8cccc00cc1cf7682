//! Materials: how a surface sends on the light that reaches it.

use crate::hit::HitRecord;
use crate::ray::Ray;
use crate::rounding::{
    lemma_isqrt_monotone, lemma_isqrt_square, lemma_trunc_div, lemma_trunc_div_monotone,
    lemma_trunc_div_multiple,
};
use crate::sampler::{Sampler, Stream};
use crate::scalar::{lemma_sqrt_fits, trunc_div, Scalar, SCALE};
use crate::unit::{is_unit, lemma_normalized_is_unit, lemma_refract_straight, STRAIGHT_SLACK};
use crate::vec::{dot_raw, lemma_dot_zero, lemma_square_sign, Color, Vec3, BALL_TRIES};
use core::ops::Neg;
use vstd::prelude::*;

verus! {

/// What a material does with an incoming ray.
pub trait Scatter {
    /// Whether the material reads the direction of the incoming ray, so
    /// that the ray must have one.
    spec fn reads_direction(&self) -> bool;

    /// The outcome of scattering `ray` at the hit `rec` with the draws of the
    /// stream `s`: the attenuation and the outgoing ray, or nothing if the
    /// light is absorbed; and the stream as the draws taken leave it.
    spec fn scatter_spec(&self, ray: Ray, rec: HitRecord, s: Stream) -> (
        Option<(Color, Ray)>,
        Stream,
    );

    /// Scatters `ray` at the hit `rec`, drawing from `sampler`. A material
    /// that reads the ray's direction takes only rays that have one.
    fn scatter(&self, ray: &Ray, rec: &HitRecord, sampler: &mut Sampler) -> (r: Option<
        (Color, Ray),
    >)
        requires
            self.reads_direction() ==> !ray.direction().is_zero_spec(),
        ensures
            (r, final(sampler)@) == self.scatter_spec(*ray, *rec, old(sampler)@),
            final(sampler)@.table == old(sampler)@.table,
    ;
}

/// A matte surface.
#[derive(Clone, Copy, Debug, PartialEq, Eq, Structural)]
pub struct Lambertian {
    albedo: Color,
}

impl Lambertian {
    /// The colour of the surface, for contracts.
    pub closed spec fn albedo(self) -> Color {
        self.albedo
    }

    /// A matte surface of colour `a`.
    pub fn new(a: Color) -> (m: Lambertian)
        ensures
            m.albedo() == a,
    {
        Lambertian { albedo: a }
    }

    /// The direction in which a matte surface of normal `normal` sends light
    /// on, given a point `sample` of the unit ball: the normal plus the unit
    /// vector toward `sample`. Where `sample` is the zero vector, or the sum
    /// all but vanishes, it is the normal itself.
    pub open spec fn direction_spec(normal: Vec3, sample: Vec3) -> Vec3 {
        if sample.is_zero_spec() {
            normal
        } else {
            let d = normal.plus(sample.normalized_spec());
            if d.near_zero_spec() {
                normal
            } else {
                d
            }
        }
    }

    /// The direction in which the surface sends light on, given a point of
    /// the unit ball.
    pub fn direction(normal: Vec3, sample: Vec3) -> (d: Vec3)
        ensures
            d == Lambertian::direction_spec(normal, sample),
    {
        if sample.is_zero() {
            normal
        } else {
            let d = normal + sample.normalized();
            if d.near_zero() {
                normal
            } else {
                d
            }
        }
    }
}

impl Lambertian {
    /// The outcome of scattering at the hit `rec` with the draws of `s`: the
    /// light always goes on, attenuated by the albedo, in the direction that
    /// the ball sample gives.
    pub open spec fn scatter_model(self, rec: HitRecord, s: Stream) -> (
        Option<(Color, Ray)>,
        Stream,
    ) {
        let (sample, rest) = Vec3::ball_sample(s, BALL_TRIES as nat);
        (
            Some((self.albedo(), Ray::new(rec.p, Lambertian::direction_spec(rec.normal, sample)))),
            rest,
        )
    }
}

/// The direction in which a matte surface sends light on is never the zero
/// vector, as long as the normal is not.
pub proof fn lemma_lambertian_direction_not_zero(normal: Vec3, sample: Vec3)
    requires
        !normal.is_zero_spec(),
    ensures
        !Lambertian::direction_spec(normal, sample).is_zero_spec(),
{
}

/// A matte surface never absorbs the light: whatever the ray, the hit and
/// the draws, it sends light on, attenuated by exactly its albedo, from the
/// point that was hit.
pub proof fn lemma_lambertian_always_scatters(m: Lambertian, ray: Ray, rec: HitRecord, s: Stream)
    ensures
        m.scatter_model(rec, s).0 matches Some((attenuation, scattered)) && attenuation
            == m.albedo() && scattered.origin() == rec.p,
        Material::Lambertian(m).scatter_model(ray, rec, s) == m.scatter_model(rec, s),
{
    let sample = Vec3::ball_sample(s, BALL_TRIES as nat).0;
    Ray::lemma_new(rec.p, Lambertian::direction_spec(rec.normal, sample));
}

/// A matte surface scatters about its normal.
impl Scatter for Lambertian {
    open spec fn reads_direction(&self) -> bool {
        false
    }

    open spec fn scatter_spec(&self, ray: Ray, rec: HitRecord, s: Stream) -> (
        Option<(Color, Ray)>,
        Stream,
    ) {
        self.scatter_model(rec, s)
    }

    fn scatter(&self, ray: &Ray, rec: &HitRecord, sampler: &mut Sampler) -> (r: Option<
        (Color, Ray),
    >)
        ensures
            r matches Some((attenuation, scattered)) && attenuation == self.albedo()
                && scattered.origin() == rec.p,
    {
        let sample = Vec3::random_in_unit_sphere(sampler);
        let scattered = Ray::new(rec.p, Lambertian::direction(rec.normal, sample));
        Some((self.albedo, scattered))
    }
}

/// A polished surface whose reflections are blurred by `fuzz`.
#[derive(Clone, Copy, Debug, PartialEq, Eq, Structural)]
pub struct Metal {
    albedo: Color,
    fuzz: Scalar,
}

impl Metal {
    /// The colour of the surface, for contracts.
    pub closed spec fn albedo(self) -> Color {
        self.albedo
    }

    /// The blur of the reflections, for contracts.
    pub closed spec fn fuzz(self) -> Scalar {
        self.fuzz
    }

    /// The blur lies between zero and one.
    #[verifier::type_invariant]
    pub open spec fn inv(self) -> bool {
        0 <= self.fuzz().raw <= SCALE
    }

    /// A polished surface of colour `a` whose reflections are blurred by `f`,
    /// a value between zero and one.
    pub fn new(a: Color, f: Scalar) -> (m: Metal)
        requires
            0 <= f.raw <= SCALE,
        ensures
            m.albedo() == a,
            m.fuzz() == f,
    {
        Metal { albedo: a, fuzz: f }
    }

    /// The direction in which a polished surface sends light on: the mirror
    /// image of the unit incoming direction, plus `fuzz` times a point of the
    /// unit ball.
    pub open spec fn direction_spec(incoming: Vec3, normal: Vec3, fuzz: Scalar, sample: Vec3)
        -> Vec3 {
        incoming.normalized_spec().reflect_spec(normal).plus(sample.scaled(fuzz))
    }

    /// The direction in which the surface sends light on, given a point of
    /// the unit ball.
    pub fn direction(incoming: Vec3, normal: Vec3, fuzz: Scalar, sample: Vec3) -> (d: Vec3)
        requires
            !incoming.is_zero_spec(),
        ensures
            d == Metal::direction_spec(incoming, normal, fuzz, sample),
    {
        incoming.normalized().reflect(normal) + sample * fuzz
    }
}

impl Metal {
    /// The outcome of scattering `ray` at the hit `rec` with the draws of
    /// `s`: the light goes on, attenuated by the albedo, if the blurred
    /// mirror direction leaves the surface; else it is absorbed.
    pub open spec fn scatter_model(self, ray: Ray, rec: HitRecord, s: Stream) -> (
        Option<(Color, Ray)>,
        Stream,
    ) {
        let (sample, rest) = Vec3::ball_sample(s, BALL_TRIES as nat);
        let d = Metal::direction_spec(ray.direction(), rec.normal, self.fuzz(), sample);
        if d.dot_spec(rec.normal).raw > 0 {
            (Some((self.albedo(), Ray::new(rec.p, d))), rest)
        } else {
            (None, rest)
        }
    }
}

/// A polished surface without blur mirrors the light, whatever the draws.
/// The scattered direction is the mirror image of the ray's unit direction
/// about the normal. For a unit normal its length is that of the unit
/// direction within twenty-eight millionths, and its dot product with the
/// normal is the negated dot product of the unit direction within
/// twenty-one. The light is sent on exactly if that dot product is
/// positive, and so whenever the unit direction runs against the normal by
/// more than twenty-one millionths.
pub proof fn lemma_mirror(m: Metal, ray: Ray, rec: HitRecord, s: Stream)
    requires
        m.fuzz() == (Scalar { raw: 0 }),
        !ray.direction().is_zero_spec(),
        is_unit(rec.normal),
    ensures
        ({
            let unit = ray.direction().normalized_spec();
            let mirrored = unit.reflect_spec(rec.normal);
            &&& is_unit(unit)
            &&& -21 <= mirrored.dot_spec(rec.normal)@ + unit.dot_spec(rec.normal)@ <= 21
            &&& -28 <= mirrored.norm_raw() - unit.norm_raw() <= 28
            &&& m.scatter_model(ray, rec, s).0 is Some <==> mirrored.dot_spec(rec.normal).raw > 0
            &&& m.scatter_model(ray, rec, s).0 matches Some((attenuation, scattered))
                ==> attenuation == m.albedo() && scattered.origin() == rec.p
                && scattered.direction() == mirrored
            &&& unit.dot_spec(rec.normal)@ < -21 ==> m.scatter_model(ray, rec, s).0 is Some
        }),
{
    let unit = ray.direction().normalized_spec();
    let mirrored = unit.reflect_spec(rec.normal);
    let sample = Vec3::ball_sample(s, BALL_TRIES as nat).0;
    lemma_normalized_is_unit(ray.direction());
    crate::unit::lemma_reflect_reverses(unit, rec.normal);
    crate::unit::lemma_reflect_keeps_length(unit, rec.normal);
    // The blur adds nothing.
    lemma_trunc_div(0, SCALE as int);
    assert(sample.x@ * 0 == 0 && sample.y@ * 0 == 0 && sample.z@ * 0 == 0);
    assert(sample.scaled(m.fuzz()) == Vec3::zero_spec());
    assert(mirrored.plus(Vec3::zero_spec()) == mirrored);
    Ray::lemma_new(rec.p, mirrored);
}

/// A polished surface scatters about the mirror direction.
impl Scatter for Metal {
    open spec fn reads_direction(&self) -> bool {
        true
    }

    open spec fn scatter_spec(&self, ray: Ray, rec: HitRecord, s: Stream) -> (
        Option<(Color, Ray)>,
        Stream,
    ) {
        self.scatter_model(ray, rec, s)
    }

    fn scatter(&self, ray: &Ray, rec: &HitRecord, sampler: &mut Sampler) -> (r: Option<
        (Color, Ray),
    >)
        ensures
            r matches Some((attenuation, scattered)) ==> attenuation == self.albedo()
                && scattered.origin() == rec.p && scattered.direction().dot_spec(rec.normal).raw
                > 0 && !scattered.direction().is_zero_spec(),
    {
        let sample = Vec3::random_in_unit_sphere(sampler);
        let d = Metal::direction(ray.direction(), rec.normal, self.fuzz, sample);
        proof {
            if d.is_zero_spec() {
                lemma_dot_zero(d, rec.normal);
            }
        }
        if d.dot(rec.normal).raw > 0 {
            Some((self.albedo, Ray::new(rec.p, d)))
        } else {
            None
        }
    }
}

/// A clear material such as glass, which bends light and reflects part of it.
#[derive(Clone, Copy, Debug, PartialEq, Eq, Structural)]
pub struct Dielectric {
    ir: Scalar,
}

impl Dielectric {
    /// The index of refraction, for contracts.
    pub closed spec fn ir(self) -> Scalar {
        self.ir
    }

    /// The index of refraction is positive.
    #[verifier::type_invariant]
    pub open spec fn inv(self) -> bool {
        self.ir().raw > 0
    }

    /// A clear material with the given index of refraction, which must be
    /// positive.
    pub fn new(index_of_refraction: Scalar) -> (m: Dielectric)
        requires
            index_of_refraction.raw > 0,
        ensures
            m.ir() == index_of_refraction,
    {
        Dielectric { ir: index_of_refraction }
    }

    /// Schlick's approximation of the share of light that is reflected:
    /// `r0 + (1 - r0) (1 - cosine)^5` with `r0 = ((1 - ref_idx) / (1 + ref_idx))^2`.
    pub open spec fn reflectance_spec(cosine: Scalar, ref_idx: Scalar) -> Scalar {
        let one = Scalar { raw: SCALE };
        let r = one.minus(ref_idx).over(one.plus(ref_idx));
        let r0 = r.times(r);
        let m = one.minus(cosine);
        r0.plus(one.minus(r0).times(m.times(m).times(m).times(m).times(m)))
    }

    /// Schlick's approximation of the share of light that is reflected.
    pub fn reflectance(cosine: Scalar, ref_idx: Scalar) -> (r: Scalar)
        requires
            ref_idx.raw != -SCALE,
        ensures
            r == Dielectric::reflectance_spec(cosine, ref_idx),
    {
        let one = Scalar::one();
        let r = (one - ref_idx) / (one + ref_idx);
        let r0 = r * r;
        let m = one - cosine;
        r0 + (one - r0) * (m * m * m * m * m)
    }

    /// The ratio of the refractive indices on the two sides of the surface,
    /// in the order in which the ray crosses them.
    pub open spec fn ratio_spec(self, front_face: bool) -> Scalar {
        if front_face {
            (Scalar { raw: SCALE }).over(self.ir())
        } else {
            self.ir()
        }
    }

    /// The cosine of the angle between the reversed unit direction `unit` and
    /// the normal, capped at one.
    pub open spec fn cos_theta(unit: Vec3, normal: Vec3) -> Scalar {
        unit.negated().dot_spec(normal).min_spec(Scalar { raw: SCALE })
    }

    /// The sine that belongs to a cosine: the square root of one less the
    /// square, or zero where that is not positive.
    pub open spec fn sin_theta(cosine: Scalar) -> Scalar {
        let square = (Scalar { raw: SCALE }).minus(cosine.times(cosine));
        if square.raw > 0 {
            square.sqrt_spec()
        } else {
            Scalar { raw: 0 }
        }
    }

    /// Whether light that meets the surface at the given cosine cannot pass:
    /// Snell's law has no solution when the ratio times the sine exceeds one.
    pub open spec fn cannot_refract(cosine: Scalar, ratio: Scalar) -> bool {
        Dielectric::sin_theta(cosine).times(ratio).raw > SCALE
    }

    /// The direction in which the material sends on light of unit direction
    /// `unit`, given a draw from the unit interval: the mirror image where the
    /// light cannot pass or the draw falls below the reflectance, else the
    /// refracted direction.
    pub open spec fn direction_spec(unit: Vec3, normal: Vec3, ratio: Scalar, draw: Scalar)
        -> Vec3 {
        let cosine = Dielectric::cos_theta(unit, normal);
        if Dielectric::cannot_refract(cosine, ratio) || draw.raw < Dielectric::reflectance_spec(
            cosine,
            ratio,
        ).raw {
            unit.reflect_spec(normal)
        } else {
            unit.refract_spec(normal, ratio)
        }
    }
}

impl Dielectric {
    /// The outcome of scattering `ray` at the hit `rec` with the draws of
    /// `s`: the light always goes on, unattenuated. Where it cannot pass, it
    /// is mirrored and no draw is taken; else one draw decides between
    /// mirroring and refraction.
    pub open spec fn scatter_model(self, ray: Ray, rec: HitRecord, s: Stream) -> (
        Option<(Color, Ray)>,
        Stream,
    ) {
        let white = Vec3 {
            x: Scalar { raw: SCALE },
            y: Scalar { raw: SCALE },
            z: Scalar { raw: SCALE },
        };
        let ratio = self.ratio_spec(rec.front_face);
        let unit = ray.direction().normalized_spec();
        let cosine = Dielectric::cos_theta(unit, rec.normal);
        if Dielectric::cannot_refract(cosine, ratio) {
            (Some((white, Ray::new(rec.p, unit.reflect_spec(rec.normal)))), s)
        } else {
            (
                Some(
                    (
                        white,
                        Ray::new(
                            rec.p,
                            Dielectric::direction_spec(unit, rec.normal, ratio, s.peek()),
                        ),
                    ),
                ),
                s.advance(1),
            )
        }
    }
}

/// A clear material mirrors or refracts.
impl Scatter for Dielectric {
    open spec fn reads_direction(&self) -> bool {
        true
    }

    open spec fn scatter_spec(&self, ray: Ray, rec: HitRecord, s: Stream) -> (
        Option<(Color, Ray)>,
        Stream,
    ) {
        self.scatter_model(ray, rec, s)
    }

    fn scatter(&self, ray: &Ray, rec: &HitRecord, sampler: &mut Sampler) -> (r: Option<
        (Color, Ray),
    >)
        ensures
            r matches Some((attenuation, scattered)) && attenuation == (Vec3 {
                x: Scalar { raw: SCALE },
                y: Scalar { raw: SCALE },
                z: Scalar { raw: SCALE },
            }) && scattered.origin() == rec.p,
    {
        proof {
            use_type_invariant(self);
        }
        let one = Scalar::one();
        let white = Vec3::new(one, one, one);
        let ratio = if rec.front_face {
            one / self.ir
        } else {
            self.ir
        };
        let unit = ray.direction().normalized();
        let cosine = unit.neg().dot(rec.normal).min(one);
        let square = one - cosine * cosine;
        let sine = if square.raw > 0 {
            square.sqrt()
        } else {
            Scalar::zero()
        };
        let direction = if (sine * ratio).raw > SCALE {
            unit.reflect(rec.normal)
        } else {
            let draw = sampler.next_unit();
            if draw.raw < Dielectric::reflectance(cosine, ratio).raw {
                unit.reflect(rec.normal)
            } else {
                unit.refract(rec.normal, ratio)
            }
        };
        Some((white, Ray::new(rec.p, direction)))
    }
}

/// The fifth power of one less the cosine, as the reflectance uses it.
pub open spec fn grazing_term(cosine: Scalar) -> Scalar {
    let m = (Scalar { raw: SCALE }).minus(cosine);
    m.times(m).times(m).times(m).times(m)
}

/// A material with the index of refraction one is no boundary at all. The
/// ratio of the indices is one whichever face is hit; there is no angle at
/// which light cannot pass; and the reflectance is the grazing term alone,
/// which vanishes where the light meets the surface head on. So the light is
/// sent on along its refracted direction unless the one draw that is taken
/// falls below the grazing term.
pub proof fn lemma_index_one(m: Dielectric, ray: Ray, rec: HitRecord, s: Stream)
    requires
        m.ir() == (Scalar { raw: SCALE }),
    ensures
        ({
            let one = Scalar { raw: SCALE };
            let unit = ray.direction().normalized_spec();
            let cosine = Dielectric::cos_theta(unit, rec.normal);
            let direction = if s.peek().raw < grazing_term(cosine).raw {
                unit.reflect_spec(rec.normal)
            } else {
                unit.refract_spec(rec.normal, one)
            };
            &&& m.ratio_spec(rec.front_face) == one
            &&& !Dielectric::cannot_refract(cosine, one)
            &&& Dielectric::reflectance_spec(cosine, one) == grazing_term(cosine)
            &&& cosine == one ==> grazing_term(cosine).raw == 0
            &&& m.scatter_model(ray, rec, s) == (
                Some((Vec3 { x: one, y: one, z: one }, Ray::new(rec.p, direction))),
                s.advance(1),
            )
        }),
{
    let scale = SCALE as int;
    let one = Scalar { raw: SCALE };
    let unit = ray.direction().normalized_spec();
    let cosine = Dielectric::cos_theta(unit, rec.normal);
    // The ratio of the indices.
    lemma_trunc_div_multiple(scale, scale);
    assert(one.over(one) == one);
    // The sine is at most one, and so is its product with the ratio.
    let square = one.minus(cosine.times(cosine));
    lemma_square_sign(cosine@);
    lemma_trunc_div(cosine@ * cosine@, scale);
    assert(square@ <= scale);
    let sine = Dielectric::sin_theta(cosine);
    if square.raw > 0 {
        lemma_sqrt_fits(square@);
        assert(square@ * scale <= scale * scale) by (nonlinear_arith)
            requires
                square@ <= scale,
                scale > 0,
        ;
        assert(0 <= square@ * scale) by (nonlinear_arith)
            requires
                0 <= square@,
                scale > 0,
        ;
        lemma_isqrt_monotone(square@ * scale, scale * scale);
        lemma_isqrt_square(scale);
    }
    assert(0 <= sine@ <= scale);
    lemma_trunc_div_multiple(sine@, scale);
    assert(sine.times(one) == sine);
    // The reflectance.
    lemma_trunc_div(0, 2 * scale);
    assert(0int * scale == 0);
    assert(one.minus(one).over(one.plus(one)) == (Scalar { raw: 0 }));
    lemma_trunc_div(0, scale);
    assert(0int * 0int == 0);
    let zero = Scalar { raw: 0 };
    assert(zero.times(zero) == zero);
    let term = grazing_term(cosine);
    lemma_trunc_div_multiple(term@, scale);
    assert(scale * term@ == term@ * scale) by (nonlinear_arith);
    assert(one.minus(zero).times(term) == term);
    assert(zero.plus(term) == term);
    if cosine == one {
        let none = one.minus(cosine);
        assert(none == zero);
    }
}

/// With the index of refraction one the light goes straight on: unless the
/// draw falls below the grazing term, the scattered ray leaves the point
/// that was hit in the unit direction of the incoming ray, within
/// `STRAIGHT_SLACK` in each component. This is stated for a ray that has a
/// direction and a unit normal that the ray's unit direction runs against.
pub proof fn lemma_index_one_goes_straight(m: Dielectric, ray: Ray, rec: HitRecord, s: Stream)
    requires
        m.ir() == (Scalar { raw: SCALE }),
        !ray.direction().is_zero_spec(),
        is_unit(rec.normal),
        dot_raw(ray.direction().normalized_spec(), rec.normal) <= 0,
        s.peek().raw >= grazing_term(
            Dielectric::cos_theta(ray.direction().normalized_spec(), rec.normal),
        ).raw,
    ensures
        ({
            let unit = ray.direction().normalized_spec();
            &&& m.scatter_model(ray, rec, s).0 matches Some((_, scattered))
            &&& scattered.origin() == rec.p
            &&& -STRAIGHT_SLACK <= scattered.direction().x@ - unit.x@ <= STRAIGHT_SLACK
            &&& -STRAIGHT_SLACK <= scattered.direction().y@ - unit.y@ <= STRAIGHT_SLACK
            &&& -STRAIGHT_SLACK <= scattered.direction().z@ - unit.z@ <= STRAIGHT_SLACK
        }),
{
    let unit = ray.direction().normalized_spec();
    lemma_normalized_is_unit(ray.direction());
    lemma_index_one(m, ray, rec, s);
    lemma_refract_straight(unit, rec.normal);
    Ray::lemma_new(rec.p, unit.refract_spec(rec.normal, Scalar { raw: SCALE }));
}

/// Light that meets a surface head on, its unit direction the exact
/// negation of a normal of unit length or more, is not bent where the
/// indices on the two sides are equal.
pub proof fn lemma_head_on_goes_straight(unit: Vec3, normal: Vec3)
    requires
        unit == normal.negated(),
        normal.x.raw > i64::MIN,
        normal.y.raw > i64::MIN,
        normal.z.raw > i64::MIN,
        dot_raw(normal, normal) >= SCALE * SCALE,
    ensures
        Dielectric::cos_theta(unit, normal) == (Scalar { raw: SCALE }),
        unit.refract_spec(normal, Scalar { raw: SCALE }) == unit,
{
    let scale = SCALE as int;
    let one = Scalar { raw: SCALE };
    let zero = Scalar { raw: 0 };
    // The cosine is capped at one.
    assert(unit.negated() == normal);
    lemma_trunc_div_multiple(scale, scale);
    lemma_trunc_div_monotone(scale * scale, dot_raw(normal, normal), scale);
    assert(Dielectric::cos_theta(unit, normal) == one);
    // The part across the normal vanishes.
    lemma_trunc_div_multiple(normal.x@, scale);
    lemma_trunc_div_multiple(normal.y@, scale);
    lemma_trunc_div_multiple(normal.z@, scale);
    assert(normal.scaled(one) == normal);
    assert(unit.plus(normal) == Vec3::zero_spec());
    lemma_trunc_div(0, scale);
    assert(0int * scale == 0);
    let perp = unit.plus(normal.scaled(one)).scaled(one);
    assert(perp == Vec3::zero_spec());
    // The part along the normal is the whole normal, reversed.
    assert(0int * 0int == 0);
    assert(dot_raw(perp, perp) == 0);
    assert(perp.dot_spec(perp) == zero);
    let rest = one.minus(perp.dot_spec(perp)).abs_spec();
    assert(rest == one);
    lemma_isqrt_square(scale);
    assert(rest.sqrt_spec() == one);
    lemma_trunc_div_multiple(-normal.x@, scale);
    lemma_trunc_div_multiple(-normal.y@, scale);
    lemma_trunc_div_multiple(-normal.z@, scale);
    assert(normal.x@ * (-scale) == (-normal.x@) * scale) by (nonlinear_arith);
    assert(normal.y@ * (-scale) == (-normal.y@) * scale) by (nonlinear_arith);
    assert(normal.z@ * (-scale) == (-normal.z@) * scale) by (nonlinear_arith);
    assert(normal.scaled(one.negated()) == unit);
}

/// The materials a surface can be made of.
#[derive(Clone, Copy, Debug, PartialEq, Eq, Structural)]
pub enum Material {
    Lambertian(Lambertian),
    Metal(Metal),
    Dielectric(Dielectric),
}

impl Material {
    /// Whether the kind of material reads the direction of the incoming
    /// ray: every kind but the matte one does.
    pub open spec fn kind_reads_direction(self) -> bool {
        !(self is Lambertian)
    }

    /// The outcome of scattering, by the kind of material.
    pub open spec fn scatter_model(self, ray: Ray, rec: HitRecord, s: Stream) -> (
        Option<(Color, Ray)>,
        Stream,
    ) {
        match self {
            Material::Lambertian(m) => m.scatter_model(rec, s),
            Material::Metal(m) => m.scatter_model(ray, rec, s),
            Material::Dielectric(m) => m.scatter_model(ray, rec, s),
        }
    }
}

/// A material scatters as its kind does.
impl Scatter for Material {
    open spec fn reads_direction(&self) -> bool {
        self.kind_reads_direction()
    }

    open spec fn scatter_spec(&self, ray: Ray, rec: HitRecord, s: Stream) -> (
        Option<(Color, Ray)>,
        Stream,
    ) {
        self.scatter_model(ray, rec, s)
    }

    fn scatter(&self, ray: &Ray, rec: &HitRecord, sampler: &mut Sampler) -> (r: Option<
        (Color, Ray),
    >) {
        match self {
            Material::Lambertian(m) => m.scatter(ray, rec, sampler),
            Material::Metal(m) => m.scatter(ray, rec, sampler),
            Material::Dielectric(m) => m.scatter(ray, rec, sampler),
        }
    }
}

/// Whether every channel of a colour lies between zero and one.
pub open spec fn in_unit_range(c: Color) -> bool {
    &&& 0 <= c.x.raw <= SCALE
    &&& 0 <= c.y.raw <= SCALE
    &&& 0 <= c.z.raw <= SCALE
}

impl Material {
    /// Whether the material's albedo, if it has one, lies in the unit range.
    pub open spec fn albedo_in_range(self) -> bool {
        match self {
            Material::Lambertian(m) => in_unit_range(m.albedo()),
            Material::Metal(m) => in_unit_range(m.albedo()),
            Material::Dielectric(_) => true,
        }
    }
}

/// A material whose albedo lies in the unit range attenuates by a colour in
/// the unit range: it never adds light.
pub proof fn lemma_attenuation_in_range(m: Material, ray: Ray, rec: HitRecord, s: Stream)
    requires
        m.albedo_in_range(),
    ensures
        m.scatter_model(ray, rec, s).0 matches Some((attenuation, _)) ==> in_unit_range(
            attenuation,
        ),
{
}

/// The product of two colours of the unit range lies in the unit range.
pub proof fn lemma_product_in_range(a: Color, b: Color)
    requires
        in_unit_range(a),
        in_unit_range(b),
    ensures
        in_unit_range(a.times(b)),
{
    lemma_channel_product(a.x@, b.x@);
    lemma_channel_product(a.y@, b.y@);
    lemma_channel_product(a.z@, b.z@);
}

/// The rounded product of two channels of the unit range lies in that range
/// and is at most the second factor.
pub proof fn lemma_channel_product(a: int, b: int)
    requires
        0 <= a <= SCALE,
        0 <= b <= SCALE,
    ensures
        0 <= trunc_div(a * b, SCALE as int) <= b,
{
    let scale = SCALE as int;
    assert(0 <= a * b <= b * scale) by (nonlinear_arith)
        requires
            0 <= a <= scale,
            0 <= b,
    ;
    lemma_trunc_div(a * b, scale);
    lemma_trunc_div_multiple(b, scale);
    lemma_trunc_div_monotone(a * b, b * scale, scale);
}

/// The rounded product of two values of the unit range grows with either
/// factor.
pub proof fn lemma_channel_product_grows(a: int, b: int, c: int, d: int)
    requires
        0 <= a <= c,
        0 <= b <= d,
    ensures
        trunc_div(a * b, SCALE as int) <= trunc_div(c * d, SCALE as int),
{
    assert(a * b <= c * d) by (nonlinear_arith)
        requires
            0 <= a <= c,
            0 <= b <= d,
    ;
    lemma_trunc_div_monotone(a * b, c * d, SCALE as int);
}

/// The share of light that a surface of the given index reflects head on,
/// `((1 - ref_idx) / (1 + ref_idx))^2`.
pub open spec fn head_on_share(ref_idx: Scalar) -> Scalar {
    let one = Scalar { raw: SCALE };
    let r = one.minus(ref_idx).over(one.plus(ref_idx));
    r.times(r)
}

/// For a positive index the share reflected head on lies in the unit range.
pub proof fn lemma_head_on_share(ref_idx: Scalar)
    requires
        ref_idx.raw > 0,
    ensures
        0 <= head_on_share(ref_idx).raw <= SCALE,
{
    let scale = SCALE as int;
    let one = Scalar { raw: SCALE };
    let top = one.minus(ref_idx);
    let below = one.plus(ref_idx);
    let r = top.over(below);
    assert(below@ > 0 && -below@ <= top@ <= below@);
    lemma_trunc_div_multiple(scale, below@);
    lemma_trunc_div_multiple(-scale, below@);
    assert(-scale * below@ <= top@ * scale <= scale * below@) by (nonlinear_arith)
        requires
            -below@ <= top@ <= below@,
            scale > 0,
    ;
    lemma_trunc_div_monotone(top@ * scale, scale * below@, below@);
    lemma_trunc_div_monotone(-scale * below@, top@ * scale, below@);
    assert(-scale <= r@ <= scale);
    assert(0 <= r@ * r@ <= scale * scale) by (nonlinear_arith)
        requires
            -scale <= r@ <= scale,
    ;
    lemma_trunc_div_multiple(scale, scale);
    lemma_trunc_div_multiple(0, scale);
    lemma_trunc_div_monotone(r@ * r@, scale * scale, scale);
    lemma_trunc_div_monotone(0 * scale, r@ * r@, scale);
}

/// For a cosine in the unit range the grazing term lies in that range, and
/// it falls as the cosine grows.
pub proof fn lemma_grazing_term(low: Scalar, high: Scalar)
    requires
        0 <= low.raw <= high.raw <= SCALE,
    ensures
        0 <= grazing_term(high).raw <= grazing_term(low).raw <= SCALE,
{
    let one = Scalar { raw: SCALE };
    let m = one.minus(high);
    let n = one.minus(low);
    let m2 = m.times(m);
    let n2 = n.times(n);
    lemma_channel_product(m@, m@);
    lemma_channel_product(n@, n@);
    lemma_channel_product_grows(m@, m@, n@, n@);
    let m3 = m2.times(m);
    let n3 = n2.times(n);
    lemma_channel_product(m2@, m@);
    lemma_channel_product(n2@, n@);
    lemma_channel_product_grows(m2@, m@, n2@, n@);
    let m4 = m3.times(m);
    let n4 = n3.times(n);
    lemma_channel_product(m3@, m@);
    lemma_channel_product(n3@, n@);
    lemma_channel_product_grows(m3@, m@, n3@, n@);
    lemma_channel_product(m4@, m@);
    lemma_channel_product(n4@, n@);
    lemma_channel_product_grows(m4@, m@, n4@, n@);
}

/// Schlick's share of reflected light is a share: for a cosine in the unit
/// range and a positive index it lies between the share reflected head on
/// and one. At the cosine one, where the light meets the surface head on,
/// it is the share reflected head on; and it never grows with the cosine.
pub proof fn lemma_reflectance(low: Scalar, high: Scalar, ref_idx: Scalar)
    requires
        0 <= low.raw <= high.raw <= SCALE,
        ref_idx.raw > 0,
    ensures
        0 <= head_on_share(ref_idx).raw <= Dielectric::reflectance_spec(high, ref_idx).raw,
        Dielectric::reflectance_spec(high, ref_idx).raw <= Dielectric::reflectance_spec(
            low,
            ref_idx,
        ).raw,
        Dielectric::reflectance_spec(low, ref_idx).raw <= SCALE,
        Dielectric::reflectance_spec(Scalar { raw: SCALE }, ref_idx) == head_on_share(ref_idx),
{
    let one = Scalar { raw: SCALE };
    let r0 = head_on_share(ref_idx);
    lemma_head_on_share(ref_idx);
    lemma_grazing_term(low, high);
    lemma_grazing_term(high, one);
    let rest = one.minus(r0);
    lemma_channel_product(grazing_term(low)@, rest@);
    lemma_channel_product(grazing_term(high)@, rest@);
    lemma_channel_product_grows(rest@, grazing_term(high)@, rest@, grazing_term(low)@);
    assert(rest@ * grazing_term(low)@ == grazing_term(low)@ * rest@) by (nonlinear_arith);
    assert(rest@ * grazing_term(high)@ == grazing_term(high)@ * rest@) by (nonlinear_arith);
    // Head on the grazing term is zero.
    lemma_channel_product(0, 0);
    assert(0int * 0int == 0);
    assert(grazing_term(one)@ == 0);
    assert(rest@ * 0 == 0);
    lemma_trunc_div_multiple(0, SCALE as int);
}

} // verus!
