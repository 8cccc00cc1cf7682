//! Shading: the colour that arrives along a ray.

use crate::hit::{
    closest_hit, lemma_closest_hit_has_direction, lemma_closest_hit_is_nearest, Hit, World,
};
use crate::material::{
    in_unit_range, lemma_attenuation_in_range, lemma_channel_product, lemma_product_in_range,
    Scatter,
};
use crate::ray::Ray;
use crate::rounding::{lemma_trunc_div, lemma_trunc_div_monotone, lemma_trunc_div_multiple};
use crate::sampler::{Sampler, Stream};
use crate::scalar::{Scalar, SCALE};
use crate::sphere::{lemma_hit_record, Sphere};
use crate::vec::{Color, Vec3};
use vstd::prelude::*;

verus! {

/// Smallest ray parameter at which a hit counts: one thousandth, so that a
/// scattered ray does not hit the surface it leaves.
pub const SHADOW_EPSILON: i64 = 1_000;

/// The colour black.
pub open spec fn black() -> Color {
    Vec3::zero_spec()
}

/// The colour of the sky along `ray`: a blend of white and sky blue by the
/// height `y` of the unit direction, `(1 - t) white + t blue` with
/// `t = (y + 1) / 2`. A ray without direction sees black.
pub open spec fn background_spec(ray: Ray) -> Color {
    if ray.direction().is_zero_spec() {
        black()
    } else {
        let one = Scalar { raw: SCALE };
        let white = Vec3 { x: one, y: one, z: one };
        let blue = Vec3 { x: Scalar { raw: 500_000 }, y: Scalar { raw: 700_000 }, z: one };
        let t = (Scalar { raw: 500_000 }).times(ray.direction().normalized_spec().y.plus(one));
        white.scaled(one.minus(t)).plus(blue.scaled(t))
    }
}

/// The colour of the sky along `ray`.
pub fn background(ray: &Ray) -> (c: Color)
    ensures
        c == background_spec(*ray),
{
    if ray.direction().is_zero() {
        Vec3::zero()
    } else {
        let one = Scalar::one();
        let white = Vec3::new(one, one, one);
        let blue = Vec3::new(Scalar::new(500_000), Scalar::new(700_000), one);
        let t = Scalar::new(500_000) * (ray.direction().normalized().y() + one);
        white * (one - t) + blue * t
    }
}

/// The colour that arrives along `ray` in the scene `world` when light may
/// bounce `depth` more times, with the draws of the stream `s`; and the
/// stream as the draws taken leave it.
///
/// With no bounce left the colour is black. A ray that hits nothing sees the
/// sky. A ray that hits a surface sees black if the material absorbs it,
/// else the attenuation times the colour along the scattered ray, with one
/// bounce fewer.
pub open spec fn ray_color_spec(ray: Ray, world: Seq<Sphere>, depth: nat, s: Stream) -> (
    Color,
    Stream,
)
    decreases depth,
{
    if depth == 0 {
        (black(), s)
    } else {
        match closest_hit(
            world,
            ray,
            Scalar { raw: SHADOW_EPSILON },
            Scalar { raw: i64::MAX },
            world.len(),
        ) {
            Some(rec) => {
                let (outcome, rest) = rec.mat.scatter_model(ray, rec, s);
                match outcome {
                    Some((attenuation, scattered)) => {
                        let (incoming, end) = ray_color_spec(
                            scattered,
                            world,
                            (depth - 1) as nat,
                            rest,
                        );
                        (attenuation.times(incoming), end)
                    },
                    None => (black(), rest),
                }
            },
            None => (background_spec(ray), s),
        }
    }
}

/// The colour that arrives along `ray` in the scene `world` when light may
/// bounce `depth` more times.
pub fn ray_color(ray: &Ray, world: &World, depth: u64, sampler: &mut Sampler) -> (c: Color)
    ensures
        (c, final(sampler)@) == ray_color_spec(*ray, world@, depth as nat, old(sampler)@),
        final(sampler)@.table == old(sampler)@.table,
    decreases depth,
{
    if depth == 0 {
        return Vec3::zero();
    }
    match world.hit(ray, Scalar::new(SHADOW_EPSILON), Scalar::max_value()) {
        Some(rec) => {
            proof {
                lemma_closest_hit_has_direction(
                    world@,
                    *ray,
                    Scalar { raw: SHADOW_EPSILON },
                    Scalar { raw: i64::MAX },
                    world@.len(),
                );
            }
            match rec.mat.scatter(ray, &rec, sampler) {
                Some((attenuation, scattered)) => {
                    attenuation * ray_color(&scattered, world, depth - 1, sampler)
                },
                None => Vec3::zero(),
            }
        },
        None => background(ray),
    }
}

/// Whether the albedo of every surface of a scene lies in the unit range.
pub open spec fn scene_in_range(world: Seq<Sphere>) -> bool {
    forall|i: int| 0 <= i < world.len() ==> (#[trigger] world[i]).material().albedo_in_range()
}

/// The colour of the sky lies in the unit range.
pub proof fn lemma_background_in_range(ray: Ray)
    ensures
        in_unit_range(background_spec(ray)),
{
    if !ray.direction().is_zero_spec() {
        let scale = SCALE as int;
        let one = Scalar { raw: SCALE };
        let unit = ray.direction().normalized_spec();
        crate::vec::lemma_normalized_bounds(ray.direction());
        let height = unit.y.plus(one);
        assert(0 <= height@ <= 2 * scale);
        lemma_trunc_div(500_000 * height@, scale);
        lemma_trunc_div_multiple(scale, scale);
        lemma_trunc_div_monotone(500_000 * height@, scale * scale, scale);
        let t = (Scalar { raw: 500_000 }).times(height);
        assert(0 <= t@ <= scale);
        let rest = one.minus(t);
        lemma_trunc_div_multiple(rest@, scale);
        assert(scale * rest@ == rest@ * scale);
        lemma_channel_product(500_000, t@);
        lemma_channel_product(700_000, t@);
        lemma_channel_product(scale, t@);
    }
}

/// No light is made on the way: in a scene whose albedos lie in the unit
/// range, the colour that arrives along any ray lies in the unit range.
pub proof fn lemma_ray_color_in_range(ray: Ray, world: Seq<Sphere>, depth: nat, s: Stream)
    requires
        scene_in_range(world),
    ensures
        in_unit_range(ray_color_spec(ray, world, depth, s).0),
    decreases depth,
{
    if depth > 0 {
        let t_min = Scalar { raw: SHADOW_EPSILON };
        let t_max = Scalar { raw: i64::MAX };
        match closest_hit(world, ray, t_min, t_max, world.len()) {
            Some(rec) => {
                lemma_closest_hit_is_nearest(world, ray, t_min, t_max, world.len());
                let i = choose|i: int|
                    0 <= i < world.len() && (#[trigger] world[i]).hit_model(ray, t_min, t_max)
                        == Some(rec);
                lemma_hit_record(world[i], ray, t_min, t_max);
                assert(rec.mat.albedo_in_range());
                lemma_attenuation_in_range(rec.mat, ray, rec, s);
                let (outcome, rest) = rec.mat.scatter_model(ray, rec, s);
                match outcome {
                    Some((attenuation, scattered)) => {
                        lemma_ray_color_in_range(scattered, world, (depth - 1) as nat, rest);
                        let incoming = ray_color_spec(scattered, world, (depth - 1) as nat, rest).0;
                        lemma_product_in_range(attenuation, incoming);
                    },
                    None => {},
                }
            },
            None => {
                lemma_background_in_range(ray);
            },
        }
    }
}

} // verus!
