//! Intersections: the record of a hit, the surfaces that can be hit, and the
//! scene that holds them.

use crate::material::Material;
use crate::ray::Ray;
use crate::rounding::lemma_trunc_div;
use crate::scalar::{trunc_div, Scalar, SCALE};
use crate::sphere::{
    lemma_hit_has_direction, lemma_hit_record, lemma_hit_within_limit, lemma_miss_within_limit,
    Sphere,
};
use crate::unit::is_unit;
use crate::vec::{dot_raw, Point3, Vec3};
use core::ops::Neg;
use vstd::prelude::*;

verus! {

/// Where and how a ray met a surface.
#[derive(Clone, Copy, Debug, PartialEq, Eq, Structural)]
pub struct HitRecord {
    /// The point that was hit.
    pub p: Point3,
    /// The surface normal at that point, turned against the ray.
    pub normal: Vec3,
    /// The material of the surface.
    pub mat: Material,
    /// The ray parameter of the hit.
    pub t: Scalar,
    /// Whether the ray came from the side the surface's own normal points to.
    pub front_face: bool,
}

impl HitRecord {
    /// The record of `ray` meeting a surface at `p`, parameter `t`, where the
    /// surface's own normal is `outward`: the ray comes from the front if it
    /// runs against `outward`, and the recorded normal is `outward` turned
    /// against the ray.
    pub open spec fn facing(ray: Ray, p: Point3, t: Scalar, outward: Vec3, mat: Material)
        -> HitRecord {
        let front = ray.direction().dot_spec(outward).raw < 0;
        HitRecord {
            p,
            normal: if front {
                outward
            } else {
                outward.negated()
            },
            mat,
            t,
            front_face: front,
        }
    }

    /// Sets `front_face` and `normal` from the ray and the surface's own
    /// normal; the other fields stay.
    pub fn set_face_normal(&mut self, ray: &Ray, outward_normal: Vec3)
        ensures
            *final(self) == HitRecord::facing(
                *ray,
                old(self).p,
                old(self).t,
                outward_normal,
                old(self).mat,
            ),
    {
        self.front_face = ray.direction().dot(outward_normal).raw < 0;
        self.normal = if self.front_face {
            outward_normal
        } else {
            outward_normal.neg()
        };
    }
}

/// The recorded normal never runs along the ray: its dot product with the
/// ray's direction is at most zero. This holds unless a component of the
/// surface's own normal is the most negative value there is, which has no
/// negation.
pub proof fn lemma_facing_opposes(ray: Ray, p: Point3, t: Scalar, outward: Vec3, mat: Material)
    requires
        outward.x.raw > i64::MIN,
        outward.y.raw > i64::MIN,
        outward.z.raw > i64::MIN,
    ensures
        ray.direction().dot_spec(HitRecord::facing(ray, p, t, outward, mat).normal).raw <= 0,
{
    let d = ray.direction();
    let scale = SCALE as int;
    let along = dot_raw(d, outward);
    lemma_trunc_div(along, scale);
    if d.dot_spec(outward).raw >= 0 {
        let turned = outward.negated();
        assert(dot_raw(d, turned) == -along) by (nonlinear_arith)
            requires
                turned.x@ == -outward.x@,
                turned.y@ == -outward.y@,
                turned.z@ == -outward.z@,
                along == d.x@ * outward.x@ + d.y@ * outward.y@ + d.z@ * outward.z@,
                dot_raw(d, turned) == d.x@ * turned.x@ + d.y@ * turned.y@ + d.z@ * turned.z@,
        ;
        lemma_trunc_div(-along, scale);
        if along < 0 {
            assert(trunc_div(along, scale) == 0);
            assert(trunc_div(-along, scale) * scale <= -along < scale);
            assert(trunc_div(-along, scale) <= 0) by (nonlinear_arith)
                requires
                    trunc_div(-along, scale) * scale < scale,
                    scale > 0,
            ;
        }
    }
}

/// A surface that a ray can hit.
pub trait Hit {
    /// The nearest hit of `ray` on the surface with parameter in
    /// `[t_min, t_max]`, if there is one.
    spec fn hit_spec(&self, ray: Ray, t_min: Scalar, t_max: Scalar) -> Option<HitRecord>;

    /// Finds the nearest hit of `ray` with parameter in `[t_min, t_max]`.
    fn hit(&self, ray: &Ray, t_min: Scalar, t_max: Scalar) -> (r: Option<HitRecord>)
        ensures
            r == self.hit_spec(*ray, t_min, t_max),
    ;
}

/// The hit that a scene reports when only its first `n` surfaces are asked,
/// in order, each within the interval that the hits before it have left.
pub open spec fn closest_hit(
    spheres: Seq<Sphere>,
    ray: Ray,
    t_min: Scalar,
    t_max: Scalar,
    n: nat,
) -> Option<HitRecord>
    decreases n,
{
    if n == 0 {
        None
    } else {
        let before = closest_hit(spheres, ray, t_min, t_max, (n - 1) as nat);
        let limit = match before {
            Some(rec) => rec.t,
            None => t_max,
        };
        match spheres[n - 1].hit_model(ray, t_min, limit) {
            Some(rec) => Some(rec),
            None => before,
        }
    }
}

/// The hit that a scene reports is the nearest of the hits of its surfaces:
/// it is the hit of one of them within the interval asked for, and no
/// surface is hit nearer within that interval. The scene reports no hit
/// exactly if none of its surfaces is hit.
pub proof fn lemma_closest_hit_is_nearest(
    spheres: Seq<Sphere>,
    ray: Ray,
    t_min: Scalar,
    t_max: Scalar,
    n: nat,
)
    requires
        n <= spheres.len(),
    ensures
        match closest_hit(spheres, ray, t_min, t_max, n) {
            None => forall|i: int|
                0 <= i < n ==> (#[trigger] spheres[i]).hit_model(ray, t_min, t_max) is None,
            Some(rec) => {
                &&& t_min.raw <= rec.t.raw <= t_max.raw
                &&& exists|i: int|
                    0 <= i < n && (#[trigger] spheres[i]).hit_model(ray, t_min, t_max) == Some(rec)
                &&& forall|j: int|
                    0 <= j < n ==> ((#[trigger] spheres[j]).hit_model(ray, t_min, t_max) matches Some(
                        other,
                    ) ==> rec.t.raw <= other.t.raw)
            },
        },
    decreases n,
{
    if n > 0 {
        let m = (n - 1) as nat;
        let before = closest_hit(spheres, ray, t_min, t_max, m);
        let limit = match before {
            Some(rec) => rec.t,
            None => t_max,
        };
        let last = spheres[n - 1];
        lemma_closest_hit_is_nearest(spheres, ray, t_min, t_max, m);
        match last.hit_model(ray, t_min, limit) {
            Some(rec) => {
                lemma_hit_within_limit(last, ray, t_min, limit, t_max);
                assert(spheres[n - 1].hit_model(ray, t_min, t_max) == Some(rec));
            },
            None => {
                if last.hit_model(ray, t_min, t_max) is Some {
                    lemma_miss_within_limit(last, ray, t_min, limit, t_max);
                }
                match before {
                    Some(found) => {
                        let i = choose|i: int|
                            0 <= i < m && (#[trigger] spheres[i]).hit_model(ray, t_min, t_max)
                                == Some(found);
                        assert(0 <= i < n && spheres[i].hit_model(ray, t_min, t_max) == Some(
                            found,
                        ));
                    },
                    None => {},
                }
            },
        }
    }
}

/// What the hit on a scene records: the point of the ray at the parameter
/// of the hit, and a normal of unit length that does not run along the ray.
pub proof fn lemma_closest_hit_record(
    spheres: Seq<Sphere>,
    ray: Ray,
    t_min: Scalar,
    t_max: Scalar,
)
    ensures
        closest_hit(spheres, ray, t_min, t_max, spheres.len()) matches Some(rec) ==> {
            &&& rec.p == ray.at_spec(rec.t)
            &&& ray.direction().dot_spec(rec.normal).raw <= 0
            &&& is_unit(rec.normal)
        },
{
    lemma_closest_hit_is_nearest(spheres, ray, t_min, t_max, spheres.len());
    match closest_hit(spheres, ray, t_min, t_max, spheres.len()) {
        Some(rec) => {
            let i = choose|i: int|
                0 <= i < spheres.len() && (#[trigger] spheres[i]).hit_model(ray, t_min, t_max)
                    == Some(rec);
            lemma_hit_record(spheres[i], ray, t_min, t_max);
        },
        None => {},
    }
}

/// The order in which surfaces were added to a scene does not matter to how
/// near the scene is hit: two scenes of the same surfaces are hit by the
/// same rays, and at the same parameter.
pub proof fn lemma_order_is_irrelevant(
    first: Seq<Sphere>,
    second: Seq<Sphere>,
    ray: Ray,
    t_min: Scalar,
    t_max: Scalar,
)
    requires
        forall|i: int| 0 <= i < first.len() ==> second.contains(#[trigger] first[i]),
        forall|j: int| 0 <= j < second.len() ==> first.contains(#[trigger] second[j]),
    ensures
        match (
            closest_hit(first, ray, t_min, t_max, first.len()),
            closest_hit(second, ray, t_min, t_max, second.len()),
        ) {
            (None, None) => true,
            (Some(one), Some(other)) => one.t == other.t,
            _ => false,
        },
{
    lemma_closest_hit_is_nearest(first, ray, t_min, t_max, first.len());
    lemma_closest_hit_is_nearest(second, ray, t_min, t_max, second.len());
    let a = closest_hit(first, ray, t_min, t_max, first.len());
    let b = closest_hit(second, ray, t_min, t_max, second.len());
    match a {
        Some(one) => {
            let i = choose|i: int|
                0 <= i < first.len() && (#[trigger] first[i]).hit_model(ray, t_min, t_max) == Some(
                    one,
                );
            assert(second.contains(first[i]));
            let j = choose|j: int| 0 <= j < second.len() && second[j] == first[i];
            assert(second[j].hit_model(ray, t_min, t_max) == Some(one));
        },
        None => {},
    }
    match b {
        Some(other) => {
            let j = choose|j: int|
                0 <= j < second.len() && (#[trigger] second[j]).hit_model(ray, t_min, t_max)
                    == Some(other);
            assert(first.contains(second[j]));
            let i = choose|i: int| 0 <= i < first.len() && first[i] == second[j];
            assert(first[i].hit_model(ray, t_min, t_max) == Some(other));
        },
        None => {},
    }
}

/// A scene is hit only by a ray that has a direction.
pub proof fn lemma_closest_hit_has_direction(
    spheres: Seq<Sphere>,
    ray: Ray,
    t_min: Scalar,
    t_max: Scalar,
    n: nat,
)
    ensures
        closest_hit(spheres, ray, t_min, t_max, n) is Some ==> !ray.direction().is_zero_spec(),
    decreases n,
{
    if n > 0 {
        let before = closest_hit(spheres, ray, t_min, t_max, (n - 1) as nat);
        let limit = match before {
            Some(rec) => rec.t,
            None => t_max,
        };
        lemma_closest_hit_has_direction(spheres, ray, t_min, t_max, (n - 1) as nat);
        lemma_hit_has_direction(spheres[n - 1], ray, t_min, limit);
    }
}

/// A scene: the surfaces in it, in the order they were added.
pub struct World {
    spheres: Vec<Sphere>,
}

impl View for World {
    type V = Seq<Sphere>;

    /// The surfaces of the scene, in the order they were added.
    closed spec fn view(&self) -> Seq<Sphere> {
        self.spheres@
    }
}

impl World {
    /// The empty scene.
    pub fn new() -> (w: World)
        ensures
            w@ == Seq::<Sphere>::empty(),
    {
        World { spheres: Vec::new() }
    }

    /// Adds a surface to the scene.
    pub fn push(&mut self, sphere: Sphere)
        ensures
            final(self)@ == old(self)@.push(sphere),
    {
        self.spheres.push(sphere);
    }

    /// Number of surfaces in the scene.
    pub fn len(&self) -> (n: usize)
        ensures
            n == self@.len(),
    {
        self.spheres.len()
    }
}

/// A scene is hit where the nearest of its surfaces is hit.
impl Hit for World {
    open spec fn hit_spec(&self, ray: Ray, t_min: Scalar, t_max: Scalar) -> Option<HitRecord> {
        closest_hit(self@, ray, t_min, t_max, self@.len())
    }

    fn hit(&self, ray: &Ray, t_min: Scalar, t_max: Scalar) -> (r: Option<HitRecord>)
        ensures
            r is None <==> forall|i: int|
                0 <= i < self@.len() ==> (#[trigger] self@[i]).hit_model(*ray, t_min, t_max)
                    is None,
            r matches Some(rec) ==> {
                &&& t_min.raw <= rec.t.raw <= t_max.raw
                &&& rec.p == ray.at_spec(rec.t)
                &&& ray.direction().dot_spec(rec.normal).raw <= 0
                &&& is_unit(rec.normal)
                &&& exists|i: int|
                    0 <= i < self@.len() && (#[trigger] self@[i]).hit_model(*ray, t_min, t_max)
                        == Some(rec)
                &&& forall|j: int|
                    0 <= j < self@.len() ==> ((#[trigger] self@[j]).hit_model(
                        *ray,
                        t_min,
                        t_max,
                    ) matches Some(other) ==> rec.t.raw <= other.t.raw)
            },
    {
        proof {
            lemma_closest_hit_is_nearest(self@, *ray, t_min, t_max, self@.len());
            lemma_closest_hit_record(self@, *ray, t_min, t_max);
        }
        let mut found: Option<HitRecord> = None;
        let mut closest: Scalar = t_max;
        let mut i: usize = 0;
        while i < self.spheres.len()
            invariant
                i <= self.spheres@.len(),
                found == closest_hit(self@, *ray, t_min, t_max, i as nat),
                closest == match found {
                    Some(rec) => rec.t,
                    None => t_max,
                },
            decreases self.spheres@.len() - i,
        {
            match self.spheres[i].hit(ray, t_min, closest) {
                Some(rec) => {
                    closest = rec.t;
                    found = Some(rec);
                },
                None => {},
            }
            i += 1;
        }
        found
    }
}

} // verus!
