use rusttracing::camera::Camera;
use rusttracing::hit::{Hit, HitRecord, World};
use rusttracing::material::{Lambertian, Material, Metal};
use rusttracing::ray::Ray;
use rusttracing::scalar::Scalar;
use rusttracing::sphere::{hit_sphere, Sphere};
use rusttracing::vec::Vec3;

const ONE: i64 = 1_000_000;

fn s(raw: i64) -> Scalar {
    Scalar::new(raw)
}

fn v(x: i64, y: i64, z: i64) -> Vec3 {
    Vec3::from_raw(x, y, z)
}

fn grey() -> Material {
    Material::Lambertian(Lambertian::new(v(500_000, 500_000, 500_000)))
}

fn steel() -> Material {
    Material::Metal(Metal::new(v(800_000, 800_000, 800_000), s(0)))
}

fn epsilon() -> Scalar {
    s(1_000)
}

#[test]
fn ray_keeps_its_parts() {
    let r = Ray::new(v(1, 2, 3), v(4, 5, 6));
    assert_eq!(r.origin(), v(1, 2, 3));
    assert_eq!(r.direction(), v(4, 5, 6));
}

#[test]
fn ray_at_moves_along_the_direction() {
    let r = Ray::new(v(ONE, 2 * ONE, 3 * ONE), v(0, ONE, -2 * ONE));
    assert_eq!(r.at(s(0)), v(ONE, 2 * ONE, 3 * ONE));
    assert_eq!(r.at(s(1_500_000)), v(ONE, 3_500_000, 0));
    assert_eq!(r.at(s(-ONE)), v(ONE, ONE, 5 * ONE));
}

#[test]
fn ray_through_the_centre_hits_at_distance_less_radius() {
    let sphere = Sphere::new(v(0, 0, 0), s(500_000), grey());
    let ray = Ray::new(v(0, 0, 2 * ONE), v(0, 0, -ONE));
    let rec = sphere.hit(&ray, epsilon(), Scalar::max_value()).unwrap();
    assert_eq!(rec.t, s(1_500_000));
    assert_eq!(rec.p, v(0, 0, 500_000));
    assert_eq!(rec.normal, v(0, 0, ONE));
    assert!(rec.front_face);
    assert_eq!(rec.mat, grey());
}

#[test]
fn far_root_is_taken_when_the_near_one_is_out_of_range() {
    let sphere = Sphere::new(v(0, 0, 0), s(500_000), grey());
    let ray = Ray::new(v(0, 0, 2 * ONE), v(0, 0, -ONE));
    // The far root is the distance plus the radius.
    let rec = sphere.hit(&ray, s(1_600_000), Scalar::max_value()).unwrap();
    assert_eq!(rec.t, s(2_500_000));
    assert_eq!(rec.p, v(0, 0, -500_000));
    assert_eq!(rec.normal, v(0, 0, ONE));
    assert!(!rec.front_face);
    // Neither root lies in the interval.
    assert!(sphere.hit(&ray, epsilon(), s(1_400_000)).is_none());
    assert!(sphere.hit(&ray, s(1_600_000), s(2_400_000)).is_none());
    assert!(sphere.hit(&ray, s(2_600_000), Scalar::max_value()).is_none());
    // The ends of the interval count.
    assert_eq!(sphere.hit(&ray, s(1_500_000), s(1_500_000)).unwrap().t, s(1_500_000));
}

#[test]
fn ray_from_inside_hits_the_back_face() {
    let sphere = Sphere::new(v(0, 0, 0), s(500_000), grey());
    let ray = Ray::new(v(0, 0, 0), v(0, 0, -ONE));
    let rec = sphere.hit(&ray, epsilon(), Scalar::max_value()).unwrap();
    assert_eq!(rec.t, s(500_000));
    assert_eq!(rec.p, v(0, 0, -500_000));
    assert_eq!(rec.normal, v(0, 0, ONE));
    assert!(!rec.front_face);
}

#[test]
fn ray_pointing_away_misses() {
    let sphere = Sphere::new(v(0, 0, 0), s(500_000), grey());
    let ray = Ray::new(v(0, 0, 2 * ONE), v(0, 0, ONE));
    assert!(sphere.hit(&ray, epsilon(), Scalar::max_value()).is_none());
    assert!(sphere.hit(&ray, epsilon(), s(1)).is_none());
    let ray = Ray::new(v(3 * ONE, ONE, 0), v(ONE, 200_000, -100_000));
    assert!(sphere.hit(&ray, epsilon(), Scalar::max_value()).is_none());
}

#[test]
fn ray_passing_by_misses() {
    let sphere = Sphere::new(v(0, 0, -ONE), s(500_000), grey());
    let ray = Ray::new(v(0, 0, 0), v(ONE, 0, -ONE));
    assert!(sphere.hit(&ray, epsilon(), Scalar::max_value()).is_none());
}

#[test]
fn negative_radius_turns_the_surface_inside_out() {
    let sphere = Sphere::new(v(0, 0, 0), s(-500_000), grey());
    let ray = Ray::new(v(0, 0, 2 * ONE), v(0, 0, -ONE));
    let rec = sphere.hit(&ray, epsilon(), Scalar::max_value()).unwrap();
    assert_eq!(rec.t, s(1_500_000));
    assert_eq!(rec.p, v(0, 0, 500_000));
    // The recorded normal still opposes the ray, but the face is the back.
    assert_eq!(rec.normal, v(0, 0, ONE));
    assert!(!rec.front_face);
}

#[test]
fn oblique_hit_has_the_computed_record() {
    let sphere = Sphere::new(v(0, 0, -ONE), s(500_000), grey());
    let ray = Ray::new(v(0, 0, 0), v(200_000, 100_000, -ONE));
    let rec = sphere.hit(&ray, epsilon(), Scalar::max_value()).unwrap();
    assert_eq!(rec.t, s(513_355));
    assert_eq!(rec.p, v(102_671, 51_335, -513_355));
    assert_eq!(rec.normal, v(205_342, 102_670, 973_290));
    assert!(rec.front_face);
    assert!(ray.direction().dot(rec.normal).raw <= 0);
}

#[test]
fn large_sphere_is_hit_like_the_ground() {
    let sphere = Sphere::new(v(0, -100_500_000, -ONE), s(100 * ONE), grey());
    let ray = Ray::new(v(0, 0, 0), v(0, -ONE, -ONE));
    let rec = sphere.hit(&ray, epsilon(), Scalar::max_value()).unwrap();
    assert_eq!(rec.t, s(501_243));
    assert_eq!(rec.p, v(0, -501_243, -501_243));
    assert_eq!(rec.normal, v(0, 999_987, 4_987));
    assert!(rec.front_face);
}

#[test]
fn short_directions_hit_like_long_ones() {
    let sphere = Sphere::new(v(0, 0, -ONE), s(500_000), grey());
    // A direction of length 0.000999 reaches the sphere at parameter 500.5005.
    let rec = sphere
        .hit(&Ray::new(v(0, 0, 0), v(0, 0, -999)), epsilon(), Scalar::max_value())
        .unwrap();
    assert_eq!(rec.t, s(500_500_500));
    assert_eq!(rec.p, v(0, 0, -499_999));
    assert_eq!(rec.normal, v(0, 0, ONE));
    assert!(rec.front_face);
    // The unit sphere from five units away, along a direction of 0.0005.
    let unit = Sphere::new(v(0, 0, 0), s(ONE), grey());
    let rec = unit
        .hit(&Ray::new(v(0, 0, 5 * ONE), v(0, 0, -500)), epsilon(), Scalar::max_value())
        .unwrap();
    assert_eq!(rec.t, s(8_000 * ONE));
    assert_eq!(rec.p, v(0, 0, ONE));
    // A direction of one millionth.
    let rec = unit
        .hit(&Ray::new(v(0, 0, 5 * ONE), v(0, 0, -1)), epsilon(), Scalar::max_value())
        .unwrap();
    assert_eq!(rec.t, s(4_000_000 * ONE));
}

#[test]
fn ray_without_direction_hits_nothing() {
    let sphere = Sphere::new(v(0, 0, -ONE), s(500_000), grey());
    assert!(sphere
        .hit(&Ray::new(v(0, 0, 0), v(0, 0, 0)), epsilon(), Scalar::max_value())
        .is_none());
    assert!(sphere
        .hit(&Ray::new(v(0, 0, -ONE), v(0, 0, 0)), s(i64::MIN), Scalar::max_value())
        .is_none());
}

#[test]
fn small_spheres_are_hit() {
    let ray = Ray::new(v(0, 0, 5 * ONE), v(0, 0, -ONE));
    for (radius, t) in [(500, 4_999_500), (1, 4_999_999), (1_500, 4_998_500), (999, 4_999_001)] {
        let sphere = Sphere::new(v(0, 0, 0), s(radius), grey());
        let rec = sphere.hit(&ray, epsilon(), Scalar::max_value()).unwrap();
        assert_eq!(rec.t, s(t));
        assert_eq!(rec.p, v(0, 0, radius));
        assert_eq!(rec.normal, v(0, 0, ONE));
        assert!(rec.front_face);
    }
}

#[test]
fn sphere_of_radius_zero_is_hit_through_its_centre() {
    let sphere = Sphere::new(v(0, 0, 0), s(0), grey());
    let rec = sphere
        .hit(&Ray::new(v(0, 0, ONE), v(0, 0, -ONE)), epsilon(), Scalar::max_value())
        .unwrap();
    assert_eq!(rec.t, s(ONE));
    assert_eq!(rec.p, v(0, 0, 0));
    // At the centre the normal is taken against the ray.
    assert_eq!(rec.normal, v(0, 0, ONE));
    assert!(rec.front_face);
    assert!(sphere
        .hit(&Ray::new(v(1, 0, ONE), v(0, 0, -ONE)), epsilon(), Scalar::max_value())
        .is_none());
}

#[test]
fn spheres_far_away_are_hit() {
    // Beyond a thousand units the components are halved before the
    // quadratic is formed.
    let sphere = Sphere::new(v(0, 0, 0), s(500 * ONE), grey());
    let rec = sphere
        .hit(&Ray::new(v(0, 0, 5_000 * ONE), v(0, 0, -ONE)), epsilon(), Scalar::max_value())
        .unwrap();
    assert_eq!(rec.t, s(4_500 * ONE));
    assert_eq!(rec.p, v(0, 0, 500 * ONE));
    let sphere = Sphere::new(v(0, 0, -5_000 * ONE), s(3_000 * ONE), grey());
    let rec = sphere
        .hit(&Ray::new(v(0, 0, 0), v(0, 0, -2_000 * ONE)), epsilon(), Scalar::max_value())
        .unwrap();
    assert_eq!(rec.t, s(ONE));
    assert_eq!(rec.p, v(0, 0, -2_000 * ONE));
}

#[test]
fn ray_pointing_away_misses_from_zero_on() {
    // The origin lies a millionth outside the unit sphere.
    let sphere = Sphere::new(v(0, 0, 0), s(ONE), grey());
    let ray = Ray::new(v(1, 0, ONE), v(0, 0, ONE));
    assert!(sphere.hit(&ray, s(0), Scalar::max_value()).is_none());
    let sphere = Sphere::new(v(0, 0, 0), s(0), grey());
    let ray = Ray::new(v(0, 0, 1), v(0, 0, 2 * ONE));
    assert!(sphere.hit(&ray, s(0), s(ONE)).is_none());
}

#[test]
fn set_face_normal_turns_the_normal_against_the_ray() {
    let ray = Ray::new(v(0, 0, 0), v(0, 0, -ONE));
    let mut rec = HitRecord {
        p: v(1, 2, 3),
        normal: Vec3::zero(),
        mat: grey(),
        t: s(5),
        front_face: false,
    };
    rec.set_face_normal(&ray, v(0, 0, ONE));
    assert!(rec.front_face);
    assert_eq!(rec.normal, v(0, 0, ONE));
    rec.set_face_normal(&ray, v(0, 0, -ONE));
    assert!(!rec.front_face);
    assert_eq!(rec.normal, v(0, 0, ONE));
    // A normal at right angles to the ray counts as the back face.
    rec.set_face_normal(&ray, v(ONE, 0, 0));
    assert!(!rec.front_face);
    assert_eq!(rec.normal, v(-ONE, 0, 0));
    assert_eq!(rec.p, v(1, 2, 3));
    assert_eq!(rec.t, s(5));
    assert_eq!(rec.mat, grey());
}

#[test]
fn empty_world_is_never_hit() {
    let world = World::new();
    assert_eq!(world.len(), 0);
    let ray = Ray::new(v(0, 0, 0), v(0, 0, -ONE));
    assert!(world.hit(&ray, epsilon(), Scalar::max_value()).is_none());
}

#[test]
fn world_reports_the_nearest_hit_whatever_the_order() {
    let near = Sphere::new(v(0, 0, -ONE), s(500_000), grey());
    let far = Sphere::new(v(0, 0, -3 * ONE), s(500_000), steel());
    let ray = Ray::new(v(0, 0, 0), v(0, 0, -ONE));

    let mut world = World::new();
    world.push(near);
    world.push(far);
    assert_eq!(world.len(), 2);
    let rec = world.hit(&ray, epsilon(), Scalar::max_value()).unwrap();
    assert_eq!(rec.t, s(500_000));
    assert_eq!(rec.mat, grey());

    let mut world = World::new();
    world.push(far);
    world.push(near);
    let rec = world.hit(&ray, epsilon(), Scalar::max_value()).unwrap();
    assert_eq!(rec.t, s(500_000));
    assert_eq!(rec.mat, grey());

    // With the near sphere out of range the far one is found.
    let rec = world.hit(&ray, s(2 * ONE), Scalar::max_value()).unwrap();
    assert_eq!(rec.t, s(2_500_000));
    assert_eq!(rec.mat, steel());
    assert!(world.hit(&ray, s(4 * ONE), Scalar::max_value()).is_none());
}

#[test]
fn world_hit_agrees_with_the_single_sphere() {
    let sphere = Sphere::new(v(0, 0, -ONE), s(500_000), grey());
    let mut world = World::new();
    world.push(sphere);
    let ray = Ray::new(v(0, 0, 0), v(200_000, 100_000, -ONE));
    assert_eq!(
        world.hit(&ray, epsilon(), Scalar::max_value()),
        sphere.hit(&ray, epsilon(), Scalar::max_value())
    );
}

#[test]
fn camera_looks_down_the_negative_z_axis() {
    let cam = Camera::new(s(ONE));
    let ray = cam.get_ray(s(500_000), s(500_000));
    assert_eq!(ray.origin(), v(0, 0, 0));
    assert_eq!(ray.direction(), v(0, 0, -ONE));
}

#[test]
fn camera_spans_the_viewport() {
    let aspect = Scalar::from_int(16) / Scalar::from_int(9);
    assert_eq!(aspect, s(1_777_777));
    let cam = Camera::new(aspect);
    assert_eq!(cam.get_ray(s(0), s(0)).direction(), v(-1_777_777, -ONE, -ONE));
    assert_eq!(cam.get_ray(s(ONE), s(ONE)).direction(), v(1_777_777, ONE, -ONE));
    assert_eq!(cam.get_ray(s(ONE), s(0)).direction(), v(1_777_777, -ONE, -ONE));
    assert_eq!(cam.get_ray(s(500_000), s(500_000)).direction(), v(0, 0, -ONE));
    assert_eq!(cam.get_ray(s(250_000), s(750_000)).origin(), v(0, 0, 0));
}

#[test]
fn centre_ray_hits_the_sphere_in_front_of_the_camera() {
    let cam = Camera::new(s(ONE));
    let sphere = Sphere::new(v(0, 0, -ONE), s(500_000), grey());
    let ray = cam.get_ray(s(500_000), s(500_000));
    let rec = sphere.hit(&ray, epsilon(), Scalar::max_value()).unwrap();
    assert_eq!(rec.t, s(500_000));
    assert_eq!(rec.p, v(0, 0, -500_000));
    assert_eq!(rec.normal, v(0, 0, ONE));
    assert!(rec.front_face);
}

#[test]
fn hit_sphere_gives_the_first_meeting_of_the_whole_line() {
    let center = v(0, 0, -ONE);
    let radius = s(500_000);
    let from = v(0, 0, 0);
    assert_eq!(hit_sphere(center, radius, &Ray::new(from, v(0, 0, -ONE))), s(500_000));
    // Behind the origin the parameter is negative.
    assert_eq!(hit_sphere(center, radius, &Ray::new(from, v(0, 0, ONE))), s(-1_500_000));
    // A line that misses gives minus one.
    assert_eq!(hit_sphere(center, radius, &Ray::new(from, v(ONE, 0, -ONE))), s(-ONE));
    assert_eq!(
        hit_sphere(center, radius, &Ray::new(from, v(200_000, 100_000, -ONE))),
        s(513_355)
    );
    // From the centre, along a direction of length two.
    assert_eq!(
        hit_sphere(v(0, 0, 0), radius, &Ray::new(from, v(0, 0, -2 * ONE))),
        s(-250_000)
    );
    // Along a direction of length 0.0005.
    assert_eq!(
        hit_sphere(center, radius, &Ray::new(from, v(0, 0, -500))),
        s(1_000 * ONE)
    );
}

#[test]
fn ray_leaving_the_surface_does_not_hit_it_again() {
    let sphere = Sphere::new(v(0, 0, -ONE), s(500_000), grey());
    // Straight out from the point nearest the camera.
    let out = Ray::new(v(0, 0, -500_000), v(0, 0, ONE));
    assert!(sphere.hit(&out, epsilon(), Scalar::max_value()).is_none());
    // Without the lower limit the start itself would count as a hit.
    assert_eq!(sphere.hit(&out, s(0), Scalar::max_value()).unwrap().t, s(0));
    // From a point that rounding has put just inside the surface.
    let scattered = Ray::new(v(102_671, 51_335, -513_355), v(707_107, 0, 292_893));
    assert!(sphere.hit(&scattered, epsilon(), Scalar::max_value()).is_none());
    assert_eq!(sphere.hit(&scattered, s(-1_000), Scalar::max_value()).unwrap().t, s(0));
    // Into the sphere the far side is hit.
    let inward = Ray::new(v(0, 0, -500_000), v(0, 0, -ONE));
    let rec = sphere.hit(&inward, epsilon(), Scalar::max_value()).unwrap();
    assert_eq!(rec.t, s(ONE));
    assert_eq!(rec.p, v(0, 0, -1_500_000));
    assert!(!rec.front_face);
}

#[test]
fn ray_through_the_centre_from_any_side() {
    // The direction (-0.6, -0.8, 0) is exactly the unit vector from the
    // origin of the ray to the centre, five units away.
    let sphere = Sphere::new(v(ONE, ONE, ONE), s(2 * ONE), grey());
    let ray = Ray::new(v(4 * ONE, 5 * ONE, ONE), v(-600_000, -800_000, 0));
    let rec = sphere.hit(&ray, epsilon(), Scalar::max_value()).unwrap();
    assert_eq!(rec.t, s(3 * ONE));
    assert_eq!(rec.p, v(2_200_000, 2_600_000, ONE));
    assert_eq!(rec.normal, v(600_000, 800_000, 0));
    let rec = sphere.hit(&ray, s(4 * ONE), Scalar::max_value()).unwrap();
    assert_eq!(rec.t, s(7 * ONE));
    // The radius enters with all its digits.
    let sphere = Sphere::new(v(0, 0, 0), s(333_333), grey());
    let ray = Ray::new(v(0, 0, 2 * ONE), v(0, 0, -ONE));
    assert_eq!(sphere.hit(&ray, epsilon(), Scalar::max_value()).unwrap().t, s(1_666_667));
}

#[test]
fn normals_of_hits_are_of_unit_length() {
    let sphere = Sphere::new(v(0, 0, -ONE), s(500_000), grey());
    for (dx, dy) in [(0, 0), (100_000, 0), (200_000, 100_000), (-300_000, 250_000), (0, -450_000)] {
        let ray = Ray::new(v(0, 0, 0), v(dx, dy, -ONE));
        let rec = sphere.hit(&ray, epsilon(), Scalar::max_value()).unwrap();
        let n = rec.normal;
        let square = (n.x.raw as i128).pow(2) + (n.y.raw as i128).pow(2) + (n.z.raw as i128).pow(2);
        assert!((square - 1_000_000_000_000).abs() <= 8_000_000);
        assert!(ray.direction().dot(n).raw <= 0);
        assert!(epsilon().raw <= rec.t.raw);
        assert_eq!(rec.p, ray.at(rec.t));
    }
}

#[test]
fn ray_pointing_away_misses_however_large_the_sphere() {
    // The origin lies a millionth outside a sphere of radius 1073.741824.
    let sphere = Sphere::new(v(0, 0, 0), s(1_073_741_824), grey());
    let ray = Ray::new(v(1_073_741_825, 0, 0), v(ONE, 0, 0));
    assert!(sphere.hit(&ray, s(0), s(ONE)).is_none());
    assert!(sphere.hit(&ray, s(0), Scalar::max_value()).is_none());
    // Behind the origin the line does meet the sphere.
    assert_eq!(sphere.hit(&ray, s(-10), s(ONE)).unwrap().t, s(-1));
    let sphere = Sphere::new(v(0, 0, 0), s(2_147_483_647), grey());
    let ray = Ray::new(v(2_147_483_647, 1, 0), v(1, 0, ONE));
    assert!(sphere.hit(&ray, s(0), Scalar::max_value()).is_none());
    let sphere = Sphere::new(v(0, 0, 0), s(i64::MAX - 1), grey());
    let ray = Ray::new(v(i64::MAX, 0, 0), v(ONE, ONE, 0));
    assert!(sphere.hit(&ray, s(0), Scalar::max_value()).is_none());
}

#[test]
fn ray_from_just_inside_hits_ahead() {
    let sphere = Sphere::new(v(0, 0, 0), s(ONE), grey());
    // A millionth inside the surface, running outward.
    let rec = sphere
        .hit(&Ray::new(v(0, 0, ONE - 1), v(0, 0, ONE)), s(0), Scalar::max_value())
        .unwrap();
    assert_eq!(rec.t, s(1));
    assert!(!rec.front_face);
    // And running inward, to the far side.
    let rec = sphere
        .hit(&Ray::new(v(0, 0, ONE - 1), v(0, 0, -ONE)), s(0), Scalar::max_value())
        .unwrap();
    assert_eq!(rec.t, s(1_999_999));
    // From a point of the surface the origin itself counts where zero does.
    let rec = sphere
        .hit(&Ray::new(v(0, 0, ONE), v(0, 0, -ONE)), s(0), Scalar::max_value())
        .unwrap();
    assert_eq!(rec.t, s(0));
    let rec = sphere
        .hit(&Ray::new(v(0, 0, ONE), v(0, 0, -ONE)), epsilon(), Scalar::max_value())
        .unwrap();
    assert_eq!(rec.t, s(2 * ONE));
}

#[test]
fn far_tiny_sphere_is_met_by_the_ray_through_its_centre() {
    // A sphere of five millionths, more than five thousand units away.
    let sphere = Sphere::new(v(0, 0, 0), s(5), grey());
    let origin = v(3_221_225_481, 4_294_967_308, 0);
    let ray = Ray::new(origin, v(-600_000, -800_000, 0));
    let rec = sphere.hit(&ray, s(0), Scalar::max_value()).unwrap();
    assert_eq!(rec.t, s(5_368_709_131));
    assert_eq!(rec.p, v(3, 4, 0));
    assert_eq!(rec.normal, v(600_000, 800_000, 0));
    assert!(rec.front_face);
    // A line that passes the sphere by misses it.
    let ray = Ray::new(origin, v(-600_000, -800_000, 1));
    assert!(sphere.hit(&ray, s(0), Scalar::max_value()).is_none());
    let ray = Ray::new(v(3_221_225_481, 4_294_967_308, 7), v(-600_000, -800_000, 0));
    assert!(sphere.hit(&ray, s(0), Scalar::max_value()).is_none());
}

#[test]
fn ray_toward_the_centre_hits_at_distance_less_radius_over_its_length() {
    let unit = Sphere::new(v(0, 0, 0), s(ONE), grey());
    // Distance five, radius one, a direction of length two: (5 - 1) / 2.
    let rec = unit
        .hit(&Ray::new(v(0, 0, 5 * ONE), v(0, 0, -2 * ONE)), epsilon(), Scalar::max_value())
        .unwrap();
    assert_eq!(rec.t, s(2 * ONE));
    let ray = Ray::new(v(0, 0, 5 * ONE), v(0, 0, -2 * ONE));
    assert_eq!(hit_sphere(v(0, 0, 0), s(ONE), &ray), s(2 * ONE));
    // A direction of length one half: (5 - 1) / 0.5, and (5 + 1) / 0.5 behind it.
    let ray = Ray::new(v(3 * ONE, 4 * ONE, 0), v(-300_000, -400_000, 0));
    assert_eq!(unit.hit(&ray, epsilon(), Scalar::max_value()).unwrap().t, s(8 * ONE));
    assert_eq!(unit.hit(&ray, s(9 * ONE), Scalar::max_value()).unwrap().t, s(12 * ONE));
    // Along the diagonal: (sqrt 12 - 1) / sqrt 147.
    let ray = Ray::new(v(2 * ONE, 2 * ONE, 2 * ONE), v(-7 * ONE, -7 * ONE, -7 * ONE));
    assert_eq!(unit.hit(&ray, epsilon(), Scalar::max_value()).unwrap().t, s(203_235));
    assert_eq!(unit.hit(&ray, s(300_000), Scalar::max_value()).unwrap().t, s(368_192));
}

#[test]
fn ray_through_a_far_centre_hits_near_distance_less_radius() {
    // Offset and radius of billions of units: the roots are off by less
    // than three times the factor of the reduction, here two to the
    // twenty-third millionths.
    let j: i64 = 1 << 50;
    let radius: i64 = (1 << 51) + 12_345;
    let sphere = Sphere::new(v(0, 0, 0), s(radius), grey());
    let ray = Ray::new(v(3 * j, -4 * j, 0), v(-600_000, 800_000, 0));
    let near = sphere.hit(&ray, s(0), Scalar::max_value()).unwrap().t;
    assert_eq!(near, s(3_377_699_720_527_872));
    assert!((near.raw - (5 * j - radius)).abs() <= 3 * (1 << 23));
    let far = sphere.hit(&ray, s(near.raw + 1), Scalar::max_value()).unwrap().t;
    assert_eq!(far, s(7_881_299_347_898_368));
    assert!(far.raw <= 5 * j + radius && far.raw >= 5 * j + radius - 6 * (1 << 23));
}

#[test]
fn sphere_out_of_reach_is_missed() {
    // Origin and centre lie further apart than a scalar can hold.
    let sphere = Sphere::new(v(i64::MIN, 0, 0), s(i64::MAX), grey());
    let away = Ray::new(v(i64::MAX, 0, 0), v(ONE, 0, 0));
    assert!(sphere.hit(&away, s(0), Scalar::max_value()).is_none());
    assert!(sphere.hit(&away, Scalar::new(i64::MIN), Scalar::max_value()).is_none());
    let toward = Ray::new(v(i64::MAX, 0, 0), v(-ONE, 0, 0));
    assert!(sphere.hit(&toward, s(0), Scalar::max_value()).is_none());
    assert_eq!(hit_sphere(v(i64::MIN, 0, 0), s(i64::MAX), &toward), s(-ONE));
    // Out of reach by a millionth.
    let sphere = Sphere::new(v(-1, 0, 0), s(i64::MAX), grey());
    assert!(sphere.hit(&away, s(0), Scalar::max_value()).is_none());
    assert!(sphere.hit(&toward, s(0), Scalar::max_value()).is_none());
}

#[test]
fn sphere_at_the_edge_of_reach_is_hit() {
    let toward = Ray::new(v(i64::MAX, 0, 0), v(-ONE, 0, 0));
    let away = Ray::new(v(i64::MAX, 0, 0), v(ONE, 0, 0));
    // The origin lies a millionth outside the sphere.
    let sphere = Sphere::new(v(0, 0, 0), s(i64::MAX - 1), grey());
    let rec = sphere.hit(&toward, s(0), Scalar::max_value()).unwrap();
    assert_eq!(rec.t, s(0));
    assert_eq!(rec.p, v(i64::MAX, 0, 0));
    assert_eq!(rec.normal, v(ONE, 0, 0));
    assert!(rec.front_face);
    assert!(sphere.hit(&away, s(0), Scalar::max_value()).is_none());
    // Along the diagonal, toward a sphere turned inside out.
    let sphere = Sphere::new(v(i64::MIN, i64::MIN, i64::MIN), s(i64::MIN), grey());
    let ray = Ray::new(v(-1, -1, -1), v(-ONE, -ONE, -ONE));
    let rec = sphere.hit(&ray, s(0), Scalar::max_value()).unwrap();
    assert_eq!(rec.t, s(3_898_255_691_360_738_676));
    assert_eq!(
        rec.p,
        v(-3_898_255_691_360_738_677, -3_898_255_691_360_738_677, -3_898_255_691_360_738_677)
    );
    assert_eq!(rec.normal, v(577_350, 577_350, 577_350));
    assert!(!rec.front_face);
}

#[test]
fn ray_aimed_at_the_centre_hits_within_the_slack() {
    // The direction is the normalized way from the origin to the centre.
    let cases: [(Vec3, i64, i64, i64, i64); 4] = [
        (v(ONE, 2 * ONE, 3 * ONE), 500_000, 3_741_657, 3_241_660, 85),
        (v(-7 * ONE, 3 * ONE + 1, 11 * ONE - 5), 2 * ONE, 13_379_084, 11_379_094, 295),
        (v(123_456, -654_321, 777_777), 6, 1_023_872, 1_023_866, 43),
        (v(900 * ONE, -800 * ONE, 1_000 * ONE), 100 * ONE, 1_565_247_584, 1_465_249_067, 32_887),
    ];
    for (origin, radius, distance, t, slack) in cases {
        let sphere = Sphere::new(v(0, 0, 0), s(radius), grey());
        let ray = Ray::new(origin, (v(0, 0, 0) - origin).normalized());
        assert_eq!(origin.length(), s(distance));
        let rec = sphere.hit(&ray, s(0), Scalar::max_value()).unwrap();
        assert_eq!(rec.t, s(t));
        assert!((rec.t.raw - (distance - radius)).abs() <= slack);
        assert!(rec.front_face);
    }
}

#[test]
fn ray_aimed_at_a_far_centre_hits_within_the_slack() {
    // Thousands and millions of units away: offset and radius are reduced by
    // four and by two to the thirteenth before the quadratic is formed.
    let sphere = Sphere::new(v(0, 0, 0), s(10 * ONE), grey());
    let origin = v(1_234_000_567, -2_345_000_678, 345_000_006);
    let ray = Ray::new(origin, (v(0, 0, 0) - origin).normalized());
    assert_eq!(ray.direction(), v(-461_786, 877_544, -129_105));
    assert_eq!(origin.length(), s(2_672_229_515));
    let rec = sphere.hit(&ray, s(0), Scalar::max_value()).unwrap();
    assert_eq!(rec.t, s(2_662_232_330));
    assert!((rec.t.raw - 2_662_229_515).abs() <= 21 * 2_672 + 7 * 3 + 22);
    assert_eq!(rec.p, v(4_618_949, -8_774_671, 1_292_502));
    assert_eq!(rec.normal, v(461_894, -877_466, 129_250));
    assert!(rec.front_face);
    let sphere = Sphere::new(v(0, 0, 0), s(2_000_000_000_000), grey());
    let origin = v(7_000_000_000_000, -2_999_999_999_995, 1_000_000_000_000);
    let ray = Ray::new(origin, (v(0, 0, 0) - origin).normalized());
    assert_eq!(origin.length(), s(7_681_145_747_866));
    let rec = sphere.hit(&ray, s(0), Scalar::max_value()).unwrap();
    assert_eq!(rec.t, s(5_681_149_993_264));
    assert!((rec.t.raw - 5_681_145_747_866).abs() <= 21 * 7_681_145 + 7 * 8_191 + 22);
    assert_eq!(rec.normal, v(911_321, -390_567, 130_191));
}

#[test]
fn rounded_direction_can_miss_a_sphere_of_a_millionth() {
    // The direction is right to the last digit only: at a distance of four
    // units its line passes the centre by a few millionths.
    let origin = v(-900_000, 4_000_000, 1_100_000);
    let ray = Ray::new(origin, (v(0, 0, 0) - origin).normalized());
    assert_eq!(ray.direction(), v(212_014, -942_285, -259_128));
    assert_eq!(origin.length(), s(4_244_997));
    let speck = Sphere::new(v(0, 0, 0), s(1), grey());
    assert!(speck.hit(&ray, s(0), Scalar::max_value()).is_none());
    // A sphere of eighteen millionths is large enough to be sure of.
    let grain = Sphere::new(v(0, 0, 0), s(18), grey());
    let rec = grain.hit(&ray, s(0), Scalar::max_value()).unwrap();
    assert_eq!(rec.t, s(4_244_982));
    assert!((rec.t.raw - (4_244_997 - 18)).abs() <= 21 * 4 + 22);
}
