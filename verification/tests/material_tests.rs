use rusttracing::hit::HitRecord;
use rusttracing::material::{Dielectric, Lambertian, Material, Metal, Scatter};
use rusttracing::ray::Ray;
use rusttracing::sampler::Sampler;
use rusttracing::scalar::Scalar;
use rusttracing::vec::Vec3;

const ONE: i64 = 1_000_000;

fn s(raw: i64) -> Scalar {
    Scalar::new(raw)
}

fn v(x: i64, y: i64, z: i64) -> Vec3 {
    Vec3::from_raw(x, y, z)
}

fn draws(raw: &[i64]) -> Sampler {
    Sampler::from_draws(raw.iter().map(|r| Scalar::new(*r)).collect()).unwrap()
}

fn record(normal: Vec3, front_face: bool, mat: Material) -> HitRecord {
    HitRecord { p: v(1, 2, 3), normal, mat, t: s(ONE), front_face }
}

fn white() -> Vec3 {
    v(ONE, ONE, ONE)
}

#[test]
fn lambertian_attenuates_by_its_albedo() {
    let albedo = v(700_000, 300_000, 300_000);
    let mat = Lambertian::new(albedo);
    let rec = record(v(0, 0, ONE), true, Material::Lambertian(mat));
    let ray = Ray::new(v(0, 0, 0), v(0, 0, -ONE));
    let mut sampler = draws(&[750_000, 500_000, 250_000, 9]);
    let (attenuation, scattered) = mat.scatter(&ray, &rec, &mut sampler).unwrap();
    assert_eq!(attenuation, albedo);
    assert_eq!(scattered.origin(), v(1, 2, 3));
    // The sample (0.5, 0, -0.5) has the unit vector (0.707106, 0, -0.707106).
    assert_eq!(scattered.direction(), v(707_106, 0, 292_894));
    assert_eq!(sampler.next_unit(), s(9));
}

#[test]
fn lambertian_always_scatters() {
    let albedo = v(100_000, 200_000, 300_000);
    let mat = Lambertian::new(albedo);
    let rec = record(v(0, ONE, 0), true, Material::Lambertian(mat));
    let ray = Ray::new(v(0, 0, 0), v(0, -ONE, 0));
    let mut sampler = Sampler::random(1024).unwrap();
    for _ in 0..100 {
        let (attenuation, scattered) = mat.scatter(&ray, &rec, &mut sampler).unwrap();
        assert_eq!(attenuation, albedo);
        assert!(!scattered.direction().is_zero());
        assert!(!scattered.direction().near_zero());
    }
}

#[test]
fn lambertian_falls_back_to_the_normal() {
    let normal = v(0, 0, ONE);
    // The unit vector of the sample cancels the normal.
    assert_eq!(Lambertian::direction(normal, v(0, 0, -500_000)), normal);
    // The sample is the zero vector.
    assert_eq!(Lambertian::direction(normal, v(0, 0, 0)), normal);
    assert_eq!(Lambertian::direction(normal, v(0, 0, 500_000)), v(0, 0, 2 * ONE));

    let mat = Lambertian::new(white());
    let rec = record(normal, true, Material::Lambertian(mat));
    let ray = Ray::new(v(0, 0, 0), v(0, 0, -ONE));
    let mut sampler = draws(&[500_000, 500_000, 250_000]);
    let (_, scattered) = mat.scatter(&ray, &rec, &mut sampler).unwrap();
    assert_eq!(scattered.direction(), normal);
    let mut sampler = draws(&[500_000]);
    let (_, scattered) = mat.scatter(&ray, &rec, &mut sampler).unwrap();
    assert_eq!(scattered.direction(), normal);
}

#[test]
fn metal_without_fuzz_mirrors_the_ray() {
    let albedo = v(800_000, 600_000, 200_000);
    let mat = Metal::new(albedo, s(0));
    let rec = record(v(0, ONE, 0), true, Material::Metal(mat));
    let ray = Ray::new(v(0, 0, 0), v(ONE, -ONE, 0));
    let mut sampler = draws(&[750_000, 500_000, 250_000, 9]);
    let (attenuation, scattered) = mat.scatter(&ray, &rec, &mut sampler).unwrap();
    assert_eq!(attenuation, albedo);
    assert_eq!(scattered.origin(), v(1, 2, 3));
    assert_eq!(scattered.direction(), v(707_106, 707_106, 0));
    // The sample is drawn even where the fuzz is zero.
    assert_eq!(sampler.next_unit(), s(9));
}

#[test]
fn metal_with_fuzz_adds_the_scaled_sample() {
    let mat = Metal::new(white(), s(500_000));
    let rec = record(v(0, ONE, 0), true, Material::Metal(mat));
    let ray = Ray::new(v(0, 0, 0), v(ONE, -ONE, 0));
    let mut sampler = draws(&[750_000, 500_000, 250_000]);
    let (_, scattered) = mat.scatter(&ray, &rec, &mut sampler).unwrap();
    assert_eq!(scattered.direction(), v(957_106, 707_106, -250_000));
    assert_eq!(
        Metal::direction(v(ONE, -ONE, 0), v(0, ONE, 0), s(500_000), v(500_000, 0, -500_000)),
        v(957_106, 707_106, -250_000)
    );
}

#[test]
fn metal_absorbs_what_would_enter_the_surface() {
    let mat = Metal::new(white(), s(ONE));
    let rec = record(v(0, ONE, 0), true, Material::Metal(mat));
    let ray = Ray::new(v(0, 0, 0), v(ONE, -100_000, 0));
    // The sample (0, -0.9, 0) pushes the mirrored ray below the surface.
    let mut sampler = draws(&[500_000, 50_000, 500_000, 9]);
    assert!(mat.scatter(&ray, &rec, &mut sampler).is_none());
    assert_eq!(sampler.next_unit(), s(9));
}

#[test]
fn reflectance_follows_schlick() {
    assert_eq!(Dielectric::reflectance(s(ONE), s(ONE)), s(0));
    assert_eq!(Dielectric::reflectance(s(500_000), s(ONE)), s(31_250));
    assert_eq!(Dielectric::reflectance(s(ONE), s(1_500_000)), s(40_000));
    assert_eq!(Dielectric::reflectance(s(0), s(1_500_000)), s(ONE));
    assert_eq!(Dielectric::reflectance(s(800_000), s(666_666)), s(40_307));
}

#[test]
fn dielectric_of_index_one_does_not_bend_light() {
    let mat = Dielectric::new(s(ONE));
    let rec = record(v(0, 0, ONE), true, Material::Dielectric(mat));
    let ray = Ray::new(v(0, 0, ONE), v(0, 0, -2 * ONE));
    // Head on the reflectance is zero: no draw is below it.
    let mut sampler = draws(&[0, 9]);
    let (attenuation, scattered) = mat.scatter(&ray, &rec, &mut sampler).unwrap();
    assert_eq!(attenuation, white());
    assert_eq!(scattered.origin(), v(1, 2, 3));
    assert_eq!(scattered.direction(), v(0, 0, -ONE));
    assert_eq!(sampler.next_unit(), s(9));

    // The same from inside.
    let rec = record(v(0, 0, ONE), false, Material::Dielectric(mat));
    let mut sampler = draws(&[0, 9]);
    let (_, scattered) = mat.scatter(&ray, &rec, &mut sampler).unwrap();
    assert_eq!(scattered.direction(), v(0, 0, -ONE));

    // At an angle the ray goes straight on unless the draw falls below the
    // reflectance, which is 0.00032 at a cosine of 0.8.
    let rec = record(v(0, ONE, 0), true, Material::Dielectric(mat));
    let ray = Ray::new(v(0, 0, 0), v(600_000, -800_000, 0));
    let mut sampler = draws(&[500_000]);
    let (_, scattered) = mat.scatter(&ray, &rec, &mut sampler).unwrap();
    assert_eq!(scattered.direction(), v(600_000, -800_000, 0));
    let mut sampler = draws(&[320]);
    let (_, scattered) = mat.scatter(&ray, &rec, &mut sampler).unwrap();
    assert_eq!(scattered.direction(), v(600_000, -800_000, 0));
    let mut sampler = draws(&[319]);
    let (_, scattered) = mat.scatter(&ray, &rec, &mut sampler).unwrap();
    assert_eq!(scattered.direction(), v(600_000, 800_000, 0));
}

#[test]
fn glass_refracts_or_reflects_by_the_draw() {
    let mat = Dielectric::new(s(1_500_000));
    let rec = record(v(0, ONE, 0), true, Material::Dielectric(mat));
    let ray = Ray::new(v(0, 0, 0), v(600_000, -800_000, 0));
    let mut sampler = draws(&[999_999, 9]);
    let (attenuation, scattered) = mat.scatter(&ray, &rec, &mut sampler).unwrap();
    assert_eq!(attenuation, white());
    assert_eq!(scattered.direction(), v(399_999, -916_515, 0));
    assert_eq!(sampler.next_unit(), s(9));

    let mut sampler = draws(&[0, 9]);
    let (attenuation, scattered) = mat.scatter(&ray, &rec, &mut sampler).unwrap();
    assert_eq!(attenuation, white());
    assert_eq!(scattered.direction(), v(600_000, 800_000, 0));
    assert_eq!(sampler.next_unit(), s(9));

    // Leaving the glass head on: the reflectance is 0.04.
    let rec = record(v(0, ONE, 0), false, Material::Dielectric(mat));
    let ray = Ray::new(v(0, 0, 0), v(0, -ONE, 0));
    let mut sampler = draws(&[40_000]);
    let (_, scattered) = mat.scatter(&ray, &rec, &mut sampler).unwrap();
    assert_eq!(scattered.direction(), v(0, -ONE, 0));
    let mut sampler = draws(&[39_999]);
    let (_, scattered) = mat.scatter(&ray, &rec, &mut sampler).unwrap();
    assert_eq!(scattered.direction(), v(0, ONE, 0));
}

#[test]
fn light_that_cannot_leave_the_glass_is_mirrored_without_a_draw() {
    let mat = Dielectric::new(s(1_500_000));
    let rec = record(v(0, ONE, 0), false, Material::Dielectric(mat));
    let ray = Ray::new(v(0, 0, 0), v(800_000, -600_000, 0));
    let mut sampler = draws(&[999_999, 9]);
    let (attenuation, scattered) = mat.scatter(&ray, &rec, &mut sampler).unwrap();
    assert_eq!(attenuation, white());
    assert_eq!(scattered.direction(), v(800_000, 600_000, 0));
    assert_eq!(sampler.next_unit(), s(999_999));
}

#[test]
fn material_scatters_as_its_kind_does() {
    let rec = record(v(0, ONE, 0), true, Material::Lambertian(Lambertian::new(white())));
    let ray = Ray::new(v(0, 0, 0), v(ONE, -ONE, 0));
    let table = [750_000, 500_000, 250_000, 100_000];

    let lambertian = Lambertian::new(v(1, 2, 3));
    assert_eq!(
        Material::Lambertian(lambertian).scatter(&ray, &rec, &mut draws(&table)),
        lambertian.scatter(&ray, &rec, &mut draws(&table))
    );
    let metal = Metal::new(v(1, 2, 3), s(250_000));
    assert_eq!(
        Material::Metal(metal).scatter(&ray, &rec, &mut draws(&table)),
        metal.scatter(&ray, &rec, &mut draws(&table))
    );
    let glass = Dielectric::new(s(1_500_000));
    assert_eq!(
        Material::Dielectric(glass).scatter(&ray, &rec, &mut draws(&table)),
        glass.scatter(&ray, &rec, &mut draws(&table))
    );
}

#[test]
fn reflectance_is_a_share_and_falls_with_the_cosine() {
    let glass = s(1_500_000);
    let cosines = [0, 250_000, 500_000, 750_000, ONE];
    let expected = [ONE, 267_811, 70_000, 40_936, 40_000];
    for i in 0..5 {
        assert_eq!(Dielectric::reflectance(s(cosines[i]), glass), s(expected[i]));
    }
    for i in 1..5 {
        assert!(expected[i] <= expected[i - 1]);
    }
    // The extremes of the index.
    assert_eq!(Dielectric::reflectance(s(0), s(3)), s(ONE));
    assert_eq!(Dielectric::reflectance(s(ONE), s(3)), s(999_988));
    assert_eq!(Dielectric::reflectance(s(500_000), Scalar::max_value()), s(999_998));
    assert_eq!(Dielectric::reflectance(s(ONE), Scalar::max_value()), s(999_998));
    assert_eq!(Dielectric::reflectance(s(0), Scalar::max_value()), s(ONE));
}
