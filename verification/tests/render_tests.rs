use rusttracing::camera::Camera;
use bmp::Image;
use rusttracing::image::{blank, put_columns, Rgb};
use rusttracing::hit::World;
use rusttracing::material::{Dielectric, Lambertian, Material, Metal};
use rusttracing::ray::Ray;
use rusttracing::render::{
    channel, column_range, fraction, quantize, render, render_column, render_columns,
    render_partitioned, render_pixel, Settings,
};
use rusttracing::sampler::Sampler;
use rusttracing::scalar::Scalar;
use rusttracing::shade::{background, ray_color};
use rusttracing::sphere::Sphere;
use rusttracing::vec::Vec3;

const ONE: i64 = 1_000_000;

const TABLE: [i64; 257] = [
    436857, 768276, 10663, 860015, 865291, 841847, 313146, 896677, 386307, 977047, 203068,
    283372, 593502, 457418, 169541, 391185, 130303, 916638, 453966, 273772, 589382, 657682,
    182812, 641486, 580094, 195883, 372141, 774004, 768469, 95728, 556838, 771112, 432138,
    613471, 528414, 174664, 155342, 215706, 753891, 81623, 199199, 877731, 358152, 337682,
    24663, 481127, 356010, 28175, 535518, 724262, 780696, 435660, 3622, 6997, 985911, 696149,
    913065, 171764, 808278, 608288, 187562, 300495, 104332, 684238, 434668, 111036, 928552,
    714513, 606167, 190477, 772362, 393218, 243920, 549031, 624949, 743845, 957490, 864901,
    345917, 846331, 42206, 243592, 125621, 915606, 523475, 226891, 773002, 840852, 792774,
    582049, 702241, 194855, 270253, 617200, 454741, 543413, 960525, 136177, 43557, 172111,
    315963, 906547, 872630, 9811, 157572, 240242, 366715, 565327, 358578, 164606, 404764,
    339487, 13465, 51714, 63847, 746247, 466735, 82379, 406952, 837893, 965287, 188203, 827147,
    12277, 809926, 746937, 385616, 225811, 711675, 537419, 798237, 127407, 504130, 652056,
    64513, 14488, 656517, 515680, 341584, 809487, 639724, 441270, 967420, 998800, 576517,
    211387, 381982, 806204, 695044, 732495, 125180, 583598, 156929, 83934, 518932, 172964,
    935859, 351855, 241846, 213125, 171487, 170661, 302299, 157437, 563211, 94996, 544854,
    729515, 3493, 153659, 3339, 689631, 520163, 928974, 193833, 875836, 637010, 979169, 837249,
    891930, 100530, 277116, 529706, 786456, 425866, 69328, 828850, 787958, 483252, 436960,
    190775, 255084, 963572, 921146, 193274, 28600, 391028, 346518, 184508, 413951, 186491,
    186629, 599411, 712963, 863477, 543441, 936724, 261033, 433324, 538135, 725492, 437814,
    340749, 125981, 70994, 675009, 482872, 779684, 204539, 658656, 651493, 598983, 211696,
    785540, 141584, 556754, 937386, 244570, 346332, 595448, 306504, 131450, 564405, 535118,
    727063, 808853, 703591, 934788, 837176, 62078, 272562, 814963, 447611, 46179, 381640,
    838053, 541785, 561933, 601931, 112791, 659856, 795688, 71254, 163759, 389249, 923105,
    742983,
];

fn s(raw: i64) -> Scalar {
    Scalar::new(raw)
}

fn v(x: i64, y: i64, z: i64) -> Vec3 {
    Vec3::from_raw(x, y, z)
}

fn rgb(r: u8, g: u8, b: u8) -> Rgb {
    Rgb { r, g, b }
}

fn draws(raw: &[i64]) -> Sampler {
    Sampler::from_draws(raw.iter().map(|r| Scalar::new(*r)).collect()).unwrap()
}

fn red_ball() -> World {
    let mut world = World::new();
    world.push(Sphere::new(
        v(0, 0, -ONE),
        s(500_000),
        Material::Lambertian(Lambertian::new(v(700_000, 300_000, 300_000))),
    ));
    world
}

fn five_spheres() -> World {
    let mut world = World::new();
    world.push(Sphere::new(
        v(0, -100_500_000, -ONE),
        s(100 * ONE),
        Material::Lambertian(Lambertian::new(v(800_000, 800_000, 0))),
    ));
    world.push(Sphere::new(
        v(0, 0, -ONE),
        s(500_000),
        Material::Lambertian(Lambertian::new(v(700_000, 300_000, 300_000))),
    ));
    world.push(Sphere::new(
        v(-ONE, 0, -ONE),
        s(500_000),
        Material::Metal(Metal::new(v(800_000, 800_000, 800_000), s(300_000))),
    ));
    world.push(Sphere::new(
        v(ONE, 0, -ONE),
        s(500_000),
        Material::Dielectric(Dielectric::new(s(1_500_000))),
    ));
    world.push(Sphere::new(
        v(ONE, 0, -ONE),
        s(-400_000),
        Material::Dielectric(Dielectric::new(s(1_500_000))),
    ));
    world
}

fn get(img: &Image, x: u32, y: u32) -> Option<Rgb> {
    if x < img.get_width() && y < img.get_height() {
        let px = img.get_pixel(x, y);
        Some(Rgb { r: px.r, g: px.g, b: px.b })
    } else {
        None
    }
}

fn pixels(img: &Image) -> Vec<Vec<Rgb>> {
    (0..img.get_width())
        .map(|x| (0..img.get_height()).map(|y| get(img, x, y).unwrap()).collect())
        .collect()
}

#[test]
fn channel_is_the_floor_of_255_999_times_the_value() {
    assert_eq!(channel(s(ONE)), 255);
    assert_eq!(channel(s(500_000)), 127);
    assert_eq!(channel(s(750_000)), 191);
    assert_eq!(channel(s(0)), 0);
    assert_eq!(channel(s(3_906)), 0);
    assert_eq!(channel(s(3_907)), 1);
    assert_eq!(channel(s(999_999)), 255);
}

#[test]
fn channel_clamps() {
    assert_eq!(channel(s(-1)), 0);
    assert_eq!(channel(s(i64::MIN)), 0);
    assert_eq!(channel(s(2 * ONE)), 255);
    assert_eq!(channel(s(i64::MAX)), 255);
    assert_eq!(quantize(v(-5, 2 * ONE, 999_999)), rgb(0, 255, 255));
    assert_eq!(quantize(v(ONE, 500_000, 0)), rgb(255, 127, 0));
}

#[test]
fn background_blends_white_and_blue_by_height() {
    let from = v(0, 0, 0);
    assert_eq!(background(&Ray::new(from, v(0, ONE, 0))), v(500_000, 700_000, ONE));
    assert_eq!(background(&Ray::new(from, v(0, -ONE, 0))), v(ONE, ONE, ONE));
    assert_eq!(background(&Ray::new(from, v(0, 0, -ONE))), v(750_000, 850_000, ONE));
    assert_eq!(
        background(&Ray::new(from, v(3 * ONE, 4 * ONE, 0))),
        v(550_000, 730_000, ONE)
    );
    // Only the direction counts, not its length or the origin.
    assert_eq!(
        background(&Ray::new(v(5, 6, 7), v(0, 0, -3))),
        v(750_000, 850_000, ONE)
    );
}

#[test]
fn background_of_a_ray_without_direction_is_black() {
    assert_eq!(background(&Ray::new(v(1, 2, 3), v(0, 0, 0))), v(0, 0, 0));
}

#[test]
fn no_bounce_left_means_black() {
    let ray = Ray::new(v(0, 0, 0), v(0, 0, -ONE));
    let mut sampler = draws(&[1, 2, 3]);
    assert_eq!(ray_color(&ray, &red_ball(), 0, &mut sampler), v(0, 0, 0));
    assert_eq!(ray_color(&ray, &World::new(), 0, &mut sampler), v(0, 0, 0));
    assert_eq!(sampler.next_unit(), s(1));
}

#[test]
fn a_miss_sees_the_sky() {
    let ray = Ray::new(v(0, 0, 0), v(0, 0, -ONE));
    let mut sampler = draws(&[1, 2, 3]);
    assert_eq!(
        ray_color(&ray, &World::new(), 5, &mut sampler),
        v(750_000, 850_000, ONE)
    );
    let up = Ray::new(v(0, 0, 0), v(0, ONE, 0));
    assert_eq!(ray_color(&up, &red_ball(), 5, &mut sampler), v(500_000, 700_000, ONE));
    assert_eq!(sampler.next_unit(), s(1));
}

#[test]
fn a_hit_is_tinted_by_the_material() {
    let ray = Ray::new(v(0, 0, 0), v(0, 0, -ONE));
    let table = [750_000, 500_000, 250_000, 100_000, 200_000, 900_000, 10];
    // With one bounce the scattered ray is not followed: black.
    let mut sampler = draws(&table);
    assert_eq!(ray_color(&ray, &red_ball(), 1, &mut sampler), v(0, 0, 0));
    assert_eq!(sampler.next_unit(), s(100_000));
    // With two, the scattered ray (0.707106, 0, 0.292894) sees the sky,
    // (0.75, 0.85, 1), which the albedo (0.7, 0.3, 0.3) tints.
    let mut sampler = draws(&table);
    assert_eq!(
        ray_color(&ray, &red_ball(), 2, &mut sampler),
        v(525_000, 255_000, 300_000)
    );
    assert_eq!(sampler.next_unit(), s(100_000));
    let mut sampler = draws(&table);
    assert_eq!(
        ray_color(&ray, &red_ball(), 5, &mut sampler),
        v(525_000, 255_000, 300_000)
    );
}

#[test]
fn settings_are_validated() {
    assert!(Settings::new(2, 2, 1, 0).is_some());
    assert!(Settings::new(32_768, 32_768, u32::MAX, u64::MAX).is_some());
    assert!(Settings::new(1, 2, 1, 5).is_none());
    assert!(Settings::new(2, 1, 1, 5).is_none());
    assert!(Settings::new(0, 0, 1, 5).is_none());
    assert!(Settings::new(32_769, 2, 1, 5).is_none());
    assert!(Settings::new(2, 32_769, 1, 5).is_none());
    assert!(Settings::new(2, 2, 0, 5).is_none());
    let settings = Settings::new(640, 480, 100, 50).unwrap();
    assert_eq!(settings.width(), 640);
    assert_eq!(settings.height(), 480);
    assert_eq!(settings.samples_per_pixel(), 100);
    assert_eq!(settings.max_depth(), 50);
}

#[test]
fn fraction_divides_by_the_side_less_one() {
    assert_eq!(fraction(0, s(0), 2), s(0));
    assert_eq!(fraction(1, s(0), 2), s(ONE));
    assert_eq!(fraction(0, s(500_000), 2), s(500_000));
    assert_eq!(fraction(3, s(500_000), 4), s(1_166_666));
    assert_eq!(fraction(255, s(999_999), 512), s(500_978));
}

#[test]
fn empty_scene_renders_the_sky_at_every_pixel() {
    let aspect = Scalar::from_int(4) / Scalar::from_int(3);
    let cam = Camera::new(aspect);
    let settings = Settings::new(4, 3, 1, 5).unwrap();
    // Every draw is one half: each sample is taken at its pixel's centre.
    let mut sampler = draws(&[500_000]);
    let frame = render(&cam, &World::new(), &settings, &mut sampler);
    assert_eq!(frame.get_width(), 4);
    assert_eq!(frame.get_height(), 3);
    for x in 0..4 {
        for y in 0..3 {
            let u = fraction(x, s(500_000), 4);
            let w = fraction(y, s(500_000), 3);
            let ray = cam.get_ray(u, Scalar::one() - w);
            assert_eq!(get(&frame, x, y).unwrap(), quantize(background(&ray)));
        }
    }
    assert_eq!(
        pixels(&frame),
        vec![
            vec![rgb(169, 204, 255), rgb(214, 231, 255), rgb(239, 246, 255)],
            vec![rgb(163, 200, 255), rgb(220, 234, 255), rgb(245, 249, 255)],
            vec![rgb(169, 204, 255), rgb(214, 231, 255), rgb(239, 246, 255)],
            vec![rgb(176, 208, 255), rgb(207, 226, 255), rgb(229, 240, 255)],
        ]
    );
}

#[test]
fn two_by_two_image_of_one_sphere() {
    let cam = Camera::new(s(ONE));
    let settings = Settings::new(2, 2, 1, 5).unwrap();
    let mut sampler = draws(&[500_000]);
    let frame = render(&cam, &red_ball(), &settings, &mut sampler);
    // The sample of the first pixel goes through the middle of the viewport
    // and hits the sphere; the others pass it by and see the sky.
    assert_eq!(
        pixels(&frame),
        vec![
            vec![rgb(134, 65, 76), rgb(249, 251, 255)],
            vec![rgb(191, 217, 255), rgb(234, 243, 255)],
        ]
    );
    let mut sampler = draws(&[500_000]);
    let sky = render(&cam, &World::new(), &settings, &mut sampler);
    assert_ne!(get(&frame, 0, 0), get(&sky, 0, 0));
    assert_eq!(get(&sky, 0, 0).unwrap(), rgb(191, 217, 255));
    assert_eq!(get(&frame, 1, 0), get(&sky, 1, 0));
    assert_eq!(get(&frame, 0, 1), get(&sky, 0, 1));
    assert_eq!(get(&frame, 1, 1), get(&sky, 1, 1));

    let mut sampler = draws(&TABLE);
    let settings = Settings::new(2, 2, 4, 5).unwrap();
    let frame = render(&cam, &red_ball(), &settings, &mut sampler);
    assert_eq!(
        pixels(&frame),
        vec![
            vec![rgb(161, 142, 166), rgb(243, 248, 255)],
            vec![rgb(184, 213, 255), rgb(234, 243, 255)],
        ]
    );
}

#[test]
fn scene_of_five_spheres_renders_as_computed() {
    let cam = Camera::new(Scalar::from_int(4) / Scalar::from_int(3));
    let settings = Settings::new(8, 6, 3, 5).unwrap();
    let mut sampler = draws(&TABLE);
    let frame = render(&cam, &five_spheres(), &settings, &mut sampler);
    let expected: Vec<Vec<(u8, u8, u8)>> = vec![
        vec![(166, 202, 255), (130, 166, 221), (105, 134, 68), (43, 38, 0), (66, 83, 0), (69, 96, 0)],
        vec![(156, 196, 255), (115, 151, 204), (85, 75, 84), (33, 19, 0), (117, 123, 0), (108, 118, 0)],
        vec![(154, 195, 255), (163, 200, 255), (108, 56, 51), (124, 156, 0), (78, 101, 0), (97, 79, 0)],
        vec![(150, 192, 255), (111, 57, 51), (94, 53, 51), (113, 57, 51), (85, 105, 0), (109, 147, 0)],
        vec![(156, 196, 255), (104, 55, 51), (86, 48, 25), (24, 14, 0), (117, 120, 0), (107, 115, 0)],
        vec![(157, 196, 255), (161, 199, 255), (124, 142, 170), (0, 0, 0), (76, 69, 0), (123, 156, 0)],
        vec![(160, 198, 255), (149, 192, 255), (191, 217, 255), (0, 0, 0), (84, 105, 0), (84, 105, 0)],
        vec![(167, 203, 255), (174, 206, 255), (186, 214, 255), (76, 100, 0), (41, 52, 0), (81, 103, 0)],
    ];
    for x in 0..8u32 {
        for y in 0..6u32 {
            let (r, g, b) = expected[x as usize][y as usize];
            assert_eq!(get(&frame, x, y).unwrap(), rgb(r, g, b), "pixel ({}, {})", x, y);
        }
    }
}

#[test]
fn pixel_does_not_depend_on_where_the_cursor_stood() {
    let cam = Camera::new(Scalar::from_int(4) / Scalar::from_int(3));
    let settings = Settings::new(8, 6, 3, 5).unwrap();
    let world = five_spheres();
    let mut sampler = draws(&TABLE);
    let first = render_pixel(&cam, &world, &settings, 2, 3, &mut sampler);
    assert_eq!(first, rgb(124, 156, 0));
    sampler.seek(100);
    assert_eq!(render_pixel(&cam, &world, &settings, 2, 3, &mut sampler), first);
    let other = render_pixel(&cam, &world, &settings, 5, 2, &mut sampler);
    assert_eq!(other, rgb(124, 142, 170));
    assert_eq!(render_pixel(&cam, &world, &settings, 2, 3, &mut sampler), first);
}

#[test]
fn columns_hold_the_pixels_of_their_range() {
    let cam = Camera::new(Scalar::from_int(4) / Scalar::from_int(3));
    let settings = Settings::new(8, 6, 3, 5).unwrap();
    let world = five_spheres();
    let mut sampler = draws(&TABLE);
    let whole = pixels(&render(&cam, &world, &settings, &mut sampler));
    let columns = render_columns(&cam, &world, &settings, 3, 6, &mut sampler);
    assert_eq!(columns.len(), 3);
    assert_eq!(columns, whole[3..6].to_vec());
    assert_eq!(render_column(&cam, &world, &settings, 7, &mut sampler), whole[7]);
    assert!(render_columns(&cam, &world, &settings, 4, 4, &mut sampler).is_empty());
    assert!(render_columns(&cam, &world, &settings, 5, 4, &mut sampler).is_empty());
}

#[test]
fn column_ranges_share_out_the_width() {
    assert_eq!(column_range(0, 1, 512), (0, 512));
    assert_eq!(column_range(0, 16, 512), (0, 32));
    assert_eq!(column_range(7, 16, 512), (224, 256));
    assert_eq!(column_range(15, 16, 512), (480, 512));
    // The last worker takes what is left over.
    assert_eq!(column_range(0, 3, 10), (0, 3));
    assert_eq!(column_range(1, 3, 10), (3, 6));
    assert_eq!(column_range(2, 3, 10), (6, 10));
    // More workers than columns: all but the last get none.
    assert_eq!(column_range(0, 4, 3), (0, 0));
    assert_eq!(column_range(2, 4, 3), (0, 0));
    assert_eq!(column_range(3, 4, 3), (0, 3));
    assert_eq!(column_range(0, 5, 0), (0, 0));
}

#[test]
fn column_ranges_cover_every_column_once() {
    for width in [0u32, 1, 2, 7, 16, 100, 513] {
        for workers in [1u32, 2, 3, 7, 16, 200] {
            let mut next = 0;
            for worker in 0..workers {
                let (first, end) = column_range(worker, workers, width);
                assert_eq!(first, next);
                assert!(first <= end);
                next = end;
            }
            assert_eq!(next, width);
        }
    }
}

#[test]
fn partitioned_render_equals_the_sequential_one() {
    let cam = Camera::new(Scalar::from_int(4) / Scalar::from_int(3));
    let settings = Settings::new(8, 6, 3, 5).unwrap();
    let world = five_spheres();
    let mut sampler = draws(&TABLE);
    let whole = pixels(&render(&cam, &world, &settings, &mut sampler));
    let next = sampler.next_unit();
    for workers in [1u32, 2, 3, 5, 8, 11] {
        let mut sampler = draws(&TABLE);
        let frame = render_partitioned(&cam, &world, &settings, workers, &mut sampler);
        assert_eq!(pixels(&frame), whole, "{} workers", workers);
        // The cursor is left where the last pixel left it.
        assert_eq!(sampler.next_unit(), next);
    }
}

#[test]
fn workers_with_their_own_samplers_render_the_same_image() {
    let cam = Camera::new(Scalar::from_int(4) / Scalar::from_int(3));
    let settings = Settings::new(8, 6, 3, 5).unwrap();
    let world = five_spheres();
    let shared = draws(&TABLE);
    let mut sampler = shared.duplicate();
    let whole = render(&cam, &world, &settings, &mut sampler);

    let workers = 3;
    let mut frame = blank(8, 6).unwrap();
    // The shares are rendered out of order, each with a sampler of its own.
    for worker in [2u32, 0, 1] {
        let mut own = shared.duplicate();
        own.seek(17 * (worker as u64));
        let (first, end) = column_range(worker, workers, 8);
        let columns = render_columns(&cam, &world, &settings, first, end, &mut own);
        assert!(put_columns(&mut frame, first, &columns));
    }
    assert_eq!(pixels(&frame), pixels(&whole));
}

#[test]
fn random_render_of_the_sky_is_always_blue() {
    let cam = Camera::new(Scalar::from_int(4) / Scalar::from_int(3));
    let settings = Settings::new(6, 4, 3, 4).unwrap();
    let mut sampler = Sampler::random(10_007).unwrap();
    let frame = render(&cam, &World::new(), &settings, &mut sampler);
    assert_eq!(frame.get_width(), 6);
    assert_eq!(frame.get_height(), 4);
    // Whatever the jitter, the sky is a blend of white and (0.5, 0.7, 1).
    for x in 0..6 {
        for y in 0..4 {
            let px = get(&frame, x, y).unwrap();
            assert!(px.r >= 127);
            assert!(px.g >= 178);
            assert!(px.b >= 254);
        }
    }
}

#[test]
fn random_render_of_a_scene_runs_to_the_end() {
    let cam = Camera::new(Scalar::from_int(4) / Scalar::from_int(3));
    let settings = Settings::new(6, 4, 2, 4).unwrap();
    let mut sampler = Sampler::random(10_007).unwrap();
    let frame = render(&cam, &five_spheres(), &settings, &mut sampler);
    assert_eq!(frame.get_width(), 6);
    assert_eq!(frame.get_height(), 4);
    let mut again = sampler.duplicate();
    let second = render(&cam, &five_spheres(), &settings, &mut again);
    assert_eq!(pixels(&frame), pixels(&second));
}

#[test]
fn colours_stay_in_the_unit_range() {
    let world = five_spheres();
    let cam = Camera::new(Scalar::from_int(4) / Scalar::from_int(3));
    let mut sampler = Sampler::random(50_021).unwrap();
    for i in 0..400u32 {
        let u = fraction(i % 20, sampler.next_unit(), 20);
        let w = fraction(i / 20, sampler.next_unit(), 20);
        let ray = cam.get_ray(u, Scalar::one() - w);
        let c = ray_color(&ray, &world, 8, &mut sampler);
        for channel in [c.x, c.y, c.z] {
            assert!(0 <= channel.raw && channel.raw <= ONE);
        }
    }
}
