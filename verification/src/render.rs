//! Rendering: from the colours along rays to the pixels of an image, whole
//! or shared out among workers by columns.

use crate::camera::Camera;
use crate::image::{
    blank, image_pixels, image_size, in_bounds, put_columns, Rgb, MAX_DIMENSION,
};
use crate::hit::{closest_hit, World};
use crate::ray::Ray;
use crate::rounding::lemma_trunc_div_multiple;
use crate::sampler::{lemma_advance, Sampler, Stream};
use crate::scalar::{Scalar, SCALE};
use crate::shade::{
    background_spec, black, lemma_ray_color_in_range, ray_color, ray_color_spec, scene_in_range,
    SHADOW_EPSILON,
};
use crate::sphere::Sphere;
use crate::vec::{Color, Vec3};
use vstd::prelude::*;

verus! {

/// The stored value of a colour channel: the channel times 255.999, rounded
/// down, and kept within 0 and 255.
pub open spec fn channel_spec(c: Scalar) -> u8 {
    let level = (c@ * 255_999) / 1_000_000_000;
    if c@ <= 0 {
        0u8
    } else if level > 255 {
        255u8
    } else {
        level as u8
    }
}

/// The stored value of a colour channel.
pub fn channel(c: Scalar) -> (level: u8)
    ensures
        level == channel_spec(c),
{
    if c.raw <= 0 {
        0
    } else {
        let level: i128 = ((c.raw as i128) * 255_999) / 1_000_000_000;
        if level > 255 {
            255
        } else {
            level as u8
        }
    }
}

/// The stored value of a colour, channel by channel.
pub open spec fn quantize_spec(c: Color) -> Rgb {
    Rgb { r: channel_spec(c.x), g: channel_spec(c.y), b: channel_spec(c.z) }
}

/// The stored value of a colour.
pub fn quantize(c: Color) -> (rgb: Rgb)
    ensures
        rgb == quantize_spec(c),
{
    Rgb { r: channel(c.x), g: channel(c.y), b: channel(c.z) }
}

/// How far apart in the table of draws the samples of neighbouring pixels
/// begin.
pub const PIXEL_STRIDE: u64 = 7_919;

/// What a render is asked for: the size of the image, how many samples are
/// averaged for each pixel, and how often light may bounce.
#[derive(Clone, Copy, Debug, PartialEq, Eq, Structural)]
pub struct Settings {
    width: u32,
    height: u32,
    samples_per_pixel: u32,
    max_depth: u64,
}

impl Settings {
    /// The width of the image in pixels, for contracts.
    pub closed spec fn width_spec(&self) -> u32 {
        self.width
    }

    /// The height of the image in pixels, for contracts.
    pub closed spec fn height_spec(&self) -> u32 {
        self.height
    }

    /// The number of samples for each pixel, for contracts.
    pub closed spec fn samples_per_pixel_spec(&self) -> u32 {
        self.samples_per_pixel
    }

    /// The number of bounces that are followed, for contracts.
    pub closed spec fn max_depth_spec(&self) -> u64 {
        self.max_depth
    }

    /// Whether a render can be asked for these values: both sides at least
    /// two pixels and at most `MAX_DIMENSION`, and at least one sample.
    pub open spec fn valid(width: u32, height: u32, samples_per_pixel: u32) -> bool {
        &&& 2 <= width <= MAX_DIMENSION
        &&& 2 <= height <= MAX_DIMENSION
        &&& 1 <= samples_per_pixel
    }

    /// Every value of this type is valid.
    #[verifier::type_invariant]
    pub open spec fn inv(self) -> bool {
        Settings::valid(self.width(), self.height(), self.samples_per_pixel())
    }

    /// Settings for an image of the given size.
    ///
    /// Fails unless both sides are at least two pixels and at most
    /// `MAX_DIMENSION`, and there is at least one sample for each pixel.
    pub fn new(width: u32, height: u32, samples_per_pixel: u32, max_depth: u64) -> (r: Option<
        Settings,
    >)
        ensures
            r is Some <==> Settings::valid(width, height, samples_per_pixel),
            r matches Some(s) ==> s.width() == width && s.height() == height
                && s.samples_per_pixel() == samples_per_pixel && s.max_depth() == max_depth,
    {
        if width < 2 || width > MAX_DIMENSION || height < 2 || height > MAX_DIMENSION
            || samples_per_pixel < 1 {
            None
        } else {
            Some(Settings { width, height, samples_per_pixel, max_depth })
        }
    }

    /// The width of the image in pixels.
    #[verifier::when_used_as_spec(width_spec)]
    pub fn width(&self) -> (w: u32)
        ensures
            w == self.width(),
    {
        self.width
    }

    /// The height of the image in pixels.
    #[verifier::when_used_as_spec(height_spec)]
    pub fn height(&self) -> (h: u32)
        ensures
            h == self.height(),
    {
        self.height
    }

    /// The number of samples for each pixel.
    #[verifier::when_used_as_spec(samples_per_pixel_spec)]
    pub fn samples_per_pixel(&self) -> (n: u32)
        ensures
            n == self.samples_per_pixel(),
    {
        self.samples_per_pixel
    }

    /// The number of bounces that are followed.
    #[verifier::when_used_as_spec(max_depth_spec)]
    pub fn max_depth(&self) -> (d: u64)
        ensures
            d == self.max_depth(),
    {
        self.max_depth
    }
}

/// The place of a sample along one side of the image as a fraction of that
/// side: the pixel's index plus the jitter, over the side less one.
pub open spec fn fraction_spec(index: u32, jitter: Scalar, side: u32) -> Scalar {
    Scalar::from_int_spec(index as int).plus(jitter).over(Scalar::from_int_spec(side - 1))
}

/// The place of a sample along one side of the image as a fraction of that
/// side.
pub fn fraction(index: u32, jitter: Scalar, side: u32) -> (f: Scalar)
    requires
        side >= 2,
    ensures
        f == fraction_spec(index, jitter, side),
{
    assert(1_000_000 <= (side - 1) * SCALE <= 0xffff_ffff * 1_000_000) by (nonlinear_arith)
        requires
            2 <= side <= 0xffff_ffff,
            SCALE == 1_000_000,
    ;
    (Scalar::from_int(index as i64) + jitter) / Scalar::from_int((side - 1) as i64)
}

/// The ray through pixel `(x, y)`, rows counted from the top, for a sample
/// that is displaced within the pixel by the jitter `(ru, rv)`.
pub open spec fn sample_ray_spec(
    cam: Camera,
    settings: Settings,
    x: u32,
    y: u32,
    ru: Scalar,
    rv: Scalar,
) -> Ray {
    let u = fraction_spec(x, ru, settings.width());
    let v = fraction_spec(y, rv, settings.height());
    cam.get_ray_spec(u, (Scalar { raw: SCALE }).minus(v))
}

/// The sum of the colours of the first `n` samples of pixel `(x, y)`, taken
/// with the draws of the stream `s`: each sample takes two draws for its
/// jitter and then those that its ray needs. With it, the stream as the
/// draws taken leave it.
pub open spec fn pixel_sum_spec(
    cam: Camera,
    world: Seq<Sphere>,
    settings: Settings,
    x: u32,
    y: u32,
    s: Stream,
    n: nat,
) -> (Color, Stream)
    decreases n,
{
    if n == 0 {
        (black(), s)
    } else {
        let (sum, before) = pixel_sum_spec(cam, world, settings, x, y, s, (n - 1) as nat);
        let ray = sample_ray_spec(cam, settings, x, y, before.peek(), before.advance(1).peek());
        let (colour, after) = ray_color_spec(
            ray,
            world,
            settings.max_depth() as nat,
            before.advance(2),
        );
        (sum.plus(colour), after)
    }
}

/// Where in the table of draws the samples of pixel `(x, y)` begin, before
/// the position is reduced to the table's length.
pub open spec fn pixel_offset(x: u32, y: u32, width: u32) -> int {
    (y * width + x) * PIXEL_STRIDE
}

/// The stored colour of pixel `(x, y)`: the average of its samples, taken
/// with the draws of `table` from the pixel's own offset on. With it, the
/// stream as the draws taken leave it.
#[verifier::opaque]
pub open spec fn pixel_spec(
    cam: Camera,
    world: Seq<Sphere>,
    settings: Settings,
    x: u32,
    y: u32,
    table: Seq<Scalar>,
) -> (Rgb, Stream) {
    let start = (Stream { table, cursor: 0 }).at(pixel_offset(x, y, settings.width()));
    let (sum, end) = pixel_sum_spec(
        cam,
        world,
        settings,
        x,
        y,
        start,
        settings.samples_per_pixel() as nat,
    );
    (quantize_spec(sum.over(Scalar::from_int_spec(settings.samples_per_pixel() as int))), end)
}

/// Renders pixel `(x, y)`: averages the colours of its samples and stores the
/// result in eight bits a channel. The draws are taken from the pixel's own
/// offset in the sampler's table, wherever the cursor stood before.
pub fn render_pixel(
    cam: &Camera,
    world: &World,
    settings: &Settings,
    x: u32,
    y: u32,
    sampler: &mut Sampler,
) -> (rgb: Rgb)
    ensures
        (rgb, final(sampler)@) == pixel_spec(*cam, world@, *settings, x, y, old(sampler)@.table),
        final(sampler)@.table == old(sampler)@.table,
{
    proof {
        use_type_invariant(settings);
        use_type_invariant(&*sampler);
        reveal(pixel_spec);
    }
    assert(0 <= (y * settings.width() + x) * PIXEL_STRIDE <= 0x1_0000_0000_0000 * 7_919)
        by (nonlinear_arith)
        requires
            0 <= x <= 0xffff_ffff,
            0 <= y <= 0xffff_ffff,
            0 <= settings.width() <= 32_768,
            PIXEL_STRIDE == 7_919,
    ;
    assert(0 <= y * settings.width() <= 0xffff_ffff * 32_768) by (nonlinear_arith)
        requires
            0 <= y <= 0xffff_ffff,
            0 <= settings.width() <= 32_768,
    ;
    let index: u64 = (y as u64) * (settings.width() as u64) + (x as u64);
    sampler.seek(index * PIXEL_STRIDE);
    let samples: u32 = settings.samples_per_pixel();
    let ghost start = sampler@;
    let mut sum: Color = Vec3::zero();
    let mut taken: u32 = 0;
    while taken < samples
        invariant
            taken <= samples,
            sampler@.table == old(sampler)@.table,
            (sum, sampler@) == pixel_sum_spec(*cam, world@, *settings, x, y, start, taken as nat),
        decreases samples - taken,
    {
        proof {
            use_type_invariant(settings);
            use_type_invariant(&*sampler);
            lemma_advance(sampler@, 1, 1);
        }
        let ru = sampler.next_unit();
        let rv = sampler.next_unit();
        let u = fraction(x, ru, settings.width());
        let v = fraction(y, rv, settings.height());
        let ray = cam.get_ray(u, Scalar::one() - v);
        let colour = ray_color(&ray, world, settings.max_depth(), sampler);
        sum = sum + colour;
        taken += 1;
    }
    assert(1_000_000 <= samples * SCALE <= 0xffff_ffff * 1_000_000) by (nonlinear_arith)
        requires
            1 <= samples <= 0xffff_ffff,
            SCALE == 1_000_000,
    ;
    quantize(sum / Scalar::from_int(samples as i64))
}

/// The colours of a pixel's samples add up without clamping: in a scene
/// whose albedos lie in the unit range, every channel of the sum of `n`
/// samples lies between zero and `n`, for any number of samples that a
/// render can be asked for.
pub proof fn lemma_pixel_sum_in_range(
    cam: Camera,
    world: Seq<Sphere>,
    settings: Settings,
    x: u32,
    y: u32,
    s: Stream,
    n: nat,
)
    requires
        scene_in_range(world),
        n <= u32::MAX,
    ensures
        ({
            let sum = pixel_sum_spec(cam, world, settings, x, y, s, n).0;
            &&& 0 <= sum.x@ <= n * SCALE
            &&& 0 <= sum.y@ <= n * SCALE
            &&& 0 <= sum.z@ <= n * SCALE
        }),
    decreases n,
{
    if n > 0 {
        let m = (n - 1) as nat;
        lemma_pixel_sum_in_range(cam, world, settings, x, y, s, m);
        let (sum, before) = pixel_sum_spec(cam, world, settings, x, y, s, m);
        let ray = sample_ray_spec(cam, settings, x, y, before.peek(), before.advance(1).peek());
        lemma_ray_color_in_range(ray, world, settings.max_depth() as nat, before.advance(2));
        assert(n * SCALE == m * SCALE + SCALE) by (nonlinear_arith)
            requires
                n == m + 1,
        ;
        assert(n * SCALE <= 0xffff_ffff * 1_000_000) by (nonlinear_arith)
            requires
                n <= 0xffff_ffff,
                SCALE == 1_000_000,
        ;
    } else {
        assert(0 * SCALE == 0);
    }
}

/// In a scene without surfaces every sample sees the sky. Where one sample
/// is taken for each pixel and at least one bounce is followed, the stored
/// colour of a pixel is that of the sky along the pixel's one ray, whose
/// jitter is given by the two draws at the pixel's offset in the table.
pub proof fn lemma_empty_scene_pixel(
    cam: Camera,
    settings: Settings,
    x: u32,
    y: u32,
    table: Seq<Scalar>,
)
    requires
        settings.samples_per_pixel() == 1,
        settings.max_depth() >= 1,
    ensures
        ({
            let start = (Stream { table, cursor: 0 }).at(pixel_offset(x, y, settings.width()));
            let ray = sample_ray_spec(cam, settings, x, y, start.peek(), start.advance(1).peek());
            pixel_spec(cam, Seq::<Sphere>::empty(), settings, x, y, table) == (
                quantize_spec(background_spec(ray)),
                start.advance(2),
            )
        }),
{
    reveal(pixel_spec);
    let world = Seq::<Sphere>::empty();
    let start = (Stream { table, cursor: 0 }).at(pixel_offset(x, y, settings.width()));
    let ray = sample_ray_spec(cam, settings, x, y, start.peek(), start.advance(1).peek());
    let sky = background_spec(ray);
    let depth = settings.max_depth() as nat;
    assert(pixel_sum_spec(cam, world, settings, x, y, start, 0) == (black(), start));
    assert(closest_hit(
        world,
        ray,
        Scalar { raw: SHADOW_EPSILON },
        Scalar { raw: i64::MAX },
        0,
    ) is None);
    assert(ray_color_spec(ray, world, depth, start.advance(2)) == (sky, start.advance(2)));
    assert(pixel_sum_spec(cam, world, settings, x, y, start, 1) == (
        black().plus(sky),
        start.advance(2),
    ));
    assert(black().plus(sky) == sky);
    let one = Scalar::from_int_spec(1);
    assert(one.raw == SCALE);
    lemma_trunc_div_multiple(sky.x@, SCALE as int);
    lemma_trunc_div_multiple(sky.y@, SCALE as int);
    lemma_trunc_div_multiple(sky.z@, SCALE as int);
    assert(sky.over(one) == sky);
}

/// The stream that rendering the columns from `x_start` up to, not
/// including, `x_end` leaves: that of the last pixel rendered, the one in
/// the bottom row of the last column; the stream as it was if there is no
/// column.
pub open spec fn columns_end_spec(
    cam: Camera,
    world: Seq<Sphere>,
    settings: Settings,
    x_start: u32,
    x_end: u32,
    s: Stream,
) -> Stream {
    if x_start < x_end {
        pixel_spec(cam, world, settings, (x_end - 1) as u32, (settings.height() - 1) as u32, s.table).1
    } else {
        s
    }
}

/// Renders column `x` from its top pixel down.
pub fn render_column(
    cam: &Camera,
    world: &World,
    settings: &Settings,
    x: u32,
    sampler: &mut Sampler,
) -> (column: Vec<Rgb>)
    ensures
        column@.len() == settings.height(),
        forall|y: int|
            0 <= y < settings.height() ==> #[trigger] column@[y] == pixel_spec(
                *cam,
                world@,
                *settings,
                x,
                y as u32,
                old(sampler)@.table,
            ).0,
        final(sampler)@ == pixel_spec(
            *cam,
            world@,
            *settings,
            x,
            (settings.height() - 1) as u32,
            old(sampler)@.table,
        ).1,
        final(sampler)@.table == old(sampler)@.table,
{
    proof {
        use_type_invariant(settings);
    }
    let height: u32 = settings.height();
    let mut column: Vec<Rgb> = Vec::new();
    let mut y: u32 = 0;
    while y < height
        invariant
            y <= height,
            height == settings.height(),
            sampler@.table == old(sampler)@.table,
            column@.len() == y,
            forall|y2: int|
                0 <= y2 < y ==> #[trigger] column@[y2] == pixel_spec(
                    *cam,
                    world@,
                    *settings,
                    x,
                    y2 as u32,
                    old(sampler)@.table,
                ).0,
            y > 0 ==> sampler@ == pixel_spec(
                *cam,
                world@,
                *settings,
                x,
                (y - 1) as u32,
                old(sampler)@.table,
            ).1,
        decreases height - y,
    {
        let rgb = render_pixel(cam, world, settings, x, y, sampler);
        column.push(rgb);
        y += 1;
    }
    column
}

/// Renders the columns from `x_start` up to, not including, `x_end`, from
/// the left. The result holds one vector for each column.
pub fn render_columns(
    cam: &Camera,
    world: &World,
    settings: &Settings,
    x_start: u32,
    x_end: u32,
    sampler: &mut Sampler,
) -> (columns: Vec<Vec<Rgb>>)
    ensures
        columns@.len() == if x_start <= x_end {
            x_end - x_start
        } else {
            0
        },
        forall|i: int| 0 <= i < columns@.len() ==> (#[trigger] columns@[i])@.len() == settings.height(),
        forall|x: int, y: int|
            x_start <= x < x_end && 0 <= y < settings.height() ==> #[trigger] columns@[x
                - x_start]@[y] == pixel_spec(
                *cam,
                world@,
                *settings,
                x as u32,
                y as u32,
                old(sampler)@.table,
            ).0,
        final(sampler)@ == columns_end_spec(
            *cam,
            world@,
            *settings,
            x_start,
            x_end,
            old(sampler)@,
        ),
        final(sampler)@.table == old(sampler)@.table,
{
    let mut columns: Vec<Vec<Rgb>> = Vec::new();
    let mut x: u32 = x_start;
    while x < x_end
        invariant
            x_start <= x_end ==> x_start <= x <= x_end,
            x_start > x_end ==> x == x_start,
            sampler@.table == old(sampler)@.table,
            columns@.len() == x - x_start,
            forall|i: int|
                0 <= i < columns@.len() ==> (#[trigger] columns@[i])@.len() == settings.height(),
            forall|x2: int, y2: int|
                x_start <= x2 < x && 0 <= y2 < settings.height() ==> #[trigger] columns@[x2
                    - x_start]@[y2] == pixel_spec(
                    *cam,
                    world@,
                    *settings,
                    x2 as u32,
                    y2 as u32,
                    old(sampler)@.table,
                ).0,
            sampler@ == columns_end_spec(*cam, world@, *settings, x_start, x, old(sampler)@),
        decreases x_end - x,
    {
        let column = render_column(cam, world, settings, x, sampler);
        columns.push(column);
        x += 1;
    }
    columns
}

/// Renders the whole image, column by column from the left.
pub fn render(cam: &Camera, world: &World, settings: &Settings, sampler: &mut Sampler) -> (img:
    bmp::Image)
    ensures
        image_size(img) == (settings.width() as int, settings.height() as int),
        forall|x: int, y: int|
            in_bounds(image_size(img), x, y) ==> #[trigger] image_pixels(img)[(x, y)] == pixel_spec(
                *cam,
                world@,
                *settings,
                x as u32,
                y as u32,
                old(sampler)@.table,
            ).0,
        final(sampler)@ == columns_end_spec(
            *cam,
            world@,
            *settings,
            0,
            settings.width(),
            old(sampler)@,
        ),
        final(sampler)@.table == old(sampler)@.table,
{
    proof {
        use_type_invariant(settings);
    }
    let width: u32 = settings.width();
    let mut img = match blank(width, settings.height()) {
        Some(img) => img,
        None => vstd::pervasive::unreached(),
    };
    let columns = render_columns(cam, world, settings, 0, width, sampler);
    let ok = put_columns(&mut img, 0, &columns);
    assert(ok);
    img
}

/// The columns that fall to worker number `worker` of `workers` when an
/// image `width` pixels wide is shared out: first column and the one after
/// the last. Every worker gets the same whole number of columns, and the last
/// worker also those that are left over.
pub open spec fn column_range_spec(worker: int, workers: int, width: int) -> (int, int) {
    let share = width / workers;
    (
        worker * share,
        if worker == workers - 1 {
            width
        } else {
            (worker + 1) * share
        },
    )
}

/// The shares of the workers lie side by side in the image, begin at its
/// left edge and end at its right edge: between them they hold every column
/// once.
pub proof fn lemma_column_ranges_tile(worker: int, workers: int, width: int)
    requires
        0 <= worker < workers,
        0 <= width,
    ensures
        0 <= column_range_spec(worker, workers, width).0 <= column_range_spec(
            worker,
            workers,
            width,
        ).1 <= width,
        column_range_spec(0, workers, width).0 == 0,
        column_range_spec(workers - 1, workers, width).1 == width,
        worker + 1 < workers ==> column_range_spec(worker, workers, width).1 == column_range_spec(
            worker + 1,
            workers,
            width,
        ).0,
{
    let share = width / workers;
    vstd::arithmetic::div_mod::lemma_fundamental_div_mod(width, workers);
    vstd::arithmetic::div_mod::lemma_div_pos_is_pos(width, workers);
    vstd::arithmetic::div_mod::lemma_mod_bound(width, workers);
    assert(0 <= worker * share <= (worker + 1) * share <= workers * share) by (nonlinear_arith)
        requires
            0 <= worker < workers,
            0 <= share,
    ;
    assert(0 * share == 0);
}

/// Every column of the image belongs to the share of exactly one worker.
pub proof fn lemma_column_has_one_worker(x: int, workers: int, width: int) -> (worker: int)
    requires
        0 < workers,
        0 <= x < width,
    ensures
        0 <= worker < workers,
        column_range_spec(worker, workers, width).0 <= x < column_range_spec(
            worker,
            workers,
            width,
        ).1,
        forall|other: int|
            0 <= other < workers && #[trigger] column_range_spec(other, workers, width).0 <= x
                < column_range_spec(other, workers, width).1 ==> other == worker,
{
    let share = width / workers;
    vstd::arithmetic::div_mod::lemma_div_pos_is_pos(width, workers);
    let worker = if share == 0 {
        workers - 1
    } else if x / share >= workers - 1 {
        workers - 1
    } else {
        x / share
    };
    if share == 0 {
        assert((workers - 1) * share == 0) by (nonlinear_arith)
            requires
                share == 0,
        ;
    } else {
        let q = x / share;
        vstd::arithmetic::div_mod::lemma_fundamental_div_mod(x, share);
        vstd::arithmetic::div_mod::lemma_div_pos_is_pos(x, share);
        vstd::arithmetic::div_mod::lemma_mod_bound(x, share);
        assert(q * share <= x < (q + 1) * share) by (nonlinear_arith)
            requires
                x == share * q + x % share,
                0 <= x % share < share,
        ;
        if q >= workers - 1 {
            assert((workers - 1) * share <= q * share) by (nonlinear_arith)
                requires
                    workers - 1 <= q,
                    0 <= share,
            ;
        }
    }
    let first = column_range_spec(worker, workers, width).0;
    let end = column_range_spec(worker, workers, width).1;
    assert(first == worker * share);
    assert(first <= x < end);
    assert forall|other: int|
        0 <= other < workers && #[trigger] column_range_spec(other, workers, width).0 <= x
            < column_range_spec(other, workers, width).1 implies other == worker by {
        if other < worker {
            assert((other + 1) * share <= worker * share) by (nonlinear_arith)
                requires
                    other + 1 <= worker,
                    0 <= share,
            ;
        } else if other > worker {
            assert((worker + 1) * share <= other * share) by (nonlinear_arith)
                requires
                    worker + 1 <= other,
                    0 <= share,
            ;
        }
    }
    worker
}

/// The columns that fall to worker number `worker` of `workers`.
pub fn column_range(worker: u32, workers: u32, width: u32) -> (range: (u32, u32))
    requires
        worker < workers,
    ensures
        (range.0 as int, range.1 as int) == column_range_spec(
            worker as int,
            workers as int,
            width as int,
        ),
        range.0 <= range.1 <= width,
{
    proof {
        lemma_column_ranges_tile(worker as int, workers as int, width as int);
    }
    let share: u32 = width / workers;
    let first: u32 = worker * share;
    let end: u32 = if worker == workers - 1 {
        width
    } else {
        (worker + 1) * share
    };
    (first, end)
}

/// Renders the whole image as `workers` workers would, each its own share
/// of the columns, one share after the other.
pub fn render_partitioned(
    cam: &Camera,
    world: &World,
    settings: &Settings,
    workers: u32,
    sampler: &mut Sampler,
) -> (img: bmp::Image)
    requires
        workers > 0,
    ensures
        image_size(img) == (settings.width() as int, settings.height() as int),
        forall|x: int, y: int|
            in_bounds(image_size(img), x, y) ==> #[trigger] image_pixels(img)[(x, y)] == pixel_spec(
                *cam,
                world@,
                *settings,
                x as u32,
                y as u32,
                old(sampler)@.table,
            ).0,
        final(sampler)@ == columns_end_spec(
            *cam,
            world@,
            *settings,
            0,
            settings.width(),
            old(sampler)@,
        ),
        final(sampler)@.table == old(sampler)@.table,
{
    proof {
        use_type_invariant(settings);
        lemma_column_ranges_tile(0, workers as int, settings.width() as int);
    }
    let width: u32 = settings.width();
    let mut img = match blank(width, settings.height()) {
        Some(img) => img,
        None => vstd::pervasive::unreached(),
    };
    let mut worker: u32 = 0;
    while worker < workers
        invariant
            worker <= workers,
            width == settings.width(),
            image_size(img) == (settings.width() as int, settings.height() as int),
            sampler@.table == old(sampler)@.table,
            worker < workers ==> 0 <= column_range_spec(
                worker as int,
                workers as int,
                width as int,
            ).0 <= width,
            sampler@ == columns_end_spec(
                *cam,
                world@,
                *settings,
                0,
                if worker == workers {
                    width
                } else {
                    column_range_spec(worker as int, workers as int, width as int).0 as u32
                },
                old(sampler)@,
            ),
            forall|x: int, y: int|
                in_bounds(image_size(img), x, y) && (worker == workers || x < column_range_spec(
                    worker as int,
                    workers as int,
                    width as int,
                ).0) ==> #[trigger] image_pixels(img)[(x, y)] == pixel_spec(
                    *cam,
                    world@,
                    *settings,
                    x as u32,
                    y as u32,
                    old(sampler)@.table,
                ).0,
        decreases workers - worker,
    {
        proof {
            use_type_invariant(settings);
            lemma_column_ranges_tile(worker as int, workers as int, width as int);
            if worker + 1 < workers {
                lemma_column_ranges_tile(worker + 1, workers as int, width as int);
            }
        }
        let (first, end) = column_range(worker, workers, width);
        let columns = render_columns(cam, world, settings, first, end, sampler);
        let ok = put_columns(&mut img, first, &columns);
        assert(ok);
        worker += 1;
    }
    img
}

/// Whether `columns` is what rendering the columns of `range` gives: one
/// sequence for each column, and in it the stored colour of each pixel.
pub open spec fn is_render_of(
    columns: Seq<Seq<Rgb>>,
    cam: Camera,
    world: Seq<Sphere>,
    settings: Settings,
    table: Seq<Scalar>,
    range: (int, int),
) -> bool {
    &&& columns.len() == range.1 - range.0
    &&& forall|x: int, y: int|
        range.0 <= x < range.1 && 0 <= y < settings.height() ==> #[trigger] columns[x - range.0][y]
            == pixel_spec(cam, world, settings, x as u32, y as u32, table).0
}

/// Sharing the columns out among workers does not change the image: the
/// pixel that a worker renders within its share is the pixel that a render
/// of the whole image gives at that place, for the same table of draws.
pub proof fn lemma_partition_matches_whole(
    cam: Camera,
    world: Seq<Sphere>,
    settings: Settings,
    table: Seq<Scalar>,
    workers: int,
    worker: int,
    share: Seq<Seq<Rgb>>,
    whole: Seq<Seq<Rgb>>,
    x: int,
    y: int,
)
    requires
        0 <= worker < workers,
        is_render_of(share, cam, world, settings, table, column_range_spec(
            worker,
            workers,
            settings.width() as int,
        )),
        is_render_of(whole, cam, world, settings, table, (0, settings.width() as int)),
        column_range_spec(worker, workers, settings.width() as int).0 <= x < column_range_spec(
            worker,
            workers,
            settings.width() as int,
        ).1,
        0 <= y < settings.height(),
    ensures
        share[x - column_range_spec(worker, workers, settings.width() as int).0][y] == whole[x][y],
{
    lemma_column_ranges_tile(worker, workers, settings.width() as int);
    let first = column_range_spec(worker, workers, settings.width() as int).0;
    let colour = pixel_spec(cam, world, settings, x as u32, y as u32, table).0;
    assert(share[x - first][y] == colour);
    assert(whole[x - 0][y] == colour);
}

} // verus!
