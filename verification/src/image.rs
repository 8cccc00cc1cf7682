//! The image that a render fills: a bitmap of the `bmp` crate.

use vstd::prelude::*;

verus! {

/// Largest width and height of an image. Within it every pixel index fits
/// the machine's integers, and so do the sizes that the bitmap encoder
/// computes.
pub const MAX_DIMENSION: u32 = 32_768;

/// A pixel as it is stored: eight bits for each of red, green and blue.
#[derive(Clone, Copy, Debug, PartialEq, Eq, Structural)]
pub struct Rgb {
    pub r: u8,
    pub g: u8,
    pub b: u8,
}

/// A bitmap of the `bmp` crate. Nothing of its inside is visible here.
#[verifier::external_type_specification]
#[verifier::external_body]
pub struct ExImage(bmp::Image);

/// The pixels of a bitmap, by column `x` and row `y`, the first row on top.
pub uninterp spec fn image_pixels(img: bmp::Image) -> Map<(int, int), Rgb>;

/// The width and the height of a bitmap.
pub uninterp spec fn image_size(img: bmp::Image) -> (int, int);

/// Whether `(x, y)` names a pixel of an image of the given size.
pub open spec fn in_bounds(size: (int, int), x: int, y: int) -> bool {
    0 <= x < size.0 && 0 <= y < size.1
}

/// Whether a size is one that an image can have here: neither side above
/// `MAX_DIMENSION`.
pub open spec fn size_in_reach(size: (int, int)) -> bool {
    0 <= size.0 <= MAX_DIMENSION && 0 <= size.1 <= MAX_DIMENSION
}

/// Makes a bitmap with `bmp::Image::new`: one of the given width and height,
/// every pixel black. Within the bounds required here the sizes that the
/// crate computes for the file header do not overflow.
#[verifier::external_body]
fn image_new(width: u32, height: u32) -> (img: bmp::Image)
    requires
        width <= MAX_DIMENSION,
        height <= MAX_DIMENSION,
    ensures
        image_size(img) == (width as int, height as int),
        image_pixels(img).dom() =~= Set::new(
            |k: (int, int)| in_bounds((width as int, height as int), k.0, k.1),
        ),
        forall|x: int, y: int|
            in_bounds((width as int, height as int), x, y) ==> #[trigger] image_pixels(img)[(x, y)]
                == (Rgb { r: 0, g: 0, b: 0 }),
{
    bmp::Image::new(width, height)
}

/// The width of a bitmap, from `bmp::Image::get_width`.
#[verifier::external_body]
fn image_width(img: &bmp::Image) -> (width: u32)
    ensures
        width == image_size(*img).0,
{
    img.get_width()
}

/// The height of a bitmap, from `bmp::Image::get_height`.
#[verifier::external_body]
fn image_height(img: &bmp::Image) -> (height: u32)
    ensures
        height == image_size(*img).1,
{
    img.get_height()
}

/// Stores one pixel with `bmp::Image::set_pixel`: the pixel at column `x` and
/// row `y` of a bitmap whose sides do not exceed `MAX_DIMENSION` takes the
/// given value, every other pixel and the size stay.
#[verifier::external_body]
fn image_set(img: &mut bmp::Image, x: u32, y: u32, rgb: Rgb)
    requires
        size_in_reach(image_size(*old(img))),
        in_bounds(image_size(*old(img)), x as int, y as int),
    ensures
        image_size(*final(img)) == image_size(*old(img)),
        image_pixels(*final(img)) == image_pixels(*old(img)).insert((x as int, y as int), rgb),
{
    img.set_pixel(x, y, bmp::Pixel::new(rgb.r, rgb.g, rgb.b));
}

/// Whether an image can be made with the given sides.
pub open spec fn valid_size(width: u32, height: u32) -> bool {
    0 < width <= MAX_DIMENSION && 0 < height <= MAX_DIMENSION
}

/// A black image with the given sides.
///
/// Fails if a side is zero or exceeds `MAX_DIMENSION`.
pub fn blank(width: u32, height: u32) -> (r: Option<bmp::Image>)
    ensures
        r is Some <==> valid_size(width, height),
        r matches Some(img) ==> image_size(img) == (width as int, height as int) && forall|
            x: int,
            y: int,
        |
            in_bounds(image_size(img), x, y) ==> #[trigger] image_pixels(img)[(x, y)] == (Rgb {
                r: 0,
                g: 0,
                b: 0,
            }),
{
    if width == 0 || width > MAX_DIMENSION || height == 0 || height > MAX_DIMENSION {
        None
    } else {
        Some(image_new(width, height))
    }
}

/// Whether columns fit into an image of the given size from column
/// `x_start` on: the image is within reach, each column is as long as the
/// image is high, and the last of them lies within the image's width.
pub open spec fn columns_fit(size: (int, int), x_start: u32, columns: Seq<Vec<Rgb>>) -> bool {
    &&& size_in_reach(size)
    &&& x_start + columns.len() <= size.0
    &&& forall|j: int| 0 <= j < columns.len() ==> (#[trigger] columns[j])@.len() == size.1
}

/// Copies whole columns into the image, the first of them to column
/// `x_start`.
///
/// Succeeds if the columns fit, see [`columns_fit`]. Otherwise the image
/// stays as it is.
pub fn put_columns(img: &mut bmp::Image, x_start: u32, columns: &Vec<Vec<Rgb>>) -> (ok: bool)
    ensures
        image_size(*final(img)) == image_size(*old(img)),
        ok <==> columns_fit(image_size(*old(img)), x_start, columns@),
        !ok ==> *final(img) == *old(img),
        forall|x: int, y: int|
            in_bounds(image_size(*old(img)), x, y) ==> #[trigger] image_pixels(*final(img))[(x, y)]
                == if ok && x_start <= x < x_start + columns@.len() {
                columns@[x - x_start]@[y]
            } else {
                image_pixels(*old(img))[(x, y)]
            },
{
    let width = image_width(img);
    let height = image_height(img);
    if width > MAX_DIMENSION || height > MAX_DIMENSION {
        return false;
    }
    if columns.len() > width as usize || (x_start as usize) > (width as usize) - columns.len() {
        return false;
    }
    let mut i: usize = 0;
    while i < columns.len()
        invariant
            i <= columns@.len(),
            *img == *old(img),
            height == image_size(*img).1,
            forall|j: int| 0 <= j < i ==> (#[trigger] columns@[j])@.len() == height,
        decreases columns@.len() - i,
    {
        if columns[i].len() != height as usize {
            assert(columns@[i as int]@.len() != image_size(*img).1);
            return false;
        }
        i += 1;
    }
    let mut i: usize = 0;
    while i < columns.len()
        invariant
            i <= columns@.len(),
            image_size(*img) == image_size(*old(img)),
            image_size(*img) == (width as int, height as int),
            size_in_reach(image_size(*img)),
            x_start + columns@.len() <= width,
            forall|j: int| 0 <= j < columns@.len() ==> (#[trigger] columns@[j])@.len() == height,
            forall|x: int, y: int|
                in_bounds(image_size(*old(img)), x, y) ==> #[trigger] image_pixels(*img)[(x, y)]
                    == if x_start <= x < x_start + i {
                    columns@[x - x_start]@[y]
                } else {
                    image_pixels(*old(img))[(x, y)]
                },
        decreases columns@.len() - i,
    {
        let x: u32 = x_start + (i as u32);
        let mut y: u32 = 0;
        while y < height
            invariant
                i < columns@.len(),
                x == x_start + i,
                x < width,
                y <= height,
                image_size(*img) == image_size(*old(img)),
                image_size(*img) == (width as int, height as int),
                size_in_reach(image_size(*img)),
                columns@[i as int]@.len() == height,
                forall|x2: int, y2: int|
                    in_bounds(image_size(*old(img)), x2, y2) ==> #[trigger] image_pixels(*img)[(
                        x2,
                        y2,
                    )] == if x_start <= x2 < x_start + i || (x2 == x && y2 < y) {
                        columns@[x2 - x_start]@[y2]
                    } else {
                        image_pixels(*old(img))[(x2, y2)]
                    },
            decreases height - y,
        {
            image_set(img, x, y, columns[i][y as usize]);
            y += 1;
        }
        i += 1;
    }
    true
}

} // verus!
