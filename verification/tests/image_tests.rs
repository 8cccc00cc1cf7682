use bmp::{Image, Pixel};
use rusttracing::image::{blank, put_columns, Rgb, MAX_DIMENSION};

fn rgb(r: u8, g: u8, b: u8) -> Rgb {
    Rgb { r, g, b }
}

fn at(img: &Image, x: u32, y: u32) -> Rgb {
    let px = img.get_pixel(x, y);
    rgb(px.r, px.g, px.b)
}

#[test]
fn blank_image_is_black() {
    let img = blank(3, 2).unwrap();
    assert_eq!(img.get_width(), 3);
    assert_eq!(img.get_height(), 2);
    for (x, y) in img.coordinates() {
        assert_eq!(at(&img, x, y), rgb(0, 0, 0));
    }
}

#[test]
fn image_sides_are_bounded() {
    assert_eq!(MAX_DIMENSION, 32_768);
    assert!(blank(0, 5).is_none());
    assert!(blank(5, 0).is_none());
    assert!(blank(MAX_DIMENSION + 1, 1).is_none());
    assert!(blank(1, MAX_DIMENSION + 1).is_none());
    assert!(blank(1, 1).is_some());
    assert!(blank(MAX_DIMENSION, 1).is_some());
}

#[test]
fn put_columns_copies_whole_columns() {
    let mut img = blank(4, 2).unwrap();
    let columns = vec![vec![rgb(1, 1, 1), rgb(2, 2, 2)], vec![rgb(3, 3, 3), rgb(4, 4, 4)]];
    assert!(put_columns(&mut img, 1, &columns));
    assert_eq!(at(&img, 0, 0), rgb(0, 0, 0));
    assert_eq!(at(&img, 0, 1), rgb(0, 0, 0));
    assert_eq!(at(&img, 1, 0), rgb(1, 1, 1));
    assert_eq!(at(&img, 1, 1), rgb(2, 2, 2));
    assert_eq!(at(&img, 2, 0), rgb(3, 3, 3));
    assert_eq!(at(&img, 2, 1), rgb(4, 4, 4));
    assert_eq!(at(&img, 3, 0), rgb(0, 0, 0));
    assert_eq!(at(&img, 3, 1), rgb(0, 0, 0));
    assert!(put_columns(&mut img, 4, &vec![]));
    assert!(put_columns(&mut img, 2, &columns));
    assert_eq!(at(&img, 3, 1), rgb(4, 4, 4));
    assert_eq!(at(&img, 2, 0), rgb(1, 1, 1));
    assert_eq!(img.get_width(), 4);
    assert_eq!(img.get_height(), 2);
}

#[test]
fn put_columns_refuses_what_does_not_fit() {
    let mut img = blank(4, 2).unwrap();
    img.set_pixel(3, 0, Pixel::new(9, 9, 9));
    let columns = vec![vec![rgb(1, 1, 1), rgb(2, 2, 2)], vec![rgb(3, 3, 3), rgb(4, 4, 4)]];
    assert!(!put_columns(&mut img, 3, &columns));
    assert!(!put_columns(&mut img, u32::MAX, &columns));
    assert!(!put_columns(&mut img, 5, &vec![]));
    let short = vec![vec![rgb(1, 1, 1), rgb(2, 2, 2)], vec![rgb(3, 3, 3)]];
    assert!(!put_columns(&mut img, 0, &short));
    let long = vec![vec![rgb(1, 1, 1), rgb(2, 2, 2), rgb(3, 3, 3)]];
    assert!(!put_columns(&mut img, 0, &long));
    for (x, y) in img.coordinates() {
        let expected = if (x, y) == (3, 0) { rgb(9, 9, 9) } else { rgb(0, 0, 0) };
        assert_eq!(at(&img, x, y), expected);
    }
}

#[test]
fn put_columns_fills_an_image_of_another_maker() {
    let mut img = Image::new(2, 3);
    let columns = vec![vec![rgb(1, 2, 3), rgb(4, 5, 6), rgb(7, 8, 9)]];
    assert!(put_columns(&mut img, 1, &columns));
    assert_eq!(at(&img, 1, 0), rgb(1, 2, 3));
    assert_eq!(at(&img, 1, 1), rgb(4, 5, 6));
    assert_eq!(at(&img, 1, 2), rgb(7, 8, 9));
    assert_eq!(at(&img, 0, 2), rgb(0, 0, 0));
}
