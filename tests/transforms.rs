use ppm_tool::imageactions::{
    bilinear_interpolation, double_bilinear, double_size, flip_horizontal, flip_vertical,
    half_size, rotate_left, rotate_right,
};
use ppm_tool::ppm::{Pixel, PPM};

fn px(r: u16, g: u16, b: u16) -> Pixel {
    Pixel { r, g, b }
}

fn gray(v: u16) -> Pixel {
    px(v, v, v)
}

fn image(width: u32, height: u32, pixels: Vec<Pixel>) -> PPM {
    PPM { width, height, maxc: 255, magic: String::from("P6"), pixels }
}

/// A 3 by 2 image whose pixels are numbered 1 to 6 in reading order.
fn numbered() -> PPM {
    image(3, 2, (1..=6).map(gray).collect())
}

#[test]
fn rotate_left_turns_counter_clockwise() {
    let out = rotate_left(numbered());
    assert_eq!((out.width, out.height), (2, 3));
    // 1 2 3        3 6
    // 4 5 6   ->   2 5
    //              1 4
    assert_eq!(out.pixels, vec![gray(3), gray(6), gray(2), gray(5), gray(1), gray(4)]);
    assert_eq!(out.magic, "P6");
    assert_eq!(out.maxc, 255);
}

#[test]
fn rotate_right_turns_clockwise() {
    let out = rotate_right(numbered());
    assert_eq!((out.width, out.height), (2, 3));
    // 1 2 3        4 1
    // 4 5 6   ->   5 2
    //              6 3
    assert_eq!(out.pixels, vec![gray(4), gray(1), gray(5), gray(2), gray(6), gray(3)]);
}

#[test]
fn rotate_left_then_right_restores() {
    let back = rotate_right(rotate_left(numbered()));
    assert_eq!((back.width, back.height), (3, 2));
    assert_eq!(back.pixels, numbered().pixels);
}

#[test]
fn rotate_empty_image() {
    let out = rotate_left(image(0, 5, Vec::new()));
    assert_eq!((out.width, out.height), (5, 0));
    assert!(out.pixels.is_empty());
}

#[test]
fn flip_horizontal_mirrors_rows() {
    let out = flip_horizontal(numbered());
    assert_eq!((out.width, out.height), (3, 2));
    assert_eq!(out.pixels, vec![gray(3), gray(2), gray(1), gray(6), gray(5), gray(4)]);
}

#[test]
fn flip_vertical_mirrors_columns() {
    let out = flip_vertical(numbered());
    assert_eq!(out.pixels, vec![gray(4), gray(5), gray(6), gray(1), gray(2), gray(3)]);
}

#[test]
fn flips_twice_are_identity() {
    assert_eq!(flip_horizontal(flip_horizontal(numbered())).pixels, numbered().pixels);
    assert_eq!(flip_vertical(flip_vertical(numbered())).pixels, numbered().pixels);
}

#[test]
fn half_size_averages_blocks() {
    let img = image(
        2,
        2,
        vec![px(10, 20, 30), px(40, 50, 60), px(70, 80, 90), px(100, 110, 120)],
    );
    let out = half_size(img);
    assert_eq!((out.width, out.height), (1, 1));
    assert_eq!(out.pixels, vec![px(55, 65, 75)]);
}

#[test]
fn half_size_truncates_and_drops_odd_edge() {
    // 3 by 3: the last column and row have no block of their own.
    let img = image(3, 3, vec![gray(1), gray(2), gray(9), gray(3), gray(3), gray(9), gray(9), gray(9), gray(9)]);
    let out = half_size(img);
    assert_eq!((out.width, out.height), (1, 1));
    assert_eq!(out.pixels, vec![gray(2)]);
}

#[test]
fn half_size_sixteen_bit_does_not_overflow() {
    let mut img = image(2, 2, vec![gray(65535); 4]);
    img.maxc = 65535;
    let out = half_size(img);
    assert_eq!(out.pixels, vec![gray(65535)]);
}

#[test]
fn half_then_double_keeps_even_dimensions() {
    let img = image(4, 2, (1..=8).map(gray).collect());
    let out = double_size(half_size(img));
    assert_eq!((out.width, out.height), (4, 2));
}

#[test]
fn half_then_double_odd_dimensions_shrink() {
    let img = image(3, 3, vec![gray(0); 9]);
    let out = double_size(half_size(img));
    assert_eq!((out.width, out.height), (2, 2));
}

#[test]
fn double_size_repeats_pixels() {
    let out = double_size(image(2, 1, vec![gray(1), gray(2)]));
    assert_eq!((out.width, out.height), (4, 2));
    assert_eq!(
        out.pixels,
        vec![gray(1), gray(1), gray(2), gray(2), gray(1), gray(1), gray(2), gray(2)]
    );
}

#[test]
fn double_bilinear_interpolates() {
    let out = double_bilinear(image(2, 1, vec![px(0, 0, 0), px(100, 50, 10)]));
    assert_eq!((out.width, out.height), (4, 2));
    assert_eq!(
        out.pixels,
        vec![
            px(0, 0, 0),
            px(50, 25, 5),
            px(100, 50, 10),
            px(100, 50, 10),
            px(0, 0, 0),
            px(25, 12, 2),
            px(100, 50, 10),
            px(100, 50, 10),
        ]
    );
}

#[test]
fn bilinear_interpolation_blends_four_neighbours() {
    let img = image(2, 2, vec![gray(0), gray(10), gray(20), gray(31)]);
    assert_eq!(bilinear_interpolation(&img, 0, 0), gray(0));
    assert_eq!(bilinear_interpolation(&img, 1, 0), gray(5));
    assert_eq!(bilinear_interpolation(&img, 0, 1), gray(10));
    // (0 + 10 + 20 + 31) / 4 = 15.25, truncated.
    assert_eq!(bilinear_interpolation(&img, 1, 1), gray(15));
    // Past the right edge the missing neighbours are the top-left sample.
    assert_eq!(bilinear_interpolation(&img, 3, 0), gray(10));
    assert_eq!(bilinear_interpolation(&img, 3, 3), gray(31));
}
