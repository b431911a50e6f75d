use ppm_tool::error::ImageError;
use ppm_tool::imagefx;
use ppm_tool::ppm::{Channel, Pixel, PPM};

fn px(r: u16, g: u16, b: u16) -> Pixel {
    Pixel { r, g, b }
}

fn image(width: u32, height: u32, maxc: u32, pixels: &[(u16, u16, u16)]) -> PPM {
    PPM {
        width,
        height,
        maxc,
        magic: String::from("P6"),
        pixels: pixels.iter().map(|&(r, g, b)| px(r, g, b)).collect(),
    }
}

#[test]
fn pixel_new_is_black() {
    assert_eq!(Pixel::new(), px(0, 0, 0));
}

#[test]
fn ppm_new_is_empty() {
    let img = PPM::new();
    assert_eq!(img.width, 0);
    assert_eq!(img.height, 0);
    assert_eq!(img.maxc, 0);
    assert_eq!(img.magic, "");
    assert!(img.pixels.is_empty());
    assert_eq!(img.pixel_count(), 0);
}

#[test]
fn get_pixel_reads_row_major() {
    let img = image(3, 2, 255, &[(1, 1, 1), (2, 2, 2), (3, 3, 3), (4, 4, 4), (5, 5, 5), (6, 6, 6)]);
    assert_eq!(img.get_pixel(0, 0), Some(&px(1, 1, 1)));
    assert_eq!(img.get_pixel(2, 0), Some(&px(3, 3, 3)));
    assert_eq!(img.get_pixel(0, 1), Some(&px(4, 4, 4)));
    assert_eq!(img.get_pixel(2, 1), Some(&px(6, 6, 6)));
}

#[test]
fn get_pixel_out_of_bounds_is_none() {
    let img = image(3, 2, 255, &[(0, 0, 0); 6]);
    assert_eq!(img.get_pixel(3, 0), None);
    assert_eq!(img.get_pixel(0, 2), None);
    assert_eq!(img.get_pixel(u32::MAX, u32::MAX), None);
}

#[test]
fn set_pixel_overwrites_one_pixel() {
    let mut img = image(2, 2, 255, &[(0, 0, 0); 4]);
    assert_eq!(img.set_pixel(1, 1, &px(7, 8, 9)), Ok(()));
    assert_eq!(img.pixels[3], px(7, 8, 9));
    assert_eq!(img.pixels[0], px(0, 0, 0));
    assert_eq!(img.pixels[1], px(0, 0, 0));
    assert_eq!(img.pixels[2], px(0, 0, 0));
}

#[test]
fn set_pixel_out_of_bounds_fails() {
    let mut img = image(2, 2, 255, &[(1, 2, 3); 4]);
    assert_eq!(img.set_pixel(2, 0, &px(7, 8, 9)), Err(ImageError::OutOfBounds));
    assert_eq!(img.set_pixel(0, 2, &px(7, 8, 9)), Err(ImageError::OutOfBounds));
    assert!(img.pixels.iter().all(|p| *p == px(1, 2, 3)));
}

#[test]
fn pixel_count_is_width_times_height() {
    let img = image(3, 2, 255, &[(0, 0, 0); 6]);
    assert_eq!(img.pixel_count(), 6);
    let wide = PPM { width: u32::MAX, height: u32::MAX, maxc: 255, magic: String::new(), pixels: Vec::new() };
    assert_eq!(wide.pixel_count(), u32::MAX as u64 * u32::MAX as u64);
}

#[test]
fn negative_inverts_against_max_colour() {
    let mut img = image(2, 1, 255, &[(0, 100, 255), (10, 20, 30)]);
    img.negative();
    assert_eq!(img.pixels, vec![px(255, 155, 0), px(245, 235, 225)]);
    assert_eq!(img.maxc, 255);
}

#[test]
fn negative_sixteen_bit() {
    let mut img = image(1, 1, 65535, &[(0, 1000, 65535)]);
    imagefx::negative(&mut img);
    assert_eq!(img.pixels, vec![px(65535, 64535, 0)]);
}

#[test]
fn negative_twice_is_identity() {
    let original = [(0, 100, 255), (10, 20, 30), (128, 64, 1)];
    let mut img = image(3, 1, 255, &original);
    img.negative();
    imagefx::negative(&mut img);
    assert_eq!(img.pixels, image(3, 1, 255, &original).pixels);
}

#[test]
fn grayscale_truncates_mean() {
    let mut img = image(2, 1, 255, &[(9, 6, 3), (1, 1, 2)]);
    img.grayscale();
    assert_eq!(img.pixels, vec![px(6, 6, 6), px(1, 1, 1)]);
}

#[test]
fn grayscale_sixteen_bit_does_not_overflow() {
    let mut img = image(1, 1, 65535, &[(65535, 65535, 65534)]);
    img.grayscale();
    assert_eq!(img.pixels, vec![px(65534, 65534, 65534)]);
}

#[test]
fn isolate_channel_keeps_one() {
    let mut red = image(1, 1, 255, &[(1, 2, 3)]);
    red.isolate_channel(Channel::Red);
    assert_eq!(red.pixels, vec![px(1, 0, 0)]);
    let mut green = image(1, 1, 255, &[(1, 2, 3)]);
    green.isolate_channel(Channel::Green);
    assert_eq!(green.pixels, vec![px(0, 2, 0)]);
    let mut blue = image(1, 1, 255, &[(1, 2, 3)]);
    blue.isolate_channel(Channel::Blue);
    assert_eq!(blue.pixels, vec![px(0, 0, 3)]);
}

#[test]
fn remove_channel_zeroes_one() {
    let mut red = image(1, 1, 255, &[(1, 2, 3)]);
    red.remove_channel(Channel::Red);
    assert_eq!(red.pixels, vec![px(0, 2, 3)]);
    let mut green = image(1, 1, 255, &[(1, 2, 3)]);
    green.remove_channel(Channel::Green);
    assert_eq!(green.pixels, vec![px(1, 0, 3)]);
    let mut blue = image(1, 1, 255, &[(1, 2, 3)]);
    blue.remove_channel(Channel::Blue);
    assert_eq!(blue.pixels, vec![px(1, 2, 0)]);
}

#[test]
fn isolate_then_remove_red_is_black() {
    let mut img = image(2, 2, 255, &[(10, 20, 30), (40, 50, 60), (70, 80, 90), (100, 110, 120)]);
    img.isolate_channel(Channel::Red);
    img.remove_channel(Channel::Red);
    assert!(img.pixels.iter().all(|p| *p == px(0, 0, 0)));
    assert_eq!(img.pixels.len(), 4);
}
