use ppm_tool::error::ImageError;
use ppm_tool::imageio::{decode, parse_header, read_image_data, write_image};
use ppm_tool::ppm::{Pixel, PPM};

fn px(r: u16, g: u16, b: u16) -> Pixel {
    Pixel { r, g, b }
}

fn bytes(header: &str, pixels: &[u8]) -> Vec<u8> {
    let mut data = header.as_bytes().to_vec();
    data.extend_from_slice(pixels);
    data
}

const COMMENT: &str = "# Modified with David Bootle's PPM Image Tool\n";

#[test]
fn decode_eight_bit_image() {
    let data = bytes("P6\n2 1\n255\n", &[255, 0, 0, 0, 255, 0]);
    let img = decode(&data).unwrap();
    assert_eq!(img.magic, "P6");
    assert_eq!((img.width, img.height, img.maxc), (2, 1, 255));
    assert_eq!(img.pixels, vec![px(255, 0, 0), px(0, 255, 0)]);
}

#[test]
fn decode_sixteen_bit_is_big_endian() {
    let data = bytes("P6 1 1 65535\n", &[0x12, 0x34, 0x00, 0xff, 0xff, 0x00]);
    let img = decode(&data).unwrap();
    assert_eq!(img.pixels, vec![px(0x1234, 0x00ff, 0xff00)]);
}

#[test]
fn decode_skips_comment_lines_and_mixed_whitespace() {
    let data = bytes("P6\n# a comment 12 34\n2\t1\r\n# another\n255 ", &[1, 2, 3, 4, 5, 6]);
    let img = decode(&data).unwrap();
    assert_eq!((img.width, img.height, img.maxc), (2, 1, 255));
    assert_eq!(img.pixels, vec![px(1, 2, 3), px(4, 5, 6)]);
}

#[test]
fn decode_pixel_data_may_begin_with_whitespace_bytes() {
    // Exactly one whitespace byte ends the header; the pixel bytes 10 and 32 follow.
    let data = bytes("P6\n1 1\n255\n", &[10, 32, 9]);
    let img = decode(&data).unwrap();
    assert_eq!(img.pixels, vec![px(10, 32, 9)]);
}

#[test]
fn decode_accepts_plus_sign() {
    let data = bytes("P6 +1 +1 +255\n", &[7, 8, 9]);
    let img = decode(&data).unwrap();
    assert_eq!(img.pixels, vec![px(7, 8, 9)]);
}

#[test]
fn decode_invalid_width() {
    let data = bytes("P6\nabc 1\n255\n", &[0, 0, 0]);
    assert_eq!(decode(&data).unwrap_err(), ImageError::InvalidHeaderField);
}

#[test]
fn decode_invalid_height_and_max_colour() {
    assert_eq!(decode(&bytes("P6 1 -1 255\n", &[])).unwrap_err(), ImageError::InvalidHeaderField);
    assert_eq!(decode(&bytes("P6 1 1 25x\n", &[])).unwrap_err(), ImageError::InvalidHeaderField);
    assert_eq!(decode(&bytes("P6 4294967296 1 255\n", &[])).unwrap_err(), ImageError::InvalidHeaderField);
    assert_eq!(decode(&bytes("P6 + 1 255\n", &[])).unwrap_err(), ImageError::InvalidHeaderField);
}

#[test]
fn decode_magic_that_is_not_text() {
    let data = vec![0xff, 0xfe, b' ', b'1', b' ', b'1', b' ', b'2', b'5', b'5', b'\n', 0, 0, 0];
    assert_eq!(decode(&data).unwrap_err(), ImageError::InvalidHeaderField);
}

#[test]
fn decode_truncated_header() {
    assert_eq!(decode(&Vec::new()).unwrap_err(), ImageError::TruncatedHeader);
    assert_eq!(decode(&bytes("P6\n2 1\n", &[])).unwrap_err(), ImageError::TruncatedHeader);
    assert_eq!(decode(&bytes("P6\n# only a comment\n", &[])).unwrap_err(), ImageError::TruncatedHeader);
    // The max colour must be followed by one whitespace byte.
    assert_eq!(decode(&bytes("P6 0 0 255", &[])).unwrap_err(), ImageError::TruncatedHeader);
}

#[test]
fn decode_truncated_pixel_data() {
    let data = bytes("P6\n2 1\n255\n", &[255, 0, 0, 0, 255]);
    assert_eq!(decode(&data).unwrap_err(), ImageError::TruncatedPixelData);
    let data = bytes("P6\n1 1\n65535\n", &[1, 2, 3, 4, 5]);
    assert_eq!(decode(&data).unwrap_err(), ImageError::TruncatedPixelData);
}

#[test]
fn decode_unsupported_bit_depth() {
    let data = bytes("P6\n1 1\n15\n", &[1, 2, 3]);
    assert_eq!(decode(&data).unwrap_err(), ImageError::UnsupportedBitDepth);
    let empty = bytes("P6\n0 0\n1023\n", &[]);
    assert_eq!(decode(&empty).unwrap_err(), ImageError::UnsupportedBitDepth);
}

#[test]
fn decode_unsupported_subtype() {
    let data = bytes("P3\n1 1\n255\n", &[1, 2, 3]);
    assert_eq!(decode(&data).unwrap_err(), ImageError::UnsupportedFormatSubtype);
}

#[test]
fn parse_header_reads_other_subtypes() {
    let data = bytes("P3\n# comment\n640 480\n255\n", &[]);
    let mut img = PPM::new();
    let offset = parse_header(&data, &mut img).unwrap();
    assert_eq!(offset, data.len());
    assert_eq!(img.magic, "P3");
    assert_eq!((img.width, img.height, img.maxc), (640, 480, 255));
    assert!(img.pixels.is_empty());
}

#[test]
fn parse_header_failure_leaves_image_alone() {
    let mut img = PPM::new();
    assert_eq!(parse_header(&bytes("P6 x", &[]), &mut img), Err(ImageError::InvalidHeaderField));
    assert_eq!(img.magic, "");
    assert_eq!((img.width, img.height, img.maxc), (0, 0, 0));
}

#[test]
fn read_image_data_from_offset() {
    let data = bytes("P6 1 2 255\n", &[1, 2, 3, 4, 5, 6]);
    let mut img = PPM::new();
    let offset = parse_header(&data, &mut img).unwrap();
    assert_eq!(offset, 11);
    assert_eq!(read_image_data(&data, &mut img, offset), Ok(()));
    assert_eq!(img.pixels, vec![px(1, 2, 3), px(4, 5, 6)]);
    assert_eq!(read_image_data(&data, &mut img, offset + 1), Err(ImageError::TruncatedPixelData));
    assert_eq!(img.pixels, vec![px(1, 2, 3), px(4, 5, 6)]);
}

#[test]
fn write_image_eight_bit_layout() {
    let img = PPM { width: 2, height: 1, maxc: 255, magic: String::from("P6"), pixels: vec![px(1, 2, 3), px(250, 0, 255)] };
    let out = write_image(&img).unwrap();
    let expected = bytes(&format!("P6\n{}2 1\n255\n", COMMENT), &[1, 2, 3, 250, 0, 255]);
    assert_eq!(out, expected);
}

#[test]
fn write_image_sixteen_bit_layout() {
    let img = PPM { width: 1, height: 1, maxc: 65535, magic: String::from("P6"), pixels: vec![px(0x1234, 0xff, 0xff00)] };
    let out = write_image(&img).unwrap();
    let expected = bytes(&format!("P6\n{}1 1\n65535\n", COMMENT), &[0x12, 0x34, 0x00, 0xff, 0xff, 0x00]);
    assert_eq!(out, expected);
}

#[test]
fn write_image_large_dimensions_in_decimal() {
    let img = PPM { width: 1000, height: 0, maxc: 255, magic: String::from("P6"), pixels: Vec::new() };
    let out = write_image(&img).unwrap();
    assert_eq!(out, bytes(&format!("P6\n{}1000 0\n255\n", COMMENT), &[]));
}

#[test]
fn write_image_unsupported_bit_depth() {
    let img = PPM { width: 1, height: 1, maxc: 1023, magic: String::from("P6"), pixels: vec![px(1, 2, 3)] };
    assert_eq!(write_image(&img), Err(ImageError::UnsupportedBitDepth));
}

#[test]
fn round_trip_eight_bit() {
    let img = PPM {
        width: 3,
        height: 2,
        maxc: 255,
        magic: String::from("P6"),
        pixels: vec![px(0, 10, 32), px(35, 255, 9), px(13, 10, 10), px(1, 2, 3), px(4, 5, 6), px(7, 8, 9)],
    };
    let back = decode(&write_image(&img).unwrap()).unwrap();
    assert_eq!(back.magic, img.magic);
    assert_eq!((back.width, back.height, back.maxc), (img.width, img.height, img.maxc));
    assert_eq!(back.pixels, img.pixels);
}

#[test]
fn round_trip_sixteen_bit() {
    let img = PPM {
        width: 2,
        height: 2,
        maxc: 65535,
        magic: String::from("P6"),
        pixels: vec![px(0, 65535, 256), px(2570, 10, 35), px(1, 2, 3), px(40000, 50000, 60000)],
    };
    let back = decode(&write_image(&img).unwrap()).unwrap();
    assert_eq!((back.width, back.height, back.maxc), (2, 2, 65535));
    assert_eq!(back.pixels, img.pixels);
}
