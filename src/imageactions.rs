use crate::ppm::{cell, lemma_cell_index, lemma_index_coords, lemma_same_pixels, Pixel, PPM};
use vstd::arithmetic::div_mod::lemma_fundamental_div_mod_converse;
use vstd::prelude::*;

verus! {

/// Builds a `width` by `height` raster row by row, the pixel at `(x, y)` being `f(x, y)`.
fn fill<F: Fn(u32, u32) -> Pixel>(width: u32, height: u32, f: F) -> (pixels: Vec<Pixel>)
    requires
        width * height <= usize::MAX,
        forall|x: u32, y: u32| x < width && y < height ==> #[trigger] f.requires((x, y)),
    ensures
        pixels@.len() == width * height,
        forall|x: int, y: int|
            0 <= x < width && 0 <= y < height ==> f.ensures(
                (x as u32, y as u32),
                #[trigger] cell(pixels@, width as int, x, y),
            ),
{
    let n: usize = width as usize * height as usize;
    let mut pixels: Vec<Pixel> = Vec::with_capacity(n);
    let mut i: usize = 0;
    while i < n
        invariant
            n == width * height,
            i <= n,
            pixels@.len() == i,
            forall|x: u32, y: u32| x < width && y < height ==> #[trigger] f.requires((x, y)),
            forall|k: int|
                #![trigger pixels@[k]]
                0 <= k < i ==> f.ensures(
                    ((k % width as int) as u32, (k / width as int) as u32),
                    pixels@[k],
                ),
        decreases n - i,
    {
        proof {
            lemma_index_coords(i as int, width as int, height as int);
        }
        let x = (i % width as usize) as u32;
        let y = (i / width as usize) as u32;
        let p = f(x, y);
        pixels.push(p);
        i = i + 1;
    }
    assert forall|x: int, y: int| 0 <= x < width && 0 <= y < height implies f.ensures(
        (x as u32, y as u32),
        #[trigger] cell(pixels@, width as int, x, y),
    ) by {
        lemma_cell_index(width as int, height as int, x, y);
        lemma_fundamental_div_mod_converse(y * width + x, width as int, y, x);
        assert(pixels@[y * width + x] == cell(pixels@, width as int, x, y));
    }
    pixels
}

/// `out` keeps the max colour value and the magic token of `image`.
pub open spec fn same_header(out: PPM, image: PPM) -> bool {
    out.maxc == image.maxc && out.magic == image.magic
}

/// `out` is `image` turned a quarter counter-clockwise: width and height change places,
/// and the pixel at `(x, y)` of `out` is the one at `(width - 1 - y, x)` of `image`.
pub open spec fn is_rotate_left(out: PPM, image: PPM) -> bool {
    &&& out.wf()
    &&& out.width == image.height
    &&& out.height == image.width
    &&& same_header(out, image)
    &&& forall|x: int, y: int|
        out.in_bounds(x, y) ==> #[trigger] out.at(x, y) == image.at(image.width - 1 - y, x)
}

/// `out` is `image` turned a quarter clockwise: width and height change places, and the
/// pixel at `(x, y)` of `out` is the one at `(y, height - 1 - x)` of `image`.
pub open spec fn is_rotate_right(out: PPM, image: PPM) -> bool {
    &&& out.wf()
    &&& out.width == image.height
    &&& out.height == image.width
    &&& same_header(out, image)
    &&& forall|x: int, y: int|
        out.in_bounds(x, y) ==> #[trigger] out.at(x, y) == image.at(y, image.height - 1 - x)
}

/// `out` is `image` mirrored left to right.
pub open spec fn is_flip_horizontal(out: PPM, image: PPM) -> bool {
    &&& out.wf()
    &&& out.width == image.width
    &&& out.height == image.height
    &&& same_header(out, image)
    &&& forall|x: int, y: int|
        out.in_bounds(x, y) ==> #[trigger] out.at(x, y) == image.at(image.width - 1 - x, y)
}

/// `out` is `image` mirrored top to bottom.
pub open spec fn is_flip_vertical(out: PPM, image: PPM) -> bool {
    &&& out.wf()
    &&& out.width == image.width
    &&& out.height == image.height
    &&& same_header(out, image)
    &&& forall|x: int, y: int|
        out.in_bounds(x, y) ==> #[trigger] out.at(x, y) == image.at(x, image.height - 1 - y)
}

/// The truncated per-channel mean of four pixels.
pub open spec fn mean_of_four(a: Pixel, b: Pixel, c: Pixel, d: Pixel) -> Pixel {
    Pixel {
        r: ((a.r + b.r + c.r + d.r) / 4) as u16,
        g: ((a.g + b.g + c.g + d.g) / 4) as u16,
        b: ((a.b + b.b + c.b + d.b) / 4) as u16,
    }
}

/// The mean of the 2 by 2 block of `image` whose top-left pixel is `(2 * x, 2 * y)`.
pub open spec fn block_mean(image: PPM, x: int, y: int) -> Pixel {
    mean_of_four(
        image.at(2 * x, 2 * y),
        image.at(2 * x + 1, 2 * y),
        image.at(2 * x + 1, 2 * y + 1),
        image.at(2 * x, 2 * y + 1),
    )
}

/// `out` is `image` at half size: its dimensions are halved (rounding down) and each of
/// its pixels is the mean of a 2 by 2 block of `image`.
pub open spec fn is_half_size(out: PPM, image: PPM) -> bool {
    &&& out.wf()
    &&& out.width == image.width / 2
    &&& out.height == image.height / 2
    &&& same_header(out, image)
    &&& forall|x: int, y: int| out.in_bounds(x, y) ==> #[trigger] out.at(x, y) == block_mean(image, x, y)
}

/// `image` can be doubled in both directions without its dimensions or pixel count
/// overflowing.
pub open spec fn can_double(image: PPM) -> bool {
    &&& 2 * image.width <= u32::MAX
    &&& 2 * image.height <= u32::MAX
    &&& (2 * image.width) * (2 * image.height) <= usize::MAX
}

/// `out` is `image` at double size, each pixel of `image` becoming a 2 by 2 block.
pub open spec fn is_double_size(out: PPM, image: PPM) -> bool {
    &&& out.wf()
    &&& out.width == 2 * image.width
    &&& out.height == 2 * image.height
    &&& same_header(out, image)
    &&& forall|x: int, y: int| out.in_bounds(x, y) ==> #[trigger] out.at(x, y) == image.at(x / 2, y / 2)
}

/// The pixel at `(x, y)` of `image`, or `fallback` where that lies outside the image.
pub open spec fn pixel_or(image: PPM, x: int, y: int, fallback: Pixel) -> Pixel {
    if image.in_bounds(x, y) {
        image.at(x, y)
    } else {
        fallback
    }
}

/// Bilinear interpolation between four channel values `c11` (top left), `c21` (top
/// right), `c12` (bottom left) and `c22` (bottom right), at `fx / 2` of the way across
/// and `fy / 2` of the way down, rounded down.
pub open spec fn blend(c11: int, c21: int, c12: int, c22: int, fx: int, fy: int) -> int {
    ((2 - fx) * (2 - fy) * c11 + fx * (2 - fy) * c21 + (2 - fx) * fy * c12 + fx * fy * c22) / 4
}

/// The pixel at `(x, y)` of `image` doubled by bilinear interpolation.
///
/// It is sampled at `(x / 2, y / 2)` of `image` from the four pixels around that point,
/// `(x1, y1)`, `(x1 + 1, y1)`, `(x1, y1 + 1)` and `(x1 + 1, y1 + 1)` with `x1 = x / 2` and
/// `y1 = y / 2` rounded down; a neighbour outside the image is replaced by the pixel
/// at `(x1, y1)`. Every channel is rounded down.
pub open spec fn bilinear_sample(image: PPM, x: int, y: int) -> Pixel {
    let x1 = x / 2;
    let y1 = y / 2;
    let q11 = image.at(x1, y1);
    let q21 = pixel_or(image, x1 + 1, y1, q11);
    let q12 = pixel_or(image, x1, y1 + 1, q11);
    let q22 = pixel_or(image, x1 + 1, y1 + 1, q11);
    let fx = x % 2;
    let fy = y % 2;
    Pixel {
        r: blend(q11.r as int, q21.r as int, q12.r as int, q22.r as int, fx, fy) as u16,
        g: blend(q11.g as int, q21.g as int, q12.g as int, q22.g as int, fx, fy) as u16,
        b: blend(q11.b as int, q21.b as int, q12.b as int, q22.b as int, fx, fy) as u16,
    }
}

/// `out` is `image` at double size, each pixel interpolated bilinearly.
pub open spec fn is_double_bilinear(out: PPM, image: PPM) -> bool {
    &&& out.wf()
    &&& out.width == 2 * image.width
    &&& out.height == 2 * image.height
    &&& same_header(out, image)
    &&& forall|x: int, y: int|
        out.in_bounds(x, y) ==> #[trigger] out.at(x, y) == bilinear_sample(image, x, y)
}

/// The pixel at `(x, y)` of the image turned a quarter counter-clockwise.
pub fn rotate_left_pixel(image: &PPM, x: u32, y: u32) -> (p: Pixel)
    requires
        image.wf(),
        x < image.height,
        y < image.width,
    ensures
        p == image.at(image.width - 1 - y, x as int),
{
    *image.get_pixel(image.width - y - 1, x).unwrap()
}

/// Turns the image a quarter counter-clockwise.
pub fn rotate_left(image: PPM) -> (rotated: PPM)
    requires
        image.wf(),
    ensures
        is_rotate_left(rotated, image),
{
    proof {
        image.lemma_count_fits();
    }
    let src = &image;
    let turned = |x: u32, y: u32| -> (p: Pixel)
        requires
            src.wf(),
            x < src.height,
            y < src.width,
        ensures
            p == src.at(src.width - 1 - y, x as int),
        { rotate_left_pixel(src, x, y) };
    let pixels = fill(image.height, image.width, turned);
    PPM { width: image.height, height: image.width, maxc: image.maxc, magic: image.magic.clone(), pixels }
}

/// The pixel at `(x, y)` of the image turned a quarter clockwise.
pub fn rotate_right_pixel(image: &PPM, x: u32, y: u32) -> (p: Pixel)
    requires
        image.wf(),
        x < image.height,
        y < image.width,
    ensures
        p == image.at(y as int, image.height - 1 - x),
{
    *image.get_pixel(y, image.height - x - 1).unwrap()
}

/// Turns the image a quarter clockwise.
pub fn rotate_right(image: PPM) -> (rotated: PPM)
    requires
        image.wf(),
    ensures
        is_rotate_right(rotated, image),
{
    proof {
        image.lemma_count_fits();
    }
    let src = &image;
    let turned = |x: u32, y: u32| -> (p: Pixel)
        requires
            src.wf(),
            x < src.height,
            y < src.width,
        ensures
            p == src.at(y as int, src.height - 1 - x),
        { rotate_right_pixel(src, x, y) };
    let pixels = fill(image.height, image.width, turned);
    PPM { width: image.height, height: image.width, maxc: image.maxc, magic: image.magic.clone(), pixels }
}

/// The pixel at `(x, y)` of the image mirrored left to right.
pub fn flip_horizontal_pixel(image: &PPM, x: u32, y: u32) -> (p: Pixel)
    requires
        image.wf(),
        x < image.width,
        y < image.height,
    ensures
        p == image.at(image.width - 1 - x, y as int),
{
    *image.get_pixel(image.width - x - 1, y).unwrap()
}

/// Mirrors the image left to right.
pub fn flip_horizontal(image: PPM) -> (flipped: PPM)
    requires
        image.wf(),
    ensures
        is_flip_horizontal(flipped, image),
{
    proof {
        image.lemma_count_fits();
    }
    let src = &image;
    let mirrored = |x: u32, y: u32| -> (p: Pixel)
        requires
            src.wf(),
            x < src.width,
            y < src.height,
        ensures
            p == src.at(src.width - 1 - x, y as int),
        { flip_horizontal_pixel(src, x, y) };
    let pixels = fill(image.width, image.height, mirrored);
    PPM { width: image.width, height: image.height, maxc: image.maxc, magic: image.magic.clone(), pixels }
}

/// The pixel at `(x, y)` of the image mirrored top to bottom.
pub fn flip_vertical_pixel(image: &PPM, x: u32, y: u32) -> (p: Pixel)
    requires
        image.wf(),
        x < image.width,
        y < image.height,
    ensures
        p == image.at(x as int, image.height - 1 - y),
{
    *image.get_pixel(x, image.height - y - 1).unwrap()
}

/// Mirrors the image top to bottom.
pub fn flip_vertical(image: PPM) -> (flipped: PPM)
    requires
        image.wf(),
    ensures
        is_flip_vertical(flipped, image),
{
    proof {
        image.lemma_count_fits();
    }
    let src = &image;
    let mirrored = |x: u32, y: u32| -> (p: Pixel)
        requires
            src.wf(),
            x < src.width,
            y < src.height,
        ensures
            p == src.at(x as int, src.height - 1 - y),
        { flip_vertical_pixel(src, x, y) };
    let pixels = fill(image.width, image.height, mirrored);
    PPM { width: image.width, height: image.height, maxc: image.maxc, magic: image.magic.clone(), pixels }
}

/// The pixel at `(x, y)` of the image at half size: the mean of the 2 by 2 block at
/// `(2 * x, 2 * y)`.
pub fn half_size_pixel(image: &PPM, x: u32, y: u32) -> (p: Pixel)
    requires
        image.wf(),
        x < image.width / 2,
        y < image.height / 2,
    ensures
        p == block_mean(*image, x as int, y as int),
{
    let p1 = *image.get_pixel(x * 2, y * 2).unwrap();
    let p2 = *image.get_pixel(x * 2 + 1, y * 2 + 1).unwrap();
    let p3 = *image.get_pixel(x * 2 + 1, y * 2).unwrap();
    let p4 = *image.get_pixel(x * 2, y * 2 + 1).unwrap();
    Pixel {
        r: ((p1.r as u32 + p2.r as u32 + p3.r as u32 + p4.r as u32) / 4) as u16,
        g: ((p1.g as u32 + p2.g as u32 + p3.g as u32 + p4.g as u32) / 4) as u16,
        b: ((p1.b as u32 + p2.b as u32 + p3.b as u32 + p4.b as u32) / 4) as u16,
    }
}

/// Halves the image in both directions (rounding down), each new pixel the mean of a
/// 2 by 2 block.
pub fn half_size(image: PPM) -> (half: PPM)
    requires
        image.wf(),
    ensures
        is_half_size(half, image),
{
    proof {
        image.lemma_count_fits();
        let (w, h) = (image.width as int, image.height as int);
        assert((w / 2) * (h / 2) <= w * h) by (nonlinear_arith)
            requires
                0 <= w / 2 <= w,
                0 <= h / 2 <= h,
        ;
    }
    let src = &image;
    let averaged = |x: u32, y: u32| -> (p: Pixel)
        requires
            src.wf(),
            x < src.width / 2,
            y < src.height / 2,
        ensures
            p == block_mean(*src, x as int, y as int),
        { half_size_pixel(src, x, y) };
    let pixels = fill(image.width / 2, image.height / 2, averaged);
    PPM {
        width: image.width / 2,
        height: image.height / 2,
        maxc: image.maxc,
        magic: image.magic.clone(),
        pixels,
    }
}

/// The pixel at `(x, y)` of the image at double size: the pixel at `(x / 2, y / 2)`.
pub fn double_size_pixel(image: &PPM, x: u32, y: u32) -> (p: Pixel)
    requires
        image.wf(),
        x / 2 < image.width,
        y / 2 < image.height,
    ensures
        p == image.at(x as int / 2, y as int / 2),
{
    *image.get_pixel(x / 2, y / 2).unwrap()
}

/// Doubles the image in both directions, each pixel becoming a 2 by 2 block.
pub fn double_size(image: PPM) -> (double: PPM)
    requires
        image.wf(),
        can_double(image),
    ensures
        is_double_size(double, image),
{
    let src = &image;
    let repeated = |x: u32, y: u32| -> (p: Pixel)
        requires
            src.wf(),
            x < 2 * src.width,
            y < 2 * src.height,
        ensures
            p == src.at(x as int / 2, y as int / 2),
        { double_size_pixel(src, x, y) };
    let pixels = fill(image.width * 2, image.height * 2, repeated);
    PPM {
        width: image.width * 2,
        height: image.height * 2,
        maxc: image.maxc,
        magic: image.magic.clone(),
        pixels,
    }
}

/// One channel of a bilinear sample, `blend(c11, c21, c12, c22, fx, fy)`.
fn blend_channel(c11: u16, c21: u16, c12: u16, c22: u16, fx: u32, fy: u32) -> (v: u16)
    requires
        fx < 2,
        fy < 2,
    ensures
        v == blend(c11 as int, c21 as int, c12 as int, c22 as int, fx as int, fy as int),
{
    let (a, b, c, d) = (c11 as u32, c21 as u32, c12 as u32, c22 as u32);
    let ghost (ai, bi, ci, di) = (a as int, b as int, c as int, d as int);
    if fx == 0 && fy == 0 {
        assert(blend(ai, bi, ci, di, 0, 0) == (4 * ai) / 4) by (nonlinear_arith);
        c11
    } else if fy == 0 {
        assert(blend(ai, bi, ci, di, 1, 0) == (2 * ai + 2 * bi) / 4) by (nonlinear_arith);
        ((2 * a + 2 * b) / 4) as u16
    } else if fx == 0 {
        assert(blend(ai, bi, ci, di, 0, 1) == (2 * ai + 2 * ci) / 4) by (nonlinear_arith);
        ((2 * a + 2 * c) / 4) as u16
    } else {
        assert(blend(ai, bi, ci, di, 1, 1) == (ai + bi + ci + di) / 4) by (nonlinear_arith);
        ((a + b + c + d) / 4) as u16
    }
}

/// The pixel at `(x, y)` of the image doubled by bilinear interpolation; `(x, y)` is a
/// coordinate of the doubled image, so the sample is taken at `(x / 2, y / 2)` of `image`.
pub fn bilinear_interpolation(image: &PPM, x: u32, y: u32) -> (p: Pixel)
    requires
        image.wf(),
        x / 2 < image.width,
        y / 2 < image.height,
    ensures
        p == bilinear_sample(*image, x as int, y as int),
{
    let x1 = x / 2;
    let y1 = y / 2;
    let q11 = *image.get_pixel(x1, y1).unwrap();
    let q21 = match image.get_pixel(x1 + 1, y1) {
        Some(p) => *p,
        None => q11,
    };
    let q12 = match image.get_pixel(x1, y1 + 1) {
        Some(p) => *p,
        None => q11,
    };
    let q22 = match image.get_pixel(x1 + 1, y1 + 1) {
        Some(p) => *p,
        None => q11,
    };
    let fx = x % 2;
    let fy = y % 2;
    Pixel {
        r: blend_channel(q11.r, q21.r, q12.r, q22.r, fx, fy),
        g: blend_channel(q11.g, q21.g, q12.g, q22.g, fx, fy),
        b: blend_channel(q11.b, q21.b, q12.b, q22.b, fx, fy),
    }
}

/// Doubles the image in both directions by bilinear interpolation.
pub fn double_bilinear(image: PPM) -> (double: PPM)
    requires
        image.wf(),
        can_double(image),
    ensures
        is_double_bilinear(double, image),
{
    let src = &image;
    let interpolated = |x: u32, y: u32| -> (p: Pixel)
        requires
            src.wf(),
            x < 2 * src.width,
            y < 2 * src.height,
        ensures
            p == bilinear_sample(*src, x as int, y as int),
        { bilinear_interpolation(src, x, y) };
    let pixels = fill(image.width * 2, image.height * 2, interpolated);
    PPM {
        width: image.width * 2,
        height: image.height * 2,
        maxc: image.maxc,
        magic: image.magic.clone(),
        pixels,
    }
}

/// Turning an image a quarter left and then a quarter right gives it back unchanged.
pub proof fn lemma_rotate_left_then_right(image: PPM, left: PPM, back: PPM)
    requires
        image.wf(),
        is_rotate_left(left, image),
        is_rotate_right(back, left),
    ensures
        back.width == image.width,
        back.height == image.height,
        same_header(back, image),
        back.pixels@ == image.pixels@,
{
    assert forall|x: int, y: int| #[trigger] back.in_bounds(x, y) implies back.at(x, y) == image.at(
        x,
        y,
    ) by {
        assert(left.in_bounds(y, left.height - 1 - x));
    }
    lemma_same_pixels(back, image);
}

/// Mirroring an image left to right twice gives it back unchanged.
pub proof fn lemma_flip_horizontal_twice(image: PPM, once: PPM, twice: PPM)
    requires
        image.wf(),
        is_flip_horizontal(once, image),
        is_flip_horizontal(twice, once),
    ensures
        twice.width == image.width,
        twice.height == image.height,
        same_header(twice, image),
        twice.pixels@ == image.pixels@,
{
    assert forall|x: int, y: int| #[trigger] twice.in_bounds(x, y) implies twice.at(x, y)
        == image.at(x, y) by {
        assert(once.in_bounds(once.width - 1 - x, y));
    }
    lemma_same_pixels(twice, image);
}

/// Mirroring an image top to bottom twice gives it back unchanged.
pub proof fn lemma_flip_vertical_twice(image: PPM, once: PPM, twice: PPM)
    requires
        image.wf(),
        is_flip_vertical(once, image),
        is_flip_vertical(twice, once),
    ensures
        twice.width == image.width,
        twice.height == image.height,
        same_header(twice, image),
        twice.pixels@ == image.pixels@,
{
    assert forall|x: int, y: int| #[trigger] twice.in_bounds(x, y) implies twice.at(x, y)
        == image.at(x, y) by {
        assert(once.in_bounds(x, once.height - 1 - y));
    }
    lemma_same_pixels(twice, image);
}

/// Halving an image whose sides are even and then doubling the result gives back its
/// dimensions (the pixels become block means, so they may differ).
pub proof fn lemma_half_then_double_dimensions(image: PPM, half: PPM, double: PPM)
    requires
        image.wf(),
        image.width % 2 == 0,
        image.height % 2 == 0,
        is_half_size(half, image),
        is_double_size(double, half),
    ensures
        double.width == image.width,
        double.height == image.height,
{
}

} // verus!
