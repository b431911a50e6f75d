use crate::error::ImageError;
use crate::ppm::{Pixel, PPM};
use vstd::prelude::*;
use vstd::utf8::{
    decode_utf8, encode_utf8, encode_utf8_decode_utf8, encode_utf8_valid_utf8, is_ascii_chars,
    is_ascii_chars_encode_utf8, valid_utf8,
};

verus! {

// ---------------------------------------------------------------------------
// The header: four tokens separated by whitespace, with comment lines skipped.
// ---------------------------------------------------------------------------

/// An ASCII whitespace byte: space, tab, line feed, vertical tab, form feed or
/// carriage return.
pub open spec fn is_space(b: u8) -> bool {
    b == 32 || b == 9 || b == 10 || b == 11 || b == 12 || b == 13
}

/// Position `p` is the first of a line.
pub open spec fn at_line_start(data: Seq<u8>, p: int) -> bool {
    p == 0 || data[p - 1] == 10
}

/// The first position at or after `p` where a header token begins, or the length of
/// `data` if none does. Whitespace is skipped, and so is every line that begins with
/// `#`; `in_comment` says that `p` lies inside such a line.
pub open spec fn skip_to_token(data: Seq<u8>, p: int, in_comment: bool) -> int
    decreases data.len() - p,
{
    if p >= data.len() {
        data.len() as int
    } else if in_comment {
        skip_to_token(data, p + 1, data[p] != 10)
    } else if is_space(data[p]) {
        skip_to_token(data, p + 1, false)
    } else if data[p] == 35 && at_line_start(data, p) {
        skip_to_token(data, p + 1, true)
    } else {
        p
    }
}

/// The end of the token that begins at `p`: the first whitespace byte at or after `p`,
/// or the end of `data`.
pub open spec fn token_end(data: Seq<u8>, p: int) -> int
    decreases data.len() - p,
{
    if p >= data.len() || is_space(data[p]) {
        p
    } else {
        token_end(data, p + 1)
    }
}

/// Where the `k`-th header token (counting from zero) begins and ends.
pub open spec fn token(data: Seq<u8>, k: nat) -> (int, int)
    decreases k,
{
    let from = if k == 0 {
        0
    } else {
        token(data, (k - 1) as nat).1
    };
    let start = skip_to_token(data, from, false);
    (start, token_end(data, start))
}

/// The `k`-th header token is there: it begins before the end of `data`.
pub open spec fn has_token(data: Seq<u8>, k: nat) -> bool {
    token(data, k).0 < data.len()
}

/// The bytes of the `k`-th header token.
pub open spec fn token_bytes(data: Seq<u8>, k: nat) -> Seq<u8> {
    data.subrange(token(data, k).0, token(data, k).1)
}

/// An ASCII decimal digit.
pub open spec fn is_digit(b: u8) -> bool {
    48 <= b <= 57
}

/// Every byte of `s` is a decimal digit.
pub open spec fn all_digits(s: Seq<u8>) -> bool {
    forall|i: int| 0 <= i < s.len() ==> is_digit(#[trigger] s[i])
}

/// The number that the decimal digits `s` spell (0 for no digits).
pub open spec fn decimal_value(s: Seq<u8>) -> nat
    decreases s.len(),
{
    if s.len() == 0 {
        0
    } else {
        decimal_value(s.drop_last()) * 10 + (s.last() - 48) as nat
    }
}

/// The number that a numeric header field spells: one or more decimal digits, after
/// an optional `+`, whose value fits in a `u32`. `None` for anything else.
pub open spec fn field_value(s: Seq<u8>) -> Option<u32> {
    let digits = if s.len() > 0 && s[0] == 43 {
        s.drop_first()
    } else {
        s
    };
    if digits.len() > 0 && all_digits(digits) && decimal_value(digits) <= u32::MAX {
        Some(decimal_value(digits) as u32)
    } else {
        None
    }
}

/// The value of the `k`-th header token read as a number (meaningful where it is one).
pub open spec fn header_field(data: Seq<u8>, k: nat) -> u32 {
    field_value(token_bytes(data, k))->Some_0
}

/// The magic token of the header, as text.
pub open spec fn header_magic(data: Seq<u8>) -> Seq<char> {
    decode_utf8(token_bytes(data, 0))
}

/// Where the pixel data begins: just past the single whitespace byte that ends the
/// max colour token.
pub open spec fn pixel_offset(data: Seq<u8>) -> int {
    token(data, 3).1 + 1
}

/// How reading the header of `data` fails, if it does. The tokens are read in order
/// (magic, width, height, max colour), and the first that is missing or malformed
/// decides the error; the max colour must be followed by a whitespace byte.
pub open spec fn header_error(data: Seq<u8>) -> Option<ImageError> {
    if !has_token(data, 0) {
        Some(ImageError::TruncatedHeader)
    } else if !valid_utf8(token_bytes(data, 0)) {
        Some(ImageError::InvalidHeaderField)
    } else if !has_token(data, 1) {
        Some(ImageError::TruncatedHeader)
    } else if field_value(token_bytes(data, 1)) is None {
        Some(ImageError::InvalidHeaderField)
    } else if !has_token(data, 2) {
        Some(ImageError::TruncatedHeader)
    } else if field_value(token_bytes(data, 2)) is None {
        Some(ImageError::InvalidHeaderField)
    } else if !has_token(data, 3) {
        Some(ImageError::TruncatedHeader)
    } else if field_value(token_bytes(data, 3)) is None {
        Some(ImageError::InvalidHeaderField)
    } else if token(data, 3).1 >= data.len() {
        Some(ImageError::TruncatedHeader)
    } else {
        None
    }
}

/// Relies on `String::from_utf8`: it succeeds exactly on valid UTF-8, and the string
/// then holds the characters that the bytes encode.
#[verifier::external_body]
fn text_from_utf8(bytes: Vec<u8>) -> (r: Option<String>)
    ensures
        r is Some <==> valid_utf8(bytes@),
        r matches Some(s) ==> s@ == decode_utf8(bytes@),
{
    String::from_utf8(bytes).ok()
}

fn is_space_byte(b: u8) -> (r: bool)
    ensures
        r == is_space(b),
{
    b == 32 || b == 9 || b == 10 || b == 11 || b == 12 || b == 13
}

/// The position where the next header token begins at or after `from`.
fn next_token_start(data: &Vec<u8>, from: usize) -> (start: usize)
    requires
        from <= data@.len(),
    ensures
        start == skip_to_token(data@, from as int, false),
        start <= data@.len(),
{
    let mut p = from;
    let mut in_comment = false;
    while p < data.len()
        invariant
            p <= data@.len(),
            skip_to_token(data@, p as int, in_comment) == skip_to_token(data@, from as int, false),
        decreases data@.len() - p,
    {
        let b = data[p];
        if in_comment {
            in_comment = b != 10;
        } else if is_space_byte(b) {
        } else if b == 35 && (p == 0 || data[p - 1] == 10) {
            in_comment = true;
        } else {
            return p;
        }
        p = p + 1;
    }
    p
}

/// The end of the token that begins at `start`.
fn find_token_end(data: &Vec<u8>, start: usize) -> (end: usize)
    requires
        start <= data@.len(),
    ensures
        end == token_end(data@, start as int),
        start <= end <= data@.len(),
{
    let mut p = start;
    while p < data.len() && !is_space_byte(data[p])
        invariant
            start <= p <= data@.len(),
            token_end(data@, p as int) == token_end(data@, start as int),
        decreases data@.len() - p,
    {
        p = p + 1;
    }
    p
}

/// The bytes `data[start..end]`.
fn copy_range(data: &Vec<u8>, start: usize, end: usize) -> (out: Vec<u8>)
    requires
        start <= end <= data@.len(),
    ensures
        out@ == data@.subrange(start as int, end as int),
{
    let mut out: Vec<u8> = Vec::with_capacity(end - start);
    let mut i = start;
    while i < end
        invariant
            start <= i <= end <= data@.len(),
            out@ == data@.subrange(start as int, i as int),
        decreases end - i,
    {
        out.push(data[i]);
        assert(out@ =~= data@.subrange(start as int, i + 1));
        i = i + 1;
    }
    out
}

/// The value of the digits `s` is at least that of any prefix of them.
proof fn lemma_decimal_prefix(s: Seq<u8>, n: int)
    requires
        0 <= n <= s.len(),
    ensures
        decimal_value(s.take(n)) <= decimal_value(s),
    decreases s.len(),
{
    if n == s.len() {
        assert(s.take(n) =~= s);
    } else {
        lemma_decimal_prefix(s.drop_last(), n);
        assert(s.drop_last().take(n) =~= s.take(n));
    }
}

/// Reads `data[start..end]` as a numeric header field.
fn parse_field(data: &Vec<u8>, start: usize, end: usize) -> (v: Option<u32>)
    requires
        start <= end <= data@.len(),
    ensures
        v == field_value(data@.subrange(start as int, end as int)),
{
    let ghost s = data@.subrange(start as int, end as int);
    let mut first = start;
    if first < end && data[first] == 43 {
        first = first + 1;
    }
    let ghost digits = data@.subrange(first as int, end as int);
    assert(digits =~= if s.len() > 0 && s[0] == 43 {
        s.drop_first()
    } else {
        s
    });
    if first >= end {
        return None;
    }
    let mut value: u64 = 0;
    let mut i = first;
    while i < end
        invariant
            start <= first < end,
            first <= i <= end <= data@.len(),
            s == data@.subrange(start as int, end as int),
            digits == data@.subrange(first as int, end as int),
            digits == (if s.len() > 0 && s[0] == 43 {
                s.drop_first()
            } else {
                s
            }),
            forall|k: int| first <= k < i ==> is_digit(#[trigger] data@[k]),
            value == decimal_value(data@.subrange(first as int, i as int)),
            value <= u32::MAX,
        decreases end - i,
    {
        let b = data[i];
        if b < 48 || b > 57 {
            assert(!is_digit(digits[i - first]));
            return None;
        }
        assert(data@.subrange(first as int, i + 1).drop_last() =~= data@.subrange(
            first as int,
            i as int,
        ));
        value = value * 10 + (b - 48) as u64;
        if value > u32::MAX as u64 {
            proof {
                if all_digits(digits) {
                    lemma_decimal_prefix(digits, i + 1 - first);
                    assert(digits.take(i + 1 - first) =~= data@.subrange(first as int, i + 1));
                }
            }
            return None;
        }
        i = i + 1;
    }
    assert(data@.subrange(first as int, i as int) =~= digits);
    assert(all_digits(digits)) by {
        assert forall|k: int| 0 <= k < digits.len() implies is_digit(#[trigger] digits[k]) by {
            assert(digits[k] == data@[first + k]);
        }
    }
    Some(value as u32)
}

/// Reads the header of `data` into the magic token, width, height and max colour of
/// `image`, and returns where the pixel data begins. On failure `image` is unchanged.
pub fn parse_header(data: &Vec<u8>, image: &mut PPM) -> (r: Result<usize, ImageError>)
    ensures
        match r {
            Ok(offset) => {
                &&& header_error(data@) is None
                &&& offset == pixel_offset(data@)
                &&& final(image).magic@ == header_magic(data@)
                &&& final(image).width == header_field(data@, 1)
                &&& final(image).height == header_field(data@, 2)
                &&& final(image).maxc == header_field(data@, 3)
                &&& final(image).pixels == old(image).pixels
            },
            Err(e) => header_error(data@) == Some(e) && *final(image) == *old(image),
        },
{
    let len = data.len();
    let s0 = next_token_start(data, 0);
    if s0 >= len {
        return Err(ImageError::TruncatedHeader);
    }
    let e0 = find_token_end(data, s0);
    assert(token(data@, 0) == (s0 as int, e0 as int));
    let magic = match text_from_utf8(copy_range(data, s0, e0)) {
        Some(m) => m,
        None => {
            return Err(ImageError::InvalidHeaderField);
        },
    };
    let s1 = next_token_start(data, e0);
    if s1 >= len {
        return Err(ImageError::TruncatedHeader);
    }
    let e1 = find_token_end(data, s1);
    assert(token(data@, 1) == (s1 as int, e1 as int));
    let width = match parse_field(data, s1, e1) {
        Some(v) => v,
        None => {
            return Err(ImageError::InvalidHeaderField);
        },
    };
    let s2 = next_token_start(data, e1);
    if s2 >= len {
        return Err(ImageError::TruncatedHeader);
    }
    let e2 = find_token_end(data, s2);
    assert(token(data@, 2) == (s2 as int, e2 as int));
    let height = match parse_field(data, s2, e2) {
        Some(v) => v,
        None => {
            return Err(ImageError::InvalidHeaderField);
        },
    };
    let s3 = next_token_start(data, e2);
    if s3 >= len {
        return Err(ImageError::TruncatedHeader);
    }
    let e3 = find_token_end(data, s3);
    assert(token(data@, 3) == (s3 as int, e3 as int));
    let maxc = match parse_field(data, s3, e3) {
        Some(v) => v,
        None => {
            return Err(ImageError::InvalidHeaderField);
        },
    };
    if e3 >= len {
        return Err(ImageError::TruncatedHeader);
    }
    image.magic = magic;
    image.width = width;
    image.height = height;
    image.maxc = maxc;
    Ok(e3 + 1)
}

// ---------------------------------------------------------------------------
// The pixel data: three channels per pixel, one byte each for a max colour of 255,
// two bytes each (big-endian) for 65535.
// ---------------------------------------------------------------------------

/// The max colour values that the format can store: 255 and 65535.
pub open spec fn supported_depth(maxc: u32) -> bool {
    maxc == 255 || maxc == 65535
}

/// Bytes per pixel in the file: 3 for a max colour of 255, 6 for 65535.
pub open spec fn bytes_per_pixel(maxc: u32) -> int {
    if maxc == 255 {
        3
    } else {
        6
    }
}

/// The magic token names binary full colour, `P6`.
pub open spec fn is_raw_color(magic: Seq<char>) -> bool {
    magic == seq!['P', '6']
}

/// The pixel stored at `data[at..]`.
pub open spec fn pixel_from_bytes(data: Seq<u8>, at: int, maxc: u32) -> Pixel {
    if maxc == 255 {
        Pixel { r: data[at] as u16, g: data[at + 1] as u16, b: data[at + 2] as u16 }
    } else {
        Pixel {
            r: (data[at] * 256 + data[at + 1]) as u16,
            g: (data[at + 2] * 256 + data[at + 3]) as u16,
            b: (data[at + 4] * 256 + data[at + 5]) as u16,
        }
    }
}

/// The `count` pixels stored one after another from `data[offset..]`.
pub open spec fn pixels_from_bytes(data: Seq<u8>, offset: int, count: int, maxc: u32) -> Seq<
    Pixel,
> {
    Seq::new(count as nat, |i: int| pixel_from_bytes(data, offset + i * bytes_per_pixel(maxc), maxc))
}

/// How reading the pixels of an image with these header fields from `data[offset..]`
/// fails, if it does: the format must be `P6`, the max colour supported, and the data
/// long enough for every pixel.
pub open spec fn pixel_error(
    magic: Seq<char>,
    width: u32,
    height: u32,
    maxc: u32,
    data_len: int,
    offset: int,
) -> Option<ImageError> {
    if !is_raw_color(magic) {
        Some(ImageError::UnsupportedFormatSubtype)
    } else if !supported_depth(maxc) {
        Some(ImageError::UnsupportedBitDepth)
    } else if offset + width * height * bytes_per_pixel(maxc) > data_len {
        Some(ImageError::TruncatedPixelData)
    } else {
        None
    }
}

/// How decoding `data` fails, if it does: first the header, then the pixels.
pub open spec fn decode_error(data: Seq<u8>) -> Option<ImageError> {
    match header_error(data) {
        Some(e) => Some(e),
        None => pixel_error(
            header_magic(data),
            header_field(data, 1),
            header_field(data, 2),
            header_field(data, 3),
            data.len() as int,
            pixel_offset(data),
        ),
    }
}

/// The pixels that `data` holds after its header.
pub open spec fn decoded_pixels(data: Seq<u8>) -> Seq<Pixel> {
    pixels_from_bytes(
        data,
        pixel_offset(data),
        header_field(data, 1) * header_field(data, 2),
        header_field(data, 3),
    )
}

/// Reads the pixel stored at `data[at..]`.
fn read_pixel(data: &Vec<u8>, at: usize, maxc: u32) -> (p: Pixel)
    requires
        supported_depth(maxc),
        at + bytes_per_pixel(maxc) <= data@.len(),
    ensures
        p == pixel_from_bytes(data@, at as int, maxc),
{
    assert(data.len() == data@.len());
    if maxc == 255 {
        Pixel { r: data[at] as u16, g: data[at + 1] as u16, b: data[at + 2] as u16 }
    } else {
        Pixel {
            r: data[at] as u16 * 256 + data[at + 1] as u16,
            g: data[at + 2] as u16 * 256 + data[at + 3] as u16,
            b: data[at + 4] as u16 * 256 + data[at + 5] as u16,
        }
    }
}

/// Reads the pixels of `image` from `data[offset..]`, as its width, height, max colour
/// and magic token prescribe. On failure `image` is unchanged.
pub fn read_image_data(data: &Vec<u8>, image: &mut PPM, offset: usize) -> (r: Result<
    (),
    ImageError,
>)
    ensures
        final(image).width == old(image).width,
        final(image).height == old(image).height,
        final(image).maxc == old(image).maxc,
        final(image).magic == old(image).magic,
        match r {
            Ok(()) => {
                &&& pixel_error(
                    old(image).magic@,
                    old(image).width,
                    old(image).height,
                    old(image).maxc,
                    data@.len() as int,
                    offset as int,
                ) is None
                &&& final(image).pixels@ == pixels_from_bytes(
                    data@,
                    offset as int,
                    old(image).width * old(image).height,
                    old(image).maxc,
                )
                &&& final(image).wf()
            },
            Err(e) => {
                &&& pixel_error(
                    old(image).magic@,
                    old(image).width,
                    old(image).height,
                    old(image).maxc,
                    data@.len() as int,
                    offset as int,
                ) == Some(e)
                &&& final(image).pixels == old(image).pixels
            },
        },
{
    let magic = image.magic.as_str();
    if !(magic.unicode_len() == 2 && magic.get_char(0) == 'P' && magic.get_char(1) == '6') {
        return Err(ImageError::UnsupportedFormatSubtype);
    }
    assert(magic@ =~= seq!['P', '6']);
    let maxc = image.maxc;
    let bpp: usize = if maxc == 255 {
        3
    } else if maxc == 65535 {
        6
    } else {
        return Err(ImageError::UnsupportedBitDepth);
    };
    let len = data.len();
    let count = image.pixel_count();
    assert(image.width * image.height * bpp == count * bpp);
    if offset > len {
        assert(count * bpp >= 0) by (nonlinear_arith)
            requires
                count >= 0,
                bpp >= 0,
        ;
        return Err(ImageError::TruncatedPixelData);
    }
    let avail = len - offset;
    if count > (avail / bpp) as u64 {
        assert(count * bpp > avail) by (nonlinear_arith)
            requires
                count > avail / bpp,
                bpp > 0,
                avail >= 0,
        ;
        return Err(ImageError::TruncatedPixelData);
    }
    assert(count * bpp <= avail) by (nonlinear_arith)
        requires
            count <= avail / bpp,
            bpp > 0,
            avail >= 0,
    ;
    let n = count as usize;
    let mut pixels: Vec<Pixel> = Vec::with_capacity(n);
    let mut pos = offset;
    let mut i: usize = 0;
    while i < n
        invariant
            supported_depth(maxc),
            bpp == bytes_per_pixel(maxc),
            len == data@.len(),
            offset + n * bpp <= len,
            i <= n,
            pos == offset + i * bpp,
            pixels@ =~= pixels_from_bytes(data@, offset as int, i as int, maxc),
        decreases n - i,
    {
        assert(pos + bpp <= len) by (nonlinear_arith)
            requires
                pos == offset + i * bpp,
                i < n,
                offset + n * bpp <= len,
                bpp > 0,
        ;
        let p = read_pixel(data, pos, maxc);
        pixels.push(p);
        assert(pos + bpp == offset + (i + 1) * bpp) by (nonlinear_arith)
            requires
                pos == offset + i * bpp,
        ;
        pos = pos + bpp;
        i = i + 1;
    }
    image.pixels = pixels;
    Ok(())
}

/// Decodes a whole file: the header, then the pixels. No partial image is returned.
pub fn decode(data: &Vec<u8>) -> (r: Result<PPM, ImageError>)
    ensures
        match r {
            Ok(image) => {
                &&& decode_error(data@) is None
                &&& image.wf()
                &&& image.magic@ == header_magic(data@)
                &&& image.width == header_field(data@, 1)
                &&& image.height == header_field(data@, 2)
                &&& image.maxc == header_field(data@, 3)
                &&& image.pixels@ == decoded_pixels(data@)
            },
            Err(e) => decode_error(data@) == Some(e),
        },
{
    let mut image = PPM::new();
    let offset = match parse_header(data, &mut image) {
        Ok(offset) => offset,
        Err(e) => {
            return Err(e);
        },
    };
    match read_image_data(data, &mut image, offset) {
        Ok(()) => Ok(image),
        Err(e) => Err(e),
    }
}

// ---------------------------------------------------------------------------
// Writing: the header in text, then the pixels in the same layout as they are read.
// ---------------------------------------------------------------------------

/// The comment line that every written header carries.
pub const HEADER_COMMENT: &'static str = "# Modified with David Bootle's PPM Image Tool";

/// The decimal digits of `n`, without leading zeros.
pub open spec fn decimal_digits(n: nat) -> Seq<u8>
    decreases n,
{
    if n < 10 {
        seq![(48 + n) as u8]
    } else {
        decimal_digits(n / 10).push((48 + n % 10) as u8)
    }
}

/// The header that `write_image` writes: the magic token, the comment line, the width
/// and height on one line and the max colour on the next, each line ended by a line
/// feed.
pub open spec fn header_text(magic: Seq<u8>, width: u32, height: u32, maxc: u32) -> Seq<u8> {
    magic + seq![10u8] + encode_utf8(HEADER_COMMENT@) + seq![10u8] + decimal_digits(width as nat)
        + seq![32u8] + decimal_digits(height as nat) + seq![10u8] + decimal_digits(maxc as nat)
        + seq![10u8]
}

/// The bytes of one pixel: each channel as one byte for a max colour of 255, as two
/// bytes, high byte first, otherwise.
pub open spec fn pixel_to_bytes(p: Pixel, maxc: u32) -> Seq<u8> {
    if maxc == 255 {
        seq![p.r as u8, p.g as u8, p.b as u8]
    } else {
        seq![
            (p.r / 256) as u8,
            (p.r % 256) as u8,
            (p.g / 256) as u8,
            (p.g % 256) as u8,
            (p.b / 256) as u8,
            (p.b % 256) as u8,
        ]
    }
}

/// The bytes of the pixels, one pixel after another.
pub open spec fn pixels_to_bytes(pixels: Seq<Pixel>, maxc: u32) -> Seq<u8>
    decreases pixels.len(),
{
    if pixels.len() == 0 {
        seq![]
    } else {
        pixels_to_bytes(pixels.drop_last(), maxc) + pixel_to_bytes(pixels.last(), maxc)
    }
}

/// The file that `write_image` makes of `image`.
pub open spec fn encoding(image: PPM) -> Seq<u8> {
    header_text(encode_utf8(image.magic@), image.width, image.height, image.maxc)
        + pixels_to_bytes(image.pixels@, image.maxc)
}

/// Appends `bytes` to `out`.
fn push_bytes(out: &mut Vec<u8>, bytes: &[u8])
    ensures
        final(out)@ == old(out)@ + bytes@,
{
    let ghost start = out@;
    let mut i: usize = 0;
    while i < bytes.len()
        invariant
            i <= bytes@.len(),
            out@ == start + bytes@.take(i as int),
            start == old(out)@,
        decreases bytes@.len() - i,
    {
        out.push(bytes[i]);
        assert(bytes@.take(i + 1) =~= bytes@.take(i as int).push(bytes@[i as int]));
        i = i + 1;
    }
    assert(bytes@.take(i as int) =~= bytes@);
}

/// Appends the decimal digits of `n` to `out`.
fn push_decimal(out: &mut Vec<u8>, n: u32)
    ensures
        final(out)@ == old(out)@ + decimal_digits(n as nat),
    decreases n,
{
    if n >= 10 {
        push_decimal(out, n / 10);
    }
    out.push((48 + n % 10) as u8);
    assert(final(out)@ =~= old(out)@ + decimal_digits(n as nat));
}

/// Appends the bytes of pixel `p` to `out`.
fn push_pixel(out: &mut Vec<u8>, p: Pixel, maxc: u32)
    ensures
        final(out)@ == old(out)@ + pixel_to_bytes(p, maxc),
{
    if maxc == 255 {
        out.push(p.r as u8);
        out.push(p.g as u8);
        out.push(p.b as u8);
    } else {
        out.push((p.r / 256) as u8);
        out.push((p.r % 256) as u8);
        out.push((p.g / 256) as u8);
        out.push((p.g % 256) as u8);
        out.push((p.b / 256) as u8);
        out.push((p.b % 256) as u8);
    }
    assert(final(out)@ =~= old(out)@ + pixel_to_bytes(p, maxc));
}

/// Encodes `image` as a file: the header, then the pixels. Fails with
/// `UnsupportedBitDepth` where the max colour is neither 255 nor 65535.
pub fn write_image(image: &PPM) -> (r: Result<Vec<u8>, ImageError>)
    ensures
        match r {
            Ok(bytes) => supported_depth(image.maxc) && bytes@ == encoding(*image),
            Err(e) => !supported_depth(image.maxc) && e == ImageError::UnsupportedBitDepth,
        },
{
    let maxc = image.maxc;
    if maxc != 255 && maxc != 65535 {
        return Err(ImageError::UnsupportedBitDepth);
    }
    let mut out: Vec<u8> = Vec::new();
    push_bytes(&mut out, image.magic.as_str().as_bytes());
    out.push(10);
    push_bytes(&mut out, HEADER_COMMENT.as_bytes());
    out.push(10);
    push_decimal(&mut out, image.width);
    out.push(32);
    push_decimal(&mut out, image.height);
    out.push(10);
    push_decimal(&mut out, maxc);
    out.push(10);
    let ghost header = out@;
    assert(header =~= header_text(encode_utf8(image.magic@), image.width, image.height, maxc));
    let mut i: usize = 0;
    while i < image.pixels.len()
        invariant
            maxc == image.maxc,
            i <= image.pixels@.len(),
            out@ == header + pixels_to_bytes(image.pixels@.take(i as int), maxc),
        decreases image.pixels@.len() - i,
    {
        push_pixel(&mut out, image.pixels[i], maxc);
        assert(image.pixels@.take(i + 1).drop_last() =~= image.pixels@.take(i as int));
        i = i + 1;
    }
    assert(image.pixels@.take(i as int) =~= image.pixels@);
    Ok(out)
}

// ---------------------------------------------------------------------------
// Writing and then reading gives the image back.
// ---------------------------------------------------------------------------

/// The comment line is ASCII text that begins with `#` and holds no line feed.
proof fn lemma_comment_line()
    ensures
        encode_utf8(HEADER_COMMENT@).len() > 0,
        encode_utf8(HEADER_COMMENT@)[0] == 35,
        forall|i: int|
            0 <= i < encode_utf8(HEADER_COMMENT@).len() ==> #[trigger] encode_utf8(
                HEADER_COMMENT@,
            )[i] != 10,
{
    reveal_strlit("# Modified with David Bootle's PPM Image Tool");
    let chars = HEADER_COMMENT@;
    assert(is_ascii_chars(chars));
    is_ascii_chars_encode_utf8(chars);
}

/// The magic token `P6` is written as the two bytes `P` and `6`.
proof fn lemma_raw_color_bytes()
    ensures
        encode_utf8(seq!['P', '6']) == seq![80u8, 54u8],
{
    let chars = seq!['P', '6'];
    assert(is_ascii_chars(chars));
    is_ascii_chars_encode_utf8(chars);
    assert(encode_utf8(chars) =~= seq![80u8, 54u8]);
}

/// The decimal digits of `n` are one or more digits that spell `n`.
proof fn lemma_decimal_digits(n: nat)
    ensures
        decimal_digits(n).len() > 0,
        all_digits(decimal_digits(n)),
        decimal_value(decimal_digits(n)) == n,
    decreases n,
{
    let digits = decimal_digits(n);
    if n >= 10 {
        lemma_decimal_digits(n / 10);
        assert(digits.drop_last() =~= decimal_digits(n / 10));
        assert(digits.last() == (48 + n % 10) as u8);
    } else {
        assert(digits.drop_last() =~= Seq::<u8>::empty());
        assert(decimal_value(digits.drop_last()) == 0);
    }
    assert(decimal_value(digits) == decimal_value(digits.drop_last()) * 10 + (digits.last() - 48) as nat);
}

/// A number written in decimal reads back as itself.
proof fn lemma_field_round_trip(n: u32)
    ensures
        field_value(decimal_digits(n as nat)) == Some(n),
{
    lemma_decimal_digits(n as nat);
    assert(is_digit(decimal_digits(n as nat)[0]));
}

/// A token that begins at `p` runs up to the first whitespace byte.
proof fn lemma_token_end(data: Seq<u8>, p: int, q: int)
    requires
        0 <= p <= q <= data.len(),
        forall|k: int| p <= k < q ==> !is_space(#[trigger] data[k]),
        q == data.len() || is_space(data[q]),
    ensures
        token_end(data, p) == q,
    decreases q - p,
{
    if p < q {
        lemma_token_end(data, p + 1, q);
    }
}

/// Inside a comment line the search for a token skips to the start of the next line.
proof fn lemma_skip_comment(data: Seq<u8>, p: int, q: int)
    requires
        0 <= p <= q < data.len(),
        forall|k: int| p <= k < q ==> #[trigger] data[k] != 10,
        data[q] == 10,
    ensures
        skip_to_token(data, p, true) == skip_to_token(data, q + 1, false),
    decreases q - p,
{
    if p < q {
        lemma_skip_comment(data, p + 1, q);
    }
}

/// The written pixels take `bytes_per_pixel` bytes each, pixel `i` at `i` times that.
proof fn lemma_pixels_to_bytes(pixels: Seq<Pixel>, maxc: u32)
    requires
        supported_depth(maxc),
    ensures
        pixels_to_bytes(pixels, maxc).len() == pixels.len() * bytes_per_pixel(maxc),
        forall|i: int, j: int|
            0 <= i < pixels.len() && 0 <= j < bytes_per_pixel(maxc) ==> pixels_to_bytes(
                pixels,
                maxc,
            )[i * bytes_per_pixel(maxc) + j] == #[trigger] pixel_to_bytes(pixels[i], maxc)[j],
    decreases pixels.len(),
{
    if pixels.len() > 0 {
        let init = pixels.drop_last();
        lemma_pixels_to_bytes(init, maxc);
        let bpp = bytes_per_pixel(maxc);
        assert forall|i: int, j: int|
            0 <= i < pixels.len() && 0 <= j < bpp implies pixels_to_bytes(pixels, maxc)[i * bpp
            + j] == #[trigger] pixel_to_bytes(pixels[i], maxc)[j] by {
            if i < pixels.len() - 1 {
                assert(init[i] == pixels[i]);
                assert(i * bpp + j < init.len() * bpp);
            } else {
                assert(i * bpp == init.len() * bpp);
            }
        }
    }
}

/// A pixel whose channels fit the max colour reads back as itself.
proof fn lemma_pixel_round_trip(data: Seq<u8>, at: int, p: Pixel, maxc: u32)
    requires
        supported_depth(maxc),
        p.within(maxc as int),
        0 <= at,
        at + bytes_per_pixel(maxc) <= data.len(),
        forall|j: int|
            0 <= j < bytes_per_pixel(maxc) ==> data[at + j] == #[trigger] pixel_to_bytes(
                p,
                maxc,
            )[j],
    ensures
        pixel_from_bytes(data, at, maxc) == p,
{
    let bytes = pixel_to_bytes(p, maxc);
    if maxc == 255 {
        assert(data[at] == bytes[0] && data[at + 1] == bytes[1] && data[at + 2] == bytes[2]);
    } else {
        assert(data[at] == bytes[0] && data[at + 1] == bytes[1]);
        assert(data[at + 2] == bytes[2] && data[at + 3] == bytes[3]);
        assert(data[at + 4] == bytes[4] && data[at + 5] == bytes[5]);
    }
}

/// Writing a well-formed `P6` image whose channels fit its max colour, and decoding
/// the bytes, gives the image back: the same magic token, dimensions, max colour and
/// pixels.
pub proof fn lemma_round_trip(image: PPM)
    requires
        image.wf(),
        is_raw_color(image.magic@),
        supported_depth(image.maxc),
        image.samples_within_max(),
    ensures
        decode_error(encoding(image)) is None,
        header_magic(encoding(image)) == image.magic@,
        header_field(encoding(image), 1) == image.width,
        header_field(encoding(image), 2) == image.height,
        header_field(encoding(image), 3) == image.maxc,
        decoded_pixels(encoding(image)) == image.pixels@,
{
    let data = encoding(image);
    let maxc = image.maxc;
    let bpp = bytes_per_pixel(maxc);
    let m = encode_utf8(image.magic@);
    let c = encode_utf8(HEADER_COMMENT@);
    let wd = decimal_digits(image.width as nat);
    let hd = decimal_digits(image.height as nat);
    let xd = decimal_digits(maxc as nat);
    let pb = pixels_to_bytes(image.pixels@, maxc);
    lemma_raw_color_bytes();
    lemma_comment_line();
    lemma_decimal_digits(image.width as nat);
    lemma_decimal_digits(image.height as nat);
    lemma_decimal_digits(maxc as nat);
    lemma_field_round_trip(image.width);
    lemma_field_round_trip(image.height);
    lemma_field_round_trip(maxc);
    lemma_pixels_to_bytes(image.pixels@, maxc);

    // Where each part of the header lies.
    let cl = c.len() as int;
    let a = 4 + cl;
    let b = a + wd.len() + 1;
    let d = b + hd.len() + 1;
    let off = d + xd.len() + 1;
    let header = header_text(m, image.width, image.height, maxc);
    assert(data == header + pb);
    assert(header.len() == off);
    assert(m == seq![80u8, 54u8]);
    assert(data[0] == 80 && data[1] == 54 && data[2] == 10);
    assert forall|k: int| 3 <= k < 3 + cl implies data[k] == c[k - 3] by {
        assert(data[k] == header[k]);
    }
    assert(data[3 + cl] == 10);
    assert forall|k: int| a <= k < a + wd.len() implies data[k] == wd[k - a] by {
        assert(data[k] == header[k]);
    }
    assert(data[a + wd.len()] == 32);
    assert forall|k: int| b <= k < b + hd.len() implies data[k] == hd[k - b] by {
        assert(data[k] == header[k]);
    }
    assert(data[b + hd.len()] == 10);
    assert forall|k: int| d <= k < d + xd.len() implies data[k] == xd[k - d] by {
        assert(data[k] == header[k]);
    }
    assert(data[d + xd.len()] == 10);

    // The magic token.
    assert(skip_to_token(data, 0, false) == 0);
    lemma_token_end(data, 0, 2);
    assert(token(data, 0) == (0int, 2int));
    assert(token_bytes(data, 0) =~= m);
    encode_utf8_valid_utf8(image.magic@);
    encode_utf8_decode_utf8(image.magic@);

    // The width, after the comment line.
    assert(c[0] == 35);
    assert(skip_to_token(data, 3, false) == skip_to_token(data, 4, true));
    assert forall|k: int| 4 <= k < 3 + cl implies #[trigger] data[k] != 10 by {
        assert(data[k] == c[k - 3]);
    }
    lemma_skip_comment(data, 4, 3 + cl);
    assert(is_digit(wd[0]));
    assert(skip_to_token(data, a, false) == a);
    assert(token(data, 1).0 == a);
    assert forall|k: int| a <= k < a + wd.len() implies !is_space(#[trigger] data[k]) by {
        assert(is_digit(wd[k - a]));
    }
    lemma_token_end(data, a, a + wd.len());
    assert(token_bytes(data, 1) =~= wd);

    // The height.
    assert(is_digit(hd[0]));
    assert(skip_to_token(data, b, false) == b);
    assert(token(data, 2).0 == b);
    assert forall|k: int| b <= k < b + hd.len() implies !is_space(#[trigger] data[k]) by {
        assert(is_digit(hd[k - b]));
    }
    lemma_token_end(data, b, b + hd.len());
    assert(token_bytes(data, 2) =~= hd);

    // The max colour, ended by one line feed.
    assert(is_digit(xd[0]));
    assert(skip_to_token(data, d, false) == d);
    assert(token(data, 3).0 == d);
    assert forall|k: int| d <= k < d + xd.len() implies !is_space(#[trigger] data[k]) by {
        assert(is_digit(xd[k - d]));
    }
    lemma_token_end(data, d, d + xd.len());
    assert(token_bytes(data, 3) =~= xd);
    assert(header_error(data) is None);
    assert(pixel_offset(data) == off);

    // The pixels.
    let n = image.pixels@.len() as int;
    assert(image.width * image.height == n);
    assert(data.len() == off + n * bpp);
    let decoded = decoded_pixels(data);
    assert forall|i: int| 0 <= i < n implies decoded[i] == image.pixels@[i] by {
        let at = off + i * bpp;
        assert(i * bpp + bpp <= n * bpp) by (nonlinear_arith)
            requires
                0 <= i < n,
                bpp > 0,
        ;
        assert(0 <= i * bpp) by (nonlinear_arith)
            requires
                0 <= i,
                bpp > 0,
        ;
        assert forall|j: int| 0 <= j < bpp implies data[at + j] == #[trigger] pixel_to_bytes(
            image.pixels@[i],
            maxc,
        )[j] by {
            assert(data[at + j] == pb[i * bpp + j]);
        }
        assert(image.pixels@[i].within(maxc as int));
        lemma_pixel_round_trip(data, at, image.pixels@[i], maxc);
    }
    assert(decoded =~= image.pixels@);
}

} // verus!
