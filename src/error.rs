use vstd::prelude::*;

verus! {

/// The ways in which reading, writing or accessing an image can fail.
#[derive(Clone, Copy, Debug, PartialEq, Eq, Structural)]
pub enum ImageError {
    /// The data ended before the magic token, width, height and max colour were all read.
    TruncatedHeader,
    /// A header field is not what it should be (width, height or max colour not a
    /// non-negative decimal number, or a magic token that is not text).
    InvalidHeaderField,
    /// The max colour value is neither 255 nor 65535.
    UnsupportedBitDepth,
    /// The magic token names a format other than binary full colour (`P6`).
    UnsupportedFormatSubtype,
    /// The data ended before every pixel was read.
    TruncatedPixelData,
    /// A pixel coordinate lies outside the image.
    OutOfBounds,
    /// Reading or writing the underlying file failed.
    IoFailure,
}

} // verus!
