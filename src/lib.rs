//! Reading, transforming and writing binary PPM (P6) images.
//!
//! The in-memory image is [`ppm::PPM`], a row-major raster of [`ppm::Pixel`]s.
//! [`imageio`] decodes and encodes the file format byte for byte, and
//! [`imageactions`] holds the geometric transforms. The colour transforms are methods
//! of [`ppm::PPM`]; [`imagefx`] offers the negative as a free function and states
//! what the colour transforms do when combined.
pub mod error;
pub mod ppm;
pub mod imageactions;
pub mod imagefx;
pub mod imageio;
