//! Core of a ray tracer's image pipeline: an RGB color value type and a
//! writer that serializes a rectangular pixel buffer to the plain-text
//! PPM (P3) raster format.
//!
//! The serialization is specified exactly, byte for byte, and proved:
//! the emitted file has the documented three-line header followed by one
//! line per pixel, and decoding an emitted file recovers the buffer.

pub mod color;
pub mod decimal;
pub mod ppm_writer;
pub mod writer;
