//! Error-diffusion dithering for palette-limited displays.
//!
//! The crate streams a row-major image through a constant-memory pipeline:
//! a ring buffer of width + 1 accumulators carries quantization error across
//! a scanline, a palette quantizer maps each color to a palette entry plus
//! the error that substitution introduces, and the dither engine diffuses
//! that error into not-yet-emitted pixels with a fixed kernel.

pub mod accumulator;
pub mod color;
pub mod color_cube;
pub mod dither;
pub mod quantize;
pub mod ring_buffer;
pub mod vector;
pub mod windowing_convolution;
pub mod wrapping_vec;
