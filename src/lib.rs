//! Integer core of a chunked escape-time fractal renderer.
//!
//! The floating-point work (iterating `z := z*z + c`, mapping a pixel to the
//! complex plane, the logarithmic shade ramp) is done by the host; this crate
//! owns the pixel geometry, the colour channels, and the two passes that fill
//! the results buffer and the RGBA image buffer of one chunk.
pub mod color;
pub mod escape;
pub mod geometry;
pub mod render;
