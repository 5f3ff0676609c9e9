//! Numeric and image-serialization kernel for a ray tracer: an order-tagged
//! square matrix, a pixel grid, channel quantization and the plain-text
//! PPM (P3) encoding of a grid of quantized colors, with the reader that
//! takes such a text back to its grid.
pub mod canvas;
pub mod color;
pub mod error;
pub mod matrix;
pub mod parse;
pub mod ppm;
pub mod text_laws;
