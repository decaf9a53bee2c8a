//! An in-memory raster canvas that draws pixels, lines and circles with integer
//! arithmetic and serialises the result as an uncompressed 32-bit bitmap file.
//!
//! `elements` packs colours, `image` holds the pixel grid and its drawing
//! operations, and `format` lays out the bytes of the file. `raster`, `scan`,
//! `line` and `circle` are the mathematical models that the contracts of the
//! other three speak of.

pub mod elements;
pub mod raster;
pub mod scan;
pub mod line;
pub mod circle;
pub mod format;
pub mod image;

pub use crate::elements::Color;
pub use crate::image::{BMPBitmap, BMPImage};
