//! Alpha compositing of glyph coverage onto a borrowed pixel buffer.
//!
//! The buffer is row-major with four bytes per pixel in the order blue,
//! green, red, alpha, and rows are `width * 4` bytes apart. A [`canvas::Canvas`]
//! wraps such a buffer for the length of one drawing operation; it can be
//! filled with one color, and coverage samples reported by a text rasterizer
//! can be blended onto it.

pub mod blend;
pub mod canvas;
pub mod color;
pub mod coverage;
