//! A raster drawing engine for integer pixel art: a pixel buffer with
//! Bresenham line strokes of adjustable width, midpoint ellipses, filled
//! triangles, scanline flood fill, nearest-neighbor resize, sub-rectangle
//! blits, a fixed-pitch bitmap font, and de Casteljau curve evaluation.
//!
//! Colors are packed `0x00RRGGBB` words.  Two values are reserved as
//! sentinels: [`color::WHITE`] marks background (unset) pixels and
//! [`color::BLACK`] marks foreground (drawn) pixels.  Every drawing
//! primitive treats out-of-bounds coordinates as a silent no-op, so
//! rasterization loops may overshoot the buffer freely.

pub mod color;
pub mod image;
pub mod line;
pub mod triangle;
pub mod fill;
pub mod ops;
pub mod ellipse;
pub mod font;
pub mod curve;
pub mod parse;
pub mod geometry;

use vstd::prelude::*;

verus! {

/// An integer screen coordinate pair `(x, y)`.
pub type Point = (i64, i64);

/// A line in implicit form `(a, b, c)`, the set of points with
/// `a*x + b*y + c == 0`.
pub type Line = (i64, i64, i64);

} // verus!
