//! Anti-aliased scanline rasterizer producing grayscale coverage bitmaps.
//!
//! Paths of straight segments and quadratic and cubic curves are drawn into a
//! buffer of signed area deltas; a running sum over that buffer gives each
//! pixel's coverage. Coordinates count sub-pixel units, `SUBPIXELS` per pixel,
//! so every deposit is an exact integer.
pub mod arith;
pub mod flatten;
pub mod geometry;
pub mod laws;
pub mod raster;

pub use geometry::{PathBuilder, PathObj, PathOp, PathSegments, Point, SUBPIXELS};
pub use raster::{RasterError, Rster};
