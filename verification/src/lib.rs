//! A small software rasterizer.
//!
//! - `geometry`: vectors of two and three components.
//! - `tga`: the pixel buffer and its file format, raw and run-length
//!   encoded.
//! - `model`: a triangle mesh with an optional texture.
//! - `raster`: lines, and triangles filled by scanlines through a depth
//!   buffer.
pub mod geometry;
pub mod model;
pub mod raster;
pub mod tga;
