//! A software rasterizer for a fixed-size luminance grid.
//!
//! A mesh of triangles, each reduced to three raster vertices, a
//! representative depth and a shading angle, is drawn into a frame buffer of
//! luminance bytes. Visibility between overlapping triangles is resolved by a
//! per-pixel depth buffer under a nearest-wins policy, and the finished frame
//! can be rendered as text, one doubled glyph per pixel.

pub mod display;
pub mod draw;
pub mod geom;
pub mod line;
pub mod raster;
pub mod shade;
