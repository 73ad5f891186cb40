//! Raster geometry: integer grid points and raster-ready triangles.

use vstd::prelude::*;

verus! {

/// A point of the integer raster grid.
#[derive(Clone, Copy, PartialEq, Eq, Structural, Debug)]
pub struct Pixel {
    /// Column coordinate.
    pub x: i32,
    /// Row coordinate.
    pub y: i32,
}

/// A triangle prepared for rasterization: its three vertices projected to the
/// raster grid and rounded, a single representative depth (smaller is nearer
/// to the viewer), and the angle between its face normal and the light
/// direction, as a fraction of a straight angle scaled by
/// [`crate::shade::ANGLE_PI`].
#[derive(Clone, Copy, PartialEq, Eq, Structural, Debug)]
pub struct Triangle {
    /// First vertex.
    pub v0: Pixel,
    /// Second vertex.
    pub v1: Pixel,
    /// Third vertex.
    pub v2: Pixel,
    /// Representative depth of the whole triangle.
    pub depth: i64,
    /// Angle between the face normal and the light direction, in units of
    /// [`crate::shade::ANGLE_PI`] per straight angle.
    pub angle: u32,
}

/// A triangle is valid when its shading angle lies within a straight angle.
pub open spec fn valid_triangle(t: Triangle) -> bool {
    t.angle <= crate::shade::ANGLE_PI
}

impl Triangle {
    /// Creates a new triangle from its raster vertices, depth and shading angle.
    pub fn new(v0: Pixel, v1: Pixel, v2: Pixel, depth: i64, angle: u32) -> (t: Triangle)
        requires
            angle <= crate::shade::ANGLE_PI,
        ensures
            t == (Triangle { v0, v1, v2, depth, angle }),
            valid_triangle(t),
    {
        Triangle { v0, v1, v2, depth, angle }
    }

    /// Returns each edge's start and end vertex.
    pub fn get_edges(&self) -> (r: [(Pixel, Pixel); 3])
        ensures
            r@ =~= seq![(self.v0, self.v1), (self.v0, self.v2), (self.v1, self.v2)],
    {
        [(self.v0, self.v1), (self.v0, self.v2), (self.v1, self.v2)]
    }
}

} // verus!
