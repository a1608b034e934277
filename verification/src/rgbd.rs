//! Depth frames as pyramids of vertex and normal maps.
use crate::binary64::Binary32;
use vstd::prelude::*;

verus! {

/// A vertex or a normal of a map, and whether the map marks it as valid.
#[derive(Debug, Clone, Copy)]
pub struct MapEntry {
    /// The coordinates in the camera frame.
    pub xyz: [Binary32; 3],
    /// Whether the entry holds a measurement.
    pub valid: bool,
}

/// One resolution of a depth frame: a vertex map and a normal map over a pixel grid,
/// row by row.
#[derive(Debug, Clone)]
pub struct RgbdLevel {
    /// The vertex of each pixel.
    pub vertices: Vec<MapEntry>,
    /// The normal of each pixel.
    pub normals: Vec<MapEntry>,
    /// The number of pixels in a row.
    pub width: usize,
    /// The number of rows.
    pub height: usize,
}

/// A depth frame at several resolutions, the finest first.
#[derive(Debug, Clone)]
pub struct RgbdPyramid {
    /// The levels, from the finest to the coarsest.
    pub levels: Vec<RgbdLevel>,
}

/// Why a registration gave no pose.
#[derive(Debug, Clone, Copy, PartialEq, Eq, Structural)]
pub enum RgbdIcpError {
    /// A pyramid has this many levels, which is too few.
    InvalidNumLevels(usize),
    /// Only this many correspondences survived gating.
    TooFewCorrespondences(usize),
    /// The geometry does not constrain all six degrees of freedom.
    SingularNormalEquations,
}

impl RgbdLevel {
    /// Both maps cover the pixel grid, which is not empty, and its sides are small enough
    /// that every pixel coordinate is a double precision number.
    pub open spec fn covers_grid(&self) -> bool {
        &&& 0 < self.width <= 0x0020_0000_0000_0000
        &&& 0 < self.height <= 0x0020_0000_0000_0000
        &&& self.width * self.height <= self.num_pixels()
    }

    /// The number of pixels for which there are both a vertex and a normal.
    pub open spec fn num_pixels(&self) -> nat {
        if self.vertices.len() < self.normals.len() {
            self.vertices.len() as nat
        } else {
            self.normals.len() as nat
        }
    }
}

} // verus!
