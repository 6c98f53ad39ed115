//! A small software rasterizer that works in whole pixels and fixed-point
//! numbers: lines, two triangle fillers, a projection step, and a reader for
//! triangle meshes in the Wavefront text format.

pub mod canvas;
pub mod depth;
pub mod line;
pub mod model;
pub mod point;
pub mod project;
pub mod render;
pub mod scanline;
pub mod text;
pub mod wide;
