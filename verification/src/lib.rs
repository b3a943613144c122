//! Rendering of convex solids into a grid of terminal half-block pixels:
//! the scan-line rasterizer, the pixel grid, the painter's ordering of
//! projected faces and the encoding of a frame as terminal escape sequences.

pub mod convex;
pub mod draw;
pub mod frame;
pub mod shading;
pub mod sorting;
pub mod utils;
