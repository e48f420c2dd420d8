//! Geometry kernel for raster image analysis: 2-D grid points, their
//! algebra, neighbor topology, rectangle enumeration, and digital line
//! rasterization.

pub mod int_point;
pub mod integers;
pub mod point;
