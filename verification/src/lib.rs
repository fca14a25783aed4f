//! A software 3D rasterization engine over fixed-point integer arithmetic.
//!
//! Geometry, lighting and colors are modelled in micro-units: one spatial
//! unit is `SCALE` (1,000,000) ticks of an `i64`. Every stage of the
//! pipeline — vector and matrix math, Lambertian lighting with an ambient
//! floor, vertex transformation and projection, depth-buffered triangle
//! scan conversion, Bresenham line drawing and back-to-front face ordering —
//! carries a contract that pins down the exact value it computes.

pub mod fixed;
pub mod math;
pub mod order;
pub mod pipeline;
pub mod raster;
pub mod render;
pub mod text;
pub mod texture;
pub mod types;

pub use fixed::SCALE;
