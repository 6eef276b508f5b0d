//! A small software rasterizer: integer line tracing, barycentric triangle
//! scan conversion, a byte-backed RGBA bitmap and depth-tested triangle
//! drawing, each with a machine-checked contract.

pub mod math;
pub mod bresenham;
pub mod barycentric;
pub mod triangle;
pub mod bitmap;
pub mod shader;
pub mod draw;
