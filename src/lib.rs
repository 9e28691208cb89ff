//! A software rasterization core: packed colors, a depth-tested framebuffer,
//! fixed-point triangle coverage and line drawing.

pub mod color;
pub mod depth;
pub mod framebuffer;
pub mod raster;
pub mod scene;
