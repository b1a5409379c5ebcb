//! A scan-converting anti-aliased rasterizer with fixed-point coverage
//! accumulation and pixel-format compositing.

pub mod cell;
pub mod clip;
pub mod math;
pub mod pixfmt;
pub mod raster;
pub mod render;
pub mod scan;
