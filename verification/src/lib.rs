//! Filled triangles and discs on an RGB pixel canvas, in exact integer
//! arithmetic, with the canvas exported as RGBA bytes or as a PNG stream.

pub mod color;
pub mod encode;
pub mod float;
pub mod geometry;
pub mod image;
pub mod point;
pub mod raster;
