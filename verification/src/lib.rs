//! Approximates a raster image by a short list of translucent triangles.
//!
//! The engine places one triangle per round: it draws many random candidates,
//! colours each with the average of the target under its footprint, scores it
//! by the change in squared error that compositing it would cause, and commits
//! the best one. The result is both a raster and an ordered list of coloured
//! triangles that can be replayed at any scale.

pub mod canvas;
pub mod color;
pub mod driver;
pub mod geometry;
pub mod raster;
pub mod scorer;
pub mod search;
pub mod sums;
pub mod svg;
