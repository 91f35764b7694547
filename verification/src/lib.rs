//! Content-aware image resizing by seam carving.

pub mod bitmap;
pub mod carve;
pub mod config;
pub mod energy;
pub mod grid;
pub mod laws;
pub mod picture;
