//! Verified core of a mesh-to-raster projector.

pub mod err;
pub mod obj;
pub mod projector;
pub mod text;
pub mod tiles;
