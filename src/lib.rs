//! Multi-frame RGBA "pixel books": the in-memory model, a binary codec with a
//! frame directory, and a drawing engine with rasterisation primitives.

use vstd::prelude::*;

pub mod book;
pub mod codec;
pub mod drawing;
pub mod errors;
pub mod events;
pub mod files;
pub mod operations;
pub mod pixel;
pub mod raster;
pub mod region;
pub mod validation;
pub mod viewer;
