//! Sprite atlas packing, vorud word encoding and small shared helpers.

pub mod atlas;
pub mod bridge;
pub mod geom;
pub mod img;
pub mod pack;
pub mod text;
pub mod util;
pub mod vorud;
