//! The containers an application keeps its entities in.

pub mod scene;
pub mod world;
