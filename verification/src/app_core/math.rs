//! Plane geometry on an integer grid.

pub mod vector2;
