//! Support types shared by the rest of the crate.

pub mod math;
