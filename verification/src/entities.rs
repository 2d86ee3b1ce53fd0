//! Entities and the per-entity records kept about them.

pub mod actor;
pub mod coherence;
pub mod entity;
pub mod observable;
pub mod transform;
