//! A registry of 2-D transforms arranged in a parent/child hierarchy.
//!
//! Every entity has a position relative to its parent and a position in the
//! world frame; moving an entity carries its whole subtree along.

pub mod app_core;
pub mod application;
pub mod entities;
