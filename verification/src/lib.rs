//! Core data structures and bookkeeping of the rogue voxel engine, with their
//! behaviour stated as contracts and proved.

pub mod common;
pub mod engine;
