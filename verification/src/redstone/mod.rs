//! Blocks, and the worlds made of them.

pub mod block;
pub mod position;
pub mod world;
