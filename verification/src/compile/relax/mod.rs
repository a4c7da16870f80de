//! Placing a circuit by springs: what the springs are tied to, when a solution
//! counts as settled, and what is read off it.
//!
//! The springs themselves are solved in floating point, elsewhere. Here stand
//! the bodies they connect, on the lattice, and every decision about them that
//! is made on whole numbers.

pub mod bodies;
pub mod building_laws;
pub mod assembly;
pub mod assembly_laws;
pub mod error;
pub mod placing_laws;
pub mod separation;
pub mod settling;
pub mod snap;
