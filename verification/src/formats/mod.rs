//! Reading and writing schematics.

pub mod bitpack;
pub mod litematic;
pub mod litematic_laws;
pub mod nbt;
