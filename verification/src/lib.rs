//! Redstone electronic design automation: gate libraries, netlist frontends,
//! schematic formats, and the reports that judge a finished layout.

pub mod compile;
pub mod formats;
pub mod frontend;
pub mod properties;
pub mod redstone;
pub mod text;
