//! A netlist expanded into the components that will stand in the world.

use crate::compile::topology::{Primitive, TemplateNode};
use vstd::prelude::*;

verus! {

/// Where a node comes from.
#[derive(Debug)]
pub enum Provenance {
    PrimaryInput { name: String },
    PrimaryOutput { name: String },
    /// A node of a gate, by that gate's number and the node's role in it.
    Gate { gate: usize, role: TemplateNode },
}

#[derive(Debug)]
pub struct Node {
    pub kind: Primitive,
    pub provenance: Provenance,
}

/// A signal from one node to another, by their numbers.
#[derive(Debug, Clone, Copy, PartialEq, Eq, Structural)]
pub struct Edge {
    pub from: usize,
    pub to: usize,
}

#[derive(Debug)]
pub struct PrimitiveGraph {
    pub nodes: Vec<Node>,
    pub edges: Vec<Edge>,
    /// The nodes of each gate.
    pub gate_nodes: Vec<Vec<usize>>,
}

} // verus!
