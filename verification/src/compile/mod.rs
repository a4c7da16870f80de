//! Everything between a netlist and a placed layout.

pub mod cells;
pub mod circuit;
pub mod double;
pub mod expansion;
pub mod gate_laws;
pub mod netlist;
pub mod netlist_laws;
pub mod partition_laws;
pub mod primitive_graph;
pub mod relax;
pub mod resettle_differential;
pub mod resettle_laws;
pub mod route_laws;
pub mod routing_laws;
pub mod routing_stats;
pub mod sat_laws;
pub mod sat_logic;
pub mod sat_machine;
pub mod sat_order;
pub mod sat_run;
pub mod sat_solver;
pub mod satcnf;
pub mod strength_differential;
pub mod strength_laws;
pub mod topology;
pub mod world_partition;
