use reda::compile::circuit::CompiledCircuit;
use reda::compile::netlist::{Gate, Netlist};
use reda::compile::primitive_graph::{Edge, Node, PrimitiveGraph, Provenance};
use reda::compile::topology::{Primitive, TemplateNode};
use reda::compile::world_partition::{partition_world, PartitionError, Realisation};
use reda::redstone::block::{BlockKind, BlockState, Facing};
use reda::redstone::position::Position;
use reda::redstone::world::World;

fn block(kind: BlockKind, name: &str) -> BlockState {
    BlockState::plain(kind, name)
}

fn repeater(facing: Facing) -> BlockState {
    let mut state = block(BlockKind::Repeater, "minecraft:repeater");
    state.facing = Some(facing);
    state
}

fn netlist() -> Netlist {
    Netlist {
        inputs: vec!["a".to_string(), "b".to_string()],
        outputs: vec![],
        gates: vec![Gate::nor("g0", &["a", "b"])],
    }
}

fn graph() -> PrimitiveGraph {
    let lever = |name: &str| Node {
        kind: Primitive::Lever,
        provenance: Provenance::PrimaryInput { name: name.to_string() },
    };
    PrimitiveGraph {
        nodes: vec![
            Node {
                kind: Primitive::Torch,
                provenance: Provenance::Gate { gate: 0, role: TemplateNode::Torch },
            },
            lever("a"),
            lever("b"),
        ],
        edges: vec![Edge { from: 1, to: 0 }, Edge { from: 2, to: 0 }],
        gate_nodes: vec![vec![0]],
    }
}

/// A torch on a block, with a repeater into the block from either side, each fed
/// by dust from a lever.
fn compiled() -> CompiledCircuit {
    let mut world = World::new(11, 3, 9);
    let stone = || block(BlockKind::Solid, "minecraft:stone");
    world.set(5, 1, 5, stone());
    world.set(5, 1, 4, block(BlockKind::WallTorch, "minecraft:redstone_wall_torch"));
    world.set(4, 1, 5, repeater(Facing::West));
    world.set(6, 1, 5, repeater(Facing::East));
    for x in [1, 2, 3, 4, 6, 7, 8, 9] {
        world.set(x, 0, 5, stone());
    }
    for x in [2, 3, 7, 8] {
        world.set(x, 1, 5, block(BlockKind::RedstoneWire, "minecraft:redstone_wire"));
    }
    for x in [1, 9] {
        world.set(x, 1, 5, block(BlockKind::Lever, "minecraft:lever"));
    }
    CompiledCircuit {
        world,
        input_positions: vec![
            ("a".to_string(), Position::new(1, 1, 5)),
            ("b".to_string(), Position::new(9, 1, 5)),
        ],
        output_positions: vec![],
        gate_output_positions: vec![("g0".to_string(), Position::new(5, 1, 4))],
    }
}

fn realisation() -> Realisation {
    Realisation {
        contributors: vec![vec![1, 1]],
        is_bare: vec![vec![false, false]],
        supports: vec![Some(Position::new(5, 1, 5))],
        input_directions: vec![Facing::West, Facing::East, Facing::South],
    }
}

#[test]
fn a_graph_missing_one_declared_input_is_reported_not_absorbed() {
    let netlist = netlist();
    let compiled = compiled();
    let mut graph = graph();

    let torch = graph.gate_nodes[0][0];
    let lever_b = graph
        .nodes
        .iter()
        .position(|n| matches!(&n.provenance, Provenance::PrimaryInput { name } if name == "b"))
        .expect("lever \"b\" exists");
    let before = graph.edges.len();
    graph.edges.retain(|e| !(e.from == lever_b && e.to == torch));
    assert_eq!(graph.edges.len(), before - 1, "sabotage must remove exactly one edge");

    let err = partition_world(&netlist, &graph, &compiled, &realisation())
        .expect_err("the dropped input must be reported");
    assert_eq!(
        err,
        PartitionError::GateInputArityDisagreement {
            gate: "g0".to_string(),
            netlist_arity: 2,
            graph_arity: 1,
            world_arity: 2
        }
    );
    assert_eq!(
        err.message(),
        "GateInputArityDisagreement { gate: \"g0\", netlist_arity: 2, graph_arity: 1, \
         world_arity: 2 }"
    );
}

#[test]
fn every_block_is_accounted_for_once() {
    let partition =
        partition_world(&netlist(), &graph(), &compiled(), &realisation()).expect("partitions");
    assert_eq!(partition.graph_explained, 3, "a torch and two levers");
    assert_eq!(partition.routing_fill_dust, 4);
    assert_eq!(partition.routing_fill_repeater, 2);
    assert_eq!(partition.routing_fill_support, 9);
    assert_eq!(partition.routing_fill(), 15);
    assert_eq!(partition.unexplained.len(), 0);
    assert_eq!(partition.total_non_air(), 18);
}

#[test]
fn a_block_that_nothing_needs_is_unexplained() {
    let mut compiled = compiled();
    compiled.world.set(0, 2, 0, block(BlockKind::Solid, "minecraft:stone"));
    compiled.world.set(10, 2, 8, block(BlockKind::Lamp, "minecraft:redstone_lamp"));
    let partition =
        partition_world(&netlist(), &graph(), &compiled, &realisation()).expect("partitions");
    assert_eq!(partition.unexplained.len(), 2);
    assert_eq!(partition.unexplained[0].position, (0, 2, 0));
    assert_eq!(partition.unexplained[0].kind, BlockKind::Solid);
    assert_eq!(partition.unexplained[1].position, (10, 2, 8));
    assert_eq!(partition.total_non_air(), 20);
}

#[test]
fn a_world_missing_a_socket_is_reported() {
    let mut compiled = compiled();
    compiled.world.set(6, 1, 5, BlockState::air());
    let refused = partition_world(&netlist(), &graph(), &compiled, &realisation());
    assert!(matches!(
        refused,
        Err(PartitionError::GateInputArityDisagreement { graph_arity: 2, world_arity: 1, .. })
    ));
}

#[test]
fn two_nodes_in_one_place_are_reported() {
    let mut compiled = compiled();
    compiled.input_positions[1].1 = Position::new(1, 1, 5);
    let refused = partition_world(&netlist(), &graph(), &compiled, &realisation())
        .expect_err("they collide");
    assert_eq!(refused, PartitionError::DuplicateExplainedPosition { position: (1, 1, 5) });
    assert_eq!(refused.message(), "DuplicateExplainedPosition { position: (1, 1, 5) }");
}

#[test]
fn a_node_that_was_never_built_is_reported() {
    let mut compiled = compiled();
    compiled.world.set(9, 1, 5, BlockState::air());
    let refused = partition_world(&netlist(), &graph(), &compiled, &realisation())
        .expect_err("nothing stands there");
    assert_eq!(refused, PartitionError::ExplainedPositionIsAir { position: (9, 1, 5) });
    assert_eq!(refused.message(), "ExplainedPositionIsAir { position: (9, 1, 5) }");
}

#[test]
fn a_node_without_a_place_is_reported() {
    let mut compiled = compiled();
    compiled.input_positions.pop();
    let refused = partition_world(&netlist(), &graph(), &compiled, &realisation())
        .expect_err("its place is not known");
    assert_eq!(
        refused.message(),
        "CannotResolveNodePosition { detail: \"primary input `b` has no recorded lever position\" }"
    );
}

#[test]
fn a_text_with_quotes_is_shown_with_them_escaped() {
    let shown = PartitionError::CannotResolveNodePosition { detail: "a \"b\"\n".to_string() };
    assert_eq!(shown.message(), format!("{shown:?}"));
}
