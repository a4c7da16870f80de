use reda::compile::circuit::CompiledCircuit;
use reda::compile::netlist::{CompileError, Gate, Netlist};
use reda::compile::routing_stats::{
    analyze, distinct_totals, distinct_totals_by_part, Geometry, Net, PartTotals, RoutePart,
    RouteParts, Source, Track,
};
use reda::redstone::block::{BlockKind, BlockState, Facing};
use reda::redstone::position::Position;
use reda::redstone::world::World;

fn dust() -> BlockState {
    BlockState::plain(BlockKind::RedstoneWire, "minecraft:redstone_wire")
}

fn repeater() -> BlockState {
    BlockState::plain(BlockKind::Repeater, "minecraft:repeater")
}

fn inverter() -> Netlist {
    Netlist {
        inputs: vec!["a".to_string()],
        outputs: vec!["out".to_string()],
        gates: vec![Gate::nor("out", &["a"])],
    }
}

fn geometry(net: Net) -> Geometry {
    Geometry {
        gate_y: 1,
        rest_interval: 4,
        output_direction: Facing::North,
        centre_x: vec![8],
        row_of: vec![0],
        row_z: vec![4],
        tracks: vec![vec![Track { z: 14, y: 3, ramp_length: 2 }]],
        approach: vec![0],
        input_offsets: vec![vec![], vec![(0, 0, 1)]],
        nets: vec![net],
    }
}

fn over_a_track() -> Net {
    Net {
        source: Source::Lever(0),
        entry: 2,
        channels: vec![0],
        tracks: vec![0],
        hops: vec![],
        sinks: vec![vec![(0, 0)]],
        bypass: None,
    }
}

fn circuit() -> CompiledCircuit {
    let mut world = World::new(12, 6, 26);
    for z in 16..=21 {
        world.set(2, 1, z, dust());
    }
    world.set(2, 1, 18, repeater());
    world.set(2, 2, 15, dust());
    world.set(2, 3, 14, dust());
    for x in 3..=8 {
        world.set(x, 3, 14, dust());
    }
    world.set(8, 2, 13, dust());
    world.set(8, 1, 12, dust());
    for z in 5..=11 {
        world.set(8, 1, z, dust());
    }
    world.set(8, 1, 5, repeater());
    CompiledCircuit {
        world,
        input_positions: vec![("a".to_string(), Position::new(2, 1, 22))],
        output_positions: vec![],
        gate_output_positions: vec![("out".to_string(), Position::new(8, 1, 3))],
    }
}

fn totals(length: i64, repeaters: usize) -> PartTotals {
    PartTotals { length, repeaters }
}

#[test]
fn an_edge_over_a_track_counts_every_part() {
    let report = analyze(&inverter(), &circuit(), &geometry(over_a_track())).expect("analyses");
    assert_eq!(report.channel_count, 1);
    assert_eq!(report.track_count, vec![1]);
    assert_eq!(report.edges.len(), 1);
    let edge = &report.edges[0];
    assert_eq!((edge.source.as_str(), edge.sink.as_str(), edge.hops), ("a", "out.in[0]", 1));
    assert_eq!(edge.part(RoutePart::Column), totals(5, 1));
    assert_eq!(edge.part(RoutePart::Ramp), totals(4, 0));
    assert_eq!(edge.part(RoutePart::Track), totals(6, 0));
    assert_eq!(edge.part(RoutePart::GateEntry), totals(7, 1));
    assert_eq!(edge.part(RoutePart::Bypass), totals(0, 0));
    assert_eq!(edge.parts.get(RoutePart::Bypass), None);
    assert_eq!(edge.total(), totals(22, 2));
}

#[test]
fn a_circuit_of_one_edge_counts_what_its_edge_counts() {
    let (list, compiled, laid_out) = (inverter(), circuit(), geometry(over_a_track()));
    let parts = distinct_totals_by_part(&list, &compiled, &laid_out).expect("counts");
    assert_eq!(parts.get(RoutePart::Ramp), Some(totals(4, 0)));
    assert_eq!(parts.get(RoutePart::Track), Some(totals(6, 0)));
    assert_eq!(distinct_totals(&list, &compiled, &laid_out).expect("counts"), totals(22, 2));
}

#[test]
fn wire_that_two_edges_share_counts_for_each_of_them_and_once_in_all() {
    let mut list = inverter();
    list.gates.push(Gate::nor("too", &["a"]));
    let mut net = over_a_track();
    net.sinks[0].push((1, 0));
    let mut laid_out = geometry(net);
    laid_out.centre_x.push(6);
    laid_out.row_of.push(0);
    let mut compiled = circuit();
    compiled.world.set(6, 2, 13, dust());
    for z in 5..=12 {
        compiled.world.set(6, 1, z, dust());
    }
    let report = analyze(&list, &compiled, &laid_out).expect("analyses");
    assert_eq!(report.edges.len(), 2);
    assert_eq!(report.edges[0].total(), totals(22, 2));
    assert_eq!(report.edges[1].sink, "too.in[0]");
    assert_eq!(report.edges[1].part(RoutePart::Track), totals(4, 0));
    assert_eq!(report.edges[1].total(), totals(20, 1));
    let parts = distinct_totals_by_part(&list, &compiled, &laid_out).expect("counts");
    assert_eq!(parts.get(RoutePart::Column), Some(totals(5, 1)));
    assert_eq!(parts.get(RoutePart::Ramp), Some(totals(6, 0)));
    assert_eq!(parts.get(RoutePart::Track), Some(totals(6, 0)));
    assert_eq!(parts.get(RoutePart::GateEntry), Some(totals(14, 1)));
    assert_eq!(distinct_totals(&list, &compiled, &laid_out).expect("counts"), totals(31, 2));
}

#[test]
fn a_ramp_rests_before_it_goes_on() {
    let mut laid_out = geometry(over_a_track());
    laid_out.rest_interval = 1;
    laid_out.tracks = vec![vec![Track { z: 14, y: 3, ramp_length: 4 }]];
    let mut world = World::new(12, 6, 26);
    for (x, y, z) in [(2, 2, 17), (2, 2, 16), (2, 2, 15), (2, 3, 14)] {
        world.set(x, y, z, dust());
    }
    let mut compiled = circuit();
    compiled.world = world;
    let report = analyze(&inverter(), &compiled, &laid_out).expect("analyses");
    assert_eq!(report.edges[0].part(RoutePart::Ramp), totals(4, 0), "two levels and one rest");
}

#[test]
fn a_direct_route_is_one_part() {
    let mut net = over_a_track();
    net.bypass = Some(Position::new(2, 1, 21));
    let mut world = World::new(12, 6, 26);
    for x in 3..=8 {
        world.set(x, 1, 21, dust());
    }
    for z in 5..=20 {
        world.set(8, 1, z, dust());
    }
    world.set(8, 1, 12, repeater());
    let mut compiled = circuit();
    compiled.world = world;
    let (list, laid_out) = (inverter(), geometry(net));
    let report = analyze(&list, &compiled, &laid_out).expect("analyses");
    let edge = &report.edges[0];
    assert_eq!(edge.part(RoutePart::Bypass), totals(22, 1));
    assert_eq!(edge.total(), totals(22, 1));
    assert_eq!(edge.hops, 1);
    assert_eq!(edge.parts.get(RoutePart::Ramp), None);
    assert_eq!(distinct_totals(&list, &compiled, &laid_out).expect("counts"), totals(22, 1));
}

#[test]
fn a_netlist_that_cannot_be_laid_out_is_refused() {
    let mut list = inverter();
    list.gates.push(Gate::nor("x", &["nothing"]));
    let refused = analyze(&list, &circuit(), &geometry(over_a_track()));
    assert!(matches!(refused, Err(CompileError::UndrivenSignal(name)) if name == "nothing"));
    let mut list = inverter();
    list.gates.push(Gate::nor("x", &["y"]));
    list.gates.push(Gate::nor("y", &["x"]));
    let refused = distinct_totals(&list, &circuit(), &geometry(over_a_track()));
    assert!(matches!(refused, Err(CompileError::CyclicNetlist)));
}

#[test]
fn totals_add_up() {
    assert_eq!(totals(3, 1).plus(totals(4, 0)), totals(7, 1));
    assert_eq!(PartTotals::default(), PartTotals::none());
    assert_eq!(RouteParts::empty().total(), totals(0, 0));
}

#[test]
fn a_net_enters_its_first_channel_at_its_entry_and_the_next_where_it_hops() {
    let mut net = over_a_track();
    net.hops = vec![5];
    assert_eq!(net.entry_column(0), 2);
    assert_eq!(net.entry_column(1), 5);
}

fn repeaters_in(world: &World) -> usize {
    let (sx, sy, sz) = world.size();
    let mut count = 0;
    for x in 0..sx {
        for y in 0..sy {
            for z in 0..sz {
                if world.get(x, y, z).kind == BlockKind::Repeater {
                    count += 1;
                }
            }
        }
    }
    count
}

#[test]
fn the_totals_count_every_repeater_of_the_world_once() {
    let (list, mut compiled, laid_out) = (inverter(), circuit(), geometry(over_a_track()));
    let sum = distinct_totals(&list, &compiled, &laid_out).expect("counts");
    assert_eq!(sum.repeaters, repeaters_in(&compiled.world));
    let parts = distinct_totals_by_part(&list, &compiled, &laid_out).expect("counts");
    assert_eq!(parts.total(), sum, "the parts add up to the whole");
    compiled.world.set(0, 0, 0, repeater());
    let sum = distinct_totals(&list, &compiled, &laid_out).expect("counts");
    assert_eq!(sum.repeaters + 1, repeaters_in(&compiled.world), "one that no route runs through");
}

#[test]
fn a_circuit_far_from_the_origin_is_followed() {
    let far = 0x7000_0000;
    let mut net = over_a_track();
    net.entry += far;
    let mut laid_out = geometry(net);
    laid_out.centre_x[0] += far;
    laid_out.row_z[0] -= far;
    laid_out.tracks[0][0].z -= far;
    let mut compiled = circuit();
    compiled.input_positions[0].1 = Position::new(2 + far, 1, 22 - far);
    let report = analyze(&inverter(), &compiled, &laid_out).expect("analyses");
    assert_eq!(report.edges[0].total(), totals(0, 0), "nothing lies there");
    assert_eq!(report.edges[0].parts.get(RoutePart::Ramp), Some(totals(0, 0)));
    assert_eq!(distinct_totals(&inverter(), &compiled, &laid_out).expect("counts"), totals(0, 0));
}
