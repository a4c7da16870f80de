use reda::compile::netlist::{Gate, Netlist};
use reda::compile::resettle_differential::{
    describe, diff_line, reversed, sweep_compiled, CellDiff, Resettle, SettledVector,
};
use reda::compile::routing_stats::{Net, Source};
use reda::compile::strength_differential::{
    control_world, every_source, group_vector, input_vector, isolation_world, lever_positions,
    measure, net_name_for, observed, observed_strong, replica_refusal, report_group, sink_supports, sweep_size, walk_by_group,
    with_levers, BlockPower, CellClass, CellPower, Direction, GroupReport, GroupRun, GroupWalk,
    OriginIsolation, Reading, Settled, SignalViolation,
};
use reda::redstone::block::{BlockKind, BlockState, Facing};
use reda::redstone::position::Position;
use reda::redstone::world::World;

const NOTHING: CellPower =
    CellPower { emits: false, emitted: 0, power: BlockPower::Unpowered, strength: 0 };

fn at(x: i32, y: i32, z: i32) -> Position {
    Position::new(x, y, z)
}

fn block(kind: BlockKind, name: &str) -> BlockState {
    BlockState::plain(kind, name)
}

/// A lever, dust, and the block that a torch hangs on.
fn wire() -> World {
    let mut world = World::new(4, 2, 1);
    world.set(0, 1, 0, block(BlockKind::Lever, "minecraft:lever"));
    world.set(1, 1, 0, block(BlockKind::RedstoneWire, "minecraft:redstone_wire"));
    world.set(2, 1, 0, block(BlockKind::Solid, "minecraft:stone"));
    world.set(3, 1, 0, block(BlockKind::WallTorch, "minecraft:redstone_wall_torch"));
    world
}

/// The wire, settled with its lever thrown or not.
fn settled(world: World, on: bool) -> Settled {
    let mut powers = vec![NOTHING; 8];
    if on {
        powers[world.index_of(0, 1, 0).expect("inside")] =
            CellPower { emits: true, emitted: 15, power: BlockPower::Unpowered, strength: 0 };
        powers[world.index_of(1, 1, 0).expect("inside")] =
            CellPower { emits: true, emitted: 15, power: BlockPower::Weak, strength: 3 };
        powers[world.index_of(2, 1, 0).expect("inside")] =
            CellPower { emits: false, emitted: 0, power: BlockPower::Strong, strength: 14 };
    }
    Settled { world, powers }
}

fn netlist() -> Netlist {
    Netlist {
        inputs: vec!["a".to_string()],
        outputs: vec![],
        gates: vec![Gate::nor("g", &["a"])],
    }
}

fn levers() -> Vec<(String, Position)> {
    vec![("a".to_string(), at(0, 1, 0))]
}

fn nets() -> Vec<Net> {
    vec![Net {
        source: Source::Lever(0),
        entry: 0,
        channels: vec![0],
        tracks: vec![0],
        hops: vec![],
        sinks: vec![vec![(0, 0)]],
        bypass: None,
    }]
}

fn walked(strength: Vec<(Position, u8)>) -> Vec<GroupWalk> {
    let mut walks = walk_by_group(
        &netlist(),
        &nets(),
        &vec![0],
        &vec![(at(1, 1, 0), 0)],
        &vec![(at(1, 1, 0), 0), (at(2, 1, 0), 0)],
        &vec![("g".to_string(), at(3, 1, 0))],
        &levers(),
    );
    assert_eq!(walks.len(), 1);
    walks[0].strength = strength;
    walks
}

#[test]
fn observed_reads_what_a_settled_world_holds() {
    let live = settled(wire(), true);
    assert_eq!(observed(&live, at(0, 1, 0)), 15);
    assert_eq!(observed(&live, at(2, 1, 0)), 14);
    assert_eq!(observed(&live, at(3, 1, 0)), 0);
    assert_eq!(observed(&live, at(9, 9, 9)), 0, "nothing is powered outside");
    assert!(observed_strong(&live, at(2, 1, 0)));
    assert!(!observed_strong(&live, at(1, 1, 0)));
    let mut faint = settled(wire(), false);
    faint.powers[0] = CellPower { emits: true, emitted: 0, power: BlockPower::Unpowered, strength: 0 };
    faint.powers[1] = CellPower { emits: false, emitted: 0, power: BlockPower::Weak, strength: 0 };
    assert_eq!(observed(&faint, at(0, 0, 0)), 1, "what is powered carries something");
    assert_eq!(observed(&faint, at(1, 0, 0)), 1);
}

#[test]
fn a_net_is_named_after_what_drives_it() {
    let mut both = nets();
    both.push(Net { source: Source::Gate(0), ..nets().remove(0) });
    assert_eq!(net_name_for(&netlist(), &both, 0), "a");
    assert_eq!(net_name_for(&netlist(), &both, 1), "g");
    let placed = vec![("b".to_string(), at(2, 0, 0)), ("a".to_string(), at(0, 1, 0))];
    assert_eq!(lever_positions(&netlist(), &placed), levers());
}

#[test]
fn the_last_input_changes_fastest() {
    assert_eq!(input_vector(3, 0), vec![false, false, false]);
    assert_eq!(input_vector(3, 1), vec![false, false, true]);
    assert_eq!(input_vector(3, 6), vec![true, true, false]);
}

#[test]
fn a_sweep_has_its_limit() {
    assert_eq!(sweep_size(0), Ok(1));
    assert_eq!(sweep_size(12), Ok(4096));
    assert_eq!(sweep_size(13), Err("13 inputs is too many to sweep".to_string()));
}

#[test]
fn levers_are_thrown_and_nothing_else_is() {
    let on = with_levers(&wire(), &levers(), &vec![true]).expect("it is a lever");
    assert!(on.get(0, 1, 0).lit);
    let off = with_levers(&on, &levers(), &vec![false]).expect("it is a lever");
    assert!(!off.get(0, 1, 0).lit);
    for x in 1..4 {
        assert!(on.get(x, 1, 0).same(wire().get(x, 1, 0)));
    }
    let elsewhere = vec![("a".to_string(), at(1, 1, 0))];
    match with_levers(&wire(), &elsewhere, &vec![true]) {
        Ok(_) => panic!("that is dust"),
        Err(message) => assert_eq!(message, "input `a` is not a lever at (1, 1, 0)"),
    }
}

#[test]
fn an_origin_can_be_left_alone_or_taken_away() {
    let sources = every_source(&netlist(), &vec![("g".to_string(), at(3, 1, 0))], &levers());
    assert_eq!(sources, vec![at(0, 1, 0), at(3, 1, 0)]);
    let alone = isolation_world(&wire(), &sources, at(0, 1, 0));
    assert!(alone.get(0, 1, 0).lit, "a lever that stays is thrown");
    assert_eq!(alone.get(3, 1, 0).kind, BlockKind::Air);
    assert_eq!(alone.get(1, 1, 0).kind, BlockKind::RedstoneWire);
    let without =
        control_world(&wire(), &levers(), &vec![true], &vec![at(0, 1, 0)]).expect("levers");
    assert_eq!(without.get(0, 1, 0).kind, BlockKind::Air);
    assert_eq!(without.get(3, 1, 0).kind, BlockKind::WallTorch);
}

#[test]
fn a_group_has_its_cells_nets_and_origins() {
    let walks = walked(vec![]);
    assert_eq!(walks[0].root, 0);
    assert_eq!(walks[0].nets, vec![0]);
    assert_eq!(walks[0].cells, vec![at(1, 1, 0), at(2, 1, 0)]);
    assert_eq!(walks[0].origins, vec![at(0, 1, 0)]);
}

#[test]
fn a_block_that_the_walk_does_not_reach_is_a_refusal() {
    let supports = vec![Some(at(2, 1, 0))];
    assert_eq!(sink_supports(&netlist(), &nets(), &vec![0], &supports, 0), vec![at(2, 1, 0)]);
    let reached = walked(vec![(at(2, 1, 0), 3)]);
    assert_eq!(replica_refusal(&netlist(), &nets(), &vec![0], &reached, &supports), None);
    let missed = walked(vec![(at(1, 1, 0), 3)]);
    assert_eq!(
        replica_refusal(&netlist(), &nets(), &vec![0], &missed, &supports),
        Some(SignalViolation { net: 0, gate: 0, support: at(2, 1, 0) })
    );
}

#[test]
fn a_group_is_measured_where_most_of_its_origins_are_live() {
    let walks = walked(vec![]);
    let names = vec!["a".to_string()];
    let sweep = vec![settled(wire(), false), settled(wire(), true)];
    assert_eq!(group_vector(&walks[0], &names, &sweep), Ok(1));
    let dark = vec![settled(wire(), false)];
    assert!(group_vector(&walks[0], &names, &dark).is_err());
}

fn report(strength: Vec<(Position, u8)>) -> GroupReport {
    let walks = walked(strength);
    let isolations = vec![OriginIsolation::new(at(0, 1, 0), settled(wire(), true))];
    report_group(
        &wire(),
        &walks[0],
        &vec!["a".to_string()],
        &vec![at(2, 1, 0)],
        &levers(),
        &vec![true],
        &settled(wire(), true),
        &settled(wire(), false),
        &isolations,
    )
}

#[test]
fn every_cell_is_read_once_sinks_first() {
    let found = report(vec![(at(1, 1, 0), 15), (at(2, 1, 0), 14)]);
    assert_eq!(found.nets, vec!["a".to_string()]);
    assert_eq!(found.vector, vec![("a".to_string(), true)]);
    assert_eq!(found.origins, vec![(at(0, 1, 0), true)]);
    assert!(found.every_origin_live());
    let cells: Vec<Position> = found.readings.iter().map(|reading| reading.cell).collect();
    assert_eq!(cells, vec![at(2, 1, 0), at(1, 1, 0), at(1, 0, 0), at(2, 0, 0)]);
    assert_eq!(found.readings[0].class, CellClass::Support);
    assert_eq!(found.readings[1].class, CellClass::Conductor);
    assert_eq!(found.readings[2].class, CellClass::Floor);
    assert_eq!(found.readings[0].solo_origin, Some(at(0, 1, 0)));
    assert!(found.readings[0].attributed() && found.readings[0].walk_reaches());
    assert!(found.readings[0].attributed_by_difference());
    assert!(found.disagreements().is_empty());
    assert!(found.decisive().is_empty());
}

#[test]
fn a_walk_that_stops_short_is_a_false_refusal() {
    let found = report(vec![(at(1, 1, 0), 15)]);
    let wrong = found.disagreements();
    assert_eq!(wrong.len(), 1);
    assert_eq!(wrong[0].0, Direction::FalseRefusal);
    assert_eq!(wrong[0].1.cell, at(2, 1, 0));
    assert_eq!(found.decisive().len(), 1);
}

#[test]
fn a_walk_that_goes_too_far_is_a_false_pass() {
    let mut found = report(vec![(at(1, 1, 0), 15), (at(2, 1, 0), 14)]);
    found.readings[1].solo = 0;
    let wrong = found.disagreements();
    assert_eq!(wrong.len(), 1);
    assert_eq!(wrong[0].0, Direction::FalsePass);
    assert!(found.decisive().is_empty(), "the judge does not read dust");
}

#[test]
fn a_measurement_counts_what_it_read() {
    let walks = walked(vec![(at(1, 1, 0), 15)]);
    let sweep = vec![settled(wire(), false), settled(wire(), true)];
    let runs = vec![GroupRun {
        control: settled(wire(), false),
        isolations: vec![OriginIsolation::new(at(0, 1, 0), settled(wire(), true))],
    }];
    let measured = measure(
        &wire(),
        &walks,
        &vec!["a".to_string()],
        &vec![vec![at(2, 1, 0)]],
        &levers(),
        &sweep,
        &runs,
        Some("refused".to_string()),
        None,
    );
    assert_eq!(measured.groups.len(), 1);
    assert_eq!(measured.groups[0].vector, vec![("a".to_string(), true)]);
    assert_eq!(measured.cells_compared(), 2);
    assert_eq!(measured.floors_reported(), 2);
    assert_eq!(measured.recorded_into_air(), 0);
    assert_eq!(measured.disagreements().len(), 1);
    assert_eq!(measured.decisive().len(), 1);
    assert_eq!(measured.replica_verdict, Some("refused".to_string()));
    assert_eq!(measured.shipping_verdict, None);
    assert!(measured.unmeasured.is_empty());
    assert_eq!(measured.settles, 4, "two of the sweep, one without and one alone");
}

#[test]
fn a_group_that_no_vector_wakes_is_not_measured() {
    let walks = walked(vec![]);
    let measured = measure(
        &wire(),
        &walks,
        &vec!["a".to_string()],
        &vec![vec![at(2, 1, 0)]],
        &levers(),
        &vec![settled(wire(), false), settled(wire(), false)],
        &vec![],
        None,
        None,
    );
    assert!(measured.groups.is_empty());
    assert_eq!(measured.unmeasured.len(), 1);
    assert!(measured.unmeasured[0].contains("group 0 (a)"), "{}", measured.unmeasured[0]);
    assert_eq!(measured.settles, 2);
}

#[test]
fn a_value_recorded_where_there_is_nothing_is_counted() {
    let reading = Reading {
        cell: at(0, 0, 0),
        class: CellClass::Floor,
        kind: BlockKind::Air,
        is_sink: false,
        walk: 2,
        live: 0,
        control: 0,
        solo: 0,
        solo_origin: None,
        live_strong: false,
    };
    let mut found = report(vec![]);
    found.readings = vec![reading, reading];
    let mut measured = measure(
        &wire(),
        &vec![],
        &vec![],
        &vec![],
        &levers(),
        &vec![settled(wire(), false)],
        &vec![],
        None,
        None,
    );
    measured.groups.push(found);
    assert_eq!(measured.recorded_into_air(), 2);
    assert_eq!(measured.cells_compared() + measured.floors_reported(), 2);
}

const SIDES: [Facing; 4] = [Facing::North, Facing::South, Facing::East, Facing::West];

/// Dust on a step: the upper cell powers the lower one, and not the other way.
fn stairs() -> World {
    let mut world = World::new(3, 4, 3);
    let dust = || block(BlockKind::RedstoneWire, "minecraft:redstone_wire");
    world.set(1, 1, 1, dust());
    world.set(2, 2, 1, dust());
    world.set(0, 1, 1, dust());
    world.set(1, 1, 0, dust());
    world.set(1, 2, 1, block(BlockKind::Glass, "minecraft:glass"));
    world
}

fn stale(position: Position, kind: BlockKind) -> CellDiff {
    CellDiff {
        position,
        kind,
        settled_power: 0,
        resettled_power: 9,
        settled_lit: false,
        resettled_lit: true,
    }
}

#[test]
fn a_stale_cell_is_described_with_its_edges() {
    let walks = vec![
        (at(2, 2, 1), at(1, 1, 1)),
        (at(0, 1, 1), at(1, 1, 1)),
        (at(1, 1, 1), at(0, 1, 1)),
    ];
    let line = describe(
        &stairs(),
        &walks,
        &SIDES.to_vec(),
        &stale(at(1, 1, 1), BlockKind::RedstoneWire),
    );
    assert_eq!(
        line,
        "    (1, 1, 1) RedstoneWire power 0 -> 9 lit false -> true  edges: [(2, 2, 1) -> \
         (ONE-WAY IN), (0, 1, 1) <->]  lid above: Glass"
    );
    let backwards = vec![(at(1, 1, 1), at(1, 1, 0))];
    let line = describe(
        &stairs(),
        &backwards,
        &SIDES.to_vec(),
        &stale(at(1, 1, 1), BlockKind::RedstoneWire),
    );
    assert!(line.contains("edges: [(1, 1, 0) <- (ONE-WAY OUT)]"), "{line}");
}

#[test]
fn only_dust_has_edges() {
    let line =
        describe(&stairs(), &vec![], &SIDES.to_vec(), &stale(at(1, 2, 1), BlockKind::Lamp));
    assert_eq!(line, "    (1, 2, 1) Lamp power 0 -> 9 lit false -> true");
}

fn resettled(world: World, diffs: Vec<CellDiff>) -> Resettle {
    Resettle { world, diffs, passes: 2, walks: vec![] }
}

#[test]
fn a_settle_is_summed_up_in_a_line() {
    let result = resettled(stairs(), vec![stale(at(1, 2, 1), BlockKind::Lamp)]);
    assert_eq!(
        diff_line("adder", &result),
        "adder: 1 stale cell(s), fixpoint in 2 pass(es)"
    );
}

#[test]
fn a_repeater_can_be_turned_round() {
    let mut world = wire();
    let mut repeater = block(BlockKind::Repeater, "minecraft:repeater");
    repeater.facing = Some(Facing::East);
    repeater.delay = 3;
    world.set(1, 1, 0, repeater);
    let turned = reversed(&world, at(1, 1, 0));
    assert_eq!(turned.get(1, 1, 0).facing, Some(Facing::West));
    assert_eq!(turned.get(1, 1, 0).delay, 3);
    assert!(turned.get(0, 1, 0).same(world.get(0, 1, 0)));
}

#[test]
fn a_sweep_names_what_moved() {
    let lamp = |lit: bool| {
        let mut world = World::new(1, 1, 1);
        let mut state = block(BlockKind::Lamp, "minecraft:redstone_lamp");
        state.lit = lit;
        world.set(0, 0, 0, state);
        world
    };
    let clean = SettledVector { settled: lamp(false), result: resettled(lamp(false), vec![]) };
    let moved = SettledVector {
        settled: lamp(false),
        result: resettled(lamp(true), vec![stale(at(0, 0, 0), BlockKind::Lamp)]),
    };
    let outputs = vec![("out".to_string(), at(0, 0, 0))];
    let sweep =
        sweep_compiled("lamp", 1, &outputs, &vec![clean, moved], &SIDES.to_vec(), true);
    assert_eq!((sweep.vectors, sweep.vectors_with_diffs, sweep.total_stale), (2, 1, 1));
    assert_eq!(
        sweep.output_moves,
        vec!["lamp mask 1 output `out`: settled false, re-settled true".to_string()]
    );
    assert_eq!(
        sweep.lines,
        vec![
            "lamp mask 1: 1 stale cell(s), fixpoint in 2 pass(es)".to_string(),
            "    (0, 0, 0) Lamp power 0 -> 9 lit false -> true".to_string(),
        ]
    );
    let alone = SettledVector { settled: lamp(true), result: resettled(lamp(true), vec![]) };
    let empty = sweep_compiled("none", 0, &outputs, &vec![alone], &SIDES.to_vec(), false);
    assert_eq!((empty.vectors, empty.total_stale), (1, 0));
    assert!(empty.lines.is_empty() && empty.output_moves.is_empty());
}
