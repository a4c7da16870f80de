use reda::compile::netlist::{Gate, Netlist};
use reda::compile::primitive_graph::{Edge, Node, PrimitiveGraph, Provenance};
use reda::compile::relax::assembly::build;
use reda::compile::relax::bodies::{
    attach_offset, cells, pin_hops, Attach, Body, BodyGraph, BodyKind, Catalogue, CellFacing,
    Frame, Part, Port, PortKind, RelativeSide, Variant, Weld,
};
use reda::compile::relax::error::{RelaxError, Violation, CELL_PARTS};
use reda::compile::relax::separation::{
    required_separations, reservation, weld_offset, welded_partners, worst_violation, Axes,
};
use reda::compile::relax::settling::{
    free_slots, nudges, Decision, Event, RelaxEffort, Settling, ANCHOR_CEILING,
};
use reda::compile::relax::snap::{snap, ContinuousPlacement};
use reda::compile::topology::{Primitive, TemplateNode};
use reda::redstone::block::{BlockKind, Facing};
use reda::redstone::position::Position;

fn parts(cells: f64) -> u128 {
    (cells * CELL_PARTS as f64) as u128
}

fn turned(direction: Facing, quarters: usize) -> Facing {
    let round = [Facing::North, Facing::East, Facing::South, Facing::West];
    let at = round.iter().position(|&one| one == direction).expect("horizontal");
    round[(at + quarters) % 4]
}

fn step(direction: Facing) -> Position {
    Position::new(0, 0, 0).offset(direction)
}

fn variant(parts: Vec<Part>, ports: Vec<Port>) -> Variant {
    Variant { parts, ports }
}

/// Cells with their output to the north, and their inputs on the other three
/// sides; a comparator cannot be placed.
fn catalogue() -> Catalogue {
    let origin = Position::new(0, 0, 0);
    let below = Position::new(0, -1, 0);
    let mut made = Catalogue {
        frames: Vec::new(),
        torch: Vec::new(),
        repeater: Vec::new(),
        comparator: Vec::new(),
        lever: Vec::new(),
        lamp: Vec::new(),
    };
    for quarters in 0..4 {
        made.frames.push(Frame {
            inputs: vec![
                turned(Facing::West, quarters),
                turned(Facing::East, quarters),
                turned(Facing::South, quarters),
            ],
            output: turned(Facing::North, quarters),
        });
        made.torch.push(variant(
            vec![
                Part { position: origin, kind: BlockKind::Solid },
                Part { position: step(turned(Facing::North, quarters)), kind: BlockKind::WallTorch },
            ],
            Vec::new(),
        ));
        made.repeater.push(variant(
            vec![
                Part { position: origin, kind: BlockKind::Repeater },
                Part { position: below, kind: BlockKind::Solid },
            ],
            vec![
                Port { kind: PortKind::RepeaterRear, side: None, position: origin },
                Port { kind: PortKind::RepeaterFront, side: None, position: origin },
                Port {
                    kind: PortKind::RepeaterSide,
                    side: Some(RelativeSide::Left),
                    position: step(turned(Facing::West, quarters)),
                },
                Port {
                    kind: PortKind::RepeaterSide,
                    side: Some(RelativeSide::Right),
                    position: step(turned(Facing::East, quarters)),
                },
            ],
        ));
        made.lever.push(variant(
            vec![Part { position: origin, kind: BlockKind::Lever }],
            Vec::new(),
        ));
        made.lamp.push(variant(
            vec![Part { position: origin, kind: BlockKind::Lamp }],
            Vec::new(),
        ));
    }
    made
}

/// A torch for every NOR, a repeater for every branch of a merge that is
/// isolated, a lever for every input and a lamp for every output.
fn expand(netlist: &Netlist, isolated: &[(usize, usize)]) -> PrimitiveGraph {
    let mut graph =
        PrimitiveGraph { nodes: Vec::new(), edges: Vec::<Edge>::new(), gate_nodes: Vec::new() };
    for (gate, declared) in netlist.gates.iter().enumerate() {
        let mut own = Vec::new();
        if declared.is_merge() {
            for &(_, input) in isolated.iter().filter(|branch| branch.0 == gate) {
                own.push(graph.nodes.len());
                graph.nodes.push(Node {
                    kind: Primitive::Repeater,
                    provenance: Provenance::Gate {
                        gate,
                        role: TemplateNode::IsolatingRepeater(input),
                    },
                });
            }
        } else {
            own.push(graph.nodes.len());
            graph.nodes.push(Node {
                kind: Primitive::Torch,
                provenance: Provenance::Gate { gate, role: TemplateNode::Torch },
            });
        }
        graph.gate_nodes.push(own);
    }
    for name in &netlist.inputs {
        graph.nodes.push(Node {
            kind: Primitive::Lever,
            provenance: Provenance::PrimaryInput { name: name.clone() },
        });
    }
    for name in &netlist.outputs {
        graph.nodes.push(Node {
            kind: Primitive::Lamp,
            provenance: Provenance::PrimaryOutput { name: name.clone() },
        });
    }
    graph
}

fn netlist(inputs: &[&str], outputs: &[&str], gates: Vec<Gate>) -> Netlist {
    Netlist {
        inputs: inputs.iter().map(|name| name.to_string()).collect(),
        outputs: outputs.iter().map(|name| name.to_string()).collect(),
        gates,
    }
}

fn piled(netlist: &Netlist) -> Vec<Position> {
    vec![Position::new(0, 1, 0); netlist.gates.len() + netlist.inputs.len()]
}

fn built_with(netlist: &Netlist, isolated: &[(usize, usize)]) -> BodyGraph {
    build(netlist, &expand(netlist, isolated), &piled(netlist), &Vec::new(), &catalogue())
        .expect("builds")
}

fn built(netlist: &Netlist) -> BodyGraph {
    built_with(netlist, &[])
}

fn inverter() -> Netlist {
    netlist(&["a"], &["out"], vec![Gate::nor("out", &["a"])])
}

fn chain() -> Netlist {
    netlist(&["a"], &["c"], vec![Gate::nor("b", &["a"]), Gate::nor("c", &["b"])])
}

fn spread() -> Vec<Position> {
    (0..3).map(|index| Position::new(index * 20, 1, index * 16)).collect()
}

#[test]
fn a_bare_merge_gets_a_body_and_the_pulls_go_through_it() {
    let netlist = netlist(
        &["a", "b"],
        &["out"],
        vec![
            Gate::nor("na", &["a"]),
            Gate::nor("nb", &["b"]),
            Gate::merge("m", &["na", "nb"]),
            Gate::nor("out", &["m"]),
        ],
    );
    let graph = built(&netlist);

    let junction = graph
        .bodies
        .iter()
        .position(|body| matches!(body.what, BodyKind::Junction { gate: 2 }))
        .expect("the merge has a junction body");

    assert!(
        graph.pulls.iter().any(|pull| pull.from.0 == junction),
        "nothing leaves the junction, so its consumer was wired past it"
    );
    assert_eq!(
        graph.pulls.iter().filter(|pull| pull.to.0 == junction).count(),
        2,
        "both branches must arrive at the junction"
    );
}

#[test]
fn an_isolated_branch_welds_its_repeater_into_the_junctions_socket() {
    let netlist = netlist(
        &["a", "b"],
        &["out", "spy"],
        vec![
            Gate::nor("na", &["a"]),
            Gate::nor("nb", &["b"]),
            Gate::merge("m", &["na", "nb"]),
            Gate::nor("out", &["m"]),
            Gate::nor("spy", &["nb"]),
        ],
    );
    let graph = built_with(&netlist, &[(2, 1)]);

    let junction = graph
        .bodies
        .iter()
        .position(|body| matches!(body.what, BodyKind::Junction { gate: 2 }))
        .expect("the merge has a junction body");
    let weld = graph
        .welds
        .iter()
        .find(|weld| matches!(weld, Weld::AtSocket { junction: j, .. } if *j == junction))
        .expect("the isolated branch is welded");
    let Weld::AtSocket { repeater, input_index, .. } = *weld else {
        unreachable!("matched AtSocket above")
    };

    assert_eq!(input_index, 1, "`nb` is the merge's second declared input");
    assert!(
        matches!(
            graph.bodies[repeater].what,
            BodyKind::Primitive { kind: Primitive::Repeater, .. }
        ),
        "a weld must hold a repeater"
    );
    assert_eq!(
        graph.bodies[repeater].position,
        Position::new(1, 1, 0),
        "it starts in the socket"
    );
    assert!(
        graph
            .pulls
            .iter()
            .any(|pull| pull.to == (repeater, Attach::Port(PortKind::RepeaterRear))),
        "the branch pulls on the repeater"
    );
    assert_eq!(
        weld_offset(&catalogue(), &graph, weld),
        (repeater, junction, Position::new(1, 0, 0))
    );
}

#[test]
fn a_declared_outputs_lamp_is_not_a_body() {
    let graph = built(&inverter());

    assert!(
        !graph
            .bodies
            .iter()
            .any(|body| matches!(body.what, BodyKind::Primitive { kind: Primitive::Lamp, .. })),
        "a lamp's position is its producer's, not its own"
    );
    assert_eq!(graph.bodies.len(), 2, "one torch and one lever, and nothing else");
}

#[test]
fn every_candidate_node_has_an_anchor_body() {
    let netlist = netlist(
        &["a", "b"],
        &["out"],
        vec![Gate::nor("na", &["a"]), Gate::nor("out", &["na", "b"])],
    );
    let graph = built(&netlist);

    assert_eq!(graph.anchor_body.len(), netlist.gates.len() + netlist.inputs.len());
    assert_eq!(graph.nodes.len(), graph.anchor_body.len());
    for (node, &body) in graph.anchor_body.iter().enumerate() {
        assert!(
            graph.nodes[node].contains(&body),
            "node {node}'s anchor body is not one of its own bodies"
        );
    }
}

#[test]
fn a_pinned_port_is_a_pinned_body() {
    let netlist = inverter();
    let pinned = vec![("a".to_string(), Position::new(40, 1, 9))];
    let graph = expand(&netlist, &[]);
    let built =
        build(&netlist, &graph, &piled(&netlist), &pinned, &catalogue()).expect("builds");

    let lever = built.anchor_body[1];
    assert!(built.bodies[lever].pinned, "a pinned input must be a pinned body");
    assert_eq!(built.bodies[lever].position, Position::new(40, 1, 9));
    assert!(!built.bodies[built.anchor_body[0]].pinned, "only the input is pinned");
}

#[test]
fn a_levers_pin_is_one_hop_out() {
    let graph = built(&inverter());
    let lever = &graph.bodies[graph.anchor_body[1]];

    assert_eq!(attach_offset(&catalogue(), Attach::Pin, lever), Position::new(0, 0, -1));
    assert_eq!(
        cells(&catalogue(), lever).len(),
        4,
        "a lever is its own cell and its pin, and both have a floor"
    );
}

#[test]
fn a_levers_own_cell_is_on_the_net_it_drives() {
    let graph = built(&inverter());
    let lever = &graph.bodies[graph.anchor_body[1]];

    let origin = cells(&catalogue(), lever)
        .into_iter()
        .find(|cell| cell.offset == (0, 0, 0))
        .expect("a lever occupies its own cell");
    assert_eq!(origin.carries, vec!["a".to_string()], "a lever is not inert");
}

#[test]
fn a_nors_support_conducts_on_every_one_of_its_input_nets() {
    let netlist = netlist(&["a", "b"], &["out"], vec![Gate::nor("out", &["a", "b"])]);
    let graph = built(&netlist);
    let nor = &graph.bodies[graph.anchor_body[0]];
    let cells = cells(&catalogue(), nor);

    let support = cells
        .iter()
        .find(|cell| cell.offset == (0, 0, 0))
        .expect("a NOR occupies its support");
    assert_eq!(
        support.carries,
        vec!["a".to_string(), "b".to_string()],
        "the support is the sink of both branches"
    );
}

#[test]
fn a_nors_torch_and_pin_are_two_hops_out_on_the_net_it_drives() {
    let graph = built(&inverter());
    let nor = &graph.bodies[graph.anchor_body[0]];
    assert_eq!(pin_hops(nor), 2, "a torch stands in the first hop");

    let one = step(Facing::North);
    let two = one.offset(Facing::North);
    for step in [one, two] {
        let cell = cells(&catalogue(), nor)
            .into_iter()
            .find(|cell| cell.offset == (step.x, step.y, step.z))
            .unwrap_or_else(|| panic!("a NOR occupies {step:?}"));
        assert_eq!(cell.carries, vec!["out".to_string()]);
    }

    assert_eq!(attach_offset(&catalogue(), Attach::Pin, nor), two);
}

#[test]
fn a_junctions_floor_is_inert() {
    let netlist = netlist(&["a", "b"], &["m"], vec![Gate::merge("m", &["a", "b"])]);
    let graph = built(&netlist);
    let junction = &graph.bodies[graph.anchor_body[0]];
    assert!(
        matches!(junction.what, BodyKind::Junction { .. }),
        "a merge is placed by a junction"
    );

    let floor = cells(&catalogue(), junction)
        .into_iter()
        .find(|cell| cell.offset == (0, -1, 0))
        .expect("a junction has a floor");
    assert!(floor.carries.is_empty(), "a floor keeps nothing out");
}

#[test]
fn a_merge_wider_than_a_gate_cell_is_refused_rather_than_indexed() {
    let netlist = netlist(
        &["a", "b", "c", "d"],
        &["m"],
        vec![Gate::merge("m", &["a", "b", "c", "d"])],
    );
    let graph = expand(&netlist, &[]);
    let refusal = build(&netlist, &graph, &piled(&netlist), &Vec::new(), &catalogue())
        .expect_err("four inputs do not fit on three faces");
    assert!(
        refusal.contains('m') && refusal.contains('4'),
        "the refusal names the merge and its arity, got {refusal:?}"
    );
    assert_eq!(
        refusal,
        "gate `m` declares 4 inputs, and a gate cell has only 3 input faces"
    );
}

#[test]
fn physical_really_has_a_primitive_with_no_variants() {
    assert!(
        catalogue().variants(Primitive::Comparator).is_empty(),
        "this test is about the primitive that has none"
    );
}

#[test]
fn what_cannot_be_placed_is_refused_by_name() {
    let netlist = inverter();
    let start = piled(&netlist);
    let refused = |graph: &PrimitiveGraph| {
        build(&netlist, graph, &start, &Vec::new(), &catalogue()).expect_err("refused")
    };
    let mut none = expand(&netlist, &[]);
    none.gate_nodes[0].clear();
    assert_eq!(refused(&none), "gate `out` instantiated no primitive");
    let mut unplaceable = expand(&netlist, &[]);
    unplaceable.nodes[0].kind = Primitive::Comparator;
    assert_eq!(
        refused(&unplaceable),
        "gate `out` needs a `Comparator`, which has no physical variants"
    );
    let mut unplaceable = expand(&netlist, &[]);
    unplaceable.nodes[1].kind = Primitive::Comparator;
    assert_eq!(
        refused(&unplaceable),
        "declared input `a` needs a `Comparator`, which has no physical variants"
    );
    let mut unlevered = expand(&netlist, &[]);
    unlevered.nodes.truncate(1);
    assert_eq!(refused(&unlevered), "declared input `a` has no lever");
}

#[test]
fn a_branch_that_cannot_be_placed_is_refused_by_name() {
    let netlist = netlist(&["a", "b"], &["m"], vec![Gate::merge("m", &["a", "b"])]);
    let mut graph = expand(&netlist, &[(0, 1)]);
    graph.nodes[0].kind = Primitive::Comparator;
    let refusal = build(&netlist, &graph, &piled(&netlist), &Vec::new(), &catalogue())
        .expect_err("refused");
    assert_eq!(
        refusal,
        "gate `m`'s branch 1 needs a `Comparator`, which has no physical variants"
    );
}

#[test]
fn every_cell_that_carries_a_net_sits_at_its_body_y() {
    let mut worst = 0i32;
    let mut seen = 0usize;
    let mut conducting = 0usize;
    for arity in 1..=3usize {
        for index in 0..4usize {
            let facing = CellFacing::from_index(index).expect("horizontal");
            for kind in [Primitive::Torch, Primitive::Lever] {
                let body = Body {
                    what: BodyKind::Primitive { node: 0, kind },
                    position: Position::new(0, 0, 0),
                    inputs: (0..arity).map(|i| format!("n{i}")).collect(),
                    output: Some("out".to_string()),
                    facing,
                    pinned: false,
                };
                for cell in cells(&catalogue(), &body) {
                    seen += 1;
                    if cell.carries.is_empty() {
                        continue;
                    }
                    conducting += 1;
                    worst = worst.max(cell.offset.1.abs());
                }
            }
        }
    }
    assert_eq!(
        worst, 0,
        "a conducting cell {worst} levels off its body breaks snap's vertical argument"
    );
    assert!(conducting > 0, "nothing carried a net, so nothing was tested");
    assert!(seen > conducting, "no inert cells, so the filter proved nothing");
}

#[test]
fn a_facing_and_its_index_go_together() {
    for index in 0..4 {
        assert_eq!(CellFacing::from_index(index).expect("a facing").index(), index);
    }
    assert_eq!(CellFacing::from_index(4), None);
}

#[test]
fn a_repeater_without_an_output_is_on_the_net_it_repeats() {
    let body = Body {
        what: BodyKind::Primitive { node: 0, kind: Primitive::Repeater },
        position: Position::new(0, 1, 0),
        inputs: vec!["n".to_string()],
        output: None,
        facing: CellFacing::East,
        pinned: false,
    };
    let cells = cells(&catalogue(), &body);
    assert_eq!(cells.len(), 2);
    assert_eq!(cells[0].carries, vec!["n".to_string()]);
    assert!(cells[1].carries.is_empty(), "its floor is inert");
    assert_eq!(
        attach_offset(&catalogue(), Attach::Port(PortKind::RepeaterRear), &body),
        Position::new(0, 0, 0)
    );
    assert_eq!(
        attach_offset(&catalogue(), Attach::Socket(0), &body),
        Position::new(0, 0, -1),
        "turned east, west is north"
    );
}

#[test]
fn snap_answers_once_per_candidate_node_in_candidate_order() {
    let netlist = chain();
    let pinned = vec![("a".to_string(), spread()[2])];
    let graph = build(&netlist, &expand(&netlist, &[]), &spread(), &pinned, &catalogue())
        .expect("builds");
    let placement = ContinuousPlacement { graph, converged: true, iterations: 9 };
    let snapped =
        snap(&catalogue(), &placement, None).expect("a converged placement rounds");

    assert_eq!(snapped.len(), 3);
    for (index, node) in snapped.iter().enumerate() {
        assert_eq!(node.node, index, "answers are not in candidate order");
        assert_eq!(node.anchor, spread()[index]);
        assert_eq!(node.facing, CellFacing::North);
    }
}

#[test]
fn a_pinned_port_snaps_to_where_it_was_pinned() {
    let netlist = chain();
    let pinned_at = Position::new(37, 1, 41);
    let pinned = vec![("a".to_string(), pinned_at)];
    let graph = build(&netlist, &expand(&netlist, &[]), &spread(), &pinned, &catalogue())
        .expect("builds");
    let placement = ContinuousPlacement { graph, converged: true, iterations: 9 };
    let snapped = snap(&catalogue(), &placement, None).expect("rounds");

    assert_eq!(snapped[2].anchor, pinned_at, "input `a` was pinned");
}

#[test]
fn an_unconverged_placement_is_refused_rather_than_rounded() {
    let netlist = chain();
    let graph = built(&netlist);
    let required = required_separations(&graph);
    let standing = worst_violation(&catalogue(), &graph, &required);
    let placement = ContinuousPlacement { graph, converged: false, iterations: 1 };

    let error = snap(&catalogue(), &placement, standing)
        .expect_err("an unconverged placement has no margin");
    let RelaxError::DidNotConverge { worst, iterations: 1 } = &error else {
        panic!("refused, but not as unconverged: {}", error.message())
    };
    assert_ne!(worst.left, worst.right, "the error has to name a pair");
    assert!(worst.shortfall > 0, "and say how far short it fell");
}

fn rounded(x: f64, y: f64, z: f64) -> Position {
    Position::new(x.round() as i32, y.round() as i32, z.round() as i32)
}

fn in_a_row(tighter: f64) -> ContinuousPlacement {
    let netlist = chain();
    let mut graph = built(&netlist);
    let required = required_separations(&graph);
    let gap = required[0].max(required[1]) as f64 / 4.0 + 1.0 - tighter;
    graph.bodies[0].position = rounded(0.5, 1.5, 0.5);
    graph.bodies[1].position = rounded(0.5 + gap, 1.5, 0.5);
    graph.bodies[2].position = rounded(0.5 + 2.0 * gap, 1.5, 0.5);
    ContinuousPlacement { graph, converged: true, iterations: 1 }
}

#[test]
fn separation_survives_rounding_from_a_half_cell_boundary() {
    snap(&catalogue(), &in_a_row(0.0), None)
        .expect("what the projection guarantees has to survive rounding");
}

#[test]
fn a_placement_tighter_than_the_projection_allows_is_caught_after_rounding() {
    let error = snap(&catalogue(), &in_a_row(2.0), None)
        .expect_err("this one is genuinely too tight");
    assert!(matches!(error, RelaxError::SurvivedSnap { .. }), "got {}", error.message());
}

fn stacked(low: f64, gap: f64) -> ContinuousPlacement {
    let mut graph = built(&chain());
    for (index, body) in graph.bodies.iter_mut().enumerate() {
        body.position = rounded(0.5, low + index as f64 * gap, 0.5);
    }
    ContinuousPlacement { graph, converged: true, iterations: 1 }
}

#[test]
fn a_vertical_gap_at_the_requirement_survives_rounding_from_above_zero() {
    let legal = |low: f64, gap: f64| snap(&catalogue(), &stacked(low, gap), None).is_ok();
    let required = (1..20).find(|&gap| legal(1.0, gap as f64)).expect("bodies can be stacked");
    assert!(required >= 2 && !legal(1.0, required as f64 - 1.0));
    for eighths in 8..200 {
        let low = eighths as f64 / 8.0;
        assert!(legal(low, required as f64), "from {low}");
    }
}

#[test]
fn a_reservation_is_a_quarter_of_the_routes_that_must_reach_it() {
    assert_eq!(reservation(0) as f64 / 4.0, 0.0);
    assert_eq!(reservation(4) as f64 / 4.0, 1.0);
    assert_eq!(reservation(10) as f64 / 4.0, 2.5);
}

#[test]
fn what_a_body_requires_grows_with_its_wires() {
    let netlist = chain();
    let graph = built(&netlist);
    assert_eq!(graph.pulls.len(), 2);
    assert_eq!(required_separations(&graph), vec![14, 13, 13]);
}

#[test]
fn the_worst_pair_is_the_first_of_those_that_are_closest() {
    let netlist = chain();
    let graph = built(&netlist);
    let required = required_separations(&graph);
    let worst = worst_violation(&catalogue(), &graph, &required).expect("they are piled up");
    assert_eq!((worst.left, worst.right), (0, 1));
    assert_eq!(worst.shortfall, parts(3.5));
    let apart = build(&netlist, &expand(&netlist, &[]), &spread(), &Vec::new(), &catalogue())
        .expect("builds");
    assert_eq!(worst_violation(&catalogue(), &apart, &required_separations(&apart)), None);
}

#[test]
fn welded_bodies_may_touch() {
    let netlist = netlist(&["a", "b"], &["m"], vec![Gate::merge("m", &["a", "b"])]);
    let graph = expand(&netlist, &[(0, 0)]);
    let start = vec![Position::new(0, 1, 0), Position::new(40, 1, 0), Position::new(0, 1, 40)];
    let built = build(&netlist, &graph, &start, &Vec::new(), &catalogue()).expect("builds");
    assert_eq!(welded_partners(&built), vec![vec![1], vec![0], vec![], vec![]]);
    assert_eq!(worst_violation(&catalogue(), &built, &required_separations(&built)), None);
}

#[test]
fn a_lock_stands_at_the_side_of_what_it_locks() {
    let repeater = |x: i32, facing: CellFacing| Body {
        what: BodyKind::Primitive { node: 0, kind: Primitive::Repeater },
        position: Position::new(x, 1, 0),
        inputs: vec!["n".to_string()],
        output: None,
        facing,
        pinned: false,
    };
    let graph = BodyGraph {
        bodies: vec![repeater(0, CellFacing::North), repeater(5, CellFacing::South)],
        pulls: Vec::new(),
        welds: Vec::new(),
        nodes: Vec::new(),
        anchor_body: Vec::new(),
    };
    let weld = Weld::BesideAt { lock: 0, data: 1, side: RelativeSide::Left };
    assert_eq!(
        weld_offset(&catalogue(), &graph, &weld),
        (0, 1, Position::new(1, 0, 0)),
        "turned south, left is east"
    );
}

#[test]
fn axes_are_taken_in_order() {
    assert_eq!(Axes::in_plane().iter(), vec![0, 2]);
    assert_eq!(Axes::all().iter(), vec![0, 1, 2]);
}

#[test]
fn a_seed_nudges_the_unpinned_in_plane_and_nothing_else() {
    let netlist = chain();
    let pinned = vec![("a".to_string(), spread()[2])];
    let graph = build(&netlist, &expand(&netlist, &[]), &spread(), &pinned, &catalogue())
        .expect("builds");
    assert!(nudges(&graph, 0).iter().all(|nudge| nudge.is_none()), "seed zero moves nothing");

    let nudged = nudges(&graph, 0x26_02);
    for (index, (body, nudge)) in graph.bodies.iter().zip(&nudged).enumerate() {
        if body.pinned {
            assert!(nudge.is_none(), "pinned body {index} left its pin");
            continue;
        }
        let (x, z) = nudge.expect("an unpinned body is nudged");
        for drawn in [x, z] {
            let moved = (drawn as f64 / (1u64 << 53) as f64 * 0.5 - 0.25).abs();
            assert!(moved > 0.0, "body {index} did not move");
            assert!(moved < 0.25, "body {index} moved {moved}");
        }
    }

    assert_ne!(nudged[0], nudges(&graph, 0x26_03)[0], "two seeds have to give two starts");
}

#[test]
fn the_first_numbers_of_a_stream_are_known() {
    let netlist = chain();
    let graph = built(&netlist);
    let drawn = nudges(&graph, 1);
    assert_eq!(
        drawn[0],
        Some((0x910a2dec89025cc1 >> 11, 0xbeeb8da1658eec67 >> 11)),
        "the splitmix of one"
    );
}

#[test]
fn pinned_bodies_are_no_unknowns() {
    let netlist = chain();
    let pinned = vec![("b".to_string(), Position::new(7, 1, 7))];
    let graph = build(&netlist, &expand(&netlist, &[]), &spread(), &pinned, &catalogue())
        .expect("builds");
    assert_eq!(free_slots(&graph), (vec![None, Some(0), Some(1)], 2));
}

#[test]
fn running_out_of_iterations_is_an_error_that_says_how_many_it_had() {
    let effort = RelaxEffort { iterations: 1, seed: 0 };
    let Decision::Step(first) = Settling::start(effort) else { panic!("there is one step") };
    let unfinished = Event::Stepped { agreed: false, settled: false, turned: true };
    assert!(matches!(first.advance(unfinished), Decision::OutOfSteps));
    let error = Settling::exhausted(effort, None);
    assert!(matches!(error, RelaxError::DidNotConverge { iterations: 1, .. }));
}

#[test]
fn a_step_converges_only_if_all_three_hold() {
    let effort = RelaxEffort::default();
    assert_eq!(effort, RelaxEffort { iterations: 256, seed: 0 });
    let Decision::Step(first) = Settling::start(effort) else { panic!("there are steps") };
    for mask in 0..8 {
        let (agreed, settled, turned) = (mask & 1 != 0, mask & 2 != 0, mask & 4 != 0);
        let decision = first.advance(Event::Stepped { agreed, settled, turned });
        match decision {
            Decision::Converged(steps) => assert!(agreed && settled && !turned && steps == 1),
            Decision::Step(next) => {
                assert!(!(agreed && settled && !turned));
                assert_eq!((next.iteration, next.anchor), (2, 2));
            }
            _ => panic!("neither"),
        }
    }
}

#[test]
fn the_anchor_doubles_up_to_its_ceiling() {
    let unfinished = Event::Stepped { agreed: true, settled: false, turned: false };
    let mut decision = Settling::start(RelaxEffort { iterations: 100, seed: 0 });
    let mut steps = 0;
    while let Decision::Step(step) = decision {
        steps += 1;
        let expected = if steps > 60 { ANCHOR_CEILING } else { 1u64 << (steps - 1) };
        assert_eq!((step.iteration, step.anchor), (steps, expected));
        decision = step.advance(unfinished);
    }
    assert_eq!(steps, 100);
    assert!(matches!(decision, Decision::OutOfSteps));
}

#[test]
fn a_failed_step_ends_it() {
    let Decision::Step(first) = Settling::start(RelaxEffort::default()) else { panic!("steps") };
    let worst = Violation { left: 1, right: 4, shortfall: parts(1.372) };
    assert!(matches!(
        first.advance(Event::Stuck { worst }),
        Decision::Failed(RelaxError::Deadlocked { worst: found }) if found == worst
    ));
    assert!(matches!(
        first.advance(Event::NoPivot { row: 3 }),
        Decision::Failed(RelaxError::Unsolvable { component_row: 3 })
    ));
    assert!(matches!(
        Settling::start(RelaxEffort { iterations: 0, seed: 0 }),
        Decision::OutOfSteps
    ));
}

#[test]
fn every_relaxation_error_says_what_it_is() {
    let worst = Violation { left: 20, right: 21, shortfall: parts(0.5) };
    let cases = [
        (
            RelaxError::DidNotConverge {
                iterations: 9,
                worst: Violation { left: 0, right: 0, shortfall: 0 },
            },
            "relaxation did not converge in 9 iterations; every pair is legal, the springs and \
             the lattice just never agreed",
        ),
        (
            RelaxError::DidNotConverge { iterations: 1, worst },
            "relaxation did not converge in 1 iterations; bodies 20 and 21 are 0.500 too close",
        ),
        (
            RelaxError::Deadlocked {
                worst: Violation { left: 0, right: 3, shortfall: parts(12.034) },
            },
            "projection deadlocked: bodies 0 and 3 cannot be 12.034 further apart and stay welded",
        ),
        (
            RelaxError::Unsolvable { component_row: 2 },
            "the spring system has no positive pivot at body 2, which means the graph was built \
             wrong",
        ),
        (
            RelaxError::CannotBuild { reason: "no lever".to_string() },
            "cannot build bodies for this netlist: no lever",
        ),
        (
            RelaxError::SurvivedSnap { worst },
            "rounding left bodies 20 and 21 0.500 too close: the snap margin is wrong",
        ),
    ];
    for (error, expected) in cases {
        assert_eq!(error.message(), expected);
    }
}

#[test]
fn where_no_pair_is_too_close_none_is_named() {
    let error = Settling::exhausted(RelaxEffort { iterations: 7, seed: 0 }, None);
    let RelaxError::DidNotConverge { iterations: 7, worst } = &error else {
        panic!("{}", error.message())
    };
    assert_eq!(*worst, Violation { left: 0, right: 0, shortfall: 0 });
    let standing = Violation { left: 2, right: 5, shortfall: parts(0.25) };
    assert!(matches!(
        Settling::exhausted(RelaxEffort { iterations: 7, seed: 0 }, Some(standing)),
        RelaxError::DidNotConverge { iterations: 7, worst } if worst == standing
    ));
}

#[test]
fn a_shortfall_is_shown_with_three_places() {
    for cells in [
        0.000002, 0.0004, 0.0005, 0.0006, 0.0625, 0.1875, 0.3125, 0.9995, 0.99951, 1.0, 2.5, 3.0625,
        12.034, 999.9996, 123456.789, 0.0015, 0.0025, 7.00048828125,
    ] {
        let worst = Violation { left: 3, right: 4, shortfall: parts(cells) };
        let error = RelaxError::DidNotConverge { iterations: 2, worst };
        assert_eq!(
            error.message(),
            format!(
                "relaxation did not converge in 2 iterations; bodies 3 and 4 are {cells:.3} too close"
            )
        );
    }
}
