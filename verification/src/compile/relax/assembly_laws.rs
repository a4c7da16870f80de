//! What holds of the bodies of every circuit.

use crate::compile::circuit;
use crate::compile::netlist::Netlist;
use crate::compile::primitive_graph::PrimitiveGraph;
use crate::compile::relax::assembly;
use crate::compile::relax::assembly::Assembly;
use crate::compile::relax::bodies;
use crate::compile::relax::bodies::{BodyKind, BodyView, Catalogue, CellFacing, Weld};
use crate::redstone::block::{BlockKind, Facing};
use crate::redstone::position::Position;
use vstd::prelude::*;

verus! {

/// The body that a gate or an input is placed by.
pub open spec fn placed_by(
    list: Netlist,
    graph: PrimitiveGraph,
    start: Seq<Position>,
    pinned: Seq<(String, Position)>,
    node: int,
) -> BodyView {
    if node < list.gates@.len() {
        assembly::anchor_body_of(list, graph, start, pinned, node)
    } else {
        let name = assembly::node_name(list, node);
        let lever = assembly::lever_of(graph, name, 0)->0;
        BodyView {
            what: BodyKind::Primitive {
                node: lever as usize,
                kind: graph.nodes@[lever].kind,
            },
            position: assembly::start_of(pinned, start, name, node),
            inputs: seq![],
            output: Some(name),
            facing: CellFacing::North,
            pinned: circuit::position_of(pinned, name) is Some,
        }
    }
}

/// Every gate and input so far has bodies of its own, the first of which it is
/// placed by, and every weld is between two bodies.
pub open spec fn sound(
    so_far: Assembly,
    list: Netlist,
    graph: PrimitiveGraph,
    start: Seq<Position>,
    pinned: Seq<(String, Position)>,
    placed: nat,
) -> bool {
    &&& so_far.nodes.len() == placed
    &&& so_far.anchors.len() == placed
    &&& forall|n: int|
        0 <= n < placed ==> {
            &&& (#[trigger] so_far.nodes[n]).len() > 0
            &&& so_far.nodes[n][0] == so_far.anchors[n]
            &&& in_range(so_far.nodes[n], so_far.bodies.len())
            &&& so_far.bodies[so_far.anchors[n] as int] == placed_by(
                list,
                graph,
                start,
                pinned,
                n,
            )
        }
    &&& forall|w: int| 0 <= w < so_far.welds.len() ==> joins(#[trigger] so_far.welds[w], so_far)
}

pub open spec fn in_range(members: Seq<usize>, count: nat) -> bool {
    forall|k: int| 0 <= k < members.len() ==> (#[trigger] members[k]) < count
}

/// The weld holds a repeater without an output of its own in a junction's socket.
pub open spec fn joins(weld: Weld, so_far: Assembly) -> bool {
    &&& weld matches Weld::AtSocket { repeater, junction, input_index }
    &&& junction < repeater < so_far.bodies.len()
    &&& so_far.bodies[repeater as int].output is None
    &&& so_far.bodies[junction as int].what is Junction
    &&& so_far.bodies[repeater as int].pinned == so_far.bodies[junction as int].pinned
}

proof fn lemma_branches_keep(
    so_far: Assembly,
    own: Seq<usize>,
    list: Netlist,
    graph: PrimitiveGraph,
    catalogue: Catalogue,
    junction: BodyView,
    g: int,
    from: nat,
)
    requires
        assembly::branches(so_far, own, list, graph, catalogue, junction, g, from) is Ok,
    ensures
        ({
            let (next, all) = assembly::branches(
                so_far,
                own,
                list,
                graph,
                catalogue,
                junction,
                g,
                from,
            )->Ok_0;
            &&& so_far.bodies.is_prefix_of(next.bodies)
            &&& own.is_prefix_of(all)
            &&& next.nodes == so_far.nodes
            &&& next.anchors == so_far.anchors
        }),
    decreases graph.gate_nodes@[g]@.len() - from,
{
    if from < graph.gate_nodes@[g]@.len() {
        let node = graph.gate_nodes@[g]@[from as int];
        let kind = graph.nodes@[node as int].kind;
        match assembly::branch_of(graph.nodes@[node as int].provenance) {
            None => {
                lemma_branches_keep(
                    so_far,
                    own,
                    list,
                    graph,
                    catalogue,
                    junction,
                    g,
                    from + 1,
                );
            },
            Some(input) => {
                let body = BodyView {
                    what: BodyKind::Primitive { node, kind },
                    position: assembly::beside(
                        junction.position,
                        catalogue.frame(CellFacing::North).inputs@[input as int],
                    ),
                    inputs: seq![list.gates@[g].inputs@[input as int]@],
                    output: None,
                    facing: CellFacing::North,
                    pinned: junction.pinned,
                };
                let number = so_far.bodies.len() as usize;
                let next = Assembly {
                    bodies: so_far.bodies.push(body),
                    welds: so_far.welds.push(
                        Weld::AtSocket { repeater: number, junction: own[0], input_index: input },
                    ),
                    ..so_far
                };
                lemma_branches_keep(
                    next,
                    own.push(number),
                    list,
                    graph,
                    catalogue,
                    junction,
                    g,
                    from + 1,
                );
                assert(so_far.bodies.is_prefix_of(next.bodies));
                assert(own.is_prefix_of(own.push(number)));
            },
        }
    }
}

proof fn lemma_branches_are_sound(
    so_far: Assembly,
    own: Seq<usize>,
    list: Netlist,
    graph: PrimitiveGraph,
    catalogue: Catalogue,
    junction: BodyView,
    g: int,
    from: nat,
)
    requires
        assembly::branches(so_far, own, list, graph, catalogue, junction, g, from) is Ok,
        assembly::branches(
            so_far,
            own,
            list,
            graph,
            catalogue,
            junction,
            g,
            from,
        )->Ok_0.0.bodies.len() <= usize::MAX,
        own.len() > 0,
        in_range(own, so_far.bodies.len()),
        so_far.bodies[own[0] as int] == junction,
        junction.what is Junction,
        forall|w: int|
            0 <= w < so_far.welds.len() ==> joins(#[trigger] so_far.welds[w], so_far),
    ensures
        ({
            let (next, all) = assembly::branches(
                so_far,
                own,
                list,
                graph,
                catalogue,
                junction,
                g,
                from,
            )->Ok_0;
            &&& in_range(all, next.bodies.len())
            &&& forall|w: int|
                0 <= w < next.welds.len() ==> joins(#[trigger] next.welds[w], next)
        }),
    decreases graph.gate_nodes@[g]@.len() - from,
{
    if from < graph.gate_nodes@[g]@.len() {
        let node = graph.gate_nodes@[g]@[from as int];
        let kind = graph.nodes@[node as int].kind;
        match assembly::branch_of(graph.nodes@[node as int].provenance) {
            None => {
                lemma_branches_are_sound(
                    so_far,
                    own,
                    list,
                    graph,
                    catalogue,
                    junction,
                    g,
                    from + 1,
                );
            },
            Some(input) => {
                let body = BodyView {
                    what: BodyKind::Primitive { node, kind },
                    position: assembly::beside(
                        junction.position,
                        catalogue.frame(CellFacing::North).inputs@[input as int],
                    ),
                    inputs: seq![list.gates@[g].inputs@[input as int]@],
                    output: None,
                    facing: CellFacing::North,
                    pinned: junction.pinned,
                };
                let number = so_far.bodies.len() as usize;
                let weld = Weld::AtSocket {
                    repeater: number,
                    junction: own[0],
                    input_index: input,
                };
                let next = Assembly {
                    bodies: so_far.bodies.push(body),
                    welds: so_far.welds.push(weld),
                    ..so_far
                };
                lemma_branches_keep(
                    next,
                    own.push(number),
                    list,
                    graph,
                    catalogue,
                    junction,
                    g,
                    from + 1,
                );
                assert(so_far.bodies.len() < usize::MAX);
                assert forall|w: int| 0 <= w < next.welds.len() implies joins(
                    #[trigger] next.welds[w],
                    next,
                ) by {
                    if w < so_far.welds.len() {
                        assert(joins(so_far.welds[w], so_far));
                    }
                }
                lemma_branches_are_sound(
                    next,
                    own.push(number),
                    list,
                    graph,
                    catalogue,
                    junction,
                    g,
                    from + 1,
                );
            },
        }
    }
}

proof fn lemma_one_more(
    before: Assembly,
    next: Assembly,
    own: Seq<usize>,
    list: Netlist,
    graph: PrimitiveGraph,
    start: Seq<Position>,
    pinned: Seq<(String, Position)>,
    placed: nat,
)
    requires
        sound(before, list, graph, start, pinned, placed),
        before.bodies.is_prefix_of(next.bodies),
        next.nodes == before.nodes,
        next.anchors == before.anchors,
        own.len() > 0,
        in_range(own, next.bodies.len()),
        next.bodies[own[0] as int] == placed_by(list, graph, start, pinned, placed as int),
        forall|w: int| 0 <= w < next.welds.len() ==> joins(#[trigger] next.welds[w], next),
    ensures
        sound(assembly::with_node(next, own), list, graph, start, pinned, placed + 1),
{
    let more = assembly::with_node(next, own);
    assert forall|n: int| 0 <= n < placed + 1 implies {
        &&& (#[trigger] more.nodes[n]).len() > 0
        &&& more.nodes[n][0] == more.anchors[n]
        &&& in_range(more.nodes[n], more.bodies.len())
        &&& more.bodies[more.anchors[n] as int] == placed_by(list, graph, start, pinned, n)
    } by {
        if n < placed {
            let kept = before.nodes[n];
            assert(more.nodes[n] == kept);
            assert(kept[0] < before.bodies.len());
        }
    }
    assert forall|w: int| 0 <= w < more.welds.len() implies joins(
        #[trigger] more.welds[w],
        more,
    ) by {
        assert(joins(next.welds[w], next));
    }
}

proof fn lemma_welds_stay(before: Assembly, body: BodyView)
    requires
        forall|w: int| 0 <= w < before.welds.len() ==> joins(#[trigger] before.welds[w], before),
    ensures
        ({
            let next = Assembly { bodies: before.bodies.push(body), ..before };
            forall|w: int| 0 <= w < next.welds.len() ==> joins(#[trigger] next.welds[w], next)
        }),
{
    let next = Assembly { bodies: before.bodies.push(body), ..before };
    assert forall|w: int| 0 <= w < next.welds.len() implies joins(
        #[trigger] next.welds[w],
        next,
    ) by {
        assert(joins(before.welds[w], before));
    }
}

proof fn lemma_gates_keep(
    so_far: Assembly,
    list: Netlist,
    graph: PrimitiveGraph,
    start: Seq<Position>,
    pinned: Seq<(String, Position)>,
    catalogue: Catalogue,
    from: nat,
)
    requires
        assembly::gates_assembled(so_far, list, graph, start, pinned, catalogue, from) is Ok,
    ensures
        so_far.bodies.is_prefix_of(
            assembly::gates_assembled(
                so_far,
                list,
                graph,
                start,
                pinned,
                catalogue,
                from,
            )->Ok_0.bodies,
        ),
    decreases list.gates@.len() - from,
{
    if from < list.gates@.len() {
        let g = from as int;
        let anchor = assembly::anchor_body_of(list, graph, start, pinned, g);
        let own = seq![so_far.bodies.len() as usize];
        let begun = Assembly { bodies: so_far.bodies.push(anchor), ..so_far };
        assert(so_far.bodies.is_prefix_of(begun.bodies));
        if list.gates@[g].kind is Or {
            lemma_branches_keep(begun, own, list, graph, catalogue, anchor, g, 0);
            let (next, all) = assembly::branches(
                begun,
                own,
                list,
                graph,
                catalogue,
                anchor,
                g,
                0,
            )->Ok_0;
            lemma_gates_keep(
                assembly::with_node(next, all),
                list,
                graph,
                start,
                pinned,
                catalogue,
                from + 1,
            );
        } else {
            lemma_gates_keep(
                assembly::with_node(begun, own),
                list,
                graph,
                start,
                pinned,
                catalogue,
                from + 1,
            );
        }
    }
}

proof fn lemma_gates_are_sound(
    so_far: Assembly,
    list: Netlist,
    graph: PrimitiveGraph,
    start: Seq<Position>,
    pinned: Seq<(String, Position)>,
    catalogue: Catalogue,
    from: nat,
)
    requires
        assembly::gates_assembled(so_far, list, graph, start, pinned, catalogue, from) is Ok,
        assembly::gates_assembled(
            so_far,
            list,
            graph,
            start,
            pinned,
            catalogue,
            from,
        )->Ok_0.bodies.len() <= usize::MAX,
        from <= list.gates@.len(),
        sound(so_far, list, graph, start, pinned, from),
    ensures
        sound(
            assembly::gates_assembled(
                so_far,
                list,
                graph,
                start,
                pinned,
                catalogue,
                from,
            )->Ok_0,
            list,
            graph,
            start,
            pinned,
            list.gates@.len(),
        ),
    decreases list.gates@.len() - from,
{
    if from < list.gates@.len() {
        let g = from as int;
        let anchor = assembly::anchor_body_of(list, graph, start, pinned, g);
        let own = seq![so_far.bodies.len() as usize];
        let begun = Assembly { bodies: so_far.bodies.push(anchor), ..so_far };
        lemma_welds_stay(so_far, anchor);
        if list.gates@[g].kind is Or {
            lemma_branches_keep(begun, own, list, graph, catalogue, anchor, g, 0);
            let (next, all) = assembly::branches(
                begun,
                own,
                list,
                graph,
                catalogue,
                anchor,
                g,
                0,
            )->Ok_0;
            let more = assembly::with_node(next, all);
            lemma_gates_keep(more, list, graph, start, pinned, catalogue, from + 1);
            assert(so_far.bodies.len() < begun.bodies.len() <= next.bodies.len()
                <= usize::MAX);
            assert(begun.bodies[own[0] as int] == anchor);
            lemma_branches_are_sound(begun, own, list, graph, catalogue, anchor, g, 0);
            assert(all[0] == own[0]);
            assert(next.bodies[all[0] as int] == begun.bodies[own[0] as int]);
            lemma_one_more(so_far, next, all, list, graph, start, pinned, from);
            lemma_gates_are_sound(more, list, graph, start, pinned, catalogue, from + 1);
        } else {
            let more = assembly::with_node(begun, own);
            lemma_gates_keep(more, list, graph, start, pinned, catalogue, from + 1);
            lemma_one_more(so_far, begun, own, list, graph, start, pinned, from);
            lemma_gates_are_sound(more, list, graph, start, pinned, catalogue, from + 1);
        }
    }
}

proof fn lemma_inputs_keep(
    so_far: Assembly,
    list: Netlist,
    graph: PrimitiveGraph,
    start: Seq<Position>,
    pinned: Seq<(String, Position)>,
    catalogue: Catalogue,
    from: nat,
)
    requires
        assembly::inputs_assembled(so_far, list, graph, start, pinned, catalogue, from) is Ok,
    ensures
        so_far.bodies.is_prefix_of(
            assembly::inputs_assembled(
                so_far,
                list,
                graph,
                start,
                pinned,
                catalogue,
                from,
            )->Ok_0.bodies,
        ),
    decreases list.inputs@.len() - from,
{
    if from < list.inputs@.len() {
        let body = placed_by(list, graph, start, pinned, (list.gates@.len() + from) as int);
        let own = seq![so_far.bodies.len() as usize];
        let begun = Assembly { bodies: so_far.bodies.push(body), ..so_far };
        lemma_inputs_keep(
            assembly::with_node(begun, own),
            list,
            graph,
            start,
            pinned,
            catalogue,
            from + 1,
        );
        assert(so_far.bodies.is_prefix_of(begun.bodies));
    }
}

proof fn lemma_inputs_are_sound(
    so_far: Assembly,
    list: Netlist,
    graph: PrimitiveGraph,
    start: Seq<Position>,
    pinned: Seq<(String, Position)>,
    catalogue: Catalogue,
    from: nat,
)
    requires
        assembly::inputs_assembled(so_far, list, graph, start, pinned, catalogue, from) is Ok,
        assembly::inputs_assembled(
            so_far,
            list,
            graph,
            start,
            pinned,
            catalogue,
            from,
        )->Ok_0.bodies.len() <= usize::MAX,
        from <= list.inputs@.len(),
        sound(so_far, list, graph, start, pinned, list.gates@.len() + from),
    ensures
        sound(
            assembly::inputs_assembled(
                so_far,
                list,
                graph,
                start,
                pinned,
                catalogue,
                from,
            )->Ok_0,
            list,
            graph,
            start,
            pinned,
            list.gates@.len() + list.inputs@.len(),
        ),
    decreases list.inputs@.len() - from,
{
    if from < list.inputs@.len() {
        let node = (list.gates@.len() + from) as int;
        let body = placed_by(list, graph, start, pinned, node);
        let own = seq![so_far.bodies.len() as usize];
        let begun = Assembly { bodies: so_far.bodies.push(body), ..so_far };
        let more = assembly::with_node(begun, own);
        lemma_welds_stay(so_far, body);
        lemma_inputs_keep(more, list, graph, start, pinned, catalogue, from + 1);
        lemma_one_more(so_far, begun, own, list, graph, start, pinned, node as nat);
        lemma_inputs_are_sound(more, list, graph, start, pinned, catalogue, from + 1);
    }
}

/// Every gate and every input has a body of its own that it is placed by, which is
/// pinned, at its pin, exactly if its signal is pinned; and every weld holds a
/// repeater in the socket of a junction.
pub proof fn lemma_every_node_has_an_anchor(
    list: Netlist,
    graph: PrimitiveGraph,
    start: Seq<Position>,
    pinned: Seq<(String, Position)>,
    catalogue: Catalogue,
    made: Assembly,
)
    requires
        assembly::expanded(list, graph, start, pinned, catalogue),
        assembly::assembled(list, graph, start, pinned, catalogue) == Ok::<Assembly, Seq<char>>(
            made,
        ),
        made.bodies.len() <= usize::MAX,
    ensures
        sound(made, list, graph, start, pinned, list.gates@.len() + list.inputs@.len()),
        forall|n: int|
            0 <= n < list.gates@.len() + list.inputs@.len() ==> {
                let body = made.bodies[#[trigger] made.anchors[n] as int];
                &&& body.output == Some(assembly::node_name(list, n))
                &&& match circuit::position_of(pinned, assembly::node_name(list, n)) {
                    Some(cell) => body.pinned && body.position == cell,
                    None => !body.pinned && body.position == start[n],
                }
            },
{
    let gates = assembly::gates_assembled(
        assembly::nothing(),
        list,
        graph,
        start,
        pinned,
        catalogue,
        0,
    )->Ok_0;
    lemma_inputs_keep(gates, list, graph, start, pinned, catalogue, 0);
    lemma_gates_are_sound(assembly::nothing(), list, graph, start, pinned, catalogue, 0);
    lemma_inputs_are_sound(gates, list, graph, start, pinned, catalogue, 0);
    assert forall|n: int| 0 <= n < list.gates@.len() + list.inputs@.len() implies {
        let body = made.bodies[#[trigger] made.anchors[n] as int];
        &&& body.output == Some(assembly::node_name(list, n))
        &&& match circuit::position_of(pinned, assembly::node_name(list, n)) {
            Some(cell) => body.pinned && body.position == cell,
            None => !body.pinned && body.position == start[n],
        }
    } by {
        assert(made.nodes[n].len() > 0);
    }
}

/// The nodes of a gate come from that gate.
pub open spec fn gates_have_gate_nodes(graph: PrimitiveGraph) -> bool {
    forall|g: int, k: int|
        0 <= g < graph.gate_nodes@.len() && 0 <= k < graph.gate_nodes@[g]@.len() ==> {
            let node = #[trigger] graph.gate_nodes@[g]@[k];
            node < graph.nodes@.len() && graph.nodes@[node as int].provenance is Gate
        }
}

/// The body does not stand for a declared output.
pub open spec fn no_lamp(body: BodyView, graph: PrimitiveGraph) -> bool {
    body.what matches BodyKind::Primitive { node, kind } ==> node < graph.nodes@.len() && !(
    graph.nodes@[node as int].provenance is PrimaryOutput)
}

pub open spec fn no_lamps(list: Seq<BodyView>, graph: PrimitiveGraph) -> bool {
    forall|b: int| 0 <= b < list.len() ==> no_lamp(#[trigger] list[b], graph)
}

proof fn lemma_branches_hold_no_lamp(
    so_far: Assembly,
    own: Seq<usize>,
    list: Netlist,
    graph: PrimitiveGraph,
    catalogue: Catalogue,
    junction: BodyView,
    g: int,
    from: nat,
)
    requires
        assembly::branches(so_far, own, list, graph, catalogue, junction, g, from) is Ok,
        gates_have_gate_nodes(graph),
        0 <= g < graph.gate_nodes@.len(),
        no_lamps(so_far.bodies, graph),
    ensures
        no_lamps(
            assembly::branches(
                so_far,
                own,
                list,
                graph,
                catalogue,
                junction,
                g,
                from,
            )->Ok_0.0.bodies,
            graph,
        ),
    decreases graph.gate_nodes@[g]@.len() - from,
{
    if from < graph.gate_nodes@[g]@.len() {
        let node = graph.gate_nodes@[g]@[from as int];
        let kind = graph.nodes@[node as int].kind;
        match assembly::branch_of(graph.nodes@[node as int].provenance) {
            None => {
                lemma_branches_hold_no_lamp(
                    so_far,
                    own,
                    list,
                    graph,
                    catalogue,
                    junction,
                    g,
                    from + 1,
                );
            },
            Some(input) => {
                let body = BodyView {
                    what: BodyKind::Primitive { node, kind },
                    position: assembly::beside(
                        junction.position,
                        catalogue.frame(CellFacing::North).inputs@[input as int],
                    ),
                    inputs: seq![list.gates@[g].inputs@[input as int]@],
                    output: None,
                    facing: CellFacing::North,
                    pinned: junction.pinned,
                };
                let number = so_far.bodies.len() as usize;
                lemma_branches_hold_no_lamp(
                    Assembly {
                        bodies: so_far.bodies.push(body),
                        welds: so_far.welds.push(
                            Weld::AtSocket {
                                repeater: number,
                                junction: own[0],
                                input_index: input,
                            },
                        ),
                        ..so_far
                    },
                    own.push(number),
                    list,
                    graph,
                    catalogue,
                    junction,
                    g,
                    from + 1,
                );
            },
        }
    }
}

proof fn lemma_gates_hold_no_lamp(
    so_far: Assembly,
    list: Netlist,
    graph: PrimitiveGraph,
    start: Seq<Position>,
    pinned: Seq<(String, Position)>,
    catalogue: Catalogue,
    from: nat,
)
    requires
        assembly::gates_assembled(so_far, list, graph, start, pinned, catalogue, from) is Ok,
        gates_have_gate_nodes(graph),
        list.gates@.len() <= graph.gate_nodes@.len(),
        no_lamps(so_far.bodies, graph),
    ensures
        no_lamps(
            assembly::gates_assembled(
                so_far,
                list,
                graph,
                start,
                pinned,
                catalogue,
                from,
            )->Ok_0.bodies,
            graph,
        ),
    decreases list.gates@.len() - from,
{
    if from < list.gates@.len() {
        let g = from as int;
        let anchor = assembly::anchor_body_of(list, graph, start, pinned, g);
        let own = seq![so_far.bodies.len() as usize];
        let begun = Assembly { bodies: so_far.bodies.push(anchor), ..so_far };
        if list.gates@[g].kind is Or {
            lemma_branches_hold_no_lamp(begun, own, list, graph, catalogue, anchor, g, 0);
            let (next, all) = assembly::branches(
                begun,
                own,
                list,
                graph,
                catalogue,
                anchor,
                g,
                0,
            )->Ok_0;
            lemma_gates_hold_no_lamp(
                assembly::with_node(next, all),
                list,
                graph,
                start,
                pinned,
                catalogue,
                from + 1,
            );
        } else {
            let first = graph.gate_nodes@[g]@[0];
            assert(no_lamp(anchor, graph));
            lemma_gates_hold_no_lamp(
                assembly::with_node(begun, own),
                list,
                graph,
                start,
                pinned,
                catalogue,
                from + 1,
            );
        }
    }
}

proof fn lemma_lever_is_an_input(graph: PrimitiveGraph, name: Seq<char>, from: int)
    ensures
        assembly::lever_of(graph, name, from) matches Some(node) ==> 0 <= node
            < graph.nodes@.len() && graph.nodes@[node].provenance is PrimaryInput,
    decreases graph.nodes@.len() - from,
{
    if 0 <= from < graph.nodes@.len() {
        lemma_lever_is_an_input(graph, name, from + 1);
    }
}

proof fn lemma_inputs_hold_no_lamp(
    so_far: Assembly,
    list: Netlist,
    graph: PrimitiveGraph,
    start: Seq<Position>,
    pinned: Seq<(String, Position)>,
    catalogue: Catalogue,
    from: nat,
)
    requires
        assembly::inputs_assembled(so_far, list, graph, start, pinned, catalogue, from) is Ok,
        no_lamps(so_far.bodies, graph),
    ensures
        no_lamps(
            assembly::inputs_assembled(
                so_far,
                list,
                graph,
                start,
                pinned,
                catalogue,
                from,
            )->Ok_0.bodies,
            graph,
        ),
    decreases list.inputs@.len() - from,
{
    if from < list.inputs@.len() {
        let body = placed_by(list, graph, start, pinned, (list.gates@.len() + from) as int);
        lemma_lever_is_an_input(graph, list.inputs@[from as int]@, 0);
        assert(graph.nodes.len() == graph.nodes@.len());
        assert(no_lamp(body, graph));
        let own = seq![so_far.bodies.len() as usize];
        let begun = Assembly { bodies: so_far.bodies.push(body), ..so_far };
        lemma_inputs_hold_no_lamp(
            assembly::with_node(begun, own),
            list,
            graph,
            start,
            pinned,
            catalogue,
            from + 1,
        );
    }
}

/// No body stands for a declared output: its lamp hangs on the pin of what drives
/// it, and is not placed by itself.
pub proof fn lemma_a_lamp_is_no_body(
    list: Netlist,
    graph: PrimitiveGraph,
    start: Seq<Position>,
    pinned: Seq<(String, Position)>,
    catalogue: Catalogue,
    made: Assembly,
)
    requires
        assembly::expanded(list, graph, start, pinned, catalogue),
        gates_have_gate_nodes(graph),
        assembly::assembled(list, graph, start, pinned, catalogue) == Ok::<Assembly, Seq<char>>(
            made,
        ),
    ensures
        no_lamps(made.bodies, graph),
{
    let gates = assembly::gates_assembled(
        assembly::nothing(),
        list,
        graph,
        start,
        pinned,
        catalogue,
        0,
    )->Ok_0;
    lemma_gates_hold_no_lamp(assembly::nothing(), list, graph, start, pinned, catalogue, 0);
    lemma_inputs_hold_no_lamp(gates, list, graph, start, pinned, catalogue, 0);
}

/// A cell turned so reads and gives its signals sideways.
pub open spec fn level(catalogue: Catalogue, facing: CellFacing) -> bool {
    let frame = catalogue.frame(facing);
    &&& sideways(frame.output)
    &&& forall|i: int| 0 <= i < frame.inputs@.len() ==> sideways(#[trigger] frame.inputs@[i])
}

pub open spec fn sideways(direction: Facing) -> bool {
    !(direction is Up) && !(direction is Down)
}

/// Every cell of a body that a signal stands in is level with the body. What lies
/// below is only floor.
pub proof fn lemma_signals_are_level_with_their_body(catalogue: Catalogue, body: BodyView, c: int)
    requires
        level(catalogue, body.facing),
        body.output is Some ==> body.inputs.len() <= catalogue.frame(
            body.facing,
        ).inputs@.len(),
        body.output is None ==> forall|p: int|
            0 <= p < bodies::variant_of(catalogue, body.what, body.facing).parts@.len() ==> {
                let part = #[trigger] bodies::variant_of(
                    catalogue,
                    body.what,
                    body.facing,
                ).parts@[p];
                part.kind == BlockKind::Solid || part.position.y == 0
            },
        0 <= c < bodies::cells_of(catalogue, body).len(),
        bodies::cells_of(catalogue, body)[c].carries.len() > 0,
    ensures
        bodies::cells_of(catalogue, body)[c].offset.1 == 0,
{
    let frame = catalogue.frame(body.facing);
    match body.output {
        Some(output) => {
            let sockets = body.inputs.len();
            let hops = bodies::hops_of(body.what);
            if c == 0 {
            } else if c < 1 + sockets {
                assert(sideways(frame.inputs@[c - 1]));
            } else if c < 1 + sockets + hops {
            } else {
                let floors = bodies::floor_cells(frame, body.what);
                let k = c - 1 - sockets - hops;
                assert(bodies::cells_of(catalogue, body)[c] == floors[k]);
            }
        },
        None => {},
    }
}

} // verus!
