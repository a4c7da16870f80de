//! What is promised of the springs and bodies of a circuit: which body each is tied to, and
//! when a circuit cannot be built.

use crate::compile::circuit;
use crate::compile::netlist::Netlist;
use crate::compile::primitive_graph::{PrimitiveGraph, Provenance};
use crate::compile::relax::assembly;
use crate::compile::relax::assembly::Assembly;
use crate::compile::relax::bodies::{
    Attach, BodyKind, BodyView, Catalogue, CellFacing, PortKind, Pull, Weld,
};
use crate::compile::topology::TemplateNode;
use crate::redstone::position::Position;
use vstd::prelude::*;

verus! {

/// The gates come first and then the inputs, each by the signal that it drives; a signal is
/// driven by the last that goes by its name, and by none exactly if none does.
pub proof fn lemma_what_drives_a_signal(list: Netlist, name: Seq<char>, count: nat)
    requires
        count <= list.gates@.len() + list.inputs@.len(),
    ensures
        match assembly::producer(list, name, count) {
            Some(node) => {
                &&& 0 <= node < count
                &&& assembly::node_name(list, node) == name
                &&& forall|other: int|
                    node < other < count ==> #[trigger] assembly::node_name(list, other) != name
            },
            None => forall|node: int|
                0 <= node < count ==> #[trigger] assembly::node_name(list, node) != name,
        },
        forall|g: int|
            0 <= g < list.gates@.len() ==> assembly::node_name(list, g) == (
            #[trigger] list.gates@[g]).output@,
        forall|i: int|
            0 <= i < list.inputs@.len() ==> assembly::node_name(list, list.gates@.len() + i) == (
            #[trigger] list.inputs@[i])@,
    decreases count,
{
    if count > 0 {
        lemma_what_drives_a_signal(list, name, (count - 1) as nat);
    }
}

/// A weld that holds a repeater in a socket of a body.
pub open spec fn holds_in_socket(weld: Weld, body: usize, input: usize, repeater: usize) -> bool {
    weld == (Weld::AtSocket { repeater, junction: body, input_index: input })
}

/// The repeater in a socket is that of the first weld into it, and there is none exactly if
/// no weld is.
pub proof fn lemma_the_repeater_in_a_socket(
    welds: Seq<Weld>,
    body: usize,
    input: usize,
    from: int,
)
    requires
        0 <= from,
    ensures
        match assembly::welded_at(welds, body, input, from) {
            Some(repeater) => exists|w: int|
                from <= w < welds.len() && holds_in_socket(
                    #[trigger] welds[w],
                    body,
                    input,
                    repeater,
                ) && forall|v: int, other: usize|
                    from <= v < w ==> !(#[trigger] holds_in_socket(welds[v], body, input, other)),
            None => forall|w: int, other: usize|
                from <= w < welds.len() ==> !(#[trigger] holds_in_socket(
                    welds[w],
                    body,
                    input,
                    other,
                )),
        },
    decreases welds.len() - from,
{
    if from < welds.len() {
        let here = match welds[from] {
            Weld::AtSocket { repeater, junction, input_index } => junction == body && input_index
                == input,
            _ => false,
        };
        if here {
            let repeater = assembly::welded_at(welds, body, input, from)->0;
            assert(holds_in_socket(welds[from], body, input, repeater));
        } else {
            lemma_the_repeater_in_a_socket(welds, body, input, from + 1);
            if let Some(repeater) = assembly::welded_at(welds, body, input, from + 1) {
                let w = choose|w: int|
                    from + 1 <= w < welds.len() && holds_in_socket(
                        #[trigger] welds[w],
                        body,
                        input,
                        repeater,
                    ) && forall|v: int, other: usize|
                        from + 1 <= v < w ==> !(#[trigger] holds_in_socket(
                            welds[v],
                            body,
                            input,
                            other,
                        ));
                assert(holds_in_socket(welds[w], body, input, repeater));
            }
        }
    }
}

/// An input of a gate has a spring exactly if something drives it: from the pin of that to
/// the back of the repeater in its socket, or to the socket itself where there is no
/// repeater.
pub proof fn lemma_the_spring_to_an_input(
    list: Netlist,
    anchors: Seq<usize>,
    welds: Seq<Weld>,
    g: int,
    input: int,
)
    ensures
        ({
            let pull = assembly::pull_to(list, anchors, welds, g, input);
            let driver = assembly::producer(
                list,
                list.gates@[g].inputs@[input]@,
                list.gates@.len() + list.inputs@.len(),
            );
            let repeater = assembly::welded_at(welds, anchors[g], input as usize, 0);
            &&& pull is Some <==> driver is Some
            &&& pull is Some ==> pull->0.from == (anchors[driver->0], Attach::Pin)
            &&& pull is Some && repeater is Some ==> pull->0.to == (
                repeater->0,
                Attach::Port(PortKind::RepeaterRear),
            )
            &&& pull is Some && repeater is None ==> pull->0.to == (
                anchors[g],
                Attach::Socket(input as usize),
            )
        }),
{
}

/// The springs to a gate are those to its inputs, in order.
pub proof fn lemma_the_springs_to_a_gate(
    list: Netlist,
    anchors: Seq<usize>,
    welds: Seq<Weld>,
    g: int,
    count: nat,
)
    ensures
        assembly::gate_pulls(list, anchors, welds, g, count) == Seq::new(
            count,
            |input: int| assembly::pull_to(list, anchors, welds, g, input),
        ).filter(|pull: Option<Pull>| pull is Some).map_values(|pull: Option<Pull>| pull->0),
    decreases count,
{
    let at = |input: int| assembly::pull_to(list, anchors, welds, g, input);
    let pred = |pull: Option<Pull>| pull is Some;
    let inside = |pull: Option<Pull>| pull->0;
    let all = Seq::new(count, at);
    let pulls = assembly::gate_pulls(list, anchors, welds, g, count);
    if count == 0 {
        all.lemma_filter_len(pred);
        assert(pulls =~= all.filter(pred).map_values(inside));
    } else {
        lemma_the_springs_to_a_gate(list, anchors, welds, g, (count - 1) as nat);
        let before = Seq::new((count - 1) as nat, at);
        let last = at(count - 1);
        assert(all =~= before.push(last));
        before.lemma_filter_push(last, pred);
        assert(pulls =~= all.filter(pred).map_values(inside));
    }
}

/// Every spring is one to an input of a gate, and every driven input of every gate has its
/// spring.
pub proof fn lemma_the_springs_of_a_circuit(
    list: Netlist,
    anchors: Seq<usize>,
    welds: Seq<Weld>,
    count: nat,
)
    requires
        count <= list.gates@.len(),
    ensures
        ({
            let pulls = assembly::all_pulls(list, anchors, welds, count);
            forall|pull: Pull| #[trigger]
                pulls.contains(pull) <==> exists|g: int, input: int|
                    0 <= g < count && 0 <= input < list.gates@[g].inputs@.len()
                        && #[trigger] assembly::pull_to(list, anchors, welds, g, input) == Some(
                        pull,
                    )
        }),
    decreases count,
{
    if count > 0 {
        let g = count - 1;
        let before = assembly::all_pulls(list, anchors, welds, g as nat);
        let more = assembly::gate_pulls(list, anchors, welds, g, list.gates@[g].inputs@.len());
        let pulls = assembly::all_pulls(list, anchors, welds, count);
        lemma_the_springs_of_a_circuit(list, anchors, welds, g as nat);
        lemma_a_spring_of_a_gate(list, anchors, welds, g, list.gates@[g].inputs@.len());
        assert forall|pull: Pull| #[trigger] pulls.contains(pull) <==> exists|h: int, input: int|
            0 <= h < count && 0 <= input < list.gates@[h].inputs@.len()
                && #[trigger] assembly::pull_to(list, anchors, welds, h, input) == Some(pull) by {
            if pulls.contains(pull) {
                let i = choose|i: int| 0 <= i < pulls.len() && pulls[i] == pull;
                if i < before.len() {
                    assert(before[i] == pull);
                    assert(before.contains(pull));
                    let (h, input) = choose|h: int, input: int|
                        0 <= h < g && 0 <= input < list.gates@[h].inputs@.len()
                            && #[trigger] assembly::pull_to(list, anchors, welds, h, input)
                            == Some(pull);
                    assert(assembly::pull_to(list, anchors, welds, h, input) == Some(pull));
                } else {
                    assert(more[i - before.len()] == pull);
                    assert(more.contains(pull));
                    let input = choose|input: int|
                        0 <= input < list.gates@[g].inputs@.len() && #[trigger] assembly::pull_to(
                            list,
                            anchors,
                            welds,
                            g,
                            input,
                        ) == Some(pull);
                    assert(assembly::pull_to(list, anchors, welds, g, input) == Some(pull));
                }
            }
            if exists|h: int, input: int|
                0 <= h < count && 0 <= input < list.gates@[h].inputs@.len()
                    && #[trigger] assembly::pull_to(list, anchors, welds, h, input) == Some(
                    pull,
                ) {
                let (h, input) = choose|h: int, input: int|
                    0 <= h < count && 0 <= input < list.gates@[h].inputs@.len()
                        && #[trigger] assembly::pull_to(list, anchors, welds, h, input) == Some(
                        pull,
                    );
                if h < g {
                    assert(before.contains(pull));
                    let i = choose|i: int| 0 <= i < before.len() && before[i] == pull;
                    assert(pulls[i] == pull);
                } else {
                    assert(assembly::pull_to(list, anchors, welds, g, input) == Some(pull));
                    assert(more.contains(pull));
                    let i = choose|i: int| 0 <= i < more.len() && more[i] == pull;
                    assert(pulls[before.len() + i] == pull);
                }
            }
        }
    }
}

proof fn lemma_a_spring_of_a_gate(
    list: Netlist,
    anchors: Seq<usize>,
    welds: Seq<Weld>,
    g: int,
    count: nat,
)
    ensures
        ({
            let pulls = assembly::gate_pulls(list, anchors, welds, g, count);
            forall|pull: Pull| #[trigger]
                pulls.contains(pull) <==> exists|input: int|
                    0 <= input < count && #[trigger] assembly::pull_to(
                        list,
                        anchors,
                        welds,
                        g,
                        input,
                    ) == Some(pull)
        }),
    decreases count,
{
    if count > 0 {
        lemma_a_spring_of_a_gate(list, anchors, welds, g, (count - 1) as nat);
        let before = assembly::gate_pulls(list, anchors, welds, g, (count - 1) as nat);
        let pulls = assembly::gate_pulls(list, anchors, welds, g, count);
        let last = assembly::pull_to(list, anchors, welds, g, count - 1);
        assert forall|pull: Pull| #[trigger] pulls.contains(pull) <==> exists|input: int|
            0 <= input < count && #[trigger] assembly::pull_to(list, anchors, welds, g, input)
                == Some(pull) by {
            if pulls.contains(pull) {
                let i = choose|i: int| 0 <= i < pulls.len() && pulls[i] == pull;
                if i < before.len() {
                    assert(before[i] == pull);
                    assert(before.contains(pull));
                } else {
                    assert(last == Some(pull));
                }
            }
            if before.contains(pull) {
                let i = choose|i: int| 0 <= i < before.len() && before[i] == pull;
                assert(pulls[i] == pull);
            }
            if last == Some(pull) {
                assert(pulls[before.len() as int] == pull);
            }
        }
    }
}

/// The node stands for a declared input of the name.
pub open spec fn is_lever_of(graph: PrimitiveGraph, node: int, name: Seq<char>) -> bool {
    graph.nodes@[node].provenance matches Provenance::PrimaryInput { name: declared } && declared@
        == name
}

/// The lever of an input is the first node that stands for it.
pub proof fn lemma_the_lever_of_an_input(graph: PrimitiveGraph, name: Seq<char>, from: int)
    requires
        0 <= from,
    ensures
        match assembly::lever_of(graph, name, from) {
            Some(node) => {
                &&& from <= node < graph.nodes@.len()
                &&& is_lever_of(graph, node, name)
                &&& forall|other: int|
                    from <= other < node ==> !(#[trigger] is_lever_of(graph, other, name))
            },
            None => forall|node: int|
                from <= node < graph.nodes@.len() ==> !(#[trigger] is_lever_of(
                    graph,
                    node,
                    name,
                )),
        },
    decreases graph.nodes@.len() - from,
{
    if from < graph.nodes@.len() {
        if !is_lever_of(graph, from, name) {
            lemma_the_lever_of_an_input(graph, name, from + 1);
        }
    }
}

/// A gate is placed by a junction if it is a merge and else by its first component, which
/// reads the inputs of its gate and drives the output, and faces north.
pub proof fn lemma_what_a_gate_is_placed_by(
    list: Netlist,
    graph: PrimitiveGraph,
    start: Seq<Position>,
    pinned: Seq<(String, Position)>,
    g: int,
)
    requires
        0 <= g <= usize::MAX,
    ensures
        ({
            let body = assembly::anchor_body_of(list, graph, start, pinned, g);
            let gate = list.gates@[g];
            &&& body.what is Junction <==> gate.kind is Or
            &&& body.what matches BodyKind::Junction { gate: own } ==> own == g
            &&& body.what matches BodyKind::Primitive { node, kind } ==> node
                == graph.gate_nodes@[g]@[0] && kind == graph.nodes@[node as int].kind
            &&& body.inputs.len() == gate.inputs@.len()
            &&& forall|i: int|
                0 <= i < gate.inputs@.len() ==> #[trigger] body.inputs[i] == gate.inputs@[i]@
            &&& body.output == Some(gate.output@)
            &&& body.facing is North
        }),
{
}

/// A gate is refused exactly if it has more inputs than a cell has faces, or is no merge
/// and has no component, or one that cannot be placed.
pub proof fn lemma_which_gates_are_refused(
    list: Netlist,
    graph: PrimitiveGraph,
    catalogue: Catalogue,
    g: int,
)
    ensures
        assembly::gate_refusal(list, graph, catalogue, g) is None <==> {
            let gate = list.gates@[g];
            let nodes = graph.gate_nodes@[g]@;
            &&& gate.inputs@.len() <= catalogue.frames@[0].inputs@.len()
            &&& gate.kind is Or || (nodes.len() > 0 && catalogue.of(
                graph.nodes@[nodes[0] as int].kind,
            )@.len() > 0)
        },
{
}

/// The input whose branch a node isolates.
pub open spec fn isolates(graph: PrimitiveGraph, node: usize) -> Option<usize> {
    match graph.nodes@[node as int].provenance {
        Provenance::Gate { gate, role: TemplateNode::IsolatingRepeater(input) } => Some(input),
        _ => None,
    }
}

/// How many of the nodes of a merge, from one on, isolate a branch.
pub open spec fn isolating(graph: PrimitiveGraph, nodes: Seq<usize>, from: nat) -> nat
    decreases nodes.len() - from,
{
    if from >= nodes.len() {
        0
    } else {
        isolating(graph, nodes, from + 1) + (if isolates(graph, nodes[from as int]) is Some {
            1nat
        } else {
            0
        })
    }
}

/// A body is a repeater in the socket of an input of a merge: one step from the junction on
/// the side of the input, which it alone reads, and pinned as the junction is.
pub open spec fn is_branch(
    body: BodyView,
    weld: Weld,
    number: int,
    list: Netlist,
    catalogue: Catalogue,
    junction: BodyView,
    junction_number: usize,
    g: int,
) -> bool {
    &&& weld matches Weld::AtSocket { repeater, junction: held, input_index }
    &&& repeater == number
    &&& held == junction_number
    &&& body.what is Primitive
    &&& body.output is None
    &&& body.inputs == seq![list.gates@[g].inputs@[input_index as int]@]
    &&& body.pinned == junction.pinned
    &&& body.facing is North
    &&& assembly::inner(junction.position) ==> junction.position.steps_to(
        catalogue.frames@[0].inputs@[input_index as int],
        body.position,
    )
}

/// A merge has one repeater for each node that isolates a branch, in the socket of the
/// branch's input and welded there.
pub proof fn lemma_the_branches_of_a_merge(
    so_far: Assembly,
    own: Seq<usize>,
    list: Netlist,
    graph: PrimitiveGraph,
    catalogue: Catalogue,
    junction: BodyView,
    g: int,
    from: nat,
)
    requires
        own.len() > 0,
        from <= graph.gate_nodes@[g]@.len(),
        so_far.bodies.len() + graph.gate_nodes@[g]@.len() - from <= usize::MAX,
        assembly::branches(so_far, own, list, graph, catalogue, junction, g, from) is Ok,
    ensures
        ({
            let (next, all) = assembly::branches(
                so_far,
                own,
                list,
                graph,
                catalogue,
                junction,
                g,
                from,
            )->Ok_0;
            let added = isolating(graph, graph.gate_nodes@[g]@, from);
            let bodies = so_far.bodies.len();
            let welds = so_far.welds.len();
            &&& next.bodies.len() == bodies + added
            &&& next.welds.len() == welds + added
            &&& all.len() == own.len() + added
            &&& next.bodies.take(bodies as int) == so_far.bodies
            &&& next.welds.take(welds as int) == so_far.welds
            &&& all.take(own.len() as int) == own
            &&& forall|i: int|
                0 <= i < added ==> is_branch(
                    #[trigger] next.bodies[bodies + i],
                    next.welds[welds + i],
                    bodies + i,
                    list,
                    catalogue,
                    junction,
                    own[0],
                    g,
                )
            &&& forall|i: int| 0 <= i < added ==> #[trigger] all[own.len() + i] == bodies + i
        }),
    decreases graph.gate_nodes@[g]@.len() - from,
{
    let nodes = graph.gate_nodes@[g]@;
    if from < nodes.len() {
        let node = nodes[from as int];
        let kind = graph.nodes@[node as int].kind;
        let gate = list.gates@[g];
        match isolates(graph, node) {
            None => {
                lemma_the_branches_of_a_merge(
                    so_far,
                    own,
                    list,
                    graph,
                    catalogue,
                    junction,
                    g,
                    from + 1,
                );
            },
            Some(input) => {
                let number = so_far.bodies.len() as usize;
                let body = BodyView {
                    what: BodyKind::Primitive { node, kind },
                    position: assembly::beside(
                        junction.position,
                        catalogue.frame(CellFacing::North).inputs@[input as int],
                    ),
                    inputs: seq![gate.inputs@[input as int]@],
                    output: None,
                    facing: CellFacing::North,
                    pinned: junction.pinned,
                };
                let weld = Weld::AtSocket {
                    repeater: number,
                    junction: own[0],
                    input_index: input,
                };
                let more = Assembly {
                    bodies: so_far.bodies.push(body),
                    welds: so_far.welds.push(weld),
                    ..so_far
                };
                lemma_the_branches_of_a_merge(
                    more,
                    own.push(number),
                    list,
                    graph,
                    catalogue,
                    junction,
                    g,
                    from + 1,
                );
                let (next, all) = assembly::branches(
                    so_far,
                    own,
                    list,
                    graph,
                    catalogue,
                    junction,
                    g,
                    from,
                )->Ok_0;
                let bodies = so_far.bodies.len();
                let welds = so_far.welds.len();
                let added = isolating(graph, nodes, from);
                let rest = isolating(graph, nodes, from + 1);
                assert(assembly::branches(
                    more,
                    own.push(number),
                    list,
                    graph,
                    catalogue,
                    junction,
                    g,
                    from + 1,
                )->Ok_0 == (next, all));
                assert(next.bodies.take(bodies as int + 1)[bodies as int] == body);
                assert(next.welds.take(welds as int + 1)[welds as int] == weld);
                assert(all.take(own.len() as int + 1)[own.len() as int] == number);
                assert(next.bodies.take(bodies as int) =~= next.bodies.take(
                    bodies as int + 1,
                ).take(bodies as int));
                assert(more.bodies.take(bodies as int) =~= so_far.bodies);
                assert(next.welds.take(welds as int) =~= next.welds.take(welds as int + 1).take(
                    welds as int,
                ));
                assert(more.welds.take(welds as int) =~= so_far.welds);
                assert(all.take(own.len() as int) =~= all.take(own.len() as int + 1).take(
                    own.len() as int,
                ));
                assert(own.push(number).take(own.len() as int) =~= own);
                assert forall|i: int| 0 <= i < added implies is_branch(
                    #[trigger] next.bodies[bodies + i],
                    next.welds[welds + i],
                    bodies + i,
                    list,
                    catalogue,
                    junction,
                    own[0],
                    g,
                ) by {
                    if i > 0 {
                        let j = i - 1;
                        assert(next.bodies[bodies + 1 + j] == next.bodies[bodies + i]);
                        assert(next.welds[welds + 1 + j] == next.welds[welds + i]);
                    } else {
                        assert(next.bodies[bodies as int] == body);
                        assert(next.welds[welds as int] == weld);
                    }
                }
                assert forall|i: int| 0 <= i < added implies #[trigger] all[own.len() + i]
                    == bodies + i by {
                    if i > 0 {
                        let j = i - 1;
                        assert(all[own.len() + 1 + j] == all[own.len() + i]);
                    } else {
                        assert(all[own.len() as int] == number);
                    }
                }
            },
        }
    } else {
        let (next, all) = assembly::branches(
            so_far,
            own,
            list,
            graph,
            catalogue,
            junction,
            g,
            from,
        )->Ok_0;
        assert(next.bodies.take(so_far.bodies.len() as int) =~= so_far.bodies);
        assert(next.welds.take(so_far.welds.len() as int) =~= so_far.welds);
        assert(all.take(own.len() as int) =~= own);
    }
}

/// Every repeater of a merge can be placed.
pub open spec fn branches_can_be_placed(
    graph: PrimitiveGraph,
    catalogue: Catalogue,
    nodes: Seq<usize>,
    from: nat,
) -> bool {
    forall|k: int|
        from <= k < nodes.len() && isolates(graph, #[trigger] nodes[k]) is Some ==> catalogue.of(
            graph.nodes@[nodes[k] as int].kind,
        )@.len() > 0
}

proof fn lemma_when_branches_can_be_placed(
    so_far: Assembly,
    own: Seq<usize>,
    list: Netlist,
    graph: PrimitiveGraph,
    catalogue: Catalogue,
    junction: BodyView,
    g: int,
    from: nat,
)
    ensures
        assembly::branches(so_far, own, list, graph, catalogue, junction, g, from) is Ok
            <==> branches_can_be_placed(graph, catalogue, graph.gate_nodes@[g]@, from),
    decreases graph.gate_nodes@[g]@.len() - from,
{
    let nodes = graph.gate_nodes@[g]@;
    if from < nodes.len() {
        let node = nodes[from as int];
        let kind = graph.nodes@[node as int].kind;
        let gate = list.gates@[g];
        match isolates(graph, node) {
            None => {
                lemma_when_branches_can_be_placed(
                    so_far,
                    own,
                    list,
                    graph,
                    catalogue,
                    junction,
                    g,
                    from + 1,
                );
            },
            Some(input) => {
                if catalogue.of(kind)@.len() > 0 {
                    let number = so_far.bodies.len() as usize;
                    let body = BodyView {
                        what: BodyKind::Primitive { node, kind },
                        position: assembly::beside(
                            junction.position,
                            catalogue.frame(CellFacing::North).inputs@[input as int],
                        ),
                        inputs: seq![gate.inputs@[input as int]@],
                        output: None,
                        facing: CellFacing::North,
                        pinned: junction.pinned,
                    };
                    let weld = Weld::AtSocket {
                        repeater: number,
                        junction: own[0],
                        input_index: input,
                    };
                    lemma_when_branches_can_be_placed(
                        Assembly {
                            bodies: so_far.bodies.push(body),
                            welds: so_far.welds.push(weld),
                            ..so_far
                        },
                        own.push(number),
                        list,
                        graph,
                        catalogue,
                        junction,
                        g,
                        from + 1,
                    );
                }
            },
        }
        assert(branches_can_be_placed(graph, catalogue, nodes, from) <==> (isolates(
            graph,
            node,
        ) is Some ==> catalogue.of(kind)@.len() > 0) && branches_can_be_placed(
            graph,
            catalogue,
            nodes,
            from + 1,
        ));
    }
}

/// A gate can be placed: it is not refused, and if it is a merge, neither are its repeaters.
pub open spec fn gate_can_be_placed(
    list: Netlist,
    graph: PrimitiveGraph,
    catalogue: Catalogue,
    g: int,
) -> bool {
    &&& assembly::gate_refusal(list, graph, catalogue, g) is None
    &&& list.gates@[g].kind is Or ==> branches_can_be_placed(
        graph,
        catalogue,
        graph.gate_nodes@[g]@,
        0,
    )
}

/// An input can be placed: it has a lever, of a kind that can be.
pub open spec fn input_can_be_placed(
    list: Netlist,
    graph: PrimitiveGraph,
    catalogue: Catalogue,
    i: int,
) -> bool {
    match assembly::lever_of(graph, list.inputs@[i]@, 0) {
        Some(node) => catalogue.of(graph.nodes@[node].kind)@.len() > 0,
        None => false,
    }
}

proof fn lemma_when_gates_can_be_placed(
    so_far: Assembly,
    list: Netlist,
    graph: PrimitiveGraph,
    start: Seq<Position>,
    pinned: Seq<(String, Position)>,
    catalogue: Catalogue,
    from: nat,
)
    ensures
        assembly::gates_assembled(so_far, list, graph, start, pinned, catalogue, from) is Ok
            <==> forall|g: int|
            from <= g < list.gates@.len() ==> #[trigger] gate_can_be_placed(
                list,
                graph,
                catalogue,
                g,
            ),
    decreases list.gates@.len() - from,
{
    if from < list.gates@.len() {
        let g = from as int;
        let anchor = assembly::anchor_body_of(list, graph, start, pinned, g);
        let own = seq![so_far.bodies.len() as usize];
        let begun = Assembly { bodies: so_far.bodies.push(anchor), ..so_far };
        if assembly::gate_refusal(list, graph, catalogue, g) is Some {
            assert(!gate_can_be_placed(list, graph, catalogue, g));
        } else if list.gates@[g].kind is Or {
            lemma_when_branches_can_be_placed(
                begun,
                own,
                list,
                graph,
                catalogue,
                anchor,
                g,
                0,
            );
            match assembly::branches(begun, own, list, graph, catalogue, anchor, g, 0) {
                Err(_) => {
                    assert(!gate_can_be_placed(list, graph, catalogue, g));
                },
                Ok((next, all)) => {
                    assert(gate_can_be_placed(list, graph, catalogue, g));
                    lemma_when_gates_can_be_placed(
                        assembly::with_node(next, all),
                        list,
                        graph,
                        start,
                        pinned,
                        catalogue,
                        from + 1,
                    );
                },
            }
        } else {
            assert(gate_can_be_placed(list, graph, catalogue, g));
            lemma_when_gates_can_be_placed(
                assembly::with_node(begun, own),
                list,
                graph,
                start,
                pinned,
                catalogue,
                from + 1,
            );
        }
    }
}

proof fn lemma_when_inputs_can_be_placed(
    so_far: Assembly,
    list: Netlist,
    graph: PrimitiveGraph,
    start: Seq<Position>,
    pinned: Seq<(String, Position)>,
    catalogue: Catalogue,
    from: nat,
)
    ensures
        assembly::inputs_assembled(so_far, list, graph, start, pinned, catalogue, from) is Ok
            <==> forall|i: int|
            from <= i < list.inputs@.len() ==> #[trigger] input_can_be_placed(
                list,
                graph,
                catalogue,
                i,
            ),
    decreases list.inputs@.len() - from,
{
    if from < list.inputs@.len() {
        let name = list.inputs@[from as int]@;
        if input_can_be_placed(list, graph, catalogue, from as int) {
            let node = assembly::lever_of(graph, name, 0)->0;
            let body = BodyView {
                what: BodyKind::Primitive { node: node as usize, kind: graph.nodes@[node].kind },
                position: assembly::start_of(
                    pinned,
                    start,
                    name,
                    (list.gates@.len() + from) as int,
                ),
                inputs: seq![],
                output: Some(name),
                facing: CellFacing::North,
                pinned: circuit::position_of(pinned, name) is Some,
            };
            lemma_when_inputs_can_be_placed(
                assembly::with_node(
                    Assembly { bodies: so_far.bodies.push(body), ..so_far },
                    seq![so_far.bodies.len() as usize],
                ),
                list,
                graph,
                start,
                pinned,
                catalogue,
                from + 1,
            );
        }
    }
}

/// A circuit can be built exactly if every gate of it can be placed and every declared
/// input.
pub proof fn lemma_when_a_circuit_can_be_built(
    list: Netlist,
    graph: PrimitiveGraph,
    start: Seq<Position>,
    pinned: Seq<(String, Position)>,
    catalogue: Catalogue,
)
    ensures
        assembly::assembled(list, graph, start, pinned, catalogue) is Ok <==> (forall|g: int|
            0 <= g < list.gates@.len() ==> #[trigger] gate_can_be_placed(
                list,
                graph,
                catalogue,
                g,
            )) && (forall|i: int|
            0 <= i < list.inputs@.len() ==> #[trigger] input_can_be_placed(
                list,
                graph,
                catalogue,
                i,
            )),
{
    let nothing = assembly::nothing();
    lemma_when_gates_can_be_placed(nothing, list, graph, start, pinned, catalogue, 0);
    if let Ok(gates) = assembly::gates_assembled(
        nothing,
        list,
        graph,
        start,
        pinned,
        catalogue,
        0,
    ) {
        lemma_when_inputs_can_be_placed(gates, list, graph, start, pinned, catalogue, 0);
    }
}

} // verus!
