//! Assembles the bodies of a circuit.

use crate::compile::circuit;
use crate::compile::netlist;
use crate::compile::netlist::{Gate, Netlist};
use crate::compile::primitive_graph::{PrimitiveGraph, Provenance};
use crate::compile::relax::bodies;
use crate::compile::relax::bodies::{
    Attach, Body, BodyGraph, BodyKind, BodyView, Catalogue, CellFacing, PortKind, Pull, Weld,
};
use crate::compile::topology::{Primitive, TemplateNode};
use crate::redstone::position;
use crate::redstone::position::Position;
use crate::text;
use vstd::prelude::*;

verus! {

/// Bodies as far as they have been assembled.
#[verifier::ext_equal]
pub struct Assembly {
    pub bodies: Seq<BodyView>,
    /// The bodies of each gate or input so far.
    pub nodes: Seq<Seq<usize>>,
    /// The body that each is placed by.
    pub anchors: Seq<usize>,
    pub welds: Seq<Weld>,
}

pub open spec fn primitive_name(kind: Primitive) -> Seq<char> {
    match kind {
        Primitive::Torch => "Torch"@,
        Primitive::Repeater => "Repeater"@,
        Primitive::Comparator => "Comparator"@,
        Primitive::Lever => "Lever"@,
        Primitive::Lamp => "Lamp"@,
    }
}

fn name_of(kind: Primitive) -> (name: &'static str)
    ensures
        name@ == primitive_name(kind),
{
    match kind {
        Primitive::Torch => "Torch",
        Primitive::Repeater => "Repeater",
        Primitive::Comparator => "Comparator",
        Primitive::Lever => "Lever",
        Primitive::Lamp => "Lamp",
    }
}

/// How many inputs a cell has room for.
pub open spec fn faces(catalogue: Catalogue) -> nat {
    catalogue.frame(CellFacing::North).inputs@.len()
}

/// Where a gate or an input begins: where it is pinned, or else at its start.
pub open spec fn start_of(
    pinned: Seq<(String, Position)>,
    start: Seq<Position>,
    name: Seq<char>,
    node: int,
) -> Position {
    match circuit::position_of(pinned, name) {
        Some(cell) => cell,
        None => start[node],
    }
}

/// The neighbour of a cell in a direction.
pub open spec fn beside(cell: Position, direction: crate::redstone::block::Facing) -> Position {
    Position {
        x: (cell.x + position::step(direction).0) as i32,
        y: (cell.y + position::step(direction).1) as i32,
        z: (cell.z + position::step(direction).2) as i32,
    }
}

pub open spec fn no_variants(what: Seq<char>, name: Seq<char>, kind: Primitive) -> Seq<char> {
    what + name + "` needs a `"@ + primitive_name(kind) + "`, which has no physical variants"@
}

pub open spec fn branch_without_variants(
    name: Seq<char>,
    input: usize,
    kind: Primitive,
) -> Seq<char> {
    "gate `"@ + name + "`'s branch "@ + text::decimal(input as nat) + (" needs a `"@
        + primitive_name(kind) + "`, which has no physical variants"@)
}

/// The body that a gate is placed by.
pub open spec fn anchor_body_of(
    list: Netlist,
    graph: PrimitiveGraph,
    start: Seq<Position>,
    pinned: Seq<(String, Position)>,
    g: int,
) -> BodyView {
    let gate = list.gates@[g];
    BodyView {
        what: if gate.kind is Or {
            BodyKind::Junction { gate: g as usize }
        } else {
            let node = graph.gate_nodes@[g]@[0];
            BodyKind::Primitive { node, kind: graph.nodes@[node as int].kind }
        },
        position: start_of(pinned, start, gate.output@, g),
        inputs: netlist::texts(gate.inputs@),
        output: Some(gate.output@),
        facing: CellFacing::North,
        pinned: circuit::position_of(pinned, gate.output@) is Some,
    }
}

/// Why a gate cannot be placed, if it cannot.
pub open spec fn gate_refusal(
    list: Netlist,
    graph: PrimitiveGraph,
    catalogue: Catalogue,
    g: int,
) -> Option<Seq<char>> {
    let gate = list.gates@[g];
    if gate.inputs@.len() > faces(catalogue) {
        Some(
            "gate `"@ + gate.output@ + "` declares "@ + text::decimal(gate.inputs@.len()) + (
            " inputs, and a gate cell has only "@ + text::decimal(faces(catalogue))
                + " input faces"@),
        )
    } else if gate.kind is Or {
        None
    } else if graph.gate_nodes@[g]@.len() == 0 {
        Some("gate `"@ + gate.output@ + "` instantiated no primitive"@)
    } else {
        let kind = graph.nodes@[graph.gate_nodes@[g]@[0] as int].kind;
        if catalogue.of(kind)@.len() == 0 {
            Some(no_variants("gate `"@, gate.output@, kind))
        } else {
            None
        }
    }
}

/// The input whose branch a node isolates, if it isolates one.
pub open spec fn branch_of(provenance: Provenance) -> Option<usize> {
    match provenance {
        Provenance::Gate { gate, role: TemplateNode::IsolatingRepeater(input) } => Some(input),
        _ => None,
    }
}

/// The repeaters of a merge, from one node on: each a body in the socket of its
/// input, welded there.
pub open spec fn branches(
    so_far: Assembly,
    own: Seq<usize>,
    list: Netlist,
    graph: PrimitiveGraph,
    catalogue: Catalogue,
    junction: BodyView,
    g: int,
    from: nat,
) -> Result<(Assembly, Seq<usize>), Seq<char>>
    decreases graph.gate_nodes@[g]@.len() - from,
{
    if from >= graph.gate_nodes@[g]@.len() {
        Ok((so_far, own))
    } else {
        let node = graph.gate_nodes@[g]@[from as int];
        let kind = graph.nodes@[node as int].kind;
        let gate = list.gates@[g];
        match branch_of(graph.nodes@[node as int].provenance) {
            None => branches(so_far, own, list, graph, catalogue, junction, g, from + 1),
            Some(input) => if catalogue.of(kind)@.len() == 0 {
                Err(branch_without_variants(gate.output@, input, kind))
            } else {
                let body = BodyView {
                    what: BodyKind::Primitive { node, kind },
                    position: beside(
                        junction.position,
                        catalogue.frame(CellFacing::North).inputs@[input as int],
                    ),
                    inputs: seq![gate.inputs@[input as int]@],
                    output: None,
                    facing: CellFacing::North,
                    pinned: junction.pinned,
                };
                let number = so_far.bodies.len() as usize;
                branches(
                    Assembly {
                        bodies: so_far.bodies.push(body),
                        welds: so_far.welds.push(
                            Weld::AtSocket {
                                repeater: number,
                                junction: own[0],
                                input_index: input,
                            },
                        ),
                        ..so_far
                    },
                    own.push(number),
                    list,
                    graph,
                    catalogue,
                    junction,
                    g,
                    from + 1,
                )
            },
        }
    }
}

/// One more gate or input, whose bodies are known.
pub open spec fn with_node(so_far: Assembly, own: Seq<usize>) -> Assembly {
    Assembly { nodes: so_far.nodes.push(own), anchors: so_far.anchors.push(own[0]), ..so_far }
}

/// The gates, from one on.
pub open spec fn gates_assembled(
    so_far: Assembly,
    list: Netlist,
    graph: PrimitiveGraph,
    start: Seq<Position>,
    pinned: Seq<(String, Position)>,
    catalogue: Catalogue,
    from: nat,
) -> Result<Assembly, Seq<char>>
    decreases list.gates@.len() - from,
{
    if from >= list.gates@.len() {
        Ok(so_far)
    } else {
        let g = from as int;
        match gate_refusal(list, graph, catalogue, g) {
            Some(message) => Err(message),
            None => {
                let anchor = anchor_body_of(list, graph, start, pinned, g);
                let own = seq![so_far.bodies.len() as usize];
                let begun = Assembly { bodies: so_far.bodies.push(anchor), ..so_far };
                if list.gates@[g].kind is Or {
                    match branches(begun, own, list, graph, catalogue, anchor, g, 0) {
                        Err(message) => Err(message),
                        Ok((next, all)) => gates_assembled(
                            with_node(next, all),
                            list,
                            graph,
                            start,
                            pinned,
                            catalogue,
                            from + 1,
                        ),
                    }
                } else {
                    gates_assembled(
                        with_node(begun, own),
                        list,
                        graph,
                        start,
                        pinned,
                        catalogue,
                        from + 1,
                    )
                }
            },
        }
    }
}

/// The first node, from one on, that stands for a declared input.
pub open spec fn lever_of(graph: PrimitiveGraph, name: Seq<char>, from: int) -> Option<int>
    decreases graph.nodes@.len() - from,
{
    if from < 0 || from >= graph.nodes@.len() {
        None
    } else {
        match graph.nodes@[from].provenance {
            Provenance::PrimaryInput { name: declared } => if declared@ == name {
                Some(from)
            } else {
                lever_of(graph, name, from + 1)
            },
            _ => lever_of(graph, name, from + 1),
        }
    }
}

/// The inputs, from one on.
pub open spec fn inputs_assembled(
    so_far: Assembly,
    list: Netlist,
    graph: PrimitiveGraph,
    start: Seq<Position>,
    pinned: Seq<(String, Position)>,
    catalogue: Catalogue,
    from: nat,
) -> Result<Assembly, Seq<char>>
    decreases list.inputs@.len() - from,
{
    if from >= list.inputs@.len() {
        Ok(so_far)
    } else {
        let name = list.inputs@[from as int]@;
        match lever_of(graph, name, 0) {
            None => Err("declared input `"@ + name + "` has no lever"@),
            Some(node) => {
                let kind = graph.nodes@[node].kind;
                if catalogue.of(kind)@.len() == 0 {
                    Err(no_variants("declared input `"@, name, kind))
                } else {
                    let body = BodyView {
                        what: BodyKind::Primitive { node: node as usize, kind },
                        position: start_of(pinned, start, name, (list.gates@.len() + from) as int),
                        inputs: seq![],
                        output: Some(name),
                        facing: CellFacing::North,
                        pinned: circuit::position_of(pinned, name) is Some,
                    };
                    let own = seq![so_far.bodies.len() as usize];
                    inputs_assembled(
                        with_node(
                            Assembly { bodies: so_far.bodies.push(body), ..so_far },
                            own,
                        ),
                        list,
                        graph,
                        start,
                        pinned,
                        catalogue,
                        from + 1,
                    )
                }
            },
        }
    }
}

pub open spec fn nothing() -> Assembly {
    Assembly { bodies: seq![], nodes: seq![], anchors: seq![], welds: seq![] }
}

/// All bodies of a circuit: those of its gates, then those of its inputs.
pub open spec fn assembled(
    list: Netlist,
    graph: PrimitiveGraph,
    start: Seq<Position>,
    pinned: Seq<(String, Position)>,
    catalogue: Catalogue,
) -> Result<Assembly, Seq<char>> {
    match gates_assembled(nothing(), list, graph, start, pinned, catalogue, 0) {
        Err(message) => Err(message),
        Ok(gates) => inputs_assembled(gates, list, graph, start, pinned, catalogue, 0),
    }
}

/// What drives a signal, by its place among the gates and then the inputs: the
/// last of the first `count` that goes by its name.
pub open spec fn producer(list: Netlist, name: Seq<char>, count: nat) -> Option<int>
    decreases count,
{
    if count == 0 {
        None
    } else if node_name(list, count - 1) == name {
        Some(count - 1)
    } else {
        producer(list, name, (count - 1) as nat)
    }
}

/// The signal of a gate or an input.
pub open spec fn node_name(list: Netlist, node: int) -> Seq<char> {
    if node < list.gates@.len() {
        list.gates@[node].output@
    } else {
        list.inputs@[node - list.gates@.len()]@
    }
}

/// The repeater that is welded into a socket, from one weld on.
pub open spec fn welded_at(welds: Seq<Weld>, body: usize, input: usize, from: int) -> Option<usize>
    decreases welds.len() - from,
{
    if from < 0 || from >= welds.len() {
        None
    } else {
        match welds[from] {
            Weld::AtSocket { repeater, junction, input_index } => if junction == body
                && input_index == input {
                Some(repeater)
            } else {
                welded_at(welds, body, input, from + 1)
            },
            _ => welded_at(welds, body, input, from + 1),
        }
    }
}

/// The spring to an input of a gate: from the pin of what drives it to its socket,
/// or to the back of the repeater that stands in the socket.
pub open spec fn pull_to(
    list: Netlist,
    anchors: Seq<usize>,
    welds: Seq<Weld>,
    g: int,
    input: int,
) -> Option<Pull> {
    let signal = list.gates@[g].inputs@[input]@;
    match producer(list, signal, list.gates@.len() + list.inputs@.len()) {
        None => None,
        Some(node) => Some(
            Pull {
                from: (anchors[node], Attach::Pin),
                to: match welded_at(welds, anchors[g], input as usize, 0) {
                    Some(repeater) => (repeater, Attach::Port(PortKind::RepeaterRear)),
                    None => (anchors[g], Attach::Socket(input as usize)),
                },
            },
        ),
    }
}

/// The springs to the first `count` inputs of a gate.
pub open spec fn gate_pulls(
    list: Netlist,
    anchors: Seq<usize>,
    welds: Seq<Weld>,
    g: int,
    count: nat,
) -> Seq<Pull>
    decreases count,
{
    if count == 0 {
        seq![]
    } else {
        let before = gate_pulls(list, anchors, welds, g, (count - 1) as nat);
        match pull_to(list, anchors, welds, g, count - 1) {
            Some(pull) => before.push(pull),
            None => before,
        }
    }
}

/// The springs to the first `count` gates.
pub open spec fn all_pulls(
    list: Netlist,
    anchors: Seq<usize>,
    welds: Seq<Weld>,
    count: nat,
) -> Seq<Pull>
    decreases count,
{
    if count == 0 {
        seq![]
    } else {
        all_pulls(list, anchors, welds, (count - 1) as nat) + gate_pulls(
            list,
            anchors,
            welds,
            count - 1,
            list.gates@[count - 1].inputs@.len(),
        )
    }
}

/// A cell whose neighbours have coordinates too.
pub open spec fn inner(cell: Position) -> bool {
    &&& i32::MIN < cell.x < i32::MAX
    &&& i32::MIN < cell.y < i32::MAX
    &&& i32::MIN < cell.z < i32::MAX
}

/// The graph is that of the netlist, and every start has neighbours.
pub open spec fn expanded(
    list: Netlist,
    graph: PrimitiveGraph,
    start: Seq<Position>,
    pinned: Seq<(String, Position)>,
    catalogue: Catalogue,
) -> bool {
    &&& catalogue.wf()
    &&& start.len() == list.gates@.len() + list.inputs@.len()
    &&& forall|i: int| 0 <= i < start.len() ==> inner(#[trigger] start[i])
    &&& forall|i: int| 0 <= i < pinned.len() ==> inner((#[trigger] pinned[i]).1)
    &&& graph.gate_nodes@.len() >= list.gates@.len()
    &&& forall|g: int, k: int|
        0 <= g < list.gates@.len() && 0 <= k < graph.gate_nodes@[g]@.len() ==> {
            let node = #[trigger] graph.gate_nodes@[g]@[k];
            &&& node < graph.nodes@.len()
            &&& branch_of(graph.nodes@[node as int].provenance) matches Some(input) ==> input
                < list.gates@[g].inputs@.len()
        }
}

/// Bodies as far as they have been assembled.
struct Progress {
    bodies: Vec<Body>,
    nodes: Vec<Vec<usize>>,
    anchors: Vec<usize>,
    welds: Vec<Weld>,
}

impl Progress {
    spec fn view(&self) -> Assembly {
        Assembly {
            bodies: bodies::body_views(self.bodies@),
            nodes: member_lists(self.nodes@),
            anchors: self.anchors@,
            welds: self.welds@,
        }
    }

    fn add_body(&mut self, body: Body) -> (number: usize)
        ensures
            number == old(self)@.bodies.len(),
            final(self)@ == (Assembly {
                bodies: old(self)@.bodies.push(body@),
                ..old(self)@
            }),
    {
        let number: usize = self.bodies.len();
        self.bodies.push(body);
        assert(self@ =~= (Assembly { bodies: old(self)@.bodies.push(body@), ..old(self)@ }));
        number
    }

    fn add_node(&mut self, own: Vec<usize>)
        requires
            own@.len() > 0,
        ensures
            final(self)@ == with_node(old(self)@, own@),
    {
        self.anchors.push(own[0]);
        self.nodes.push(own);
        assert(self@ =~= with_node(old(self)@, own@));
    }
}

/// Where a pinned signal stands, or where it would start.
fn start_at(
    pinned: &Vec<(String, Position)>,
    start: &Vec<Position>,
    name: &str,
    node: usize,
) -> (found: (Position, bool))
    requires
        node < start@.len(),
        forall|i: int| 0 <= i < start@.len() ==> inner(#[trigger] start@[i]),
        forall|i: int| 0 <= i < pinned@.len() ==> inner((#[trigger] pinned@[i]).1),
    ensures
        found.0 == start_of(pinned@, start@, name@, node as int),
        found.1 == (circuit::position_of(pinned@, name@) is Some),
        inner(found.0),
{
    proof {
        lemma_found_is_pinned(pinned@, name@, 0);
    }
    match circuit::find_position(pinned, name) {
        Some(cell) => (cell, true),
        None => (start[node], false),
    }
}

proof fn lemma_found_is_pinned(list: Seq<(String, Position)>, name: Seq<char>, from: int)
    requires
        forall|i: int| 0 <= i < list.len() ==> inner((#[trigger] list[i]).1),
    ensures
        circuit::position_from(list, name, from) matches Some(cell) ==> inner(cell),
    decreases list.len() - from,
{
    if 0 <= from < list.len() {
        lemma_found_is_pinned(list, name, from + 1);
    }
}

/// Why a gate cannot be placed, if it cannot.
fn refusal(list: &Netlist, graph: &PrimitiveGraph, catalogue: &Catalogue, g: usize) -> (found:
    Option<String>)
    requires
        g < list.gates@.len() <= graph.gate_nodes@.len(),
        catalogue.wf(),
        forall|k: int|
            0 <= k < graph.gate_nodes@[g as int]@.len() ==> (
            #[trigger] graph.gate_nodes@[g as int]@[k]) < graph.nodes@.len(),
    ensures
        match found {
            Some(message) => gate_refusal(*list, *graph, *catalogue, g as int) == Some(message@),
            None => gate_refusal(*list, *graph, *catalogue, g as int) is None,
        },
{
    let gate: &Gate = &list.gates[g];
    let name: &str = gate.output.as_str();
    let room: usize = catalogue.frames[0].inputs.len();
    if gate.inputs.len() > room {
        let inputs: String = text::decimal_text(gate.inputs.len() as u64);
        let faces: String = text::decimal_text(room as u64);
        let rest: String = text::glue3(
            " inputs, and a gate cell has only ",
            faces.as_str(),
            " input faces",
        );
        return Some(
            text::glue5("gate `", name, "` declares ", inputs.as_str(), rest.as_str()),
        );
    }
    if gate.is_merge() {
        return None;
    }
    if graph.gate_nodes[g].len() == 0 {
        return Some(text::glue3("gate `", name, "` instantiated no primitive"));
    }
    let node: usize = graph.gate_nodes[g][0];
    let kind: Primitive = graph.nodes[node].kind;
    if catalogue.variants(kind).len() == 0 {
        return Some(
            text::glue5(
                "gate `",
                name,
                "` needs a `",
                name_of(kind),
                "`, which has no physical variants",
            ),
        );
    }
    None
}

/// The body that a gate is placed by.
fn anchor_for(
    list: &Netlist,
    graph: &PrimitiveGraph,
    start: &Vec<Position>,
    pinned: &Vec<(String, Position)>,
    catalogue: &Catalogue,
    g: usize,
) -> (body: Body)
    requires
        expanded(*list, *graph, start@, pinned@, *catalogue),
        g < list.gates@.len(),
        gate_refusal(*list, *graph, *catalogue, g as int) is None,
    ensures
        body@ == anchor_body_of(*list, *graph, start@, pinned@, g as int),
        inner(body.position),
{
    let gate: &Gate = &list.gates[g];
    let what: BodyKind = if gate.is_merge() {
        BodyKind::Junction { gate: g }
    } else {
        let node: usize = graph.gate_nodes[g][0];
        BodyKind::Primitive { node, kind: graph.nodes[node].kind }
    };
    let (position, fixed) = start_at(pinned, start, gate.output.as_str(), g);
    Body {
        what,
        position,
        inputs: bodies::copy_names(&gate.inputs),
        output: Some(gate.output.as_str().to_owned()),
        facing: CellFacing::North,
        pinned: fixed,
    }
}

/// The input whose branch a node isolates, if it isolates one.
fn isolated_input(provenance: &Provenance) -> (input: Option<usize>)
    ensures
        input == branch_of(*provenance),
{
    match provenance {
        Provenance::Gate { role: TemplateNode::IsolatingRepeater(input), .. } => Some(*input),
        _ => None,
    }
}

/// Adds the repeaters of a merge.
fn add_branches(
    progress: &mut Progress,
    own: &mut Vec<usize>,
    list: &Netlist,
    graph: &PrimitiveGraph,
    catalogue: &Catalogue,
    at: Position,
    fixed: bool,
    g: usize,
    Ghost(junction): Ghost<BodyView>,
) -> (outcome: Result<(), String>)
    requires
        g < list.gates@.len() <= graph.gate_nodes@.len(),
        catalogue.wf(),
        list.gates@[g as int].inputs@.len() <= faces(*catalogue),
        forall|k: int|
            0 <= k < graph.gate_nodes@[g as int]@.len() ==> {
                let node = #[trigger] graph.gate_nodes@[g as int]@[k];
                &&& node < graph.nodes@.len()
                &&& branch_of(graph.nodes@[node as int].provenance) matches Some(input) ==> input
                    < list.gates@[g as int].inputs@.len()
            },
        inner(at),
        junction.position == at,
        junction.pinned == fixed,
        old(own)@.len() > 0,
    ensures
        final(own)@.len() > 0,
        final(progress)@.anchors == old(progress)@.anchors,
        match outcome {
            Ok(()) => branches(
                old(progress)@,
                old(own)@,
                *list,
                *graph,
                *catalogue,
                junction,
                g as int,
                0,
            ) == Ok::<(Assembly, Seq<usize>), Seq<char>>((final(progress)@, final(own)@)),
            Err(message) => branches(
                old(progress)@,
                old(own)@,
                *list,
                *graph,
                *catalogue,
                junction,
                g as int,
                0,
            ) == Err::<(Assembly, Seq<usize>), Seq<char>>(message@),
        },
{
    let ghost goal = branches(
        progress@,
        own@,
        *list,
        *graph,
        *catalogue,
        junction,
        g as int,
        0,
    );
    let anchor: usize = own[0];
    let gate: &Gate = &list.gates[g];
    let members: &Vec<usize> = &graph.gate_nodes[g];
    let sides: &Vec<crate::redstone::block::Facing> = &catalogue.frames[0].inputs;
    let mut k: usize = 0;
    while k < members.len()
        invariant
            k <= members@.len(),
            *members == graph.gate_nodes@[g as int],
            *gate == list.gates@[g as int],
            *sides == catalogue.frame(CellFacing::North).inputs,
            gate.inputs@.len() <= sides@.len(),
            forall|j: int|
                0 <= j < members@.len() ==> {
                    let node = #[trigger] members@[j];
                    &&& node < graph.nodes@.len()
                    &&& branch_of(graph.nodes@[node as int].provenance) matches Some(
                        input,
                    ) ==> input < gate.inputs@.len()
                },
            inner(at),
            junction.position == at,
            junction.pinned == fixed,
            own@.len() > 0,
            own@[0] == anchor,
            progress@.anchors == old(progress)@.anchors,
            goal == branches(
                old(progress)@,
                old(own)@,
                *list,
                *graph,
                *catalogue,
                junction,
                g as int,
                0,
            ),
            goal == branches(
                progress@,
                own@,
                *list,
                *graph,
                *catalogue,
                junction,
                g as int,
                k as nat,
            ),
        decreases members@.len() - k,
    {
        let node: usize = members[k];
        let kind: Primitive = graph.nodes[node].kind;
        if let Some(input) = isolated_input(&graph.nodes[node].provenance) {
            if catalogue.variants(kind).len() == 0 {
                let number: String = text::decimal_text(input as u64);
                let rest: String = text::glue3(
                    " needs a `",
                    name_of(kind),
                    "`, which has no physical variants",
                );
                return Err(
                    text::glue5(
                        "gate `",
                        gate.output.as_str(),
                        "`'s branch ",
                        number.as_str(),
                        rest.as_str(),
                    ),
                );
            }
            let socket: Position = at.offset(sides[input]);
            let body: Body = Body {
                what: BodyKind::Primitive { node, kind },
                position: socket,
                inputs: bodies::one_name(gate.inputs[input].as_str()),
                output: None,
                facing: CellFacing::North,
                pinned: fixed,
            };
            let ghost before = progress@;
            let repeater: usize = progress.add_body(body);
            own.push(repeater);
            let weld: Weld = Weld::AtSocket { repeater, junction: anchor, input_index: input };
            progress.welds.push(weld);
            assert(progress@ =~= (Assembly {
                bodies: before.bodies.push(body@),
                welds: before.welds.push(weld),
                ..before
            }));
        }
        k = k + 1;
    }
    Ok(())
}

/// The node that stands for a declared input.
fn find_lever(graph: &PrimitiveGraph, name: &str) -> (found: Option<usize>)
    ensures
        match found {
            Some(node) => node < graph.nodes@.len() && lever_of(*graph, name@, 0) == Some(
                node as int,
            ),
            None => lever_of(*graph, name@, 0) is None,
        },
{
    let mut at: usize = 0;
    while at < graph.nodes.len()
        invariant
            at <= graph.nodes@.len(),
            lever_of(*graph, name@, 0) == lever_of(*graph, name@, at as int),
        decreases graph.nodes@.len() - at,
    {
        if let Provenance::PrimaryInput { name: declared } = &graph.nodes[at].provenance {
            if text::same_text(declared.as_str(), name) {
                return Some(at);
            }
        }
        at = at + 1;
    }
    None
}

/// Adds a gate.
fn add_gate(
    progress: &mut Progress,
    list: &Netlist,
    graph: &PrimitiveGraph,
    start: &Vec<Position>,
    pinned: &Vec<(String, Position)>,
    catalogue: &Catalogue,
    g: usize,
) -> (outcome: Result<(), String>)
    requires
        expanded(*list, *graph, start@, pinned@, *catalogue),
        g < list.gates@.len(),
    ensures
        outcome is Ok ==> final(progress)@.anchors.len() == old(progress)@.anchors.len() + 1,
        match outcome {
            Ok(()) => gates_assembled(
                old(progress)@,
                *list,
                *graph,
                start@,
                pinned@,
                *catalogue,
                g as nat,
            ) == gates_assembled(
                final(progress)@,
                *list,
                *graph,
                start@,
                pinned@,
                *catalogue,
                (g + 1) as nat,
            ),
            Err(message) => gates_assembled(
                old(progress)@,
                *list,
                *graph,
                start@,
                pinned@,
                *catalogue,
                g as nat,
            ) == Err::<Assembly, Seq<char>>(message@),
        },
{
    assert(forall|k: int|
        0 <= k < graph.gate_nodes@[g as int]@.len() ==> (
        #[trigger] graph.gate_nodes@[g as int]@[k]) < graph.nodes@.len());
    if let Some(message) = refusal(list, graph, catalogue, g) {
        return Err(message);
    }
    let body: Body = anchor_for(list, graph, start, pinned, catalogue, g);
    let at: Position = body.position;
    let fixed: bool = body.pinned;
    let ghost view = body@;
    let anchor: usize = progress.add_body(body);
    let mut own: Vec<usize> = vec![anchor];
    assert(own@ =~= seq![anchor]);
    if list.gates[g].is_merge() {
        match add_branches(
            progress,
            &mut own,
            list,
            graph,
            catalogue,
            at,
            fixed,
            g,
            Ghost(view),
        ) {
            Err(message) => {
                return Err(message);
            },
            Ok(()) => {},
        }
    }
    progress.add_node(own);
    Ok(())
}

/// Adds an input.
fn add_input(
    progress: &mut Progress,
    list: &Netlist,
    graph: &PrimitiveGraph,
    start: &Vec<Position>,
    pinned: &Vec<(String, Position)>,
    catalogue: &Catalogue,
    i: usize,
) -> (outcome: Result<(), String>)
    requires
        expanded(*list, *graph, start@, pinned@, *catalogue),
        i < list.inputs@.len(),
    ensures
        outcome is Ok ==> final(progress)@.anchors.len() == old(progress)@.anchors.len() + 1,
        match outcome {
            Ok(()) => inputs_assembled(
                old(progress)@,
                *list,
                *graph,
                start@,
                pinned@,
                *catalogue,
                i as nat,
            ) == inputs_assembled(
                final(progress)@,
                *list,
                *graph,
                start@,
                pinned@,
                *catalogue,
                (i + 1) as nat,
            ),
            Err(message) => inputs_assembled(
                old(progress)@,
                *list,
                *graph,
                start@,
                pinned@,
                *catalogue,
                i as nat,
            ) == Err::<Assembly, Seq<char>>(message@),
        },
{
    let name: &str = list.inputs[i].as_str();
    let node: usize = match find_lever(graph, name) {
        Some(found) => found,
        None => {
            return Err(text::glue3("declared input `", name, "` has no lever"));
        },
    };
    let kind: Primitive = graph.nodes[node].kind;
    if catalogue.variants(kind).len() == 0 {
        return Err(
            text::glue5(
                "declared input `",
                name,
                "` needs a `",
                name_of(kind),
                "`, which has no physical variants",
            ),
        );
    }
    assert(start.len() == start@.len());
    let (position, fixed) = start_at(pinned, start, name, list.gates.len() + i);
    let body: Body = Body {
        what: BodyKind::Primitive { node, kind },
        position,
        inputs: bodies::no_names(),
        output: Some(name.to_owned()),
        facing: CellFacing::North,
        pinned: fixed,
    };
    assert(body@.inputs =~= seq![]);
    let number: usize = progress.add_body(body);
    let own: Vec<usize> = vec![number];
    assert(own@ =~= seq![number]);
    progress.add_node(own);
    Ok(())
}

/// What drives a signal, by its place among the gates and then the inputs.
fn find_producer(list: &Netlist, name: &str) -> (found: Option<usize>)
    requires
        list.gates@.len() + list.inputs@.len() <= usize::MAX,
    ensures
        match found {
            Some(node) => producer(
                *list,
                name@,
                list.gates@.len() + list.inputs@.len(),
            ) == Some(node as int) && node < list.gates@.len() + list.inputs@.len(),
            None => producer(*list, name@, list.gates@.len() + list.inputs@.len()) is None,
        },
{
    let gates: usize = list.gates.len();
    let mut count: usize = gates + list.inputs.len();
    while count > 0
        invariant
            gates == list.gates@.len(),
            count <= gates + list.inputs@.len(),
            producer(*list, name@, list.gates@.len() + list.inputs@.len()) == producer(
                *list,
                name@,
                count as nat,
            ),
        decreases count,
    {
        let node: usize = count - 1;
        let known: &str = if node < gates {
            list.gates[node].output.as_str()
        } else {
            list.inputs[node - gates].as_str()
        };
        assert(known@ == node_name(*list, node as int));
        if text::same_text(known, name) {
            return Some(node);
        }
        count = node;
    }
    None
}

/// The repeater that is welded into a socket.
fn find_welded(welds: &Vec<Weld>, body: usize, input: usize) -> (found: Option<usize>)
    ensures
        found == welded_at(welds@, body, input, 0),
{
    let mut at: usize = 0;
    while at < welds.len()
        invariant
            at <= welds@.len(),
            welded_at(welds@, body, input, 0) == welded_at(welds@, body, input, at as int),
        decreases welds@.len() - at,
    {
        if let Weld::AtSocket { repeater, junction, input_index } = welds[at] {
            if junction == body && input_index == input {
                return Some(repeater);
            }
        }
        at = at + 1;
    }
    None
}

/// The springs of a circuit: one to every input of a gate that something drives.
pub fn signal_pulls(list: &Netlist, anchor_body: &Vec<usize>, welds: &Vec<Weld>) -> (pulls: Vec<
    Pull,
>)
    requires
        anchor_body@.len() == list.gates@.len() + list.inputs@.len(),
    ensures
        pulls@ == all_pulls(*list, anchor_body@, welds@, list.gates@.len()),
{
    assert(anchor_body.len() == anchor_body@.len());
    let mut pulls: Vec<Pull> = Vec::new();
    let mut g: usize = 0;
    while g < list.gates.len()
        invariant
            g <= list.gates@.len(),
            anchor_body@.len() == list.gates@.len() + list.inputs@.len() <= usize::MAX,
            pulls@ == all_pulls(*list, anchor_body@, welds@, g as nat),
        decreases list.gates@.len() - g,
    {
        let ghost before = pulls@;
        let inputs: &Vec<String> = &list.gates[g].inputs;
        let mut i: usize = 0;
        assert(pulls@ =~= before + gate_pulls(*list, anchor_body@, welds@, g as int, 0));
        while i < inputs.len()
            invariant
                g < list.gates@.len(),
                *inputs == list.gates@[g as int].inputs,
                i <= inputs@.len(),
                anchor_body@.len() == list.gates@.len() + list.inputs@.len() <= usize::MAX,
                pulls@ == before + gate_pulls(
                    *list,
                    anchor_body@,
                    welds@,
                    g as int,
                    i as nat,
                ),
            decreases inputs@.len() - i,
        {
            if let Some(node) = find_producer(list, inputs[i].as_str()) {
                let to: (usize, Attach) = match find_welded(welds, anchor_body[g], i) {
                    Some(repeater) => (repeater, Attach::Port(PortKind::RepeaterRear)),
                    None => (anchor_body[g], Attach::Socket(i)),
                };
                let pull: Pull = Pull { from: (anchor_body[node], Attach::Pin), to };
                let ghost earlier = pulls@;
                pulls.push(pull);
                assert(pulls@ =~= before + gate_pulls(
                    *list,
                    anchor_body@,
                    welds@,
                    g as int,
                    (i + 1) as nat,
                ));
            }
            i = i + 1;
        }
        g = g + 1;
    }
    pulls
}

/// The numbers of bodies that stand in for each gate and each input.
pub open spec fn member_lists(nodes: Seq<Vec<usize>>) -> Seq<Seq<usize>> {
    Seq::new(nodes.len(), |i: int| nodes[i]@)
}

/// The bodies of a circuit, where they start, and the springs and welds between
/// them. What is pinned starts at its pin, whatever `start` says.
pub fn build(
    list: &Netlist,
    graph: &PrimitiveGraph,
    start: &Vec<Position>,
    pinned: &Vec<(String, Position)>,
    catalogue: &Catalogue,
) -> (built: Result<BodyGraph, String>)
    requires
        expanded(*list, *graph, start@, pinned@, *catalogue),
    ensures
        match built {
            Ok(made) => {
                &&& assembled(*list, *graph, start@, pinned@, *catalogue) == Ok::<
                    Assembly,
                    Seq<char>,
                >(
                    (Assembly {
                        bodies: bodies::body_views(made.bodies@),
                        nodes: member_lists(made.nodes@),
                        anchors: made.anchor_body@,
                        welds: made.welds@,
                    }),
                )
                &&& made.pulls@ == all_pulls(
                    *list,
                    made.anchor_body@,
                    made.welds@,
                    list.gates@.len(),
                )
            },
            Err(reason) => assembled(*list, *graph, start@, pinned@, *catalogue) == Err::<
                Assembly,
                Seq<char>,
            >(reason@),
        },
{
    let mut progress: Progress = Progress {
        bodies: Vec::new(),
        nodes: Vec::new(),
        anchors: Vec::new(),
        welds: Vec::new(),
    };
    assert(progress@ =~= nothing());
    let mut g: usize = 0;
    while g < list.gates.len()
        invariant
            g <= list.gates@.len(),
            expanded(*list, *graph, start@, pinned@, *catalogue),
            progress.anchors@.len() == g,
            gates_assembled(nothing(), *list, *graph, start@, pinned@, *catalogue, 0)
                == gates_assembled(
                progress@,
                *list,
                *graph,
                start@,
                pinned@,
                *catalogue,
                g as nat,
            ),
        decreases list.gates@.len() - g,
    {
        match add_gate(&mut progress, list, graph, start, pinned, catalogue, g) {
            Err(reason) => {
                return Err(reason);
            },
            Ok(()) => {},
        }
        g = g + 1;
    }
    let ghost placed = progress@;
    let mut i: usize = 0;
    while i < list.inputs.len()
        invariant
            i <= list.inputs@.len(),
            expanded(*list, *graph, start@, pinned@, *catalogue),
            progress.anchors@.len() == list.gates@.len() + i,
            gates_assembled(nothing(), *list, *graph, start@, pinned@, *catalogue, 0) == Ok::<
                Assembly,
                Seq<char>,
            >(placed),
            inputs_assembled(placed, *list, *graph, start@, pinned@, *catalogue, 0)
                == inputs_assembled(
                progress@,
                *list,
                *graph,
                start@,
                pinned@,
                *catalogue,
                i as nat,
            ),
        decreases list.inputs@.len() - i,
    {
        match add_input(&mut progress, list, graph, start, pinned, catalogue, i) {
            Err(reason) => {
                return Err(reason);
            },
            Ok(()) => {},
        }
        i = i + 1;
    }
    let pulls: Vec<Pull> = signal_pulls(list, &progress.anchors, &progress.welds);
    Ok(
        BodyGraph {
            bodies: progress.bodies,
            pulls,
            welds: progress.welds,
            nodes: progress.nodes,
            anchor_body: progress.anchors,
        },
    )
}

} // verus!
