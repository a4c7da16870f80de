//! Accounts for every block of a compiled world. A block is a node of the
//! circuit's graph, or fill that routing leaves behind, or unexplained; nothing
//! is put down as fill by guesswork.

use crate::compile::cells;
use crate::compile::circuit;
use crate::compile::circuit::CompiledCircuit;
use crate::compile::netlist::Netlist;
use crate::compile::primitive_graph::{Edge, PrimitiveGraph, Provenance};
use crate::compile::topology::TemplateNode;
use crate::redstone::block::{BlockKind, Facing};
use crate::redstone::position;
use crate::redstone::position::Position;
use crate::redstone::world;
use crate::redstone::world::World;
use crate::text;
use vstd::prelude::*;

verus! {

/// A block that nothing accounts for.
#[derive(Debug, Clone, Copy, PartialEq, Eq)]
pub struct UnexplainedBlock {
    pub position: (i32, i32, i32),
    pub kind: BlockKind,
}

/// How many blocks there are of each sort, and which are unexplained.
#[derive(Debug)]
pub struct WorldPartition {
    /// Blocks that are nodes of the graph.
    pub graph_explained: usize,
    pub routing_fill_dust: usize,
    pub routing_fill_repeater: usize,
    /// Blocks that hold a torch, or something that conducts on top of them.
    pub routing_fill_support: usize,
    pub unexplained: Vec<UnexplainedBlock>,
}

/// Why a world cannot be accounted for.
#[derive(Debug, PartialEq, Eq)]
pub enum PartitionError {
    /// The netlist, the graph and the world disagree on a gate's inputs.
    GateInputArityDisagreement {
        gate: String,
        netlist_arity: usize,
        graph_arity: usize,
        world_arity: usize,
    },
    /// Two nodes stand in one place.
    DuplicateExplainedPosition { position: (i32, i32, i32) },
    /// A node stands where there is nothing.
    ExplainedPositionIsAir { position: (i32, i32, i32) },
    /// It is not known where a node stands.
    CannotResolveNodePosition { detail: String },
}

/// What a [`PartitionError`] stands for.
#[verifier::ext_equal]
pub enum Refusal {
    Arity { gate: Seq<char>, netlist_arity: nat, graph_arity: nat, world_arity: nat },
    Duplicate(Position),
    Air(Position),
    Unresolved(Seq<char>),
}

pub open spec fn triple(cell: Position) -> (i32, i32, i32) {
    (cell.x, cell.y, cell.z)
}

impl PartitionError {
    pub open spec fn is_refusal(self, refusal: Refusal) -> bool {
        match (self, refusal) {
            (
                PartitionError::GateInputArityDisagreement {
                    gate,
                    netlist_arity,
                    graph_arity,
                    world_arity,
                },
                Refusal::Arity { gate: name, netlist_arity: a, graph_arity: b, world_arity: c },
            ) => gate@ == name && netlist_arity == a && graph_arity == b && world_arity == c,
            (
                PartitionError::DuplicateExplainedPosition { position },
                Refusal::Duplicate(cell),
            ) => position == triple(cell),
            (PartitionError::ExplainedPositionIsAir { position }, Refusal::Air(cell)) => position
                == triple(cell),
            (
                PartitionError::CannotResolveNodePosition { detail },
                Refusal::Unresolved(written),
            ) => detail@ == written,
            _ => false,
        }
    }
}

pub open spec fn place_text(position: (i32, i32, i32)) -> Seq<char> {
    "("@ + text::signed_decimal(position.0 as int) + ", "@ + text::signed_decimal(
        position.1 as int,
    ) + ", "@ + (text::signed_decimal(position.2 as int) + ") }"@)
}

fn name_place(position: &(i32, i32, i32)) -> (name: String)
    ensures
        name@ == place_text(*position),
{
    let x: String = text::signed_text(position.0 as i64);
    let y: String = text::signed_text(position.1 as i64);
    let mut z: String = text::signed_text(position.2 as i64);
    z.append(") }");
    let mut name: String = text::glue5("(", x.as_str(), ", ", y.as_str(), ", ");
    name.append(z.as_str());
    name
}

impl PartitionError {
    pub open spec fn worded(self) -> Seq<char> {
        match self {
            PartitionError::GateInputArityDisagreement {
                gate,
                netlist_arity,
                graph_arity,
                world_arity,
            } => "GateInputArityDisagreement { gate: "@ + text::debug_text(gate@)
                + ", netlist_arity: "@ + text::decimal(netlist_arity as nat) + ", graph_arity: "@
                + (text::decimal(graph_arity as nat) + ", world_arity: "@ + (text::decimal(
                world_arity as nat,
            ) + " }"@)),
            PartitionError::DuplicateExplainedPosition { position } =>
                "DuplicateExplainedPosition { position: "@ + place_text(position),
            PartitionError::ExplainedPositionIsAir { position } =>
                "ExplainedPositionIsAir { position: "@ + place_text(position),
            PartitionError::CannotResolveNodePosition { detail } =>
                "CannotResolveNodePosition { detail: "@ + text::debug_text(detail@) + " }"@,
        }
    }

    /// The error as it is shown: its name, with everything that it holds.
    pub fn message(&self) -> (message: String)
        ensures
            message@ == self.worded(),
    {
        match self {
            PartitionError::GateInputArityDisagreement {
                gate,
                netlist_arity,
                graph_arity,
                world_arity,
            } => {
                let quoted: String = text::debug_quoted(gate.as_str());
                let netlist: String = text::decimal_text(*netlist_arity as u64);
                let graph: String = text::decimal_text(*graph_arity as u64);
                let mut world: String = text::decimal_text(*world_arity as u64);
                world.append(" }");
                let rest: String = text::glue3(graph.as_str(), ", world_arity: ", world.as_str());
                let mut message: String = text::glue5(
                    "GateInputArityDisagreement { gate: ",
                    quoted.as_str(),
                    ", netlist_arity: ",
                    netlist.as_str(),
                    ", graph_arity: ",
                );
                message.append(rest.as_str());
                message
            },
            PartitionError::DuplicateExplainedPosition { position } => {
                let mut message: String = "DuplicateExplainedPosition { position: ".to_owned();
                let place: String = name_place(position);
                message.append(place.as_str());
                message
            },
            PartitionError::ExplainedPositionIsAir { position } => {
                let mut message: String = "ExplainedPositionIsAir { position: ".to_owned();
                let place: String = name_place(position);
                message.append(place.as_str());
                message
            },
            PartitionError::CannotResolveNodePosition { detail } => {
                let quoted: String = text::debug_quoted(detail.as_str());
                text::glue3("CannotResolveNodePosition { detail: ", quoted.as_str(), " }")
            },
        }
    }
}

/// What is known of a circuit's gates besides its netlist: for every input of
/// every gate, how many nodes drive it in the end and whether it joins a merge
/// without a repeater; for every gate, the block that its torch is mounted on;
/// and the sides on which a gate has its inputs.
#[derive(Debug)]
pub struct Realisation {
    pub contributors: Vec<Vec<usize>>,
    pub is_bare: Vec<Vec<bool>>,
    pub supports: Vec<Option<Position>>,
    pub input_directions: Vec<Facing>,
}

/// A cell whose neighbours have coordinates too.
pub open spec fn inner(cell: Position) -> bool {
    &&& i32::MIN < cell.x < i32::MAX
    &&& i32::MIN < cell.y < i32::MAX
    &&& i32::MIN < cell.z < i32::MAX
}

/// The neighbour of a cell in a direction.
pub open spec fn beside(cell: Position, direction: Facing) -> Position {
    Position {
        x: (cell.x + position::step(direction).0) as i32,
        y: (cell.y + position::step(direction).1) as i32,
        z: (cell.z + position::step(direction).2) as i32,
    }
}

/// Every index is in range and every cell has neighbours.
pub open spec fn described(
    list: Netlist,
    graph: PrimitiveGraph,
    compiled: CompiledCircuit,
    made: Realisation,
) -> bool {
    &&& compiled.world.wf()
    &&& made.contributors@.len() == list.gates@.len()
    &&& made.is_bare@.len() == list.gates@.len()
    &&& made.supports@.len() == list.gates@.len()
    &&& forall|g: int|
        0 <= g < list.gates@.len() ==> (#[trigger] made.contributors@[g])@.len()
            == list.gates@[g].inputs@.len() && made.is_bare@[g]@.len()
            == list.gates@[g].inputs@.len() && (made.supports@[g] matches Some(support) ==> inner(
            support,
        )) && branch_sum(made, g, made.contributors@[g]@.len(), false) <= usize::MAX
    &&& forall|k: int|
        0 <= k < compiled.gate_output_positions@.len() ==> inner(
            (#[trigger] compiled.gate_output_positions@[k]).1,
        )
    &&& forall|n: int|
        0 <= n < graph.nodes@.len() ==> match (#[trigger] graph.nodes@[n]).provenance {
            Provenance::Gate { gate, role } => gate < list.gates@.len(),
            _ => true,
        }
}

/// A node that stands for a gate or for a part of one.
pub open spec fn gate_owns(graph: PrimitiveGraph, g: int, node: usize) -> bool {
    g < graph.gate_nodes@.len() && graph.gate_nodes@[g]@.contains(node)
}

/// An edge that enters a gate from outside it.
pub open spec fn enters(graph: PrimitiveGraph, g: int, edge: Edge) -> bool {
    gate_owns(graph, g, edge.to) && !gate_owns(graph, g, edge.from)
}

/// How many of the first `count` edges enter a gate.
pub open spec fn edges_in(graph: PrimitiveGraph, g: int, count: nat) -> nat
    decreases count,
{
    if count == 0 {
        0
    } else {
        edges_in(graph, g, (count - 1) as nat) + (if enters(
            graph,
            g,
            graph.edges@[count - 1],
        ) {
            1nat
        } else {
            0nat
        })
    }
}

/// A socket beside a cell holds a repeater that points away from it.
pub open spec fn is_socket(world: World, centre: Position, direction: Facing) -> bool {
    let cell = beside(centre, direction);
    let state = world.at(cell.x as int, cell.y as int, cell.z as int);
    state.kind == BlockKind::Repeater && state.facing == Some(direction)
}

/// How many of the first `count` sides of a cell have such a socket.
pub open spec fn sockets_at(
    world: World,
    centre: Position,
    directions: Seq<Facing>,
    count: nat,
) -> nat
    decreases count,
{
    if count == 0 {
        0
    } else {
        sockets_at(world, centre, directions, (count - 1) as nat) + (if is_socket(
            world,
            centre,
            directions[count - 1],
        ) {
            1nat
        } else {
            0nat
        })
    }
}

/// How many nodes drive the first `count` inputs of a gate; bare branches can be
/// left out.
pub open spec fn branch_sum(made: Realisation, g: int, count: nat, skip_bare: bool) -> nat
    decreases count,
{
    if count == 0 {
        0
    } else {
        branch_sum(made, g, (count - 1) as nat, skip_bare) + (if skip_bare
            && made.is_bare@[g]@[count - 1] {
            0nat
        } else {
            made.contributors@[g]@[count - 1] as nat
        })
    }
}

/// How many of the first `count` inputs of a gate have a repeater of their own.
pub open spec fn isolated(made: Realisation, g: int, count: nat) -> nat
    decreases count,
{
    if count == 0 {
        0
    } else {
        isolated(made, g, (count - 1) as nat) + (if made.is_bare@[g]@[count - 1] {
            0nat
        } else {
            1nat
        })
    }
}

/// What is wrong with a gate, if anything is: the edges into it must be as many
/// as the nodes that drive its inputs, and the sockets in the world as many as
/// the inputs that have one. A merge has none for a bare branch, and has its
/// sockets around its junction; any other gate has them around the block that
/// its torch is mounted on.
pub open spec fn gate_refusal(
    list: Netlist,
    graph: PrimitiveGraph,
    compiled: CompiledCircuit,
    made: Realisation,
    g: int,
) -> Option<Refusal> {
    let gate = list.gates@[g];
    let arity = gate.inputs@.len();
    let edges = edges_in(graph, g, graph.edges@.len());
    let directions = made.input_directions@;
    match circuit::position_of(compiled.gate_output_positions@, gate.output@) {
        None => Some(
            Refusal::Unresolved(
                "gate `"@ + gate.output@ + "` has no recorded torch position"@,
            ),
        ),
        Some(junction) => {
            let merges = gate.kind is Or;
            let expected_edges = branch_sum(made, g, arity, merges);
            let expected_sockets = if merges {
                isolated(made, g, arity)
            } else {
                arity
            };
            let sockets = if merges {
                sockets_at(compiled.world, junction, directions, directions.len())
            } else {
                match made.supports@[g] {
                    Some(support) => sockets_at(
                        compiled.world,
                        support,
                        directions,
                        directions.len(),
                    ),
                    None => 0,
                }
            };
            if edges != expected_edges || sockets != expected_sockets {
                Some(
                    Refusal::Arity {
                        gate: gate.output@,
                        netlist_arity: expected_sockets,
                        graph_arity: edges,
                        world_arity: sockets,
                    },
                )
            } else {
                None
            }
        },
    }
}

/// What is wrong with the first gate, from one on, that something is wrong with.
pub open spec fn arity_refusal(
    list: Netlist,
    graph: PrimitiveGraph,
    compiled: CompiledCircuit,
    made: Realisation,
    from: int,
) -> Option<Refusal>
    decreases list.gates@.len() - from,
{
    if from < 0 || from >= list.gates@.len() {
        None
    } else {
        match gate_refusal(list, graph, compiled, made, from) {
            Some(refusal) => Some(refusal),
            None => arity_refusal(list, graph, compiled, made, from + 1),
        }
    }
}

/// Where a node stands.
pub open spec fn node_position(
    list: Netlist,
    compiled: CompiledCircuit,
    made: Realisation,
    provenance: Provenance,
) -> Result<Position, Refusal> {
    match provenance {
        Provenance::PrimaryInput { name } => match circuit::position_of(
            compiled.input_positions@,
            name@,
        ) {
            Some(cell) => Ok(cell),
            None => Err(
                Refusal::Unresolved(
                    "primary input `"@ + name@ + "` has no recorded lever position"@,
                ),
            ),
        },
        Provenance::PrimaryOutput { name } => match circuit::position_of(
            compiled.output_positions@,
            name@,
        ) {
            Some(cell) => Ok(cell),
            None => Err(
                Refusal::Unresolved(
                    "declared output `"@ + name@ + "` has no recorded lamp position"@,
                ),
            ),
        },
        Provenance::Gate { gate, role } => {
            let name = list.gates@[gate as int].output@;
            let found = circuit::position_of(compiled.gate_output_positions@, name);
            match role {
                TemplateNode::Torch => match found {
                    Some(cell) => Ok(cell),
                    None => Err(
                        Refusal::Unresolved(
                            "gate `"@ + name + "` has no recorded torch position"@,
                        ),
                    ),
                },
                TemplateNode::SecondTorch => Err(
                    Refusal::Unresolved(
                        "gate `"@ + name
                            + "`'s primitive graph has a `SecondTorch` node, which `compiled.gate_output_positions` has no recorded position for -- no multi-torch library entry is ever chosen for a real `Netlist::Gate` today"@,
                    ),
                ),
                TemplateNode::IsolatingRepeater(index) => match found {
                    None => Err(
                        Refusal::Unresolved(
                            "gate `"@ + name + "` has no recorded junction position"@,
                        ),
                    ),
                    Some(junction) => if index < made.input_directions@.len() {
                        Ok(beside(junction, made.input_directions@[index as int]))
                    } else {
                        Err(
                            Refusal::Unresolved(
                                "gate `"@ + name + "`'s own branch "@ + text::decimal(
                                    index as nat,
                                ) + " has no `INPUT_DIRECTIONS` entry"@,
                            ),
                        )
                    },
                },
            }
        },
    }
}

/// Where the nodes stand, from one on, each in a place of its own.
pub open spec fn node_positions(
    list: Netlist,
    graph: PrimitiveGraph,
    compiled: CompiledCircuit,
    made: Realisation,
    so_far: Seq<Position>,
    from: nat,
) -> Result<Seq<Position>, Refusal>
    decreases graph.nodes@.len() - from,
{
    if from >= graph.nodes@.len() {
        Ok(so_far)
    } else {
        match node_position(list, compiled, made, graph.nodes@[from as int].provenance) {
            Err(refusal) => Err(refusal),
            Ok(cell) => if so_far.contains(cell) {
                Err(Refusal::Duplicate(cell))
            } else {
                node_positions(list, graph, compiled, made, so_far.push(cell), from + 1)
            },
        }
    }
}

/// The blocks that torches are mounted on, for the gates from one on. A merge
/// has no torch.
pub open spec fn support_positions(
    list: Netlist,
    compiled: CompiledCircuit,
    made: Realisation,
    so_far: Seq<Position>,
    from: nat,
) -> Result<Seq<Position>, Refusal>
    decreases list.gates@.len() - from,
{
    if from >= list.gates@.len() {
        Ok(so_far)
    } else {
        let gate = list.gates@[from as int];
        if gate.kind is Or {
            support_positions(list, compiled, made, so_far, from + 1)
        } else if circuit::position_of(compiled.gate_output_positions@, gate.output@) is None {
            Err(
                Refusal::Unresolved("gate `"@ + gate.output@ + "` has no recorded torch position"@),
            )
        } else {
            match made.supports@[from as int] {
                None => Err(
                    Refusal::Unresolved(
                        "gate `"@ + gate.output@ + "`'s torch has no resolvable support"@,
                    ),
                ),
                Some(support) => support_positions(
                    list,
                    compiled,
                    made,
                    so_far.push(support),
                    from + 1,
                ),
            }
        }
    }
}

/// What accounts for a cell.
pub enum Account {
    /// There is nothing.
    Empty,
    Explained,
    Dust,
    Repeater,
    Support,
    Unexplained,
}

/// What accounts for a cell: a node, or else what the block is and what stands on
/// it.
pub open spec fn account(
    world: World,
    explained: Seq<Position>,
    supports: Seq<Position>,
    cell: Position,
) -> Account {
    let kind = world.at(cell.x as int, cell.y as int, cell.z as int).kind;
    let above = world.at(cell.x as int, cell.y + 1, cell.z as int).kind;
    if kind == BlockKind::Air {
        Account::Empty
    } else if explained.contains(cell) {
        Account::Explained
    } else if kind == BlockKind::RedstoneWire {
        Account::Dust
    } else if kind == BlockKind::Repeater {
        Account::Repeater
    } else if kind == BlockKind::Solid && (supports.contains(cell) || above
        == BlockKind::RedstoneWire || above == BlockKind::Repeater || above == BlockKind::Lever) {
        Account::Support
    } else {
        Account::Unexplained
    }
}

/// What a [`WorldPartition`] stands for.
#[verifier::ext_equal]
pub struct PartitionView {
    pub explained: nat,
    pub dust: nat,
    pub repeater: nat,
    pub support: nat,
    pub unexplained: Seq<UnexplainedBlock>,
}

impl View for WorldPartition {
    type V = PartitionView;

    open spec fn view(&self) -> PartitionView {
        PartitionView {
            explained: self.graph_explained as nat,
            dust: self.routing_fill_dust as nat,
            repeater: self.routing_fill_repeater as nat,
            support: self.routing_fill_support as nat,
            unexplained: self.unexplained@,
        }
    }
}

pub open spec fn cell_at(x: int, y: int, z: int) -> Position {
    Position { x: x as i32, y: y as i32, z: z as i32 }
}

/// A partition with one more cell in it.
pub open spec fn with_cell(
    p: PartitionView,
    world: World,
    explained: Seq<Position>,
    supports: Seq<Position>,
    cell: Position,
) -> PartitionView {
    match account(world, explained, supports, cell) {
        Account::Empty => p,
        Account::Explained => PartitionView { explained: p.explained + 1, ..p },
        Account::Dust => PartitionView { dust: p.dust + 1, ..p },
        Account::Repeater => PartitionView { repeater: p.repeater + 1, ..p },
        Account::Support => PartitionView { support: p.support + 1, ..p },
        Account::Unexplained => PartitionView {
            unexplained: p.unexplained.push(
                UnexplainedBlock {
                    position: triple(cell),
                    kind: world.at(cell.x as int, cell.y as int, cell.z as int).kind,
                },
            ),
            ..p
        },
    }
}

/// A partition with the first `count` cells of a line along `z` in it.
pub open spec fn with_line(
    p: PartitionView,
    world: World,
    explained: Seq<Position>,
    supports: Seq<Position>,
    x: int,
    y: int,
    count: nat,
) -> PartitionView
    decreases count,
{
    if count == 0 {
        p
    } else {
        with_cell(
            with_line(p, world, explained, supports, x, y, (count - 1) as nat),
            world,
            explained,
            supports,
            cell_at(x, y, count - 1),
        )
    }
}

/// A partition with the first `count` lines of a slice in it.
pub open spec fn with_slice(
    p: PartitionView,
    world: World,
    explained: Seq<Position>,
    supports: Seq<Position>,
    x: int,
    count: nat,
) -> PartitionView
    decreases count,
{
    if count == 0 {
        p
    } else {
        with_line(
            with_slice(p, world, explained, supports, x, (count - 1) as nat),
            world,
            explained,
            supports,
            x,
            count - 1,
            world.sizes().2 as nat,
        )
    }
}

/// The partition of the first `count` slices of a world.
pub open spec fn with_slices(
    world: World,
    explained: Seq<Position>,
    supports: Seq<Position>,
    count: nat,
) -> PartitionView
    decreases count,
{
    if count == 0 {
        PartitionView { explained: 0, dust: 0, repeater: 0, support: 0, unexplained: seq![] }
    } else {
        with_slice(
            with_slices(world, explained, supports, (count - 1) as nat),
            world,
            explained,
            supports,
            count - 1,
            world.sizes().1 as nat,
        )
    }
}

/// The first of some cells, from one on, that holds nothing.
pub open spec fn first_air(world: World, cells: Seq<Position>, from: int) -> Option<Position>
    decreases cells.len() - from,
{
    if from < 0 || from >= cells.len() {
        None
    } else if world.at(cells[from].x as int, cells[from].y as int, cells[from].z as int).kind
        == BlockKind::Air {
        Some(cells[from])
    } else {
        first_air(world, cells, from + 1)
    }
}

/// The partition of a compiled world, or why there is none.
pub open spec fn partitioned(
    list: Netlist,
    graph: PrimitiveGraph,
    compiled: CompiledCircuit,
    made: Realisation,
) -> Result<PartitionView, Refusal> {
    match arity_refusal(list, graph, compiled, made, 0) {
        Some(refusal) => Err(refusal),
        None => match node_positions(list, graph, compiled, made, seq![], 0) {
            Err(refusal) => Err(refusal),
            Ok(explained) => match support_positions(list, compiled, made, seq![], 0) {
                Err(refusal) => Err(refusal),
                Ok(supports) => match first_air(compiled.world, explained, 0) {
                    Some(cell) => Err(Refusal::Air(cell)),
                    None => Ok(
                        with_slices(
                            compiled.world,
                            explained,
                            supports,
                            compiled.world.sizes().0 as nat,
                        ),
                    ),
                },
            },
        },
    }
}

fn unresolved(a: &str, b: &str, c: &str) -> (error: PartitionError)
    ensures
        error.is_refusal(Refusal::Unresolved(a@ + b@ + c@)),
{
    PartitionError::CannotResolveNodePosition { detail: text::glue3(a, b, c) }
}

fn holds_number(list: &Vec<usize>, number: usize) -> (found: bool)
    ensures
        found == list@.contains(number),
{
    let mut at: usize = 0;
    while at < list.len()
        invariant
            at <= list@.len(),
            forall|i: int| 0 <= i < at ==> #[trigger] list@[i] != number,
        decreases list@.len() - at,
    {
        if list[at] == number {
            return true;
        }
        at = at + 1;
    }
    false
}

fn owns(graph: &PrimitiveGraph, g: usize, node: usize) -> (found: bool)
    ensures
        found == gate_owns(*graph, g as int, node),
{
    g < graph.gate_nodes.len() && holds_number(&graph.gate_nodes[g], node)
}

fn count_edges_in(graph: &PrimitiveGraph, g: usize) -> (count: usize)
    ensures
        count == edges_in(*graph, g as int, graph.edges@.len()),
{
    let mut count: usize = 0;
    let mut at: usize = 0;
    while at < graph.edges.len()
        invariant
            at <= graph.edges@.len(),
            count == edges_in(*graph, g as int, at as nat),
            count <= at,
        decreases graph.edges@.len() - at,
    {
        let edge: Edge = graph.edges[at];
        if owns(graph, g, edge.to) && !owns(graph, g, edge.from) {
            count = count + 1;
        }
        at = at + 1;
    }
    count
}

fn count_sockets(world: &World, centre: Position, directions: &Vec<Facing>) -> (count: usize)
    requires
        world.wf(),
        inner(centre),
    ensures
        count == sockets_at(*world, centre, directions@, directions@.len()),
{
    let mut count: usize = 0;
    let mut at: usize = 0;
    while at < directions.len()
        invariant
            world.wf(),
            inner(centre),
            at <= directions@.len(),
            count == sockets_at(*world, centre, directions@, at as nat),
            count <= at,
        decreases directions@.len() - at,
    {
        let direction: Facing = directions[at];
        let socket: Position = centre.offset(direction);
        assert(socket == beside(centre, direction));
        let state = world.get(socket.x, socket.y, socket.z);
        let faces: bool = match state.facing {
            Some(facing) => facing == direction,
            None => false,
        };
        if state.kind == BlockKind::Repeater && faces {
            count = count + 1;
        }
        at = at + 1;
    }
    count
}

proof fn lemma_branch_sum_grows(made: Realisation, g: int, few: nat, many: nat)
    requires
        few <= many,
    ensures
        branch_sum(made, g, few, false) <= branch_sum(made, g, many, false),
    decreases many - few,
{
    if few < many {
        lemma_branch_sum_grows(made, g, few, (many - 1) as nat);
    }
}

proof fn lemma_fewer_branches(made: Realisation, g: int, count: nat)
    ensures
        branch_sum(made, g, count, true) <= branch_sum(made, g, count, false),
    decreases count,
{
    if count > 0 {
        lemma_fewer_branches(made, g, (count - 1) as nat);
    }
}

fn sum_branches(made: &Realisation, g: usize, skip_bare: bool) -> (sum: usize)
    requires
        g < made.contributors@.len(),
        g < made.is_bare@.len(),
        made.is_bare@[g as int]@.len() == made.contributors@[g as int]@.len(),
        branch_sum(*made, g as int, made.contributors@[g as int]@.len(), false) <= usize::MAX,
    ensures
        sum == branch_sum(*made, g as int, made.contributors@[g as int]@.len(), skip_bare),
{
    let mut sum: usize = 0;
    let mut at: usize = 0;
    while at < made.contributors[g].len()
        invariant
            g < made.contributors@.len(),
            g < made.is_bare@.len(),
            made.is_bare@[g as int]@.len() == made.contributors@[g as int]@.len(),
            branch_sum(*made, g as int, made.contributors@[g as int]@.len(), false) <= usize::MAX,
            at <= made.contributors@[g as int]@.len(),
            sum == branch_sum(*made, g as int, at as nat, skip_bare),
        decreases made.contributors@[g as int]@.len() - at,
    {
        proof {
            lemma_fewer_branches(*made, g as int, at as nat);
            lemma_branch_sum_grows(
                *made,
                g as int,
                (at + 1) as nat,
                made.contributors@[g as int]@.len(),
            );
        }
        if !(skip_bare && made.is_bare[g][at]) {
            sum = sum + made.contributors[g][at];
        }
        at = at + 1;
    }
    sum
}

fn count_isolated(made: &Realisation, g: usize) -> (count: usize)
    requires
        g < made.is_bare@.len(),
    ensures
        count == isolated(*made, g as int, made.is_bare@[g as int]@.len()),
{
    let mut count: usize = 0;
    let mut at: usize = 0;
    while at < made.is_bare[g].len()
        invariant
            g < made.is_bare@.len(),
            at <= made.is_bare@[g as int]@.len(),
            count == isolated(*made, g as int, at as nat),
            count <= at,
        decreases made.is_bare@[g as int]@.len() - at,
    {
        if !made.is_bare[g][at] {
            count = count + 1;
        }
        at = at + 1;
    }
    count
}

proof fn lemma_recorded_is_inner(compiled: CompiledCircuit, name: Seq<char>, from: int)
    requires
        0 <= from,
        forall|k: int|
            0 <= k < compiled.gate_output_positions@.len() ==> inner(
                (#[trigger] compiled.gate_output_positions@[k]).1,
            ),
    ensures
        circuit::position_from(compiled.gate_output_positions@, name, from) matches Some(cell)
            ==> inner(cell),
    decreases compiled.gate_output_positions@.len() - from,
{
    if from < compiled.gate_output_positions@.len() {
        lemma_recorded_is_inner(compiled, name, from + 1);
        assert(inner(compiled.gate_output_positions@[from].1));
    }
}

/// Checks that the netlist, the graph and the world agree on the inputs of every
/// gate.
fn check_gate_input_arity_agrees(
    list: &Netlist,
    graph: &PrimitiveGraph,
    compiled: &CompiledCircuit,
    made: &Realisation,
) -> (checked: Result<(), PartitionError>)
    requires
        described(*list, *graph, *compiled, *made),
    ensures
        match checked {
            Ok(_) => arity_refusal(*list, *graph, *compiled, *made, 0) is None,
            Err(error) => arity_refusal(*list, *graph, *compiled, *made, 0) matches Some(refusal)
                && error.is_refusal(refusal),
        },
{
    let mut g: usize = 0;
    while g < list.gates.len()
        invariant
            described(*list, *graph, *compiled, *made),
            g <= list.gates@.len(),
            arity_refusal(*list, *graph, *compiled, *made, 0) == arity_refusal(
                *list,
                *graph,
                *compiled,
                *made,
                g as int,
            ),
        decreases list.gates@.len() - g,
    {
        assert(made.contributors@[g as int]@.len() == list.gates@[g as int].inputs@.len());
        let name: &str = list.gates[g].output.as_str();
        let graph_edges: usize = count_edges_in(graph, g);
        let junction: Position = match circuit::find_position(
            &compiled.gate_output_positions,
            name,
        ) {
            Some(cell) => cell,
            None => return Err(unresolved("gate `", name, "` has no recorded torch position")),
        };
        proof {
            lemma_recorded_is_inner(*compiled, name@, 0);
        }
        let merges: bool = list.gates[g].is_merge();
        let expected_edges: usize = sum_branches(made, g, merges);
        let expected_sockets: usize = if merges {
            count_isolated(made, g)
        } else {
            list.gates[g].inputs.len()
        };
        let world_sockets: usize = if merges {
            count_sockets(&compiled.world, junction, &made.input_directions)
        } else {
            match made.supports[g] {
                Some(support) => count_sockets(
                    &compiled.world,
                    support,
                    &made.input_directions,
                ),
                None => 0,
            }
        };
        if graph_edges != expected_edges || world_sockets != expected_sockets {
            return Err(
                PartitionError::GateInputArityDisagreement {
                    gate: name.to_owned(),
                    netlist_arity: expected_sockets,
                    graph_arity: graph_edges,
                    world_arity: world_sockets,
                },
            );
        }
        g = g + 1;
    }
    Ok(())
}

/// Finds where a node stands.
fn resolve_node_position(
    list: &Netlist,
    compiled: &CompiledCircuit,
    made: &Realisation,
    provenance: &Provenance,
) -> (found: Result<Position, PartitionError>)
    requires
        forall|k: int|
            0 <= k < compiled.gate_output_positions@.len() ==> inner(
                (#[trigger] compiled.gate_output_positions@[k]).1,
            ),
        match *provenance {
            Provenance::Gate { gate, role } => gate < list.gates@.len(),
            _ => true,
        },
    ensures
        match found {
            Ok(cell) => node_position(*list, *compiled, *made, *provenance) == Ok::<
                Position,
                Refusal,
            >(cell),
            Err(error) => node_position(*list, *compiled, *made, *provenance) matches Err(refusal)
                && error.is_refusal(refusal),
        },
{
    match provenance {
        Provenance::PrimaryInput { name } => match circuit::find_position(
            &compiled.input_positions,
            name.as_str(),
        ) {
            Some(cell) => Ok(cell),
            None => Err(
                unresolved(
                    "primary input `",
                    name.as_str(),
                    "` has no recorded lever position",
                ),
            ),
        },
        Provenance::PrimaryOutput { name } => match circuit::find_position(
            &compiled.output_positions,
            name.as_str(),
        ) {
            Some(cell) => Ok(cell),
            None => Err(
                unresolved(
                    "declared output `",
                    name.as_str(),
                    "` has no recorded lamp position",
                ),
            ),
        },
        Provenance::Gate { gate, role } => {
            let name: &str = list.gates[*gate].output.as_str();
            let recorded: Option<Position> = circuit::find_position(
                &compiled.gate_output_positions,
                name,
            );
            proof {
                lemma_recorded_is_inner(*compiled, name@, 0);
            }
            match role {
                TemplateNode::Torch => match recorded {
                    Some(cell) => Ok(cell),
                    None => Err(unresolved("gate `", name, "` has no recorded torch position")),
                },
                TemplateNode::SecondTorch => Err(
                    unresolved(
                        "gate `",
                        name,
                        "`'s primitive graph has a `SecondTorch` node, which `compiled.gate_output_positions` has no recorded position for -- no multi-torch library entry is ever chosen for a real `Netlist::Gate` today",
                    ),
                ),
                TemplateNode::IsolatingRepeater(index) => match recorded {
                    None => Err(
                        unresolved("gate `", name, "` has no recorded junction position"),
                    ),
                    Some(junction) => {
                        if *index < made.input_directions.len() {
                            let cell: Position = junction.offset(made.input_directions[*index]);
                            assert(cell == beside(
                                junction,
                                made.input_directions@[*index as int],
                            ));
                            Ok(cell)
                        } else {
                            let number: String = text::decimal_text(*index as u64);
                            Err(
                                PartitionError::CannotResolveNodePosition {
                                    detail: text::glue5(
                                        "gate `",
                                        name,
                                        "`'s own branch ",
                                        number.as_str(),
                                        " has no `INPUT_DIRECTIONS` entry",
                                    ),
                                },
                            )
                        }
                    },
                },
            }
        },
    }
}

/// Finds where every node stands.
fn explained_positions(
    list: &Netlist,
    graph: &PrimitiveGraph,
    compiled: &CompiledCircuit,
    made: &Realisation,
) -> (found: Result<Vec<Position>, PartitionError>)
    requires
        described(*list, *graph, *compiled, *made),
    ensures
        match found {
            Ok(cells) => node_positions(*list, *graph, *compiled, *made, seq![], 0) == Ok::<
                Seq<Position>,
                Refusal,
            >(cells@),
            Err(error) => node_positions(
                *list,
                *graph,
                *compiled,
                *made,
                seq![],
                0,
            ) matches Err(refusal) && error.is_refusal(refusal),
        },
{
    let mut cells: Vec<Position> = Vec::new();
    let mut at: usize = 0;
    assert(cells@ =~= seq![]);
    while at < graph.nodes.len()
        invariant
            described(*list, *graph, *compiled, *made),
            at <= graph.nodes@.len(),
            node_positions(*list, *graph, *compiled, *made, seq![], 0) == node_positions(
                *list,
                *graph,
                *compiled,
                *made,
                cells@,
                at as nat,
            ),
        decreases graph.nodes@.len() - at,
    {
        assert(match graph.nodes@[at as int].provenance {
            Provenance::Gate { gate, role } => gate < list.gates@.len(),
            _ => true,
        });
        match resolve_node_position(list, compiled, made, &graph.nodes[at].provenance) {
            Err(error) => return Err(error),
            Ok(cell) => {
                if cells::holds_cell(&cells, cell) {
                    return Err(
                        PartitionError::DuplicateExplainedPosition {
                            position: (cell.x, cell.y, cell.z),
                        },
                    );
                }
                cells.push(cell);
            },
        }
        at = at + 1;
    }
    Ok(cells)
}

/// Finds the blocks that torches are mounted on.
fn known_support_positions(list: &Netlist, compiled: &CompiledCircuit, made: &Realisation) -> (
    found: Result<Vec<Position>, PartitionError>)
    requires
        made.supports@.len() == list.gates@.len(),
    ensures
        match found {
            Ok(cells) => support_positions(*list, *compiled, *made, seq![], 0) == Ok::<
                Seq<Position>,
                Refusal,
            >(cells@),
            Err(error) => support_positions(*list, *compiled, *made, seq![], 0) matches Err(refusal)
                && error.is_refusal(refusal),
        },
{
    let mut cells: Vec<Position> = Vec::new();
    let mut g: usize = 0;
    assert(cells@ =~= seq![]);
    while g < list.gates.len()
        invariant
            made.supports@.len() == list.gates@.len(),
            g <= list.gates@.len(),
            support_positions(*list, *compiled, *made, seq![], 0) == support_positions(
                *list,
                *compiled,
                *made,
                cells@,
                g as nat,
            ),
        decreases list.gates@.len() - g,
    {
        if !list.gates[g].is_merge() {
            let name: &str = list.gates[g].output.as_str();
            if circuit::find_position(&compiled.gate_output_positions, name).is_none() {
                return Err(unresolved("gate `", name, "` has no recorded torch position"));
            }
            match made.supports[g] {
                None => return Err(
                    unresolved("gate `", name, "`'s torch has no resolvable support"),
                ),
                Some(support) => {
                    cells.push(support);
                },
            }
        }
        g = g + 1;
    }
    Ok(cells)
}

/// All blocks that a partition has counted.
pub open spec fn counted(p: PartitionView) -> nat {
    p.explained + p.dust + p.repeater + p.support + p.unexplained.len()
}

impl WorldPartition {
    /// Every block that routing left behind.
    pub fn routing_fill(&self) -> (count: usize)
        requires
            self.routing_fill_dust + self.routing_fill_repeater + self.routing_fill_support
                <= usize::MAX,
        ensures
            count == self@.dust + self@.repeater + self@.support,
    {
        self.routing_fill_dust + self.routing_fill_repeater + self.routing_fill_support
    }

    /// Every block that was accounted for, or not.
    pub fn total_non_air(&self) -> (count: usize)
        requires
            counted(self@) <= usize::MAX,
        ensures
            count == counted(self@),
    {
        self.graph_explained + self.routing_fill() + self.unexplained.len()
    }

    /// Puts one more cell down.
    fn put_down(
        &mut self,
        world: &World,
        explained: &Vec<Position>,
        supports: &Vec<Position>,
        cell: Position,
    )
        requires
            world.wf(),
            world.holds(cell.x as int, cell.y as int, cell.z as int),
            counted(old(self)@) < usize::MAX,
        ensures
            final(self)@ == with_cell(old(self)@, *world, explained@, supports@, cell),
    {
        let kind: BlockKind = world.get(cell.x, cell.y, cell.z).kind;
        if kind == BlockKind::Air {
            return;
        }
        if cells::holds_cell(explained, cell) {
            self.graph_explained = self.graph_explained + 1;
            return;
        }
        match kind {
            BlockKind::RedstoneWire => {
                self.routing_fill_dust = self.routing_fill_dust + 1;
            },
            BlockKind::Repeater => {
                self.routing_fill_repeater = self.routing_fill_repeater + 1;
            },
            BlockKind::Solid => {
                let above: BlockKind = world.get(cell.x, cell.y + 1, cell.z).kind;
                if cells::holds_cell(supports, cell) || above == BlockKind::RedstoneWire || above
                    == BlockKind::Repeater || above == BlockKind::Lever {
                    self.routing_fill_support = self.routing_fill_support + 1;
                } else {
                    self.unexplained.push(
                        UnexplainedBlock { position: (cell.x, cell.y, cell.z), kind },
                    );
                }
            },
            other => {
                self.unexplained.push(
                    UnexplainedBlock { position: (cell.x, cell.y, cell.z), kind: other },
                );
            },
        }
    }
}

proof fn lemma_line_counts(
    p: PartitionView,
    world: World,
    explained: Seq<Position>,
    supports: Seq<Position>,
    x: int,
    y: int,
    count: nat,
)
    ensures
        counted(with_line(p, world, explained, supports, x, y, count)) <= counted(p) + count,
    decreases count,
{
    if count > 0 {
        lemma_line_counts(p, world, explained, supports, x, y, (count - 1) as nat);
    }
}

proof fn lemma_slice_counts(
    p: PartitionView,
    world: World,
    explained: Seq<Position>,
    supports: Seq<Position>,
    x: int,
    count: nat,
)
    requires
        world.sizes().2 >= 0,
    ensures
        counted(with_slice(p, world, explained, supports, x, count)) <= counted(p) + count
            * world.sizes().2,
    decreases count,
{
    let depth = world.sizes().2;
    if count > 0 {
        lemma_slice_counts(p, world, explained, supports, x, (count - 1) as nat);
        let before = with_slice(p, world, explained, supports, x, (count - 1) as nat);
        lemma_line_counts(before, world, explained, supports, x, count - 1, depth as nat);
        assert((count - 1) * depth + depth == count * depth) by (nonlinear_arith);
    } else {
        assert(0 * depth == 0);
    }
}

proof fn lemma_slices_count(
    world: World,
    explained: Seq<Position>,
    supports: Seq<Position>,
    count: nat,
)
    requires
        world.sizes().1 >= 0,
        world.sizes().2 >= 0,
    ensures
        counted(with_slices(world, explained, supports, count)) <= count * (world.sizes().1
            * world.sizes().2),
    decreases count,
{
    let area = world.sizes().1 * world.sizes().2;
    if count > 0 {
        lemma_slices_count(world, explained, supports, (count - 1) as nat);
        let before = with_slices(world, explained, supports, (count - 1) as nat);
        lemma_slice_counts(
            before,
            world,
            explained,
            supports,
            count - 1,
            world.sizes().1 as nat,
        );
        assert((count - 1) * area + area == count * area) by (nonlinear_arith);
    } else {
        assert(0 * area == 0);
    }
}

/// Fewer cells have been counted than there are.
proof fn lemma_room_to_count(
    world: World,
    explained: Seq<Position>,
    supports: Seq<Position>,
    x: nat,
    y: nat,
    z: nat,
)
    requires
        world.wf(),
        x < world.sizes().0,
        y < world.sizes().1,
        z < world.sizes().2,
    ensures
        ({
            let slices = with_slices(world, explained, supports, x);
            let lines = with_slice(slices, world, explained, supports, x as int, y);
            counted(with_line(lines, world, explained, supports, x as int, y as int, z))
                < world.numbers().len()
        }),
{
    let (sx, sy, sz) = world.sizes();
    let slices = with_slices(world, explained, supports, x);
    let lines = with_slice(slices, world, explained, supports, x as int, y);
    lemma_slices_count(world, explained, supports, x);
    lemma_slice_counts(slices, world, explained, supports, x as int, y);
    lemma_line_counts(lines, world, explained, supports, x as int, y as int, z);
    let area = sy * sz;
    assert(y * sz + z < area) by (nonlinear_arith)
        requires
            0 <= y < sy,
            0 <= z < sz,
            area == sy * sz,
    ;
    assert(x * area + area <= sx * area) by (nonlinear_arith)
        requires
            0 <= x < sx,
            area >= 0,
    ;
    assert(sx * area == sy * sz * sx) by (nonlinear_arith)
        requires
            area == sy * sz,
    ;
}

/// Accounts for every block of a compiled world.
pub fn partition_world(
    list: &Netlist,
    graph: &PrimitiveGraph,
    compiled: &CompiledCircuit,
    made: &Realisation,
) -> (partition: Result<WorldPartition, PartitionError>)
    requires
        described(*list, *graph, *compiled, *made),
    ensures
        match partition {
            Ok(found) => partitioned(*list, *graph, *compiled, *made) == Ok::<
                PartitionView,
                Refusal,
            >(found@),
            Err(error) => partitioned(*list, *graph, *compiled, *made) matches Err(refusal)
                && error.is_refusal(refusal),
        },
{
    match check_gate_input_arity_agrees(list, graph, compiled, made) {
        Err(error) => return Err(error),
        Ok(_) => {},
    }
    let explained: Vec<Position> = match explained_positions(list, graph, compiled, made) {
        Err(error) => return Err(error),
        Ok(cells) => cells,
    };
    let supports: Vec<Position> = match known_support_positions(list, compiled, made) {
        Err(error) => return Err(error),
        Ok(cells) => cells,
    };
    let world: &World = &compiled.world;
    if let Some(cell) = find_air(world, &explained) {
        return Err(
            PartitionError::ExplainedPositionIsAir { position: (cell.x, cell.y, cell.z) },
        );
    }
    Ok(count_blocks(world, &explained, &supports))
}

fn find_air(world: &World, cells: &Vec<Position>) -> (found: Option<Position>)
    requires
        world.wf(),
    ensures
        found == first_air(*world, cells@, 0),
{
    let mut at: usize = 0;
    while at < cells.len()
        invariant
            world.wf(),
            at <= cells@.len(),
            first_air(*world, cells@, 0) == first_air(*world, cells@, at as int),
        decreases cells@.len() - at,
    {
        let cell: Position = cells[at];
        if world.get(cell.x, cell.y, cell.z).kind == BlockKind::Air {
            return Some(cell);
        }
        at = at + 1;
    }
    None
}

fn count_blocks(world: &World, explained: &Vec<Position>, supports: &Vec<Position>) -> (partition:
    WorldPartition)
    requires
        world.wf(),
    ensures
        partition@ == with_slices(*world, explained@, supports@, world.sizes().0 as nat),
{
    let (size_x, size_y, size_z) = world.size();
    let total: usize = world.cells().len();
    let mut partition = WorldPartition {
        graph_explained: 0,
        routing_fill_dust: 0,
        routing_fill_repeater: 0,
        routing_fill_support: 0,
        unexplained: Vec::new(),
    };
    assert(partition@ =~= with_slices(*world, explained@, supports@, 0));
    let mut x: i32 = 0;
    while x < size_x
        invariant
            world.wf(),
            world.sizes() == (size_x as int, size_y as int, size_z as int),
            total == world.numbers().len(),
            0 <= x <= size_x,
            partition@ == with_slices(*world, explained@, supports@, x as nat),
        decreases size_x - x,
    {
        let ghost slices = partition@;
        let mut y: i32 = 0;
        while y < size_y
            invariant
                world.wf(),
                world.sizes() == (size_x as int, size_y as int, size_z as int),
                total == world.numbers().len(),
                0 <= x < size_x,
                0 <= y <= size_y,
                slices == with_slices(*world, explained@, supports@, x as nat),
                partition@ == with_slice(
                    slices,
                    *world,
                    explained@,
                    supports@,
                    x as int,
                    y as nat,
                ),
            decreases size_y - y,
        {
            let ghost lines = partition@;
            let mut z: i32 = 0;
            while z < size_z
                invariant
                    world.wf(),
                    world.sizes() == (size_x as int, size_y as int, size_z as int),
                    total == world.numbers().len(),
                    0 <= x < size_x,
                    0 <= y < size_y,
                    0 <= z <= size_z,
                    slices == with_slices(*world, explained@, supports@, x as nat),
                    lines == with_slice(
                        slices,
                        *world,
                        explained@,
                        supports@,
                        x as int,
                        y as nat,
                    ),
                    partition@ == with_line(
                        lines,
                        *world,
                        explained@,
                        supports@,
                        x as int,
                        y as int,
                        z as nat,
                    ),
                decreases size_z - z,
            {
                proof {
                    lemma_room_to_count(
                        *world,
                        explained@,
                        supports@,
                        x as nat,
                        y as nat,
                        z as nat,
                    );
                }
                let cell: Position = Position::new(x, y, z);
                partition.put_down(world, explained, supports, cell);
                z = z + 1;
            }
            y = y + 1;
        }
        x = x + 1;
    }
    partition
}

/// The cells of a line, a slice or slices that hold a block.
pub open spec fn blocks_in_line(world: World, x: int, y: int, count: nat) -> nat
    decreases count,
{
    if count == 0 {
        0
    } else {
        blocks_in_line(world, x, y, (count - 1) as nat) + (if world.at(x, y, count - 1).kind
            == BlockKind::Air {
            0nat
        } else {
            1nat
        })
    }
}

pub open spec fn blocks_in_slice(world: World, x: int, count: nat) -> nat
    decreases count,
{
    if count == 0 {
        0
    } else {
        blocks_in_slice(world, x, (count - 1) as nat) + blocks_in_line(
            world,
            x,
            count - 1,
            world.sizes().2 as nat,
        )
    }
}

/// How many blocks the first `count` slices of a world hold.
pub open spec fn blocks_in_slices(world: World, count: nat) -> nat
    decreases count,
{
    if count == 0 {
        0
    } else {
        blocks_in_slices(world, (count - 1) as nat) + blocks_in_slice(
            world,
            count - 1,
            world.sizes().1 as nat,
        )
    }
}

proof fn lemma_line_is_total(
    p: PartitionView,
    world: World,
    explained: Seq<Position>,
    supports: Seq<Position>,
    x: int,
    y: int,
    count: nat,
)
    requires
        world.wf(),
        0 <= x < world.sizes().0,
        0 <= y < world.sizes().1,
        count <= world.sizes().2,
    ensures
        counted(with_line(p, world, explained, supports, x, y, count)) == counted(p)
            + blocks_in_line(world, x, y, count),
    decreases count,
{
    if count > 0 {
        lemma_line_is_total(p, world, explained, supports, x, y, (count - 1) as nat);
    }
}

proof fn lemma_slice_is_total(
    p: PartitionView,
    world: World,
    explained: Seq<Position>,
    supports: Seq<Position>,
    x: int,
    count: nat,
)
    requires
        world.wf(),
        0 <= x < world.sizes().0,
        count <= world.sizes().1,
    ensures
        counted(with_slice(p, world, explained, supports, x, count)) == counted(p)
            + blocks_in_slice(world, x, count),
    decreases count,
{
    if count > 0 {
        lemma_slice_is_total(p, world, explained, supports, x, (count - 1) as nat);
        let before = with_slice(p, world, explained, supports, x, (count - 1) as nat);
        lemma_line_is_total(
            before,
            world,
            explained,
            supports,
            x,
            count - 1,
            world.sizes().2 as nat,
        );
    }
}

/// A partition is total: every block of the world is counted, and none twice.
pub proof fn lemma_partition_is_total(
    world: World,
    explained: Seq<Position>,
    supports: Seq<Position>,
    count: nat,
)
    requires
        world.wf(),
        count <= world.sizes().0,
    ensures
        counted(with_slices(world, explained, supports, count)) == blocks_in_slices(world, count),
    decreases count,
{
    if count > 0 {
        lemma_partition_is_total(world, explained, supports, (count - 1) as nat);
        let before = with_slices(world, explained, supports, (count - 1) as nat);
        lemma_slice_is_total(
            before,
            world,
            explained,
            supports,
            count - 1,
            world.sizes().1 as nat,
        );
    }
}

/// The nodes that stand in cells before one, slice by slice and line by line.
spec fn nodes_before(explained: Seq<Position>, x: int, y: int, z: int) -> Set<Position> {
    explained.to_set().filter(
        |cell: Position|
            cell.x < x || (cell.x == x && (cell.y < y || (cell.y == y && cell.z < z))),
    )
}

/// Every node stands in a cell of the world that holds a block.
spec fn all_stand(world: World, explained: Seq<Position>) -> bool {
    forall|i: int|
        0 <= i < explained.len() ==> world.at(
            (#[trigger] explained[i]).x as int,
            explained[i].y as int,
            explained[i].z as int,
        ).kind != BlockKind::Air
}

proof fn lemma_stands_inside(world: World, explained: Seq<Position>, cell: Position)
    requires
        all_stand(world, explained),
        explained.contains(cell),
    ensures
        world.holds(cell.x as int, cell.y as int, cell.z as int),
        world.at(cell.x as int, cell.y as int, cell.z as int).kind != BlockKind::Air,
{
    let i = choose|i: int| 0 <= i < explained.len() && explained[i] == cell;
    assert(explained[i] == cell);
}

proof fn lemma_line_finds_nodes(
    p: PartitionView,
    world: World,
    explained: Seq<Position>,
    supports: Seq<Position>,
    x: int,
    y: int,
    count: nat,
)
    requires
        world.wf(),
        all_stand(world, explained),
        0 <= x < world.sizes().0,
        0 <= y < world.sizes().1,
        count <= world.sizes().2,
        p.explained == nodes_before(explained, x, y, 0).len(),
    ensures
        with_line(p, world, explained, supports, x, y, count).explained == nodes_before(
            explained,
            x,
            y,
            count as int,
        ).len(),
    decreases count,
{
    if count > 0 {
        let z = count - 1;
        lemma_line_finds_nodes(p, world, explained, supports, x, y, z as nat);
        let cell = cell_at(x, y, z);
        let fewer = nodes_before(explained, x, y, z);
        let more = nodes_before(explained, x, y, z + 1);
        explained.lemma_cardinality_of_set();
        if explained.contains(cell) {
            lemma_stands_inside(world, explained, cell);
            assert(more =~= fewer.insert(cell));
            assert(!fewer.contains(cell));
        } else {
            assert(more =~= fewer);
        }
    }
}

proof fn lemma_slice_finds_nodes(
    p: PartitionView,
    world: World,
    explained: Seq<Position>,
    supports: Seq<Position>,
    x: int,
    count: nat,
)
    requires
        world.wf(),
        all_stand(world, explained),
        0 <= x < world.sizes().0,
        count <= world.sizes().1,
        p.explained == nodes_before(explained, x, 0, 0).len(),
    ensures
        with_slice(p, world, explained, supports, x, count).explained == nodes_before(
            explained,
            x,
            count as int,
            0,
        ).len(),
    decreases count,
{
    if count > 0 {
        let y = count - 1;
        lemma_slice_finds_nodes(p, world, explained, supports, x, y as nat);
        let before = with_slice(p, world, explained, supports, x, y as nat);
        let depth = world.sizes().2;
        lemma_line_finds_nodes(before, world, explained, supports, x, y, depth as nat);
        assert(nodes_before(explained, x, y, depth) =~= nodes_before(explained, x, y + 1, 0)) by {
            assert forall|cell: Position| explained.contains(cell) implies 0 <= cell.z < depth by {
                lemma_stands_inside(world, explained, cell);
            }
        }
    }
}

proof fn lemma_slices_find_nodes(
    world: World,
    explained: Seq<Position>,
    supports: Seq<Position>,
    count: nat,
)
    requires
        world.wf(),
        all_stand(world, explained),
        count <= world.sizes().0,
    ensures
        with_slices(world, explained, supports, count).explained == nodes_before(
            explained,
            count as int,
            0,
            0,
        ).len(),
    decreases count,
{
    assert forall|cell: Position| explained.contains(cell) implies world.holds(
        cell.x as int,
        cell.y as int,
        cell.z as int,
    ) by {
        lemma_stands_inside(world, explained, cell);
    }
    if count > 0 {
        let x = count - 1;
        lemma_slices_find_nodes(world, explained, supports, x as nat);
        let before = with_slices(world, explained, supports, x as nat);
        let height = world.sizes().1;
        lemma_slice_finds_nodes(before, world, explained, supports, x, height as nat);
        assert(nodes_before(explained, x, height, 0) =~= nodes_before(explained, x + 1, 0, 0));
    } else {
        assert(nodes_before(explained, 0, 0, 0) =~= Set::empty());
    }
}

proof fn lemma_positions_differ(
    list: Netlist,
    graph: PrimitiveGraph,
    compiled: CompiledCircuit,
    made: Realisation,
    so_far: Seq<Position>,
    from: nat,
)
    requires
        so_far.no_duplicates(),
        so_far.len() == from,
        from <= graph.nodes@.len(),
    ensures
        node_positions(list, graph, compiled, made, so_far, from) matches Ok(cells)
            ==> cells.no_duplicates() && cells.len() == graph.nodes@.len(),
    decreases graph.nodes@.len() - from,
{
    if from < graph.nodes@.len() {
        if let Ok(cell) = node_position(
            list,
            compiled,
            made,
            graph.nodes@[from as int].provenance,
        ) {
            if !so_far.contains(cell) {
                lemma_positions_differ(
                    list,
                    graph,
                    compiled,
                    made,
                    so_far.push(cell),
                    from + 1,
                );
            }
        }
    }
}

proof fn lemma_none_is_air(world: World, cells: Seq<Position>, from: int)
    requires
        0 <= from,
        first_air(world, cells, from) is None,
    ensures
        forall|i: int|
            from <= i < cells.len() ==> world.at(
                (#[trigger] cells[i]).x as int,
                cells[i].y as int,
                cells[i].z as int,
            ).kind != BlockKind::Air,
    decreases cells.len() - from,
{
    if from < cells.len() {
        lemma_none_is_air(world, cells, from + 1);
    }
}

/// In a world that can be accounted for, every node of the graph is found, and
/// the blocks of all sorts add up to the blocks that there are.
pub proof fn lemma_partition_accounts_for_graph_and_world(
    list: Netlist,
    graph: PrimitiveGraph,
    compiled: CompiledCircuit,
    made: Realisation,
)
    requires
        compiled.world.wf(),
        partitioned(list, graph, compiled, made) is Ok,
    ensures
        ({
            let found = partitioned(list, graph, compiled, made)->Ok_0;
            &&& found.explained == graph.nodes@.len()
            &&& counted(found) == blocks_in_slices(
                compiled.world,
                compiled.world.sizes().0 as nat,
            )
        }),
{
    let world = compiled.world;
    let explained = node_positions(list, graph, compiled, made, seq![], 0)->Ok_0;
    let supports = support_positions(list, compiled, made, seq![], 0)->Ok_0;
    let width = world.sizes().0;
    lemma_positions_differ(list, graph, compiled, made, seq![], 0);
    lemma_none_is_air(world, explained, 0);
    assert(all_stand(world, explained));
    lemma_slices_find_nodes(world, explained, supports, width as nat);
    lemma_partition_is_total(world, explained, supports, width as nat);
    explained.unique_seq_to_set();
    assert(nodes_before(explained, width, 0, 0) =~= explained.to_set()) by {
        assert forall|cell: Position| explained.contains(cell) implies cell.x < width by {
            lemma_stands_inside(world, explained, cell);
        }
    }
}

} // verus!
