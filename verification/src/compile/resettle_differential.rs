//! Holds a settled world against one that was settled again from nothing, and
//! says where the two differ.

use crate::compile::strength_differential;
use crate::compile::netlist;
use crate::compile::resettle_laws;
use crate::redstone::block;
use crate::redstone::block::{BlockKind, BlockState, Facing};
use crate::redstone::position;
use crate::redstone::position::Position;
use crate::redstone::world::World;
use crate::text;
use vstd::prelude::*;

verus! {

/// A cell that reads differently once the world is settled again.
#[derive(Debug, Clone, Copy, PartialEq, Eq, Structural)]
pub struct CellDiff {
    pub position: Position,
    pub kind: BlockKind,
    pub settled_power: u8,
    pub resettled_power: u8,
    pub settled_lit: bool,
    pub resettled_lit: bool,
}

/// A world that was settled again.
#[derive(Debug)]
pub struct Resettle {
    pub world: World,
    pub diffs: Vec<CellDiff>,
    /// How often every cell was looked at until nothing changed.
    pub passes: usize,
    /// The pairs of dust cells of which the first powers the second.
    pub walks: Vec<(Position, Position)>,
}

pub open spec fn kind_text(kind: BlockKind) -> Seq<char> {
    match kind {
        BlockKind::Air => "Air"@,
        BlockKind::Solid => "Solid"@,
        BlockKind::Glass => "Glass"@,
        BlockKind::Slab => "Slab"@,
        BlockKind::RedstoneWire => "RedstoneWire"@,
        BlockKind::Repeater => "Repeater"@,
        BlockKind::Comparator => "Comparator"@,
        BlockKind::Torch => "Torch"@,
        BlockKind::WallTorch => "WallTorch"@,
        BlockKind::Lever => "Lever"@,
        BlockKind::RedstoneBlock => "RedstoneBlock"@,
        BlockKind::Lamp => "Lamp"@,
        BlockKind::Piston => "Piston"@,
        BlockKind::Observer => "Observer"@,
        BlockKind::Target => "Target"@,
        BlockKind::DaylightDetector => "DaylightDetector"@,
        BlockKind::Button => "Button"@,
        BlockKind::PressurePlate => "PressurePlate"@,
        BlockKind::WeightedPressurePlate => "WeightedPressurePlate"@,
        BlockKind::Other => "Other"@,
    }
}

fn name_kind(kind: BlockKind) -> (name: &'static str)
    ensures
        name@ == kind_text(kind),
{
    match kind {
        BlockKind::Air => "Air",
        BlockKind::Solid => "Solid",
        BlockKind::Glass => "Glass",
        BlockKind::Slab => "Slab",
        BlockKind::RedstoneWire => "RedstoneWire",
        BlockKind::Repeater => "Repeater",
        BlockKind::Comparator => "Comparator",
        BlockKind::Torch => "Torch",
        BlockKind::WallTorch => "WallTorch",
        BlockKind::Lever => "Lever",
        BlockKind::RedstoneBlock => "RedstoneBlock",
        BlockKind::Lamp => "Lamp",
        BlockKind::Piston => "Piston",
        BlockKind::Observer => "Observer",
        BlockKind::Target => "Target",
        BlockKind::DaylightDetector => "DaylightDetector",
        BlockKind::Button => "Button",
        BlockKind::PressurePlate => "PressurePlate",
        BlockKind::WeightedPressurePlate => "WeightedPressurePlate",
        BlockKind::Other => "Other",
    }
}

pub open spec fn cell_text(cell: Position) -> Seq<char> {
    "("@ + text::signed_decimal(cell.x as int) + ", "@ + text::signed_decimal(cell.y as int)
        + ", "@ + (text::signed_decimal(cell.z as int) + ")"@)
}

fn name_cell(cell: Position) -> (name: String)
    ensures
        name@ == cell_text(cell),
{
    let x: String = text::signed_text(cell.x as i64);
    let y: String = text::signed_text(cell.y as i64);
    let mut z: String = text::signed_text(cell.z as i64);
    z.append(")");
    let mut name: String = text::glue5("(", x.as_str(), ", ", y.as_str(), ", ");
    name.append(z.as_str());
    name
}

pub open spec fn truth_text(truth: bool) -> Seq<char> {
    if truth {
        "true"@
    } else {
        "false"@
    }
}

fn name_truth(truth: bool) -> (name: &'static str)
    ensures
        name@ == truth_text(truth),
{
    if truth {
        "true"
    } else {
        "false"
    }
}

/// A cell all of whose neighbours, and theirs, have coordinates.
pub open spec fn inner(cell: Position) -> bool {
    &&& i32::MIN < cell.x < i32::MAX
    &&& i32::MIN < cell.y < i32::MAX
    &&& i32::MIN < cell.z < i32::MAX
}

pub open spec fn sideways(direction: Facing) -> bool {
    !(direction is Up) && !(direction is Down)
}

/// A cell next to another on a side: level with it, above that, or below.
pub open spec fn neighbour(cell: Position, side: Facing, which: int) -> Position {
    Position {
        x: (cell.x + position::step(side).0) as i32,
        y: (cell.y + (if which == 1 {
            1int
        } else if which == 2 {
            -1int
        } else {
            0int
        })) as i32,
        z: (cell.z + position::step(side).2) as i32,
    }
}

/// How dust and a neighbouring cell power each other, if they do.
pub open spec fn edge_text(
    world: World,
    walks: Seq<(Position, Position)>,
    cell: Position,
    next: Position,
) -> Option<Seq<char>> {
    let incoming = walks.contains((next, cell));
    let outgoing = walks.contains((cell, next));
    if strength_differential::at_cell(world, next).kind != BlockKind::RedstoneWire {
        None
    } else if incoming && outgoing {
        Some(cell_text(next) + " "@ + "<->"@)
    } else if incoming {
        Some(cell_text(next) + " "@ + "-> (ONE-WAY IN)"@)
    } else if outgoing {
        Some(cell_text(next) + " "@ + "<- (ONE-WAY OUT)"@)
    } else {
        None
    }
}

/// The edges of dust to the first `count` of its neighbours, side by side.
pub open spec fn edges_of(
    world: World,
    walks: Seq<(Position, Position)>,
    cell: Position,
    sides: Seq<Facing>,
    count: nat,
) -> Seq<Seq<char>>
    decreases count,
{
    if count == 0 {
        seq![]
    } else {
        let n = count - 1;
        let before = edges_of(world, walks, cell, sides, n as nat);
        match edge_text(world, walks, cell, neighbour(cell, sides[n / 3], n % 3)) {
            Some(edge) => before.push(edge),
            None => before,
        }
    }
}

/// What stands around dust: its edges, and what lies on it.
pub open spec fn surroundings(
    world: World,
    walks: Seq<(Position, Position)>,
    cell: Position,
    sides: Seq<Facing>,
) -> Seq<char> {
    "  edges: ["@ + strength_differential::joined_names(
        edges_of(world, walks, cell, sides, 3 * sides.len()),
    ) + "]  lid above: "@ + kind_text(
        strength_differential::at_cell(
            world,
            Position { x: cell.x, y: (cell.y + 1) as i32, z: cell.z },
        ).kind,
    )
}

pub open spec fn diff_text(diff: CellDiff) -> Seq<char> {
    "    "@ + cell_text(diff.position) + " "@ + kind_text(diff.kind) + " power "@ + (
    text::decimal(diff.settled_power as nat) + " -> "@ + text::decimal(
        diff.resettled_power as nat,
    ) + " lit "@ + (truth_text(diff.settled_lit) + " -> "@ + truth_text(diff.resettled_lit)))
}

pub open spec fn described(
    world: World,
    walks: Seq<(Position, Position)>,
    sides: Seq<Facing>,
    diff: CellDiff,
) -> Seq<char> {
    if diff.kind == BlockKind::RedstoneWire {
        diff_text(diff) + surroundings(world, walks, diff.position, sides)
    } else {
        diff_text(diff)
    }
}

fn has_walk(walks: &Vec<(Position, Position)>, from: Position, to: Position) -> (found: bool)
    ensures
        found == walks@.contains((from, to)),
{
    let mut at: usize = 0;
    while at < walks.len()
        invariant
            at <= walks@.len(),
            forall|i: int| 0 <= i < at ==> #[trigger] walks@[i] != (from, to),
        decreases walks@.len() - at,
    {
        if walks[at].0 == from && walks[at].1 == to {
            assert(walks@[at as int] == (from, to));
            return true;
        }
        at = at + 1;
    }
    false
}

fn find_edge(
    world: &World,
    walks: &Vec<(Position, Position)>,
    cell: Position,
    next: Position,
) -> (edge: Option<String>)
    requires
        world.wf(),
    ensures
        match edge {
            Some(written) => edge_text(*world, walks@, cell, next) == Some(written@),
            None => edge_text(*world, walks@, cell, next) is None,
        },
{
    if world.get(next.x, next.y, next.z).kind != BlockKind::RedstoneWire {
        return None;
    }
    let incoming: bool = has_walk(walks, next, cell);
    let outgoing: bool = has_walk(walks, cell, next);
    let arrow: &str = if incoming && outgoing {
        "<->"
    } else if incoming {
        "-> (ONE-WAY IN)"
    } else if outgoing {
        "<- (ONE-WAY OUT)"
    } else {
        return None;
    };
    let name: String = name_cell(next);
    Some(text::glue3(name.as_str(), " ", arrow))
}

/// The sides of a cell are looked at in this order.
fn find_edges(
    world: &World,
    walks: &Vec<(Position, Position)>,
    cell: Position,
    sides: &Vec<Facing>,
) -> (edges: Vec<String>)
    requires
        world.wf(),
        inner(cell),
        forall|i: int| 0 <= i < sides@.len() ==> sideways(#[trigger] sides@[i]),
    ensures
        netlist::texts(edges@) == edges_of(*world, walks@, cell, sides@, 3 * sides@.len()),
{
    let mut edges: Vec<String> = Vec::new();
    assert(netlist::texts(edges@) =~= seq![]);
    let mut at: usize = 0;
    while at < sides.len()
        invariant
            world.wf(),
            inner(cell),
            forall|i: int| 0 <= i < sides@.len() ==> sideways(#[trigger] sides@[i]),
            at <= sides@.len(),
            netlist::texts(edges@) == edges_of(*world, walks@, cell, sides@, (3 * at) as nat),
        decreases sides@.len() - at,
    {
        let side: Facing = sides[at];
        let level: Position = cell.offset(side);
        let mut which: usize = 0;
        while which < 3
            invariant
                world.wf(),
                inner(cell),
                sideways(side),
                cell.steps_to(side, level),
                at < sides@.len(),
                sides@[at as int] == side,
                which <= 3,
                netlist::texts(edges@) == edges_of(
                    *world,
                    walks@,
                    cell,
                    sides@,
                    (3 * at + which) as nat,
                ),
            decreases 3 - which,
        {
            let next: Position = if which == 1 {
                level.offset(Facing::Up)
            } else if which == 2 {
                level.offset(Facing::Down)
            } else {
                level
            };
            assert(next == neighbour(cell, side, which as int));
            assert((3 * at + which) / 3 == at && (3 * at + which) % 3 == which);
            let ghost before = netlist::texts(edges@);
            if let Some(edge) = find_edge(world, walks, cell, next) {
                edges.push(edge);
                assert(netlist::texts(edges@) =~= before.push(edge@));
            }
            which = which + 1;
        }
        at = at + 1;
    }
    edges
}

/// A differing cell in words, and of dust, how it and its neighbours power each
/// other. An edge that leads only one way is how dust is missed.
pub fn describe(
    world: &World,
    walks: &Vec<(Position, Position)>,
    sides: &Vec<Facing>,
    diff: &CellDiff,
) -> (line: String)
    requires
        world.wf(),
        inner(diff.position),
        forall|i: int| 0 <= i < sides@.len() ==> sideways(#[trigger] sides@[i]),
    ensures
        line@ == described(*world, walks@, sides@, *diff),
{
    let place: String = name_cell(diff.position);
    let lit: String = text::glue3(
        name_truth(diff.settled_lit),
        " -> ",
        name_truth(diff.resettled_lit),
    );
    let settled: String = text::decimal_text(diff.settled_power as u64);
    let resettled: String = text::decimal_text(diff.resettled_power as u64);
    let mut power: String = text::glue3(settled.as_str(), " -> ", resettled.as_str());
    power.append(" lit ");
    power.append(lit.as_str());
    let mut line: String = text::glue5(
        "    ",
        place.as_str(),
        " ",
        name_kind(diff.kind),
        " power ",
    );
    line.append(power.as_str());
    assert(line@ =~= diff_text(*diff));
    if diff.kind == BlockKind::RedstoneWire {
        let edges: Vec<String> = find_edges(world, walks, diff.position, sides);
        let joined: String = strength_differential::join_names(&edges);
        let above: Position = diff.position.offset(Facing::Up);
        let lid: BlockKind = world.get(above.x, above.y, above.z).kind;
        let mut extra: String = text::glue3("  edges: [", joined.as_str(), "]  lid above: ");
        extra.append(name_kind(lid));
        line.append(extra.as_str());
    }
    line
}

pub open spec fn summary(label: Seq<char>, diffs: nat, passes: nat) -> Seq<char> {
    label + ": "@ + text::decimal(diffs) + " stale cell(s), fixpoint in "@ + (text::decimal(passes)
        + " pass(es)"@)
}

/// How much of a settled world differs, in words.
pub fn diff_line(label: &str, result: &Resettle) -> (line: String)
    ensures
        line@ == summary(label@, result.diffs@.len(), result.passes as nat),
{
    let diffs: String = text::decimal_text(result.diffs.len() as u64);
    let mut passes: String = text::decimal_text(result.passes as u64);
    passes.append(" pass(es)");
    text::glue5(label, ": ", diffs.as_str(), " stale cell(s), fixpoint in ", passes.as_str())
}

/// A world with one repeater turned round.
pub fn reversed(base: &World, cell: Position) -> (world: World)
    requires
        base.wf(),
        base.states().len() < u32::MAX,
        strength_differential::at_cell(*base, cell).kind == BlockKind::Repeater,
        strength_differential::at_cell(*base, cell).facing is Some,
    ensures
        world.wf(),
        world.sizes() == base.sizes(),
        forall|other: Position| #[trigger]
            strength_differential::at_cell(world, other) == (if other == cell {
                (block::BlockView {
                    facing: Some(
                        position::opposite(
                            strength_differential::at_cell(*base, cell).facing->0,
                        ),
                    ),
                    ..strength_differential::at_cell(*base, cell)
                })
            } else {
                strength_differential::at_cell(*base, other)
            }),
{
    let mut world: World = base.duplicate();
    assert(world.wf());
    assert(forall|other: Position| #[trigger]
        strength_differential::at_cell(world, other) == strength_differential::at_cell(
            *base,
            other,
        ));
    let mut state: BlockState = world.get(cell.x, cell.y, cell.z).clone();
    assert(state@ == strength_differential::at_cell(*base, cell));
    assert(world.holds(cell.x as int, cell.y as int, cell.z as int));
    let turned: Option<Facing> = match state.facing {
        Some(Facing::North) => Some(Facing::South),
        Some(Facing::South) => Some(Facing::North),
        Some(Facing::East) => Some(Facing::West),
        Some(Facing::West) => Some(Facing::East),
        Some(Facing::Up) => Some(Facing::Down),
        Some(Facing::Down) => Some(Facing::Up),
        None => None,
    };
    state.facing = turned;
    let ghost next = state@;
    world.set(cell.x, cell.y, cell.z, state);
    assert(next =~= (block::BlockView {
        facing: Some(
            position::opposite(strength_differential::at_cell(*base, cell).facing->0),
        ),
        ..strength_differential::at_cell(*base, cell)
    }));
    world
}

/// A world as it was settled in one go with its levers thrown, and settled again.
#[derive(Debug)]
pub struct SettledVector {
    pub settled: World,
    pub result: Resettle,
}

/// What a sweep over all settings of the inputs found.
#[derive(Debug)]
pub struct Sweep {
    pub vectors: usize,
    pub vectors_with_diffs: usize,
    pub total_stale: usize,
    /// The outputs that read differently once the world is settled again.
    pub output_moves: Vec<String>,
    /// What there is to say of the vectors at which anything differs.
    pub lines: Vec<String>,
}

pub open spec fn bits_text(bits: Seq<bool>) -> Seq<char> {
    Seq::new(
        bits.len(),
        |i: int|
            if bits[i] {
                '1'
            } else {
                '0'
            },
    )
}

/// The setting of the inputs with a number, as a binary number with a digit for
/// each input.
pub open spec fn mask_text(inputs: nat, mask: nat) -> Seq<char> {
    if inputs == 0 {
        "0"@
    } else {
        bits_text(strength_differential::vector_of(inputs, mask))
    }
}

fn name_mask(inputs: usize, mask: usize) -> (name: String)
    ensures
        name@ == mask_text(inputs as nat, mask as nat),
{
    if inputs == 0 {
        return "0".to_owned();
    }
    let bits: Vec<bool> = strength_differential::input_vector(inputs, mask);
    let mut name: String = "".to_owned();
    proof {
        reveal_strlit("");
        reveal_strlit("0");
        reveal_strlit("1");
        assert(name@ =~= bits_text(bits@.take(0)));
    }
    let mut at: usize = 0;
    while at < bits.len()
        invariant
            at <= bits@.len(),
            name@ == bits_text(bits@.take(at as int)),
        decreases bits@.len() - at,
    {
        proof {
            reveal_strlit("0");
            reveal_strlit("1");
        }
        if bits[at] {
            name.append("1");
        } else {
            name.append("0");
        }
        at = at + 1;
        assert(name@ =~= bits_text(bits@.take(at as int)));
    }
    assert(bits@.take(at as int) =~= bits@);
    name
}

/// The name of a circuit at a setting of its inputs.
pub open spec fn labelled(name: Seq<char>, inputs: nat, mask: nat) -> Seq<char> {
    name + " mask "@ + mask_text(inputs, mask)
}

pub open spec fn move_text(
    label: Seq<char>,
    output: Seq<char>,
    settled: bool,
    resettled: bool,
) -> Seq<char> {
    label + " output `"@ + output + "`: settled "@ + (truth_text(settled) + ", re-settled "@
        + truth_text(resettled))
}

/// The outputs among the first `count` that read differently at a setting.
pub open spec fn moves_at(
    label: Seq<char>,
    outputs: Seq<(String, Position)>,
    vector: SettledVector,
    count: nat,
) -> Seq<Seq<char>>
    decreases count,
{
    if count == 0 {
        seq![]
    } else {
        let (output, cell) = outputs[count - 1];
        let before = moves_at(label, outputs, vector, (count - 1) as nat);
        let settled = strength_differential::at_cell(vector.settled, cell).lit;
        let resettled = strength_differential::at_cell(vector.result.world, cell).lit;
        if settled != resettled {
            before.push(move_text(label, output@, settled, resettled))
        } else {
            before
        }
    }
}

/// The outputs that read differently, at the first `count` settings.
pub open spec fn all_moves(
    name: Seq<char>,
    inputs: nat,
    outputs: Seq<(String, Position)>,
    vectors: Seq<SettledVector>,
    count: nat,
) -> Seq<Seq<char>>
    decreases count,
{
    if count == 0 {
        seq![]
    } else {
        let at = (count - 1) as nat;
        all_moves(name, inputs, outputs, vectors, at) + moves_at(
            labelled(name, inputs, at),
            outputs,
            vectors[at as int],
            outputs.len(),
        )
    }
}

/// The first `count` differing cells of a vector, described.
pub open spec fn descriptions(result: Resettle, sides: Seq<Facing>, count: nat) -> Seq<Seq<char>> {
    Seq::new(
        count,
        |i: int| described(result.world, result.walks@, sides, result.diffs@[i]),
    )
}

/// What there is to say of a vector: nothing, where nothing differs.
pub open spec fn lines_at(
    label: Seq<char>,
    result: Resettle,
    sides: Seq<Facing>,
    verbose: bool,
) -> Seq<Seq<char>> {
    let head = seq![summary(label, result.diffs@.len(), result.passes as nat)];
    if result.diffs@.len() == 0 {
        seq![]
    } else if verbose {
        head + descriptions(result, sides, result.diffs@.len())
    } else {
        head
    }
}

pub open spec fn all_lines(
    name: Seq<char>,
    inputs: nat,
    vectors: Seq<SettledVector>,
    sides: Seq<Facing>,
    verbose: bool,
    count: nat,
) -> Seq<Seq<char>>
    decreases count,
{
    if count == 0 {
        seq![]
    } else {
        let at = (count - 1) as nat;
        all_lines(name, inputs, vectors, sides, verbose, at) + lines_at(
            labelled(name, inputs, at),
            vectors[at as int].result,
            sides,
            verbose,
        )
    }
}

/// How many of the first `count` settings have a cell that differs.
pub open spec fn differing(vectors: Seq<SettledVector>, count: nat) -> nat
    decreases count,
{
    if count == 0 {
        0
    } else {
        differing(vectors, (count - 1) as nat) + (if vectors[count - 1].result.diffs@.len() == 0 {
            0nat
        } else {
            1
        })
    }
}

/// How many cells differ, over the first `count` settings.
pub open spec fn stale_cells(vectors: Seq<SettledVector>, count: nat) -> nat
    decreases count,
{
    if count == 0 {
        0
    } else {
        stale_cells(vectors, (count - 1) as nat) + vectors[count - 1].result.diffs@.len()
    }
}

proof fn lemma_stale_grows(vectors: Seq<SettledVector>, few: nat, many: nat)
    requires
        few <= many,
    ensures
        stale_cells(vectors, few) <= stale_cells(vectors, many),
    decreases many,
{
    if few < many {
        lemma_stale_grows(vectors, few, (many - 1) as nat);
    }
}

/// No more settings differ than cells do, and a sweep without stale cells is one
/// in which no setting differs: each agrees with the world settled again.
pub proof fn lemma_clean_sweep(vectors: Seq<SettledVector>, count: nat)
    requires
        count <= vectors.len(),
    ensures
        differing(vectors, count) <= stale_cells(vectors, count),
        differing(vectors, count) <= count,
        differing(vectors, count) == 0 <==> stale_cells(vectors, count) == 0,
        stale_cells(vectors, count) == 0 <==> forall|v: int|
            0 <= v < count ==> (#[trigger] vectors[v]).result.diffs@.len() == 0,
    decreases count,
{
    if count > 0 {
        lemma_clean_sweep(vectors, (count - 1) as nat);
    }
}

/// The worlds hold together, and every cell that differs has neighbours.
pub open spec fn vectors_ok(vectors: Seq<SettledVector>) -> bool {
    forall|v: int|
        0 <= v < vectors.len() ==> {
            &&& (#[trigger] vectors[v]).settled.wf()
            &&& vectors[v].result.world.wf()
            &&& forall|d: int|
                0 <= d < vectors[v].result.diffs@.len() ==> inner(
                    (#[trigger] vectors[v].result.diffs@[d]).position,
                )
        }
}

fn push_moves(
    moves: &mut Vec<String>,
    label: &str,
    outputs: &Vec<(String, Position)>,
    vector: &SettledVector,
)
    requires
        vector.settled.wf(),
        vector.result.world.wf(),
    ensures
        netlist::texts(final(moves)@) == netlist::texts(old(moves)@) + moves_at(
            label@,
            outputs@,
            *vector,
            outputs@.len(),
        ),
{
    let ghost start = netlist::texts(moves@);
    let mut at: usize = 0;
    assert(netlist::texts(moves@) =~= start + moves_at(label@, outputs@, *vector, 0));
    while at < outputs.len()
        invariant
            start == netlist::texts(old(moves)@),
            vector.settled.wf(),
            vector.result.world.wf(),
            at <= outputs@.len(),
            netlist::texts(moves@) == start + moves_at(label@, outputs@, *vector, at as nat),
        decreases outputs@.len() - at,
    {
        let cell: Position = outputs[at].1;
        let settled: bool = vector.settled.get(cell.x, cell.y, cell.z).lit;
        let resettled: bool = vector.result.world.get(cell.x, cell.y, cell.z).lit;
        let ghost before = netlist::texts(moves@);
        if settled != resettled {
            let readings: String = text::glue3(
                name_truth(settled),
                ", re-settled ",
                name_truth(resettled),
            );
            let line: String = text::glue5(
                label,
                " output `",
                outputs[at].0.as_str(),
                "`: settled ",
                readings.as_str(),
            );
            moves.push(line);
            assert(netlist::texts(moves@) =~= before.push(line@));
            assert(netlist::texts(moves@) =~= start + moves_at(
                label@,
                outputs@,
                *vector,
                (at + 1) as nat,
            ));
        }
        at = at + 1;
    }
}

fn push_lines(
    lines: &mut Vec<String>,
    label: &str,
    result: &Resettle,
    sides: &Vec<Facing>,
    verbose: bool,
)
    requires
        result.world.wf(),
        forall|d: int|
            0 <= d < result.diffs@.len() ==> inner((#[trigger] result.diffs@[d]).position),
        forall|i: int| 0 <= i < sides@.len() ==> sideways(#[trigger] sides@[i]),
    ensures
        netlist::texts(final(lines)@) == netlist::texts(old(lines)@) + lines_at(
            label@,
            *result,
            sides@,
            verbose,
        ),
{
    let ghost start = netlist::texts(lines@);
    if result.diffs.len() == 0 {
        assert(netlist::texts(lines@) =~= start + lines_at(label@, *result, sides@, verbose));
        return;
    }
    let head: String = diff_line(label, result);
    let ghost headed = start.push(head@);
    lines.push(head);
    assert(netlist::texts(lines@) =~= headed);
    if !verbose {
        assert(headed =~= start + lines_at(label@, *result, sides@, verbose));
        return;
    }
    let mut at: usize = 0;
    assert(headed =~= headed + descriptions(*result, sides@, 0));
    while at < result.diffs.len()
        invariant
            result.world.wf(),
            forall|d: int|
                0 <= d < result.diffs@.len() ==> inner((#[trigger] result.diffs@[d]).position),
            forall|i: int| 0 <= i < sides@.len() ==> sideways(#[trigger] sides@[i]),
            at <= result.diffs@.len(),
            netlist::texts(lines@) == headed + descriptions(*result, sides@, at as nat),
        decreases result.diffs@.len() - at,
    {
        let line: String = describe(&result.world, &result.walks, sides, &result.diffs[at]);
        let ghost before = netlist::texts(lines@);
        lines.push(line);
        at = at + 1;
        assert(netlist::texts(lines@) =~= before.push(line@));
        assert(netlist::texts(lines@) =~= headed + descriptions(*result, sides@, at as nat));
    }
    assert(netlist::texts(lines@) =~= start + lines_at(label@, *result, sides@, verbose));
}

/// Holds every setting of a circuit's inputs against the world settled again.
pub fn sweep_compiled(
    name: &str,
    inputs: usize,
    outputs: &Vec<(String, Position)>,
    vectors: &Vec<SettledVector>,
    sides: &Vec<Facing>,
    verbose: bool,
) -> (sweep: Sweep)
    requires
        vectors@.len() == vstd::arithmetic::power2::pow2(inputs as nat),
        vectors_ok(vectors@),
        stale_cells(vectors@, vectors@.len()) <= usize::MAX,
        forall|i: int| 0 <= i < sides@.len() ==> sideways(#[trigger] sides@[i]),
    ensures
        sweep.vectors == vectors@.len(),
        sweep.vectors_with_diffs == differing(vectors@, vectors@.len()),
        sweep.total_stale == stale_cells(vectors@, vectors@.len()),
        netlist::texts(sweep.output_moves@) == all_moves(
            name@,
            inputs as nat,
            outputs@,
            vectors@,
            vectors@.len(),
        ),
        sweep.output_moves@.len() == 0 <==> forall|v: int, o: int|
            0 <= v < vectors@.len() && 0 <= o < outputs@.len() ==> {
                let cell = (#[trigger] outputs@[o]).1;
                (#[trigger] vectors@[v]).settled.at(cell.x as int, cell.y as int, cell.z as int).lit
                    == vectors@[v].result.world.at(
                    cell.x as int,
                    cell.y as int,
                    cell.z as int,
                ).lit
            },
        netlist::texts(sweep.lines@) == all_lines(
            name@,
            inputs as nat,
            vectors@,
            sides@,
            verbose,
            vectors@.len(),
        ),
{
    let mut vectors_with_diffs: usize = 0;
    let mut total_stale: usize = 0;
    let mut output_moves: Vec<String> = Vec::new();
    let mut lines: Vec<String> = Vec::new();
    assert(netlist::texts(output_moves@) =~= seq![]);
    assert(netlist::texts(lines@) =~= seq![]);
    let mut mask: usize = 0;
    while mask < vectors.len()
        invariant
            vectors_ok(vectors@),
            stale_cells(vectors@, vectors@.len()) <= usize::MAX,
            forall|i: int| 0 <= i < sides@.len() ==> sideways(#[trigger] sides@[i]),
            mask <= vectors@.len(),
            vectors_with_diffs <= mask,
            vectors_with_diffs == differing(vectors@, mask as nat),
            total_stale == stale_cells(vectors@, mask as nat),
            netlist::texts(output_moves@) == all_moves(
                name@,
                inputs as nat,
                outputs@,
                vectors@,
                mask as nat,
            ),
            netlist::texts(lines@) == all_lines(
                name@,
                inputs as nat,
                vectors@,
                sides@,
                verbose,
                mask as nat,
            ),
        decreases vectors@.len() - mask,
    {
        let vector: &SettledVector = &vectors[mask];
        proof {
            lemma_stale_grows(vectors@, (mask + 1) as nat, vectors@.len());
        }
        let setting: String = name_mask(inputs, mask);
        let label: String = text::glue3(name, " mask ", setting.as_str());
        push_lines(&mut lines, label.as_str(), &vector.result, sides, verbose);
        push_moves(&mut output_moves, label.as_str(), outputs, vector);
        if vector.result.diffs.len() > 0 {
            vectors_with_diffs = vectors_with_diffs + 1;
        }
        total_stale = total_stale + vector.result.diffs.len();
        mask = mask + 1;
    }
    proof {
        resettle_laws::lemma_one_move_for_each_that_differs(
            name@,
            inputs as nat,
            outputs@,
            vectors@,
            vectors@.len(),
        );
        assert(netlist::texts(output_moves@).len() == output_moves@.len());
    }
    Sweep { vectors: vectors.len(), vectors_with_diffs, total_stale, output_moves, lines }
}

} // verus!
