//! What the routes of a compiled circuit cost: each routed edge is taken apart
//! into structural parts, and the blocks of each part are counted where they
//! stand in the world. Repeaters are counted apart, since they alone delay a
//! signal.
//!
//! A part is described by the cells that it runs through; what it costs is read
//! off the world.

use crate::compile::circuit;
use crate::compile::circuit::CompiledCircuit;
use crate::compile::netlist;
use crate::compile::netlist::{CompileError, Netlist};
use crate::redstone::block::{BlockKind, Facing};
use crate::redstone::position::Position;
use crate::redstone::world::World;
use crate::text;
use vstd::prelude::*;

verus! {

/// A structural part of a route.
#[derive(Debug, Clone, Copy, PartialEq, Eq, PartialOrd, Ord, Hash, Structural)]
pub enum RoutePart {
    /// A run of dust at the level of the gates.
    Column,
    /// A staircase between the gates and a track.
    Ramp,
    /// A share of a track that runs from west to east.
    Track,
    /// The last cells into a gate's socket.
    GateEntry,
    /// A whole edge at the level of the gates, with no ramp and no track.
    Bypass,
}

/// How many blocks of dust and repeaters, and how many of them are repeaters.
#[derive(Debug, Clone, Copy, PartialEq, Eq, Structural)]
pub struct PartTotals {
    pub length: i64,
    pub repeaters: usize,
}

/// What one cell counts: how much to the length, and how much to the repeaters.
pub open spec fn cell_count(world: World, cell: Position) -> (nat, nat) {
    match world.at(cell.x as int, cell.y as int, cell.z as int).kind {
        BlockKind::Repeater => (1, 1),
        BlockKind::RedstoneWire => (1, 0),
        _ => (0, 0),
    }
}

/// What cells count together.
pub open spec fn tally(world: World, cells: Seq<Position>) -> (nat, nat)
    decreases cells.len(),
{
    if cells.len() == 0 {
        (0, 0)
    } else {
        let before = tally(world, cells.drop_last());
        let last = cell_count(world, cells.last());
        (before.0 + last.0, before.1 + last.1)
    }
}

/// Cells that come one after the other count together what each of the two lists
/// counts.
pub proof fn lemma_tally_adds(world: World, one: Seq<Position>, two: Seq<Position>)
    ensures
        tally(world, one + two).0 == tally(world, one).0 + tally(world, two).0,
        tally(world, one + two).1 == tally(world, one).1 + tally(world, two).1,
    decreases two.len(),
{
    if two.len() > 0 {
        assert((one + two).drop_last() =~= one + two.drop_last());
        lemma_tally_adds(world, one, two.drop_last());
    } else {
        assert(one + two =~= one);
    }
}

/// There are no more repeaters than blocks, and no more blocks than cells.
pub proof fn lemma_tally_bounds(world: World, cells: Seq<Position>)
    ensures
        tally(world, cells).1 <= tally(world, cells).0 <= cells.len(),
    decreases cells.len(),
{
    if cells.len() > 0 {
        lemma_tally_bounds(world, cells.drop_last());
    }
}

/// The count fits into the numbers that hold it.
pub open spec fn fits(count: (nat, nat)) -> bool {
    count.0 <= i64::MAX && count.1 <= usize::MAX
}

impl PartTotals {
    pub open spec fn is_count(self, count: (nat, nat)) -> bool {
        self.length == count.0 && self.repeaters == count.1
    }

    pub fn none() -> (totals: PartTotals)
        ensures
            totals.is_count((0, 0)),
    {
        PartTotals { length: 0, repeaters: 0 }
    }

    /// Both together.
    pub fn plus(self, other: PartTotals) -> (sum: PartTotals)
        requires
            i64::MIN <= self.length + other.length <= i64::MAX,
            self.repeaters + other.repeaters <= usize::MAX,
        ensures
            sum.length == self.length + other.length,
            sum.repeaters == self.repeaters + other.repeaters,
    {
        PartTotals {
            length: self.length + other.length,
            repeaters: self.repeaters + other.repeaters,
        }
    }
}

/// What has been counted of a stretch of cells, before it is added to a part.
#[derive(Clone, Copy)]
struct Scan {
    length: u64,
    repeaters: u64,
}

impl Scan {
    spec fn is_count(self, count: (nat, nat)) -> bool {
        self.length == count.0 && self.repeaters == count.1
    }

    fn none() -> (scan: Scan)
        ensures
            scan.is_count((0, 0)),
    {
        Scan { length: 0, repeaters: 0 }
    }

    /// Both together.
    fn plus(self, other: Scan) -> (sum: Scan)
        requires
            self.length + other.length <= u64::MAX,
            self.repeaters + other.repeaters <= u64::MAX,
        ensures
            sum.length == self.length + other.length,
            sum.repeaters == self.repeaters + other.repeaters,
    {
        Scan { length: self.length + other.length, repeaters: self.repeaters + other.repeaters }
    }

    /// The count in the numbers that hold it.
    fn totals(self) -> (totals: PartTotals)
        requires
            fits((self.length as nat, self.repeaters as nat)),
        ensures
            totals.is_count((self.length as nat, self.repeaters as nat)),
    {
        PartTotals { length: self.length as i64, repeaters: self.repeaters as usize }
    }
}

impl Default for PartTotals {
    fn default() -> (totals: PartTotals)
        ensures
            totals == (PartTotals { length: 0, repeaters: 0 }),
    {
        PartTotals { length: 0, repeaters: 0 }
    }
}

/// What each part of a route counts; a part that does not occur has no entry.
#[derive(Debug, Clone, Copy, PartialEq, Eq, Structural)]
pub struct RouteParts {
    pub column: Option<PartTotals>,
    pub ramp: Option<PartTotals>,
    pub track: Option<PartTotals>,
    pub gate_entry: Option<PartTotals>,
    pub bypass: Option<PartTotals>,
}

impl RouteParts {
    pub open spec fn entry(self, part: RoutePart) -> Option<PartTotals> {
        match part {
            RoutePart::Column => self.column,
            RoutePart::Ramp => self.ramp,
            RoutePart::Track => self.track,
            RoutePart::GateEntry => self.gate_entry,
            RoutePart::Bypass => self.bypass,
        }
    }

    /// The totals are those of the cells that each part runs through.
    pub open spec fn counts(self, world: World, cells: Map<RoutePart, Seq<Position>>) -> bool {
        forall|part: RoutePart|
            match #[trigger] self.entry(part) {
                Some(totals) => cells.dom().contains(part) && totals.is_count(
                    tally(world, cells[part]),
                ),
                None => !cells.dom().contains(part),
            }
    }

    pub fn empty() -> (parts: RouteParts)
        ensures
            forall|part: RoutePart| (#[trigger] parts.entry(part)) is None,
    {
        RouteParts { column: None, ramp: None, track: None, gate_entry: None, bypass: None }
    }

    pub fn get(&self, part: RoutePart) -> (totals: Option<PartTotals>)
        ensures
            totals == self.entry(part),
    {
        match part {
            RoutePart::Column => self.column,
            RoutePart::Ramp => self.ramp,
            RoutePart::Track => self.track,
            RoutePart::GateEntry => self.gate_entry,
            RoutePart::Bypass => self.bypass,
        }
    }

    /// Adds to one part.
    fn add(
        &mut self,
        part: RoutePart,
        more: Scan,
        Ghost(world): Ghost<World>,
        Ghost(before): Ghost<Seq<Segment>>,
        Ghost(next): Ghost<Segment>,
        Ghost(all): Ghost<Seq<Segment>>,
    )
        requires
            old(self).counts(world, route(before)),
            next.part == part,
            more.is_count(tally(world, next.cells)),
            before.push(next).is_prefix_of(all),
            route_fits(world, route(all)),
        ensures
            final(self).counts(world, route(before.push(next))),
    {
        let ghost cells = next.cells;
        let ghost after = joined(route(before), part, cells);
        let ghost start = *self;
        proof {
            assert(before.push(next).drop_last() =~= before);
            assert(route(before.push(next)) == after);
            lemma_prefix_counts_less(world, all, before.len() + 1);
            assert(all.take((before.len() + 1) as int) =~= before.push(next));
            assert(after.dom().contains(part));
        }
        let sum: PartTotals = match self.get(part) {
            Some(totals) => {
                proof {
                    assert(self.entry(part) is Some);
                    lemma_tally_adds(world, route(before)[part], cells);
                }
                totals.plus(more.totals())
            },
            None => {
                assert(self.entry(part) is None);
                more.totals()
            },
        };
        match part {
            RoutePart::Column => {
                self.column = Some(sum);
            },
            RoutePart::Ramp => {
                self.ramp = Some(sum);
            },
            RoutePart::Track => {
                self.track = Some(sum);
            },
            RoutePart::GateEntry => {
                self.gate_entry = Some(sum);
            },
            RoutePart::Bypass => {
                self.bypass = Some(sum);
            },
        }
        proof {
            assert forall|other: RoutePart| match #[trigger] self.entry(other) {
                Some(totals) => after.dom().contains(other) && totals.is_count(
                    tally(world, after[other]),
                ),
                None => !after.dom().contains(other),
            } by {
                assert(start.entry(other) is Some || start.entry(other) is None);
                if other == part {
                    assert(self.entry(other) == Some(sum));
                } else {
                    assert(self.entry(other) == start.entry(other));
                }
            }
        }
    }
}

/// A stretch of a route: the part it belongs to, and the cells it runs through.
#[verifier::ext_equal]
pub struct Segment {
    pub part: RoutePart,
    pub cells: Seq<Position>,
}

/// The cells of each part of a route.
pub open spec fn route(segments: Seq<Segment>) -> Map<RoutePart, Seq<Position>>
    decreases segments.len(),
{
    if segments.len() == 0 {
        Map::empty()
    } else {
        joined(route(segments.drop_last()), segments.last().part, segments.last().cells)
    }
}

/// The start of a route counts no more than the whole.
proof fn lemma_prefix_counts_less(world: World, segments: Seq<Segment>, count: nat)
    requires
        count <= segments.len(),
    ensures
        goes_on(world, route(segments.take(count as int)), route(segments)),
    decreases segments.len() - count,
{
    if count < segments.len() {
        lemma_prefix_counts_less(world, segments, count + 1);
        let longer = segments.take((count + 1) as int);
        assert(longer.drop_last() =~= segments.take(count as int));
        lemma_joined_goes_on(
            world,
            route(segments.take(count as int)),
            longer.last().part,
            longer.last().cells,
        );
    } else {
        assert(segments.take(count as int) =~= segments);
    }
}

/// A route with more cells in one part.
pub open spec fn joined(
    route: Map<RoutePart, Seq<Position>>,
    part: RoutePart,
    cells: Seq<Position>,
) -> Map<RoutePart, Seq<Position>> {
    route.insert(
        part,
        if route.dom().contains(part) {
            route[part] + cells
        } else {
            cells
        },
    )
}

/// A route goes on from another: no part counts less.
pub open spec fn goes_on(
    world: World,
    before: Map<RoutePart, Seq<Position>>,
    after: Map<RoutePart, Seq<Position>>,
) -> bool {
    forall|part: RoutePart| #[trigger]
        before.dom().contains(part) ==> after.dom().contains(part) && tally(world, before[part]).0
            <= tally(world, after[part]).0 && tally(world, before[part]).1 <= tally(
            world,
            after[part],
        ).1
}

proof fn lemma_joined_goes_on(
    world: World,
    route: Map<RoutePart, Seq<Position>>,
    part: RoutePart,
    cells: Seq<Position>,
)
    ensures
        goes_on(world, route, joined(route, part, cells)),
{
    if route.dom().contains(part) {
        lemma_tally_adds(world, route[part], cells);
    }
}

pub open spec fn route_fits(world: World, route: Map<RoutePart, Seq<Position>>) -> bool {
    forall|part: RoutePart| #[trigger]
        route.dom().contains(part) ==> fits(tally(world, route[part]))
}

/// The cells between two, in a straight line; neither end is among them.
pub open spec fn run_cells(start: Position, length: nat) -> Seq<Position> {
    Seq::new(
        length,
        |i: int| Position { x: start.x, y: start.y, z: (start.z - 1 - i) as i32 },
    )
}

/// The cells of a track from one column to another; the first is not among
/// them.
pub open spec fn track_cells(from: i32, to: i32, y: i32, z: i32) -> Seq<Position> {
    Seq::new(
        (if to > from {
            to - from
        } else {
            from - to
        }) as nat,
        |i: int|
            Position {
                x: (if to > from {
                    from + 1 + i
                } else {
                    from - 1 - i
                }) as i32,
                y,
                z,
            },
    )
}

/// The cells of a staircase, level by level northwards. Every `rest` levels
/// there is a rest of two flat cells before the next step.
pub open spec fn ramp_cells(entry: Position, levels: nat, climbing: bool, rest: int) -> Seq<Position>
    decreases levels,
{
    if levels == 0 {
        seq![]
    } else {
        let before = ramp_cells(entry, (levels - 1) as nat, climbing, rest);
        let end = ramp_end(entry, (levels - 1) as nat, climbing, rest);
        let landing = ramp_end(entry, levels, climbing, rest);
        if rests_at(levels - 1, rest) {
            before + seq![
                Position { x: end.x, y: end.y, z: (end.z - 1) as i32 },
                Position { x: end.x, y: end.y, z: (end.z - 2) as i32 },
                landing,
            ]
        } else {
            before.push(landing)
        }
    }
}

pub open spec fn rests_at(level: int, rest: int) -> bool {
    level > 0 && level % rest == 0
}

/// How many rests there are before a level.
pub open spec fn rests_before(levels: nat, rest: int) -> nat
    decreases levels,
{
    if levels == 0 {
        0
    } else {
        rests_before((levels - 1) as nat, rest) + (if rests_at(levels - 1, rest) {
            1nat
        } else {
            0nat
        })
    }
}

/// Where a staircase has come to after some levels.
pub open spec fn ramp_end(entry: Position, levels: nat, climbing: bool, rest: int) -> Position {
    Position {
        x: entry.x,
        y: (if climbing {
            entry.y + levels
        } else {
            entry.y - levels
        }) as i32,
        z: (entry.z - levels - 2 * rests_before(levels, rest)) as i32,
    }
}

/// The cells of a straight leg, along `x`, then `y`, then `z`; the first cell is
/// not among them and the last is.
pub open spec fn leg_cells(from: Position, to: Position) -> Seq<Position> {
    axis_cells(from, to.x - from.x, 0) + axis_cells(
        Position { x: to.x, ..from },
        to.y - from.y,
        1,
    ) + axis_cells(Position { z: from.z, ..to }, to.z - from.z, 2)
}

/// The cells reached by so many steps along one axis.
pub open spec fn axis_cells(from: Position, distance: int, axis: int) -> Seq<Position> {
    Seq::new(
        (if distance < 0 {
            -distance
        } else {
            distance
        }) as nat,
        |i: int| shifted(from, if distance < 0 {
            -1 - i
        } else {
            1 + i
        }, axis),
    )
}

pub open spec fn shifted(from: Position, by: int, axis: int) -> Position {
    if axis == 0 {
        Position { x: (from.x + by) as i32, ..from }
    } else if axis == 1 {
        Position { y: (from.y + by) as i32, ..from }
    } else {
        Position { z: (from.z + by) as i32, ..from }
    }
}

/// The cells of a path that bends at each of its waypoints. Its start is not
/// among them and its end is.
pub open spec fn bent_cells(start: Position, waypoints: Seq<Position>) -> Seq<Position>
    decreases waypoints.len(),
{
    if waypoints.len() == 0 {
        seq![]
    } else {
        let before = waypoints.drop_last();
        bent_cells(start, before) + leg_cells(
            if before.len() == 0 {
                start
            } else {
                before.last()
            },
            waypoints.last(),
        )
    }
}

/// A coordinate, or a sum of coordinates, is a number of 32 bits.
pub open spec fn in_range(value: int) -> bool {
    i32::MIN <= value <= i32::MAX
}

/// A staircase of so many levels ends among the coordinates.
pub open spec fn ramp_ends(z: int, levels: nat, rest: int) -> bool {
    in_range(z - levels - 2 * rests_before(levels, rest))
}

fn classify(world: &World, cell: Position) -> (totals: Scan)
    requires
        world.wf(),
    ensures
        totals.is_count(cell_count(*world, cell)),
{
    match world.get(cell.x, cell.y, cell.z).kind {
        BlockKind::Repeater => Scan { length: 1, repeaters: 1 },
        BlockKind::RedstoneWire => Scan { length: 1, repeaters: 0 },
        _ => Scan { length: 0, repeaters: 0 },
    }
}

proof fn lemma_tally_pushed(world: World, cells: Seq<Position>, next: Position)
    ensures
        tally(world, cells.push(next)).0 == tally(world, cells).0 + cell_count(world, next).0,
        tally(world, cells.push(next)).1 == tally(world, cells).1 + cell_count(world, next).1,
        tally(world, cells).1 <= tally(world, cells).0 <= cells.len(),
{
    assert(cells.push(next).drop_last() =~= cells);
    lemma_tally_bounds(world, cells);
}

/// Counts one more cell of a list.
fn scan_cell(
    world: &World,
    totals: Scan,
    cell: Position,
    Ghost(cells): Ghost<Seq<Position>>,
) -> (more: Scan)
    requires
        world.wf(),
        totals.is_count(tally(*world, cells)),
        cells.len() < u64::MAX,
    ensures
        more.is_count(tally(*world, cells.push(cell))),
{
    proof {
        lemma_tally_pushed(*world, cells, cell);
    }
    totals.plus(classify(world, cell))
}

/// Counts a run of dust northwards from a cell, up to another.
fn scan_dust_run(world: &World, start: Position, stop_before: Position) -> (totals: Scan)
    requires
        world.wf(),
        start.x == stop_before.x,
        start.y == stop_before.y,
        start.z > stop_before.z,
    ensures
        totals.is_count(tally(*world, run_cells(start, (start.z - stop_before.z - 1) as nat))),
{
    let mut totals: Scan = Scan::none();
    let mut z: i32 = start.z - 1;
    assert(run_cells(start, 0) =~= seq![]);
    while z != stop_before.z
        invariant
            world.wf(),
            stop_before.z <= z < start.z,
            totals.is_count(tally(*world, run_cells(start, (start.z - 1 - z) as nat))),
        decreases z - stop_before.z,
    {
        let ghost before = run_cells(start, (start.z - 1 - z) as nat);
        let cell: Position = Position::new(start.x, start.y, z);
        totals = scan_cell(world, totals, cell, Ghost(before));
        z = z - 1;
        assert(run_cells(start, (start.z - 1 - z) as nat) =~= before.push(cell));
    }
    totals
}

/// Counts the share of a track between two columns, without the first.
fn scan_track_to(world: &World, from: i32, to: i32, y: i32, z: i32) -> (totals: Scan)
    requires
        world.wf(),
    ensures
        totals.is_count(tally(*world, track_cells(from, to, y, z))),
{
    let ghost cells = track_cells(from, to, y, z);
    let mut totals: Scan = Scan::none();
    let step: i32 = if to > from {
        1
    } else {
        -1
    };
    let mut x: i32 = from;
    assert(cells.take(0) =~= seq![]);
    while x != to
        invariant
            world.wf(),
            cells == track_cells(from, to, y, z),
            step == (if to > from {
                1int
            } else {
                -1int
            }),
            to > from ==> from <= x <= to,
            to <= from ==> to <= x <= from,
            totals.is_count(tally(*world, cells.take(levels_between(from as int, x as int) as int))),
        decreases levels_between(x as int, to as int),
    {
        let ghost done = levels_between(from as int, x as int) as int;
        x = x + step;
        let cell: Position = Position::new(x, y, z);
        proof {
            assert(0 <= done < cells.len());
            assert(levels_between(from as int, x as int) == done + 1);
            assert(cells.take(done + 1) =~= cells.take(done).push(cells[done]));
        }
        totals = scan_cell(world, totals, cell, Ghost(cells.take(done)));
    }
    assert(cells.take(levels_between(from as int, x as int) as int) =~= cells);
    totals
}

/// Counts a whole track once, to both sides of where it is entered.
fn scan_full_track(world: &World, from: i32, lo: i32, hi: i32, y: i32, z: i32) -> (totals:
    Scan)
    requires
        world.wf(),
    ensures
        totals.is_count(tally(*world, full_track_cells(from, lo, hi, y, z))),
{
    let mut totals: Scan = Scan::none();
    let west: Ghost<Seq<Position>> = Ghost(
        if lo < from {
            track_cells(from, lo, y, z)
        } else {
            seq![]
        },
    );
    if lo < from {
        totals = scan_track_to(world, from, lo, y, z);
    }
    if hi > from {
        let east: Scan = scan_track_to(world, from, hi, y, z);
        proof {
            lemma_tally_bounds(*world, west@);
            lemma_tally_bounds(*world, track_cells(from, hi, y, z));
            lemma_tally_adds(*world, west@, track_cells(from, hi, y, z));
        }
        totals = totals.plus(east);
    } else {
        assert(west@ + seq![] =~= west@);
    }
    totals
}

/// The cells of a track to both sides of where it is entered.
pub open spec fn full_track_cells(from: i32, lo: i32, hi: i32, y: i32, z: i32) -> Seq<Position> {
    (if lo < from {
        track_cells(from, lo, y, z)
    } else {
        seq![]
    }) + (if hi > from {
        track_cells(from, hi, y, z)
    } else {
        seq![]
    })
}

/// How many levels there are between two heights.
pub open spec fn levels_between(from: int, to: int) -> nat {
    (if to >= from {
        to - from
    } else {
        from - to
    }) as nat
}

proof fn lemma_rests_bounded(levels: nat, rest: int)
    ensures
        rests_before(levels, rest) <= levels,
    decreases levels,
{
    if levels > 0 {
        lemma_rests_bounded((levels - 1) as nat, rest);
    }
}

proof fn lemma_rests_grow(few: nat, many: nat, rest: int)
    requires
        few <= many,
    ensures
        rests_before(few, rest) <= rests_before(many, rest),
    decreases many,
{
    if few < many {
        lemma_rests_grow(few, (many - 1) as nat, rest);
    }
}

/// A ramp has one cell for each level, and two more for each rest.
pub proof fn lemma_ramp_length(entry: Position, levels: nat, climbing: bool, rest: int)
    ensures
        ramp_cells(entry, levels, climbing, rest).len() == levels + 2 * rests_before(levels, rest),
    decreases levels,
{
    if levels > 0 {
        lemma_ramp_length(entry, (levels - 1) as nat, climbing, rest);
    }
}

/// Counts a staircase from a cell to a height.
fn scan_ramp(world: &World, entry: Position, target_y: i32, rest: i32) -> (totals: Scan)
    requires
        world.wf(),
        rest > 0,
        ramp_ends(
            entry.z as int,
            levels_between(entry.y as int, target_y as int),
            rest as int,
        ),
    ensures
        totals.is_count(
            tally(
                *world,
                ramp_cells(
                    entry,
                    levels_between(entry.y as int, target_y as int),
                    target_y >= entry.y,
                    rest as int,
                ),
            ),
        ),
{
    let climbing: bool = target_y >= entry.y;
    let levels: i64 = if climbing {
        target_y as i64 - entry.y as i64
    } else {
        entry.y as i64 - target_y as i64
    };
    let mut totals: Scan = Scan::none();
    let mut current: Position = entry;
    let mut level: i64 = 0;
    while level < levels
        invariant
            world.wf(),
            rest > 0,
            levels == levels_between(entry.y as int, target_y as int),
            climbing == (target_y >= entry.y),
            0 <= level <= levels <= u32::MAX,
            ramp_ends(entry.z as int, levels as nat, rest as int),
            current == ramp_end(entry, level as nat, climbing, rest as int),
            totals.is_count(
                tally(*world, ramp_cells(entry, level as nat, climbing, rest as int)),
            ),
        decreases levels - level,
    {
        proof {
            lemma_rests_bounded(level as nat, rest as int);
            lemma_rests_grow((level + 1) as nat, levels as nat, rest as int);
            lemma_ramp_length(entry, level as nat, climbing, rest as int);
        }
        let ghost before = ramp_cells(entry, level as nat, climbing, rest as int);
        let ghost end = current;
        let ghost landing = ramp_end(entry, (level + 1) as nat, climbing, rest as int);
        let ghost mut cells = before;
        if level > 0 && level % (rest as i64) == 0 {
            assert(rests_at(level as int, rest as int));
            let first: Position = Position::new(current.x, current.y, current.z - 1);
            totals = scan_cell(world, totals, first, Ghost(cells));
            proof {
                cells = cells.push(first);
            }
            let second: Position = Position::new(current.x, current.y, current.z - 2);
            totals = scan_cell(world, totals, second, Ghost(cells));
            proof {
                cells = cells.push(second);
            }
            current = second;
        }
        let next: Position = if climbing {
            Position::new(current.x, current.y + 1, current.z - 1)
        } else {
            Position::new(current.x, current.y - 1, current.z - 1)
        };
        totals = scan_cell(world, totals, next, Ghost(cells));
        current = next;
        proof {
            assert(next == landing);
            assert(cells.push(next) =~= ramp_cells(
                entry,
                (level + 1) as nat,
                climbing,
                rest as int,
            ));
        }
        level = level + 1;
    }
    totals
}

/// Counts so many steps along one axis.
fn scan_axis(
    world: &World,
    totals: Scan,
    from: Position,
    distance: i64,
    axis: usize,
    Ghost(before): Ghost<Seq<Position>>,
) -> (more: Scan)
    requires
        world.wf(),
        totals.is_count(tally(*world, before)),
        -0x1_0000_0000 <= distance <= 0x1_0000_0000,
        before.len() + 0x1_0000_0000 < u64::MAX,
        axis == 0 ==> i32::MIN <= from.x + distance <= i32::MAX,
        axis == 1 ==> i32::MIN <= from.y + distance <= i32::MAX,
        axis >= 2 ==> i32::MIN <= from.z + distance <= i32::MAX,
    ensures
        more.is_count(
            tally(*world, before + axis_cells(from, distance as int, axis as int)),
        ),
        axis_cells(from, distance as int, axis as int).len() <= 0x1_0000_0000,
{
    let ghost cells = axis_cells(from, distance as int, axis as int);
    let mut more: Scan = totals;
    let step: i64 = if distance < 0 {
        -1
    } else {
        1
    };
    let mut walked: i64 = 0;
    assert(before + cells.take(0) =~= before);
    while walked != distance
        invariant
            world.wf(),
            -0x1_0000_0000 <= distance <= 0x1_0000_0000,
            before.len() + 0x1_0000_0000 < u64::MAX,
            cells == axis_cells(from, distance as int, axis as int),
            step == (if distance < 0 {
                -1int
            } else {
                1int
            }),
            distance < 0 ==> distance <= walked <= 0,
            distance >= 0 ==> 0 <= walked <= distance,
            axis == 0 ==> i32::MIN <= from.x + distance <= i32::MAX,
            axis == 1 ==> i32::MIN <= from.y + distance <= i32::MAX,
            axis >= 2 ==> i32::MIN <= from.z + distance <= i32::MAX,
            more.is_count(tally(*world, before + cells.take(levels_between(0, walked as int) as int))),
        decreases levels_between(walked as int, distance as int),
    {
        let ghost done = levels_between(0, walked as int) as int;
        walked = walked + step;
        let cell: Position = if axis == 0 {
            Position::new((from.x as i64 + walked) as i32, from.y, from.z)
        } else if axis == 1 {
            Position::new(from.x, (from.y as i64 + walked) as i32, from.z)
        } else {
            Position::new(from.x, from.y, (from.z as i64 + walked) as i32)
        };
        proof {
            assert(0 <= done < cells.len());
            assert(levels_between(0, walked as int) == done + 1);
            assert(cells[done] == cell);
            assert(before + cells.take(done + 1) =~= (before + cells.take(done)).push(cell));
        }
        more = scan_cell(world, more, cell, Ghost(before + cells.take(done)));
    }
    assert(cells.take(levels_between(0, walked as int) as int) =~= cells);
    more
}

/// Counts one leg of a path.
fn scan_leg(
    world: &World,
    totals: Scan,
    from: Position,
    to: Position,
    Ghost(before): Ghost<Seq<Position>>,
) -> (more: Scan)
    requires
        world.wf(),
        totals.is_count(tally(*world, before)),
        before.len() + 0x3_0000_0000 < u64::MAX,
    ensures
        more.is_count(tally(*world, before + leg_cells(from, to))),
        leg_cells(from, to).len() <= 0x3_0000_0000,
{
    let ghost xs = axis_cells(from, to.x - from.x, 0);
    let along_x: Scan = scan_axis(
        world,
        totals,
        from,
        to.x as i64 - from.x as i64,
        0,
        Ghost(before),
    );
    let corner: Position = Position::new(to.x, from.y, from.z);
    let ghost ys = axis_cells(corner, to.y - from.y, 1);
    let along_y: Scan = scan_axis(
        world,
        along_x,
        corner,
        to.y as i64 - from.y as i64,
        1,
        Ghost(before + xs),
    );
    let last: Position = Position::new(to.x, to.y, from.z);
    let ghost zs = axis_cells(last, to.z - from.z, 2);
    let along_z: Scan = scan_axis(
        world,
        along_y,
        last,
        to.z as i64 - from.z as i64,
        2,
        Ghost(before + xs + ys),
    );
    assert(before + xs + ys + zs =~= before + leg_cells(from, to));
    along_z
}

/// Counts a path that bends at each of its waypoints.
fn scan_bent_path(world: &World, start: Position, waypoints: &Vec<Position>) -> (totals: Scan)
    requires
        world.wf(),
        waypoints@.len() <= 3,
    ensures
        totals.is_count(tally(*world, bent_cells(start, waypoints@))),
        bent_cells(start, waypoints@).len() <= 3 * 0x3_0000_0000,
{
    let mut totals: Scan = Scan::none();
    let mut from: Position = start;
    let mut at: usize = 0;
    assert(waypoints@.take(0) =~= seq![]);
    while at < waypoints.len()
        invariant
            world.wf(),
            at <= waypoints@.len() <= 3,
            from == (if at == 0 {
                start
            } else {
                waypoints@[at - 1]
            }),
            totals.is_count(tally(*world, bent_cells(start, waypoints@.take(at as int)))),
            bent_cells(start, waypoints@.take(at as int)).len() <= at * 0x3_0000_0000,
        decreases waypoints@.len() - at,
    {
        let ghost before = bent_cells(start, waypoints@.take(at as int));
        proof {
            assert(waypoints@.take(at + 1).drop_last() =~= waypoints@.take(at as int));
        }
        totals = scan_leg(world, totals, from, waypoints[at], Ghost(before));
        from = waypoints[at];
        at = at + 1;
    }
    assert(waypoints@.take(at as int) =~= waypoints@);
    totals
}

/// What drives a net.
#[derive(Debug, Clone, Copy, PartialEq, Eq, Structural)]
pub enum Source {
    /// The lever of an input, by the input's number.
    Lever(usize),
    /// A gate, by its number.
    Gate(usize),
}

/// One track of a channel.
#[derive(Debug, Clone, Copy, PartialEq, Eq, Structural)]
pub struct Track {
    /// Where it runs.
    pub z: i32,
    /// How high it lies.
    pub y: i32,
    /// How long the ramp between it and the gates is.
    pub ramp_length: i32,
}

/// A net, which crosses one channel for each of its slots.
#[derive(Debug)]
pub struct Net {
    pub source: Source,
    /// The column in which it enters its first channel.
    pub entry: i32,
    /// The channel of each slot.
    pub channels: Vec<usize>,
    /// The track of each slot.
    pub tracks: Vec<usize>,
    /// The column in which each slot but the last feeds through to the next.
    pub hops: Vec<i32>,
    /// The gates that each slot reaches, each with the number of its input.
    pub sinks: Vec<Vec<(usize, usize)>>,
    /// Where its direct route begins, if it takes neither ramp nor track.
    pub bypass: Option<Position>,
}

/// Where everything stands.
#[derive(Debug)]
pub struct Geometry {
    /// The height of the gates.
    pub gate_y: i32,
    /// How many levels a ramp climbs between two rests.
    pub rest_interval: i32,
    /// The side on which a gate has its output.
    pub output_direction: Facing,
    /// The column of each gate.
    pub centre_x: Vec<i32>,
    /// The row of each gate.
    pub row_of: Vec<usize>,
    /// Where each row stands.
    pub row_z: Vec<i32>,
    /// The tracks of each channel.
    pub tracks: Vec<Vec<Track>>,
    /// How far from a gate's column each of its inputs is approached.
    pub approach: Vec<i32>,
    /// Where the sockets of a gate are, by how many inputs it has.
    pub input_offsets: Vec<Vec<(i32, i32, i32)>>,
    pub nets: Vec<Net>,
}

pub open spec fn stepped(cell: Position, direction: Facing) -> Position {
    let step = crate::redstone::position::step(direction);
    Position {
        x: (cell.x + step.0) as i32,
        y: (cell.y + step.1) as i32,
        z: (cell.z + step.2) as i32,
    }
}

/// The cell at which the wire from a source begins.
pub open spec fn pin_of(
    list: Netlist,
    compiled: CompiledCircuit,
    geometry: Geometry,
    source: Source,
) -> Position {
    match source {
        Source::Lever(i) => stepped(
            circuit::position_of(compiled.input_positions@, list.inputs@[i as int]@)->0,
            Facing::North,
        ),
        Source::Gate(g) => stepped(
            circuit::position_of(
                compiled.gate_output_positions@,
                list.gates@[g as int].output@,
            )->0,
            geometry.output_direction,
        ),
    }
}

pub open spec fn track_of(geometry: Geometry, net: Net, slot: int) -> Track {
    geometry.tracks@[net.channels@[slot] as int]@[net.tracks@[slot] as int]
}

/// The column in which a net enters a slot.
pub open spec fn entry_column(net: Net, slot: int) -> i32 {
    if slot == 0 {
        net.entry
    } else {
        net.hops@[slot - 1]
    }
}

/// The foot of the ramp into a slot.
pub open spec fn entry_of(geometry: Geometry, net: Net, slot: int) -> Position {
    Position {
        x: entry_column(net, slot),
        y: geometry.gate_y,
        z: (track_of(geometry, net, slot).z + track_of(geometry, net, slot).ramp_length) as i32,
    }
}

/// The foot of the ramp out of a slot, in a column.
pub open spec fn landing_of(geometry: Geometry, net: Net, slot: int, x: i32) -> Position {
    Position {
        x,
        y: geometry.gate_y,
        z: (track_of(geometry, net, slot).z - track_of(geometry, net, slot).ramp_length) as i32,
    }
}

/// The column in which an input of a gate is approached.
pub open spec fn approach_column(geometry: Geometry, gate: usize, input: usize) -> i32 {
    (geometry.centre_x@[gate as int] + geometry.approach@[input as int]) as i32
}

pub open spec fn row_of(geometry: Geometry, gate: usize) -> i32 {
    geometry.row_z@[geometry.row_of@[gate as int] as int]
}

pub open spec fn socket_offset(
    list: Netlist,
    geometry: Geometry,
    gate: usize,
    input: usize,
) -> (i32, i32, i32) {
    geometry.input_offsets@[list.gates@[gate as int].inputs@.len() as int]@[input as int]
}

/// The socket of an input of a gate.
pub open spec fn socket_of(list: Netlist, geometry: Geometry, gate: usize, input: usize) -> Position {
    let offset = socket_offset(list, geometry, gate, input);
    Position {
        x: (geometry.centre_x@[gate as int] + offset.0) as i32,
        y: (geometry.gate_y + offset.1) as i32,
        z: (row_of(geometry, gate) + offset.2) as i32,
    }
}

/// The bends on the way from a landing to a socket: onto the row first, where
/// the socket is in another column.
pub open spec fn entry_bends(landing: Position, socket: Position, row_z: i32) -> Seq<Position> {
    if socket.x != landing.x {
        seq![Position { x: landing.x, y: landing.y, z: row_z }, socket]
    } else {
        seq![socket]
    }
}

/// The bends of a direct route: onto the column of approach, then onto the row.
pub open spec fn bypass_bends(
    start: Position,
    exit_x: i32,
    socket: Position,
    row_z: i32,
) -> Seq<Position> {
    (if start.x != exit_x {
        seq![Position { x: exit_x, y: start.y, z: start.z }]
    } else {
        seq![]
    }) + (if socket.x != exit_x {
        seq![Position { x: exit_x, y: start.y, z: row_z }]
    } else {
        seq![]
    }) + seq![socket]
}

/// The ramp up into a slot.
pub open spec fn ramp_up(geometry: Geometry, net: Net, slot: int) -> Segment {
    let track = track_of(geometry, net, slot);
    Segment {
        part: RoutePart::Ramp,
        cells: ramp_cells(
            entry_of(geometry, net, slot),
            levels_between(geometry.gate_y as int, track.y as int),
            track.y >= geometry.gate_y,
            geometry.rest_interval as int,
        ),
    }
}

/// The ramp down out of a slot, in a column.
pub open spec fn ramp_down(geometry: Geometry, net: Net, slot: int, x: i32) -> Segment {
    let track = track_of(geometry, net, slot);
    Segment {
        part: RoutePart::Ramp,
        cells: ramp_cells(
            Position { x, y: track.y, z: track.z },
            levels_between(track.y as int, geometry.gate_y as int),
            geometry.gate_y >= track.y,
            geometry.rest_interval as int,
        ),
    }
}

/// The share of a slot's track from where it is entered to a column.
pub open spec fn track_share(geometry: Geometry, net: Net, slot: int, x: i32) -> Segment {
    let track = track_of(geometry, net, slot);
    Segment {
        part: RoutePart::Track,
        cells: track_cells(entry_column(net, slot), x, track.y, track.z),
    }
}

/// The column from the pin of a net to its first ramp.
pub open spec fn column_in(
    list: Netlist,
    compiled: CompiledCircuit,
    geometry: Geometry,
    net: Net,
) -> Segment {
    let pin = pin_of(list, compiled, geometry, net.source);
    Segment {
        part: RoutePart::Column,
        cells: run_cells(pin, (pin.z - entry_of(geometry, net, 0).z) as nat),
    }
}

/// The column from a slot's ramp to the next slot's.
pub open spec fn column_on(geometry: Geometry, net: Net, slot: int) -> Segment {
    let landing = landing_of(geometry, net, slot, net.hops@[slot]);
    Segment {
        part: RoutePart::Column,
        cells: run_cells(landing, (landing.z - entry_of(geometry, net, slot + 1).z) as nat),
    }
}

/// The last cells from a slot into a socket.
pub open spec fn gate_entry(
    list: Netlist,
    geometry: Geometry,
    net: Net,
    slot: int,
    gate: usize,
    input: usize,
) -> Segment {
    let landing = landing_of(geometry, net, slot, approach_column(geometry, gate, input));
    Segment {
        part: RoutePart::GateEntry,
        cells: bent_cells(
            landing,
            entry_bends(landing, socket_of(list, geometry, gate, input), row_of(geometry, gate)),
        ),
    }
}

/// The whole of a direct route. Where it begins beside the pin, the cell it
/// begins at belongs to it too.
pub open spec fn bypass_route(
    list: Netlist,
    compiled: CompiledCircuit,
    geometry: Geometry,
    net: Net,
) -> Segment {
    let pin = pin_of(list, compiled, geometry, net.source);
    let start = net.bypass->0;
    let (gate, input) = net.sinks@[0]@[0];
    let bends = bypass_bends(
        start,
        approach_column(geometry, gate, input),
        socket_of(list, geometry, gate, input),
        row_of(geometry, gate),
    );
    Segment {
        part: RoutePart::Bypass,
        cells: (if start != pin {
            seq![start]
        } else {
            seq![]
        }) + bent_cells(start, bends),
    }
}

/// The first `count` slots of a net, each fed through to the next.
pub open spec fn fed_through(
    list: Netlist,
    compiled: CompiledCircuit,
    geometry: Geometry,
    net: Net,
    count: nat,
) -> Seq<Segment>
    decreases count,
{
    if count == 0 {
        seq![column_in(list, compiled, geometry, net)]
    } else {
        let slot = count - 1;
        fed_through(list, compiled, geometry, net, slot as nat) + seq![
            ramp_up(geometry, net, slot),
            track_share(geometry, net, slot, net.hops@[slot]),
            ramp_down(geometry, net, slot, net.hops@[slot]),
            column_on(geometry, net, slot),
        ]
    }
}

/// The route from a net's pin to one gate that it reaches in a slot.
pub open spec fn edge_route(
    list: Netlist,
    compiled: CompiledCircuit,
    geometry: Geometry,
    net: Net,
    slot: int,
    gate: usize,
    input: usize,
) -> Seq<Segment> {
    if net.bypass is Some {
        seq![bypass_route(list, compiled, geometry, net)]
    } else {
        let exit_x = approach_column(geometry, gate, input);
        fed_through(list, compiled, geometry, net, slot as nat) + seq![
            ramp_up(geometry, net, slot),
            track_share(geometry, net, slot, exit_x),
            ramp_down(geometry, net, slot, exit_x),
            gate_entry(list, geometry, net, slot, gate, input),
        ]
    }
}

/// The sink belongs to a gate, and everything about its socket is known.
pub open spec fn sink_ok(list: Netlist, geometry: Geometry, gate: usize, input: usize) -> bool {
    &&& gate < list.gates@.len()
    &&& gate < geometry.centre_x@.len()
    &&& gate < geometry.row_of@.len()
    &&& geometry.row_of@[gate as int] < geometry.row_z@.len()
    &&& input < geometry.approach@.len()
    &&& list.gates@[gate as int].inputs@.len() < geometry.input_offsets@.len()
    &&& input < geometry.input_offsets@[list.gates@[gate as int].inputs@.len() as int]@.len()
    &&& in_range(geometry.centre_x@[gate as int] + geometry.approach@[input as int])
    &&& in_range(geometry.centre_x@[gate as int] + socket_offset(list, geometry, gate, input).0)
    &&& in_range(geometry.gate_y + socket_offset(list, geometry, gate, input).1)
    &&& in_range(row_of(geometry, gate) + socket_offset(list, geometry, gate, input).2)
}

/// The slot has a track, and both its ramps begin and end among the coordinates, with
/// a cell before the first.
pub open spec fn slot_ok(geometry: Geometry, net: Net, slot: int) -> bool {
    &&& net.channels@[slot] < geometry.tracks@.len()
    &&& net.tracks@[slot] < geometry.tracks@[net.channels@[slot] as int]@.len()
    &&& ({
        let track = track_of(geometry, net, slot);
        let levels = levels_between(geometry.gate_y as int, track.y as int);
        let rest = geometry.rest_interval as int;
        &&& in_range(track.z + track.ramp_length)
        &&& in_range(track.z + track.ramp_length - 1)
        &&& in_range(track.z - track.ramp_length)
        &&& ramp_ends(track.z + track.ramp_length, levels, rest)
        &&& ramp_ends(track.z as int, levels, rest)
    })
}

/// There is a position, and one beside it.
pub open spec fn placed(position: Option<Position>, side: Facing) -> bool {
    position is Some && position->0.can_step(side)
}

pub open spec fn source_ok(
    list: Netlist,
    compiled: CompiledCircuit,
    geometry: Geometry,
    source: Source,
) -> bool {
    match source {
        Source::Lever(i) => i < list.inputs@.len() && placed(
            circuit::position_of(compiled.input_positions@, list.inputs@[i as int]@),
            Facing::North,
        ),
        Source::Gate(g) => g < list.gates@.len() && placed(
            circuit::position_of(
                compiled.gate_output_positions@,
                list.gates@[g as int].output@,
            ),
            geometry.output_direction,
        ),
    }
}

pub open spec fn sinks_ok(list: Netlist, geometry: Geometry, sinks: Seq<(usize, usize)>) -> bool {
    forall|k: int|
        0 <= k < sinks.len() ==> sink_ok(
            list,
            geometry,
            (#[trigger] sinks[k]).0,
            sinks[k].1,
        )
}

/// The net can be followed through the geometry.
pub open spec fn net_ok(
    list: Netlist,
    compiled: CompiledCircuit,
    geometry: Geometry,
    net: Net,
) -> bool {
    let slots = net.channels@.len();
    &&& source_ok(list, compiled, geometry, net.source)
    &&& net.sinks@.len() == slots
    &&& net.tracks@.len() == slots
    &&& forall|slot: int|
        0 <= slot < slots ==> sinks_ok(list, geometry, (#[trigger] net.sinks@[slot])@)
    &&& match net.bypass {
        Some(start) => slots > 0 && net.sinks@[0]@.len() > 0,
        None => {
            &&& slots > 0
            &&& net.hops@.len() + 1 >= slots
            &&& forall|slot: int| 0 <= slot < slots ==> #[trigger] slot_ok(geometry, net, slot)
            &&& pin_of(list, compiled, geometry, net.source).x == net.entry
            &&& pin_of(list, compiled, geometry, net.source).y == geometry.gate_y
            &&& pin_of(list, compiled, geometry, net.source).z >= entry_of(geometry, net, 0).z
            &&& forall|slot: int|
                0 <= slot < slots - 1 ==> landing_of(geometry, net, slot, 0).z >= (
                #[trigger] entry_of(geometry, net, slot + 1)).z
        },
    }
}

/// The geometry is that of a laid out netlist: every index is in range, every route
/// stays among the coordinates, and every column runs northwards.
pub open spec fn geometry_ok(list: Netlist, compiled: CompiledCircuit, geometry: Geometry) -> bool {
    &&& compiled.world.wf()
    &&& geometry.rest_interval > 0
    &&& forall|n: int|
        0 <= n < geometry.nets@.len() ==> net_ok(
            list,
            compiled,
            geometry,
            #[trigger] geometry.nets@[n],
        )
}

impl Net {
    /// The column in which the net enters a slot.
    pub fn entry_column(&self, slot: usize) -> (x: i32)
        requires
            slot <= self.hops@.len(),
        ensures
            x == entry_column(*self, slot as int),
    {
        if slot == 0 {
            self.entry
        } else {
            self.hops[slot - 1]
        }
    }
}

fn source_pin(
    list: &Netlist,
    compiled: &CompiledCircuit,
    geometry: &Geometry,
    source: Source,
) -> (pin: Position)
    requires
        source_ok(*list, *compiled, *geometry, source),
    ensures
        pin == pin_of(*list, *compiled, *geometry, source),
{
    let (found, direction) = match source {
        Source::Lever(i) => (
            circuit::find_position(&compiled.input_positions, list.inputs[i].as_str()),
            Facing::North,
        ),
        Source::Gate(g) => (
            circuit::find_position(
                &compiled.gate_output_positions,
                list.gates[g].output.as_str(),
            ),
            geometry.output_direction,
        ),
    };
    match found {
        Some(position) => position.offset(direction),
        None => Position::new(0, 0, 0),
    }
}

/// The routes of one circuit, and where to read off what they cost.
struct Survey<'a> {
    list: &'a Netlist,
    compiled: &'a CompiledCircuit,
    geometry: &'a Geometry,
}

impl<'a> Survey<'a> {
    spec fn wf(self) -> bool {
        geometry_ok(*self.list, *self.compiled, *self.geometry)
    }

    fn track(&self, net: &Net, slot: usize) -> (track: Track)
        requires
            slot < net.channels@.len() == net.tracks@.len(),
            slot_ok(*self.geometry, *net, slot as int),
        ensures
            track == track_of(*self.geometry, *net, slot as int),
    {
        self.geometry.tracks[net.channels[slot]][net.tracks[slot]]
    }

    fn exit_column(&self, gate: usize, input: usize) -> (x: i32)
        requires
            sink_ok(*self.list, *self.geometry, gate, input),
        ensures
            x == approach_column(*self.geometry, gate, input),
    {
        self.geometry.centre_x[gate] + self.geometry.approach[input]
    }

    fn row(&self, gate: usize) -> (z: i32)
        requires
            gate < self.geometry.row_of@.len(),
            self.geometry.row_of@[gate as int] < self.geometry.row_z@.len(),
        ensures
            z == row_of(*self.geometry, gate),
    {
        self.geometry.row_z[self.geometry.row_of[gate]]
    }

    fn socket(&self, gate: usize, input: usize) -> (socket: Position)
        requires
            sink_ok(*self.list, *self.geometry, gate, input),
        ensures
            socket == socket_of(*self.list, *self.geometry, gate, input),
    {
        let arity: usize = self.list.gates[gate].inputs.len();
        let (dx, dy, dz) = self.geometry.input_offsets[arity][input];
        let x: i32 = self.geometry.centre_x[gate] + dx;
        let y: i32 = self.geometry.gate_y + dy;
        let z: i32 = self.row(gate) + dz;
        Position::new(x, y, z)
    }

    /// Counts the last cells from a slot into a socket.
    fn scan_socket_entry(&self, net: &Net, slot: usize, gate: usize, input: usize) -> (totals:
        Scan)
        requires
            self.wf(),
            slot < net.channels@.len() == net.tracks@.len(),
            slot_ok(*self.geometry, *net, slot as int),
            sink_ok(*self.list, *self.geometry, gate, input),
        ensures
            totals.is_count(
                tally(
                    self.compiled.world,
                    gate_entry(
                        *self.list,
                        *self.geometry,
                        *net,
                        slot as int,
                        gate,
                        input,
                    ).cells,
                ),
            ),
    {
        let track: Track = self.track(net, slot);
        let socket: Position = self.socket(gate, input);
        let row_z: i32 = self.row(gate);
        let landing: Position = Position::new(
            self.exit_column(gate, input),
            self.geometry.gate_y,
            track.z - track.ramp_length,
        );
        let mut bends: Vec<Position> = Vec::new();
        if socket.x != landing.x {
            bends.push(Position::new(landing.x, landing.y, row_z));
        }
        bends.push(socket);
        assert(bends@ =~= entry_bends(landing, socket, row_z));
        scan_bent_path(&self.compiled.world, landing, &bends)
    }

    /// Counts a direct route.
    fn scan_bypass(&self, net: &Net, start: Position) -> (totals: Scan)
        requires
            self.wf(),
            net_ok(*self.list, *self.compiled, *self.geometry, *net),
            net.bypass == Some(start),
        ensures
            totals.is_count(
                tally(
                    self.compiled.world,
                    bypass_route(*self.list, *self.compiled, *self.geometry, *net).cells,
                ),
            ),
    {
        let ghost world = self.compiled.world;
        let pin: Position = source_pin(
            self.list,
            self.compiled,
            self.geometry,
            net.source,
        );
        assert(sinks_ok(*self.list, *self.geometry, net.sinks@[0]@));
        let (gate, input) = net.sinks[0][0];
        assert(sink_ok(*self.list, *self.geometry, net.sinks@[0]@[0].0, net.sinks@[0]@[0].1));
        let exit_x: i32 = self.exit_column(gate, input);
        let socket: Position = self.socket(gate, input);
        let row_z: i32 = self.row(gate);
        let extra: Scan = if start != pin {
            classify(&self.compiled.world, start)
        } else {
            Scan::none()
        };
        let ghost first: Seq<Position> = if start != pin {
            seq![start]
        } else {
            seq![]
        };
        let mut bends: Vec<Position> = Vec::new();
        if start.x != exit_x {
            bends.push(Position::new(exit_x, start.y, start.z));
        }
        if socket.x != exit_x {
            bends.push(Position::new(exit_x, start.y, row_z));
        }
        bends.push(socket);
        assert(bends@ =~= bypass_bends(start, exit_x, socket, row_z));
        let bent: Scan = scan_bent_path(&self.compiled.world, start, &bends);
        proof {
            let cells = bent_cells(start, bends@);
            let none: Seq<Position> = seq![];
            lemma_tally_pushed(world, none, start);
            assert(none.push(start) =~= seq![start]);
            assert(extra.is_count(tally(world, first)));
            lemma_tally_bounds(world, cells);
            lemma_tally_bounds(world, first);
            lemma_tally_adds(world, first, cells);
        }
        extra.plus(bent)
    }

    /// Counts the first slots of a net, each fed through to the next.
    fn scan_fed_through(&self, net: &Net, count: usize, Ghost(all): Ghost<Seq<Segment>>) -> (parts:
        RouteParts)
        requires
            self.wf(),
            net_ok(*self.list, *self.compiled, *self.geometry, *net),
            net.bypass is None,
            count < net.channels@.len(),
            fed_through(*self.list, *self.compiled, *self.geometry, *net, count as nat).is_prefix_of(all),
            route_fits(self.compiled.world, route(all)),
        ensures
            parts.counts(
                self.compiled.world,
                route(fed_through(*self.list, *self.compiled, *self.geometry, *net, count as nat)),
            ),
    {
        let world: &World = &self.compiled.world;
        let gate_y: i32 = self.geometry.gate_y;
        let rest: i32 = self.geometry.rest_interval;
        let pin: Position = source_pin(
            self.list,
            self.compiled,
            self.geometry,
            net.source,
        );
        proof {
            assert(slot_ok(*self.geometry, *net, 0));
            lemma_fed_through_grows(*self.list, *self.compiled, *self.geometry, *net, 0, count as nat);
        }
        let first: Track = self.track(net, 0);
        let stop: Position = Position::new(net.entry, gate_y, first.z + first.ramp_length - 1);
        let column: Scan = scan_dust_run(world, pin, stop);
        let mut parts: RouteParts = RouteParts::empty();
        let ghost none: Seq<Segment> = seq![];
        let ghost start = column_in(*self.list, *self.compiled, *self.geometry, *net);
        proof {
            assert(none.push(start) =~= fed_through(*self.list, *self.compiled, *self.geometry, *net, 0));
            lemma_prefix_of_prefix(
                fed_through(*self.list, *self.compiled, *self.geometry, *net, 0),
                fed_through(*self.list, *self.compiled, *self.geometry, *net, count as nat),
                all,
            );
        }
        parts.add(
            RoutePart::Column,
            column,
            Ghost(*world),
            Ghost(none),
            Ghost(start),
            Ghost(all),
        );
        let mut slot: usize = 0;
        while slot < count
            invariant
                self.wf(),
                *world == self.compiled.world,
                gate_y == self.geometry.gate_y,
                rest == self.geometry.rest_interval,
                net_ok(*self.list, *self.compiled, *self.geometry, *net),
                net.bypass is None,
                slot <= count < net.channels@.len(),
                fed_through(*self.list, *self.compiled, *self.geometry, *net, count as nat).is_prefix_of(all),
                route_fits(self.compiled.world, route(all)),
                parts.counts(
                    self.compiled.world,
                    route(fed_through(*self.list, *self.compiled, *self.geometry, *net, slot as nat)),
                ),
            decreases count - slot,
        {
            let ghost done = fed_through(*self.list, *self.compiled, *self.geometry, *net, slot as nat);
            proof {
                assert(slot_ok(*self.geometry, *net, slot as int));
                assert(slot_ok(*self.geometry, *net, slot + 1));
                assert(entry_column(*net, slot + 1) == net.hops@[slot as int]);
                lemma_fed_through_grows(
                    *self.list,
                    *self.compiled,
                    *self.geometry,
                    *net,
                    (slot + 1) as nat,
                    count as nat,
                );
                lemma_prefix_of_prefix(
                    fed_through(*self.list, *self.compiled, *self.geometry, *net, (slot + 1) as nat),
                    fed_through(*self.list, *self.compiled, *self.geometry, *net, count as nat),
                    all,
                );
            }
            let track: Track = self.track(net, slot);
            let next: Track = self.track(net, slot + 1);
            let hop_x: i32 = net.hops[slot];
            let entry_x: i32 = net.entry_column(slot);
            let entry: Position = Position::new(entry_x, gate_y, track.z + track.ramp_length);
            let up: Scan = scan_ramp(world, entry, track.y, rest);
            let share: Scan = scan_track_to(world, entry_x, hop_x, track.y, track.z);
            let top: Position = Position::new(hop_x, track.y, track.z);
            let down: Scan = scan_ramp(world, top, gate_y, rest);
            let landing: Position = Position::new(hop_x, gate_y, track.z - track.ramp_length);
            let before_next: Position = Position::new(
                hop_x,
                gate_y,
                next.z + next.ramp_length - 1,
            );
            proof {
                assert(landing_of(*self.geometry, *net, slot as int, 0).z >= entry_of(
                    *self.geometry,
                    *net,
                    slot + 1,
                ).z);
            }
            let on: Scan = scan_dust_run(world, landing, before_next);
            let ghost one = ramp_up(*self.geometry, *net, slot as int);
            let ghost two = track_share(*self.geometry, *net, slot as int, hop_x);
            let ghost three = ramp_down(*self.geometry, *net, slot as int, hop_x);
            let ghost four = column_on(*self.geometry, *net, slot as int);
            proof {
                lemma_four_more(done, one, two, three, four, all);
            }
            parts.add(RoutePart::Ramp, up, Ghost(*world), Ghost(done), Ghost(one), Ghost(all));
            parts.add(
                RoutePart::Track,
                share,
                Ghost(*world),
                Ghost(done.push(one)),
                Ghost(two),
                Ghost(all),
            );
            parts.add(
                RoutePart::Ramp,
                down,
                Ghost(*world),
                Ghost(done.push(one).push(two)),
                Ghost(three),
                Ghost(all),
            );
            parts.add(
                RoutePart::Column,
                on,
                Ghost(*world),
                Ghost(done.push(one).push(two).push(three)),
                Ghost(four),
                Ghost(all),
            );
            slot = slot + 1;
        }
        parts
    }
}

proof fn lemma_prefix_of_prefix(short: Seq<Segment>, middle: Seq<Segment>, long: Seq<Segment>)
    requires
        short.is_prefix_of(middle),
        middle.is_prefix_of(long),
    ensures
        short.is_prefix_of(long),
{
    assert forall|i: int| 0 <= i < short.len() implies short[i] == long[i] by {
        assert(short[i] == middle.subrange(0, short.len() as int)[i]);
        assert(middle[i] == long.subrange(0, middle.len() as int)[i]);
    }
    assert(short =~= long.subrange(0, short.len() as int));
}

proof fn lemma_fed_through_grows(
    list: Netlist,
    compiled: CompiledCircuit,
    geometry: Geometry,
    net: Net,
    few: nat,
    many: nat,
)
    requires
        few <= many,
    ensures
        fed_through(list, compiled, geometry, net, few).is_prefix_of(
            fed_through(list, compiled, geometry, net, many),
        ),
    decreases many - few,
{
    let short = fed_through(list, compiled, geometry, net, few);
    let long = fed_through(list, compiled, geometry, net, many);
    if few < many {
        lemma_fed_through_grows(list, compiled, geometry, net, few, (many - 1) as nat);
        let middle = fed_through(list, compiled, geometry, net, (many - 1) as nat);
        assert(middle =~= long.subrange(0, middle.len() as int));
        lemma_prefix_of_prefix(short, middle, long);
    } else {
        assert(short =~= long.subrange(0, short.len() as int));
    }
}

/// Four segments, added one by one, stay within the route that holds all four.
proof fn lemma_four_more(
    done: Seq<Segment>,
    one: Segment,
    two: Segment,
    three: Segment,
    four: Segment,
    all: Seq<Segment>,
)
    requires
        (done + seq![one, two, three, four]).is_prefix_of(all),
    ensures
        done.push(one).is_prefix_of(all),
        done.push(one).push(two).is_prefix_of(all),
        done.push(one).push(two).push(three).is_prefix_of(all),
        done.push(one).push(two).push(three).push(four).is_prefix_of(all),
        done.push(one).push(two).push(three).push(four) == done + seq![one, two, three, four],
{
    let whole = done + seq![one, two, three, four];
    let a = done.push(one);
    let b = a.push(two);
    let c = b.push(three);
    let d = c.push(four);
    assert(d =~= whole);
    assert(a =~= whole.subrange(0, a.len() as int));
    assert(b =~= whole.subrange(0, b.len() as int));
    assert(c =~= whole.subrange(0, c.len() as int));
    lemma_prefix_of_prefix(a, whole, all);
    lemma_prefix_of_prefix(b, whole, all);
    lemma_prefix_of_prefix(c, whole, all);
}

/// One edge of a netlist, from a signal to an input of a gate, with what the
/// parts of its route count.
#[derive(Debug)]
pub struct EdgeRoute {
    /// The signal.
    pub source: String,
    /// A gate's own signal, and the number of the input in brackets.
    pub sink: String,
    /// How many channels the edge crosses.
    pub hops: usize,
    pub parts: RouteParts,
}

/// Every edge of a circuit, and how many tracks its channels have.
#[derive(Debug)]
pub struct RoutingReport {
    pub edges: Vec<EdgeRoute>,
    pub channel_count: usize,
    pub track_count: Vec<usize>,
}

/// What an edge is, apart from what it counts.
#[verifier::ext_equal]
pub struct EdgeView {
    pub source: Seq<char>,
    pub sink: Seq<char>,
    pub hops: nat,
    pub segments: Seq<Segment>,
}

impl EdgeRoute {
    pub open spec fn matches_edge(self, world: World, edge: EdgeView) -> bool {
        &&& self.source@ == edge.source
        &&& self.sink@ == edge.sink
        &&& self.hops == edge.hops
        &&& self.parts.counts(world, route(edge.segments))
    }

    /// What one part counts; nothing where it does not occur.
    pub fn part(&self, part: RoutePart) -> (totals: PartTotals)
        ensures
            totals == part_or_none(self.parts, part),
    {
        match self.parts.get(part) {
            Some(totals) => totals,
            None => PartTotals::none(),
        }
    }

    /// What all parts count together.
    pub fn total(&self) -> (totals: PartTotals)
        requires
            sum_fits(self.parts),
        ensures
            totals.length == sum_length(self.parts),
            totals.repeaters == sum_repeaters(self.parts),
    {
        self.parts.total()
    }
}

pub open spec fn part_or_none(parts: RouteParts, part: RoutePart) -> PartTotals {
    match parts.entry(part) {
        Some(totals) => totals,
        None => PartTotals { length: 0, repeaters: 0 },
    }
}

pub open spec fn sum_length(parts: RouteParts) -> int {
    part_or_none(parts, RoutePart::Column).length + part_or_none(parts, RoutePart::Ramp).length
        + part_or_none(parts, RoutePart::Track).length + part_or_none(
        parts,
        RoutePart::GateEntry,
    ).length + part_or_none(parts, RoutePart::Bypass).length
}

pub open spec fn sum_repeaters(parts: RouteParts) -> int {
    part_or_none(parts, RoutePart::Column).repeaters + part_or_none(
        parts,
        RoutePart::Ramp,
    ).repeaters + part_or_none(parts, RoutePart::Track).repeaters + part_or_none(
        parts,
        RoutePart::GateEntry,
    ).repeaters + part_or_none(parts, RoutePart::Bypass).repeaters
}

/// No part is negative, and the sums fit into the numbers that hold them.
pub open spec fn sum_fits(parts: RouteParts) -> bool {
    &&& forall|part: RoutePart| (#[trigger] part_or_none(parts, part)).length >= 0
    &&& sum_length(parts) <= i64::MAX
    &&& sum_repeaters(parts) <= usize::MAX
}

impl RouteParts {
    /// What all parts count together.
    pub fn total(&self) -> (totals: PartTotals)
        requires
            sum_fits(*self),
        ensures
            totals.length == sum_length(*self),
            totals.repeaters == sum_repeaters(*self),
    {
        let column: PartTotals = self.one(RoutePart::Column);
        let ramp: PartTotals = self.one(RoutePart::Ramp);
        let track: PartTotals = self.one(RoutePart::Track);
        let entry: PartTotals = self.one(RoutePart::GateEntry);
        let bypass: PartTotals = self.one(RoutePart::Bypass);
        column.plus(ramp).plus(track).plus(entry).plus(bypass)
    }

    fn one(&self, part: RoutePart) -> (totals: PartTotals)
        ensures
            totals == part_or_none(*self, part),
    {
        match self.get(part) {
            Some(totals) => totals,
            None => PartTotals::none(),
        }
    }
}

pub open spec fn source_name(list: Netlist, source: Source) -> Seq<char> {
    match source {
        Source::Lever(i) => list.inputs@[i as int]@,
        Source::Gate(g) => list.gates@[g as int].output@,
    }
}

pub open spec fn sink_name(list: Netlist, gate: usize, input: usize) -> Seq<char> {
    list.gates@[gate as int].output@ + ".in["@ + text::decimal(input as nat) + "]"@
}

pub open spec fn edge_view(
    list: Netlist,
    compiled: CompiledCircuit,
    geometry: Geometry,
    net: Net,
    slot: int,
    gate: usize,
    input: usize,
) -> EdgeView {
    EdgeView {
        source: source_name(list, net.source),
        sink: sink_name(list, gate, input),
        hops: (slot + 1) as nat,
        segments: edge_route(list, compiled, geometry, net, slot, gate, input),
    }
}

/// The edges to the first `count` sinks of a slot.
pub open spec fn sink_edges(
    list: Netlist,
    compiled: CompiledCircuit,
    geometry: Geometry,
    net: Net,
    slot: int,
    count: nat,
) -> Seq<EdgeView> {
    Seq::new(
        count,
        |k: int|
            edge_view(
                list,
                compiled,
                geometry,
                net,
                slot,
                net.sinks@[slot]@[k].0,
                net.sinks@[slot]@[k].1,
            ),
    )
}

/// The edges of the first `count` slots of a net.
pub open spec fn slot_edges(
    list: Netlist,
    compiled: CompiledCircuit,
    geometry: Geometry,
    net: Net,
    count: nat,
) -> Seq<EdgeView>
    decreases count,
{
    if count == 0 {
        seq![]
    } else {
        slot_edges(list, compiled, geometry, net, (count - 1) as nat) + sink_edges(
            list,
            compiled,
            geometry,
            net,
            count - 1,
            net.sinks@[count - 1]@.len(),
        )
    }
}

/// The edges of a net. A direct route is one edge.
pub open spec fn net_edges(
    list: Netlist,
    compiled: CompiledCircuit,
    geometry: Geometry,
    net: Net,
) -> Seq<EdgeView> {
    if net.bypass is Some {
        sink_edges(list, compiled, geometry, net, 0, 1)
    } else {
        slot_edges(list, compiled, geometry, net, net.sinks@.len())
    }
}

/// The edges of the first `count` nets.
pub open spec fn all_edges(
    list: Netlist,
    compiled: CompiledCircuit,
    geometry: Geometry,
    count: nat,
) -> Seq<EdgeView>
    decreases count,
{
    if count == 0 {
        seq![]
    } else {
        all_edges(list, compiled, geometry, (count - 1) as nat) + net_edges(
            list,
            compiled,
            geometry,
            geometry.nets@[count - 1],
        )
    }
}

/// One edge counts no more than the numbers hold.
pub open spec fn edge_fits(
    list: Netlist,
    compiled: CompiledCircuit,
    geometry: Geometry,
    n: int,
    slot: int,
    k: int,
) -> bool {
    let net = geometry.nets@[n];
    let (gate, input) = net.sinks@[slot]@[k];
    route_fits(
        compiled.world,
        route(edge_route(list, compiled, geometry, net, slot, gate, input)),
    )
}

pub open spec fn edges_fit(list: Netlist, compiled: CompiledCircuit, geometry: Geometry) -> bool {
    forall|n: int, slot: int, k: int|
        0 <= n < geometry.nets@.len() && 0 <= slot < geometry.nets@[n].sinks@.len() && 0 <= k
            < geometry.nets@[n].sinks@[slot]@.len() ==> #[trigger] edge_fits(
            list,
            compiled,
            geometry,
            n,
            slot,
            k,
        )
}

spec fn edges_match(world: World, edges: Seq<EdgeRoute>, views: Seq<EdgeView>) -> bool {
    &&& edges.len() == views.len()
    &&& forall|i: int| 0 <= i < edges.len() ==> (#[trigger] edges[i]).matches_edge(world, views[i])
}

impl<'a> Survey<'a> {
    fn source_label(&self, source: Source) -> (name: String)
        requires
            source_ok(*self.list, *self.compiled, *self.geometry, source),
        ensures
            name@ == source_name(*self.list, source),
    {
        match source {
            Source::Lever(i) => self.list.inputs[i].as_str().to_owned(),
            Source::Gate(g) => self.list.gates[g].output.as_str().to_owned(),
        }
    }

    fn sink_label(&self, gate: usize, input: usize) -> (name: String)
        requires
            gate < self.list.gates@.len(),
        ensures
            name@ == sink_name(*self.list, gate, input),
    {
        let number: String = text::decimal_text(input as u64);
        text::glue4(self.list.gates[gate].output.as_str(), ".in[", number.as_str(), "]")
    }

    /// Counts the route to one sink of a slot.
    fn scan_edge(&self, n: usize, slot: usize, k: usize) -> (edge: EdgeRoute)
        requires
            self.wf(),
            n < self.geometry.nets@.len(),
            slot < self.geometry.nets@[n as int].sinks@.len(),
            k < self.geometry.nets@[n as int].sinks@[slot as int]@.len(),
            self.geometry.nets@[n as int].bypass is Some ==> slot == 0 && k == 0,
            edge_fits(
                *self.list,
                *self.compiled,
                *self.geometry,
                n as int,
                slot as int,
                k as int,
            ),
        ensures
            edge.matches_edge(
                self.compiled.world,
                edge_view(
                    *self.list,
                    *self.compiled,
                    *self.geometry,
                    self.geometry.nets@[n as int],
                    slot as int,
                    self.geometry.nets@[n as int].sinks@[slot as int]@[k as int].0,
                    self.geometry.nets@[n as int].sinks@[slot as int]@[k as int].1,
                ),
            ),
    {
        let net: &Net = &self.geometry.nets[n];
        let world: &World = &self.compiled.world;
        assert(net_ok(
            *self.list,
            *self.compiled,
            *self.geometry,
            self.geometry.nets@[n as int],
        ));
        assert(sinks_ok(*self.list, *self.geometry, net.sinks@[slot as int]@));
        let (gate, input) = net.sinks[slot][k];
        assert(sink_ok(
            *self.list,
            *self.geometry,
            net.sinks@[slot as int]@[k as int].0,
            net.sinks@[slot as int]@[k as int].1,
        ));
        let ghost all = edge_route(
            *self.list,
            *self.compiled,
            *self.geometry,
            *net,
            slot as int,
            gate,
            input,
        );
        let source: String = self.source_label(net.source);
        let sink: String = self.sink_label(gate, input);
        let mut parts: RouteParts = RouteParts::empty();
        if let Some(start) = net.bypass {
            let direct: Scan = self.scan_bypass(net, start);
            let ghost none: Seq<Segment> = seq![];
            let ghost whole = bypass_route(*self.list, *self.compiled, *self.geometry, *net);
            proof {
                assert(none.push(whole) =~= all);
                assert(all =~= all.subrange(0, all.len() as int));
            }
            parts.add(
                RoutePart::Bypass,
                direct,
                Ghost(*world),
                Ghost(none),
                Ghost(whole),
                Ghost(all),
            );
        } else {
            let ghost done = fed_through(*self.list, *self.compiled, *self.geometry, *net, slot as nat);
            let gate_y: i32 = self.geometry.gate_y;
            let rest: i32 = self.geometry.rest_interval;
            proof {
                assert(done =~= all.subrange(0, done.len() as int));
                assert(all =~= all.subrange(0, all.len() as int));
                assert(slot_ok(*self.geometry, *net, slot as int));
            }
            parts = self.scan_fed_through(net, slot, Ghost(all));
            let track: Track = self.track(net, slot);
            let exit_x: i32 = self.exit_column(gate, input);
            let entry_x: i32 = net.entry_column(slot);
            let entry: Position = Position::new(entry_x, gate_y, track.z + track.ramp_length);
            let up: Scan = scan_ramp(world, entry, track.y, rest);
            let share: Scan = scan_track_to(world, entry_x, exit_x, track.y, track.z);
            let top: Position = Position::new(exit_x, track.y, track.z);
            let down: Scan = scan_ramp(world, top, gate_y, rest);
            let last: Scan = self.scan_socket_entry(net, slot, gate, input);
            let ghost one = ramp_up(*self.geometry, *net, slot as int);
            let ghost two = track_share(*self.geometry, *net, slot as int, exit_x);
            let ghost three = ramp_down(*self.geometry, *net, slot as int, exit_x);
            let ghost four = gate_entry(
                *self.list,
                *self.geometry,
                *net,
                slot as int,
                gate,
                input,
            );
            proof {
                lemma_four_more(done, one, two, three, four, all);
            }
            parts.add(RoutePart::Ramp, up, Ghost(*world), Ghost(done), Ghost(one), Ghost(all));
            parts.add(
                RoutePart::Track,
                share,
                Ghost(*world),
                Ghost(done.push(one)),
                Ghost(two),
                Ghost(all),
            );
            parts.add(
                RoutePart::Ramp,
                down,
                Ghost(*world),
                Ghost(done.push(one).push(two)),
                Ghost(three),
                Ghost(all),
            );
            parts.add(
                RoutePart::GateEntry,
                last,
                Ghost(*world),
                Ghost(done.push(one).push(two).push(three)),
                Ghost(four),
                Ghost(all),
            );
        }
        assert(net.sinks.len() == net.sinks@.len());
        EdgeRoute { source, sink, hops: slot + 1, parts }
    }

    /// Counts every edge of a net.
    fn scan_net(&self, n: usize, edges: &mut Vec<EdgeRoute>)
        requires
            self.wf(),
            n < self.geometry.nets@.len(),
            edges_fit(*self.list, *self.compiled, *self.geometry),
            edges_match(
                self.compiled.world,
                old(edges)@,
                all_edges(*self.list, *self.compiled, *self.geometry, n as nat),
            ),
        ensures
            edges_match(
                self.compiled.world,
                final(edges)@,
                all_edges(*self.list, *self.compiled, *self.geometry, (n + 1) as nat),
            ),
    {
        let ghost list = *self.list;
        let ghost compiled = *self.compiled;
        let ghost geometry = *self.geometry;
        let ghost before = all_edges(list, compiled, geometry, n as nat);
        let net: &Net = &self.geometry.nets[n];
        assert(net_ok(list, compiled, geometry, geometry.nets@[n as int]));
        if net.bypass.is_some() {
            assert(edge_fits(list, compiled, geometry, n as int, 0, 0));
            let edge: EdgeRoute = self.scan_edge(n, 0, 0);
            edges.push(edge);
            assert(all_edges(list, compiled, geometry, (n + 1) as nat) =~= before + sink_edges(
                list,
                compiled,
                geometry,
                *net,
                0,
                1,
            ));
            return;
        }
        let mut slot: usize = 0;
        assert(before + slot_edges(list, compiled, geometry, *net, 0) =~= before);
        while slot < net.sinks.len()
            invariant
                self.wf(),
                n < self.geometry.nets@.len(),
                list == *self.list,
                compiled == *self.compiled,
                geometry == *self.geometry,
                *net == geometry.nets@[n as int],
                net.bypass is None,
                net_ok(list, compiled, geometry, *net),
                edges_fit(list, compiled, geometry),
                slot <= net.sinks@.len(),
                edges_match(
                    compiled.world,
                    edges@,
                    before + slot_edges(list, compiled, geometry, *net, slot as nat),
                ),
            decreases net.sinks@.len() - slot,
        {
            let ghost earlier = before + slot_edges(
                list,
                compiled,
                geometry,
                *net,
                slot as nat,
            );
            let mut k: usize = 0;
            assert(earlier + sink_edges(list, compiled, geometry, *net, slot as int, 0)
                =~= earlier);
            while k < net.sinks[slot].len()
                invariant
                    self.wf(),
                    n < self.geometry.nets@.len(),
                    list == *self.list,
                    compiled == *self.compiled,
                    geometry == *self.geometry,
                    *net == geometry.nets@[n as int],
                    net.bypass is None,
                    edges_fit(list, compiled, geometry),
                    slot < net.sinks@.len(),
                    k <= net.sinks@[slot as int]@.len(),
                    edges_match(
                        compiled.world,
                        edges@,
                        earlier + sink_edges(
                            list,
                            compiled,
                            geometry,
                            *net,
                            slot as int,
                            k as nat,
                        ),
                    ),
                decreases net.sinks@[slot as int]@.len() - k,
            {
                assert(edge_fits(list, compiled, geometry, n as int, slot as int, k as int));
                let edge: EdgeRoute = self.scan_edge(n, slot, k);
                edges.push(edge);
                proof {
                    let some = sink_edges(list, compiled, geometry, *net, slot as int, k as nat);
                    let more = sink_edges(
                        list,
                        compiled,
                        geometry,
                        *net,
                        slot as int,
                        (k + 1) as nat,
                    );
                    assert(earlier + more =~= (earlier + some).push(more[k as int]));
                }
                k = k + 1;
            }
            proof {
                let whole = sink_edges(list, compiled, geometry, *net, slot as int, k as nat);
                assert(before + slot_edges(list, compiled, geometry, *net, (slot + 1) as nat)
                    =~= earlier + whole);
            }
            slot = slot + 1;
        }
    }
}

/// Takes every edge of a compiled circuit apart. Wire that several edges share
/// counts for each of them.
pub fn analyze(list: &Netlist, compiled: &CompiledCircuit, geometry: &Geometry) -> (report: Result<
    RoutingReport,
    CompileError,
>)
    requires
        geometry_ok(*list, *compiled, *geometry),
        edges_fit(*list, *compiled, *geometry),
    ensures
        match report {
            Ok(found) => {
                let edges = all_edges(*list, *compiled, *geometry, geometry.nets@.len());
                &&& netlist::undriven_signal(list@) is None
                &&& exists|order: Seq<usize>| netlist::is_topological(list@.gates, order)
                &&& found.edges@.len() == edges.len()
                &&& forall|i: int|
                    0 <= i < edges.len() ==> (#[trigger] found.edges@[i]).matches_edge(
                        compiled.world,
                        edges[i],
                    )
                &&& found.channel_count == geometry.tracks@.len()
                &&& found.track_count@.len() == geometry.tracks@.len()
                &&& forall|i: int|
                    0 <= i < geometry.tracks@.len() ==> #[trigger] found.track_count@[i]
                        == geometry.tracks@[i]@.len()
            },
            Err(CompileError::UndrivenSignal(name)) => netlist::undriven_signal(list@) == Some(
                name@,
            ),
            Err(CompileError::CyclicNetlist) => netlist::undriven_signal(list@) is None && forall|
                order: Seq<usize>,
            | !netlist::is_topological(list@.gates, order),
        },
{
    let order: Vec<usize> = match list.checked_order() {
        Ok(found) => found,
        Err(error) => return Err(error),
    };
    assert(netlist::is_topological(list@.gates, order@));
    let survey = Survey { list, compiled, geometry };
    let mut edges: Vec<EdgeRoute> = Vec::new();
    let mut n: usize = 0;
    while n < geometry.nets.len()
        invariant
            survey.wf(),
            survey.list == list,
            survey.compiled == compiled,
            survey.geometry == geometry,
            edges_fit(*list, *compiled, *geometry),
            n <= geometry.nets@.len(),
            edges_match(
                compiled.world,
                edges@,
                all_edges(*list, *compiled, *geometry, n as nat),
            ),
        decreases geometry.nets@.len() - n,
    {
        survey.scan_net(n, &mut edges);
        n = n + 1;
    }
    let mut track_count: Vec<usize> = Vec::new();
    let mut channel: usize = 0;
    while channel < geometry.tracks.len()
        invariant
            channel <= geometry.tracks@.len(),
            track_count@.len() == channel,
            forall|i: int|
                0 <= i < channel ==> #[trigger] track_count@[i] == geometry.tracks@[i]@.len(),
        decreases geometry.tracks@.len() - channel,
    {
        track_count.push(geometry.tracks[channel].len());
        channel = channel + 1;
    }
    Ok(RoutingReport { edges, channel_count: geometry.tracks.len(), track_count })
}

/// The westmost and the eastmost column that a slot's track reaches: where it is
/// entered, its first `count` sinks, and where it feeds through, if it does.
pub open spec fn span(geometry: Geometry, net: Net, slot: int, count: nat) -> (i32, i32)
    decreases count,
{
    if count == 0 {
        let entry = entry_column(net, slot);
        if slot + 1 < net.channels@.len() {
            widened((entry, entry), net.hops@[slot])
        } else {
            (entry, entry)
        }
    } else {
        let (gate, input) = net.sinks@[slot]@[count - 1];
        widened(
            span(geometry, net, slot, (count - 1) as nat),
            approach_column(geometry, gate, input),
        )
    }
}

pub open spec fn widened(span: (i32, i32), x: i32) -> (i32, i32) {
    (
        if x < span.0 {
            x
        } else {
            span.0
        },
        if x > span.1 {
            x
        } else {
            span.1
        },
    )
}

/// A slot's whole track.
pub open spec fn whole_track(geometry: Geometry, net: Net, slot: int) -> Segment {
    let track = track_of(geometry, net, slot);
    let (lo, hi) = span(geometry, net, slot, net.sinks@[slot]@.len());
    Segment {
        part: RoutePart::Track,
        cells: full_track_cells(entry_column(net, slot), lo, hi, track.y, track.z),
    }
}

/// How a slot begins: with the column from the pin, in the first slot, then the
/// ramp and the track.
pub open spec fn slot_head(
    list: Netlist,
    compiled: CompiledCircuit,
    geometry: Geometry,
    net: Net,
    slot: int,
) -> Seq<Segment> {
    (if slot == 0 {
        seq![column_in(list, compiled, geometry, net)]
    } else {
        seq![]
    }) + seq![ramp_up(geometry, net, slot), whole_track(geometry, net, slot)]
}

/// A slot as far as its first `count` sinks.
pub open spec fn slot_sinks(
    list: Netlist,
    compiled: CompiledCircuit,
    geometry: Geometry,
    net: Net,
    slot: int,
    count: nat,
) -> Seq<Segment>
    decreases count,
{
    if count == 0 {
        slot_head(list, compiled, geometry, net, slot)
    } else {
        let (gate, input) = net.sinks@[slot]@[count - 1];
        slot_sinks(list, compiled, geometry, net, slot, (count - 1) as nat) + seq![
            ramp_down(geometry, net, slot, approach_column(geometry, gate, input)),
            gate_entry(list, geometry, net, slot, gate, input),
        ]
    }
}

/// A whole slot: all its sinks, and where it feeds through, if it does.
pub open spec fn whole_slot(
    list: Netlist,
    compiled: CompiledCircuit,
    geometry: Geometry,
    net: Net,
    slot: int,
) -> Seq<Segment> {
    slot_sinks(list, compiled, geometry, net, slot, net.sinks@[slot]@.len()) + (if slot + 1
        < net.channels@.len() {
        seq![ramp_down(geometry, net, slot, net.hops@[slot]), column_on(geometry, net, slot)]
    } else {
        seq![]
    })
}

/// The first `count` slots of a net.
pub open spec fn whole_slots(
    list: Netlist,
    compiled: CompiledCircuit,
    geometry: Geometry,
    net: Net,
    count: nat,
) -> Seq<Segment>
    decreases count,
{
    if count == 0 {
        seq![]
    } else {
        whole_slots(list, compiled, geometry, net, (count - 1) as nat) + whole_slot(
            list,
            compiled,
            geometry,
            net,
            count - 1,
        )
    }
}

/// Everything that a net is routed through, once.
pub open spec fn whole_net(
    list: Netlist,
    compiled: CompiledCircuit,
    geometry: Geometry,
    net: Net,
) -> Seq<Segment> {
    if net.bypass is Some {
        seq![bypass_route(list, compiled, geometry, net)]
    } else {
        whole_slots(list, compiled, geometry, net, net.channels@.len())
    }
}

/// Everything that the first `count` nets are routed through, once.
pub open spec fn whole_nets(
    list: Netlist,
    compiled: CompiledCircuit,
    geometry: Geometry,
    count: nat,
) -> Seq<Segment>
    decreases count,
{
    if count == 0 {
        seq![]
    } else {
        whole_nets(list, compiled, geometry, (count - 1) as nat) + whole_net(
            list,
            compiled,
            geometry,
            geometry.nets@[count - 1],
        )
    }
}

proof fn lemma_start_is_prefix(start: Seq<Segment>, rest: Seq<Segment>)
    ensures
        start.is_prefix_of(start + rest),
{
    assert(start =~= (start + rest).subrange(0, start.len() as int));
}

proof fn lemma_sinks_grow(
    list: Netlist,
    compiled: CompiledCircuit,
    geometry: Geometry,
    net: Net,
    slot: int,
    few: nat,
    many: nat,
)
    requires
        few <= many,
    ensures
        slot_sinks(list, compiled, geometry, net, slot, few).is_prefix_of(
            slot_sinks(list, compiled, geometry, net, slot, many),
        ),
    decreases many - few,
{
    let short = slot_sinks(list, compiled, geometry, net, slot, few);
    let long = slot_sinks(list, compiled, geometry, net, slot, many);
    if few < many {
        lemma_sinks_grow(list, compiled, geometry, net, slot, few, (many - 1) as nat);
        let middle = slot_sinks(list, compiled, geometry, net, slot, (many - 1) as nat);
        assert(middle =~= long.subrange(0, middle.len() as int));
        lemma_prefix_of_prefix(short, middle, long);
    } else {
        assert(short =~= long.subrange(0, short.len() as int));
    }
}

proof fn lemma_slots_grow(
    list: Netlist,
    compiled: CompiledCircuit,
    geometry: Geometry,
    net: Net,
    few: nat,
    many: nat,
)
    requires
        few <= many,
    ensures
        whole_slots(list, compiled, geometry, net, few).is_prefix_of(
            whole_slots(list, compiled, geometry, net, many),
        ),
    decreases many - few,
{
    let short = whole_slots(list, compiled, geometry, net, few);
    let long = whole_slots(list, compiled, geometry, net, many);
    if few < many {
        lemma_slots_grow(list, compiled, geometry, net, few, (many - 1) as nat);
        let middle = whole_slots(list, compiled, geometry, net, (many - 1) as nat);
        assert(middle =~= long.subrange(0, middle.len() as int));
        lemma_prefix_of_prefix(short, middle, long);
    } else {
        assert(short =~= long.subrange(0, short.len() as int));
    }
}

proof fn lemma_nets_grow(
    list: Netlist,
    compiled: CompiledCircuit,
    geometry: Geometry,
    few: nat,
    many: nat,
)
    requires
        few <= many,
    ensures
        whole_nets(list, compiled, geometry, few).is_prefix_of(
            whole_nets(list, compiled, geometry, many),
        ),
    decreases many - few,
{
    let short = whole_nets(list, compiled, geometry, few);
    let long = whole_nets(list, compiled, geometry, many);
    if few < many {
        lemma_nets_grow(list, compiled, geometry, few, (many - 1) as nat);
        let middle = whole_nets(list, compiled, geometry, (many - 1) as nat);
        assert(middle =~= long.subrange(0, middle.len() as int));
        lemma_prefix_of_prefix(short, middle, long);
    } else {
        assert(short =~= long.subrange(0, short.len() as int));
    }
}

/// A prefix stays one behind a common start.
proof fn lemma_shared_start(
    start: Seq<Segment>,
    short: Seq<Segment>,
    long: Seq<Segment>,
    all: Seq<Segment>,
)
    requires
        short.is_prefix_of(long),
        (start + long).is_prefix_of(all),
    ensures
        (start + short).is_prefix_of(all),
{
    assert forall|i: int| 0 <= i < short.len() implies short[i] == long[i] by {
        assert(short[i] == long.subrange(0, short.len() as int)[i]);
    }
    assert(start + short =~= (start + long).subrange(0, (start + short).len() as int));
    lemma_prefix_of_prefix(start + short, start + long, all);
}

/// Two segments, added one by one, stay within the route that holds both.
proof fn lemma_two_more(done: Seq<Segment>, one: Segment, two: Segment, all: Seq<Segment>)
    requires
        (done + seq![one, two]).is_prefix_of(all),
    ensures
        done.push(one).is_prefix_of(all),
        done.push(one).push(two).is_prefix_of(all),
        done.push(one).push(two) == done + seq![one, two],
{
    let whole = done + seq![one, two];
    let a = done.push(one);
    let b = a.push(two);
    assert(b =~= whole);
    assert(a =~= whole.subrange(0, a.len() as int));
    lemma_prefix_of_prefix(a, whole, all);
}

impl<'a> Survey<'a> {
    /// The westmost and the eastmost column that a slot's track reaches.
    fn span(&self, net: &Net, slot: usize) -> (reach: (i32, i32))
        requires
            self.wf(),
            net_ok(*self.list, *self.compiled, *self.geometry, *net),
            net.bypass is None,
            slot < net.channels@.len(),
        ensures
            reach == span(*self.geometry, *net, slot as int, net.sinks@[slot as int]@.len()),
    {
        assert(slot_ok(*self.geometry, *net, slot as int));
        assert(sinks_ok(*self.list, *self.geometry, net.sinks@[slot as int]@));
        let entry: i32 = net.entry_column(slot);
        let mut lo: i32 = entry;
        let mut hi: i32 = entry;
        if slot < net.channels.len() - 1 {
            assert(slot_ok(*self.geometry, *net, slot + 1));
            let hop: i32 = net.hops[slot];
            assert(entry_column(*net, slot + 1) == hop);
            if hop < lo {
                lo = hop;
            }
            if hop > hi {
                hi = hop;
            }
        }
        let mut k: usize = 0;
        while k < net.sinks[slot].len()
            invariant
                slot < net.sinks@.len(),
                sinks_ok(*self.list, *self.geometry, net.sinks@[slot as int]@),
                k <= net.sinks@[slot as int]@.len(),
                (lo, hi) == span(*self.geometry, *net, slot as int, k as nat),
            decreases net.sinks@[slot as int]@.len() - k,
        {
            let (gate, input) = net.sinks[slot][k];
            assert(sink_ok(
                *self.list,
                *self.geometry,
                net.sinks@[slot as int]@[k as int].0,
                net.sinks@[slot as int]@[k as int].1,
            ));
            let x: i32 = self.exit_column(gate, input);
            if x < lo {
                lo = x;
            }
            if x > hi {
                hi = x;
            }
            k = k + 1;
        }
        (lo, hi)
    }

    /// Counts everything that a slot is routed through, once.
    fn count_slot(
        &self,
        net: &Net,
        slot: usize,
        parts: &mut RouteParts,
        Ghost(before): Ghost<Seq<Segment>>,
        Ghost(all): Ghost<Seq<Segment>>,
    )
        requires
            self.wf(),
            net_ok(*self.list, *self.compiled, *self.geometry, *net),
            net.bypass is None,
            slot < net.channels@.len(),
            old(parts).counts(self.compiled.world, route(before)),
            (before + whole_slot(
                *self.list,
                *self.compiled,
                *self.geometry,
                *net,
                slot as int,
            )).is_prefix_of(all),
            route_fits(self.compiled.world, route(all)),
        ensures
            final(parts).counts(
                self.compiled.world,
                route(
                    before + whole_slot(
                        *self.list,
                        *self.compiled,
                        *self.geometry,
                        *net,
                        slot as int,
                    ),
                ),
            ),
    {
        let ghost list = *self.list;
        let ghost compiled = *self.compiled;
        let ghost geometry = *self.geometry;
        let world: &World = &self.compiled.world;
        let gate_y: i32 = self.geometry.gate_y;
        let rest: i32 = self.geometry.rest_interval;
        let ghost count = net.sinks@[slot as int]@.len();
        let ghost whole = whole_slot(list, compiled, geometry, *net, slot as int);
        let ghost sinks = slot_sinks(list, compiled, geometry, *net, slot as int, count);
        let ghost head = slot_head(list, compiled, geometry, *net, slot as int);
        proof {
            assert(slot_ok(geometry, *net, slot as int));
            assert(sinks_ok(list, geometry, net.sinks@[slot as int]@));
            let rest_of: Seq<Segment> = if slot + 1 < net.channels@.len() {
                seq![
                    ramp_down(geometry, *net, slot as int, net.hops@[slot as int]),
                    column_on(geometry, *net, slot as int),
                ]
            } else {
                seq![]
            };
            lemma_start_is_prefix(sinks, rest_of);
            lemma_shared_start(before, sinks, whole, all);
            lemma_sinks_grow(list, compiled, geometry, *net, slot as int, 0, count);
            lemma_shared_start(before, head, sinks, all);
        }
        let track: Track = self.track(net, slot);
        let entry_x: i32 = net.entry_column(slot);
        let entry: Position = Position::new(entry_x, gate_y, track.z + track.ramp_length);
        let ghost mut done = before;
        if slot == 0 {
            let pin: Position = source_pin(
                self.list,
                self.compiled,
                self.geometry,
                net.source,
            );
            let stop: Position = Position::new(net.entry, gate_y, entry.z - 1);
            let column: Scan = scan_dust_run(world, pin, stop);
            let ghost start = column_in(list, compiled, geometry, *net);
            proof {
                assert(head[0] == start);
                assert(before.push(start) =~= (before + head).subrange(
                    0,
                    (before.len() + 1) as int,
                ));
                lemma_prefix_of_prefix(before.push(start), before + head, all);
            }
            parts.add(
                RoutePart::Column,
                column,
                Ghost(*world),
                Ghost(before),
                Ghost(start),
                Ghost(all),
            );
            proof {
                done = before.push(start);
            }
        }
        let up: Scan = scan_ramp(world, entry, track.y, rest);
        let (lo, hi) = self.span(net, slot);
        let full: Scan = scan_full_track(world, entry_x, lo, hi, track.y, track.z);
        let ghost one = ramp_up(geometry, *net, slot as int);
        let ghost two = whole_track(geometry, *net, slot as int);
        proof {
            assert(done + seq![one, two] =~= before + head);
            lemma_two_more(done, one, two, all);
        }
        parts.add(RoutePart::Ramp, up, Ghost(*world), Ghost(done), Ghost(one), Ghost(all));
        parts.add(
            RoutePart::Track,
            full,
            Ghost(*world),
            Ghost(done.push(one)),
            Ghost(two),
            Ghost(all),
        );
        let mut k: usize = 0;
        while k < net.sinks[slot].len()
            invariant
                self.wf(),
                list == *self.list,
                compiled == *self.compiled,
                geometry == *self.geometry,
                *world == compiled.world,
                gate_y == geometry.gate_y,
                rest == geometry.rest_interval,
                track == track_of(geometry, *net, slot as int),
                net_ok(list, compiled, geometry, *net),
                net.bypass is None,
                slot < net.channels@.len(),
                slot_ok(geometry, *net, slot as int),
                sinks_ok(list, geometry, net.sinks@[slot as int]@),
                count == net.sinks@[slot as int]@.len(),
                sinks == slot_sinks(list, compiled, geometry, *net, slot as int, count),
                k <= count,
                (before + sinks).is_prefix_of(all),
                route_fits(compiled.world, route(all)),
                parts.counts(
                    compiled.world,
                    route(
                        before + slot_sinks(
                            list,
                            compiled,
                            geometry,
                            *net,
                            slot as int,
                            k as nat,
                        ),
                    ),
                ),
            decreases count - k,
        {
            let ghost reached = before + slot_sinks(
                list,
                compiled,
                geometry,
                *net,
                slot as int,
                k as nat,
            );
            let (gate, input) = net.sinks[slot][k];
            assert(sink_ok(
                list,
                geometry,
                net.sinks@[slot as int]@[k as int].0,
                net.sinks@[slot as int]@[k as int].1,
            ));
            let x: i32 = self.exit_column(gate, input);
            let top: Position = Position::new(x, track.y, track.z);
            let down: Scan = scan_ramp(world, top, gate_y, rest);
            let last: Scan = self.scan_socket_entry(net, slot, gate, input);
            let ghost three = ramp_down(geometry, *net, slot as int, x);
            let ghost four = gate_entry(list, geometry, *net, slot as int, gate, input);
            proof {
                let more = slot_sinks(
                    list,
                    compiled,
                    geometry,
                    *net,
                    slot as int,
                    (k + 1) as nat,
                );
                lemma_sinks_grow(
                    list,
                    compiled,
                    geometry,
                    *net,
                    slot as int,
                    (k + 1) as nat,
                    count,
                );
                lemma_shared_start(before, more, sinks, all);
                assert(before + more =~= reached + seq![three, four]);
                lemma_two_more(reached, three, four, all);
            }
            parts.add(
                RoutePart::Ramp,
                down,
                Ghost(*world),
                Ghost(reached),
                Ghost(three),
                Ghost(all),
            );
            parts.add(
                RoutePart::GateEntry,
                last,
                Ghost(*world),
                Ghost(reached.push(three)),
                Ghost(four),
                Ghost(all),
            );
            k = k + 1;
        }
        if slot < net.channels.len() - 1 {
            proof {
                assert(slot_ok(geometry, *net, slot + 1));
                assert(entry_column(*net, slot + 1) == net.hops@[slot as int]);
                assert(landing_of(geometry, *net, slot as int, 0).z >= entry_of(
                    geometry,
                    *net,
                    slot + 1,
                ).z);
            }
            let next: Track = self.track(net, slot + 1);
            let hop_x: i32 = net.hops[slot];
            let top: Position = Position::new(hop_x, track.y, track.z);
            let down: Scan = scan_ramp(world, top, gate_y, rest);
            let landing: Position = Position::new(hop_x, gate_y, track.z - track.ramp_length);
            let before_next: Position = Position::new(
                hop_x,
                gate_y,
                next.z + next.ramp_length - 1,
            );
            let on: Scan = scan_dust_run(world, landing, before_next);
            let ghost three = ramp_down(geometry, *net, slot as int, hop_x);
            let ghost four = column_on(geometry, *net, slot as int);
            proof {
                assert(before + whole =~= before + sinks + seq![three, four]);
                lemma_two_more(before + sinks, three, four, all);
            }
            parts.add(
                RoutePart::Ramp,
                down,
                Ghost(*world),
                Ghost(before + sinks),
                Ghost(three),
                Ghost(all),
            );
            parts.add(
                RoutePart::Column,
                on,
                Ghost(*world),
                Ghost((before + sinks).push(three)),
                Ghost(four),
                Ghost(all),
            );
        } else {
            assert(before + whole =~= before + sinks);
        }
    }

    /// Counts everything that a net is routed through, once.
    fn count_net(
        &self,
        n: usize,
        parts: &mut RouteParts,
        Ghost(before): Ghost<Seq<Segment>>,
        Ghost(all): Ghost<Seq<Segment>>,
    )
        requires
            self.wf(),
            n < self.geometry.nets@.len(),
            old(parts).counts(self.compiled.world, route(before)),
            (before + whole_net(
                *self.list,
                *self.compiled,
                *self.geometry,
                self.geometry.nets@[n as int],
            )).is_prefix_of(all),
            route_fits(self.compiled.world, route(all)),
        ensures
            final(parts).counts(
                self.compiled.world,
                route(
                    before + whole_net(
                        *self.list,
                        *self.compiled,
                        *self.geometry,
                        self.geometry.nets@[n as int],
                    ),
                ),
            ),
    {
        let ghost list = *self.list;
        let ghost compiled = *self.compiled;
        let ghost geometry = *self.geometry;
        let world: &World = &self.compiled.world;
        let net: &Net = &self.geometry.nets[n];
        assert(net_ok(list, compiled, geometry, geometry.nets@[n as int]));
        if let Some(start) = net.bypass {
            let direct: Scan = self.scan_bypass(net, start);
            let ghost whole = bypass_route(list, compiled, geometry, *net);
            assert(before.push(whole) =~= before + seq![whole]);
            parts.add(
                RoutePart::Bypass,
                direct,
                Ghost(*world),
                Ghost(before),
                Ghost(whole),
                Ghost(all),
            );
            return;
        }
        let ghost slots = net.channels@.len();
        let mut slot: usize = 0;
        assert(before + whole_slots(list, compiled, geometry, *net, 0) =~= before);
        while slot < net.channels.len()
            invariant
                self.wf(),
                list == *self.list,
                compiled == *self.compiled,
                geometry == *self.geometry,
                net_ok(list, compiled, geometry, *net),
                net.bypass is None,
                slots == net.channels@.len(),
                slot <= slots,
                (before + whole_slots(list, compiled, geometry, *net, slots)).is_prefix_of(all),
                route_fits(compiled.world, route(all)),
                parts.counts(
                    compiled.world,
                    route(before + whole_slots(list, compiled, geometry, *net, slot as nat)),
                ),
            decreases slots - slot,
        {
            let ghost reached = before + whole_slots(
                list,
                compiled,
                geometry,
                *net,
                slot as nat,
            );
            proof {
                let more = whole_slots(list, compiled, geometry, *net, (slot + 1) as nat);
                lemma_slots_grow(list, compiled, geometry, *net, (slot + 1) as nat, slots);
                lemma_shared_start(
                    before,
                    more,
                    whole_slots(list, compiled, geometry, *net, slots),
                    all,
                );
                assert(before + more =~= reached + whole_slot(
                    list,
                    compiled,
                    geometry,
                    *net,
                    slot as int,
                ));
            }
            self.count_slot(net, slot, parts, Ghost(reached), Ghost(all));
            slot = slot + 1;
        }
    }
}

/// What the router placed in all, part by part: every stretch counts once,
/// however many edges share it.
pub fn distinct_totals_by_part(
    list: &Netlist,
    compiled: &CompiledCircuit,
    geometry: &Geometry,
) -> (totals: Result<RouteParts, CompileError>)
    requires
        geometry_ok(*list, *compiled, *geometry),
        route_fits(
            compiled.world,
            route(whole_nets(*list, *compiled, *geometry, geometry.nets@.len())),
        ),
    ensures
        match totals {
            Ok(parts) => {
                &&& netlist::undriven_signal(list@) is None
                &&& exists|order: Seq<usize>| netlist::is_topological(list@.gates, order)
                &&& parts.counts(
                    compiled.world,
                    route(whole_nets(*list, *compiled, *geometry, geometry.nets@.len())),
                )
            },
            Err(CompileError::UndrivenSignal(name)) => netlist::undriven_signal(list@) == Some(
                name@,
            ),
            Err(CompileError::CyclicNetlist) => netlist::undriven_signal(list@) is None && forall|
                order: Seq<usize>,
            | !netlist::is_topological(list@.gates, order),
        },
{
    let order: Vec<usize> = match list.checked_order() {
        Ok(found) => found,
        Err(error) => return Err(error),
    };
    assert(netlist::is_topological(list@.gates, order@));
    let ghost all = whole_nets(*list, *compiled, *geometry, geometry.nets@.len());
    let survey = Survey { list, compiled, geometry };
    let mut parts: RouteParts = RouteParts::empty();
    let mut n: usize = 0;
    while n < geometry.nets.len()
        invariant
            survey.wf(),
            survey.list == list,
            survey.compiled == compiled,
            survey.geometry == geometry,
            n <= geometry.nets@.len(),
            all == whole_nets(*list, *compiled, *geometry, geometry.nets@.len()),
            route_fits(compiled.world, route(all)),
            parts.counts(
                compiled.world,
                route(whole_nets(*list, *compiled, *geometry, n as nat)),
            ),
        decreases geometry.nets@.len() - n,
    {
        proof {
            lemma_nets_grow(
                *list,
                *compiled,
                *geometry,
                (n + 1) as nat,
                geometry.nets@.len(),
            );
        }
        let ghost before = whole_nets(*list, *compiled, *geometry, n as nat);
        survey.count_net(n, &mut parts, Ghost(before), Ghost(all));
        n = n + 1;
    }
    Ok(parts)
}

/// What all cells of a route count, over all parts.
pub open spec fn whole_count(world: World, cells: Map<RoutePart, Seq<Position>>) -> (nat, nat) {
    let column = part_count(world, cells, RoutePart::Column);
    let ramp = part_count(world, cells, RoutePart::Ramp);
    let track = part_count(world, cells, RoutePart::Track);
    let entry = part_count(world, cells, RoutePart::GateEntry);
    let bypass = part_count(world, cells, RoutePart::Bypass);
    (
        column.0 + ramp.0 + track.0 + entry.0 + bypass.0,
        column.1 + ramp.1 + track.1 + entry.1 + bypass.1,
    )
}

pub open spec fn part_count(
    world: World,
    cells: Map<RoutePart, Seq<Position>>,
    part: RoutePart,
) -> (nat, nat) {
    if cells.dom().contains(part) {
        tally(world, cells[part])
    } else {
        (0, 0)
    }
}

/// What the router placed in all.
pub fn distinct_totals(list: &Netlist, compiled: &CompiledCircuit, geometry: &Geometry) -> (totals:
    Result<PartTotals, CompileError>)
    requires
        geometry_ok(*list, *compiled, *geometry),
        fits(
            whole_count(
                compiled.world,
                route(whole_nets(*list, *compiled, *geometry, geometry.nets@.len())),
            ),
        ),
    ensures
        match totals {
            Ok(sum) => {
                &&& netlist::undriven_signal(list@) is None
                &&& exists|order: Seq<usize>| netlist::is_topological(list@.gates, order)
                &&& sum.is_count(
                    whole_count(
                        compiled.world,
                        route(whole_nets(*list, *compiled, *geometry, geometry.nets@.len())),
                    ),
                )
            },
            Err(CompileError::UndrivenSignal(name)) => netlist::undriven_signal(list@) == Some(
                name@,
            ),
            Err(CompileError::CyclicNetlist) => netlist::undriven_signal(list@) is None && forall|
                order: Seq<usize>,
            | !netlist::is_topological(list@.gates, order),
        },
{
    let ghost cells = route(whole_nets(*list, *compiled, *geometry, geometry.nets@.len()));
    proof {
        assert forall|part: RoutePart| #[trigger] cells.dom().contains(part) implies fits(
            tally(compiled.world, cells[part]),
        ) by {
            assert(part_count(compiled.world, cells, part) == tally(compiled.world, cells[part]));
        }
    }
    match distinct_totals_by_part(list, compiled, geometry) {
        Err(error) => Err(error),
        Ok(parts) => {
            proof {
                assert forall|part: RoutePart| ({
                    let one = #[trigger] part_or_none(parts, part);
                    one.is_count(part_count(compiled.world, cells, part))
                }) by {
                    assert(parts.entry(part) is Some || parts.entry(part) is None);
                }
                assert(part_or_none(parts, RoutePart::Column).length >= 0);
            }
            Ok(parts.total())
        },
    }
}

/// A part occurs in a route where one of its segments belongs to it.
proof fn lemma_parts_of_route(segments: Seq<Segment>, part: RoutePart)
    ensures
        route(segments).dom().contains(part) == exists|i: int|
            0 <= i < segments.len() && (#[trigger] segments[i]).part == part,
    decreases segments.len(),
{
    if segments.len() > 0 {
        let before = segments.drop_last();
        lemma_parts_of_route(before, part);
        if exists|i: int| 0 <= i < before.len() && (#[trigger] before[i]).part == part {
            let i = choose|i: int| 0 <= i < before.len() && (#[trigger] before[i]).part == part;
            assert(segments[i].part == part);
        }
        if exists|i: int| 0 <= i < segments.len() && (#[trigger] segments[i]).part == part {
            let i = choose|i: int| 0 <= i < segments.len() && (#[trigger] segments[i]).part == part;
            if i < before.len() {
                assert(before[i].part == part);
            }
        }
        if segments.last().part == part {
            assert(segments[segments.len() - 1].part == part);
        }
    }
}

proof fn lemma_fed_through_parts(
    list: Netlist,
    compiled: CompiledCircuit,
    geometry: Geometry,
    net: Net,
    count: nat,
)
    ensures
        ({
            let segments = fed_through(list, compiled, geometry, net, count);
            &&& segments.len() > 0
            &&& segments[0].part == RoutePart::Column
            &&& forall|i: int|
                0 <= i < segments.len() ==> (#[trigger] segments[i]).part != RoutePart::Bypass
        }),
    decreases count,
{
    if count > 0 {
        lemma_fed_through_parts(list, compiled, geometry, net, (count - 1) as nat);
    }
}

/// A direct route is nothing but itself. Every other edge has a column, a ramp, a
/// share of a track and an entry into its gate, and no direct route.
pub proof fn lemma_edge_parts(
    list: Netlist,
    compiled: CompiledCircuit,
    geometry: Geometry,
    net: Net,
    slot: nat,
    gate: usize,
    input: usize,
)
    ensures
        ({
            let cells = route(
                edge_route(list, compiled, geometry, net, slot as int, gate, input),
            );
            &&& cells.dom().contains(RoutePart::Bypass) == (net.bypass is Some)
            &&& cells.dom().contains(RoutePart::Column) == (net.bypass is None)
            &&& cells.dom().contains(RoutePart::Ramp) == (net.bypass is None)
            &&& cells.dom().contains(RoutePart::Track) == (net.bypass is None)
            &&& cells.dom().contains(RoutePart::GateEntry) == (net.bypass is None)
        }),
{
    let segments = edge_route(list, compiled, geometry, net, slot as int, gate, input);
    lemma_parts_of_route(segments, RoutePart::Bypass);
    lemma_parts_of_route(segments, RoutePart::Column);
    lemma_parts_of_route(segments, RoutePart::Ramp);
    lemma_parts_of_route(segments, RoutePart::Track);
    lemma_parts_of_route(segments, RoutePart::GateEntry);
    if net.bypass is Some {
        assert(segments[0].part == RoutePart::Bypass);
    } else {
        lemma_fed_through_parts(list, compiled, geometry, net, slot);
        let done = fed_through(list, compiled, geometry, net, slot).len() as int;
        assert(segments[0].part == RoutePart::Column);
        assert(segments[done].part == RoutePart::Ramp);
        assert(segments[done + 1].part == RoutePart::Track);
        assert(segments[done + 3].part == RoutePart::GateEntry);
        assert(segments[done + 2].part == RoutePart::Ramp);
    }
}

} // verus!
