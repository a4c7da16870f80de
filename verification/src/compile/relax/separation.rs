//! How far apart two bodies must stand.
//!
//! Distances that are required are counted in quarters of a cell, which is as fine
//! as they get.

use crate::compile::netlist;
use crate::compile::relax::bodies;
use crate::compile::relax::bodies::{
    Attach, Body, BodyGraph, BodyKind, BodyView, Catalogue, Cell, CellView, Port, PortKind, Pull,
    RelativeSide, Weld,
};
use crate::compile::relax::error::Violation;
use crate::compile::topology::Primitive;
use crate::redstone::position::Position;
use crate::text;
use vstd::prelude::*;

verus! {

/// Two conductors on different nets must be two cells apart.
pub const CONDUCTOR_CLEARANCE: i64 = 8;

/// Two conductors on different nets that are so far apart in height may be as
/// close as they like otherwise.
pub const VERTICAL_CLEARANCE: i64 = CONDUCTOR_CLEARANCE;

/// What rounding can cost: half a cell at either end.
pub const SNAP_MARGIN: i64 = 4;

/// The pitch of two wires side by side.
pub const ROUTE_PITCH: i64 = CONDUCTOR_CLEARANCE;

/// The lowest level that a body may stand on, in cells.
pub const GROUND: i64 = 1;

/// How often bodies are pushed apart and welds restored before that is given up.
pub const PROJECTION_ROUNDS: usize = 4096;

/// More springs than any memory holds.
pub const MOST_PULLS: i64 = 0x100_0000_0000;

/// The axes along which bodies may move.
#[derive(Debug, Clone, Copy, PartialEq, Eq, Structural)]
pub struct Axes {
    vertical: bool,
}

impl Axes {
    pub closed spec fn view(&self) -> Seq<usize> {
        if self.vertical {
            seq![0, 1, 2]
        } else {
            seq![0, 2]
        }
    }

    /// Bodies stay on the level on which they started.
    pub fn in_plane() -> (axes: Axes)
        ensures
            axes@ == seq![0usize, 2],
    {
        Axes { vertical: false }
    }

    pub fn all() -> (axes: Axes)
        ensures
            axes@ == seq![0usize, 1, 2],
    {
        Axes { vertical: true }
    }

    /// The axes, in the order in which they are taken.
    pub fn iter(self) -> (axes: Vec<usize>)
        ensures
            axes@ == self@,
    {
        let axes: Vec<usize> = if self.vertical {
            vec![0, 1, 2]
        } else {
            vec![0, 2]
        };
        assert(axes@ =~= self@);
        axes
    }
}

/// The room for the wires that must reach a body. They come from all sides, so
/// the ring they pass through need only be an eighth of their pitches in radius.
pub open spec fn ring(routed_degree: int) -> int {
    ROUTE_PITCH * routed_degree / 8
}

pub fn reservation(routed_degree: usize) -> (room: i64)
    requires
        routed_degree <= i64::MAX / 8,
    ensures
        room == ring(routed_degree as int),
        room == routed_degree,
{
    ROUTE_PITCH * (routed_degree as i64) / 8
}

/// How many ends of the first `count` springs are tied to a body.
pub open spec fn degree(pulls: Seq<Pull>, body: int, count: nat) -> nat
    decreases count,
{
    if count == 0 {
        0
    } else {
        let pull = pulls[count - 1];
        degree(pulls, body, (count - 1) as nat) + (if pull.from.0 == body {
            1nat
        } else {
            0
        }) + (if pull.to.0 == body {
            1nat
        } else {
            0
        })
    }
}

pub open spec fn required_of(pulls: Seq<Pull>, body: int) -> int {
    CONDUCTOR_CLEARANCE + ring(degree(pulls, body, pulls.len()) as int) + SNAP_MARGIN
}

/// Every spring is tied to two of the bodies.
pub open spec fn tied(graph: BodyGraph) -> bool {
    &&& graph.pulls@.len() <= MOST_PULLS
    &&& 2 * graph.pulls@.len() <= usize::MAX
    &&& forall|p: int|
        0 <= p < graph.pulls@.len() ==> {
            &&& (#[trigger] graph.pulls@[p]).from.0 < graph.bodies@.len()
            &&& graph.pulls@[p].to.0 < graph.bodies@.len()
        }
}

/// How far each body must be from a foreign conductor: the clearance, the room for
/// its wires, and what rounding may cost.
pub fn required_separations(graph: &BodyGraph) -> (required: Vec<i64>)
    requires
        tied(*graph),
    ensures
        required@.len() == graph.bodies@.len(),
        forall|b: int|
            0 <= b < required@.len() ==> #[trigger] required@[b] == required_of(graph.pulls@, b),
        forall|b: int|
            0 <= b < required@.len() ==> 12 <= #[trigger] required@[b] <= 12 + 2 * MOST_PULLS,
{
    let count: usize = graph.bodies.len();
    let mut degrees: Vec<usize> = Vec::new();
    while degrees.len() < count
        invariant
            count == graph.bodies@.len(),
            degrees@.len() <= count,
            forall|b: int|
                0 <= b < degrees@.len() ==> #[trigger] degrees@[b] == degree(graph.pulls@, b, 0),
        decreases count - degrees@.len(),
    {
        degrees.push(0);
    }
    let mut p: usize = 0;
    while p < graph.pulls.len()
        invariant
            tied(*graph),
            p <= graph.pulls@.len(),
            degrees@.len() == graph.bodies@.len(),
            forall|b: int|
                0 <= b < degrees@.len() ==> {
                    &&& #[trigger] degrees@[b] == degree(graph.pulls@, b, p as nat)
                    &&& degrees@[b] <= 2 * p
                },
        decreases graph.pulls@.len() - p,
    {
        let pull: Pull = graph.pulls[p];
        let from: usize = pull.from.0;
        let to: usize = pull.to.0;
        assert(from < degrees@.len() && to < degrees@.len());
        assert(degrees@[from as int] <= 2 * p);
        assert(degrees@[to as int] <= 2 * p);
        let first: usize = degrees[from] + 1;
        degrees.set(from, first);
        let second: usize = degrees[to] + 1;
        degrees.set(to, second);
        p = p + 1;
    }
    let mut required: Vec<i64> = Vec::new();
    while required.len() < count
        invariant
            count == graph.bodies@.len() == degrees@.len(),
            graph.pulls@.len() <= MOST_PULLS,
            required@.len() <= count,
            forall|b: int|
                0 <= b < degrees@.len() ==> {
                    &&& #[trigger] degrees@[b] == degree(graph.pulls@, b, graph.pulls@.len())
                    &&& degrees@[b] <= 2 * graph.pulls@.len()
                },
            forall|b: int|
                0 <= b < required@.len() ==> {
                    &&& #[trigger] required@[b] == required_of(graph.pulls@, b)
                    &&& 12 <= required@[b] <= 12 + 2 * MOST_PULLS
                },
        decreases count - required@.len(),
    {
        let b: usize = required.len();
        assert(degrees@[b as int] <= 2 * MOST_PULLS);
        let need: i64 = CONDUCTOR_CLEARANCE + reservation(degrees[b]) + SNAP_MARGIN;
        required.push(need);
    }
    required
}

/// A cell of a body, where it is in the world.
#[derive(Debug)]
pub struct PlacedCell {
    pub at: (i64, i64, i64),
    pub carries: Vec<String>,
}

/// What a [`PlacedCell`] stands for.
#[verifier::ext_equal]
pub struct PlacedView {
    pub at: (int, int, int),
    pub carries: Seq<Seq<char>>,
}

impl View for PlacedCell {
    type V = PlacedView;

    open spec fn view(&self) -> PlacedView {
        PlacedView {
            at: (self.at.0 as int, self.at.1 as int, self.at.2 as int),
            carries: netlist::texts(self.carries@),
        }
    }
}

pub open spec fn placed_views(cells: Seq<PlacedCell>) -> Seq<PlacedView> {
    Seq::new(cells.len(), |i: int| cells[i]@)
}

pub open spec fn placed_at(cell: CellView, position: Position) -> PlacedView {
    PlacedView {
        at: (
            position.x + cell.offset.0,
            position.y + cell.offset.1,
            position.z + cell.offset.2,
        ),
        carries: cell.carries,
    }
}

/// The cells of a body, where they are in the world.
pub open spec fn placed_of(catalogue: Catalogue, body: BodyView) -> Seq<PlacedView> {
    let cells = bodies::cells_of(catalogue, body);
    Seq::new(cells.len(), |i: int| placed_at(cells[i], body.position))
}

fn place(body: &Body, cells: Vec<Cell>) -> (placed: Vec<PlacedCell>)
    ensures
        placed_views(placed@) == Seq::new(
            cells@.len(),
            |i: int| placed_at(cells@[i]@, body.position),
        ),
{
    let mut placed: Vec<PlacedCell> = Vec::new();
    let mut at: usize = 0;
    while at < cells.len()
        invariant
            at <= cells@.len(),
            placed@.len() == at,
            forall|i: int|
                0 <= i < at ==> (#[trigger] placed@[i])@ == placed_at(cells@[i]@, body.position),
        decreases cells@.len() - at,
    {
        let offset: (i32, i32, i32) = cells[at].offset;
        let one: PlacedCell = PlacedCell {
            at: (
                body.position.x as i64 + offset.0 as i64,
                body.position.y as i64 + offset.1 as i64,
                body.position.z as i64 + offset.2 as i64,
            ),
            carries: bodies::copy_names(&cells[at].carries),
        };
        placed.push(one);
        at = at + 1;
    }
    assert(placed_views(placed@) =~= Seq::new(
        cells@.len(),
        |i: int| placed_at(cells@[i]@, body.position),
    ));
    placed
}

/// Every body has a face for each of its inputs.
pub open spec fn shaped(catalogue: Catalogue, graph: BodyGraph) -> bool {
    &&& catalogue.wf()
    &&& forall|b: int|
        0 <= b < graph.bodies@.len() ==> bodies::body_ok(catalogue, #[trigger] graph.bodies@[b])
}

/// Where the cells of every body are.
pub fn placed_cells(catalogue: &Catalogue, graph: &BodyGraph) -> (placed: Vec<Vec<PlacedCell>>)
    requires
        shaped(*catalogue, *graph),
    ensures
        placed@.len() == graph.bodies@.len(),
        forall|b: int|
            0 <= b < placed@.len() ==> placed_views((#[trigger] placed@[b])@) == placed_of(
                *catalogue,
                graph.bodies@[b]@,
            ),
{
    let mut placed: Vec<Vec<PlacedCell>> = Vec::new();
    let mut b: usize = 0;
    while b < graph.bodies.len()
        invariant
            shaped(*catalogue, *graph),
            b <= graph.bodies@.len(),
            placed@.len() == b,
            forall|k: int|
                0 <= k < b ==> placed_views((#[trigger] placed@[k])@) == placed_of(
                    *catalogue,
                    graph.bodies@[k]@,
                ),
        decreases graph.bodies@.len() - b,
    {
        let body: &Body = &graph.bodies[b];
        let taken: Vec<Cell> = bodies::cells(catalogue, body);
        let ghost views = bodies::cell_list(taken@);
        let cells: Vec<PlacedCell> = place(body, taken);
        assert(placed_views(cells@) =~= placed_of(*catalogue, body@));
        placed.push(cells);
        b = b + 1;
    }
    placed
}

/// The two cells are on a net together.
pub open spec fn share(left: Seq<Seq<char>>, right: Seq<Seq<char>>) -> bool {
    exists|i: int, j: int|
        0 <= i < left.len() && 0 <= j < right.len() && #[trigger] left[i] == #[trigger] right[j]
}

pub open spec fn gap(left: int, right: int) -> int {
    if left < right {
        right - left
    } else {
        left - right
    }
}

/// The two cells carry different signals and are too close.
pub open spec fn unseparated(here: PlacedView, there: PlacedView, required: int) -> bool {
    &&& here.carries.len() > 0
    &&& there.carries.len() > 0
    &&& !share(here.carries, there.carries)
    &&& 4 * gap(here.at.1, there.at.1) < VERTICAL_CLEARANCE
    &&& 4 * gap(here.at.0, there.at.0) < required
    &&& 4 * gap(here.at.2, there.at.2) < required
}

/// How far two cells are short of what is required: nothing, where they are not
/// too close.
pub open spec fn short_by(here: PlacedView, there: PlacedView, required: int) -> int {
    let x = gap(here.at.0, there.at.0);
    let z = gap(here.at.2, there.at.2);
    if !unseparated(here, there, required) {
        0
    } else if x < z {
        required - 4 * z
    } else {
        required - 4 * x
    }
}

pub open spec fn larger(left: int, right: int) -> int {
    if left < right {
        right
    } else {
        left
    }
}

/// The most that a cell is short against the first `count` of a body's cells.
pub open spec fn row_shortfall(
    here: PlacedView,
    right: Seq<PlacedView>,
    required: int,
    count: nat,
) -> int
    decreases count,
{
    if count == 0 {
        0
    } else {
        larger(
            row_shortfall(here, right, required, (count - 1) as nat),
            short_by(here, right[count - 1], required),
        )
    }
}

/// The most that the first `count` of a body's cells are short against those of
/// another.
pub open spec fn shortfall(
    left: Seq<PlacedView>,
    right: Seq<PlacedView>,
    required: int,
    count: nat,
) -> int
    decreases count,
{
    if count == 0 {
        0
    } else {
        larger(
            shortfall(left, right, required, (count - 1) as nat),
            row_shortfall(left[count - 1], right, required, right.len()),
        )
    }
}

fn is_shared(left: &Vec<String>, right: &Vec<String>) -> (shared: bool)
    ensures
        shared == share(netlist::texts(left@), netlist::texts(right@)),
{
    let ghost mine = netlist::texts(left@);
    let ghost theirs = netlist::texts(right@);
    let mut i: usize = 0;
    while i < left.len()
        invariant
            mine == netlist::texts(left@),
            theirs == netlist::texts(right@),
            i <= left@.len(),
            forall|a: int, b: int|
                0 <= a < i && 0 <= b < theirs.len() ==> #[trigger] mine[a] != #[trigger] theirs[b],
        decreases left@.len() - i,
    {
        let mut j: usize = 0;
        while j < right.len()
            invariant
                mine == netlist::texts(left@),
                theirs == netlist::texts(right@),
                i < left@.len(),
                j <= right@.len(),
                forall|b: int| 0 <= b < j ==> mine[i as int] != #[trigger] theirs[b],
            decreases right@.len() - j,
        {
            assert(mine[i as int] == left@[i as int]@);
            assert(theirs[j as int] == right@[j as int]@);
            if text::same_text(left[i].as_str(), right[j].as_str()) {
                return true;
            }
            j = j + 1;
        }
        i = i + 1;
    }
    false
}

fn distance(left: i64, right: i64) -> (apart: i64)
    requires
        -0x1_0000_0000 <= left <= 0x1_0000_0000,
        -0x1_0000_0000 <= right <= 0x1_0000_0000,
    ensures
        apart == gap(left as int, right as int),
{
    if left < right {
        right - left
    } else {
        left - right
    }
}

/// The cell is the sum of two cells of the lattice.
pub open spec fn near(cell: PlacedCell) -> bool {
    &&& -0x1_0000_0000 <= cell.at.0 <= 0x1_0000_0000
    &&& -0x1_0000_0000 <= cell.at.1 <= 0x1_0000_0000
    &&& -0x1_0000_0000 <= cell.at.2 <= 0x1_0000_0000
}

fn cell_shortfall(here: &PlacedCell, there: &PlacedCell, required: i64) -> (short: i64)
    requires
        near(*here),
        near(*there),
        0 <= required <= 0x1000_0000_0000,
    ensures
        short == short_by(here@, there@, required as int),
        0 <= short <= required,
{
    if here.carries.len() == 0 || there.carries.len() == 0 {
        return 0;
    }
    if is_shared(&here.carries, &there.carries) {
        return 0;
    }
    let x: i64 = distance(here.at.0, there.at.0);
    let y: i64 = distance(here.at.1, there.at.1);
    let z: i64 = distance(here.at.2, there.at.2);
    if 4 * y >= VERTICAL_CLEARANCE || 4 * x >= required || 4 * z >= required {
        return 0;
    }
    if x < z {
        required - 4 * z
    } else {
        required - 4 * x
    }
}

/// How far two bodies are short of what is required.
fn body_shortfall(left: &Vec<PlacedCell>, right: &Vec<PlacedCell>, required: i64) -> (short: i64)
    requires
        forall|i: int| 0 <= i < left@.len() ==> near(#[trigger] left@[i]),
        forall|i: int| 0 <= i < right@.len() ==> near(#[trigger] right@[i]),
        0 <= required <= 0x1000_0000_0000,
    ensures
        short == shortfall(
            placed_views(left@),
            placed_views(right@),
            required as int,
            left@.len(),
        ),
        0 <= short <= required,
{
    let ghost mine = placed_views(left@);
    let ghost theirs = placed_views(right@);
    let mut short: i64 = 0;
    let mut i: usize = 0;
    while i < left.len()
        invariant
            mine == placed_views(left@),
            theirs == placed_views(right@),
            forall|k: int| 0 <= k < left@.len() ==> near(#[trigger] left@[k]),
            forall|k: int| 0 <= k < right@.len() ==> near(#[trigger] right@[k]),
            0 <= required <= 0x1000_0000_0000,
            i <= left@.len(),
            short == shortfall(mine, theirs, required as int, i as nat),
            0 <= short <= required,
        decreases left@.len() - i,
    {
        let mut row: i64 = 0;
        let mut j: usize = 0;
        while j < right.len()
            invariant
                mine == placed_views(left@),
                theirs == placed_views(right@),
                i < left@.len(),
                near(left@[i as int]),
                forall|k: int| 0 <= k < right@.len() ==> near(#[trigger] right@[k]),
                0 <= required <= 0x1000_0000_0000,
                j <= right@.len(),
                row == row_shortfall(mine[i as int], theirs, required as int, j as nat),
                0 <= row <= required,
            decreases right@.len() - j,
        {
            let one: i64 = cell_shortfall(&left[i], &right[j], required);
            assert(mine[i as int] == left@[i as int]@ && theirs[j as int] == right@[j as int]@);
            if row < one {
                row = one;
            }
            j = j + 1;
        }
        if short < row {
            short = row;
        }
        i = i + 1;
    }
    short
}

/// The two bodies that a weld holds together.
pub open spec fn weld_ends(weld: Weld) -> (usize, usize) {
    match weld {
        Weld::AtSocket { repeater, junction, input_index } => (repeater, junction),
        Weld::BesideAt { lock, data, side } => (lock, data),
    }
}

fn ends_of(weld: &Weld) -> (ends: (usize, usize))
    ensures
        ends == weld_ends(*weld),
{
    match weld {
        Weld::AtSocket { repeater, junction, .. } => (*repeater, *junction),
        Weld::BesideAt { lock, data, .. } => (*lock, *data),
    }
}

/// The bodies that the first `count` welds hold a body to.
pub open spec fn partners_of(welds: Seq<Weld>, body: int, count: nat) -> Seq<usize>
    decreases count,
{
    if count == 0 {
        seq![]
    } else {
        let (one, other) = weld_ends(welds[count - 1]);
        let before = partners_of(welds, body, (count - 1) as nat);
        let with = if one == body {
            before.push(other)
        } else {
            before
        };
        if other == body {
            with.push(one)
        } else {
            with
        }
    }
}

/// A weld holds the two bodies together. They are meant to touch.
pub open spec fn welded(welds: Seq<Weld>, left: int, right: int) -> bool {
    exists|w: int|
        0 <= w < welds.len() && (weld_ends(#[trigger] welds[w]) == (left as usize, right as usize)
            || weld_ends(welds[w]) == (right as usize, left as usize))
}

/// Every weld is between two of the bodies.
pub open spec fn joined(graph: BodyGraph) -> bool {
    forall|w: int|
        0 <= w < graph.welds@.len() ==> {
            &&& weld_ends(#[trigger] graph.welds@[w]).0 < graph.bodies@.len()
            &&& weld_ends(graph.welds@[w]).1 < graph.bodies@.len()
        }
}

/// The bodies that each body is welded to.
pub fn welded_partners(graph: &BodyGraph) -> (partners: Vec<Vec<usize>>)
    requires
        joined(*graph),
    ensures
        partners@.len() == graph.bodies@.len(),
        forall|b: int|
            0 <= b < partners@.len() ==> (#[trigger] partners@[b])@ == partners_of(
                graph.welds@,
                b,
                graph.welds@.len(),
            ),
{
    let mut partners: Vec<Vec<usize>> = Vec::new();
    while partners.len() < graph.bodies.len()
        invariant
            partners@.len() <= graph.bodies@.len(),
            forall|b: int|
                0 <= b < partners@.len() ==> (#[trigger] partners@[b])@ == partners_of(
                    graph.welds@,
                    b,
                    0,
                ),
        decreases graph.bodies@.len() - partners@.len(),
    {
        let none: Vec<usize> = Vec::new();
        assert(none@ =~= seq![]);
        partners.push(none);
    }
    let mut w: usize = 0;
    while w < graph.welds.len()
        invariant
            joined(*graph),
            w <= graph.welds@.len(),
            partners@.len() == graph.bodies@.len(),
            forall|b: int|
                0 <= b < partners@.len() ==> (#[trigger] partners@[b])@ == partners_of(
                    graph.welds@,
                    b,
                    w as nat,
                ),
        decreases graph.welds@.len() - w,
    {
        let (one, other) = ends_of(&graph.welds[w]);
        let ghost before = partners@;
        assert(one < partners@.len() && other < partners@.len());
        partners[one].push(other);
        partners[other].push(one);
        w = w + 1;
        assert forall|b: int| 0 <= b < partners@.len() implies (#[trigger] partners@[b])@
            == partners_of(graph.welds@, b, w as nat) by {
            assert(before[b]@ == partners_of(graph.welds@, b, (w - 1) as nat));
        }
    }
    partners
}

proof fn lemma_partners(welds: Seq<Weld>, body: int, other: usize, count: nat)
    requires
        count <= welds.len(),
        0 <= body <= usize::MAX,
    ensures
        partners_of(welds, body, count).contains(other) == welded(
            welds.take(count as int),
            body,
            other as int,
        ),
    decreases count,
{
    let some = welds.take(count as int);
    if count > 0 {
        let fewer = welds.take(count - 1);
        lemma_partners(welds, body, other, (count - 1) as nat);
        let (one, two) = weld_ends(welds[count - 1]);
        let before = partners_of(welds, body, (count - 1) as nat);
        let with = if one == body {
            before.push(two)
        } else {
            before
        };
        let all = partners_of(welds, body, count);
        assert(some[count - 1] == welds[count - 1]);
        assert forall|w: int| 0 <= w < fewer.len() implies fewer[w] == #[trigger] some[w] by {}
        if before.contains(other) {
            let w = choose|w: int|
                0 <= w < fewer.len() && (weld_ends(#[trigger] fewer[w]) == (
                    body as usize,
                    other,
                ) || weld_ends(fewer[w]) == (other, body as usize));
            assert(weld_ends(some[w]) == weld_ends(fewer[w]));
            let k = before.index_of(other);
            assert(with[k] == other);
            assert(all[k] == other);
        }
        if one == body && two == other {
            assert(with[before.len() as int] == other);
            assert(all[before.len() as int] == other);
            assert(weld_ends(some[count - 1]) == (body as usize, other));
        }
        if two == body && one == other {
            assert(all[with.len() as int] == other);
            assert(weld_ends(some[count - 1]) == (other, body as usize));
        }
        if all.contains(other) && !before.contains(other) {
            let k = all.index_of(other);
            assert(k >= before.len()) by {
                if k < before.len() {
                    assert(before[k] == other);
                }
            }
        }
        if welded(some, body, other as int) && !before.contains(other) {
            let w = choose|w: int|
                0 <= w < some.len() && (weld_ends(#[trigger] some[w]) == (
                    body as usize,
                    other,
                ) || weld_ends(some[w]) == (other, body as usize));
            if w < count - 1 {
                assert(weld_ends(fewer[w]) == weld_ends(some[w]));
            }
        }
    }
}

/// Whether two bodies may be as close as they are.
fn exempt(partners: &Vec<Vec<usize>>, left: usize, right: usize, Ghost(welds): Ghost<Seq<Weld>>)
    -> (found: bool)
    requires
        left < partners@.len(),
        partners@[left as int]@ == partners_of(welds, left as int, welds.len()),
    ensures
        found == welded(welds, left as int, right as int),
{
    proof {
        lemma_partners(welds, left as int, right, welds.len());
        assert(welds.take(welds.len() as int) =~= welds);
    }
    let list: &Vec<usize> = &partners[left];
    let mut at: usize = 0;
    while at < list.len()
        invariant
            at <= list@.len(),
            list@.contains(right) == welded(welds, left as int, right as int),
            forall|i: int| 0 <= i < at ==> #[trigger] list@[i] != right,
        decreases list@.len() - at,
    {
        if list[at] == right {
            assert(list@[at as int] == right);
            return true;
        }
        at = at + 1;
    }
    false
}

/// How far two bodies are short of what either requires. Bodies that are welded
/// together may touch.
pub open spec fn pair_shortfall(
    catalogue: Catalogue,
    graph: BodyGraph,
    required: Seq<i64>,
    left: int,
    right: int,
) -> int {
    if welded(graph.welds@, left, right) {
        0
    } else {
        let cells = placed_of(catalogue, graph.bodies@[left]@);
        shortfall(
            cells,
            placed_of(catalogue, graph.bodies@[right]@),
            larger(required[left] as int, required[right] as int),
            cells.len(),
        )
    }
}

/// Quarters of a cell, in the parts that a shortfall is counted in.
pub open spec fn quarters(short: int) -> int {
    short * 0x4000_0000_0000_0000_0000
}

/// A pair that is short by so many quarters of a cell.
pub open spec fn violation(left: int, right: int, short: int) -> Violation {
    Violation {
        left: left as usize,
        right: right as usize,
        shortfall: quarters(short) as u128,
    }
}

/// The worst pair from one on, and of what was found before: the first of those
/// that are short by the most.
pub open spec fn worst_from(
    so_far: Option<Violation>,
    catalogue: Catalogue,
    graph: BodyGraph,
    required: Seq<i64>,
    left: int,
    right: int,
) -> Option<Violation>
    decreases graph.bodies@.len() - left, graph.bodies@.len() - right,
{
    if left >= graph.bodies@.len() {
        so_far
    } else if right >= graph.bodies@.len() {
        worst_from(so_far, catalogue, graph, required, left + 1, left + 2)
    } else {
        let short = pair_shortfall(catalogue, graph, required, left, right);
        let next = if short > 0 && (so_far is None || quarters(short) > so_far->0.shortfall) {
            Some(violation(left, right, short))
        } else {
            so_far
        };
        worst_from(next, catalogue, graph, required, left, right + 1)
    }
}

/// What can be required of a body.
pub open spec fn demands(required: Seq<i64>, count: nat) -> bool {
    &&& required.len() == count
    &&& forall|b: int|
        0 <= b < required.len() ==> 0 <= #[trigger] required[b] <= 0x1000_0000_0000
}

proof fn lemma_placed_is_near(placed: Seq<PlacedCell>, catalogue: Catalogue, body: BodyView)
    requires
        placed_views(placed) == placed_of(catalogue, body),
    ensures
        forall|i: int| 0 <= i < placed.len() ==> near(#[trigger] placed[i]),
{
    assert forall|i: int| 0 <= i < placed.len() implies near(#[trigger] placed[i]) by {
        let cells = bodies::cells_of(catalogue, body);
        assert(placed_views(placed).len() == placed.len());
        assert(placed_of(catalogue, body).len() == cells.len());
        assert(placed_views(placed)[i] == placed[i]@);
        assert(placed_of(catalogue, body)[i] == placed_at(cells[i], body.position));
    }
}

/// The worst of the pairs that are too close.
pub fn worst_violation(catalogue: &Catalogue, graph: &BodyGraph, required: &Vec<i64>) -> (worst:
    Option<Violation>)
    requires
        shaped(*catalogue, *graph),
        joined(*graph),
        demands(required@, graph.bodies@.len()),
    ensures
        worst == worst_from(None, *catalogue, *graph, required@, 0, 1),
{
    let placed: Vec<Vec<PlacedCell>> = placed_cells(catalogue, graph);
    let partners: Vec<Vec<usize>> = welded_partners(graph);
    let ghost goal = worst_from(None, *catalogue, *graph, required@, 0, 1);
    let count: usize = graph.bodies.len();
    let mut worst: Option<Violation> = None;
    let mut left: usize = 0;
    while left < count
        invariant
            count == graph.bodies@.len() == placed@.len() == partners@.len(),
            left <= count,
            demands(required@, graph.bodies@.len()),
            forall|b: int|
                0 <= b < placed@.len() ==> placed_views((#[trigger] placed@[b])@) == placed_of(
                    *catalogue,
                    graph.bodies@[b]@,
                ),
            forall|b: int|
                0 <= b < partners@.len() ==> (#[trigger] partners@[b])@ == partners_of(
                    graph.welds@,
                    b,
                    graph.welds@.len(),
                ),
            goal == worst_from(
                worst,
                *catalogue,
                *graph,
                required@,
                left as int,
                left as int + 1,
            ),
        decreases count - left,
    {
        let mut right: usize = left + 1;
        while right < count
            invariant
                count == graph.bodies@.len() == placed@.len() == partners@.len(),
                left < right <= count,
                demands(required@, graph.bodies@.len()),
                forall|b: int|
                    0 <= b < placed@.len() ==> placed_views((#[trigger] placed@[b])@)
                        == placed_of(*catalogue, graph.bodies@[b]@),
                forall|b: int|
                    0 <= b < partners@.len() ==> (#[trigger] partners@[b])@ == partners_of(
                        graph.welds@,
                        b,
                        graph.welds@.len(),
                    ),
                goal == worst_from(
                    worst,
                    *catalogue,
                    *graph,
                    required@,
                    left as int,
                    right as int,
                ),
            decreases count - right,
        {
            let ghost expected = pair_shortfall(
                *catalogue,
                *graph,
                required@,
                left as int,
                right as int,
            );
            if !exempt(&partners, left, right, Ghost(graph.welds@)) {
                let need: i64 = if required[left] < required[right] {
                    required[right]
                } else {
                    required[left]
                };
                proof {
                    lemma_placed_is_near(
                        placed@[left as int]@,
                        *catalogue,
                        graph.bodies@[left as int]@,
                    );
                    lemma_placed_is_near(
                        placed@[right as int]@,
                        *catalogue,
                        graph.bodies@[right as int]@,
                    );
                    assert(placed_views(placed@[left as int]@).len()
                        == placed@[left as int]@.len());
                }
                let short: i64 = body_shortfall(&placed[left], &placed[right], need);
                assert(short == expected);
                let parts: u128 = short as u128 * 0x4000_0000_0000_0000_0000;
                let more: bool = match worst {
                    None => true,
                    Some(known) => parts > known.shortfall,
                };
                if short > 0 && more {
                    worst = Some(Violation { left, right, shortfall: parts });
                }
            }
            right = right + 1;
        }
        left = left + 1;
        if left == count {
            assert(worst_from(worst, *catalogue, *graph, required@, left as int, left as int + 1)
                == worst);
        }
    }
    worst
}

proof fn lemma_worst_from(
    so_far: Option<Violation>,
    catalogue: Catalogue,
    graph: BodyGraph,
    required: Seq<i64>,
    left: int,
    right: int,
    l: int,
    r: int,
)
    requires
        0 <= left < right,
        graph.bodies@.len() <= usize::MAX,
        demands(required, graph.bodies@.len()),
        0 <= l < r < graph.bodies@.len(),
    ensures
        ({
            let worst = worst_from(so_far, catalogue, graph, required, left, right);
            let short = pair_shortfall(catalogue, graph, required, l, r);
            &&& so_far is Some ==> worst is Some && worst->0.shortfall >= so_far->0.shortfall
            &&& (l > left || (l == left && r >= right)) && short > 0 ==> worst is Some
                && worst->0.shortfall >= quarters(short)
            &&& worst is Some ==> worst == so_far || is_pair(
                worst->0,
                catalogue,
                graph,
                required,
            )
        }),
    decreases graph.bodies@.len() - left, graph.bodies@.len() - right,
{
    if left >= graph.bodies@.len() {
    } else if right >= graph.bodies@.len() {
        lemma_worst_from(so_far, catalogue, graph, required, left + 1, left + 2, l, r);
    } else {
        let short = pair_shortfall(catalogue, graph, required, left, right);
        lemma_shortfall_bound(catalogue, graph, required, left, right);
        let next = if short > 0 && (so_far is None || quarters(short) > so_far->0.shortfall) {
            Some(violation(left, right, short))
        } else {
            so_far
        };
        assert(next == so_far || is_pair(next->0, catalogue, graph, required));
        lemma_worst_from(next, catalogue, graph, required, left, right + 1, l, r);
    }
}

proof fn lemma_shortfall_bound(
    catalogue: Catalogue,
    graph: BodyGraph,
    required: Seq<i64>,
    left: int,
    right: int,
)
    requires
        demands(required, graph.bodies@.len()),
        0 <= left < graph.bodies@.len(),
        0 <= right < graph.bodies@.len(),
    ensures
        0 <= pair_shortfall(catalogue, graph, required, left, right) <= 0x1000_0000_0000,
{
    let need = larger(required[left] as int, required[right] as int);
    let mine = placed_of(catalogue, graph.bodies@[left]@);
    let theirs = placed_of(catalogue, graph.bodies@[right]@);
    lemma_bounded(mine, theirs, need, mine.len());
}

proof fn lemma_bounded(left: Seq<PlacedView>, right: Seq<PlacedView>, required: int, count: nat)
    requires
        required >= 0,
    ensures
        0 <= shortfall(left, right, required, count) <= required,
    decreases count,
{
    if count > 0 {
        lemma_bounded(left, right, required, (count - 1) as nat);
        lemma_row_bounded(left[count - 1], right, required, right.len());
    }
}

proof fn lemma_row_bounded(here: PlacedView, right: Seq<PlacedView>, required: int, count: nat)
    requires
        required >= 0,
    ensures
        0 <= row_shortfall(here, right, required, count) <= required,
    decreases count,
{
    if count > 0 {
        lemma_row_bounded(here, right, required, (count - 1) as nat);
    }
}

/// The violation is of two bodies that are short by as much as it says.
pub open spec fn is_pair(
    worst: Violation,
    catalogue: Catalogue,
    graph: BodyGraph,
    required: Seq<i64>,
) -> bool {
    let short = pair_shortfall(
        catalogue,
        graph,
        required,
        worst.left as int,
        worst.right as int,
    );
    &&& worst.left < worst.right < graph.bodies@.len()
    &&& short > 0
    &&& worst.shortfall == quarters(short)
}

/// The pair that is reported is too close by as much as is said, no pair is too
/// close by more, and no pair is reported only where none is too close.
pub proof fn lemma_worst_is_worst(
    catalogue: Catalogue,
    graph: BodyGraph,
    required: Seq<i64>,
    left: int,
    right: int,
)
    requires
        graph.bodies@.len() <= usize::MAX,
        demands(required, graph.bodies@.len()),
        0 <= left < right < graph.bodies@.len(),
    ensures
        match worst_from(None, catalogue, graph, required, 0, 1) {
            Some(worst) => is_pair(worst, catalogue, graph, required) && quarters(
                pair_shortfall(catalogue, graph, required, left, right),
            ) <= worst.shortfall,
            None => pair_shortfall(catalogue, graph, required, left, right) == 0,
        },
{
    lemma_worst_from(None, catalogue, graph, required, 0, 1, left, right);
    lemma_shortfall_bound(catalogue, graph, required, left, right);
}

/// The first port of a kind that is on a side, from one on.
pub open spec fn side_port(ports: Seq<Port>, side: RelativeSide, from: int) -> Option<Port>
    decreases ports.len() - from,
{
    if from < 0 || from >= ports.len() {
        None
    } else if ports[from].kind == PortKind::RepeaterSide && ports[from].side == Some(side) {
        Some(ports[from])
    } else {
        side_port(ports, side, from + 1)
    }
}

fn find_side(ports: &Vec<Port>, side: RelativeSide) -> (found: Option<Port>)
    ensures
        found == side_port(ports@, side, 0),
{
    let mut at: usize = 0;
    while at < ports.len()
        invariant
            at <= ports@.len(),
            side_port(ports@, side, 0) == side_port(ports@, side, at as int),
        decreases ports@.len() - at,
    {
        let port: Port = ports[at];
        if port.kind == PortKind::RepeaterSide {
            if let Some(found) = port.side {
                if found == side {
                    return Some(port);
                }
            }
        }
        at = at + 1;
    }
    None
}

/// The weld can be made: its socket is one of the junction's, its side one of the
/// component's.
pub open spec fn weldable(catalogue: Catalogue, graph: BodyGraph, weld: Weld) -> bool {
    match weld {
        Weld::AtSocket { repeater, junction, input_index } => {
            &&& junction < graph.bodies@.len()
            &&& input_index < catalogue.frame(
                graph.bodies@[junction as int].facing,
            ).inputs@.len()
        },
        Weld::BesideAt { lock, data, side } => {
            let body = graph.bodies@[data as int];
            &&& data < graph.bodies@.len()
            &&& body.what is Primitive
            &&& catalogue.of(body.what->kind)@.len() == 4
            &&& side_port(
                bodies::variant_of(catalogue, body.what, body.facing).ports@,
                side,
                0,
            ) is Some
        },
    }
}

/// How far from the second body of a weld the first one stands.
pub open spec fn weld_step(catalogue: Catalogue, graph: BodyGraph, weld: Weld) -> Position {
    match weld {
        Weld::AtSocket { repeater, junction, input_index } => bodies::steps_out(
            catalogue.frame(graph.bodies@[junction as int].facing).inputs@[input_index as int],
            1,
        ),
        Weld::BesideAt { lock, data, side } => {
            let body = graph.bodies@[data as int];
            side_port(
                bodies::variant_of(catalogue, body.what, body.facing).ports@,
                side,
                0,
            )->0.position
        },
    }
}

/// The body that a weld holds, the body that it is held to, and how far from it.
/// It depends on how the latter is turned.
pub fn weld_offset(catalogue: &Catalogue, graph: &BodyGraph, weld: &Weld) -> (held: (
    usize,
    usize,
    Position,
))
    requires
        catalogue.wf(),
        weldable(*catalogue, *graph, *weld),
    ensures
        (held.0, held.1) == weld_ends(*weld),
        held.2 == weld_step(*catalogue, *graph, *weld),
{
    match weld {
        Weld::AtSocket { repeater, junction, input_index } => {
            let body: &Body = &graph.bodies[*junction];
            (
                *repeater,
                *junction,
                bodies::attach_offset(catalogue, Attach::Socket(*input_index), body),
            )
        },
        Weld::BesideAt { lock, data, side } => {
            let body: &Body = &graph.bodies[*data];
            let primitive: Primitive = match body.what {
                BodyKind::Primitive { kind, .. } => kind,
                BodyKind::Junction { .. } => Primitive::Repeater,
            };
            let ports: &Vec<Port> = &catalogue.variants(primitive)[body.facing.index()].ports;
            let step: Position = match find_side(ports, *side) {
                Some(port) => port.position,
                None => Position::new(0, 0, 0),
            };
            (*lock, *data, step)
        },
    }
}

} // verus!
