//! Where routes run: which cells each stretch holds, and that the stretches of an edge lead
//! from the pin of its net to the socket of its gate, cell by cell.

use crate::compile::circuit;
use crate::compile::circuit::CompiledCircuit;
use crate::compile::netlist::Netlist;
use crate::compile::routing_stats;
use crate::compile::routing_stats::{Geometry, Net, RoutePart, Segment, Source};
use crate::redstone::block::{BlockKind, Facing};
use crate::redstone::position::Position;
use crate::redstone::world::World;
use crate::text;
use vstd::arithmetic::div_mod;
use vstd::prelude::*;

verus! {

pub open spec fn distance(one: int, two: int) -> nat {
    (if one < two {
        two - one
    } else {
        one - two
    }) as nat
}

/// One cell is reached from another by one step, level or to the side of one level up or
/// down, or straight up or down.
pub open spec fn is_near(one: Position, two: Position) -> bool {
    &&& one != two
    &&& distance(one.x as int, two.x as int) + distance(one.z as int, two.z as int) <= 1
    &&& distance(one.y as int, two.y as int) <= 1
}

/// Every cell is reached from the one before it, and the first from where the walk starts.
pub open spec fn walks(from: Position, cells: Seq<Position>) -> bool {
    forall|i: int| 0 <= i < cells.len() ==> #[trigger] is_reached_at(from, cells, i)
}

/// A cell of a walk is reached from the one before it.
pub open spec fn is_reached_at(from: Position, cells: Seq<Position>, i: int) -> bool {
    is_near(
        if i == 0 {
            from
        } else {
            cells[i - 1]
        },
        cells[i],
    )
}

/// Where a walk ends.
pub open spec fn end_of(from: Position, cells: Seq<Position>) -> Position {
    if cells.len() == 0 {
        from
    } else {
        cells.last()
    }
}

proof fn lemma_walk_on(from: Position, one: Seq<Position>, two: Seq<Position>)
    requires
        walks(from, one),
        walks(end_of(from, one), two),
    ensures
        walks(from, one + two),
        end_of(from, one + two) == end_of(end_of(from, one), two),
{
    let both = one + two;
    assert forall|i: int| 0 <= i < both.len() implies #[trigger] is_reached_at(from, both, i) by {
        if i < one.len() {
            assert(is_reached_at(from, one, i));
        } else {
            assert(is_reached_at(end_of(from, one), two, i - one.len()));
        }
    }
}

/// A track from one column to another runs through every column between them, the one it
/// starts from left out and the one it reaches taken in, whichever of the two is the
/// smaller, and through each once.
pub proof fn lemma_cells_of_a_track(from: i32, to: i32, y: i32, z: i32)
    ensures
        ({
            let cells = routing_stats::track_cells(from, to, y, z);
            &&& cells.len() == distance(from as int, to as int)
            &&& cells.no_duplicates()
            &&& forall|cell: Position| #[trigger]
                cells.contains(cell) <==> cell.y == y && cell.z == z && ((from < cell.x <= to) || (
                to <= cell.x < from))
            &&& from != to ==> cells.last() == (Position { x: to, y, z })
            &&& walks(Position { x: from, y, z }, cells)
            &&& end_of(Position { x: from, y, z }, cells) == (Position { x: to, y, z })
        }),
{
    let cells = routing_stats::track_cells(from, to, y, z);
    assert forall|cell: Position| #[trigger]
        cells.contains(cell) <==> cell.y == y && cell.z == z && ((from < cell.x <= to) || (to
            <= cell.x < from)) by {
        if cell.y == y && cell.z == z && ((from < cell.x <= to) || (to <= cell.x < from)) {
            let i = distance(from as int, cell.x as int) - 1;
            assert(cells[i] == cell);
        }
    }
}

/// A run goes north from a cell, through as many cells as it is long.
pub proof fn lemma_cells_of_a_run(start: Position, length: nat)
    requires
        start.z - length >= i32::MIN,
    ensures
        ({
            let cells = routing_stats::run_cells(start, length);
            &&& cells.len() == length
            &&& cells.no_duplicates()
            &&& forall|cell: Position| #[trigger]
                cells.contains(cell) <==> cell.x == start.x && cell.y == start.y && start.z - length
                    <= cell.z < start.z
            &&& walks(start, cells)
            &&& end_of(start, cells) == (Position { z: (start.z - length) as i32, ..start })
        }),
{
    let cells = routing_stats::run_cells(start, length);
    assert forall|cell: Position| #[trigger]
        cells.contains(cell) <==> cell.x == start.x && cell.y == start.y && start.z - length
            <= cell.z < start.z by {
        if cell.x == start.x && cell.y == start.y && start.z - length <= cell.z < start.z {
            assert(cells[start.z - 1 - cell.z] == cell);
        }
    }
}

/// A whole track runs once through every column between its two ends, but for the one in
/// which it is entered.
pub proof fn lemma_cells_of_a_whole_track(from: i32, lo: i32, hi: i32, y: i32, z: i32)
    requires
        lo <= from <= hi,
    ensures
        ({
            let cells = routing_stats::full_track_cells(from, lo, hi, y, z);
            &&& cells.len() == hi - lo
            &&& cells.no_duplicates()
            &&& forall|cell: Position| #[trigger]
                cells.contains(cell) <==> cell.y == y && cell.z == z && lo <= cell.x <= hi && cell.x
                    != from
        }),
{
    let west = routing_stats::track_cells(from, lo, y, z);
    let east = routing_stats::track_cells(from, hi, y, z);
    let cells = routing_stats::full_track_cells(from, lo, hi, y, z);
    lemma_cells_of_a_track(from, lo, y, z);
    lemma_cells_of_a_track(from, hi, y, z);
    assert(cells =~= west + east);
    assert forall|cell: Position| #[trigger]
        cells.contains(cell) <==> cell.y == y && cell.z == z && lo <= cell.x <= hi && cell.x
            != from by {
        if cells.contains(cell) {
            let i = choose|i: int| 0 <= i < cells.len() && cells[i] == cell;
            if i < west.len() {
                assert(west.contains(west[i]));
            } else {
                assert(east.contains(east[i - west.len()]));
            }
        }
        if cell.y == y && cell.z == z && lo <= cell.x < from {
            assert(west.contains(cell));
            let i = choose|i: int| 0 <= i < west.len() && west[i] == cell;
            assert(cells[i] == cell);
        }
        if cell.y == y && cell.z == z && from < cell.x <= hi {
            assert(east.contains(cell));
            let i = choose|i: int| 0 <= i < east.len() && east[i] == cell;
            assert(cells[west.len() + i] == cell);
        }
    }
    assert forall|i: int, j: int|
        0 <= i < cells.len() && 0 <= j < cells.len() && i != j implies cells[i] != cells[j] by {
        if i < west.len() {
            assert(west.contains(west[i]));
        } else {
            assert(east.contains(east[i - west.len()]));
        }
        if j < west.len() {
            assert(west.contains(west[j]));
        } else {
            assert(east.contains(east[j - west.len()]));
        }
    }
}

/// A ramp rests before every level whose number is a multiple of the interval, and never
/// before the first.
pub proof fn lemma_how_often_a_ramp_rests(levels: nat, rest: int)
    requires
        rest > 0,
    ensures
        levels == 0 ==> routing_stats::rests_before(levels, rest) == 0,
        levels > 0 ==> routing_stats::rests_before(levels, rest) == (levels - 1) / rest,
    decreases levels,
{
    if levels == 1 {
        assert(routing_stats::rests_before(0, rest) == 0);
        div_mod::lemma_basic_div(0, rest);
    } else if levels > 1 {
        let below = levels - 1;
        lemma_how_often_a_ramp_rests(below as nat, rest);
        let q = (below - 1) / rest;
        let r = (below - 1) % rest;
        div_mod::lemma_fundamental_div_mod(below - 1, rest);
        div_mod::lemma_mod_bound(below - 1, rest);
        if r + 1 == rest {
            assert(below == (q + 1) * rest + 0) by (nonlinear_arith)
                requires
                    below - 1 == rest * q + r,
                    r + 1 == rest,
            ;
            div_mod::lemma_fundamental_div_mod_converse(below, rest, q + 1, 0);
        } else {
            assert(below == q * rest + (r + 1)) by (nonlinear_arith)
                requires
                    below - 1 == rest * q + r,
            ;
            div_mod::lemma_fundamental_div_mod_converse(below, rest, q, r + 1);
        }
    }
}

/// The height of a ramp after some levels.
pub open spec fn height_after(entry: Position, levels: int, climbing: bool) -> int {
    if climbing {
        entry.y + levels
    } else {
        entry.y - levels
    }
}

/// A ramp goes north, one cell after the other, and comes to the height that lies so many
/// levels above its foot, or below it.
pub proof fn lemma_a_ramp_is_a_walk(entry: Position, levels: nat, climbing: bool, rest: int)
    requires
        rest > 0,
        routing_stats::ramp_ends(entry.z as int, levels, rest),
        routing_stats::in_range(height_after(entry, levels as int, climbing)),
    ensures
        ({
            let cells = routing_stats::ramp_cells(entry, levels, climbing, rest);
            let end = end_of(entry, cells);
            &&& walks(entry, cells)
            &&& cells.len() == levels + 2 * routing_stats::rests_before(levels, rest)
            &&& forall|i: int|
                0 <= i < cells.len() ==> (#[trigger] cells[i]).x == entry.x && cells[i].z == entry.z
                    - 1 - i
            &&& end.x == entry.x
            &&& end.y == height_after(entry, levels as int, climbing)
            &&& end.z == entry.z - cells.len()
        }),
    decreases levels,
{
    if levels > 0 {
        let less = (levels - 1) as nat;
        lemma_a_ramp_is_a_walk(entry, less, climbing, rest);
        let before = routing_stats::ramp_cells(entry, less, climbing, rest);
        let end = routing_stats::ramp_end(entry, less, climbing, rest);
        let landing = routing_stats::ramp_end(entry, levels, climbing, rest);
        assert(end == end_of(entry, before));
        let more = if routing_stats::rests_at(levels - 1, rest) {
            seq![
                Position { x: end.x, y: end.y, z: (end.z - 1) as i32 },
                Position { x: end.x, y: end.y, z: (end.z - 2) as i32 },
                landing,
            ]
        } else {
            seq![landing]
        };
        assert(walks(end, more));
        lemma_walk_on(entry, before, more);
        let cells = routing_stats::ramp_cells(entry, levels, climbing, rest);
        assert(cells =~= before + more);
        assert forall|i: int| 0 <= i < cells.len() implies (#[trigger] cells[i]).x == entry.x
            && cells[i].z == entry.z - 1 - i by {
            if i < before.len() {
                assert(cells[i] == before[i]);
            } else {
                assert(cells[i] == more[i - before.len()]);
            }
        }
    }
}

/// Every level of a ramp is one cell, and before a level at which it rests lie two cells
/// at the height below.
pub proof fn lemma_levels_of_a_ramp(
    entry: Position,
    levels: nat,
    climbing: bool,
    rest: int,
    level: int,
)
    requires
        rest > 0,
        0 < level <= levels,
        routing_stats::ramp_ends(entry.z as int, levels, rest),
        routing_stats::in_range(height_after(entry, levels as int, climbing)),
    ensures
        ({
            let cells = routing_stats::ramp_cells(entry, levels, climbing, rest);
            let at = level - 1 + 2 * ((level - 1) / rest);
            &&& 0 <= at < cells.len()
            &&& cells[at].y == height_after(entry, level, climbing)
            &&& level > 1 && (level - 1) % rest == 0 ==> at >= 2 && cells[at - 1].y
                == height_after(entry, level - 1, climbing) && cells[at - 2].y == height_after(
                entry,
                level - 1,
                climbing,
            )
        }),
    decreases levels,
{
    let cells = routing_stats::ramp_cells(entry, levels, climbing, rest);
    let less = (levels - 1) as nat;
    let before = routing_stats::ramp_cells(entry, less, climbing, rest);
    lemma_a_ramp_is_a_walk(entry, levels, climbing, rest);
    lemma_a_ramp_is_a_walk(entry, less, climbing, rest);
    lemma_how_often_a_ramp_rests(level as nat, rest);
    lemma_how_often_a_ramp_rests(levels, rest);
    let at = level - 1 + 2 * ((level - 1) / rest);
    if level < levels {
        lemma_levels_of_a_ramp(entry, less, climbing, rest, level);
        assert forall|i: int| 0 <= i < before.len() implies cells[i] == before[i] by {}
    } else {
        assert(at == cells.len() - 1);
    }
}

proof fn lemma_cells_along_an_axis(from: Position, by: int, axis: int)
    requires
        0 <= axis < 3,
        axis == 0 ==> routing_stats::in_range(from.x + by),
        axis == 1 ==> routing_stats::in_range(from.y + by),
        axis == 2 ==> routing_stats::in_range(from.z + by),
    ensures
        ({
            let cells = routing_stats::axis_cells(from, by, axis);
            let end = end_of(from, cells);
            &&& walks(from, cells)
            &&& cells.len() == distance(by, 0)
            &&& end.x == from.x + (if axis == 0 {
                by
            } else {
                0
            })
            &&& end.y == from.y + (if axis == 1 {
                by
            } else {
                0
            })
            &&& end.z == from.z + (if axis == 2 {
                by
            } else {
                0
            })
            &&& forall|i: int|
                0 <= i < cells.len() ==> {
                    let cell = #[trigger] cells[i];
                    &&& axis != 0 ==> cell.x == from.x
                    &&& axis != 1 ==> cell.y == from.y
                    &&& axis != 2 ==> cell.z == from.z
                }
        }),
{
    let cells = routing_stats::axis_cells(from, by, axis);
}

/// A leg is a shortest walk from one cell to another: along `x` first, then along `y`,
/// then along `z`.
pub proof fn lemma_a_leg_is_a_shortest_walk(from: Position, to: Position)
    ensures
        ({
            let cells = routing_stats::leg_cells(from, to);
            let wide = distance(from.x as int, to.x as int);
            let high = distance(from.y as int, to.y as int);
            let deep = distance(from.z as int, to.z as int);
            &&& walks(from, cells)
            &&& end_of(from, cells) == to
            &&& cells.len() == wide + high + deep
            &&& forall|i: int|
                0 <= i < wide ==> (#[trigger] cells[i]).y == from.y && cells[i].z == from.z
            &&& forall|i: int|
                wide <= i < wide + high ==> (#[trigger] cells[i]).x == to.x && cells[i].z == from.z
            &&& forall|i: int|
                wide + high <= i < cells.len() ==> (#[trigger] cells[i]).x == to.x && cells[i].y
                    == to.y
        }),
{
    let one = routing_stats::axis_cells(from, to.x - from.x, 0);
    let corner = Position { x: to.x, ..from };
    let two = routing_stats::axis_cells(corner, to.y - from.y, 1);
    let above = Position { z: from.z, ..to };
    let three = routing_stats::axis_cells(above, to.z - from.z, 2);
    let cells = routing_stats::leg_cells(from, to);
    lemma_cells_along_an_axis(from, to.x - from.x, 0);
    lemma_cells_along_an_axis(corner, to.y - from.y, 1);
    lemma_cells_along_an_axis(above, to.z - from.z, 2);
    assert(end_of(from, one) == corner);
    assert(end_of(corner, two) == above);
    lemma_walk_on(from, one, two);
    lemma_walk_on(from, one + two, three);
    assert(cells =~= one + two + three);
    assert forall|i: int| 0 <= i < one.len() implies (#[trigger] cells[i]).y == from.y && cells[i].z
        == from.z by {
        assert(cells[i] == one[i]);
    }
    assert forall|i: int| one.len() <= i < one.len() + two.len() implies (
    #[trigger] cells[i]).x == to.x && cells[i].z == from.z by {
        assert(cells[i] == two[i - one.len()]);
    }
    assert forall|i: int| one.len() + two.len() <= i < cells.len() implies (
    #[trigger] cells[i]).x == to.x && cells[i].y == to.y by {
        assert(cells[i] == three[i - one.len() - two.len()]);
    }
}

/// A path that bends is a walk through each of its bends, to the last.
pub proof fn lemma_a_bent_path_is_a_walk(start: Position, bends: Seq<Position>)
    ensures
        ({
            let cells = routing_stats::bent_cells(start, bends);
            &&& walks(start, cells)
            &&& end_of(start, cells) == end_of(start, bends)
            &&& forall|k: int|
                0 <= k < bends.len() ==> #[trigger] bends[k] == start || cells.contains(bends[k])
        }),
    decreases bends.len(),
{
    let cells = routing_stats::bent_cells(start, bends);
    if bends.len() > 0 {
        let before = bends.drop_last();
        let from = end_of(start, before);
        let first = routing_stats::bent_cells(start, before);
        let last = routing_stats::leg_cells(from, bends.last());
        lemma_a_bent_path_is_a_walk(start, before);
        lemma_a_leg_is_a_shortest_walk(from, bends.last());
        lemma_walk_on(start, first, last);
        assert(cells =~= first + last);
        assert forall|k: int| 0 <= k < bends.len() implies #[trigger] bends[k] == start
            || cells.contains(bends[k]) by {
            if k < before.len() {
                assert(bends[k] == before[k]);
                if before[k] != start {
                    let i = choose|i: int| 0 <= i < first.len() && first[i] == before[k];
                    assert(cells[i] == bends[k]);
                }
            } else if last.len() > 0 {
                assert(cells[cells.len() - 1] == bends[k]);
            } else {
                assert(from == bends[k]);
                if before.len() > 0 {
                    assert(before[before.len() - 1] == from);
                    if from != start {
                        let i = choose|i: int| 0 <= i < first.len() && first[i] == from;
                        assert(cells[i] == bends[k]);
                    }
                }
            }
        }
    }
}

/// The wire from a lever begins one step north of it, and that from a gate one step from
/// its output, on the side of outputs.
pub proof fn lemma_where_a_wire_begins(
    list: Netlist,
    compiled: CompiledCircuit,
    geometry: Geometry,
    source: Source,
)
    requires
        routing_stats::source_ok(list, compiled, geometry, source),
    ensures
        ({
            let pin = routing_stats::pin_of(list, compiled, geometry, source);
            match source {
                Source::Lever(i) => circuit::position_of(
                    compiled.input_positions@,
                    list.inputs@[i as int]@,
                )->0.steps_to(Facing::North, pin) && routing_stats::source_name(list, source)
                    == list.inputs@[i as int]@,
                Source::Gate(g) => circuit::position_of(
                    compiled.gate_output_positions@,
                    list.gates@[g as int].output@,
                )->0.steps_to(geometry.output_direction, pin) && routing_stats::source_name(
                    list,
                    source,
                ) == list.gates@[g as int].output@,
            }
        }),
{
}

/// A socket stands from the middle of its gate as far as its shape says, and is
/// approached in the column that belongs to the input.
pub proof fn lemma_where_a_socket_is(list: Netlist, geometry: Geometry, gate: usize, input: usize)
    requires
        routing_stats::sink_ok(list, geometry, gate, input),
    ensures
        ({
            let socket = routing_stats::socket_of(list, geometry, gate, input);
            let arity = list.gates@[gate as int].inputs@.len() as int;
            let offset = geometry.input_offsets@[arity]@[input as int];
            &&& socket.x - geometry.centre_x@[gate as int] == offset.0
            &&& socket.y - geometry.gate_y == offset.1
            &&& socket.z - geometry.row_z@[geometry.row_of@[gate as int] as int] == offset.2
            &&& routing_stats::approach_column(geometry, gate, input)
                - geometry.centre_x@[gate as int] == geometry.approach@[input as int]
        }),
{
}

/// All cells of a route, in order.
pub open spec fn all_cells(segments: Seq<Segment>) -> Seq<Position>
    decreases segments.len(),
{
    if segments.len() == 0 {
        seq![]
    } else {
        all_cells(segments.drop_last()) + segments.last().cells
    }
}

proof fn lemma_one_more_stretch(segments: Seq<Segment>, next: Segment)
    ensures
        all_cells(segments.push(next)) == all_cells(segments) + next.cells,
{
    assert(segments.push(next).drop_last() =~= segments);
}

proof fn lemma_four_more_stretches(
    segments: Seq<Segment>,
    one: Segment,
    two: Segment,
    three: Segment,
    four: Segment,
)
    ensures
        all_cells(segments + seq![one, two, three, four]) == all_cells(segments) + one.cells
            + two.cells + three.cells + four.cells,
{
    lemma_one_more_stretch(segments, one);
    lemma_one_more_stretch(segments.push(one), two);
    lemma_one_more_stretch(segments.push(one).push(two), three);
    lemma_one_more_stretch(segments.push(one).push(two).push(three), four);
    assert(segments + seq![one, two, three, four] =~= segments.push(one).push(two).push(
        three,
    ).push(four));
}

/// The foot of a slot's ramps is as far from its track as the ramps are long.
pub open spec fn ramps_fit(geometry: Geometry, net: Net, slot: int) -> bool {
    let track = routing_stats::track_of(geometry, net, slot);
    let levels = distance(geometry.gate_y as int, track.y as int);
    track.ramp_length == levels + 2 * routing_stats::rests_before(
        levels,
        geometry.rest_interval as int,
    )
}

/// Up, along and down again: the stretches of a slot lead from the foot of its ramp to the
/// landing in a column.
proof fn lemma_through_a_slot(geometry: Geometry, net: Net, slot: int, x: i32)
    requires
        geometry.rest_interval > 0,
        routing_stats::slot_ok(geometry, net, slot),
        ramps_fit(geometry, net, slot),
    ensures
        ({
            let up = routing_stats::ramp_up(geometry, net, slot);
            let along = routing_stats::track_share(geometry, net, slot, x);
            let down = routing_stats::ramp_down(geometry, net, slot, x);
            let entry = routing_stats::entry_of(geometry, net, slot);
            let cells = up.cells + along.cells + down.cells;
            &&& walks(entry, cells)
            &&& end_of(entry, cells) == routing_stats::landing_of(geometry, net, slot, x)
        }),
{
    let up = routing_stats::ramp_up(geometry, net, slot);
    let along = routing_stats::track_share(geometry, net, slot, x);
    let down = routing_stats::ramp_down(geometry, net, slot, x);
    let entry = routing_stats::entry_of(geometry, net, slot);
    let track = routing_stats::track_of(geometry, net, slot);
    let levels = distance(geometry.gate_y as int, track.y as int);
    let rest = geometry.rest_interval as int;
    let column = routing_stats::entry_column(net, slot);
    let top = Position { x: column, y: track.y, z: track.z };
    let turn = Position { x, y: track.y, z: track.z };
    lemma_a_ramp_is_a_walk(entry, levels, track.y >= geometry.gate_y, rest);
    assert(end_of(entry, up.cells) == top);
    lemma_cells_of_a_track(column, x, track.y, track.z);
    lemma_a_ramp_is_a_walk(turn, levels, geometry.gate_y >= track.y, rest);
    assert(end_of(turn, down.cells) == routing_stats::landing_of(geometry, net, slot, x));
    lemma_walk_on(entry, up.cells, along.cells);
    lemma_walk_on(entry, up.cells + along.cells, down.cells);
}

proof fn lemma_fed_through_is_a_walk(
    list: Netlist,
    compiled: CompiledCircuit,
    geometry: Geometry,
    net: Net,
    count: nat,
)
    requires
        geometry.rest_interval > 0,
        routing_stats::net_ok(list, compiled, geometry, net),
        net.bypass is None,
        count < net.channels@.len(),
        forall|slot: int| 0 <= slot <= count ==> #[trigger] ramps_fit(geometry, net, slot),
    ensures
        ({
            let pin = routing_stats::pin_of(list, compiled, geometry, net.source);
            let cells = all_cells(
                routing_stats::fed_through(list, compiled, geometry, net, count),
            );
            &&& walks(pin, cells)
            &&& end_of(pin, cells) == routing_stats::entry_of(geometry, net, count as int)
        }),
    decreases count,
{
    let pin = routing_stats::pin_of(list, compiled, geometry, net.source);
    assert(routing_stats::slot_ok(geometry, net, count as int));
    if count == 0 {
        let first = routing_stats::column_in(list, compiled, geometry, net);
        lemma_one_more_stretch(seq![], first);
        assert(seq![first] =~= Seq::<Segment>::empty().push(first));
        assert(all_cells(seq![first]) =~= first.cells);
        let entry = routing_stats::entry_of(geometry, net, 0);
        lemma_cells_of_a_run(pin, (pin.z - entry.z) as nat);
    } else {
        let slot = count - 1;
        let before = routing_stats::fed_through(list, compiled, geometry, net, slot as nat);
        lemma_fed_through_is_a_walk(list, compiled, geometry, net, slot as nat);
        let x = net.hops@[slot];
        let up = routing_stats::ramp_up(geometry, net, slot);
        let along = routing_stats::track_share(geometry, net, slot, x);
        let down = routing_stats::ramp_down(geometry, net, slot, x);
        let on = routing_stats::column_on(geometry, net, slot);
        lemma_four_more_stretches(before, up, along, down, on);
        assert(routing_stats::slot_ok(geometry, net, slot));
        assert(ramps_fit(geometry, net, slot));
        lemma_through_a_slot(geometry, net, slot, x);
        let through = up.cells + along.cells + down.cells;
        let landing = routing_stats::landing_of(geometry, net, slot, x);
        let entry = routing_stats::entry_of(geometry, net, slot + 1);
        assert(routing_stats::landing_of(geometry, net, slot, 0).z >= entry.z);
        lemma_cells_of_a_run(landing, (landing.z - entry.z) as nat);
        lemma_walk_on(pin, all_cells(before), through);
        lemma_walk_on(pin, all_cells(before) + through, on.cells);
        assert(all_cells(before) + up.cells + along.cells + down.cells + on.cells =~= all_cells(
            before,
        ) + through + on.cells);
    }
}

/// The route of an edge is a walk, cell by cell, from the pin of its net to the socket of
/// its gate.
pub proof fn lemma_an_edge_leads_from_its_pin_to_its_socket(
    list: Netlist,
    compiled: CompiledCircuit,
    geometry: Geometry,
    net: Net,
    slot: int,
    gate: usize,
    input: usize,
)
    requires
        geometry.rest_interval > 0,
        routing_stats::net_ok(list, compiled, geometry, net),
        net.bypass is None,
        0 <= slot < net.channels@.len(),
        forall|s: int| 0 <= s <= slot ==> #[trigger] ramps_fit(geometry, net, s),
    ensures
        ({
            let pin = routing_stats::pin_of(list, compiled, geometry, net.source);
            let cells = all_cells(
                routing_stats::edge_route(list, compiled, geometry, net, slot, gate, input),
            );
            &&& walks(pin, cells)
            &&& end_of(pin, cells) == routing_stats::socket_of(list, geometry, gate, input)
        }),
{
    let pin = routing_stats::pin_of(list, compiled, geometry, net.source);
    let before = routing_stats::fed_through(list, compiled, geometry, net, slot as nat);
    lemma_fed_through_is_a_walk(list, compiled, geometry, net, slot as nat);
    let x = routing_stats::approach_column(geometry, gate, input);
    let up = routing_stats::ramp_up(geometry, net, slot);
    let along = routing_stats::track_share(geometry, net, slot, x);
    let down = routing_stats::ramp_down(geometry, net, slot, x);
    let last = routing_stats::gate_entry(list, geometry, net, slot, gate, input);
    lemma_four_more_stretches(before, up, along, down, last);
    assert(routing_stats::slot_ok(geometry, net, slot));
    assert(ramps_fit(geometry, net, slot));
    lemma_through_a_slot(geometry, net, slot, x);
    let through = up.cells + along.cells + down.cells;
    let landing = routing_stats::landing_of(geometry, net, slot, x);
    let bends = routing_stats::entry_bends(
        landing,
        routing_stats::socket_of(list, geometry, gate, input),
        routing_stats::row_of(geometry, gate),
    );
    lemma_a_bent_path_is_a_walk(landing, bends);
    lemma_walk_on(pin, all_cells(before), through);
    lemma_walk_on(pin, all_cells(before) + through, last.cells);
    assert(all_cells(before) + up.cells + along.cells + down.cells + last.cells =~= all_cells(
        before,
    ) + through + last.cells);
}

/// A gate is entered along its row: where the socket is in another column, the path turns
/// where the column of approach meets the row.
pub proof fn lemma_a_gate_is_entered_along_its_row(landing: Position, socket: Position, row_z: i32)
    ensures
        ({
            let bends = routing_stats::entry_bends(landing, socket, row_z);
            let turn = Position { x: landing.x, y: landing.y, z: row_z };
            &&& bends.last() == socket
            &&& socket.x != landing.x ==> bends.contains(turn)
            &&& forall|k: int| 0 <= k < bends.len() ==> #[trigger] bends[k] == turn || bends[k]
                == socket
        }),
{
    let bends = routing_stats::entry_bends(landing, socket, row_z);
    assert(bends[0] == bends[0]);
}

/// A direct route is a walk from where it begins to the socket of the one gate it reaches;
/// it counts the cell it begins at unless that is the pin.
pub proof fn lemma_a_direct_route_leads_to_its_socket(
    list: Netlist,
    compiled: CompiledCircuit,
    geometry: Geometry,
    net: Net,
)
    requires
        net.bypass is Some,
        net.sinks@.len() > 0,
        net.sinks@[0]@.len() > 0,
    ensures
        ({
            let start = net.bypass->0;
            let pin = routing_stats::pin_of(list, compiled, geometry, net.source);
            let (gate, input) = net.sinks@[0]@[0];
            let socket = routing_stats::socket_of(list, geometry, gate, input);
            let route = routing_stats::bypass_route(list, compiled, geometry, net);
            let rest = if start != pin {
                route.cells.skip(1)
            } else {
                route.cells
            };
            &&& route.part is Bypass
            &&& start != pin ==> route.cells.len() > 0 && route.cells[0] == start
            &&& walks(start, rest)
            &&& end_of(start, rest) == socket
            &&& ({
                let x = routing_stats::approach_column(geometry, gate, input);
                let turn = Position {
                    x,
                    y: start.y,
                    z: routing_stats::row_of(geometry, gate),
                };
                &&& socket.x != x && turn != start ==> rest.contains(turn)
                &&& start.x != x ==> rest.contains(Position { x, y: start.y, z: start.z })
            })
        }),
{
    let start = net.bypass->0;
    let pin = routing_stats::pin_of(list, compiled, geometry, net.source);
    let (gate, input) = net.sinks@[0]@[0];
    let socket = routing_stats::socket_of(list, geometry, gate, input);
    let x = routing_stats::approach_column(geometry, gate, input);
    let row = routing_stats::row_of(geometry, gate);
    let bends = routing_stats::bypass_bends(start, x, socket, row);
    let cells = routing_stats::bent_cells(start, bends);
    let route = routing_stats::bypass_route(list, compiled, geometry, net);
    let rest = if start != pin {
        route.cells.skip(1)
    } else {
        route.cells
    };
    assert(rest =~= cells);
    lemma_a_bent_path_is_a_walk(start, bends);
    assert(bends.last() == socket);
    let onto = Position { x, y: start.y, z: start.z };
    let turn = Position { x, y: start.y, z: row };
    if start.x != x {
        assert(bends[0] == onto);
    }
    if socket.x != x {
        assert(bends[bends.len() - 2] == turn);
    }
}

/// The stretches of an edge: a column from the pin, then for each slot a ramp, a track and
/// a ramp, with a column to the next slot and after the last the way into its sink.
pub proof fn lemma_parts_of_an_edge(
    list: Netlist,
    compiled: CompiledCircuit,
    geometry: Geometry,
    net: Net,
    slot: int,
    gate: usize,
    input: usize,
)
    requires
        net.bypass is None,
        slot >= 0,
    ensures
        ({
            let route = routing_stats::edge_route(
                list,
                compiled,
                geometry,
                net,
                slot,
                gate,
                input,
            );
            &&& route.len() == 4 * (slot + 1) + 1
            &&& forall|i: int|
                0 <= i < route.len() ==> {
                    let part = (#[trigger] route[i]).part;
                    &&& part is GateEntry <==> i == route.len() - 1
                    &&& part is Column <==> i % 4 == 0 && i < route.len() - 1
                    &&& part is Track <==> i % 4 == 2
                    &&& part is Ramp <==> i % 2 == 1
                }
        }),
{
    lemma_parts_fed_through(list, compiled, geometry, net, slot as nat);
}

proof fn lemma_parts_fed_through(
    list: Netlist,
    compiled: CompiledCircuit,
    geometry: Geometry,
    net: Net,
    count: nat,
)
    ensures
        ({
            let route = routing_stats::fed_through(list, compiled, geometry, net, count);
            &&& route.len() == 4 * count + 1
            &&& forall|i: int|
                0 <= i < route.len() ==> {
                    let part = (#[trigger] route[i]).part;
                    &&& part is Column <==> i % 4 == 0
                    &&& part is Track <==> i % 4 == 2
                    &&& part is Ramp <==> i % 2 == 1
                }
        }),
    decreases count,
{
    if count > 0 {
        lemma_parts_fed_through(list, compiled, geometry, net, (count - 1) as nat);
    }
}

/// Each part of a route has the cells of all its stretches, and a part without a stretch
/// does not occur.
pub proof fn lemma_cells_of_a_part(segments: Seq<Segment>, part: RoutePart)
    ensures
        routing_stats::route(segments).dom().contains(part) <==> exists|i: int|
            0 <= i < segments.len() && (#[trigger] segments[i]).part == part,
        routing_stats::route(segments).dom().contains(part) ==> routing_stats::route(segments)[part]
            == all_cells(segments.filter(|segment: Segment| segment.part == part)),
    decreases segments.len(),
{
    let pred = |segment: Segment| segment.part == part;
    if segments.len() > 0 {
        let before = segments.drop_last();
        let last = segments.last();
        lemma_cells_of_a_part(before, part);
        assert(segments =~= before.push(last));
        before.lemma_filter_push(last, pred);
        if last.part == part {
            lemma_one_more_stretch(before.filter(pred), last);
            assert(segments[segments.len() - 1].part == part);
            if !routing_stats::route(before).dom().contains(part) {
                lemma_nothing_kept(before, part);
                assert(before.filter(pred) =~= seq![]);
                assert(all_cells(before.filter(pred)) =~= seq![]);
                assert(all_cells(before.filter(pred)) + last.cells =~= last.cells);
            }
        }
        if routing_stats::route(before).dom().contains(part) {
            let i = choose|i: int| 0 <= i < before.len() && (#[trigger] before[i]).part == part;
            assert(segments[i].part == part);
        }
        if exists|i: int| 0 <= i < segments.len() && (#[trigger] segments[i]).part == part {
            let i = choose|i: int| 0 <= i < segments.len() && (#[trigger] segments[i]).part == part;
            if i < before.len() {
                assert(before[i].part == part);
            }
        }
    }
}

proof fn lemma_nothing_kept(segments: Seq<Segment>, part: RoutePart)
    requires
        forall|i: int| 0 <= i < segments.len() ==> (#[trigger] segments[i]).part != part,
    ensures
        segments.filter(|segment: Segment| segment.part == part).len() == 0,
{
    let pred = |segment: Segment| segment.part == part;
    let kept = segments.filter(pred);
    if kept.len() > 0 {
        segments.lemma_filter_pred(pred, 0);
        segments.lemma_filter_contains_rev(pred, kept[0]);
        let i = choose|i: int| 0 <= i < segments.len() && segments[i] == kept[0];
        assert(segments[i].part != part);
    }
}

/// Cells count the blocks of dust and the repeaters among them, and the repeaters alone.
pub proof fn lemma_what_cells_count(world: World, cells: Seq<Position>)
    ensures
        routing_stats::tally(world, cells).0 == cells.filter(
            |cell: Position|
                {
                    let kind = world.at(cell.x as int, cell.y as int, cell.z as int).kind;
                    kind == BlockKind::RedstoneWire || kind == BlockKind::Repeater
                },
        ).len(),
        routing_stats::tally(world, cells).1 == cells.filter(
            |cell: Position|
                world.at(cell.x as int, cell.y as int, cell.z as int).kind == BlockKind::Repeater,
        ).len(),
    decreases cells.len(),
{
    let wired = |cell: Position|
        {
            let kind = world.at(cell.x as int, cell.y as int, cell.z as int).kind;
            kind == BlockKind::RedstoneWire || kind == BlockKind::Repeater
        };
    let repeats = |cell: Position|
        world.at(cell.x as int, cell.y as int, cell.z as int).kind == BlockKind::Repeater;
    if cells.len() == 0 {
        cells.lemma_filter_len(wired);
        cells.lemma_filter_len(repeats);
    } else {
        let before = cells.drop_last();
        lemma_what_cells_count(world, before);
        assert(cells =~= before.push(cells.last()));
        before.lemma_filter_push(cells.last(), wired);
        before.lemma_filter_push(cells.last(), repeats);
    }
}

/// A column that a slot's track reaches: where it is entered, where it feeds through to the
/// next, or where one of its sinks is approached.
pub open spec fn is_reached(geometry: Geometry, net: Net, slot: int, count: nat, x: i32) -> bool {
    ||| x == routing_stats::entry_column(net, slot)
    ||| slot + 1 < net.channels@.len() && x == net.hops@[slot]
    ||| exists|k: int|
        0 <= k < count && x == routing_stats::approach_column(
            geometry,
            (#[trigger] net.sinks@[slot]@[k]).0,
            net.sinks@[slot]@[k].1,
        )
}

/// A slot's track spans the least and the greatest column that it reaches.
pub proof fn lemma_how_far_a_track_reaches(geometry: Geometry, net: Net, slot: int, count: nat)
    ensures
        ({
            let (lo, hi) = routing_stats::span(geometry, net, slot, count);
            &&& is_reached(geometry, net, slot, count, lo)
            &&& is_reached(geometry, net, slot, count, hi)
            &&& forall|x: i32| #[trigger]
                is_reached(geometry, net, slot, count, x) ==> lo <= x <= hi
        }),
    decreases count,
{
    let (lo, hi) = routing_stats::span(geometry, net, slot, count);
    if count > 0 {
        let less = (count - 1) as nat;
        lemma_how_far_a_track_reaches(geometry, net, slot, less);
        let (west, east) = routing_stats::span(geometry, net, slot, less);
        let sink = net.sinks@[slot]@[less as int];
        let next = routing_stats::approach_column(geometry, sink.0, sink.1);
        assert(is_reached(geometry, net, slot, count, next));
        assert forall|x: i32| is_reached(geometry, net, slot, less, x) implies #[trigger] is_reached(
            geometry,
            net,
            slot,
            count,
            x,
        ) by {}
        assert(is_reached(geometry, net, slot, count, west));
        assert(is_reached(geometry, net, slot, count, east));
        assert forall|x: i32| #[trigger] is_reached(geometry, net, slot, count, x) implies lo <= x
            <= hi by {
            if x != next {
                assert(is_reached(geometry, net, slot, less, x));
            }
        }
    }
}

/// An edge is named after what drives it and the input it reaches, and crosses one channel
/// for each slot up to its own.
pub proof fn lemma_what_an_edge_states(
    list: Netlist,
    compiled: CompiledCircuit,
    geometry: Geometry,
    net: Net,
    slot: int,
    gate: usize,
    input: usize,
)
    requires
        slot >= 0,
    ensures
        ({
            let edge = routing_stats::edge_view(
                list,
                compiled,
                geometry,
                net,
                slot,
                gate,
                input,
            );
            &&& edge.hops == slot + 1
            &&& edge.sink == list.gates@[gate as int].output@ + ".in["@ + text::decimal(
                input as nat,
            ) + "]"@
            &&& net.source matches Source::Lever(i) ==> edge.source == list.inputs@[i as int]@
            &&& net.source matches Source::Gate(g) ==> edge.source
                == list.gates@[g as int].output@
        }),
{
}

/// How many sinks the first `count` slots of a net have.
pub open spec fn sinks_of(net: Net, count: nat) -> nat
    decreases count,
{
    if count == 0 {
        0
    } else {
        sinks_of(net, (count - 1) as nat) + net.sinks@[count - 1]@.len()
    }
}

/// A net has one edge for each of its sinks, in every slot.
pub proof fn lemma_one_edge_for_each_sink(
    list: Netlist,
    compiled: CompiledCircuit,
    geometry: Geometry,
    net: Net,
    count: nat,
)
    requires
        count <= net.sinks@.len(),
    ensures
        ({
            let edges = routing_stats::slot_edges(list, compiled, geometry, net, count);
            &&& edges.len() == sinks_of(net, count)
            &&& forall|slot: int, k: int|
                0 <= slot < count && 0 <= k < net.sinks@[slot]@.len() ==> edges[#[trigger] place_of(
                    net,
                    slot,
                    k,
                )] == routing_stats::edge_view(
                    list,
                    compiled,
                    geometry,
                    net,
                    slot,
                    net.sinks@[slot]@[k].0,
                    net.sinks@[slot]@[k].1,
                )
        }),
    decreases count,
{
    if count > 0 {
        lemma_one_edge_for_each_sink(list, compiled, geometry, net, (count - 1) as nat);
        let before = routing_stats::slot_edges(list, compiled, geometry, net, (count - 1) as nat);
        let edges = routing_stats::slot_edges(list, compiled, geometry, net, count);
        assert forall|slot: int, k: int|
            0 <= slot < count && 0 <= k < net.sinks@[slot]@.len() implies edges[#[trigger] place_of(
            net,
            slot,
            k,
        )] == routing_stats::edge_view(
            list,
            compiled,
            geometry,
            net,
            slot,
            net.sinks@[slot]@[k].0,
            net.sinks@[slot]@[k].1,
        ) by {
            if slot < count - 1 {
                lemma_sinks_grow(net, (slot + 1) as nat, (count - 1) as nat);
                assert(place_of(net, slot, k) < before.len());
                assert(edges[place_of(net, slot, k)] == before[place_of(net, slot, k)]);
            }
        }
    }
}

/// Where the edge to a sink stands among those of its net: after those of the slots before,
/// and of the sinks before it in its slot.
pub open spec fn place_of(net: Net, slot: int, k: int) -> int {
    sinks_of(net, slot as nat) + k
}

proof fn lemma_sinks_grow(net: Net, few: nat, many: nat)
    requires
        few <= many,
    ensures
        sinks_of(net, few) <= sinks_of(net, many),
    decreases many,
{
    if few < many {
        lemma_sinks_grow(net, few, (many - 1) as nat);
    }
}

/// The edges of a circuit are those of its nets, one net after the other; a net on a direct
/// route has one.
pub proof fn lemma_edges_of_all_nets(
    list: Netlist,
    compiled: CompiledCircuit,
    geometry: Geometry,
    count: nat,
    n: int,
    e: int,
)
    requires
        0 <= n < count <= geometry.nets@.len(),
        0 <= e < routing_stats::net_edges(list, compiled, geometry, geometry.nets@[n]).len(),
    ensures
        ({
            let edges = routing_stats::net_edges(list, compiled, geometry, geometry.nets@[n]);
            &&& routing_stats::all_edges(list, compiled, geometry, count).contains(edges[e])
            &&& geometry.nets@[n].bypass is Some ==> edges.len() == 1
            &&& geometry.nets@[n].bypass is None ==> edges == routing_stats::slot_edges(
                list,
                compiled,
                geometry,
                geometry.nets@[n],
                geometry.nets@[n].sinks@.len(),
            )
        }),
    decreases count,
{
    let edges = routing_stats::net_edges(list, compiled, geometry, geometry.nets@[n]);
    let before = routing_stats::all_edges(list, compiled, geometry, (count - 1) as nat);
    let all = routing_stats::all_edges(list, compiled, geometry, count);
    if n == count - 1 {
        assert(all[before.len() + e] == edges[e]);
    } else {
        lemma_edges_of_all_nets(list, compiled, geometry, (count - 1) as nat, n, e);
        let i = choose|i: int| 0 <= i < before.len() && before[i] == edges[e];
        assert(all[i] == edges[e]);
    }
}

} // verus!
