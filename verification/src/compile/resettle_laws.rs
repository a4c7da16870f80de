//! What holding a settled world against one settled again promises.

use crate::compile::resettle_differential;
use crate::compile::resettle_differential::{CellDiff, Resettle, SettledVector};
use crate::compile::strength_differential;
use crate::compile::strength_laws;
use crate::redstone::block::{BlockKind, Facing};
use crate::redstone::position::Position;
use crate::redstone::world::World;
use crate::text;
use vstd::prelude::*;

verus! {

/// The cell of an output reads differently once the world is settled again.
pub open spec fn moves(vector: SettledVector, cell: Position) -> bool {
    vector.settled.at(cell.x as int, cell.y as int, cell.z as int).lit
        != vector.result.world.at(cell.x as int, cell.y as int, cell.z as int).lit
}

/// The settings and outputs, numbered, before one of them, at which the output moves.
pub open spec fn moved_before(
    outputs: Seq<(String, Position)>,
    vectors: Seq<SettledVector>,
    v: int,
    o: int,
) -> Set<(int, int)> {
    Set::new(
        |at: (int, int)|
            0 <= at.0 && 0 <= at.1 < outputs.len() && (at.0 < v || (at.0 == v && at.1 < o))
                && moves(vectors[at.0], outputs[at.1].1),
    )
}

proof fn lemma_moves_at_one_setting(
    label: Seq<char>,
    outputs: Seq<(String, Position)>,
    vectors: Seq<SettledVector>,
    v: int,
    count: nat,
)
    requires
        0 <= v < vectors.len(),
        count <= outputs.len(),
        moved_before(outputs, vectors, v, 0).finite(),
    ensures
        moved_before(outputs, vectors, v, count as int).finite(),
        moved_before(outputs, vectors, v, count as int).len() == moved_before(
            outputs,
            vectors,
            v,
            0,
        ).len() + resettle_differential::moves_at(label, outputs, vectors[v], count).len(),
    decreases count,
{
    if count > 0 {
        let last = count - 1;
        lemma_moves_at_one_setting(label, outputs, vectors, v, last as nat);
        let fewer = moved_before(outputs, vectors, v, last);
        let more = moved_before(outputs, vectors, v, count as int);
        if moves(vectors[v], outputs[last].1) {
            assert(more =~= fewer.insert((v, last)));
            assert(!fewer.contains((v, last)));
        } else {
            assert(more =~= fewer);
        }
    }
}

/// There is one move for each setting and output at which the output reads differently
/// once the world is settled again; there is none exactly if every output reads the same
/// at every setting.
pub proof fn lemma_one_move_for_each_that_differs(
    name: Seq<char>,
    inputs: nat,
    outputs: Seq<(String, Position)>,
    vectors: Seq<SettledVector>,
    count: nat,
)
    requires
        count <= vectors.len(),
    ensures
        moved_before(outputs, vectors, count as int, 0).finite(),
        resettle_differential::all_moves(name, inputs, outputs, vectors, count).len()
            == moved_before(outputs, vectors, count as int, 0).len(),
        resettle_differential::all_moves(name, inputs, outputs, vectors, count).len() == 0
            <==> forall|v: int, o: int|
            0 <= v < count && 0 <= o < outputs.len() ==> {
                let cell = (#[trigger] outputs[o]).1;
                (#[trigger] vectors[v]).settled.at(cell.x as int, cell.y as int, cell.z as int).lit
                    == vectors[v].result.world.at(
                    cell.x as int,
                    cell.y as int,
                    cell.z as int,
                ).lit
            },
    decreases count,
{
    let all = moved_before(outputs, vectors, count as int, 0);
    if count == 0 {
        assert(all =~= Set::empty());
    } else {
        let at = count - 1;
        let label = resettle_differential::labelled(name, inputs, at as nat);
        lemma_one_move_for_each_that_differs(name, inputs, outputs, vectors, at as nat);
        lemma_moves_at_one_setting(label, outputs, vectors, at, outputs.len());
        assert(all =~= moved_before(outputs, vectors, at, outputs.len() as int));
    }
    if forall|v: int, o: int|
        0 <= v < count && 0 <= o < outputs.len() ==> {
            let cell = (#[trigger] outputs[o]).1;
            (#[trigger] vectors[v]).settled.at(cell.x as int, cell.y as int, cell.z as int).lit
                == vectors[v].result.world.at(cell.x as int, cell.y as int, cell.z as int).lit
        } {
        assert forall|at: (int, int)| !all.contains(at) by {
            if all.contains(at) {
                assert(moves(vectors[at.0], outputs[at.1].1));
            }
        }
        assert(all =~= Set::empty());
    } else {
        let (v, o) = choose|v: int, o: int|
            0 <= v < count && 0 <= o < outputs.len() && !({
                let cell = (#[trigger] outputs[o]).1;
                (#[trigger] vectors[v]).settled.at(cell.x as int, cell.y as int, cell.z as int).lit
                    == vectors[v].result.world.at(
                    cell.x as int,
                    cell.y as int,
                    cell.z as int,
                ).lit
            });
        assert(all.contains((v, o)));
        if all.len() == 0 {
            all.lemma_len0_is_empty();
        }
    }
}

/// The moves at a setting are those of the outputs that read differently there, in the
/// order of the outputs, each with its name and how it reads before and after.
pub proof fn lemma_which_outputs_move(
    label: Seq<char>,
    outputs: Seq<(String, Position)>,
    vector: SettledVector,
    count: nat,
)
    requires
        count <= outputs.len(),
    ensures
        resettle_differential::moves_at(label, outputs, vector, count) == outputs.take(
            count as int,
        ).filter(|output: (String, Position)| moves(vector, output.1)).map_values(
            |output: (String, Position)|
                label + " output `"@ + output.0@ + "`: settled "@ + (if vector.settled.at(
                    output.1.x as int,
                    output.1.y as int,
                    output.1.z as int,
                ).lit {
                    "true"@ + ", re-settled "@ + "false"@
                } else {
                    "false"@ + ", re-settled "@ + "true"@
                }),
        ),
    decreases count,
{
    let pred = |output: (String, Position)| moves(vector, output.1);
    let line = |output: (String, Position)|
        label + " output `"@ + output.0@ + "`: settled "@ + (if vector.settled.at(
            output.1.x as int,
            output.1.y as int,
            output.1.z as int,
        ).lit {
            "true"@ + ", re-settled "@ + "false"@
        } else {
            "false"@ + ", re-settled "@ + "true"@
        });
    let list = resettle_differential::moves_at(label, outputs, vector, count);
    if count == 0 {
        outputs.take(0).lemma_filter_len(pred);
        assert(list =~= outputs.take(0).filter(pred).map_values(line));
    } else {
        let last = outputs[count - 1];
        let before = outputs.take(count - 1);
        lemma_which_outputs_move(label, outputs, vector, (count - 1) as nat);
        assert(outputs.take(count as int) =~= before.push(last));
        before.lemma_filter_push(last, pred);
        if moves(vector, last.1) {
            assert(list.last() =~= line(last));
            assert(before.filter(pred).push(last).map_values(line) =~= before.filter(
                pred,
            ).map_values(line).push(line(last)));
        }
        assert(list =~= outputs.take(count as int).filter(pred).map_values(line));
    }
}

/// A sweep counts the settings at which a cell differs and the cells that do, and has for
/// each such setting one line, and if it is asked for all, one more for each cell.
pub proof fn lemma_what_a_sweep_counts(
    name: Seq<char>,
    inputs: nat,
    vectors: Seq<SettledVector>,
    sides: Seq<Facing>,
    verbose: bool,
    count: nat,
)
    requires
        count <= vectors.len(),
    ensures
        resettle_differential::differing(vectors, count) == vectors.take(count as int).filter(
            |vector: SettledVector| vector.result.diffs@.len() > 0,
        ).len(),
        resettle_differential::stale_cells(vectors, count) == vectors.take(
            count as int,
        ).fold_left(0int, |sum: int, vector: SettledVector| sum + vector.result.diffs@.len()),
        resettle_differential::all_lines(name, inputs, vectors, sides, verbose, count).len()
            == resettle_differential::differing(vectors, count) + (if verbose {
            resettle_differential::stale_cells(vectors, count)
        } else {
            0
        }),
    decreases count,
{
    let pred = |vector: SettledVector| vector.result.diffs@.len() > 0;
    if count == 0 {
        vectors.take(0).lemma_filter_len(pred);
    } else {
        lemma_what_a_sweep_counts(name, inputs, vectors, sides, verbose, (count - 1) as nat);
        let last = vectors[count - 1];
        let before = vectors.take(count - 1);
        assert(vectors.take(count as int) =~= before.push(last));
        assert(vectors.take(count as int).drop_last() =~= before);
        before.lemma_filter_push(last, pred);
    }
}

/// Nothing is said of a setting at which nothing differs. Of any other the first line
/// gives its label, how many cells differ and how many passes it took; if all are asked
/// for, each differing cell follows, in order.
pub proof fn lemma_what_is_said_of_a_setting(
    label: Seq<char>,
    result: Resettle,
    sides: Seq<Facing>,
    verbose: bool,
)
    ensures
        ({
            let lines = resettle_differential::lines_at(label, result, sides, verbose);
            let cells = result.diffs@.len();
            &&& lines.len() > 0 <==> cells > 0
            &&& cells > 0 && verbose ==> lines.len() == cells + 1
            &&& cells > 0 && !verbose ==> lines.len() == 1
            &&& cells > 0 ==> lines[0] == label + ": "@ + text::decimal(cells)
                + " stale cell(s), fixpoint in "@ + text::decimal(result.passes as nat)
                + " pass(es)"@
            &&& forall|i: int|
                0 < i < lines.len() ==> #[trigger] lines[i] == resettle_differential::described(
                    result.world,
                    result.walks@,
                    sides,
                    result.diffs@[i - 1],
                )
        }),
{
    let lines = resettle_differential::lines_at(label, result, sides, verbose);
    let cells = result.diffs@.len();
    if cells > 0 {
        assert(lines[0] =~= label + ": "@ + text::decimal(cells)
            + " stale cell(s), fixpoint in "@ + text::decimal(result.passes as nat)
            + " pass(es)"@);
    }
}

/// A setting is written as a binary number, with one digit for each input, and with one
/// zero where there is no input. It follows the circuit's name.
pub proof fn lemma_how_a_setting_is_written(name: Seq<char>, inputs: nat, mask: nat)
    ensures
        ({
            let written = resettle_differential::mask_text(inputs, mask);
            &&& inputs == 0 ==> written == seq!['0']
            &&& inputs > 0 ==> written.len() == inputs
            &&& forall|i: int|
                0 <= i < written.len() ==> (#[trigger] written[i] == '1' || written[i] == '0')
            &&& forall|i: int|
                0 <= i < inputs ==> (#[trigger] written[i] == '1'
                    <==> strength_differential::vector_of(inputs, mask)[i])
            &&& resettle_differential::labelled(name, inputs, mask) == name + " mask "@ + written
        }),
{
    reveal_strlit("0");
    assert(resettle_differential::mask_text(0, mask) =~= seq!['0']);
    if inputs > 0 {
        strength_laws::lemma_a_vector_is_its_number_in_binary(inputs, mask, 0);
    }
}

/// The cell on a side of another, level with it, one higher or one lower.
pub proof fn lemma_three_cells_on_a_side(cell: Position, side: Facing, which: int, next: Position)
    requires
        resettle_differential::inner(cell),
        resettle_differential::sideways(side),
        0 <= which < 3,
        cell.steps_to(side, next),
    ensures
        ({
            let found = resettle_differential::neighbour(cell, side, which);
            &&& found.x == next.x
            &&& found.z == next.z
            &&& which == 0 <==> found.y == cell.y
            &&& which == 1 <==> found.y == cell.y + 1
            &&& which == 2 <==> found.y == cell.y - 1
        }),
{
}

/// Dust has an edge to another cell exactly if that is dust too and one of them powers
/// the other; the edge names the other cell, and tells both ways, only in and only out
/// apart.
pub proof fn lemma_edges_between_dust(
    world: World,
    walks: Seq<(Position, Position)>,
    cell: Position,
    next: Position,
)
    ensures
        ({
            let edge = resettle_differential::edge_text(world, walks, cell, next);
            let inwards = exists|i: int|
                0 <= i < walks.len() && #[trigger] walks[i] == (next, cell);
            let outwards = exists|i: int|
                0 <= i < walks.len() && #[trigger] walks[i] == (cell, next);
            let dust = world.at(next.x as int, next.y as int, next.z as int).kind
                == BlockKind::RedstoneWire;
            let named = resettle_differential::cell_text(next) + " "@;
            &&& edge is Some <==> dust && (inwards || outwards)
            &&& edge is Some && inwards && outwards ==> edge->0 == named + "<->"@
            &&& edge is Some && !outwards ==> edge->0 == named + "-> (ONE-WAY IN)"@
            &&& edge is Some && !inwards ==> edge->0 == named + "<- (ONE-WAY OUT)"@
        }),
{
    assert(walks.contains((next, cell)) <==> exists|i: int|
        0 <= i < walks.len() && #[trigger] walks[i] == (next, cell));
    assert(walks.contains((cell, next)) <==> exists|i: int|
        0 <= i < walks.len() && #[trigger] walks[i] == (cell, next));
}

/// The edges of dust are those to the three cells on each of its sides, side after side.
pub proof fn lemma_edges_of_dust(
    world: World,
    walks: Seq<(Position, Position)>,
    cell: Position,
    sides: Seq<Facing>,
    count: nat,
)
    requires
        count <= 3 * sides.len(),
    ensures
        resettle_differential::edges_of(world, walks, cell, sides, count) == Seq::new(
            count,
            |n: int|
                resettle_differential::edge_text(
                    world,
                    walks,
                    cell,
                    resettle_differential::neighbour(cell, sides[n / 3], n % 3),
                ),
        ).filter(|edge: Option<Seq<char>>| edge is Some).map_values(
            |edge: Option<Seq<char>>| edge->0,
        ),
    decreases count,
{
    let at = |n: int|
        resettle_differential::edge_text(
            world,
            walks,
            cell,
            resettle_differential::neighbour(cell, sides[n / 3], n % 3),
        );
    let pred = |edge: Option<Seq<char>>| edge is Some;
    let inside = |edge: Option<Seq<char>>| edge->0;
    let all = Seq::new(count, at);
    let list = resettle_differential::edges_of(world, walks, cell, sides, count);
    if count == 0 {
        all.lemma_filter_len(pred);
        assert(list =~= all.filter(pred).map_values(inside));
    } else {
        lemma_edges_of_dust(world, walks, cell, sides, (count - 1) as nat);
        let before = Seq::new((count - 1) as nat, at);
        let last = at(count - 1);
        assert(all =~= before.push(last));
        before.lemma_filter_push(last, pred);
        assert(list =~= all.filter(pred).map_values(inside));
    }
}

/// A differing cell is described by where it is, what it is, and its power and its light
/// before and after; of dust alone the edges follow and what lies above it.
pub proof fn lemma_how_a_cell_is_described(
    world: World,
    walks: Seq<(Position, Position)>,
    sides: Seq<Facing>,
    diff: CellDiff,
)
    ensures
        ({
            let line = resettle_differential::described(world, walks, sides, diff);
            let cell = diff.position;
            let plain = "    "@ + "("@ + text::signed_decimal(cell.x as int) + ", "@
                + text::signed_decimal(cell.y as int) + ", "@ + text::signed_decimal(
                cell.z as int,
            ) + ")"@ + " "@ + resettle_differential::kind_text(diff.kind) + " power "@
                + text::decimal(diff.settled_power as nat) + " -> "@ + text::decimal(
                diff.resettled_power as nat,
            ) + " lit "@ + (if diff.settled_lit {
                "true"@
            } else {
                "false"@
            }) + " -> "@ + (if diff.resettled_lit {
                "true"@
            } else {
                "false"@
            });
            let edges = resettle_differential::edges_of(
                world,
                walks,
                cell,
                sides,
                3 * sides.len(),
            );
            &&& diff.kind != BlockKind::RedstoneWire ==> line == plain
            &&& diff.kind == BlockKind::RedstoneWire && cell.y < i32::MAX ==> line == plain
                + "  edges: ["@ + strength_differential::joined_names(edges)
                + "]  lid above: "@ + resettle_differential::kind_text(
                world.at(cell.x as int, cell.y + 1, cell.z as int).kind,
            )
        }),
{
    let line = resettle_differential::described(world, walks, sides, diff);
    let cell = diff.position;
    let plain = "    "@ + "("@ + text::signed_decimal(cell.x as int) + ", "@
        + text::signed_decimal(cell.y as int) + ", "@ + text::signed_decimal(cell.z as int)
        + ")"@ + " "@ + resettle_differential::kind_text(diff.kind) + " power "@ + text::decimal(
        diff.settled_power as nat,
    ) + " -> "@ + text::decimal(diff.resettled_power as nat) + " lit "@ + (if diff.settled_lit {
        "true"@
    } else {
        "false"@
    }) + " -> "@ + (if diff.resettled_lit {
        "true"@
    } else {
        "false"@
    });
    assert(resettle_differential::diff_text(diff) =~= plain);
    if diff.kind == BlockKind::RedstoneWire && cell.y < i32::MAX {
        let edges = resettle_differential::edges_of(world, walks, cell, sides, 3 * sides.len());
        assert(line =~= plain + "  edges: ["@ + strength_differential::joined_names(edges)
            + "]  lid above: "@ + resettle_differential::kind_text(
            world.at(cell.x as int, cell.y + 1, cell.z as int).kind,
        ));
    }
}

/// Each kind is written by its own name.
pub proof fn lemma_how_kinds_are_written(kind: BlockKind)
    ensures
        ({
            let written = resettle_differential::kind_text(kind);
            &&& kind is Air ==> written == "Air"@
            &&& kind is Solid ==> written == "Solid"@
            &&& kind is Glass ==> written == "Glass"@
            &&& kind is Slab ==> written == "Slab"@
            &&& kind is RedstoneWire ==> written == "RedstoneWire"@
            &&& kind is Repeater ==> written == "Repeater"@
            &&& kind is Comparator ==> written == "Comparator"@
            &&& kind is Torch ==> written == "Torch"@
            &&& kind is WallTorch ==> written == "WallTorch"@
            &&& kind is Lever ==> written == "Lever"@
            &&& kind is RedstoneBlock ==> written == "RedstoneBlock"@
            &&& kind is Lamp ==> written == "Lamp"@
            &&& kind is Piston ==> written == "Piston"@
            &&& kind is Observer ==> written == "Observer"@
            &&& kind is Target ==> written == "Target"@
            &&& kind is DaylightDetector ==> written == "DaylightDetector"@
            &&& kind is Button ==> written == "Button"@
            &&& kind is PressurePlate ==> written == "PressurePlate"@
            &&& kind is WeightedPressurePlate ==> written == "WeightedPressurePlate"@
            &&& kind is Other ==> written == "Other"@
        }),
{
}

} // verus!
