//! What is promised of bodies: which cells they take up, how far apart they must stand,
//! and how a placement settles.

use crate::compile::relax::bodies;
use crate::compile::relax::bodies::{
    Attach, Body, BodyGraph, BodyKind, BodyView, Catalogue, CellFacing, Port, PortKind, Pull,
    RelativeSide, Weld,
};
use crate::compile::relax::error;
use crate::compile::relax::separation;
use crate::compile::relax::separation::PlacedView;
use crate::compile::relax::settling;
use crate::compile::relax::snap;
use crate::compile::topology::Primitive;
use crate::redstone::block::Facing;
use crate::redstone::position;
use crate::redstone::position::Position;
use crate::text;
use vstd::arithmetic::power2;
use vstd::prelude::*;

verus! {

/// The ends of springs that are tied to a body are counted, a spring from a body to itself
/// twice.
pub proof fn lemma_springs_at_a_body(pulls: Seq<Pull>, body: int, count: nat)
    requires
        count <= pulls.len(),
    ensures
        separation::degree(pulls, body, count) == pulls.take(count as int).filter(
            |pull: Pull| pull.from.0 == body,
        ).len() + pulls.take(count as int).filter(|pull: Pull| pull.to.0 == body).len(),
    decreases count,
{
    let leaves = |pull: Pull| pull.from.0 == body;
    let comes = |pull: Pull| pull.to.0 == body;
    if count == 0 {
        pulls.take(0).lemma_filter_len(leaves);
        pulls.take(0).lemma_filter_len(comes);
    } else {
        lemma_springs_at_a_body(pulls, body, (count - 1) as nat);
        let last = pulls[count - 1];
        assert(pulls.take(count as int) =~= pulls.take(count - 1).push(last));
        pulls.take(count - 1).lemma_filter_push(last, leaves);
        pulls.take(count - 1).lemma_filter_push(last, comes);
    }
}

/// A body without springs must be three cells from a foreign conductor, and a quarter of a
/// cell more for each end of a spring that is tied to it.
pub proof fn lemma_room_for_the_wires(pulls: Seq<Pull>, body: int)
    ensures
        separation::required_of(pulls, body) == 3 * 4 + separation::degree(
            pulls,
            body,
            pulls.len(),
        ),
{
}

/// Two cells are within so many quarters of a cell of each other on an axis.
pub open spec fn within(left: int, right: int, quarters: int) -> bool {
    -quarters < 4 * (left - right) < quarters
}

/// Two cells are short of what is required exactly if both carry something, nothing is
/// carried by both, and they are too close on every axis; they are then short by what
/// would have to be added on the axis on which they are further apart.
pub proof fn lemma_when_cells_are_too_close(here: PlacedView, there: PlacedView, required: int)
    requires
        required > 0,
    ensures
        ({
            let short = separation::short_by(here, there, required);
            let close = within(here.at.0, there.at.0, required) && within(
                here.at.1,
                there.at.1,
                8,
            ) && within(here.at.2, there.at.2, required);
            let foreign = here.carries.len() > 0 && there.carries.len() > 0 && !exists|
                name: Seq<char>,
            |
                here.carries.contains(name) && #[trigger] there.carries.contains(name);
            &&& short >= 0
            &&& short > 0 <==> close && foreign
            &&& short > 0 ==> !within(here.at.0, there.at.0, required - short) || !within(
                here.at.2,
                there.at.2,
                required - short,
            )
            &&& short > 0 ==> within(here.at.0, there.at.0, required - short + 1) && within(
                here.at.2,
                there.at.2,
                required - short + 1,
            )
            &&& separation::short_by(there, here, required) == short
        }),
{
    assert(separation::share(here.carries, there.carries) <==> exists|name: Seq<char>|
        here.carries.contains(name) && #[trigger] there.carries.contains(name)) by {
        if separation::share(here.carries, there.carries) {
            let (i, j) = choose|i: int, j: int|
                0 <= i < here.carries.len() && 0 <= j < there.carries.len()
                    && #[trigger] here.carries[i] == #[trigger] there.carries[j];
            assert(here.carries.contains(here.carries[i]));
            assert(there.carries.contains(here.carries[i]));
        }
        if exists|name: Seq<char>|
            here.carries.contains(name) && #[trigger] there.carries.contains(name) {
            let name = choose|name: Seq<char>|
                here.carries.contains(name) && #[trigger] there.carries.contains(name);
            let i = choose|i: int| 0 <= i < here.carries.len() && here.carries[i] == name;
            let j = choose|j: int| 0 <= j < there.carries.len() && there.carries[j] == name;
            assert(here.carries[i] == there.carries[j]);
        }
    }
    assert(separation::share(here.carries, there.carries) == separation::share(
        there.carries,
        here.carries,
    )) by {
        if separation::share(here.carries, there.carries) {
            let (i, j) = choose|i: int, j: int|
                0 <= i < here.carries.len() && 0 <= j < there.carries.len()
                    && #[trigger] here.carries[i] == #[trigger] there.carries[j];
            assert(there.carries[j] == here.carries[i]);
        }
        if separation::share(there.carries, here.carries) {
            let (i, j) = choose|i: int, j: int|
                0 <= i < there.carries.len() && 0 <= j < here.carries.len()
                    && #[trigger] there.carries[i] == #[trigger] here.carries[j];
            assert(here.carries[j] == there.carries[i]);
        }
    }
}

proof fn lemma_row(here: PlacedView, right: Seq<PlacedView>, required: int, count: nat)
    requires
        count <= right.len(),
    ensures
        ({
            let most = separation::row_shortfall(here, right, required, count);
            &&& most >= 0
            &&& forall|j: int|
                0 <= j < count ==> separation::short_by(here, #[trigger] right[j], required) <= most
            &&& most > 0 ==> exists|j: int|
                0 <= j < count && separation::short_by(here, #[trigger] right[j], required) == most
        }),
    decreases count,
{
    if count > 0 {
        lemma_row(here, right, required, (count - 1) as nat);
        let before = separation::row_shortfall(here, right, required, (count - 1) as nat);
        let most = separation::row_shortfall(here, right, required, count);
        if most > 0 {
            if most == before {
                let j = choose|j: int|
                    0 <= j < count - 1 && separation::short_by(here, #[trigger] right[j], required)
                        == before;
                assert(separation::short_by(here, right[j], required) == most);
            } else {
                assert(separation::short_by(here, right[count - 1], required) == most);
            }
        }
    }
}

/// Two bodies are short by the most that any cell of the one is short against a cell of
/// the other, and by nothing where no two cells are too close.
pub proof fn lemma_bodies_are_as_close_as_their_closest_cells(
    left: Seq<PlacedView>,
    right: Seq<PlacedView>,
    required: int,
    count: nat,
)
    requires
        count <= left.len(),
    ensures
        ({
            let most = separation::shortfall(left, right, required, count);
            &&& most >= 0
            &&& forall|i: int, j: int|
                0 <= i < count && 0 <= j < right.len() ==> separation::short_by(
                    #[trigger] left[i],
                    #[trigger] right[j],
                    required,
                ) <= most
            &&& most > 0 ==> exists|i: int, j: int|
                0 <= i < count && 0 <= j < right.len() && separation::short_by(
                    #[trigger] left[i],
                    #[trigger] right[j],
                    required,
                ) == most
        }),
    decreases count,
{
    if count > 0 {
        let last = left[count - 1];
        lemma_bodies_are_as_close_as_their_closest_cells(
            left,
            right,
            required,
            (count - 1) as nat,
        );
        lemma_row(last, right, required, right.len());
        let before = separation::shortfall(left, right, required, (count - 1) as nat);
        let row = separation::row_shortfall(last, right, required, right.len());
        let most = separation::shortfall(left, right, required, count);
        assert forall|i: int, j: int| 0 <= i < count && 0 <= j < right.len() implies
            separation::short_by(#[trigger] left[i], #[trigger] right[j], required) <= most by {
            if i == count - 1 {
                assert(separation::short_by(last, right[j], required) <= row);
            }
        }
        if most > 0 {
            if most == before {
                let (i, j) = choose|i: int, j: int|
                    0 <= i < count - 1 && 0 <= j < right.len() && separation::short_by(
                        #[trigger] left[i],
                        #[trigger] right[j],
                        required,
                    ) == before;
                assert(separation::short_by(left[i], right[j], required) == most);
            } else {
                let j = choose|j: int|
                    0 <= j < right.len() && separation::short_by(last, #[trigger] right[j], required)
                        == row;
                assert(separation::short_by(left[count - 1], right[j], required) == most);
            }
        }
    }
}

/// Two bodies are short of each other by the same amount, whichever comes first, and never
/// if they are welded together.
pub proof fn lemma_being_too_close_is_mutual(
    catalogue: Catalogue,
    graph: BodyGraph,
    required: Seq<i64>,
    left: int,
    right: int,
)
    requires
        required[left] > 0,
        required[right] > 0,
    ensures
        separation::pair_shortfall(catalogue, graph, required, left, right)
            == separation::pair_shortfall(catalogue, graph, required, right, left),
        separation::welded(graph.welds@, left, right) ==> separation::pair_shortfall(
            catalogue,
            graph,
            required,
            left,
            right,
        ) == 0,
        separation::welded(graph.welds@, left, right) == separation::welded(
            graph.welds@,
            right,
            left,
        ),
{
    let welds = graph.welds@;
    if separation::welded(welds, left, right) {
        let w = choose|w: int|
            0 <= w < welds.len() && (separation::weld_ends(#[trigger] welds[w]) == (
                left as usize,
                right as usize,
            ) || separation::weld_ends(welds[w]) == (right as usize, left as usize));
        assert(separation::weld_ends(welds[w]) == separation::weld_ends(welds[w]));
        assert(separation::welded(welds, right, left));
    }
    if separation::welded(welds, right, left) {
        let w = choose|w: int|
            0 <= w < welds.len() && (separation::weld_ends(#[trigger] welds[w]) == (
                right as usize,
                left as usize,
            ) || separation::weld_ends(welds[w]) == (left as usize, right as usize));
        assert(separation::weld_ends(welds[w]) == separation::weld_ends(welds[w]));
        assert(separation::welded(welds, left, right));
    }
    let mine = separation::placed_of(catalogue, graph.bodies@[left]@);
    let theirs = separation::placed_of(catalogue, graph.bodies@[right]@);
    let need = separation::larger(required[left] as int, required[right] as int);
    assert(need == separation::larger(required[right] as int, required[left] as int));
    lemma_bodies_are_as_close_as_their_closest_cells(mine, theirs, need, mine.len());
    lemma_bodies_are_as_close_as_their_closest_cells(theirs, mine, need, theirs.len());
    let one = separation::shortfall(mine, theirs, need, mine.len());
    let other = separation::shortfall(theirs, mine, need, theirs.len());
    if one > 0 {
        let (i, j) = choose|i: int, j: int|
            0 <= i < mine.len() && 0 <= j < theirs.len() && separation::short_by(
                #[trigger] mine[i],
                #[trigger] theirs[j],
                need,
            ) == one;
        lemma_when_cells_are_too_close(mine[i], theirs[j], need);
        assert(separation::short_by(theirs[j], mine[i], need) <= other);
    }
    if other > 0 {
        let (j, i) = choose|j: int, i: int|
            0 <= j < theirs.len() && 0 <= i < mine.len() && separation::short_by(
                #[trigger] theirs[j],
                #[trigger] mine[i],
                need,
            ) == other;
        lemma_when_cells_are_too_close(theirs[j], mine[i], need);
        assert(separation::short_by(mine[i], theirs[j], need) <= one);
    }
}

/// A weld holds a repeater to the junction that it stands at, or a lock to the repeater
/// that it locks.
pub proof fn lemma_what_a_weld_holds(one: usize, other: usize, index: usize, side: RelativeSide)
    ensures
        separation::weld_ends(
            Weld::AtSocket { repeater: one, junction: other, input_index: index },
        ) == (one, other),
        separation::weld_ends(Weld::BesideAt { lock: one, data: other, side }) == (one, other),
{
}

/// The bodies that a body is held to are the other ends of its welds.
pub proof fn lemma_partners_are_at_the_other_end(welds: Seq<Weld>, body: int, count: nat)
    requires
        count <= welds.len(),
    ensures
        forall|other: usize| #[trigger]
            separation::partners_of(welds, body, count).contains(other) <==> exists|w: int|
                0 <= w < count && ({
                    let ends = separation::weld_ends(#[trigger] welds[w]);
                    (ends.0 == body && ends.1 == other) || (ends.1 == body && ends.0 == other)
                }),
    decreases count,
{
    if count > 0 {
        lemma_partners_are_at_the_other_end(welds, body, (count - 1) as nat);
        let before = separation::partners_of(welds, body, (count - 1) as nat);
        let all = separation::partners_of(welds, body, count);
        let ends = separation::weld_ends(welds[count - 1]);
        assert forall|other: usize| #[trigger] all.contains(other) <==> exists|w: int|
            0 <= w < count && ({
                let ends = separation::weld_ends(#[trigger] welds[w]);
                (ends.0 == body && ends.1 == other) || (ends.1 == body && ends.0 == other)
            }) by {
            if all.contains(other) {
                let i = choose|i: int| 0 <= i < all.len() && all[i] == other;
                if i < before.len() {
                    assert(before[i] == other);
                    assert(before.contains(other));
                } else {
                    assert(separation::weld_ends(welds[count - 1]) == ends);
                }
            }
            if before.contains(other) {
                let i = choose|i: int| 0 <= i < before.len() && before[i] == other;
                assert(all[i] == other);
            }
            if (ends.0 == body && ends.1 == other) || (ends.1 == body && ends.0 == other) {
                if ends.0 == body && ends.1 == other {
                    assert(all[before.len() as int] == other);
                } else {
                    assert(all.last() == other);
                }
            }
        }
    }
}

/// A cell of a body is where the body stands, moved by where the cell is in the body.
pub proof fn lemma_where_cells_are_placed(catalogue: Catalogue, body: BodyView, i: int)
    requires
        0 <= i < bodies::cells_of(catalogue, body).len(),
    ensures
        ({
            let cell = bodies::cells_of(catalogue, body)[i];
            let placed = separation::placed_of(catalogue, body);
            &&& placed.len() == bodies::cells_of(catalogue, body).len()
            &&& placed[i].at.0 - body.position.x == cell.offset.0
            &&& placed[i].at.1 - body.position.y == cell.offset.1
            &&& placed[i].at.2 - body.position.z == cell.offset.2
            &&& placed[i].carries == cell.carries
        }),
{
}

/// So many steps out is so many times as far as one step.
pub proof fn lemma_steps_out(direction: Facing, count: int)
    requires
        0 <= count <= 2,
    ensures
        ({
            let cell = bodies::steps_out(direction, count);
            &&& cell.x == count * position::step(direction).0
            &&& cell.y == count * position::step(direction).1
            &&& cell.z == count * position::step(direction).2
        }),
{
    assert(count * 0 == 0 && count * 1 == count && count * -1 == -count) by (nonlinear_arith);
    match direction {
        Facing::North => {},
        Facing::South => {},
        Facing::East => {},
        Facing::West => {},
        Facing::Up => {},
        Facing::Down => {},
    }
}

/// A torch is picked up two cells out, everything else one.
pub proof fn lemma_how_far_out_a_pin_is(node: usize, gate: usize, kind: Primitive)
    ensures
        kind is Torch <==> bodies::hops_of(BodyKind::Primitive { node, kind }) == 2,
        !(kind is Torch) <==> bodies::hops_of(BodyKind::Primitive { node, kind }) == 1,
        bodies::hops_of(BodyKind::Junction { gate }) == 1,
{
}

/// The four ways to be turned are numbered clockwise from north, and each component has
/// its own variants.
pub proof fn lemma_turns_are_numbered_clockwise(catalogue: Catalogue, facing: CellFacing)
    ensures
        facing is North <==> bodies::facing_index(facing) == 0,
        facing is East <==> bodies::facing_index(facing) == 1,
        facing is South <==> bodies::facing_index(facing) == 2,
        facing is West <==> bodies::facing_index(facing) == 3,
        catalogue.of(Primitive::Torch) == catalogue.torch,
        catalogue.of(Primitive::Repeater) == catalogue.repeater,
        catalogue.of(Primitive::Comparator) == catalogue.comparator,
        catalogue.of(Primitive::Lever) == catalogue.lever,
        catalogue.of(Primitive::Lamp) == catalogue.lamp,
{
}

/// The port that is found is the first of its kind, and none is found exactly if there is
/// none of the kind.
pub proof fn lemma_the_first_port_of_a_kind(ports: Seq<Port>, kind: PortKind, from: int)
    requires
        0 <= from,
    ensures
        match bodies::port_from(ports, kind, from) {
            Some(port) => exists|i: int|
                from <= i < ports.len() && #[trigger] ports[i] == port && port.kind == kind
                    && forall|j: int| from <= j < i ==> (#[trigger] ports[j]).kind != kind,
            None => forall|i: int| from <= i < ports.len() ==> (#[trigger] ports[i]).kind != kind,
        },
    decreases ports.len() - from,
{
    if from < ports.len() {
        if ports[from].kind == kind {
            assert(ports[from] == bodies::port_from(ports, kind, from)->0);
        } else {
            lemma_the_first_port_of_a_kind(ports, kind, from + 1);
            if let Some(port) = bodies::port_from(ports, kind, from + 1) {
                let i = choose|i: int|
                    from + 1 <= i < ports.len() && #[trigger] ports[i] == port && port.kind == kind
                        && forall|j: int| from + 1 <= j < i ==> (#[trigger] ports[j]).kind != kind;
                assert(ports[i] == port);
            }
        }
    }
}

/// The port on a side is the first side port that is on that side.
pub proof fn lemma_the_first_port_on_a_side(ports: Seq<Port>, side: RelativeSide, from: int)
    requires
        0 <= from,
    ensures
        match separation::side_port(ports, side, from) {
            Some(port) => port.kind is RepeaterSide && port.side == Some(side) && exists|i: int|
                from <= i < ports.len() && #[trigger] ports[i] == port && forall|j: int|
                    from <= j < i ==> !((#[trigger] ports[j]).kind is RepeaterSide && ports[j].side
                        == Some(side)),
            None => forall|i: int|
                from <= i < ports.len() ==> !((#[trigger] ports[i]).kind is RepeaterSide
                    && ports[i].side == Some(side)),
        },
    decreases ports.len() - from,
{
    if from < ports.len() {
        if ports[from].kind is RepeaterSide && ports[from].side == Some(side) {
            assert(ports[from] == separation::side_port(ports, side, from)->0);
        } else {
            lemma_the_first_port_on_a_side(ports, side, from + 1);
            if let Some(port) = separation::side_port(ports, side, from + 1) {
                let i = choose|i: int|
                    from + 1 <= i < ports.len() && #[trigger] ports[i] == port && forall|j: int|
                        from + 1 <= j < i ==> !((#[trigger] ports[j]).kind is RepeaterSide
                            && ports[j].side == Some(side));
                assert(ports[i] == port);
            }
        }
    }
}

/// A spring is tied to a socket one step out on the input's side, to a pin on the side of
/// the output, and to a port where the port is. A repeater is welded into a socket, and a
/// lock where the side port of its partner is.
pub proof fn lemma_where_springs_and_welds_are_tied(
    catalogue: Catalogue,
    graph: BodyGraph,
    what: BodyKind,
    facing: CellFacing,
    index: usize,
    kind: PortKind,
    one: usize,
    other: usize,
    side: RelativeSide,
)
    ensures
        ({
            let middle = Position { x: 0, y: 0, z: 0 };
            let frame = catalogue.frame(facing);
            let ports = bodies::variant_of(catalogue, what, facing).ports@;
            let socket = bodies::offset_of(catalogue, Attach::Socket(index), what, facing);
            let pin = bodies::offset_of(catalogue, Attach::Pin, what, facing);
            let port = bodies::offset_of(catalogue, Attach::Port(kind), what, facing);
            &&& middle.steps_to(frame.inputs@[index as int], socket)
            &&& bodies::hops_of(what) == 1 ==> middle.steps_to(frame.output, pin)
            &&& bodies::hops_of(what) == 2 ==> exists|near: Position| #[trigger]
                middle.steps_to(frame.output, near) && near.steps_to(frame.output, pin)
            &&& bodies::port_from(ports, kind, 0) is Some ==> port == bodies::port_from(
                ports,
                kind,
                0,
            )->0.position
            &&& ({
                let held = separation::weld_step(
                    catalogue,
                    graph,
                    Weld::AtSocket { repeater: one, junction: other, input_index: index },
                );
                middle.steps_to(
                    catalogue.frame(graph.bodies@[other as int].facing).inputs@[index as int],
                    held,
                )
            })
            &&& ({
                let held = separation::weld_step(
                    catalogue,
                    graph,
                    Weld::BesideAt { lock: one, data: other, side },
                );
                let partner = graph.bodies@[other as int];
                let sides = bodies::variant_of(catalogue, partner.what, partner.facing).ports@;
                separation::side_port(sides, side, 0) is Some ==> held == separation::side_port(
                    sides,
                    side,
                    0,
                )->0.position
            })
        }),
{
    let middle = Position { x: 0, y: 0, z: 0 };
    let frame = catalogue.frame(facing);
    let near = bodies::steps_out(frame.output, 1);
    let pin = bodies::offset_of(catalogue, Attach::Pin, what, facing);
    assert(middle.steps_to(frame.output, near));
    assert(bodies::hops_of(what) == 2 ==> near.steps_to(frame.output, pin));
}

/// How many cells under a body are floor.
pub open spec fn floors_under(what: BodyKind) -> nat {
    match what {
        BodyKind::Junction { .. } => 1,
        BodyKind::Primitive { kind, .. } => if kind is Lever {
            2
        } else {
            0
        },
    }
}

/// A body that drives a net takes up its middle, one cell for each input on the side of
/// the input and on its net, and one or two cells on the side of its output, on the net it
/// drives. Under a junction and a lever, and under a lever's pin, lies floor that carries
/// nothing.
pub proof fn lemma_cells_of_a_driver(catalogue: Catalogue, body: BodyView)
    requires
        body.output is Some,
    ensures
        ({
            let cells = bodies::cells_of(catalogue, body);
            let frame = catalogue.frame(body.facing);
            let reads = body.inputs.len();
            let hops = bodies::hops_of(body.what);
            &&& cells.len() == 1 + reads + hops + floors_under(body.what)
            &&& cells[0].offset == (0i32, 0i32, 0i32)
            &&& reads > 0 ==> cells[0].carries == body.inputs
            &&& reads == 0 ==> cells[0].carries == seq![body.output->0]
            &&& forall|i: int|
                0 <= i < reads ==> {
                    let cell = #[trigger] cells[1 + i];
                    let step = position::step(frame.inputs@[i]);
                    &&& cell.offset.0 == step.0 && cell.offset.1 == step.1 && cell.offset.2
                        == step.2
                    &&& cell.carries == seq![body.inputs[i]]
                }
            &&& forall|h: int|
                0 <= h < hops ==> {
                    let cell = #[trigger] cells[1 + reads + h];
                    let step = position::step(frame.output);
                    &&& cell.offset.0 == (h + 1) * step.0
                    &&& cell.offset.1 == (h + 1) * step.1
                    &&& cell.offset.2 == (h + 1) * step.2
                    &&& cell.carries == seq![body.output->0]
                }
            &&& forall|f: int|
                1 + reads + hops <= f < cells.len() ==> (#[trigger] cells[f]).carries.len() == 0
            &&& floors_under(body.what) > 0 ==> cells[1 + reads + hops].offset == (
                0i32,
                -1i32,
                0i32,
            )
            &&& floors_under(body.what) == 2 ==> {
                let pin = cells[reads + hops].offset;
                let floor = cells[2 + reads + hops].offset;
                floor.0 == pin.0 && floor.1 == pin.1 - 1 && floor.2 == pin.2
            }
        }),
{
    let cells = bodies::cells_of(catalogue, body);
    let frame = catalogue.frame(body.facing);
    let reads = body.inputs.len();
    let hops = bodies::hops_of(body.what);
    let sockets = bodies::socket_cells(frame, body.inputs, reads);
    let pins = bodies::pin_cells(frame, body.output->0, hops as nat);
    let floors = bodies::floor_cells(frame, body.what);
    assert forall|i: int| 0 <= i < reads implies {
        let cell = #[trigger] cells[1 + i];
        let step = position::step(frame.inputs@[i]);
        &&& cell.offset.0 == step.0 && cell.offset.1 == step.1 && cell.offset.2 == step.2
        &&& cell.carries == seq![body.inputs[i]]
    } by {
        assert(cells[1 + i] == sockets[i]);
        lemma_steps_out(frame.inputs@[i], 1);
    }
    assert forall|h: int| 0 <= h < hops implies {
        let cell = #[trigger] cells[1 + reads + h];
        let step = position::step(frame.output);
        &&& cell.offset.0 == (h + 1) * step.0
        &&& cell.offset.1 == (h + 1) * step.1
        &&& cell.offset.2 == (h + 1) * step.2
        &&& cell.carries == seq![body.output->0]
    } by {
        assert(cells[1 + reads + h] == pins[h]);
        lemma_steps_out(frame.output, h + 1);
    }
    assert forall|f: int| 1 + reads + hops <= f < cells.len() implies (
    #[trigger] cells[f]).carries.len() == 0 by {
        assert(cells[f] == floors[f - 1 - reads - hops]);
    }
    if floors.len() > 0 {
        assert(cells[1 + reads + hops] == floors[0]);
    }
    if floors.len() == 2 {
        assert(cells[2 + reads + hops] == floors[1]);
        assert(cells[reads + hops] == pins[hops - 1]);
    }
}

/// A body that drives no net takes up the blocks of its component, each on the net of its
/// first input but for those that are solid.
pub proof fn lemma_cells_of_a_repeated_signal(catalogue: Catalogue, body: BodyView, i: int)
    requires
        body.output is None,
        0 <= i < bodies::variant_of(catalogue, body.what, body.facing).parts@.len(),
    ensures
        ({
            let cells = bodies::cells_of(catalogue, body);
            let parts = bodies::variant_of(catalogue, body.what, body.facing).parts@;
            &&& cells.len() == parts.len()
            &&& cells[i].offset.0 == parts[i].position.x
            &&& cells[i].offset.1 == parts[i].position.y
            &&& cells[i].offset.2 == parts[i].position.z
            &&& parts[i].kind is Solid ==> cells[i].carries.len() == 0
            &&& !(parts[i].kind is Solid) ==> cells[i].carries == seq![body.inputs[0]]
        }),
{
}

/// The springs double in stiffness with every step, up to the ceiling.
pub proof fn lemma_springs_double(iteration: nat)
    requires
        iteration >= 1,
    ensures
        iteration <= 61 ==> settling::anchor_in(iteration) == power2::pow2((iteration - 1) as nat),
        iteration >= 61 ==> settling::anchor_in(iteration) == power2::pow2(60),
    decreases iteration,
{
    power2::lemma2_to64();
    power2::lemma2_to64_rest();
    if iteration > 1 {
        lemma_springs_double((iteration - 1) as nat);
        power2::lemma_pow2_unfold((iteration - 1) as nat);
        if iteration <= 61 {
            if iteration - 1 < 60 {
                power2::lemma_pow2_strictly_increases((iteration - 1) as nat, 60);
            }
        }
    }
}

/// The bodies that may move are those that are not pinned.
pub proof fn lemma_bodies_that_move(list: Seq<Body>, count: nat)
    requires
        count <= list.len(),
    ensures
        settling::movable(list, count) == list.take(count as int).filter(
            |body: Body| !body.pinned,
        ).len(),
    decreases count,
{
    let pred = |body: Body| !body.pinned;
    if count == 0 {
        list.take(0).lemma_filter_len(pred);
    } else {
        lemma_bodies_that_move(list, (count - 1) as nat);
        let last = list[count - 1];
        assert(list.take(count as int) =~= list.take(count - 1).push(last));
        list.take(count - 1).lemma_filter_push(last, pred);
    }
}

/// The state of the stream moves on by the same amount with every number.
pub proof fn lemma_the_stream_moves_on(seed: u64, count: nat)
    ensures
        settling::stirred_times(seed, count) as int == (seed + count * 0x9e37_79b9_7f4a_7c15) % (
        0x1_0000_0000_0000_0000),
    decreases count,
{
    if count > 0 {
        lemma_the_stream_moves_on(seed, (count - 1) as nat);
        let by: int = 0x9e37_79b9_7f4a_7c15;
        let all: int = 0x1_0000_0000_0000_0000;
        let before = seed + (count - 1) * by;
        let last = settling::stirred_times(seed, (count - 1) as nat);
        vstd::arithmetic::div_mod::lemma_add_mod_noop(before, by, all);
        vstd::arithmetic::div_mod::lemma_small_mod(by as nat, all as nat);
        let sum = last + by;
        if sum >= all {
            vstd::arithmetic::div_mod::lemma_fundamental_div_mod_converse(sum, all, 1, sum - all);
        } else {
            vstd::arithmetic::div_mod::lemma_small_mod(sum as nat, all as nat);
        }
        assert(before + by == seed + count * by);
    }
}

/// Thousandths are the nearest to the shortfall, and of two that are as near the even one.
pub proof fn lemma_thousandths_are_nearest(shortfall: nat)
    ensures
        ({
            let cell = error::CELL_PARTS as int;
            let off = 1000 * shortfall - cell * error::thousandths(shortfall);
            &&& -cell <= 2 * off <= cell
            &&& 2 * off == cell || 2 * off == -cell ==> error::thousandths(shortfall) % 2 == 0
        }),
{
    vstd::arithmetic::div_mod::lemma_fundamental_div_mod(
        (shortfall * 1000) as int,
        error::CELL_PARTS as int,
    );
}

/// A number of thousandths is written with a point before its last three digits.
pub proof fn lemma_three_places(thousandths: nat)
    ensures
        ({
            let written = error::three_places(thousandths);
            let whole = text::decimal(thousandths / 1000);
            &&& written.len() == whole.len() + 4
            &&& written[whole.len() as int] == '.'
            &&& text::all_digits(whole + written.skip(whole.len() as int + 1))
            &&& text::digits_value(whole + written.skip(whole.len() as int + 1)) == thousandths
        }),
{
    reveal_strlit(".");
    let whole = text::decimal(thousandths / 1000);
    let a = (thousandths / 100 % 10) as nat;
    let b = (thousandths / 10 % 10) as nat;
    let c = (thousandths % 10) as nat;
    text::lemma_decimal_value(thousandths / 1000);
    lemma_one_digit(a);
    lemma_one_digit(b);
    lemma_one_digit(c);
    let written = error::three_places(thousandths);
    let digits = whole + written.skip(whole.len() as int + 1);
    let one = whole.push(text::digit(a));
    let two = one.push(text::digit(b));
    let three = two.push(text::digit(c));
    assert(digits =~= three);
    assert(three.drop_last() =~= two);
    assert(two.drop_last() =~= one);
    assert(one.drop_last() =~= whole);
    assert(text::digits_value(one) == thousandths / 1000 * 10 + a);
    assert(thousandths / 1000 * 10 + a == thousandths / 100);
    assert(text::digits_value(two) == thousandths / 100 * 10 + b);
    assert(thousandths / 100 * 10 + b == thousandths / 10);
    assert(text::digits_value(three) == thousandths / 10 * 10 + c);
    assert(written.len() == whole.len() + 4);
    assert(written[whole.len() as int] == '.');
    assert forall|i: int| 0 <= i < three.len() implies text::is_digit(#[trigger] three[i]) by {
        if i < whole.len() {
            assert(text::is_digit(whole[i]));
        }
    }
}

proof fn lemma_one_digit(d: nat)
    requires
        d < 10,
    ensures
        text::decimal(d) == seq![text::digit(d)],
        text::is_digit(text::digit(d)),
        text::digit(d) as int == 48 + d,
{
    text::lemma_decimal_value(d);
    assert(text::decimal(d) =~= seq![text::digit(d)]);
}

/// Each gate and each input goes where the body stands that it is placed by, turned as that
/// is; on the lattice a body must keep two cells, and a quarter of a cell for each end of a
/// spring.
pub proof fn lemma_what_is_read_off_the_lattice(graph: BodyGraph, n: int, b: int)
    requires
        graph.anchor_body@.len() <= usize::MAX,
        separation::tied(graph),
        0 <= n < graph.anchor_body@.len(),
        0 <= b < graph.bodies@.len(),
        separation::degree(graph.pulls@, b, graph.pulls@.len()) <= 2 * separation::MOST_PULLS,
    ensures
        ({
            let nodes = snap::answers(graph);
            let body = graph.bodies@[graph.anchor_body@[n] as int];
            &&& nodes.len() == graph.anchor_body@.len()
            &&& nodes[n].node == n
            &&& nodes[n].anchor == body.position
            &&& nodes[n].facing == body.facing
            &&& snap::kept(graph).len() == graph.bodies@.len()
            &&& snap::kept(graph)[b] == 2 * 4 + separation::degree(
                graph.pulls@,
                b,
                graph.pulls@.len(),
            )
        }),
{
}

} // verus!
