//! What accounting for the blocks of a world promises, apart from how it is computed.

use crate::compile::circuit;
use crate::compile::circuit::CompiledCircuit;
use crate::compile::netlist::Netlist;
use crate::compile::primitive_graph::{Edge, PrimitiveGraph, Provenance};
use crate::compile::topology::TemplateNode;
use crate::compile::world_partition;
use crate::compile::world_partition::{
    Account, PartitionView, Realisation, Refusal, UnexplainedBlock,
};
use crate::redstone::block::{BlockKind, Facing};
use crate::redstone::position::Position;
use crate::redstone::world::World;
use vstd::prelude::*;

verus! {

/// A name's position is that of its first entry, and there is none exactly if no entry has
/// the name.
pub proof fn lemma_the_first_entry_counts(list: Seq<(String, Position)>, name: Seq<char>)
    ensures
        match circuit::position_of(list, name) {
            Some(cell) => exists|i: int|
                0 <= i < list.len() && (#[trigger] list[i]).0@ == name && list[i].1 == cell
                    && forall|j: int| 0 <= j < i ==> (#[trigger] list[j]).0@ != name,
            None => forall|i: int| 0 <= i < list.len() ==> (#[trigger] list[i]).0@ != name,
        },
{
    lemma_entry_from(list, name, 0);
}

proof fn lemma_entry_from(list: Seq<(String, Position)>, name: Seq<char>, from: int)
    requires
        0 <= from,
    ensures
        match circuit::position_from(list, name, from) {
            Some(cell) => exists|i: int|
                from <= i < list.len() && (#[trigger] list[i]).0@ == name && list[i].1 == cell
                    && forall|j: int| from <= j < i ==> (#[trigger] list[j]).0@ != name,
            None => forall|i: int| from <= i < list.len() ==> (#[trigger] list[i]).0@ != name,
        },
    decreases list.len() - from,
{
    if from < list.len() {
        if list[from].0@ == name {
            assert(list[from].1 == circuit::position_from(list, name, from)->0);
        } else {
            lemma_entry_from(list, name, from + 1);
            if let Some(cell) = circuit::position_from(list, name, from + 1) {
                let i = choose|i: int|
                    from + 1 <= i < list.len() && (#[trigger] list[i]).0@ == name && list[i].1
                        == cell && forall|j: int|
                        from + 1 <= j < i ==> (#[trigger] list[j]).0@ != name;
                assert(list[i].0@ == name);
            }
        }
    }
}

/// An input's node stands where the lever of the input is recorded, an output's where the
/// lamp of the output is, and a gate's torch where its output is; it is not
/// known where exactly if nothing is recorded. A second torch is never known, and a
/// branch's repeater is one step from the junction, on the side of the branch.
pub proof fn lemma_where_a_node_stands(
    list: Netlist,
    compiled: CompiledCircuit,
    made: Realisation,
    name: String,
    gate: usize,
    index: usize,
)
    ensures
        ({
            let at = |provenance: Provenance|
                world_partition::node_position(list, compiled, made, provenance);
            let lever = circuit::position_of(compiled.input_positions@, name@);
            let lamp = circuit::position_of(compiled.output_positions@, name@);
            let output = circuit::position_of(
                compiled.gate_output_positions@,
                list.gates@[gate as int].output@,
            );
            let input_node = at(Provenance::PrimaryInput { name });
            let output_node = at(Provenance::PrimaryOutput { name });
            let torch = at(Provenance::Gate { gate, role: TemplateNode::Torch });
            let second = at(Provenance::Gate { gate, role: TemplateNode::SecondTorch });
            let repeater = at(
                Provenance::Gate { gate, role: TemplateNode::IsolatingRepeater(index) },
            );
            &&& input_node is Ok <==> lever is Some
            &&& input_node is Ok ==> input_node->Ok_0 == lever->0
            &&& output_node is Ok <==> lamp is Some
            &&& output_node is Ok ==> output_node->Ok_0 == lamp->0
            &&& torch is Ok <==> output is Some
            &&& torch is Ok ==> torch->Ok_0 == output->0
            &&& second is Err
            &&& repeater is Ok <==> output is Some && index < made.input_directions@.len()
            &&& repeater is Ok && output->0.can_step(made.input_directions@[index as int])
                ==> output->0.steps_to(made.input_directions@[index as int], repeater->Ok_0)
            &&& input_node is Err ==> input_node->Err_0 is Unresolved
            &&& output_node is Err ==> output_node->Err_0 is Unresolved
            &&& torch is Err ==> torch->Err_0 is Unresolved
        }),
{
}

/// A step leads one cell on: north and south along `z`, west and east along `x`, down and
/// up along `y`, the first of each towards lesser numbers.
pub proof fn lemma_steps(cell: Position, direction: Facing, next: Position)
    requires
        cell.steps_to(direction, next),
    ensures
        direction == Facing::North <==> next.z == cell.z - 1,
        direction == Facing::South <==> next.z == cell.z + 1,
        direction == Facing::West <==> next.x == cell.x - 1,
        direction == Facing::East <==> next.x == cell.x + 1,
        direction == Facing::Down <==> next.y == cell.y - 1,
        direction == Facing::Up <==> next.y == cell.y + 1,
        next.steps_to(crate::redstone::position::opposite(direction), cell),
{
}

/// All nodes are placed exactly if each node's place is known and no two are the same;
/// each is then placed there, in the order of the nodes.
pub proof fn lemma_where_all_nodes_stand(
    list: Netlist,
    graph: PrimitiveGraph,
    compiled: CompiledCircuit,
    made: Realisation,
)
    ensures
        ({
            let at = |n: int|
                world_partition::node_position(
                    list,
                    compiled,
                    made,
                    graph.nodes@[n].provenance,
                );
            let placed = world_partition::node_positions(list, graph, compiled, made, seq![], 0);
            &&& placed is Ok <==> (forall|n: int|
                0 <= n < graph.nodes@.len() ==> (#[trigger] at(n)) is Ok) && (forall|
                n: int,
                m: int,
            |
                0 <= n < m < graph.nodes@.len() ==> #[trigger] at(n) != #[trigger] at(m))
            &&& placed is Ok ==> placed->Ok_0.len() == graph.nodes@.len() && forall|n: int|
                0 <= n < graph.nodes@.len() ==> at(n) == Ok::<Position, Refusal>(
                    #[trigger] placed->Ok_0[n],
                )
        }),
{
    let at = |n: int|
        world_partition::node_position(list, compiled, made, graph.nodes@[n].provenance);
    lemma_nodes_from(list, graph, compiled, made, seq![], 0);
    let placed = world_partition::node_positions(list, graph, compiled, made, seq![], 0);
    if placed is Ok {
        let cells = placed->Ok_0;
        assert forall|n: int| 0 <= n < graph.nodes@.len() implies (#[trigger] at(n)) is Ok by {
            assert(at(n) == Ok::<Position, Refusal>(cells[n]));
        }
        assert forall|n: int, m: int| 0 <= n < m < graph.nodes@.len() implies #[trigger] at(n)
            != #[trigger] at(m) by {
            assert(cells[n] != cells[m]);
            assert(at(n) == Ok::<Position, Refusal>(cells[n]));
            assert(at(m) == Ok::<Position, Refusal>(cells[m]));
        }
    } else {
        if (forall|n: int| 0 <= n < graph.nodes@.len() ==> (#[trigger] at(n)) is Ok) && (forall|
            n: int,
            m: int,
        | 0 <= n < m < graph.nodes@.len() ==> #[trigger] at(n) != #[trigger] at(m)) {
            let n = choose|n: int| 0 <= n < graph.nodes@.len() && #[trigger] stops_at(
                list,
                graph,
                compiled,
                made,
                n,
            );
            assert(stops_at(list, graph, compiled, made, n));
            assert(at(n) is Ok);
            let m = choose|m: int|
                0 <= m < n && #[trigger] world_partition::node_position(
                    list,
                    compiled,
                    made,
                    graph.nodes@[m].provenance,
                ) == world_partition::node_position(
                    list,
                    compiled,
                    made,
                    graph.nodes@[n].provenance,
                );
            assert(at(m) == at(n));
        }
    }
}

/// A node's place is not known, or is that of one before it.
pub open spec fn stops_at(
    list: Netlist,
    graph: PrimitiveGraph,
    compiled: CompiledCircuit,
    made: Realisation,
    n: int,
) -> bool {
    let here = world_partition::node_position(
        list,
        compiled,
        made,
        graph.nodes@[n].provenance,
    );
    here is Err || exists|m: int|
        0 <= m < n && #[trigger] world_partition::node_position(
            list,
            compiled,
            made,
            graph.nodes@[m].provenance,
        ) == here
}

proof fn lemma_nodes_from(
    list: Netlist,
    graph: PrimitiveGraph,
    compiled: CompiledCircuit,
    made: Realisation,
    so_far: Seq<Position>,
    from: nat,
)
    requires
        from <= graph.nodes@.len(),
        so_far.len() == from,
        so_far.no_duplicates(),
        forall|n: int|
            0 <= n < from ==> world_partition::node_position(
                list,
                compiled,
                made,
                graph.nodes@[n].provenance,
            ) == Ok::<Position, Refusal>(#[trigger] so_far[n]),
    ensures
        match world_partition::node_positions(list, graph, compiled, made, so_far, from) {
            Ok(cells) => {
                &&& cells.len() == graph.nodes@.len()
                &&& cells.no_duplicates()
                &&& forall|n: int|
                    0 <= n < graph.nodes@.len() ==> world_partition::node_position(
                        list,
                        compiled,
                        made,
                        graph.nodes@[n].provenance,
                    ) == Ok::<Position, Refusal>(#[trigger] cells[n])
            },
            Err(refusal) => exists|n: int|
                0 <= n < graph.nodes@.len() && #[trigger] stops_at(
                    list,
                    graph,
                    compiled,
                    made,
                    n,
                ),
        },
    decreases graph.nodes@.len() - from,
{
    if from < graph.nodes@.len() {
        let here = world_partition::node_position(
            list,
            compiled,
            made,
            graph.nodes@[from as int].provenance,
        );
        match here {
            Err(_) => {
                assert(stops_at(list, graph, compiled, made, from as int));
            },
            Ok(cell) => {
                if so_far.contains(cell) {
                    let m = choose|m: int| 0 <= m < so_far.len() && so_far[m] == cell;
                    assert(world_partition::node_position(
                        list,
                        compiled,
                        made,
                        graph.nodes@[m].provenance,
                    ) == here);
                    assert(stops_at(list, graph, compiled, made, from as int));
                } else {
                    lemma_nodes_from(list, graph, compiled, made, so_far.push(cell), from + 1);
                }
            },
        }
    }
}

/// The blocks that torches are mounted on are those of the gates that are no merges, all
/// of them; they are known exactly if for each such gate an output and a support is.
pub proof fn lemma_which_blocks_hold_torches(
    list: Netlist,
    compiled: CompiledCircuit,
    made: Realisation,
)
    ensures
        ({
            let found = world_partition::support_positions(list, compiled, made, seq![], 0);
            &&& found is Ok <==> forall|g: int|
                0 <= g < list.gates@.len() && !((#[trigger] list.gates@[g]).kind is Or)
                    ==> circuit::position_of(
                    compiled.gate_output_positions@,
                    list.gates@[g].output@,
                ) is Some && made.supports@[g] is Some
            &&& found is Ok ==> forall|cell: Position| #[trigger]
                found->Ok_0.contains(cell) <==> exists|g: int|
                    0 <= g < list.gates@.len() && !((#[trigger] list.gates@[g]).kind is Or)
                        && made.supports@[g] == Some(cell)
        }),
{
    lemma_supports_from(list, compiled, made, seq![], 0);
}

proof fn lemma_supports_from(
    list: Netlist,
    compiled: CompiledCircuit,
    made: Realisation,
    so_far: Seq<Position>,
    from: nat,
)
    requires
        from <= list.gates@.len(),
    ensures
        ({
            let found = world_partition::support_positions(list, compiled, made, so_far, from);
            &&& found is Ok <==> forall|g: int|
                from <= g < list.gates@.len() && !((#[trigger] list.gates@[g]).kind is Or)
                    ==> circuit::position_of(
                    compiled.gate_output_positions@,
                    list.gates@[g].output@,
                ) is Some && made.supports@[g] is Some
            &&& found is Ok ==> forall|cell: Position| #[trigger]
                found->Ok_0.contains(cell) <==> so_far.contains(cell) || exists|g: int|
                    from <= g < list.gates@.len() && !((#[trigger] list.gates@[g]).kind is Or)
                        && made.supports@[g] == Some(cell)
        }),
    decreases list.gates@.len() - from,
{
    if from < list.gates@.len() {
        let gate = list.gates@[from as int];
        let next = if !(gate.kind is Or) && made.supports@[from as int] is Some {
            so_far.push(made.supports@[from as int]->0)
        } else {
            so_far
        };
        lemma_supports_from(list, compiled, made, next, from + 1);
        let found = world_partition::support_positions(list, compiled, made, so_far, from);
        if found is Ok {
            assert forall|cell: Position| #[trigger] found->Ok_0.contains(cell) <==> so_far.contains(
                cell,
            ) || exists|g: int|
                from <= g < list.gates@.len() && !((#[trigger] list.gates@[g]).kind is Or)
                    && made.supports@[g] == Some(cell) by {
                if so_far.contains(cell) {
                    let i = choose|i: int| 0 <= i < so_far.len() && so_far[i] == cell;
                    assert(next[i] == cell);
                    assert(next.contains(cell));
                }
                if next.contains(cell) && !so_far.contains(cell) {
                    assert(!(list.gates@[from as int].kind is Or));
                }
                if exists|g: int|
                    from <= g < list.gates@.len() && !((#[trigger] list.gates@[g]).kind is Or)
                        && made.supports@[g] == Some(cell) {
                    let g = choose|g: int|
                        from <= g < list.gates@.len() && !((#[trigger] list.gates@[g]).kind is Or)
                            && made.supports@[g] == Some(cell);
                    if g == from {
                        assert(next[so_far.len() as int] == cell);
                        assert(next.contains(cell));
                    } else {
                        assert(from + 1 <= g && !(list.gates@[g].kind is Or));
                    }
                }
            }
        }
    }
}

/// The edges into a gate are those that come from a node that is not its own and go to
/// one that is.
pub proof fn lemma_edges_into_a_gate(graph: PrimitiveGraph, g: int, count: nat)
    requires
        count <= graph.edges@.len(),
        0 <= g < graph.gate_nodes@.len(),
    ensures
        world_partition::edges_in(graph, g, count) == graph.edges@.take(count as int).filter(
            |edge: Edge|
                graph.gate_nodes@[g]@.contains(edge.to) && !graph.gate_nodes@[g]@.contains(
                    edge.from,
                ),
        ).len(),
    decreases count,
{
    let pred = |edge: Edge|
        graph.gate_nodes@[g]@.contains(edge.to) && !graph.gate_nodes@[g]@.contains(edge.from);
    if count == 0 {
        graph.edges@.take(0).lemma_filter_len(pred);
    } else {
        lemma_edges_into_a_gate(graph, g, (count - 1) as nat);
        let last = graph.edges@[count - 1];
        assert(graph.edges@.take(count as int) =~= graph.edges@.take(count - 1).push(last));
        graph.edges@.take(count - 1).lemma_filter_push(last, pred);
    }
}

/// A repeater that stands one step from a cell and faces away from it.
pub open spec fn leads_away(world: World, centre: Position, direction: Facing) -> bool {
    exists|cell: Position|
        centre.steps_to(direction, cell) && (#[trigger] world.at(
            cell.x as int,
            cell.y as int,
            cell.z as int,
        )).kind == BlockKind::Repeater && world.at(
            cell.x as int,
            cell.y as int,
            cell.z as int,
        ).facing == Some(direction)
}

/// The sockets around a cell are the sides on which such a repeater stands.
pub proof fn lemma_sockets_around_a_cell(
    world: World,
    centre: Position,
    directions: Seq<Facing>,
    count: nat,
)
    requires
        count <= directions.len(),
        world_partition::inner(centre),
    ensures
        world_partition::sockets_at(world, centre, directions, count) == directions.take(
            count as int,
        ).filter(|side: Facing| leads_away(world, centre, side)).len(),
    decreases count,
{
    let pred = |side: Facing| leads_away(world, centre, side);
    if count == 0 {
        directions.take(0).lemma_filter_len(pred);
    } else {
        lemma_sockets_around_a_cell(world, centre, directions, (count - 1) as nat);
        let last = directions[count - 1];
        assert(directions.take(count as int) =~= directions.take(count - 1).push(last));
        directions.take(count - 1).lemma_filter_push(last, pred);
        let cell = world_partition::beside(centre, last);
        assert(centre.steps_to(last, cell));
        if world_partition::is_socket(world, centre, last) {
            let state = world.at(cell.x as int, cell.y as int, cell.z as int);
            assert(state.kind == BlockKind::Repeater);
            assert(leads_away(world, centre, last));
        }
        if leads_away(world, centre, last) {
            let other = choose|other: Position|
                centre.steps_to(last, other) && (#[trigger] world.at(
                    other.x as int,
                    other.y as int,
                    other.z as int,
                )).kind == BlockKind::Repeater && world.at(
                    other.x as int,
                    other.y as int,
                    other.z as int,
                ).facing == Some(last);
            assert(other == cell);
        }
    }
}

/// The branches of a gate that have a repeater of their own are those that are not bare.
pub proof fn lemma_isolated_branches(made: Realisation, g: int, count: nat)
    requires
        0 <= g < made.is_bare@.len(),
        count <= made.is_bare@[g]@.len(),
    ensures
        world_partition::isolated(made, g, count) == made.is_bare@[g]@.take(count as int).filter(
            |bare: bool| !bare,
        ).len(),
    decreases count,
{
    let pred = |bare: bool| !bare;
    if count == 0 {
        made.is_bare@[g]@.take(0).lemma_filter_len(pred);
    } else {
        lemma_isolated_branches(made, g, (count - 1) as nat);
        let last = made.is_bare@[g]@[count - 1];
        assert(made.is_bare@[g]@.take(count as int) =~= made.is_bare@[g]@.take(count - 1).push(
            last,
        ));
        made.is_bare@[g]@.take(count - 1).lemma_filter_push(last, pred);
    }
}

/// What drives a gate's inputs: all contributors of its branches, or only those of the
/// branches that are not bare.
pub proof fn lemma_drivers_of_a_gate(made: Realisation, g: int, count: nat)
    requires
        0 <= g < made.is_bare@.len(),
        0 <= g < made.contributors@.len(),
        count <= made.is_bare@[g]@.len(),
        count <= made.contributors@[g]@.len(),
    ensures
        world_partition::branch_sum(made, g, count, false) == made.contributors@[g]@.take(
            count as int,
        ).fold_left(0int, |sum: int, more: usize| sum + more),
        (forall|k: int| 0 <= k < count ==> !(#[trigger] made.is_bare@[g]@[k]))
            ==> world_partition::branch_sum(made, g, count, true) == world_partition::branch_sum(
            made,
            g,
            count,
            false,
        ),
        (forall|k: int| 0 <= k < count ==> (#[trigger] made.is_bare@[g]@[k]))
            ==> world_partition::branch_sum(made, g, count, true) == 0,
        count > 0 ==> world_partition::branch_sum(made, g, count, true)
            - world_partition::branch_sum(made, g, (count - 1) as nat, true) == (
        if made.is_bare@[g]@[count - 1] {
            0int
        } else {
            made.contributors@[g]@[count - 1] as int
        }),
    decreases count,
{
    if count > 0 {
        lemma_drivers_of_a_gate(made, g, (count - 1) as nat);
        let drivers = made.contributors@[g]@;
        assert(drivers.take(count as int).drop_last() =~= drivers.take(count - 1));
    }
}

/// The inputs that a gate should have a socket for: all, or for a merge those that are not
/// bare.
pub open spec fn sockets_due(list: Netlist, made: Realisation, g: int) -> nat {
    if list.gates@[g].kind is Or {
        made.is_bare@[g]@.filter(|bare: bool| !bare).len()
    } else {
        list.gates@[g].inputs@.len()
    }
}

/// The block that a gate has its sockets around: the junction of a merge, and else the
/// block that its torch is mounted on.
pub open spec fn socket_centre(
    list: Netlist,
    compiled: CompiledCircuit,
    made: Realisation,
    g: int,
) -> Option<Position> {
    if list.gates@[g].kind is Or {
        circuit::position_of(compiled.gate_output_positions@, list.gates@[g].output@)
    } else {
        made.supports@[g]
    }
}

/// A gate is accepted exactly if its output is recorded, as many edges enter it as nodes
/// drive its inputs, and it has as many sockets in the world as are due; a merge counts no
/// bare branch. Where it is not, what is recorded of it is reported.
pub proof fn lemma_when_a_gate_is_accepted(
    list: Netlist,
    graph: PrimitiveGraph,
    compiled: CompiledCircuit,
    made: Realisation,
    g: int,
)
    requires
        world_partition::described(list, graph, compiled, made),
        0 <= g < list.gates@.len(),
    ensures
        ({
            let recorded = circuit::position_of(
                compiled.gate_output_positions@,
                list.gates@[g].output@,
            );
            let edges = world_partition::edges_in(graph, g, graph.edges@.len());
            let drivers = world_partition::branch_sum(
                made,
                g,
                list.gates@[g].inputs@.len(),
                list.gates@[g].kind is Or,
            );
            let sockets = match socket_centre(list, compiled, made, g) {
                Some(centre) => world_partition::sockets_at(
                    compiled.world,
                    centre,
                    made.input_directions@,
                    made.input_directions@.len(),
                ),
                None => 0,
            };
            let refusal = world_partition::gate_refusal(list, graph, compiled, made, g);
            &&& refusal is None <==> recorded is Some && edges == drivers && sockets
                == sockets_due(list, made, g)
            &&& recorded is None ==> refusal is Some && refusal->0 is Unresolved
            &&& refusal is Some && recorded is Some ==> refusal->0 == (Refusal::Arity {
                gate: list.gates@[g].output@,
                netlist_arity: sockets_due(list, made, g),
                graph_arity: edges,
                world_arity: sockets,
            })
        }),
{
    let arity = list.gates@[g].inputs@.len();
    assert(made.contributors@[g]@.len() == arity && made.is_bare@[g]@.len() == arity);
    lemma_isolated_branches(made, g, arity);
    assert(made.is_bare@[g]@.take(arity as int) =~= made.is_bare@[g]@);
}

/// The first gate that is not accepted is the one reported.
pub proof fn lemma_the_first_refused_gate_is_reported(
    list: Netlist,
    graph: PrimitiveGraph,
    compiled: CompiledCircuit,
    made: Realisation,
    from: int,
)
    requires
        0 <= from,
    ensures
        match world_partition::arity_refusal(list, graph, compiled, made, from) {
            Some(refusal) => exists|g: int|
                from <= g < list.gates@.len() && #[trigger] world_partition::gate_refusal(
                    list,
                    graph,
                    compiled,
                    made,
                    g,
                ) == Some(refusal) && forall|h: int|
                    from <= h < g ==> (#[trigger] world_partition::gate_refusal(
                        list,
                        graph,
                        compiled,
                        made,
                        h,
                    )) is None,
            None => forall|g: int|
                from <= g < list.gates@.len() ==> (#[trigger] world_partition::gate_refusal(
                    list,
                    graph,
                    compiled,
                    made,
                    g,
                )) is None,
        },
    decreases list.gates@.len() - from,
{
    if from < list.gates@.len() {
        let here = world_partition::gate_refusal(list, graph, compiled, made, from);
        if here is None {
            lemma_the_first_refused_gate_is_reported(list, graph, compiled, made, from + 1);
            if let Some(refusal) = world_partition::arity_refusal(
                list,
                graph,
                compiled,
                made,
                from + 1,
            ) {
                let g = choose|g: int|
                    from + 1 <= g < list.gates@.len() && #[trigger] world_partition::gate_refusal(
                        list,
                        graph,
                        compiled,
                        made,
                        g,
                    ) == Some(refusal) && forall|h: int|
                        from + 1 <= h < g ==> (#[trigger] world_partition::gate_refusal(
                            list,
                            graph,
                            compiled,
                            made,
                            h,
                        )) is None;
                assert(world_partition::gate_refusal(list, graph, compiled, made, g) == Some(
                    refusal,
                ));
            }
        } else {
            assert(world_partition::gate_refusal(list, graph, compiled, made, from) == here);
        }
    }
}

/// The cell holds nothing.
pub open spec fn is_air(world: World, cell: Position) -> bool {
    world.at(cell.x as int, cell.y as int, cell.z as int).kind == BlockKind::Air
}

/// The cell that is reported as empty is the first of the list that is.
pub proof fn lemma_the_first_empty_cell(world: World, cells: Seq<Position>, from: int)
    requires
        0 <= from,
    ensures
        match world_partition::first_air(world, cells, from) {
            Some(cell) => exists|i: int|
                from <= i < cells.len() && #[trigger] cells[i] == cell && is_air(world, cell)
                    && forall|j: int| from <= j < i ==> !is_air(world, #[trigger] cells[j]),
            None => forall|i: int|
                from <= i < cells.len() ==> !is_air(world, #[trigger] cells[i]),
        },
    decreases cells.len() - from,
{
    if from < cells.len() {
        if is_air(world, cells[from]) {
            assert(cells[from] == world_partition::first_air(world, cells, from)->0);
        } else {
            lemma_the_first_empty_cell(world, cells, from + 1);
            if let Some(cell) = world_partition::first_air(world, cells, from + 1) {
                let i = choose|i: int|
                    from + 1 <= i < cells.len() && #[trigger] cells[i] == cell && is_air(
                        world,
                        cell,
                    ) && forall|j: int| from + 1 <= j < i ==> !is_air(world, #[trigger] cells[j]);
                assert(cells[i] == cell);
            }
        }
    }
}

/// A world is accounted for exactly if every gate is accepted, every node has a place of
/// its own that is known and holds a block, and every torch's block is known.
pub proof fn lemma_when_a_world_is_accounted_for(
    list: Netlist,
    graph: PrimitiveGraph,
    compiled: CompiledCircuit,
    made: Realisation,
)
    ensures
        ({
            let at = |n: int|
                world_partition::node_position(
                    list,
                    compiled,
                    made,
                    graph.nodes@[n].provenance,
                );
            world_partition::partitioned(list, graph, compiled, made) is Ok <==> {
                &&& forall|g: int|
                    0 <= g < list.gates@.len() ==> (#[trigger] world_partition::gate_refusal(
                        list,
                        graph,
                        compiled,
                        made,
                        g,
                    )) is None
                &&& forall|n: int|
                    0 <= n < graph.nodes@.len() ==> (#[trigger] at(n)) is Ok && !is_air(
                        compiled.world,
                        at(n)->Ok_0,
                    )
                &&& forall|n: int, m: int|
                    0 <= n < m < graph.nodes@.len() ==> #[trigger] at(n) != #[trigger] at(m)
                &&& forall|g: int|
                    0 <= g < list.gates@.len() && !((#[trigger] list.gates@[g]).kind is Or)
                        ==> circuit::position_of(
                        compiled.gate_output_positions@,
                        list.gates@[g].output@,
                    ) is Some && made.supports@[g] is Some
            }
        }),
{
    let at = |n: int|
        world_partition::node_position(list, compiled, made, graph.nodes@[n].provenance);
    lemma_the_first_refused_gate_is_reported(list, graph, compiled, made, 0);
    lemma_where_all_nodes_stand(list, graph, compiled, made);
    lemma_which_blocks_hold_torches(list, compiled, made);
    let placed = world_partition::node_positions(list, graph, compiled, made, seq![], 0);
    if let Some(refusal) = world_partition::arity_refusal(list, graph, compiled, made, 0) {
        let g = choose|g: int|
            0 <= g < list.gates@.len() && #[trigger] world_partition::gate_refusal(
                list,
                graph,
                compiled,
                made,
                g,
            ) == Some(refusal);
        assert(world_partition::gate_refusal(list, graph, compiled, made, g) is Some);
    }
    if placed is Ok {
        let cells = placed->Ok_0;
        lemma_the_first_empty_cell(compiled.world, cells, 0);
        assert forall|n: int| 0 <= n < graph.nodes@.len() implies #[trigger] at(n) == Ok::<
            Position,
            Refusal,
        >(cells[n]) by {
            assert(at(n) == Ok::<Position, Refusal>(placed->Ok_0[n]));
        }
        if let Some(cell) = world_partition::first_air(compiled.world, cells, 0) {
            let i = choose|i: int|
                0 <= i < cells.len() && #[trigger] cells[i] == cell && is_air(
                    compiled.world,
                    cell,
                );
            assert(at(i) == Ok::<Position, Refusal>(cells[i]));
        }
    }
}

/// What a cell is put down as: nothing where it is empty; as a node where one stands,
/// whatever the block; else dust and repeaters as such, a solid block as a support where a
/// torch is mounted on it or dust, a repeater or a lever stands on it, and everything else
/// as unexplained.
pub proof fn lemma_what_a_cell_is_put_down_as(
    world: World,
    explained: Seq<Position>,
    supports: Seq<Position>,
    cell: Position,
)
    ensures
        ({
            let kind = world.at(cell.x as int, cell.y as int, cell.z as int).kind;
            let above = world.at(cell.x as int, cell.y + 1, cell.z as int).kind;
            let account = world_partition::account(world, explained, supports, cell);
            let filled = !is_air(world, cell);
            let free = filled && !explained.contains(cell);
            let holds = supports.contains(cell) || above == BlockKind::RedstoneWire || above
                == BlockKind::Repeater || above == BlockKind::Lever;
            &&& account is Empty <==> !filled
            &&& account is Explained <==> filled && explained.contains(cell)
            &&& account is Dust <==> free && kind == BlockKind::RedstoneWire
            &&& account is Repeater <==> free && kind == BlockKind::Repeater
            &&& account is Support <==> free && kind == BlockKind::Solid && holds
            &&& account is Unexplained <==> free && kind != BlockKind::RedstoneWire && kind
                != BlockKind::Repeater && !(kind == BlockKind::Solid && holds)
        }),
{
}

/// The cells before one, slice by slice and line by line, that are put down as a sort.
pub open spec fn sort_before(
    world: World,
    explained: Seq<Position>,
    supports: Seq<Position>,
    sort: Account,
    x: int,
    y: int,
    z: int,
) -> Set<Position> {
    Set::new(
        |cell: Position|
            world.holds(cell.x as int, cell.y as int, cell.z as int) && (cell.x < x || (cell.x == x
                && (cell.y < y || (cell.y == y && cell.z < z)))) && world_partition::account(
                world,
                explained,
                supports,
                cell,
            ) == sort,
    )
}

/// How many blocks a partition has of a sort.
pub open spec fn sort_count(p: PartitionView, sort: Account) -> nat {
    match sort {
        Account::Empty => 0,
        Account::Explained => p.explained,
        Account::Dust => p.dust,
        Account::Repeater => p.repeater,
        Account::Support => p.support,
        Account::Unexplained => p.unexplained.len(),
    }
}

/// A block as it is listed where nothing accounts for it.
pub open spec fn listed_block(world: World, cell: Position) -> UnexplainedBlock {
    UnexplainedBlock {
        position: (cell.x, cell.y, cell.z),
        kind: world.at(cell.x as int, cell.y as int, cell.z as int).kind,
    }
}

/// A partition has counted the cells before one.
pub open spec fn has_counted(
    p: PartitionView,
    world: World,
    explained: Seq<Position>,
    supports: Seq<Position>,
    x: int,
    y: int,
    z: int,
) -> bool {
    &&& forall|sort: Account|
        !(sort is Empty) ==> (#[trigger] sort_before(
            world,
            explained,
            supports,
            sort,
            x,
            y,
            z,
        )).finite() && sort_count(p, sort) == sort_before(
            world,
            explained,
            supports,
            sort,
            x,
            y,
            z,
        ).len()
    &&& lists_blocks(
        p.unexplained,
        world,
        sort_before(world, explained, supports, Account::Unexplained, x, y, z),
    )
}

/// A list holds the blocks of a set of cells, and no others.
pub open spec fn lists_blocks(
    list: Seq<UnexplainedBlock>,
    world: World,
    cells: Set<Position>,
) -> bool {
    &&& forall|cell: Position| #[trigger]
        cells.contains(cell) ==> list.contains(listed_block(world, cell))
    &&& forall|k: int|
        0 <= k < list.len() ==> exists|cell: Position| #[trigger]
            cells.contains(cell) && #[trigger] list[k] == listed_block(world, cell)
}

proof fn lemma_same_cells(
    p: PartitionView,
    world: World,
    explained: Seq<Position>,
    supports: Seq<Position>,
    x: int,
    y: int,
    z: int,
    u: int,
    v: int,
    w: int,
)
    requires
        has_counted(p, world, explained, supports, x, y, z),
        forall|cell: Position|
            world.holds(cell.x as int, cell.y as int, cell.z as int) ==> ((cell.x < x || (cell.x
                == x && (cell.y < y || (cell.y == y && cell.z < z)))) <==> (cell.x < u || (cell.x
                == u && (cell.y < v || (cell.y == v && cell.z < w))))),
    ensures
        has_counted(p, world, explained, supports, u, v, w),
{
    assert forall|sort: Account| #[trigger]
        sort_before(world, explained, supports, sort, u, v, w) == sort_before(
            world,
            explained,
            supports,
            sort,
            x,
            y,
            z,
        ) by {
        assert(sort_before(world, explained, supports, sort, u, v, w) =~= sort_before(
            world,
            explained,
            supports,
            sort,
            x,
            y,
            z,
        ));
    }
    let one = sort_before(world, explained, supports, Account::Unexplained, x, y, z);
    let other = sort_before(world, explained, supports, Account::Unexplained, u, v, w);
    assert(one == other);
    assert forall|sort: Account| !(sort is Empty) implies (#[trigger] sort_before(
        world,
        explained,
        supports,
        sort,
        u,
        v,
        w,
    )).finite() && sort_count(p, sort) == sort_before(
        world,
        explained,
        supports,
        sort,
        u,
        v,
        w,
    ).len() by {
        assert(sort_before(world, explained, supports, sort, x, y, z).finite());
    }
}

proof fn lemma_one_more_cell(
    p: PartitionView,
    world: World,
    explained: Seq<Position>,
    supports: Seq<Position>,
    x: int,
    y: int,
    z: int,
)
    requires
        world.wf(),
        world.holds(x, y, z),
        has_counted(p, world, explained, supports, x, y, z),
    ensures
        has_counted(
            world_partition::with_cell(
                p,
                world,
                explained,
                supports,
                world_partition::cell_at(x, y, z),
            ),
            world,
            explained,
            supports,
            x,
            y,
            z + 1,
        ),
{
    let here = world_partition::cell_at(x, y, z);
    let account = world_partition::account(world, explained, supports, here);
    let q = world_partition::with_cell(p, world, explained, supports, here);
    assert forall|sort: Account| !(sort is Empty) implies (#[trigger] sort_before(
        world,
        explained,
        supports,
        sort,
        x,
        y,
        z + 1,
    )).finite() && sort_count(q, sort) == sort_before(
        world,
        explained,
        supports,
        sort,
        x,
        y,
        z + 1,
    ).len() by {
        let fewer = sort_before(world, explained, supports, sort, x, y, z);
        let more = sort_before(world, explained, supports, sort, x, y, z + 1);
        assert(fewer.finite());
        if account == sort {
            assert(more =~= fewer.insert(here));
            assert(!fewer.contains(here));
        } else {
            assert(more =~= fewer);
        }
    }
    let fewer = sort_before(world, explained, supports, Account::Unexplained, x, y, z);
    let more = sort_before(world, explained, supports, Account::Unexplained, x, y, z + 1);
    if account is Unexplained {
        lemma_one_more_listed(p.unexplained, world, fewer, here);
        assert(more =~= fewer.insert(here));
        assert(q.unexplained =~= p.unexplained.push(listed_block(world, here)));
    } else {
        assert(more =~= fewer);
        assert(q.unexplained == p.unexplained);
    }
}

proof fn lemma_one_more_listed(
    list: Seq<UnexplainedBlock>,
    world: World,
    cells: Set<Position>,
    here: Position,
)
    requires
        lists_blocks(list, world, cells),
    ensures
        lists_blocks(list.push(listed_block(world, here)), world, cells.insert(here)),
{
    let longer = list.push(listed_block(world, here));
    let more = cells.insert(here);
    assert forall|cell: Position| #[trigger] more.contains(cell) implies longer.contains(
        listed_block(world, cell),
    ) by {
        if cells.contains(cell) {
            let k = choose|k: int| 0 <= k < list.len() && list[k] == listed_block(world, cell);
            assert(longer[k] == listed_block(world, cell));
        } else {
            assert(longer[list.len() as int] == listed_block(world, cell));
        }
    }
    assert forall|k: int| 0 <= k < longer.len() implies exists|cell: Position| #[trigger]
        more.contains(cell) && #[trigger] longer[k] == listed_block(world, cell) by {
        if k < list.len() {
            assert(list[k] == longer[k]);
            let cell = choose|cell: Position| #[trigger]
                cells.contains(cell) && list[k] == listed_block(world, cell);
            assert(more.contains(cell));
        } else {
            assert(more.contains(here));
        }
    }
}

proof fn lemma_line(
    p: PartitionView,
    world: World,
    explained: Seq<Position>,
    supports: Seq<Position>,
    x: int,
    y: int,
    count: nat,
)
    requires
        world.wf(),
        0 <= x < world.sizes().0,
        0 <= y < world.sizes().1,
        count <= world.sizes().2,
        has_counted(p, world, explained, supports, x, y, 0),
    ensures
        has_counted(
            world_partition::with_line(p, world, explained, supports, x, y, count),
            world,
            explained,
            supports,
            x,
            y,
            count as int,
        ),
    decreases count,
{
    if count > 0 {
        lemma_line(p, world, explained, supports, x, y, (count - 1) as nat);
        lemma_one_more_cell(
            world_partition::with_line(p, world, explained, supports, x, y, (count - 1) as nat),
            world,
            explained,
            supports,
            x,
            y,
            count - 1,
        );
    }
}

proof fn lemma_slice(
    p: PartitionView,
    world: World,
    explained: Seq<Position>,
    supports: Seq<Position>,
    x: int,
    count: nat,
)
    requires
        world.wf(),
        0 <= x < world.sizes().0,
        count <= world.sizes().1,
        has_counted(p, world, explained, supports, x, 0, 0),
    ensures
        has_counted(
            world_partition::with_slice(p, world, explained, supports, x, count),
            world,
            explained,
            supports,
            x,
            count as int,
            0,
        ),
    decreases count,
{
    if count > 0 {
        lemma_slice(p, world, explained, supports, x, (count - 1) as nat);
        let before = world_partition::with_slice(
            p,
            world,
            explained,
            supports,
            x,
            (count - 1) as nat,
        );
        let depth = world.sizes().2;
        lemma_line(before, world, explained, supports, x, count - 1, depth as nat);
        lemma_same_cells(
            world_partition::with_line(
                before,
                world,
                explained,
                supports,
                x,
                count - 1,
                depth as nat,
            ),
            world,
            explained,
            supports,
            x,
            count - 1,
            depth,
            x,
            count as int,
            0,
        );
    }
}

/// A partition counts, of each sort, the cells of the world that are put down as that
/// sort, and lists every block that nothing accounts for, with its cell and its kind.
pub proof fn lemma_a_partition_counts_the_cells_of_each_sort(
    world: World,
    explained: Seq<Position>,
    supports: Seq<Position>,
    count: nat,
)
    requires
        world.wf(),
        count <= world.sizes().0,
    ensures
        has_counted(
            world_partition::with_slices(world, explained, supports, count),
            world,
            explained,
            supports,
            count as int,
            0,
            0,
        ),
    decreases count,
{
    if count > 0 {
        lemma_a_partition_counts_the_cells_of_each_sort(
            world,
            explained,
            supports,
            (count - 1) as nat,
        );
        let before = world_partition::with_slices(world, explained, supports, (count - 1) as nat);
        let height = world.sizes().1;
        lemma_slice(before, world, explained, supports, count - 1, height as nat);
        lemma_same_cells(
            world_partition::with_slice(
                before,
                world,
                explained,
                supports,
                count - 1,
                height as nat,
            ),
            world,
            explained,
            supports,
            count - 1,
            height,
            0,
            count as int,
            0,
            0,
        );
    } else {
        assert forall|sort: Account| (#[trigger] sort_before(
            world,
            explained,
            supports,
            sort,
            0,
            0,
            0,
        )) == Set::<Position>::empty() by {
            assert(sort_before(world, explained, supports, sort, 0, 0, 0) =~= Set::empty());
        }
    }
}

/// The cells of a world that are put down as a sort.
pub open spec fn of_sort(
    world: World,
    explained: Seq<Position>,
    supports: Seq<Position>,
    sort: Account,
) -> Set<Position> {
    Set::new(
        |cell: Position|
            world.holds(cell.x as int, cell.y as int, cell.z as int) && world_partition::account(
                world,
                explained,
                supports,
                cell,
            ) == sort,
    )
}

/// What a circuit's world comes to: as many blocks of each sort as there are cells in the
/// world that are put down as it, given where the nodes stand and which blocks hold
/// torches, and a list of the blocks that nothing accounts for.
pub proof fn lemma_a_partition_is_of_its_world(
    list: Netlist,
    graph: PrimitiveGraph,
    compiled: CompiledCircuit,
    made: Realisation,
    found: PartitionView,
)
    requires
        compiled.world.wf(),
        world_partition::partitioned(list, graph, compiled, made) == Ok::<PartitionView, Refusal>(
            found,
        ),
    ensures
        ({
            let world = compiled.world;
            let explained = world_partition::node_positions(
                list,
                graph,
                compiled,
                made,
                seq![],
                0,
            )->Ok_0;
            let supports = world_partition::support_positions(
                list,
                compiled,
                made,
                seq![],
                0,
            )->Ok_0;
            let cells = |sort: Account| of_sort(world, explained, supports, sort);
            &&& found.explained == cells(Account::Explained).len()
            &&& found.dust == cells(Account::Dust).len()
            &&& found.repeater == cells(Account::Repeater).len()
            &&& found.support == cells(Account::Support).len()
            &&& found.unexplained.len() == cells(Account::Unexplained).len()
            &&& lists_blocks(found.unexplained, world, cells(Account::Unexplained))
        }),
{
    let world = compiled.world;
    let explained = world_partition::node_positions(list, graph, compiled, made, seq![], 0)->Ok_0;
    let supports = world_partition::support_positions(list, compiled, made, seq![], 0)->Ok_0;
    let wide = world.sizes().0;
    lemma_a_partition_counts_the_cells_of_each_sort(world, explained, supports, wide as nat);
    assert forall|sort: Account| #[trigger]
        sort_before(world, explained, supports, sort, wide, 0, 0) == of_sort(
            world,
            explained,
            supports,
            sort,
        ) by {
        assert(sort_before(world, explained, supports, sort, wide, 0, 0) =~= of_sort(
            world,
            explained,
            supports,
            sort,
        ));
    }
    assert(sort_count(found, Account::Explained) == sort_before(
        world,
        explained,
        supports,
        Account::Explained,
        wide,
        0,
        0,
    ).len());
    assert(sort_count(found, Account::Dust) == sort_before(
        world,
        explained,
        supports,
        Account::Dust,
        wide,
        0,
        0,
    ).len());
    assert(sort_count(found, Account::Repeater) == sort_before(
        world,
        explained,
        supports,
        Account::Repeater,
        wide,
        0,
        0,
    ).len());
    assert(sort_count(found, Account::Support) == sort_before(
        world,
        explained,
        supports,
        Account::Support,
        wide,
        0,
        0,
    ).len());
    assert(sort_count(found, Account::Unexplained) == sort_before(
        world,
        explained,
        supports,
        Account::Unexplained,
        wide,
        0,
        0,
    ).len());
}

} // verus!
