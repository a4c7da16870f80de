//! How the totals of a circuit and those of its edges go together: what the edges
//! share counts once in the one and once for each edge in the other.

use crate::compile::circuit::CompiledCircuit;
use crate::compile::netlist::Netlist;
use crate::compile::routing_stats;
use crate::compile::routing_stats::{
    EdgeView, Geometry, Net, PartTotals, RoutePart, RouteParts, Segment,
};
use crate::redstone::position::Position;
use crate::redstone::world::World;
use vstd::prelude::*;

verus! {

/// What one part of a route counts.
pub open spec fn counted(world: World, segments: Seq<Segment>, part: RoutePart) -> (nat, nat) {
    routing_stats::part_count(world, routing_stats::route(segments), part)
}

/// What one part counts over several edges.
pub open spec fn counted_over(world: World, edges: Seq<EdgeView>, part: RoutePart) -> (nat, nat)
    decreases edges.len(),
{
    if edges.len() == 0 {
        (0, 0)
    } else {
        let before = counted_over(world, edges.drop_last(), part);
        let last = counted(world, edges.last().segments, part);
        (before.0 + last.0, before.1 + last.1)
    }
}

/// What a segment adds to a part.
spec fn weight(world: World, segment: Segment, part: RoutePart) -> (nat, nat) {
    if segment.part == part {
        routing_stats::tally(world, segment.cells)
    } else {
        (0, 0)
    }
}

proof fn lemma_one_more(world: World, segments: Seq<Segment>, next: Segment, part: RoutePart)
    ensures
        ({
            let before = counted(world, segments, part);
            let more = weight(world, next, part);
            counted(world, segments.push(next), part) == (before.0 + more.0, before.1 + more.1)
        }),
{
    assert(segments.push(next).drop_last() =~= segments);
    let cells = routing_stats::route(segments);
    if next.part == part && cells.dom().contains(part) {
        routing_stats::lemma_tally_adds(world, cells[part], next.cells);
    }
}

proof fn lemma_two_more(
    world: World,
    segments: Seq<Segment>,
    one: Segment,
    two: Segment,
    part: RoutePart,
)
    ensures
        ({
            let before = counted(world, segments, part);
            let a = weight(world, one, part);
            let b = weight(world, two, part);
            counted(world, segments + seq![one, two], part) == (
                before.0 + a.0 + b.0,
                before.1 + a.1 + b.1,
            )
        }),
{
    lemma_one_more(world, segments, one, part);
    lemma_one_more(world, segments.push(one), two, part);
    assert(segments + seq![one, two] =~= segments.push(one).push(two));
}

proof fn lemma_four_more(
    world: World,
    segments: Seq<Segment>,
    one: Segment,
    two: Segment,
    three: Segment,
    four: Segment,
    part: RoutePart,
)
    ensures
        ({
            let before = counted(world, segments, part);
            let a = weight(world, one, part);
            let b = weight(world, two, part);
            let c = weight(world, three, part);
            let d = weight(world, four, part);
            counted(world, segments + seq![one, two, three, four], part) == (
                before.0 + a.0 + b.0 + c.0 + d.0,
                before.1 + a.1 + b.1 + c.1 + d.1,
            )
        }),
{
    lemma_two_more(world, segments, one, two, part);
    lemma_two_more(world, segments + seq![one, two], three, four, part);
    assert(segments + seq![one, two, three, four] =~= segments + seq![one, two] + seq![three, four]);
}

/// Routes that come one after the other count together what each of the two counts.
pub proof fn lemma_routes_add(
    world: World,
    one: Seq<Segment>,
    two: Seq<Segment>,
    part: RoutePart,
)
    ensures
        ({
            let a = counted(world, one, part);
            let b = counted(world, two, part);
            counted(world, one + two, part) == (a.0 + b.0, a.1 + b.1)
        }),
    decreases two.len(),
{
    if two.len() == 0 {
        assert(one + two =~= one);
    } else {
        lemma_routes_add(world, one, two.drop_last(), part);
        lemma_one_more(world, two.drop_last(), two.last(), part);
        assert(two.drop_last().push(two.last()) =~= two);
        lemma_one_more(world, one + two.drop_last(), two.last(), part);
        assert((one + two.drop_last()).push(two.last()) =~= one + two);
    }
}

proof fn lemma_edges_add(world: World, one: Seq<EdgeView>, two: Seq<EdgeView>, part: RoutePart)
    ensures
        ({
            let a = counted_over(world, one, part);
            let b = counted_over(world, two, part);
            counted_over(world, one + two, part) == (a.0 + b.0, a.1 + b.1)
        }),
    decreases two.len(),
{
    if two.len() == 0 {
        assert(one + two =~= one);
    } else {
        lemma_edges_add(world, one, two.drop_last(), part);
        assert((one + two).drop_last() =~= one + two.drop_last());
    }
}

/// The only edge of a net is the one to the first sink of its last slot.
pub open spec fn is_unshared(net: Net) -> bool {
    let last = net.channels@.len() - 1;
    &&& last >= 0
    &&& net.sinks@.len() == last + 1
    &&& net.sinks@[last]@.len() == 1
    &&& forall|slot: int| 0 <= slot < last ==> (#[trigger] net.sinks@[slot])@.len() == 0
    &&& net.bypass is Some ==> last == 0
}

/// A track that one column is reached on is the share of that column.
proof fn lemma_one_exit(from: i32, to: i32, y: i32, z: i32)
    ensures
        ({
            let reach = routing_stats::widened((from, from), to);
            routing_stats::full_track_cells(from, reach.0, reach.1, y, z)
                == routing_stats::track_cells(from, to, y, z)
        }),
{
    let reach = routing_stats::widened((from, from), to);
    assert(routing_stats::full_track_cells(from, reach.0, reach.1, y, z)
        =~= routing_stats::track_cells(from, to, y, z));
}

proof fn lemma_trunk(
    list: Netlist,
    compiled: CompiledCircuit,
    geometry: Geometry,
    net: Net,
    count: nat,
)
    requires
        is_unshared(net),
        0 < count < net.channels@.len(),
    ensures
        routing_stats::whole_slots(list, compiled, geometry, net, count)
            == routing_stats::fed_through(list, compiled, geometry, net, count),
    decreases count,
{
    let slot = count - 1;
    assert(net.sinks@[slot]@.len() == 0);
    let track = routing_stats::track_of(geometry, net, slot);
    lemma_one_exit(
        routing_stats::entry_column(net, slot),
        net.hops@[slot],
        track.y,
        track.z,
    );
    let share = routing_stats::track_share(geometry, net, slot, net.hops@[slot]);
    assert(routing_stats::whole_track(geometry, net, slot) == share);
    let before = routing_stats::whole_slots(list, compiled, geometry, net, slot as nat);
    let whole = routing_stats::whole_slots(list, compiled, geometry, net, count);
    let through = routing_stats::fed_through(list, compiled, geometry, net, count);
    if slot == 0 {
        reveal_with_fuel(routing_stats::fed_through, 2);
        assert(before =~= seq![]);
        assert(whole =~= through);
    } else {
        lemma_trunk(list, compiled, geometry, net, slot as nat);
        assert(whole =~= through);
    }
}

/// A net that reaches one gate is routed through what its edge runs through, in
/// the same order.
pub proof fn lemma_unshared_net(
    list: Netlist,
    compiled: CompiledCircuit,
    geometry: Geometry,
    net: Net,
)
    requires
        is_unshared(net),
    ensures
        ({
            let edges = routing_stats::net_edges(list, compiled, geometry, net);
            &&& edges.len() == 1
            &&& edges[0].segments == routing_stats::whole_net(list, compiled, geometry, net)
        }),
{
    let last = net.channels@.len() - 1;
    let edges = routing_stats::net_edges(list, compiled, geometry, net);
    if net.bypass is None {
        lemma_no_earlier_edges(list, compiled, geometry, net, last as nat);
        assert(edges =~= routing_stats::sink_edges(list, compiled, geometry, net, last, 1));
        let (gate, input) = net.sinks@[last]@[0];
        let x = routing_stats::approach_column(geometry, gate, input);
        let track = routing_stats::track_of(geometry, net, last);
        lemma_one_exit(routing_stats::entry_column(net, last), x, track.y, track.z);
        reveal_with_fuel(routing_stats::span, 2);
        assert(routing_stats::whole_track(geometry, net, last) == routing_stats::track_share(
            geometry,
            net,
            last,
            x,
        ));
        reveal_with_fuel(routing_stats::slot_sinks, 2);
        if last > 0 {
            lemma_trunk(list, compiled, geometry, net, last as nat);
        } else {
            assert(routing_stats::whole_slots(list, compiled, geometry, net, 0) =~= seq![]);
        }
        assert(edges[0].segments =~= routing_stats::whole_net(list, compiled, geometry, net));
    }
}

proof fn lemma_no_earlier_edges(
    list: Netlist,
    compiled: CompiledCircuit,
    geometry: Geometry,
    net: Net,
    count: nat,
)
    requires
        is_unshared(net),
        count < net.channels@.len(),
    ensures
        routing_stats::slot_edges(list, compiled, geometry, net, count) =~= Seq::<
            EdgeView,
        >::empty(),
    decreases count,
{
    if count > 0 {
        assert(net.sinks@[count - 1]@.len() == 0);
        lemma_no_earlier_edges(list, compiled, geometry, net, (count - 1) as nat);
    }
}

/// Where no two edges share a net, the edges count together what the router placed
/// in all.
pub proof fn lemma_unshared_circuit(
    list: Netlist,
    compiled: CompiledCircuit,
    geometry: Geometry,
    count: nat,
    part: RoutePart,
)
    requires
        count <= geometry.nets@.len(),
        forall|n: int| 0 <= n < count ==> is_unshared(#[trigger] geometry.nets@[n]),
    ensures
        counted(
            compiled.world,
            routing_stats::whole_nets(list, compiled, geometry, count),
            part,
        ) == counted_over(
            compiled.world,
            routing_stats::all_edges(list, compiled, geometry, count),
            part,
        ),
    decreases count,
{
    let world = compiled.world;
    if count > 0 {
        let net = geometry.nets@[count - 1];
        lemma_unshared_circuit(list, compiled, geometry, (count - 1) as nat, part);
        lemma_unshared_net(list, compiled, geometry, net);
        let edges = routing_stats::net_edges(list, compiled, geometry, net);
        assert(edges.drop_last() =~= Seq::<EdgeView>::empty());
        assert(counted_over(world, edges.drop_last(), part) == (0nat, 0nat));
        lemma_routes_add(
            world,
            routing_stats::whole_nets(list, compiled, geometry, (count - 1) as nat),
            routing_stats::whole_net(list, compiled, geometry, net),
            part,
        );
        lemma_edges_add(
            world,
            routing_stats::all_edges(list, compiled, geometry, (count - 1) as nat),
            edges,
            part,
        );
    }
}

/// The shares of a slot's track that lead to its first `count` sinks.
spec fn shares(geometry: Geometry, net: Net, slot: int, count: nat) -> Seq<Segment>
    decreases count,
{
    if count == 0 {
        seq![]
    } else {
        let (gate, input) = net.sinks@[slot]@[count - 1];
        shares(geometry, net, slot, (count - 1) as nat).push(
            routing_stats::track_share(
                geometry,
                net,
                slot,
                routing_stats::approach_column(geometry, gate, input),
            ),
        )
    }
}

/// What leads from the ramp of a slot to its first `count` sinks, one after the
/// other.
spec fn branches(list: Netlist, geometry: Geometry, net: Net, slot: int, count: nat) -> Seq<
    Segment,
>
    decreases count,
{
    if count == 0 {
        seq![]
    } else {
        let (gate, input) = net.sinks@[slot]@[count - 1];
        let x = routing_stats::approach_column(geometry, gate, input);
        branches(list, geometry, net, slot, (count - 1) as nat).push(
            routing_stats::track_share(geometry, net, slot, x),
        ) + seq![
            routing_stats::ramp_down(geometry, net, slot, x),
            routing_stats::gate_entry(list, geometry, net, slot, gate, input),
        ]
    }
}

/// The branches of the first `count` slots.
spec fn all_branches(list: Netlist, geometry: Geometry, net: Net, count: nat) -> Seq<Segment>
    decreases count,
{
    if count == 0 {
        seq![]
    } else {
        all_branches(list, geometry, net, (count - 1) as nat) + branches(
            list,
            geometry,
            net,
            count - 1,
            net.sinks@[count - 1]@.len(),
        )
    }
}

/// A track that reaches one column more counts at most the share of that column
/// more.
proof fn lemma_track_widens(world: World, from: i32, span: (i32, i32), x: i32, y: i32, z: i32)
    requires
        span.0 <= from <= span.1,
    ensures
        ({
            let reach = routing_stats::widened(span, x);
            let before = routing_stats::tally(
                world,
                routing_stats::full_track_cells(from, span.0, span.1, y, z),
            );
            let share = routing_stats::tally(world, routing_stats::track_cells(from, x, y, z));
            let after = routing_stats::tally(
                world,
                routing_stats::full_track_cells(from, reach.0, reach.1, y, z),
            );
            &&& reach.0 <= from <= reach.1
            &&& after.0 <= before.0 + share.0
            &&& after.1 <= before.1 + share.1
        }),
{
    let reach = routing_stats::widened(span, x);
    let none = Seq::<Position>::empty();
    let west = if span.0 < from {
        routing_stats::track_cells(from, span.0, y, z)
    } else {
        none
    };
    let east = if span.1 > from {
        routing_stats::track_cells(from, span.1, y, z)
    } else {
        none
    };
    let share = routing_stats::track_cells(from, x, y, z);
    routing_stats::lemma_tally_adds(world, west, east);
    routing_stats::lemma_tally_adds(world, share, east);
    routing_stats::lemma_tally_adds(world, west, share);
    assert(routing_stats::full_track_cells(from, span.0, span.1, y, z) == west + east);
    if x < span.0 {
        assert(routing_stats::full_track_cells(from, reach.0, reach.1, y, z) == share + east);
    } else if x > span.1 {
        assert(routing_stats::full_track_cells(from, reach.0, reach.1, y, z) == west + share);
    }
}

/// A slot's track counts no more than its shares, that of the feed-through among
/// them.
proof fn lemma_track_within(world: World, geometry: Geometry, net: Net, slot: int, count: nat)
    ensures
        ({
            let track = routing_stats::track_of(geometry, net, slot);
            let from = routing_stats::entry_column(net, slot);
            let (lo, hi) = routing_stats::span(geometry, net, slot, count);
            let whole = routing_stats::tally(
                world,
                routing_stats::full_track_cells(from, lo, hi, track.y, track.z),
            );
            let parts = counted(world, shares(geometry, net, slot, count), RoutePart::Track);
            let on = weight(
                world,
                routing_stats::track_share(geometry, net, slot, net.hops@[slot]),
                RoutePart::Track,
            );
            &&& lo <= from <= hi
            &&& slot + 1 < net.channels@.len() ==> whole.0 <= parts.0 + on.0 && whole.1 <= parts.1
                + on.1
            &&& slot + 1 >= net.channels@.len() ==> whole.0 <= parts.0 && whole.1 <= parts.1
        }),
    decreases count,
{
    let track = routing_stats::track_of(geometry, net, slot);
    let from = routing_stats::entry_column(net, slot);
    if count == 0 {
        assert(routing_stats::full_track_cells(from, from, from, track.y, track.z) =~= seq![]);
        lemma_track_widens(world, from, (from, from), net.hops@[slot], track.y, track.z);
    } else {
        lemma_track_within(world, geometry, net, slot, (count - 1) as nat);
        let (gate, input) = net.sinks@[slot]@[count - 1];
        let x = routing_stats::approach_column(geometry, gate, input);
        let span = routing_stats::span(geometry, net, slot, (count - 1) as nat);
        lemma_track_widens(world, from, span, x, track.y, track.z);
        lemma_one_more(
            world,
            shares(geometry, net, slot, (count - 1) as nat),
            routing_stats::track_share(geometry, net, slot, x),
            RoutePart::Track,
        );
    }
}

/// A slot and the shares of its track count what its head and its branches count.
proof fn lemma_slot_balances(
    list: Netlist,
    compiled: CompiledCircuit,
    geometry: Geometry,
    net: Net,
    slot: int,
    count: nat,
    part: RoutePart,
)
    ensures
        ({
            let world = compiled.world;
            let sinks = counted(
                world,
                routing_stats::slot_sinks(list, compiled, geometry, net, slot, count),
                part,
            );
            let some = counted(world, shares(geometry, net, slot, count), part);
            let head = counted(
                world,
                routing_stats::slot_head(list, compiled, geometry, net, slot),
                part,
            );
            let own = counted(world, branches(list, geometry, net, slot, count), part);
            &&& sinks.0 + some.0 == head.0 + own.0
            &&& sinks.1 + some.1 == head.1 + own.1
        }),
    decreases count,
{
    let world = compiled.world;
    if count > 0 {
        let before = (count - 1) as nat;
        lemma_slot_balances(list, compiled, geometry, net, slot, before, part);
        let (gate, input) = net.sinks@[slot]@[count - 1];
        let x = routing_stats::approach_column(geometry, gate, input);
        let share = routing_stats::track_share(geometry, net, slot, x);
        let down = routing_stats::ramp_down(geometry, net, slot, x);
        let entry = routing_stats::gate_entry(list, geometry, net, slot, gate, input);
        lemma_one_more(world, shares(geometry, net, slot, before), share, part);
        lemma_one_more(world, branches(list, geometry, net, slot, before), share, part);
        lemma_two_more(
            world,
            branches(list, geometry, net, slot, before).push(share),
            down,
            entry,
            part,
        );
        lemma_two_more(
            world,
            routing_stats::slot_sinks(list, compiled, geometry, net, slot, before),
            down,
            entry,
            part,
        );
    }
}

/// The column from the pin, in the first slot.
spec fn column_at(
    list: Netlist,
    compiled: CompiledCircuit,
    geometry: Geometry,
    net: Net,
    slot: int,
) -> Seq<Segment> {
    if slot == 0 {
        seq![routing_stats::column_in(list, compiled, geometry, net)]
    } else {
        seq![]
    }
}

/// A slot counts no more than what feeds it through and its branches.
proof fn lemma_slot_within(
    list: Netlist,
    compiled: CompiledCircuit,
    geometry: Geometry,
    net: Net,
    slot: int,
    part: RoutePart,
)
    ensures
        ({
            let world = compiled.world;
            let whole = counted(
                world,
                routing_stats::whole_slot(list, compiled, geometry, net, slot),
                part,
            );
            let column = counted(world, column_at(list, compiled, geometry, net, slot), part);
            let up = weight(world, routing_stats::ramp_up(geometry, net, slot), part);
            let own = counted(
                world,
                branches(list, geometry, net, slot, net.sinks@[slot]@.len()),
                part,
            );
            let hop = net.hops@[slot];
            let share = weight(world, routing_stats::track_share(geometry, net, slot, hop), part);
            let down = weight(world, routing_stats::ramp_down(geometry, net, slot, hop), part);
            let on = weight(world, routing_stats::column_on(geometry, net, slot), part);
            if slot + 1 < net.channels@.len() {
                &&& whole.0 <= column.0 + up.0 + share.0 + down.0 + on.0 + own.0
                &&& whole.1 <= column.1 + up.1 + share.1 + down.1 + on.1 + own.1
            } else {
                &&& whole.0 <= column.0 + up.0 + own.0
                &&& whole.1 <= column.1 + up.1 + own.1
            }
        }),
{
    let world = compiled.world;
    let count = net.sinks@[slot]@.len();
    let sinks = routing_stats::slot_sinks(list, compiled, geometry, net, slot, count);
    lemma_slot_balances(list, compiled, geometry, net, slot, count, part);
    lemma_track_within(world, geometry, net, slot, count);
    lemma_two_more(
        world,
        column_at(list, compiled, geometry, net, slot),
        routing_stats::ramp_up(geometry, net, slot),
        routing_stats::whole_track(geometry, net, slot),
        part,
    );
    if slot + 1 < net.channels@.len() {
        lemma_two_more(
            world,
            sinks,
            routing_stats::ramp_down(geometry, net, slot, net.hops@[slot]),
            routing_stats::column_on(geometry, net, slot),
            part,
        );
    } else {
        assert(routing_stats::whole_slot(list, compiled, geometry, net, slot) =~= sinks);
    }
}

/// The slots of a net up to one of them count no more than the way through them
/// and their branches.
proof fn lemma_slots_within(
    list: Netlist,
    compiled: CompiledCircuit,
    geometry: Geometry,
    net: Net,
    count: nat,
    part: RoutePart,
)
    requires
        count < net.channels@.len(),
    ensures
        ({
            let world = compiled.world;
            let whole = counted(
                world,
                routing_stats::whole_slots(list, compiled, geometry, net, count),
                part,
            );
            let column = counted(
                world,
                column_at(list, compiled, geometry, net, count as int),
                part,
            );
            let through = counted(
                world,
                routing_stats::fed_through(list, compiled, geometry, net, count),
                part,
            );
            let own = counted(world, all_branches(list, geometry, net, count), part);
            &&& whole.0 + column.0 <= through.0 + own.0
            &&& whole.1 + column.1 <= through.1 + own.1
        }),
    decreases count,
{
    let world = compiled.world;
    if count > 0 {
        let slot = count - 1;
        lemma_slots_within(list, compiled, geometry, net, slot as nat, part);
        lemma_slot_within(list, compiled, geometry, net, slot, part);
        lemma_routes_add(
            world,
            routing_stats::whole_slots(list, compiled, geometry, net, slot as nat),
            routing_stats::whole_slot(list, compiled, geometry, net, slot),
            part,
        );
        lemma_routes_add(
            world,
            all_branches(list, geometry, net, slot as nat),
            branches(list, geometry, net, slot, net.sinks@[slot]@.len()),
            part,
        );
        lemma_four_more(
            world,
            routing_stats::fed_through(list, compiled, geometry, net, slot as nat),
            routing_stats::ramp_up(geometry, net, slot),
            routing_stats::track_share(geometry, net, slot, net.hops@[slot]),
            routing_stats::ramp_down(geometry, net, slot, net.hops@[slot]),
            routing_stats::column_on(geometry, net, slot),
            part,
        );
    }
}

/// The edges to the sinks of a slot count at least their branches, and once more
/// the way to the slot where there is a sink.
proof fn lemma_sinks_cover(
    list: Netlist,
    compiled: CompiledCircuit,
    geometry: Geometry,
    net: Net,
    slot: nat,
    count: nat,
    part: RoutePart,
)
    requires
        net.bypass is None,
    ensures
        ({
            let world = compiled.world;
            let edges = counted_over(
                world,
                routing_stats::sink_edges(list, compiled, geometry, net, slot as int, count),
                part,
            );
            let own = counted(world, branches(list, geometry, net, slot as int, count), part);
            let through = counted(
                world,
                routing_stats::fed_through(list, compiled, geometry, net, slot),
                part,
            );
            let up = weight(world, routing_stats::ramp_up(geometry, net, slot as int), part);
            &&& own.0 <= edges.0
            &&& own.1 <= edges.1
            &&& count > 0 ==> own.0 + through.0 + up.0 <= edges.0
            &&& count > 0 ==> own.1 + through.1 + up.1 <= edges.1
        }),
    decreases count,
{
    let world = compiled.world;
    let edges = routing_stats::sink_edges(list, compiled, geometry, net, slot as int, count);
    if count > 0 {
        let before = (count - 1) as nat;
        lemma_sinks_cover(list, compiled, geometry, net, slot, before, part);
        assert(edges.drop_last() =~= routing_stats::sink_edges(
            list,
            compiled,
            geometry,
            net,
            slot as int,
            before,
        ));
        let (gate, input) = net.sinks@[slot as int]@[count - 1];
        let x = routing_stats::approach_column(geometry, gate, input);
        let up = routing_stats::ramp_up(geometry, net, slot as int);
        let share = routing_stats::track_share(geometry, net, slot as int, x);
        let down = routing_stats::ramp_down(geometry, net, slot as int, x);
        let entry = routing_stats::gate_entry(list, geometry, net, slot as int, gate, input);
        lemma_four_more(
            world,
            routing_stats::fed_through(list, compiled, geometry, net, slot),
            up,
            share,
            down,
            entry,
            part,
        );
        let some = branches(list, geometry, net, slot as int, before);
        lemma_one_more(world, some, share, part);
        lemma_two_more(world, some.push(share), down, entry, part);
    }
}

proof fn lemma_slots_cover(
    list: Netlist,
    compiled: CompiledCircuit,
    geometry: Geometry,
    net: Net,
    count: nat,
    part: RoutePart,
)
    requires
        net.bypass is None,
    ensures
        ({
            let edges = counted_over(
                compiled.world,
                routing_stats::slot_edges(list, compiled, geometry, net, count),
                part,
            );
            let own = counted(compiled.world, all_branches(list, geometry, net, count), part);
            own.0 <= edges.0 && own.1 <= edges.1
        }),
    decreases count,
{
    let world = compiled.world;
    if count > 0 {
        let slot = (count - 1) as nat;
        let sinks = net.sinks@[slot as int]@.len();
        lemma_slots_cover(list, compiled, geometry, net, slot, part);
        lemma_sinks_cover(list, compiled, geometry, net, slot, sinks, part);
        lemma_edges_add(
            world,
            routing_stats::slot_edges(list, compiled, geometry, net, slot),
            routing_stats::sink_edges(list, compiled, geometry, net, slot as int, sinks),
            part,
        );
        lemma_routes_add(
            world,
            all_branches(list, geometry, net, slot),
            branches(list, geometry, net, slot as int, sinks),
            part,
        );
    }
}

/// A net goes no further than the last slot in which it reaches a gate.
pub open spec fn ends_at_a_gate(net: Net) -> bool {
    &&& net.channels@.len() > 0
    &&& net.sinks@.len() == net.channels@.len()
    &&& net.sinks@[net.sinks@.len() - 1]@.len() > 0
    &&& net.bypass is Some ==> net.sinks@[0]@.len() > 0
}

/// No part of a net counts more than it does over the edges of the net.
pub proof fn lemma_net_within_its_edges(
    list: Netlist,
    compiled: CompiledCircuit,
    geometry: Geometry,
    net: Net,
    part: RoutePart,
)
    requires
        ends_at_a_gate(net),
    ensures
        ({
            let whole = counted(
                compiled.world,
                routing_stats::whole_net(list, compiled, geometry, net),
                part,
            );
            let edges = counted_over(
                compiled.world,
                routing_stats::net_edges(list, compiled, geometry, net),
                part,
            );
            whole.0 <= edges.0 && whole.1 <= edges.1
        }),
{
    let world = compiled.world;
    let edges = routing_stats::net_edges(list, compiled, geometry, net);
    if net.bypass is Some {
        assert(edges.drop_last() =~= Seq::<EdgeView>::empty());
        assert(counted_over(world, edges.drop_last(), part) == (0nat, 0nat));
        assert(edges.last().segments =~= routing_stats::whole_net(list, compiled, geometry, net));
    } else {
        let last = (net.channels@.len() - 1) as nat;
        let sinks = net.sinks@[last as int]@.len();
        lemma_slots_within(list, compiled, geometry, net, last, part);
        lemma_slot_within(list, compiled, geometry, net, last as int, part);
        lemma_slots_cover(list, compiled, geometry, net, last, part);
        lemma_sinks_cover(list, compiled, geometry, net, last, sinks, part);
        lemma_routes_add(
            world,
            routing_stats::whole_slots(list, compiled, geometry, net, last),
            routing_stats::whole_slot(list, compiled, geometry, net, last as int),
            part,
        );
        lemma_edges_add(
            world,
            routing_stats::slot_edges(list, compiled, geometry, net, last),
            routing_stats::sink_edges(list, compiled, geometry, net, last as int, sinks),
            part,
        );
    }
}

/// What edges share counts once in what the router placed, and once for each of
/// them over the edges: so no part of what was placed counts more than it does over
/// the edges.
pub proof fn lemma_circuit_within_its_edges(
    list: Netlist,
    compiled: CompiledCircuit,
    geometry: Geometry,
    count: nat,
    part: RoutePart,
)
    requires
        count <= geometry.nets@.len(),
        forall|n: int| 0 <= n < count ==> ends_at_a_gate(#[trigger] geometry.nets@[n]),
    ensures
        ({
            let whole = counted(
                compiled.world,
                routing_stats::whole_nets(list, compiled, geometry, count),
                part,
            );
            let edges = counted_over(
                compiled.world,
                routing_stats::all_edges(list, compiled, geometry, count),
                part,
            );
            whole.0 <= edges.0 && whole.1 <= edges.1
        }),
    decreases count,
{
    let world = compiled.world;
    if count > 0 {
        let net = geometry.nets@[count - 1];
        lemma_circuit_within_its_edges(list, compiled, geometry, (count - 1) as nat, part);
        lemma_net_within_its_edges(list, compiled, geometry, net, part);
        lemma_routes_add(
            world,
            routing_stats::whole_nets(list, compiled, geometry, (count - 1) as nat),
            routing_stats::whole_net(list, compiled, geometry, net),
            part,
        );
        lemma_edges_add(
            world,
            routing_stats::all_edges(list, compiled, geometry, (count - 1) as nat),
            routing_stats::net_edges(list, compiled, geometry, net),
            part,
        );
    }
}

/// What the router placed in all is what it placed part by part, added up.
pub proof fn lemma_totals_add_up(
    world: World,
    segments: Seq<Segment>,
    parts: RouteParts,
    sum: PartTotals,
)
    requires
        parts.counts(world, routing_stats::route(segments)),
        sum.is_count(routing_stats::whole_count(world, routing_stats::route(segments))),
    ensures
        sum.length == routing_stats::sum_length(parts),
        sum.repeaters == routing_stats::sum_repeaters(parts),
{
    let cells = routing_stats::route(segments);
    assert forall|part: RoutePart|
        (#[trigger] routing_stats::part_or_none(parts, part)).is_count(
            routing_stats::part_count(world, cells, part),
        ) by {
        assert(parts.entry(part) is Some || parts.entry(part) is None);
    }
    assert(routing_stats::part_or_none(parts, RoutePart::Column).length >= 0);
    assert(routing_stats::part_or_none(parts, RoutePart::Ramp).length >= 0);
    assert(routing_stats::part_or_none(parts, RoutePart::Track).length >= 0);
    assert(routing_stats::part_or_none(parts, RoutePart::GateEntry).length >= 0);
    assert(routing_stats::part_or_none(parts, RoutePart::Bypass).length >= 0);
}

/// A cell that holds a repeater.
pub open spec fn is_repeater(world: World, cell: Position) -> bool {
    world.at(cell.x as int, cell.y as int, cell.z as int).kind is Repeater
}

/// The repeaters of the world.
pub open spec fn repeaters(world: World) -> Set<Position> {
    Set::new(|cell: Position| is_repeater(world, cell))
}

/// The cells of one part, none if the route has no such part.
pub open spec fn cells_of(cells: Map<RoutePart, Seq<Position>>, part: RoutePart) -> Seq<Position> {
    if cells.dom().contains(part) {
        cells[part]
    } else {
        Seq::empty()
    }
}

/// Every cell a route runs through, part by part.
pub open spec fn all_cells(cells: Map<RoutePart, Seq<Position>>) -> Seq<Position> {
    cells_of(cells, RoutePart::Column) + cells_of(cells, RoutePart::Ramp) + cells_of(
        cells,
        RoutePart::Track,
    ) + cells_of(cells, RoutePart::GateEntry) + cells_of(cells, RoutePart::Bypass)
}

/// No repeater is run through twice.
pub open spec fn none_twice(world: World, cells: Seq<Position>) -> bool {
    forall|i: int, j: int|
        0 <= i < j < cells.len() && #[trigger] cells[i] == #[trigger] cells[j] ==> !is_repeater(
            world,
            cells[i],
        )
}

spec fn met(world: World, cells: Seq<Position>) -> Set<Position> {
    Set::new(|cell: Position| cells.contains(cell) && is_repeater(world, cell))
}

proof fn lemma_met(world: World, cells: Seq<Position>)
    ensures
        met(world, cells).finite(),
        routing_stats::tally(world, cells).1 >= met(world, cells).len(),
        routing_stats::tally(world, cells).1 == met(world, cells).len() <==> none_twice(
            world,
            cells,
        ),
    decreases cells.len(),
{
    if cells.len() == 0 {
        assert(met(world, cells) =~= Set::empty());
    } else {
        let rest = cells.drop_last();
        let last = cells.last();
        let at = cells.len() - 1;
        lemma_met(world, rest);
        assert forall|cell: Position| cells.contains(cell) <==> rest.contains(cell) || cell
            == last by {
            if cells.contains(cell) {
                let i = choose|i: int| 0 <= i < cells.len() && cells[i] == cell;
                if i < at {
                    assert(rest[i] == cell);
                }
            }
            if rest.contains(cell) {
                let i = choose|i: int| 0 <= i < rest.len() && rest[i] == cell;
                assert(cells[i] == cell);
            }
            if cell == last {
                assert(cells[at] == cell);
            }
        }
        if none_twice(world, cells) {
            assert forall|i: int, j: int|
                0 <= i < j < rest.len() && #[trigger] rest[i] == #[trigger] rest[j] implies !is_repeater(
                world,
                rest[i],
            ) by {
                assert(cells[i] == cells[j]);
            }
        }
        if !is_repeater(world, last) || !rest.contains(last) {
            if none_twice(world, rest) {
                assert forall|i: int, j: int|
                    0 <= i < j < cells.len() && #[trigger] cells[i] == #[trigger] cells[j] implies !is_repeater(
                    world,
                    cells[i],
                ) by {
                    if j < at {
                        assert(rest[i] == rest[j]);
                    } else {
                        assert(rest[i] == last);
                    }
                }
            }
        }
        if !is_repeater(world, last) {
            assert(met(world, cells) =~= met(world, rest));
        } else if rest.contains(last) {
            assert(met(world, cells) =~= met(world, rest));
            let i = choose|i: int| 0 <= i < rest.len() && rest[i] == last;
            assert(cells[i] == cells[at]);
        } else {
            assert(met(world, cells) =~= met(world, rest).insert(last));
        }
    }
}

/// Where a circuit's routes run through every repeater of its world, the totals count
/// at least as many as there are, and exactly as many if and only if none is run
/// through twice.
pub proof fn lemma_totals_match_the_world(world: World, segments: Seq<Segment>)
    requires
        forall|cell: Position|
            is_repeater(world, cell) ==> #[trigger] all_cells(
                routing_stats::route(segments),
            ).contains(cell),
    ensures
        repeaters(world).finite(),
        routing_stats::whole_count(world, routing_stats::route(segments)).1 >= repeaters(
            world,
        ).len(),
        routing_stats::whole_count(world, routing_stats::route(segments)).1 == repeaters(
            world,
        ).len() <==> none_twice(world, all_cells(routing_stats::route(segments))),
{
    let cells = routing_stats::route(segments);
    let column = cells_of(cells, RoutePart::Column);
    let ramp = cells_of(cells, RoutePart::Ramp);
    let track = cells_of(cells, RoutePart::Track);
    let entry = cells_of(cells, RoutePart::GateEntry);
    let bypass = cells_of(cells, RoutePart::Bypass);
    routing_stats::lemma_tally_adds(world, column, ramp);
    routing_stats::lemma_tally_adds(world, column + ramp, track);
    routing_stats::lemma_tally_adds(world, column + ramp + track, entry);
    routing_stats::lemma_tally_adds(world, column + ramp + track + entry, bypass);
    lemma_met(world, all_cells(cells));
    assert(repeaters(world) =~= met(world, all_cells(cells))) by {
        assert forall|cell: Position| repeaters(world).contains(cell) implies met(
            world,
            all_cells(cells),
        ).contains(cell) by {
            assert(all_cells(cells).contains(cell));
        }
    }
}

} // verus!
