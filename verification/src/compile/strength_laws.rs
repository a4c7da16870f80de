//! What the comparison of walked and settled worlds promises, apart from how it is
//! computed.

use crate::compile::circuit;
use crate::compile::netlist;
use crate::compile::netlist::Netlist;
use crate::compile::routing_stats::{Net, Source};
use crate::compile::strength_differential;
use crate::compile::strength_differential::{
    BlockPower, CellClass, CellPower, Direction, GroupReport, GroupRun, GroupWalk,
    OriginIsolation, Reading, Settled, SignalViolation,
};
use crate::redstone::block::BlockKind;
use crate::redstone::position::Position;
use crate::redstone::world::World;
use vstd::arithmetic::power2;
use vstd::prelude::*;

verus! {

/// A settled cell carries nothing exactly if its block sends out no power and is not
/// powered. What it carries is what it sends out, where it sends any out, and else how
/// strongly it is powered; at least one, where either is the case.
pub proof fn lemma_what_a_cell_carries(power: CellPower)
    ensures
        strength_differential::carries(power) == 0 <==> !power.emits && power.power
            == BlockPower::Unpowered,
        power.emits && power.emitted > 0 ==> strength_differential::carries(power)
            == power.emitted,
        !power.emits && power.power != BlockPower::Unpowered && power.strength > 0
            ==> strength_differential::carries(power) == power.strength,
        power.emits && power.emitted == 0 ==> strength_differential::carries(power) == 1,
        !power.emits && power.power != BlockPower::Unpowered && power.strength == 0
            ==> strength_differential::carries(power) == 1,
{
}

/// What an origin delivers to a cell, alone: nothing, unless it emits.
pub open spec fn delivered(one: OriginIsolation, cell: Position) -> u8 {
    if one.emits {
        strength_differential::carries(one.settled.power_at(cell))
    } else {
        0
    }
}

/// The origin delivers so much to a cell, and none of the first `count` after it as much.
pub open spec fn last_to_deliver(
    isolations: Seq<OriginIsolation>,
    cell: Position,
    count: nat,
    at: int,
    value: u8,
) -> bool {
    &&& 0 <= at < count
    &&& delivered(isolations[at], cell) == value
    &&& forall|j: int| at < j < count ==> delivered(#[trigger] isolations[j], cell) < value
}

/// What is found to be delivered to a cell is the most that any origin delivers there:
/// every emitting origin delivers at most that much, one delivers just that much and is
/// the one named, and none after it delivers as much. Nothing is found exactly if no
/// emitting origin delivers anything.
pub proof fn lemma_solo_is_the_most_of_any_origin(
    isolations: Seq<OriginIsolation>,
    cell: Position,
    count: nat,
)
    requires
        count <= isolations.len(),
    ensures
        match strength_differential::best_alone(isolations, cell, count) {
            Some((origin, most)) => {
                &&& most > 0
                &&& forall|i: int|
                    0 <= i < count ==> delivered(#[trigger] isolations[i], cell) <= most
                &&& exists|i: int| #[trigger]
                    last_to_deliver(isolations, cell, count, i, most) && isolations[i].origin
                        == origin
            },
            None => forall|i: int|
                0 <= i < count ==> delivered(#[trigger] isolations[i], cell) == 0,
        },
{
    lemma_none_delivers_more(isolations, cell, count);
    lemma_one_delivers_the_most(isolations, cell, count);
}

proof fn lemma_none_delivers_more(isolations: Seq<OriginIsolation>, cell: Position, count: nat)
    requires
        count <= isolations.len(),
    ensures
        match strength_differential::best_alone(isolations, cell, count) {
            Some((origin, most)) => most > 0 && forall|i: int|
                0 <= i < count ==> delivered(#[trigger] isolations[i], cell) <= most,
            None => forall|i: int|
                0 <= i < count ==> delivered(#[trigger] isolations[i], cell) == 0,
        },
    decreases count,
{
    if count > 0 {
        lemma_none_delivers_more(isolations, cell, (count - 1) as nat);
    }
}

proof fn lemma_one_delivers_the_most(isolations: Seq<OriginIsolation>, cell: Position, count: nat)
    requires
        count <= isolations.len(),
    ensures
        strength_differential::best_alone(isolations, cell, count) matches Some((origin, most))
            ==> exists|i: int| #[trigger]
            last_to_deliver(isolations, cell, count, i, most) && isolations[i].origin == origin,
    decreases count,
{
    if count > 0 {
        let fewer = (count - 1) as nat;
        let before = strength_differential::best_alone(isolations, cell, fewer);
        let best = strength_differential::best_alone(isolations, cell, count);
        let last = isolations[count - 1];
        lemma_none_delivers_more(isolations, cell, count);
        if best is Some {
            let (origin, most) = best->0;
            if best == before && delivered(last, cell) < most {
                lemma_one_delivers_the_most(isolations, cell, fewer);
                let i = choose|i: int| #[trigger]
                    last_to_deliver(isolations, cell, fewer, i, most) && isolations[i].origin
                        == origin;
                assert(last_to_deliver(isolations, cell, fewer, i, most));
                assert(last_to_deliver(isolations, cell, count, i, most));
            } else {
                assert(best == Some((last.origin, delivered(last, cell))));
                assert(last_to_deliver(isolations, cell, count, count - 1, most));
            }
        }
    }
}

/// A report reads each of its cells as the worlds have it: what the walk recorded and the
/// settled worlds carry there, and of the origins alone the most that any delivers, by the
/// last that delivers it. Every cell of the group, every sink and every recorded cell has
/// a reading, and no cell two.
pub proof fn lemma_a_report_reads_the_worlds(
    report: GroupReport,
    realised: World,
    walk: GroupWalk,
    net_names: Seq<String>,
    sinks: Seq<Position>,
    levers: Seq<(String, Position)>,
    bits: Seq<bool>,
    live: Settled,
    control: Settled,
    isolations: Seq<OriginIsolation>,
)
    requires
        report.is_report(
            realised,
            walk,
            net_names,
            sinks,
            levers,
            bits,
            live,
            control,
            isolations,
        ),
    ensures
        forall|k: int|
            0 <= k < report.readings@.len() ==> {
                let reading = #[trigger] report.readings@[k];
                let cell = reading.cell;
                &&& reading.is_sink == sinks.contains(cell)
                &&& reading.kind == live.world.at(cell.x as int, cell.y as int, cell.z as int).kind
                &&& reading.live == strength_differential::carries(live.power_at(cell))
                &&& reading.control == strength_differential::carries(control.power_at(cell))
                &&& reading.walk == strength_differential::recorded_at(walk.strength@, cell)
                &&& reading.live_strong == (live.power_at(cell).power == BlockPower::Strong)
                &&& forall|i: int|
                    0 <= i < isolations.len() ==> delivered(#[trigger] isolations[i], cell)
                        <= reading.solo
                &&& reading.solo > 0 ==> exists|i: int| #[trigger]
                    last_to_deliver(isolations, cell, isolations.len(), i, reading.solo)
                        && reading.solo_origin == Some(isolations[i].origin)
                &&& reading.solo == 0 ==> reading.solo_origin is None
            },
        forall|k: int, m: int|
            0 <= k < m < report.readings@.len() ==> (#[trigger] report.readings@[k]).cell != (
            #[trigger] report.readings@[m]).cell,
        forall|cell: Position|
            #![trigger sinks.contains(cell)]
            #![trigger walk.cells@.contains(cell)]
            sinks.contains(cell) || walk.cells@.contains(cell) || (exists|i: int|
                0 <= i < walk.strength@.len() && (#[trigger] walk.strength@[i]).0 == cell)
                ==> exists|k: int|
                0 <= k < report.readings@.len() && (#[trigger] report.readings@[k]).cell == cell,
        report.readings@.len() > 0 && sinks.len() > 0 ==> report.readings@[0].cell == sinks[0],
{
    let (own, recorded) = choose|own: Seq<Position>, recorded: Seq<Position>|
        #![trigger strength_differential::cells_to_read(sinks, own, recorded)]
        crate::compile::cells::lists(own, walk.cells@.to_set()) && crate::compile::cells::lists(
            recorded,
            strength_differential::recorded_cells(walk.strength@).to_set(),
        ) && report.readings@ == strength_differential::readings_at(
            realised,
            sinks,
            walk.strength@,
            live,
            control,
            isolations,
            strength_differential::cells_to_read(sinks, own, recorded),
        );
    let list = strength_differential::cells_to_read(sinks, own, recorded);
    let seen = strength_differential::first_seen(list);
    strength_differential::lemma_each_cell_is_read_once(list);
    assert forall|k: int| 0 <= k < report.readings@.len() implies {
        let reading = #[trigger] report.readings@[k];
        let cell = reading.cell;
        &&& reading.is_sink == sinks.contains(cell)
        &&& reading.kind == live.world.at(cell.x as int, cell.y as int, cell.z as int).kind
        &&& reading.live == strength_differential::carries(live.power_at(cell))
        &&& reading.control == strength_differential::carries(control.power_at(cell))
        &&& reading.walk == strength_differential::recorded_at(walk.strength@, cell)
        &&& reading.live_strong == (live.power_at(cell).power == BlockPower::Strong)
        &&& forall|i: int|
            0 <= i < isolations.len() ==> delivered(#[trigger] isolations[i], cell) <= reading.solo
        &&& reading.solo > 0 ==> exists|i: int| #[trigger]
            last_to_deliver(isolations, cell, isolations.len(), i, reading.solo)
                && reading.solo_origin == Some(isolations[i].origin)
        &&& reading.solo == 0 ==> reading.solo_origin is None
    } by {
        lemma_solo_is_the_most_of_any_origin(isolations, seen[k], isolations.len());
    }
    assert forall|k: int, m: int| 0 <= k < m < report.readings@.len() implies (
    #[trigger] report.readings@[k]).cell != (#[trigger] report.readings@[m]).cell by {
        assert(seen[k] != seen[m]);
    }
    assert forall|cell: Position|
        #![trigger sinks.contains(cell)]
        #![trigger walk.cells@.contains(cell)]
        sinks.contains(cell) || walk.cells@.contains(cell) || (exists|i: int|
            0 <= i < walk.strength@.len() && (#[trigger] walk.strength@[i]).0 == cell) implies exists|
        k: int,
    | 0 <= k < report.readings@.len() && (#[trigger] report.readings@[k]).cell == cell by {
        lemma_which_cells_are_read(sinks, own, recorded, cell);
        if walk.cells@.contains(cell) {
            assert(walk.cells@.to_set().contains(cell));
            assert(own.to_set().contains(cell));
        }
        if exists|i: int|
            0 <= i < walk.strength@.len() && (#[trigger] walk.strength@[i]).0 == cell {
            let i = choose|i: int|
                0 <= i < walk.strength@.len() && (#[trigger] walk.strength@[i]).0 == cell;
            let noted = strength_differential::recorded_cells(walk.strength@);
            assert(noted[i] == cell);
            assert(noted.to_set().contains(cell));
            assert(recorded.to_set().contains(cell));
        }
        assert(seen.contains(cell));
        let k = choose|k: int| 0 <= k < seen.len() && seen[k] == cell;
        assert(report.readings@[k].cell == cell);
    }
    if sinks.len() > 0 {
        lemma_first_stays_first(list);
    }
}

proof fn lemma_first_stays_first(list: Seq<Position>)
    requires
        list.len() > 0,
    ensures
        strength_differential::first_seen(list).len() > 0,
        strength_differential::first_seen(list)[0] == list[0],
    decreases list.len(),
{
    if list.len() > 1 {
        lemma_first_stays_first(list.drop_last());
    } else {
        assert(strength_differential::first_seen(list.drop_last()) =~= seq![]);
    }
}

/// What the walk recorded at a cell is the value of the first entry for the cell, and
/// zero where there is no entry.
pub proof fn lemma_what_was_recorded(strength: Seq<(Position, u8)>, cell: Position, at: int)
    requires
        forall|i: int| 0 <= i < at && i < strength.len() ==> (#[trigger] strength[i]).0 != cell,
        at >= 0,
    ensures
        at < strength.len() && strength[at].0 == cell ==> strength_differential::recorded_at(
            strength,
            cell,
        ) == strength[at].1,
        at >= strength.len() ==> strength_differential::recorded_at(strength, cell) == 0,
{
    lemma_recorded_later(strength, cell, 0, at);
}

proof fn lemma_recorded_later(strength: Seq<(Position, u8)>, cell: Position, from: int, at: int)
    requires
        0 <= from <= at,
        forall|i: int| from <= i < at && i < strength.len() ==> (#[trigger] strength[i]).0 != cell,
    ensures
        strength_differential::recorded_from(strength, cell, from)
            == strength_differential::recorded_from(strength, cell, at),
    decreases at - from,
{
    if from < at {
        lemma_recorded_later(strength, cell, from + 1, at);
        if from < strength.len() {
            assert(strength[from].0 != cell);
        }
    }
}

/// A cell that the judge reads is a support. Any other is a conductor exactly if dust, a
/// repeater or a comparator stands there, and a floor if anything else does.
pub proof fn lemma_classes(world: World, cell: Position, is_sink: bool)
    ensures
        ({
            let class = strength_differential::class_of(world, cell, is_sink);
            let kind = world.at(cell.x as int, cell.y as int, cell.z as int).kind;
            let conducts = kind == BlockKind::RedstoneWire || kind == BlockKind::Repeater || kind
                == BlockKind::Comparator;
            &&& class == CellClass::Support <==> is_sink
            &&& class == CellClass::Conductor <==> !is_sink && conducts
            &&& class == CellClass::Floor <==> !is_sink && !conducts
        }),
{
}

/// The two answers disagree on a reading.
pub open spec fn at_odds() -> spec_fn(Reading) -> bool {
    |reading: Reading|
        reading.class != CellClass::Floor && (reading.walk > 0) != (reading.solo > 0)
}

/// A cell is at odds exactly if it is no floor and only one of the two answers reaches it;
/// it is a false pass if the walk does and a false refusal if power does.
pub proof fn lemma_which_way_a_cell_is_at_odds(reading: Reading)
    ensures
        strength_differential::disagreement(reading) is Some <==> at_odds()(reading),
        strength_differential::disagreement(reading) == Some(Direction::FalsePass) <==> at_odds()(
            reading,
        ) && reading.walk > 0,
        strength_differential::disagreement(reading) == Some(Direction::FalseRefusal)
            <==> at_odds()(reading) && reading.solo > 0,
{
}

/// The disagreements of a group are its readings at odds, all of them and in order.
pub proof fn lemma_disagreements_are_the_readings_at_odds(readings: Seq<Reading>, count: nat)
    requires
        count <= readings.len(),
    ensures
        ({
            let found = strength_differential::disagreeing(readings, count);
            &&& Seq::new(found.len(), |i: int| found[i].1) == readings.take(count as int).filter(
                at_odds(),
            )
            &&& forall|i: int|
                0 <= i < found.len() ==> ((#[trigger] found[i]).0 == Direction::FalsePass
                    <==> found[i].1.walk > 0)
        }),
    decreases count,
{
    let found = strength_differential::disagreeing(readings, count);
    if count == 0 {
        readings.take(0).lemma_filter_len(at_odds());
        assert(Seq::new(found.len(), |i: int| found[i].1) =~= readings.take(0).filter(at_odds()));
    } else {
        lemma_disagreements_are_the_readings_at_odds(readings, (count - 1) as nat);
        let before = strength_differential::disagreeing(readings, (count - 1) as nat);
        let fewer = readings.take(count - 1);
        let last = readings[count - 1];
        assert(readings.take(count as int) =~= fewer.push(last));
        fewer.lemma_filter_push(last, at_odds());
        lemma_which_way_a_cell_is_at_odds(last);
        let some = Seq::new(before.len(), |i: int| before[i].1);
        let all = Seq::new(found.len(), |i: int| found[i].1);
        if at_odds()(last) {
            assert(found == before.push((
                strength_differential::disagreement(last)->0,
                last,
            )));
            assert(all =~= some.push(last));
        } else {
            assert(all =~= some);
        }
    }
}

/// The disagreements of a circuit are those of its groups: a cell of a group is listed,
/// with the group, exactly if it is at odds there, and there are as many as in all groups.
pub proof fn lemma_disagreements_of_all_groups(groups: Seq<GroupReport>, count: nat)
    requires
        count <= groups.len(),
    ensures
        ({
            let found = strength_differential::all_disagreeing(groups, count);
            &&& forall|g: int, k: int|
                0 <= g < count && 0 <= k < groups[g].readings@.len() && at_odds()(
                    #[trigger] groups[g].readings@[k],
                ) ==> found.contains(
                    (
                        groups[g],
                        if groups[g].readings@[k].walk > 0 {
                            Direction::FalsePass
                        } else {
                            Direction::FalseRefusal
                        },
                        groups[g].readings@[k],
                    ),
                )
            &&& found.len() == strength_differential::readings_of(groups, at_odds(), count)
            &&& forall|i: int|
                0 <= i < found.len() ==> at_odds()((#[trigger] found[i]).2) && (found[i].1
                    == Direction::FalsePass <==> found[i].2.walk > 0)
        }),
    decreases count,
{
    if count > 0 {
        lemma_disagreements_of_all_groups(groups, (count - 1) as nat);
        let group = groups[count - 1];
        let n = group.readings@.len();
        lemma_disagreements_are_the_readings_at_odds(group.readings@, n);
        assert(group.readings@.take(n as int) =~= group.readings@);
        let here = strength_differential::disagreeing(group.readings@, n);
        let second = Seq::new(here.len(), |i: int| here[i].1);
        let before = strength_differential::all_disagreeing(groups, (count - 1) as nat);
        let found = strength_differential::all_disagreeing(groups, count);
        assert forall|i: int| 0 <= i < here.len() implies at_odds()((#[trigger] here[i]).1) by {
            group.readings@.lemma_filter_pred(at_odds(), i);
            assert(second[i] == here[i].1);
        }
        assert forall|i: int| 0 <= i < found.len() implies at_odds()((#[trigger] found[i]).2) && (
        found[i].1 == Direction::FalsePass <==> found[i].2.walk > 0) by {
            if i >= before.len() {
                assert(at_odds()(here[i - before.len()].1));
            } else {
                assert(found[i] == before[i]);
            }
        }
        assert forall|g: int, k: int|
            0 <= g < count && 0 <= k < groups[g].readings@.len() && at_odds()(
                #[trigger] groups[g].readings@[k],
            ) implies found.contains(
            (
                groups[g],
                if groups[g].readings@[k].walk > 0 {
                    Direction::FalsePass
                } else {
                    Direction::FalseRefusal
                },
                groups[g].readings@[k],
            ),
        ) by {
            let reading = groups[g].readings@[k];
            let entry = (
                groups[g],
                if reading.walk > 0 {
                    Direction::FalsePass
                } else {
                    Direction::FalseRefusal
                },
                reading,
            );
            if g < count - 1 {
                assert(before.contains(entry));
                let i = choose|i: int| 0 <= i < before.len() && before[i] == entry;
                assert(found[i] == entry);
            } else {
                group.readings@.lemma_filter_contains(at_odds(), k);
                let i = choose|i: int| 0 <= i < second.len() && second[i] == reading;
                assert(at_odds()(here[i].1));
                assert(found[before.len() + i] == (group, here[i].0, here[i].1));
            }
        }
    }
}

/// Vectors count in binary, the first input the greatest digit: the setting of an input
/// is the digit of the number at its place.
pub proof fn lemma_a_vector_is_its_number_in_binary(inputs: nat, number: nat, at: int)
    requires
        0 <= at < inputs,
    ensures
        strength_differential::vector_of(inputs, number).len() == inputs,
        strength_differential::vector_of(inputs, number)[at] == ((number / power2::pow2(
            (inputs - 1 - at) as nat,
        )) % 2 == 1),
    decreases inputs,
{
    power2::lemma2_to64();
    lemma_vector_length(inputs, number);
    if at < inputs - 1 {
        lemma_a_vector_is_its_number_in_binary((inputs - 1) as nat, number / 2, at);
        let places = (inputs - 2 - at) as nat;
        power2::lemma_pow2_unfold(places + 1);
        power2::lemma_pow2_pos(places);
        vstd::arithmetic::div_mod::lemma_div_denominator(
            number as int,
            2,
            power2::pow2(places) as int,
        );
    } else {
        assert(number / 1 == number);
    }
}

proof fn lemma_vector_length(inputs: nat, number: nat)
    ensures
        strength_differential::vector_of(inputs, number).len() == inputs,
    decreases inputs,
{
    if inputs > 0 {
        lemma_vector_length((inputs - 1) as nat, number / 2);
    }
}

/// The lever that is refused is the first input at which no lever stands, and none is
/// refused exactly if a lever stands at each.
pub proof fn lemma_first_input_without_a_lever(world: World, levers: Seq<(String, Position)>)
    ensures
        match strength_differential::first_no_lever(world, levers, 0) {
            Some(at) => {
                &&& 0 <= at < levers.len()
                &&& strength_differential::at_cell(world, levers[at].1).kind != BlockKind::Lever
                &&& forall|i: int|
                    0 <= i < at ==> strength_differential::at_cell(
                        world,
                        (#[trigger] levers[i]).1,
                    ).kind == BlockKind::Lever
            },
            None => forall|i: int|
                0 <= i < levers.len() ==> strength_differential::at_cell(
                    world,
                    (#[trigger] levers[i]).1,
                ).kind == BlockKind::Lever,
        },
{
    lemma_no_lever_from(world, levers, 0);
}

proof fn lemma_no_lever_from(world: World, levers: Seq<(String, Position)>, from: int)
    requires
        0 <= from,
    ensures
        match strength_differential::first_no_lever(world, levers, from) {
            Some(at) => {
                &&& from <= at < levers.len()
                &&& strength_differential::at_cell(world, levers[at].1).kind != BlockKind::Lever
                &&& forall|i: int|
                    from <= i < at ==> strength_differential::at_cell(
                        world,
                        (#[trigger] levers[i]).1,
                    ).kind == BlockKind::Lever
            },
            None => forall|i: int|
                from <= i < levers.len() ==> strength_differential::at_cell(
                    world,
                    (#[trigger] levers[i]).1,
                ).kind == BlockKind::Lever,
        },
    decreases levers.len() - from,
{
    if from < levers.len() {
        lemma_no_lever_from(world, levers, from + 1);
    }
}

/// Throwing levers sets whether each is lit to its bit, the last one's where two share a
/// cell, and changes nothing else of a block and nothing of any other cell.
pub proof fn lemma_thrown_levers(
    world: World,
    levers: Seq<(String, Position)>,
    bits: Seq<bool>,
    count: nat,
    cell: Position,
)
    requires
        count <= levers.len(),
        count <= bits.len(),
    ensures
        ({
            let before = strength_differential::at_cell(world, cell);
            let after = strength_differential::thrown(world, levers, bits, count, cell);
            &&& (forall|i: int| 0 <= i < count ==> (#[trigger] levers[i]).1 != cell) ==> after
                == before
            &&& forall|i: int|
                0 <= i < count && (#[trigger] levers[i]).1 == cell && (forall|j: int|
                    i < j < count ==> (#[trigger] levers[j]).1 != cell) ==> after.lit == bits[i]
            &&& after.kind == before.kind
            &&& after.name == before.name
            &&& after.facing == before.facing
            &&& after.face == before.face
            &&& after.power == before.power
            &&& after.delay == before.delay
            &&& after.half == before.half
            &&& after.extra_properties == before.extra_properties
        }),
    decreases count,
{
    if count > 0 {
        lemma_thrown_levers(world, levers, bits, (count - 1) as nat, cell);
        let before = strength_differential::thrown(world, levers, bits, (count - 1) as nat, cell);
        if levers[count - 1].1 == cell {
            assert forall|i: int|
                0 <= i < count && (#[trigger] levers[i]).1 == cell && (forall|j: int|
                    i < j < count ==> (#[trigger] levers[j]).1 != cell) implies i == count - 1 by {
                if i < count - 1 {
                    assert(levers[count - 1].1 != cell);
                }
            }
        }
    }
}

/// The sources of the levers are the cells recorded for the inputs, and no others.
pub proof fn lemma_lever_sources(
    list: Netlist,
    positions: Seq<(String, Position)>,
    count: nat,
    cell: Position,
)
    requires
        count <= list.inputs@.len(),
    ensures
        strength_differential::lever_sources(list, positions, count).contains(cell) <==> exists|
            i: int,
        |
            0 <= i < count && circuit::position_of(positions, (#[trigger] list.inputs@[i])@)
                == Some(cell),
    decreases count,
{
    if count > 0 {
        lemma_lever_sources(list, positions, (count - 1) as nat, cell);
        if strength_differential::lever_sources(list, positions, (count - 1) as nat).contains(cell) {
            let i = choose|i: int|
                0 <= i < count - 1 && circuit::position_of(
                    positions,
                    (#[trigger] list.inputs@[i])@,
                ) == Some(cell);
            assert(circuit::position_of(positions, list.inputs@[i]@) == Some(cell));
        }
        assert(circuit::position_of(positions, list.inputs@[count - 1]@)
            == circuit::position_of(positions, list.inputs@[count - 1]@));
    }
}

/// The sources of the gates are the cells recorded for the gates that are no merges, and
/// no others.
pub proof fn lemma_gate_sources(
    list: Netlist,
    positions: Seq<(String, Position)>,
    count: nat,
    cell: Position,
)
    requires
        count <= list.gates@.len(),
    ensures
        strength_differential::gate_sources(list, positions, count).contains(cell) <==> exists|
            i: int,
        |
            0 <= i < count && !((#[trigger] list.gates@[i]).kind is Or) && circuit::position_of(
                positions,
                list.gates@[i].output@,
            ) == Some(cell),
    decreases count,
{
    if count > 0 {
        lemma_gate_sources(list, positions, (count - 1) as nat, cell);
        if strength_differential::gate_sources(list, positions, (count - 1) as nat).contains(cell) {
            let i = choose|i: int|
                0 <= i < count - 1 && !((#[trigger] list.gates@[i]).kind is Or)
                    && circuit::position_of(positions, list.gates@[i].output@) == Some(cell);
            assert(!(list.gates@[i].kind is Or));
        }
        assert(list.gates@[count - 1].kind is Or || !(list.gates@[count - 1].kind is Or));
    }
}

/// A merge drives a net exactly if the net's source is a gate that is one.
pub proof fn lemma_merge_sourced(list: Netlist, net: Net)
    ensures
        strength_differential::merge_sourced(list, net) <==> (net.source is Gate
            && list.gates@[net.source->Gate_0 as int].kind is Or),
{
}

/// What drives a net stands where its input's lever is recorded, or its gate's output.
pub proof fn lemma_source_cell(
    list: Netlist,
    gates: Seq<(String, Position)>,
    inputs: Seq<(String, Position)>,
    i: usize,
)
    ensures
        strength_differential::source_cell(list, gates, inputs, Source::Lever(i))
            == circuit::position_of(inputs, list.inputs@[i as int]@),
        strength_differential::source_cell(list, gates, inputs, Source::Gate(i))
            == circuit::position_of(gates, list.gates@[i as int].output@),
{
}

/// The nets of a group are those with its root, each once and in order.
pub proof fn lemma_nets_of_a_group(roots: Seq<usize>, root: usize, count: nat)
    requires
        count <= roots.len() <= usize::MAX,
    ensures
        ({
            let nets = strength_differential::group_nets(roots, root, count);
            &&& forall|n: usize|
                #[trigger] nets.contains(n) <==> n < count && roots[n as int] == root
            &&& forall|i: int, j: int|
                0 <= i < j < nets.len() ==> #[trigger] nets[i] < #[trigger] nets[j]
        }),
    decreases count,
{
    if count > 0 {
        lemma_nets_of_a_group(roots, root, (count - 1) as nat);
        let before = strength_differential::group_nets(roots, root, (count - 1) as nat);
        let nets = strength_differential::group_nets(roots, root, count);
        if roots[count - 1] == root {
            assert forall|n: usize| #[trigger] nets.contains(n) <==> before.contains(n) || n
                == count - 1 by {
                if before.contains(n) {
                    let k = choose|k: int| 0 <= k < before.len() && before[k] == n;
                    assert(nets[k] == n);
                }
                assert(nets[before.len() as int] == (count - 1) as usize);
            }
            assert forall|i: int, j: int| 0 <= i < j < nets.len() implies #[trigger] nets[i]
                < #[trigger] nets[j] by {
                if j == before.len() {
                    assert(before.contains(before[i]));
                }
            }
        }
    }
}

/// A group has an origin for each of its nets that no merge drives, where what drives the
/// net stands, in the order of the nets; and no other.
pub proof fn lemma_origins_of_a_group(
    list: Netlist,
    nets: Seq<Net>,
    roots: Seq<usize>,
    gates: Seq<(String, Position)>,
    inputs: Seq<(String, Position)>,
    root: usize,
    count: nat,
)
    requires
        count <= nets.len() == roots.len() <= usize::MAX,
    ensures
        ({
            let origins = strength_differential::group_origins(
                list,
                nets,
                roots,
                gates,
                inputs,
                root,
                count,
            );
            let driven = strength_differential::group_nets(roots, root, count).filter(
                |n: usize| !strength_differential::merge_sourced(list, nets[n as int]),
            );
            &&& origins.len() == driven.len()
            &&& forall|i: int|
                0 <= i < origins.len() ==> #[trigger] origins[i]
                    == strength_differential::source_cell(
                    list,
                    gates,
                    inputs,
                    nets[driven[i] as int].source,
                )->0
        }),
    decreases count,
{
    let pred = |n: usize| !strength_differential::merge_sourced(list, nets[n as int]);
    if count == 0 {
        strength_differential::group_nets(roots, root, 0).lemma_filter_len(pred);
    } else {
        lemma_origins_of_a_group(list, nets, roots, gates, inputs, root, (count - 1) as nat);
        let before = strength_differential::group_nets(roots, root, (count - 1) as nat);
        if roots[count - 1] == root {
            before.lemma_filter_push((count - 1) as usize, pred);
        }
    }
}

/// What a sink's torch is mounted on is read, unless the sink is a merge.
pub proof fn lemma_merges_are_not_read(
    list: Netlist,
    supports: Seq<Option<Position>>,
    gate: usize,
)
    ensures
        list.gates@[gate as int].kind is Or ==> strength_differential::read_block(
            list,
            supports,
            gate,
        ) is None,
        !(list.gates@[gate as int].kind is Or) ==> strength_differential::read_block(
            list,
            supports,
            gate,
        ) == supports[gate as int],
{
}

/// What was recorded for a root is what the first walk with that root recorded, and
/// nothing where there is no such walk.
pub proof fn lemma_strength_of_a_root(walks: Seq<GroupWalk>, root: usize, at: int)
    requires
        at >= 0,
        forall|i: int| 0 <= i < at && i < walks.len() ==> (#[trigger] walks[i]).root != root,
    ensures
        at < walks.len() && walks[at].root == root ==> strength_differential::strength_of(
            walks,
            root,
            0,
        ) == walks[at].strength@,
        at >= walks.len() ==> strength_differential::strength_of(walks, root, 0).len() == 0,
{
    lemma_strength_later(walks, root, 0, at);
}

proof fn lemma_strength_later(walks: Seq<GroupWalk>, root: usize, from: int, at: int)
    requires
        0 <= from <= at,
        forall|i: int| from <= i < at && i < walks.len() ==> (#[trigger] walks[i]).root != root,
    ensures
        strength_differential::strength_of(walks, root, from)
            == strength_differential::strength_of(walks, root, at),
    decreases at - from,
{
    if from < at {
        lemma_strength_later(walks, root, from + 1, at);
        if from < walks.len() {
            assert(walks[from].root != root);
        }
    }
}

/// A sink that the judge reads, and at which the walk of its net's group recorded nothing.
pub open spec fn is_missed(
    list: Netlist,
    nets: Seq<Net>,
    roots: Seq<usize>,
    walks: Seq<GroupWalk>,
    supports: Seq<Option<Position>>,
    n: int,
    slot: int,
    k: int,
) -> bool {
    let gate = nets[n].sinks@[slot]@[k].0;
    !(list.gates@[gate as int].kind is Or) && supports[gate as int] is Some
        && strength_differential::recorded_at(
        strength_differential::strength_of(walks, roots[n], 0),
        supports[gate as int]->0,
    ) == 0
}

proof fn lemma_slot(
    list: Netlist,
    supports: Seq<Option<Position>>,
    strength: Seq<(Position, u8)>,
    net: usize,
    sinks: Seq<(usize, usize)>,
    from: int,
)
    requires
        0 <= from,
    ensures
        match strength_differential::slot_violation(list, supports, strength, net, sinks, from) {
            Some(found) => exists|k: int|
                from <= k < sinks.len() && found.gate == (#[trigger] sinks[k]).0 && found.net
                    == net && !(list.gates@[sinks[k].0 as int].kind is Or)
                    && supports[sinks[k].0 as int] == Some(found.support)
                    && strength_differential::recorded_at(strength, found.support) == 0
                    && forall|j: int|
                    from <= j < k ==> strength_differential::sink_violation(
                        list,
                        supports,
                        strength,
                        net,
                        (#[trigger] sinks[j]).0,
                    ) is None,
            None => forall|k: int|
                from <= k < sinks.len() ==> strength_differential::sink_violation(
                    list,
                    supports,
                    strength,
                    net,
                    (#[trigger] sinks[k]).0,
                ) is None,
        },
    decreases sinks.len() - from,
{
    if from < sinks.len() {
        let one = strength_differential::sink_violation(list, supports, strength, net, sinks[from].0);
        if one is None {
            lemma_slot(list, supports, strength, net, sinks, from + 1);
            if let Some(found) = strength_differential::slot_violation(
                list,
                supports,
                strength,
                net,
                sinks,
                from + 1,
            ) {
                let k = choose|k: int|
                    from + 1 <= k < sinks.len() && found.gate == (#[trigger] sinks[k]).0
                        && found.net == net && !(list.gates@[sinks[k].0 as int].kind is Or)
                        && supports[sinks[k].0 as int] == Some(found.support)
                        && strength_differential::recorded_at(strength, found.support) == 0
                        && forall|j: int|
                        from + 1 <= j < k ==> strength_differential::sink_violation(
                            list,
                            supports,
                            strength,
                            net,
                            (#[trigger] sinks[j]).0,
                        ) is None;
                assert(found.gate == sinks[k].0);
            }
        } else {
            assert(sinks[from].0 == one->0.gate);
        }
    }
}

proof fn lemma_net(
    list: Netlist,
    nets: Seq<Net>,
    roots: Seq<usize>,
    walks: Seq<GroupWalk>,
    supports: Seq<Option<Position>>,
    n: int,
    from: int,
)
    requires
        0 <= from,
        0 <= n < nets.len() <= usize::MAX,
    ensures
        match strength_differential::net_violation(
            list,
            supports,
            strength_differential::strength_of(walks, roots[n], 0),
            n as usize,
            nets[n].sinks@,
            from,
        ) {
            Some(found) => exists|slot: int, k: int|
                from <= slot < nets[n].sinks@.len() && 0 <= k < nets[n].sinks@[slot]@.len()
                    && found == (SignalViolation {
                    net: n as usize,
                    gate: (#[trigger] nets[n].sinks@[slot]@[k]).0,
                    support: supports[nets[n].sinks@[slot]@[k].0 as int]->0,
                }) && is_missed(list, nets, roots, walks, supports, n, slot, k) && forall|
                    j: int,
                    m: int,
                |
                    from <= j < nets[n].sinks@.len() && 0 <= m < nets[n].sinks@[j]@.len() && (j
                        < slot || (j == slot && m < k)) ==> !#[trigger] is_missed(
                        list,
                        nets,
                        roots,
                        walks,
                        supports,
                        n,
                        j,
                        m,
                    ),
            None => forall|slot: int, k: int|
                from <= slot < nets[n].sinks@.len() && 0 <= k < nets[n].sinks@[slot]@.len()
                    ==> !#[trigger] is_missed(list, nets, roots, walks, supports, n, slot, k),
        },
    decreases nets[n].sinks@.len() - from,
{
    let slots = nets[n].sinks@;
    let strength = strength_differential::strength_of(walks, roots[n], 0);
    if from < slots.len() {
        lemma_slot(list, supports, strength, n as usize, slots[from]@, 0);
        let here = strength_differential::slot_violation(
            list,
            supports,
            strength,
            n as usize,
            slots[from]@,
            0,
        );
        if let Some(found) = here {
            let k = choose|k: int|
                0 <= k < slots[from]@.len() && found.gate == (#[trigger] slots[from]@[k]).0
                    && found.net == n as usize && !(list.gates@[slots[from]@[k].0 as int].kind is Or)
                    && supports[slots[from]@[k].0 as int] == Some(found.support)
                    && strength_differential::recorded_at(strength, found.support) == 0 && forall|
                    j: int,
                |
                    0 <= j < k ==> strength_differential::sink_violation(
                        list,
                        supports,
                        strength,
                        n as usize,
                        (#[trigger] slots[from]@[j]).0,
                    ) is None;
            assert(is_missed(list, nets, roots, walks, supports, n, from, k));
            assert forall|j: int, m: int|
                from <= j < nets[n].sinks@.len() && 0 <= m < nets[n].sinks@[j]@.len() && (j < from
                    || (j == from && m < k)) implies !#[trigger] is_missed(
                list,
                nets,
                roots,
                walks,
                supports,
                n,
                j,
                m,
            ) by {
                assert(strength_differential::sink_violation(
                    list,
                    supports,
                    strength,
                    n as usize,
                    slots[from]@[m].0,
                ) is None);
            }
            assert(nets[n].sinks@[from]@[k].0 == found.gate);
        } else {
            lemma_net(list, nets, roots, walks, supports, n, from + 1);
            assert forall|k: int| 0 <= k < slots[from]@.len() implies !#[trigger] is_missed(
                list,
                nets,
                roots,
                walks,
                supports,
                n,
                from,
                k,
            ) by {
                assert(strength_differential::sink_violation(
                    list,
                    supports,
                    strength,
                    n as usize,
                    slots[from]@[k].0,
                ) is None);
            }
            if let Some(found) = strength_differential::net_violation(
                list,
                supports,
                strength,
                n as usize,
                slots,
                from + 1,
            ) {
                let (slot, k) = choose|slot: int, k: int|
                    from + 1 <= slot < nets[n].sinks@.len() && 0 <= k
                        < nets[n].sinks@[slot]@.len() && found == (SignalViolation {
                        net: n as usize,
                        gate: (#[trigger] nets[n].sinks@[slot]@[k]).0,
                        support: supports[nets[n].sinks@[slot]@[k].0 as int]->0,
                    }) && is_missed(list, nets, roots, walks, supports, n, slot, k) && forall|
                        j: int,
                        m: int,
                    |
                        from + 1 <= j < nets[n].sinks@.len() && 0 <= m < nets[n].sinks@[j]@.len()
                            && (j < slot || (j == slot && m < k)) ==> !#[trigger] is_missed(
                            list,
                            nets,
                            roots,
                            walks,
                            supports,
                            n,
                            j,
                            m,
                        );
                assert(nets[n].sinks@[slot]@[k].0 == found.gate);
            }
        }
    }
}

/// The judge refuses exactly if some sink is unreached, and names the first one, net by
/// net, slot by slot and sink by sink.
pub proof fn lemma_the_first_unreached_sink_is_refused(
    list: Netlist,
    nets: Seq<Net>,
    roots: Seq<usize>,
    walks: Seq<GroupWalk>,
    supports: Seq<Option<Position>>,
    from: int,
)
    requires
        0 <= from,
        nets.len() <= usize::MAX,
    ensures
        match strength_differential::first_violation(list, nets, roots, walks, supports, from) {
            Some(found) => from <= found.net < nets.len() && exists|slot: int, k: int|
                0 <= slot < nets[found.net as int].sinks@.len() && 0 <= k
                    < nets[found.net as int].sinks@[slot]@.len() && found.gate == (
                #[trigger] nets[found.net as int].sinks@[slot]@[k]).0
                    && supports[found.gate as int] == Some(found.support) && is_missed(
                    list,
                    nets,
                    roots,
                    walks,
                    supports,
                    found.net as int,
                    slot,
                    k,
                ) && forall|n: int, j: int, m: int|
                    from <= n < nets.len() && 0 <= j < nets[n].sinks@.len() && 0 <= m
                        < nets[n].sinks@[j]@.len() && (n < found.net || (n == found.net && (j
                        < slot || (j == slot && m < k)))) ==> !#[trigger] is_missed(
                        list,
                        nets,
                        roots,
                        walks,
                        supports,
                        n,
                        j,
                        m,
                    ),
            None => forall|n: int, slot: int, k: int|
                from <= n < nets.len() && 0 <= slot < nets[n].sinks@.len() && 0 <= k
                    < nets[n].sinks@[slot]@.len() ==> !#[trigger] is_missed(
                    list,
                    nets,
                    roots,
                    walks,
                    supports,
                    n,
                    slot,
                    k,
                ),
        },
    decreases nets.len() - from,
{
    if from < nets.len() {
        lemma_net(list, nets, roots, walks, supports, from, 0);
        let strength = strength_differential::strength_of(walks, roots[from], 0);
        let here = strength_differential::net_violation(
            list,
            supports,
            strength,
            from as usize,
            nets[from].sinks@,
            0,
        );
        if here is None {
            lemma_the_first_unreached_sink_is_refused(
                list,
                nets,
                roots,
                walks,
                supports,
                from + 1,
            );
            if let Some(found) = strength_differential::first_violation(
                list,
                nets,
                roots,
                walks,
                supports,
                from + 1,
            ) {
                let f = found.net as int;
                let (slot, k) = choose|slot: int, k: int|
                    0 <= slot < nets[f].sinks@.len() && 0 <= k < nets[f].sinks@[slot]@.len()
                        && found.gate == (#[trigger] nets[f].sinks@[slot]@[k]).0
                        && supports[found.gate as int] == Some(found.support) && is_missed(
                        list,
                        nets,
                        roots,
                        walks,
                        supports,
                        f,
                        slot,
                        k,
                    ) && forall|n: int, j: int, m: int|
                        from + 1 <= n < nets.len() && 0 <= j < nets[n].sinks@.len() && 0 <= m
                            < nets[n].sinks@[j]@.len() && (n < f || (n == f && (j < slot || (j
                            == slot && m < k)))) ==> !#[trigger] is_missed(
                            list,
                            nets,
                            roots,
                            walks,
                            supports,
                            n,
                            j,
                            m,
                        );
                assert(nets[f].sinks@[slot]@[k].0 == found.gate);
            }
        }
    }
}

/// As many origins are live as there are cells among them that carry something.
pub proof fn lemma_live_origins(settled: Settled, origins: Seq<Position>, count: nat)
    requires
        count <= origins.len(),
    ensures
        strength_differential::live_origins(settled, origins, count) == origins.take(
            count as int,
        ).filter(
            |cell: Position| strength_differential::carries(settled.power_at(cell)) > 0,
        ).len(),
    decreases count,
{
    let pred = |cell: Position| strength_differential::carries(settled.power_at(cell)) > 0;
    if count == 0 {
        origins.take(0).lemma_filter_len(pred);
    } else {
        lemma_live_origins(settled, origins, (count - 1) as nat);
        assert(origins.take(count as int) =~= origins.take(count - 1).push(origins[count - 1]));
        origins.take(count - 1).lemma_filter_push(origins[count - 1], pred);
    }
}

/// A group can be measured exactly if at some vector some origin of it carries something.
pub proof fn lemma_which_groups_can_be_measured(
    walk: GroupWalk,
    net_names: Seq<String>,
    sweep: Seq<Settled>,
)
    requires
        sweep.len() > 0,
    ensures
        strength_differential::group_unmeasured(walk, net_names, sweep) is None <==> exists|
            i: int,
            k: int,
        |
            0 <= i < sweep.len() && 0 <= k < walk.origins@.len()
                && strength_differential::carries(
                (#[trigger] sweep[i]).power_at(#[trigger] walk.origins@[k]),
            ) > 0,
{
    let origins = walk.origins@;
    let n = origins.len();
    strength_differential::lemma_liveliest(sweep, origins, sweep.len());
    let best = strength_differential::liveliest(sweep, origins, sweep.len());
    if exists|i: int, k: int|
        0 <= i < sweep.len() && 0 <= k < origins.len() && strength_differential::carries(
            (#[trigger] sweep[i]).power_at(#[trigger] origins[k]),
        ) > 0 {
        let (i, k) = choose|i: int, k: int|
            0 <= i < sweep.len() && 0 <= k < origins.len() && strength_differential::carries(
                (#[trigger] sweep[i]).power_at(#[trigger] origins[k]),
            ) > 0;
        lemma_some_live(sweep[i], origins, n, k);
        assert(strength_differential::live_origins(sweep[i], origins, n)
            <= strength_differential::live_origins(sweep[best], origins, n));
    }
    if n > 0 && strength_differential::live_origins(sweep[best], origins, n) > 0 {
        let k = lemma_live_one(sweep[best], origins, n);
        assert(strength_differential::carries(sweep[best].power_at(origins[k])) > 0);
    }
}

proof fn lemma_some_live(settled: Settled, origins: Seq<Position>, count: nat, k: int)
    requires
        0 <= k < count <= origins.len(),
        strength_differential::carries(settled.power_at(origins[k])) > 0,
    ensures
        strength_differential::live_origins(settled, origins, count) > 0,
    decreases count,
{
    if k < count - 1 {
        lemma_some_live(settled, origins, (count - 1) as nat, k);
    }
}

proof fn lemma_live_one(settled: Settled, origins: Seq<Position>, count: nat) -> (k: int)
    requires
        count <= origins.len(),
        strength_differential::live_origins(settled, origins, count) > 0,
    ensures
        0 <= k < count,
        strength_differential::carries(settled.power_at(origins[k])) > 0,
    decreases count,
{
    if strength_differential::carries(settled.power_at(origins[count - 1])) > 0 {
        count - 1
    } else {
        lemma_live_one(settled, origins, (count - 1) as nat)
    }
}

/// The cells read for a group are those the judge reads, its own, those recorded, and the
/// cells right below its own; the judge's come first.
pub proof fn lemma_which_cells_are_read(
    sinks: Seq<Position>,
    own: Seq<Position>,
    recorded: Seq<Position>,
    cell: Position,
)
    ensures
        ({
            let list = strength_differential::cells_to_read(sinks, own, recorded);
            &&& list.contains(cell) <==> sinks.contains(cell) || own.contains(cell)
                || recorded.contains(cell) || exists|i: int|
                0 <= i < own.len() && cell.x == (#[trigger] own[i]).x && cell.z == own[i].z
                    && cell.y == (own[i].y - 1) as i32
            &&& list.len() == sinks.len() + 2 * own.len() + recorded.len()
            &&& forall|i: int| 0 <= i < sinks.len() ==> list[i] == sinks[i]
        }),
{
    let list = strength_differential::cells_to_read(sinks, own, recorded);
    let floors = Seq::new(own.len(), |i: int| strength_differential::below(own[i]));
    assert(list =~= sinks + own + recorded + floors);
    if list.contains(cell) {
        let k = choose|k: int| 0 <= k < list.len() && list[k] == cell;
        if k < sinks.len() {
            assert(sinks[k] == cell);
        } else if k < sinks.len() + own.len() {
            assert(own[k - sinks.len()] == cell);
        } else if k < sinks.len() + own.len() + recorded.len() {
            assert(recorded[k - sinks.len() - own.len()] == cell);
        } else {
            let i = k - sinks.len() - own.len() - recorded.len();
            assert(floors[i] == cell);
            assert(own[i] == own[i]);
        }
    }
    if sinks.contains(cell) {
        let i = choose|i: int| 0 <= i < sinks.len() && sinks[i] == cell;
        assert(list[i] == cell);
    }
    if own.contains(cell) {
        let i = choose|i: int| 0 <= i < own.len() && own[i] == cell;
        assert(list[sinks.len() + i] == cell);
    }
    if recorded.contains(cell) {
        let i = choose|i: int| 0 <= i < recorded.len() && recorded[i] == cell;
        assert(list[sinks.len() + own.len() + i] == cell);
    }
    if exists|i: int|
        0 <= i < own.len() && cell.x == (#[trigger] own[i]).x && cell.z == own[i].z && cell.y == (
        own[i].y - 1) as i32 {
        let i = choose|i: int|
            0 <= i < own.len() && cell.x == (#[trigger] own[i]).x && cell.z == own[i].z && cell.y
                == (own[i].y - 1) as i32;
        assert(list[sinks.len() + own.len() + recorded.len() + i] == floors[i]);
        assert(floors[i] == cell);
    }
}

/// A line is noted for an isolated origin exactly if it does not emit.
pub proof fn lemma_silent_origins_are_noted(
    root: usize,
    isolations: Seq<OriginIsolation>,
    count: nat,
)
    requires
        count <= isolations.len(),
    ensures
        ({
            let lines = strength_differential::silent_lines(root, isolations, count);
            let silent = isolations.take(count as int).filter(|one: OriginIsolation| !one.emits);
            &&& lines.len() == silent.len()
            &&& forall|i: int|
                0 <= i < lines.len() ==> #[trigger] lines[i] == strength_differential::silent_text(
                    root,
                    silent[i].origin,
                )
        }),
    decreases count,
{
    let pred = |one: OriginIsolation| !one.emits;
    if count == 0 {
        isolations.take(0).lemma_filter_len(pred);
    } else {
        lemma_silent_origins_are_noted(root, isolations, (count - 1) as nat);
        let fewer = isolations.take(count - 1);
        assert(isolations.take(count as int) =~= fewer.push(isolations[count - 1]));
        fewer.lemma_filter_push(isolations[count - 1], pred);
    }
}

/// The worlds that were settled for the groups: for each that was measured, one control
/// and one for each origin.
pub proof fn lemma_settled_worlds_add_up(
    walks: Seq<GroupWalk>,
    net_names: Seq<String>,
    sweep: Seq<Settled>,
    runs: Seq<GroupRun>,
    count: nat,
)
    requires
        count <= walks.len(),
        strength_differential::measurable(walks, net_names, sweep, count).len() <= runs.len(),
        forall|i: int|
            0 <= i < strength_differential::measurable(walks, net_names, sweep, count).len()
                ==> strength_differential::isolates(
                #[trigger] runs[i],
                walks[strength_differential::measurable(walks, net_names, sweep, count)[i]],
            ),
    ensures
        strength_differential::group_settles(walks, net_names, sweep, count) == runs.take(
            strength_differential::measurable(walks, net_names, sweep, count).len() as int,
        ).fold_left(0int, |sum: int, run: GroupRun| sum + 1 + run.isolations@.len()),
    decreases count,
{
    let numbers = strength_differential::measurable(walks, net_names, sweep, count);
    let step = |sum: int, run: GroupRun| sum + 1 + run.isolations@.len();
    if count == 0 {
        assert(runs.take(0).len() == 0);
    } else {
        let before = strength_differential::measurable(walks, net_names, sweep, (count - 1) as nat);
        assert forall|i: int| 0 <= i < before.len() implies strength_differential::isolates(
            #[trigger] runs[i],
            walks[before[i]],
        ) by {
            assert(numbers[i] == before[i]);
        }
        lemma_settled_worlds_add_up(walks, net_names, sweep, runs, (count - 1) as nat);
        if numbers.len() > before.len() {
            let last = before.len() as int;
            assert(strength_differential::isolates(runs[last], walks[numbers[last]]));
            assert(runs.take(last + 1).drop_last() =~= runs.take(last));
            assert(runs.take(last + 1).last() == runs[last]);
        }
    }
}

/// A report names the nets of its group in order, says of each origin whether it carries a
/// signal in the settled world, and gives every lever with its setting.
pub proof fn lemma_what_a_report_states(
    report: GroupReport,
    realised: World,
    walk: GroupWalk,
    net_names: Seq<String>,
    sinks: Seq<Position>,
    levers: Seq<(String, Position)>,
    bits: Seq<bool>,
    live: Settled,
    control: Settled,
    isolations: Seq<OriginIsolation>,
)
    requires
        report.is_report(
            realised,
            walk,
            net_names,
            sinks,
            levers,
            bits,
            live,
            control,
            isolations,
        ),
    ensures
        report.root == walk.root,
        report.nets@.len() == walk.nets@.len(),
        forall|i: int|
            0 <= i < walk.nets@.len() ==> (#[trigger] report.nets@[i])@
                == net_names[walk.nets@[i] as int]@,
        report.origins@.len() == walk.origins@.len(),
        forall|i: int|
            0 <= i < walk.origins@.len() ==> {
                let origin = #[trigger] report.origins@[i];
                &&& origin.0 == walk.origins@[i]
                &&& origin.1 <==> strength_differential::carries(live.power_at(origin.0)) > 0
            },
        report.vector@.len() == levers.len(),
        forall|i: int|
            0 <= i < levers.len() ==> (#[trigger] report.vector@[i]).0@ == levers[i].0@
                && report.vector@[i].1 == bits[i],
        forall|k: int|
            0 <= k < report.readings@.len() ==> {
                let reading = #[trigger] report.readings@[k];
                reading.class == strength_differential::class_of(
                    realised,
                    reading.cell,
                    reading.is_sink,
                )
            },
{
    let named = netlist::texts(report.nets@);
    assert(named.len() == report.nets@.len());
    assert forall|i: int| 0 <= i < walk.nets@.len() implies (#[trigger] report.nets@[i])@
        == net_names[walk.nets@[i] as int]@ by {
        assert(named[i] == report.nets@[i]@);
    }
    let (own, recorded) = choose|own: Seq<Position>, recorded: Seq<Position>|
        #![trigger strength_differential::cells_to_read(sinks, own, recorded)]
        crate::compile::cells::lists(own, walk.cells@.to_set()) && crate::compile::cells::lists(
            recorded,
            strength_differential::recorded_cells(walk.strength@).to_set(),
        ) && report.readings@ == strength_differential::readings_at(
            realised,
            sinks,
            walk.strength@,
            live,
            control,
            isolations,
            strength_differential::cells_to_read(sinks, own, recorded),
        );
    let seen = strength_differential::first_seen(
        strength_differential::cells_to_read(sinks, own, recorded),
    );
    assert forall|k: int| 0 <= k < report.readings@.len() implies {
        let reading = #[trigger] report.readings@[k];
        reading.class == strength_differential::class_of(
            realised,
            reading.cell,
            reading.is_sink,
        )
    } by {
        assert(report.readings@[k].cell == seen[k]);
    }
}

/// A reading is compared unless it is of a floor, and is only reported if it is; it is into
/// air if the walk recorded a value where there is nothing.
pub proof fn lemma_sorts_of_readings(reading: Reading)
    ensures
        strength_differential::compared()(reading) <==> !(reading.class is Floor),
        strength_differential::floor()(reading) <==> reading.class is Floor,
        strength_differential::into_air()(reading) <==> reading.kind is Air && reading.walk != 0,
{
}

/// The readings of a sort in some groups are those in all but the last of them and those in
/// the last.
pub proof fn lemma_readings_add_up(
    groups: Seq<GroupReport>,
    sort: spec_fn(Reading) -> bool,
    count: nat,
)
    requires
        0 < count <= groups.len(),
    ensures
        strength_differential::readings_of(groups, sort, count)
            - strength_differential::readings_of(groups, sort, (count - 1) as nat)
            == groups[count - 1].readings@.filter(sort).len(),
        strength_differential::readings_of(groups, sort, 0) == 0,
        strength_differential::all_readings(groups, count) - strength_differential::all_readings(
            groups,
            (count - 1) as nat,
        ) == groups[count - 1].readings@.len(),
        strength_differential::all_readings(groups, 0) == 0,
{
}

/// How long some names are together.
pub open spec fn length_of_all(names: Seq<Seq<char>>) -> nat
    decreases names.len(),
{
    if names.len() == 0 {
        0
    } else {
        length_of_all(names.drop_last()) + names.last().len()
    }
}

/// Joined names begin with the first and end with the last, and have two characters between
/// any two.
pub proof fn lemma_joined_names(names: Seq<Seq<char>>)
    requires
        names.len() > 0,
    ensures
        ({
            let joined = strength_differential::joined_names(names);
            &&& joined.len() == length_of_all(names) + 2 * (names.len() - 1)
            &&& joined.len() >= names[0].len()
            &&& joined.take(names[0].len() as int) == names[0]
            &&& joined.skip(joined.len() - names.last().len()) == names.last()
            &&& names.len() > 1 ==> {
                let at = joined.len() - names.last().len();
                joined[at - 2] == ',' && joined[at - 1] == ' '
            }
        }),
    decreases names.len(),
{
    reveal_strlit(", ");
    let joined = strength_differential::joined_names(names);
    if names.len() == 1 {
        reveal_with_fuel(length_of_all, 2);
        assert(joined.take(names[0].len() as int) =~= names[0]);
        assert(joined.skip(0) =~= names.last());
    } else {
        let before = names.drop_last();
        lemma_joined_names(before);
        let start = strength_differential::joined_names(before);
        assert(joined.take(names[0].len() as int) =~= start.take(names[0].len() as int));
        assert(joined.skip(joined.len() - names.last().len()) =~= names.last());
    }
}

/// A net of the group reserves the cell.
pub open spec fn is_reserved(
    reservation: Seq<(Position, usize)>,
    roots: Seq<usize>,
    root: usize,
    cell: Position,
) -> bool {
    exists|i: int|
        0 <= i < reservation.len() && (#[trigger] reservation[i]).0 == cell
            && roots[reservation[i].1 as int] == root
}

/// The cells of a group are those that its nets reserve and those of its bodies, and no
/// others; it reads back nothing yet, and is the group of a net or of a body.
pub proof fn lemma_cells_of_a_group(
    walk: GroupWalk,
    list: Netlist,
    nets: Seq<Net>,
    roots: Seq<usize>,
    reservation: Seq<(Position, usize)>,
    bodies: Seq<(Position, usize)>,
    gate_output_positions: Seq<(String, Position)>,
    input_positions: Seq<(String, Position)>,
)
    requires
        walk.is_group(
            list,
            nets,
            roots,
            reservation,
            bodies,
            gate_output_positions,
            input_positions,
        ),
    ensures
        forall|i: int|
            0 <= i < reservation.len() && roots[(#[trigger] reservation[i]).1 as int] == walk.root
                ==> walk.cells@.contains(reservation[i].0),
        forall|i: int|
            0 <= i < bodies.len() && (#[trigger] bodies[i]).1 == walk.root ==> walk.cells@.contains(
                bodies[i].0,
            ),
        forall|cell: Position| #[trigger]
            walk.cells@.contains(cell) ==> is_reserved(reservation, roots, walk.root, cell)
                || bodies.contains((cell, walk.root)),
        walk.strength@.len() == 0,
        (exists|n: int| 0 <= n < roots.len() && #[trigger] roots[n] == walk.root) || (exists|
            i: int,
        |
            0 <= i < bodies.len() && (#[trigger] bodies[i]).1 == walk.root),
{
    let set = strength_differential::group_cells(reservation, bodies, roots, walk.root);
    assert(walk.cells@.to_set() == set);
    assert forall|i: int|
        0 <= i < reservation.len() && roots[(#[trigger] reservation[i]).1 as int]
            == walk.root implies walk.cells@.contains(reservation[i].0) by {
        assert(set.contains(reservation[i].0));
        assert(walk.cells@.to_set().contains(reservation[i].0));
    }
    assert forall|i: int|
        0 <= i < bodies.len() && (#[trigger] bodies[i]).1 == walk.root implies walk.cells@.contains(
        bodies[i].0,
    ) by {
        assert(bodies[i] == (bodies[i].0, walk.root));
        assert(set.contains(bodies[i].0));
        assert(walk.cells@.to_set().contains(bodies[i].0));
    }
    assert forall|cell: Position| #[trigger] walk.cells@.contains(cell) implies is_reserved(
        reservation,
        roots,
        walk.root,
        cell,
    ) || bodies.contains((cell, walk.root)) by {
        assert(walk.cells@.to_set().contains(cell));
        assert(set.contains(cell));
        if exists|i: int| 0 <= i < bodies.len() && #[trigger] bodies[i] == (cell, walk.root) {
            let i = choose|i: int| 0 <= i < bodies.len() && #[trigger] bodies[i] == (cell, walk.root);
            assert(bodies.contains(bodies[i]));
        } else {
            let i = choose|i: int|
                0 <= i < reservation.len() && (#[trigger] reservation[i]).0 == cell
                    && roots[reservation[i].1 as int] == walk.root;
            assert(reservation[i].0 == cell);
        }
    }
}

/// A group reads a cell exactly if a gate that one of its nets reaches reads it.
pub proof fn lemma_what_a_group_reads(
    list: Netlist,
    nets: Seq<Net>,
    roots: Seq<usize>,
    supports: Seq<Option<Position>>,
    root: usize,
    n: int,
    slot: int,
    k: int,
)
    requires
        0 <= n < nets.len(),
        0 <= slot < nets[n].sinks@.len(),
        0 <= k < nets[n].sinks@[slot]@.len(),
        roots[n] == root,
    ensures
        strength_differential::read_block(
            list,
            supports,
            nets[n].sinks@[slot]@[k].0,
        ) matches Some(cell) ==> strength_differential::is_read(
            list,
            nets,
            roots,
            supports,
            root,
            cell,
        ),
{
}

} // verus!
