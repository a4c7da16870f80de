//! A module of known cells without a cycle is read: nothing is refused that can be built.

use crate::frontend::json::Json;
use crate::frontend::reading_laws;
use crate::frontend::yosys_json;
use crate::frontend::yosys_json::{Bit, CellView, Outputs, Reading};
use vstd::prelude::*;

verus! {

/// The net that a pin is connected to, if it is connected to one.
pub open spec fn pin_net(cell: CellView, pin: Seq<char>) -> Option<i64> {
    match yosys_json::pin_bit(cell.connections, pin, cell.name) {
        Ok(Json::Integer(id)) => Some(id),
        _ => None,
    }
}

/// The pin is connected to a net that something drives and that ranks below the cell's own,
/// or it is tied to zero.
pub open spec fn pin_is_fed(
    cell: CellView,
    pin: Seq<char>,
    known: Set<i64>,
    rank: spec_fn(i64) -> nat,
) -> bool {
    match yosys_json::pin_bit(cell.connections, pin, cell.name) {
        Ok(value) => match yosys_json::bit_of(value) {
            Ok(Bit::Net(id)) => known.contains(id) && rank(id) < rank(cell.net),
            Ok(Bit::Zero) => true,
            _ => false,
        },
        Err(_) => false,
    }
}

/// The cell is of a known type and all its pins are fed; of a NOR and an OR one at least by
/// a net, of any other all.
pub open spec fn can_be_built(
    cell: CellView,
    known: Set<i64>,
    rank: spec_fn(i64) -> nat,
) -> bool {
    match yosys_json::kind_of(cell.cell_type) {
        None => false,
        Some(kind) => {
            let pins = yosys_json::pins_of(kind);
            &&& forall|p: int|
                0 <= p < pins.len() ==> pin_is_fed(cell, #[trigger] pins[p], known, rank)
            &&& if kind is Nor || kind is Or {
                exists|p: int| 0 <= p < pins.len() && pin_net(cell, #[trigger] pins[p]) is Some
            } else {
                forall|p: int| 0 <= p < pins.len() ==> pin_net(cell, #[trigger] pins[p]) is Some
            }
        },
    }
}

/// Every known net that ranks below the bound is a signal already or is driven by a cell,
/// none of them is being built, and every cell that drives a net can be built.
pub open spec fn is_ready(
    r: Reading,
    known: Set<i64>,
    rank: spec_fn(i64) -> nat,
    bound: nat,
) -> bool {
    &&& forall|id: i64| #[trigger]
        known.contains(id) && rank(id) < bound ==> r.signals.dom().contains(id)
            || r.drivers.dom().contains(id)
    &&& forall|id: i64| #[trigger] r.visiting.contains(id) ==> rank(id) >= bound
    &&& forall|net: i64| #[trigger]
        r.drivers.dom().contains(net) ==> {
            &&& r.cells[r.drivers[net]].net == net
            &&& rank(net) >= 1
            &&& can_be_built(r.cells[r.drivers[net]], known, rank)
        }
}

/// A later state of a reading: what was a signal still is one, and what a cell drove it
/// still drives or it has become a signal.
pub open spec fn goes_on(before: Reading, after: Reading) -> bool {
    &&& after.cells == before.cells
    &&& after.visiting == before.visiting
    &&& forall|id: i64| #[trigger]
        before.signals.dom().contains(id) ==> after.signals.dom().contains(id)
    &&& forall|id: i64| #[trigger]
        after.drivers.dom().contains(id) ==> before.drivers.dom().contains(id) && after.drivers[id]
            == before.drivers[id]
    &&& forall|id: i64| #[trigger]
        before.drivers.dom().contains(id) ==> after.drivers.dom().contains(id)
            || after.signals.dom().contains(id)
}

proof fn lemma_goes_on_twice(one: Reading, two: Reading, three: Reading)
    requires
        goes_on(one, two),
        goes_on(two, three),
    ensures
        goes_on(one, three),
{
}

proof fn lemma_stays_ready(
    before: Reading,
    after: Reading,
    known: Set<i64>,
    rank: spec_fn(i64) -> nat,
    bound: nat,
)
    requires
        is_ready(before, known, rank, bound),
        goes_on(before, after),
    ensures
        is_ready(after, known, rank, bound),
{
}

proof fn lemma_a_net_is_resolved(
    r: Reading,
    net: i64,
    depth: nat,
    known: Set<i64>,
    rank: spec_fn(i64) -> nat,
)
    requires
        is_ready(r, known, rank, rank(net) + 1),
        known.contains(net),
        depth >= rank(net),
    ensures
        yosys_json::resolved(r, net, depth) matches Ok((after, name)) && goes_on(r, after)
            && after.signals.dom().contains(net),
    decreases depth, 0int, 0nat,
{
    assert(!r.visiting.contains(net));
    if !r.signals.dom().contains(net) {
        assert(r.drivers.dom().contains(net));
        let entered = Reading {
            visiting: r.visiting.insert(net),
            drivers: r.drivers.remove(net),
            ..r
        };
        let cell = r.cells[r.drivers[net]];
        assert(is_ready(entered, known, rank, rank(net)));
        lemma_a_cell_is_built(entered, cell, (depth - 1) as nat, known, rank);
        let (after, name) = yosys_json::built(entered, cell, (depth - 1) as nat)->Ok_0;
        let done = yosys_json::resolved(r, net, depth)->Ok_0.0;
        assert(done.visiting =~= r.visiting);
        assert forall|id: i64| #[trigger] r.signals.dom().contains(id) implies
            done.signals.dom().contains(id) by {
            assert(entered.signals.dom().contains(id));
        }
        assert forall|id: i64| #[trigger] r.drivers.dom().contains(id) implies
            done.drivers.dom().contains(id) || done.signals.dom().contains(id) by {
            if id != net {
                assert(entered.drivers.dom().contains(id));
            }
        }
        assert forall|id: i64| #[trigger] done.drivers.dom().contains(id) implies
            r.drivers.dom().contains(id) && done.drivers[id] == r.drivers[id] by {
            assert(after.drivers.dom().contains(id));
            assert(entered.drivers.dom().contains(id));
        }
    }
}

proof fn lemma_a_cell_is_built(
    r: Reading,
    cell: CellView,
    depth: nat,
    known: Set<i64>,
    rank: spec_fn(i64) -> nat,
)
    requires
        is_ready(r, known, rank, rank(cell.net)),
        can_be_built(cell, known, rank),
        depth + 1 >= rank(cell.net),
    ensures
        yosys_json::built(r, cell, depth) matches Ok((after, name)) && goes_on(r, after),
    decreases depth, 2int, 0nat,
{
    let kind = yosys_json::kind_of(cell.cell_type)->0;
    let pins = yosys_json::pins_of(kind);
    lemma_pins_are_read(r, cell, pins, pins.len(), depth, known, rank);
    let (after, signals) = yosys_json::pins_read(r, cell, pins, pins.len(), depth)->Ok_0;
    reading_laws::lemma_which_cells_become_gates(after, cell, kind, signals);
    if kind is Nor || kind is Or {
        let p = choose|p: int|
            0 <= p < pins.len() && pin_net(cell, #[trigger] pins[p]) is Some;
        assert(signals[p] is Some);
        lemma_something_is_kept(signals, p);
    } else {
        assert forall|p: int| 0 <= p < signals.len() implies (#[trigger] signals[p]) is Some by {
            assert(pin_net(cell, pins[p]) is Some);
        }
    }
}

proof fn lemma_something_is_kept(pins: Seq<Option<Seq<char>>>, p: int)
    requires
        0 <= p < pins.len(),
        pins[p] is Some,
    ensures
        yosys_json::kept(pins).len() > 0,
    decreases pins.len(),
{
    if p < pins.len() - 1 {
        lemma_something_is_kept(pins.drop_last(), p);
    }
}

proof fn lemma_pins_are_read(
    r: Reading,
    cell: CellView,
    pins: Seq<Seq<char>>,
    count: nat,
    depth: nat,
    known: Set<i64>,
    rank: spec_fn(i64) -> nat,
)
    requires
        is_ready(r, known, rank, rank(cell.net)),
        count <= pins.len(),
        depth + 1 >= rank(cell.net),
        forall|p: int| 0 <= p < pins.len() ==> pin_is_fed(cell, #[trigger] pins[p], known, rank),
    ensures
        yosys_json::pins_read(r, cell, pins, count, depth) matches Ok((after, signals)) && goes_on(
            r,
            after,
        ) && signals.len() == count && forall|p: int|
            0 <= p < count ==> ((#[trigger] signals[p]) is Some <==> pin_net(cell, pins[p]) is Some),
    decreases depth, 1int, count,
{
    if count > 0 {
        lemma_pins_are_read(r, cell, pins, (count - 1) as nat, depth, known, rank);
        let (before, some) = yosys_json::pins_read(
            r,
            cell,
            pins,
            (count - 1) as nat,
            depth,
        )->Ok_0;
        assert(pin_is_fed(cell, pins[count - 1], known, rank));
        let value = yosys_json::pin_bit(cell.connections, pins[count - 1], cell.name)->Ok_0;
        lemma_stays_ready(r, before, known, rank, rank(cell.net));
        match yosys_json::bit_of(value) {
            Ok(Bit::Net(id)) => {
                reading_laws::lemma_what_a_bit_is(value, id);
                assert(is_ready(before, known, rank, rank(id) + 1));
                lemma_a_net_is_resolved(before, id, depth, known, rank);
                let after = yosys_json::resolved(before, id, depth)->Ok_0.0;
                lemma_goes_on_twice(r, before, after);
            },
            Ok(Bit::Zero) => {
                reading_laws::lemma_what_a_bit_is(value, 0);
            },
            _ => {},
        }
    }
}

/// No net is being built, every known net is a signal already or is driven, and every cell
/// that drives one can be built from nets of lower rank.
pub open spec fn is_combinational(
    r: Reading,
    known: Set<i64>,
    rank: spec_fn(i64) -> nat,
    depth: nat,
) -> bool {
    &&& forall|bound: nat| #[trigger] is_ready(r, known, rank, bound)
    &&& forall|id: i64| #[trigger] known.contains(id) ==> rank(id) <= depth
}

proof fn lemma_an_output_is_found(
    r: Reading,
    net: i64,
    depth: nat,
    known: Set<i64>,
    rank: spec_fn(i64) -> nat,
)
    requires
        is_combinational(r, known, rank, depth),
        known.contains(net),
    ensures
        yosys_json::output_signal(r, net, depth) matches Ok((after, name)) && is_combinational(
            after,
            known,
            rank,
            depth,
        ),
{
    assert(is_ready(r, known, rank, rank(net) + 1));
    lemma_a_net_is_resolved(r, net, depth, known, rank);
    let found = yosys_json::net_signal(r, net, depth);
    assert(found is Ok);
    let (between, name) = found->Ok_0;
    let (after, signal) = yosys_json::buffered(between, net, name);
    assert(goes_on(r, between));
    assert(goes_on(between, after));
    lemma_goes_on_twice(r, between, after);
    assert forall|bound: nat| #[trigger] is_ready(after, known, rank, bound) by {
        assert(is_ready(r, known, rank, bound));
        lemma_stays_ready(r, after, known, rank, bound);
    }
}

/// Every bit of an output port that is a known net gets its signal.
pub proof fn lemma_bits_of_an_output_are_found(
    so_far: Outputs,
    port: Seq<char>,
    bits: Seq<Json>,
    from: nat,
    depth: nat,
    known: Set<i64>,
    rank: spec_fn(i64) -> nat,
)
    requires
        from <= bits.len(),
        is_combinational(so_far.reading, known, rank, depth),
        forall|i: int|
            from <= i < bits.len() ==> (#[trigger] bits[i]) is Integer && known.contains(
                bits[i]->Integer_0,
            ),
    ensures
        yosys_json::output_bits(so_far, port, bits, from, depth) matches Ok(done)
            && is_combinational(done.reading, known, rank, depth),
    decreases bits.len() - from,
{
    if from < bits.len() {
        let bit = bits[from as int];
        let id = bit->Integer_0;
        reading_laws::lemma_what_a_bit_is(bit, id);
        lemma_an_output_is_found(so_far.reading, id, depth, known, rank);
        let (reading, signal) = yosys_json::output_signal(so_far.reading, id, depth)->Ok_0;
        let next = yosys_json::with_output(
            so_far,
            reading,
            yosys_json::bit_name(port, bits.len(), from),
            signal,
        );
        lemma_bits_of_an_output_are_found(next, port, bits, from + 1, depth, known, rank);
    }
}

/// Every port states a direction, and each output lists known nets alone.
pub open spec fn outputs_are_known(ports: Seq<(String, Json)>, known: Set<i64>) -> bool {
    forall|p: int|
        0 <= p < ports.len() ==> match yosys_json::port_bits(
            (#[trigger] ports[p]).0@,
            ports[p].1,
            "output"@,
        ) {
            Ok(None) => true,
            Ok(Some(bits)) => forall|i: int|
                0 <= i < bits.len() ==> (#[trigger] bits[i]) is Integer && known.contains(
                    bits[i]->Integer_0,
                ),
            Err(_) => false,
        }
}

/// All outputs of a module are found whose cells are of known types and whose nets are
/// driven without a cycle, each net ranking above those that it depends on.
pub proof fn lemma_outputs_are_found(
    so_far: Outputs,
    ports: Seq<(String, Json)>,
    from: nat,
    depth: nat,
    known: Set<i64>,
    rank: spec_fn(i64) -> nat,
)
    requires
        from <= ports.len(),
        is_combinational(so_far.reading, known, rank, depth),
        outputs_are_known(ports, known),
    ensures
        yosys_json::outputs_read(so_far, ports, from, depth) is Ok,
    decreases ports.len() - from,
{
    if from < ports.len() {
        let (name, port) = ports[from as int];
        assert(ports[from as int].0@ == name@);
        if let Ok(Some(bits)) = yosys_json::port_bits(name@, port, "output"@) {
            lemma_bits_of_an_output_are_found(so_far, name@, bits, 0, depth, known, rank);
            let next = yosys_json::output_bits(so_far, name@, bits, 0, depth)->Ok_0;
            lemma_outputs_are_found(next, ports, from + 1, depth, known, rank);
        } else {
            lemma_outputs_are_found(so_far, ports, from + 1, depth, known, rank);
        }
    }
}

/// The nets of a module: those of its inputs and those that its cells drive.
pub open spec fn nets_of(
    inputs: Map<i64, Seq<char>>,
    drivers: Map<i64, int>,
) -> Set<i64> {
    Set::new(|net: i64| inputs.dom().contains(net) || drivers.dom().contains(net))
}

/// A module is read if its ports and cells can be read, its outputs are nets of its own, its
/// nets can be ranked so that each cell reads only nets that rank below the one it drives,
/// with ranks from one to the number of cells for what cells drive, every cell is of a known
/// type with all its pins fed, and no cell is left over.
pub proof fn lemma_a_combinational_module_is_read(
    ports: Seq<(String, Json)>,
    fields: Seq<(String, Json)>,
    rank: spec_fn(i64) -> nat,
)
    requires
        yosys_json::inputs_read((seq![], Map::empty()), ports, 0) is Ok,
        yosys_json::cells_read((seq![], Map::empty()), fields, 0) is Ok,
        ({
            let inputs = yosys_json::inputs_read((seq![], Map::empty()), ports, 0)->Ok_0;
            let (cells, drivers) = yosys_json::cells_read(
                (seq![], Map::empty()),
                fields,
                0,
            )->Ok_0;
            let known = nets_of(inputs.1, drivers);
            &&& outputs_are_known(ports, known)
            &&& forall|id: i64| #[trigger] known.contains(id) ==> rank(id) <= fields.len()
            &&& forall|net: i64| #[trigger]
                drivers.dom().contains(net) ==> rank(net) >= 1 && can_be_built(
                    cells[drivers[net]],
                    known,
                    rank,
                )
        }),
    ensures
        ({
            let inputs = yosys_json::inputs_read((seq![], Map::empty()), ports, 0)->Ok_0;
            let cells = yosys_json::cells_read((seq![], Map::empty()), fields, 0)->Ok_0;
            let start = yosys_json::no_outputs(yosys_json::start_of(inputs, cells));
            let done = yosys_json::outputs_read(start, ports, 0, fields.len());
            &&& done is Ok
            &&& yosys_json::module_read(ports, fields) is Ok <==> yosys_json::left_over(
                done->Ok_0.reading,
                fields.len(),
            ).len() == 0
            &&& yosys_json::module_read(ports, fields) is Ok ==> {
                let found = yosys_json::module_read(ports, fields)->Ok_0;
                &&& found.0.inputs == inputs.0
                &&& found.0.outputs == done->Ok_0.signals
                &&& found.0.gates == done->Ok_0.reading.gates
                &&& found.1 == done->Ok_0.ports
            }
        }),
{
    let inputs = yosys_json::inputs_read((seq![], Map::empty()), ports, 0)->Ok_0;
    let none: (Seq<CellView>, Map<i64, int>) = (seq![], Map::empty());
    let found = yosys_json::cells_read(none, fields, 0)->Ok_0;
    let known = nets_of(inputs.1, found.1);
    let start = yosys_json::start_of(inputs, found);
    reading_laws::lemma_cells_of_a_module(none, fields, 0);
    assert forall|bound: nat| #[trigger] is_ready(start, known, rank, bound) by {
        assert forall|net: i64| #[trigger] start.drivers.dom().contains(net) implies {
            &&& start.cells[start.drivers[net]].net == net
            &&& rank(net) >= 1
            &&& can_be_built(start.cells[start.drivers[net]], known, rank)
        } by {
            assert(found.1.dom().contains(net));
        }
    }
    assert(is_combinational(start, known, rank, fields.len()));
    lemma_outputs_are_found(
        yosys_json::no_outputs(start),
        ports,
        0,
        fields.len(),
        known,
        rank,
    );
}

} // verus!
