//! What a netlist computes is what the module it was read from computes.

use crate::compile::netlist;
use crate::compile::netlist::GateView;
use crate::compile::topology;
use crate::compile::topology::GateKind;
use crate::frontend::json::Json;
use crate::frontend::yosys_json;
use crate::frontend::yosys_json::{Bit, CellView, Outputs, Reading};
use vstd::prelude::*;

verus! {

/// What a bit carries, given what every net carries.
pub open spec fn bit_value(bit: Bit, nets: spec_fn(i64) -> bool) -> bool {
    match bit {
        Bit::Net(id) => nets(id),
        Bit::Zero => false,
        Bit::One => true,
    }
}

/// What a pin of a cell carries.
pub open spec fn pin_value(cell: CellView, pin: Seq<char>, nets: spec_fn(i64) -> bool) -> bool {
    match yosys_json::pin_bit(cell.connections, pin, cell.name) {
        Ok(value) => match yosys_json::bit_of(value) {
            Ok(bit) => bit_value(bit, nets),
            Err(_) => false,
        },
        Err(_) => false,
    }
}

pub open spec fn pin_values(
    cell: CellView,
    kind: GateKind,
    nets: spec_fn(i64) -> bool,
) -> Seq<bool> {
    Seq::new(
        yosys_json::pins_of(kind).len(),
        |i: int| pin_value(cell, yosys_json::pins_of(kind)[i], nets),
    )
}

/// The cell's output carries what its kind computes of its pins.
pub open spec fn cell_agrees(cell: CellView, nets: spec_fn(i64) -> bool) -> bool {
    match yosys_json::kind_of(cell.cell_type) {
        Some(kind) => nets(cell.net) == topology::kind_value(kind, pin_values(cell, kind, nets)),
        None => true,
    }
}

/// A state of the nets that every cell agrees with.
pub open spec fn settled(cells: Seq<(String, Json)>, nets: spec_fn(i64) -> bool) -> bool {
    forall|i: int|
        0 <= i < cells.len() ==> match yosys_json::cell_read(
            (#[trigger] cells[i]).0@,
            cells[i].1,
        ) {
            Ok(cell) => cell_agrees(cell, nets),
            Err(_) => true,
        }
}

/// A name is that of a bit of a port, and the net is the bit's.
pub open spec fn is_port_bit(
    ports: Seq<(String, Json)>,
    direction: Seq<char>,
    name: Seq<char>,
    net: i64,
) -> bool {
    exists|port: int, bit: nat| #[trigger] is_bit_of(ports, direction, port, bit, name, net)
}

pub open spec fn is_bit_of(
    ports: Seq<(String, Json)>,
    direction: Seq<char>,
    port: int,
    bit: nat,
    name: Seq<char>,
    net: i64,
) -> bool {
    &&& 0 <= port < ports.len()
    &&& match yosys_json::port_bits(ports[port].0@, ports[port].1, direction) {
        Ok(Some(bits)) => bit < bits.len() && yosys_json::bit_of(bits[bit as int]) == Ok::<
            Bit,
            Seq<char>,
        >(Bit::Net(net)) && name == yosys_json::bit_name(ports[port].0@, bits.len(), bit),
        _ => false,
    }
}

/// The inputs carry what their nets carry.
pub open spec fn inputs_agree(
    ports: Seq<(String, Json)>,
    inputs: Map<Seq<char>, bool>,
    nets: spec_fn(i64) -> bool,
) -> bool {
    forall|name: Seq<char>, net: i64| #[trigger]
        is_port_bit(ports, "input"@, name, net) ==> inputs[name] == nets(net)
}

/// What every signal carries once all gates have been worked out.
spec fn values(r: Reading, inputs: Map<Seq<char>, bool>) -> Map<Seq<char>, bool> {
    netlist::carried(inputs, r.gates, r.gates.len())
}

/// A name that something drives.
spec fn known(r: Reading, name: Seq<char>) -> bool {
    r.inputs.contains(name) || exists|i: int|
        0 <= i < r.gates.len() && (#[trigger] r.gates[i]).output == name
}

/// Every gate goes by its own invented name, apart from the inputs'.
spec fn named_apart(r: Reading) -> bool {
    &&& !netlist::clashes(r.inputs, r.prefix)
    &&& forall|i: int|
        0 <= i < r.gates.len() ==> (#[trigger] r.gates[i]).output == netlist::invented(
            r.prefix,
            i as nat,
        )
}

spec fn drivers_agree(r: Reading, nets: spec_fn(i64) -> bool) -> bool {
    forall|net: i64| #[trigger]
        r.drivers.dom().contains(net) ==> r.cells[r.drivers[net]].net == net && cell_agrees(
            r.cells[r.drivers[net]],
            nets,
        )
}

spec fn names_agree(
    r: Reading,
    names: Map<i64, Seq<char>>,
    inputs: Map<Seq<char>, bool>,
    nets: spec_fn(i64) -> bool,
) -> bool {
    forall|net: i64| #[trigger]
        names.dom().contains(net) ==> known(r, names[net]) && values(r, inputs)[names[net]] == nets(
            net,
        )
}

spec fn sound(
    r: Reading,
    inputs: Map<Seq<char>, bool>,
    nets: spec_fn(i64) -> bool,
) -> bool {
    &&& named_apart(r)
    &&& drivers_agree(r, nets)
    &&& names_agree(r, r.signals, inputs, nets)
    &&& names_agree(r, r.buffers, inputs, nets)
    &&& forall|net: i64| #[trigger]
        r.buffers.dom().contains(net) ==> !r.inputs.contains(r.buffers[net])
}

/// What was driven before still is, with the same value.
spec fn extends(before: Reading, after: Reading, inputs: Map<Seq<char>, bool>) -> bool {
    forall|name: Seq<char>| #[trigger]
        known(before, name) ==> known(after, name) && values(after, inputs)[name] == values(
            before,
            inputs,
        )[name]
}

proof fn lemma_with_gate(
    r: Reading,
    kind: GateKind,
    names: Seq<Seq<char>>,
    inputs: Map<Seq<char>, bool>,
    nets: spec_fn(i64) -> bool,
)
    requires
        sound(r, inputs, nets),
    ensures
        ({
            let (after, output) = yosys_json::with_gate(r, kind, names);
            &&& sound(after, inputs, nets)
            &&& extends(r, after, inputs)
            &&& known(after, output)
            &&& !r.inputs.contains(output)
            &&& values(after, inputs)[output] == topology::kind_value(
                kind,
                netlist::read_all(names, values(r, inputs)),
            )
        }),
{
    let (after, output) = yosys_json::with_gate(r, kind, names);
    let gate = GateView { output, inputs: names, kind };
    let count = r.gates.len();
    netlist::lemma_carried_extends(inputs, r.gates, gate, count);
    assert(after.gates[count as int] == gate);
    netlist::lemma_invented_names(r.inputs, r.prefix, count, count);
    assert forall|i: int| 0 <= i < after.gates.len() implies (#[trigger] after.gates[i]).output
        == netlist::invented(after.prefix, i as nat) by {
        if i < count {
            assert(after.gates[i] == r.gates[i]);
        }
    }
    assert forall|name: Seq<char>| #[trigger] known(r, name) implies known(after, name) && values(
        after,
        inputs,
    )[name] == values(r, inputs)[name] && name != output by {
        if !r.inputs.contains(name) {
            let i = choose|i: int| 0 <= i < r.gates.len() && (#[trigger] r.gates[i]).output == name;
            assert(after.gates[i] == r.gates[i]);
            netlist::lemma_invented_names(r.inputs, r.prefix, count, i as nat);
        }
    }
}

/// What a signal carries; a pin that is tied to zero has none.
spec fn signal_values(
    signals: Seq<Option<Seq<char>>>,
    values: Map<Seq<char>, bool>,
) -> Seq<bool> {
    Seq::new(
        signals.len(),
        |i: int|
            match signals[i] {
                Some(name) => values[name],
                None => false,
            },
    )
}

/// A zero adds nothing to an OR.
proof fn lemma_zeros_drop_out(signals: Seq<Option<Seq<char>>>, values: Map<Seq<char>, bool>)
    ensures
        topology::any(netlist::read_all(yosys_json::kept(signals), values)) == topology::any(
            signal_values(signals, values),
        ),
    decreases signals.len(),
{
    let kept = yosys_json::kept(signals);
    let read = netlist::read_all(kept, values);
    let all = signal_values(signals, values);
    if signals.len() > 0 {
        let fewer = signals.drop_last();
        lemma_zeros_drop_out(fewer, values);
        let kept_before = yosys_json::kept(fewer);
        let read_before = netlist::read_all(kept_before, values);
        let all_before = signal_values(fewer, values);
        assert(all_before =~= all.drop_last());
        match signals.last() {
            Some(name) => {
                assert(read =~= read_before.push(values[name]));
                lemma_any_pushed(read_before, values[name]);
            },
            None => {
                assert(read =~= read_before);
            },
        }
        assert(all =~= all_before.push(all.last()));
        lemma_any_pushed(all_before, all.last());
    } else {
        assert(read =~= all);
    }
}

proof fn lemma_any_pushed(values: Seq<bool>, last: bool)
    ensures
        topology::any(values.push(last)) == (topology::any(values) || last),
{
    let more = values.push(last);
    if topology::any(values) {
        let i = choose|i: int| 0 <= i < values.len() && #[trigger] values[i];
        assert(more[i]);
    }
    if last {
        assert(more[values.len() as int]);
    }
    if topology::any(more) {
        let i = choose|i: int| 0 <= i < more.len() && #[trigger] more[i];
        if i < values.len() {
            assert(values[i]);
        }
    }
}

/// Where no pin is tied to zero, all of them stay.
proof fn lemma_all_kept(signals: Seq<Option<Seq<char>>>, values: Map<Seq<char>, bool>)
    requires
        forall|i: int| 0 <= i < signals.len() ==> (#[trigger] signals[i]) is Some,
    ensures
        netlist::read_all(yosys_json::kept(signals), values) == signal_values(signals, values),
    decreases signals.len(),
{
    let read = netlist::read_all(yosys_json::kept(signals), values);
    if signals.len() > 0 {
        let fewer = signals.drop_last();
        lemma_all_kept(fewer, values);
        let read_before = netlist::read_all(yosys_json::kept(fewer), values);
        assert(signals[signals.len() - 1] is Some);
        assert(read =~= read_before.push(values[signals.last()->0]));
        assert(signal_values(signals, values) =~= signal_values(fewer, values).push(
            values[signals.last()->0],
        ));
    } else {
        assert(read =~= signal_values(signals, values));
    }
}

proof fn lemma_none_tied(signals: Seq<Option<Seq<char>>>, from: int)
    requires
        0 <= from,
        yosys_json::first_tied(signals, from) is None,
    ensures
        forall|i: int| from <= i < signals.len() ==> (#[trigger] signals[i]) is Some,
    decreases signals.len() - from,
{
    if from < signals.len() {
        lemma_none_tied(signals, from + 1);
    }
}

proof fn lemma_gate_sound(
    r: Reading,
    cell: CellView,
    kind: GateKind,
    signals: Seq<Option<Seq<char>>>,
    inputs: Map<Seq<char>, bool>,
    nets: spec_fn(i64) -> bool,
)
    requires
        sound(r, inputs, nets),
        signal_values(signals, values(r, inputs)) == pin_values(cell, kind, nets),
        forall|i: int|
            0 <= i < signals.len() ==> match #[trigger] signals[i] {
                Some(name) => known(r, name),
                None => true,
            },
    ensures
        yosys_json::gate_of(r, cell, kind, signals) matches Ok((after, name)) ==> {
            &&& sound(after, inputs, nets)
            &&& extends(r, after, inputs)
            &&& known(after, name)
            &&& values(after, inputs)[name] == topology::kind_value(
                kind,
                pin_values(cell, kind, nets),
            )
        },
{
    let names = yosys_json::kept(signals);
    let carried = values(r, inputs);
    lemma_zeros_drop_out(signals, carried);
    match kind {
        GateKind::Nor(_) => {
            lemma_with_gate(r, GateKind::Nor(names.len() as usize), names, inputs, nets);
        },
        GateKind::Or(_) => {
            lemma_with_gate(r, GateKind::Or(names.len() as usize), names, inputs, nets);
            if names.len() == 1 {
                lemma_kept_is_known(r, signals);
                let read = netlist::read_all(names, carried);
                assert(topology::any(read) == read[0]);
            }
        },
        _ => {
            if yosys_json::first_tied(signals, 0) is None {
                lemma_none_tied(signals, 0);
                lemma_all_kept(signals, carried);
                lemma_with_gate(r, kind, names, inputs, nets);
            }
        },
    }
}

proof fn lemma_kept_is_known(r: Reading, signals: Seq<Option<Seq<char>>>)
    requires
        forall|i: int|
            0 <= i < signals.len() ==> match #[trigger] signals[i] {
                Some(name) => known(r, name),
                None => true,
            },
    ensures
        forall|i: int|
            0 <= i < yosys_json::kept(signals).len() ==> known(
                r,
                #[trigger] yosys_json::kept(signals)[i],
            ),
    decreases signals.len(),
{
    if signals.len() > 0 {
        let fewer = signals.drop_last();
        assert forall|i: int| 0 <= i < fewer.len() implies match #[trigger] fewer[i] {
            Some(name) => known(r, name),
            None => true,
        } by {
            assert(fewer[i] == signals[i]);
        }
        lemma_kept_is_known(r, fewer);
        let kept = yosys_json::kept(signals);
        assert(signals[signals.len() - 1] == signals.last());
        assert forall|i: int| 0 <= i < kept.len() implies known(r, #[trigger] kept[i]) by {
            if i < yosys_json::kept(fewer).len() {
                assert(kept[i] == yosys_json::kept(fewer)[i]);
            }
        }
    }
}

proof fn lemma_resolved_sound(
    r: Reading,
    net: i64,
    depth: nat,
    inputs: Map<Seq<char>, bool>,
    nets: spec_fn(i64) -> bool,
)
    requires
        sound(r, inputs, nets),
    ensures
        yosys_json::resolved(r, net, depth) matches Ok((after, name)) ==> {
            &&& sound(after, inputs, nets)
            &&& extends(r, after, inputs)
            &&& known(after, name)
            &&& values(after, inputs)[name] == nets(net)
        },
    decreases depth, 0int, 0nat,
{
    if !r.signals.dom().contains(net) && !r.visiting.contains(net) && r.drivers.dom().contains(net)
        && depth > 0 {
        let entered = Reading {
            visiting: r.visiting.insert(net),
            drivers: r.drivers.remove(net),
            ..r
        };
        let cell = r.cells[r.drivers[net]];
        assert(values(entered, inputs) == values(r, inputs));
        assert(forall|name: Seq<char>| known(entered, name) == known(r, name));
        assert(sound(entered, inputs, nets));
        lemma_built_sound(entered, cell, (depth - 1) as nat, inputs, nets);
        if let Ok((after, name)) = yosys_json::built(entered, cell, (depth - 1) as nat) {
            let done = Reading {
                visiting: after.visiting.remove(net),
                signals: after.signals.insert(net, name),
                ..after
            };
            assert(values(done, inputs) == values(after, inputs));
            assert(forall|other: Seq<char>| known(done, other) == known(after, other));
            assert(names_agree(done, done.signals, inputs, nets));
        }
    }
}

proof fn lemma_built_sound(
    r: Reading,
    cell: CellView,
    depth: nat,
    inputs: Map<Seq<char>, bool>,
    nets: spec_fn(i64) -> bool,
)
    requires
        sound(r, inputs, nets),
        cell_agrees(cell, nets),
    ensures
        yosys_json::built(r, cell, depth) matches Ok((after, name)) ==> {
            &&& sound(after, inputs, nets)
            &&& extends(r, after, inputs)
            &&& known(after, name)
            &&& values(after, inputs)[name] == nets(cell.net)
        },
    decreases depth, 2int, 0nat,
{
    if let Some(kind) = yosys_json::kind_of(cell.cell_type) {
        let pins = yosys_json::pins_of(kind);
        lemma_pins_sound(r, cell, pins, pins.len(), depth, inputs, nets);
        if let Ok((after, signals)) = yosys_json::pins_read(r, cell, pins, pins.len(), depth) {
            assert(signal_values(signals, values(after, inputs)) =~= pin_values(cell, kind, nets));
            lemma_gate_sound(after, cell, kind, signals, inputs, nets);
        }
    }
}

proof fn lemma_pins_sound(
    r: Reading,
    cell: CellView,
    pins: Seq<Seq<char>>,
    count: nat,
    depth: nat,
    inputs: Map<Seq<char>, bool>,
    nets: spec_fn(i64) -> bool,
)
    requires
        sound(r, inputs, nets),
    ensures
        yosys_json::pins_read(r, cell, pins, count, depth) matches Ok((after, signals)) ==> {
            &&& sound(after, inputs, nets)
            &&& extends(r, after, inputs)
            &&& signals.len() == count
            &&& forall|i: int|
                0 <= i < count ==> match #[trigger] signals[i] {
                    Some(name) => known(after, name) && values(after, inputs)[name] == pin_value(
                        cell,
                        pins[i],
                        nets,
                    ),
                    None => !pin_value(cell, pins[i], nets),
                }
        },
    decreases depth, 1int, count,
{
    if count > 0 {
        lemma_pins_sound(r, cell, pins, (count - 1) as nat, depth, inputs, nets);
        if let Ok((before, signals)) = yosys_json::pins_read(
            r,
            cell,
            pins,
            (count - 1) as nat,
            depth,
        ) {
            if let Ok(value) = yosys_json::pin_bit(cell.connections, pins[count - 1], cell.name) {
                if let Ok(Bit::Net(id)) = yosys_json::bit_of(value) {
                    lemma_resolved_sound(before, id, depth, inputs, nets);
                }
            }
        }
    }
}

proof fn lemma_output_sound(
    r: Reading,
    net: i64,
    depth: nat,
    inputs: Map<Seq<char>, bool>,
    nets: spec_fn(i64) -> bool,
)
    requires
        sound(r, inputs, nets),
    ensures
        yosys_json::output_signal(r, net, depth) matches Ok((after, name)) ==> {
            &&& sound(after, inputs, nets)
            &&& extends(r, after, inputs)
            &&& known(after, name)
            &&& !after.inputs.contains(name)
            &&& values(after, inputs)[name] == nets(net)
        },
{
    lemma_resolved_sound(r, net, depth, inputs, nets);
    yosys_json::lemma_resolved_keeps(r, net, depth);
    if let Ok((found, name)) = yosys_json::net_signal(r, net, depth) {
        lemma_with_gate(found, GateKind::Buf, seq![name], inputs, nets);
        let (after, output) = yosys_json::with_gate(found, GateKind::Buf, seq![name]);
        let kept = Reading { buffers: after.buffers.insert(net, output), ..after };
        assert(values(kept, inputs) == values(after, inputs));
        assert(forall|other: Seq<char>| known(kept, other) == known(after, other));
        assert(netlist::read_all(seq![name], values(found, inputs))[0] == values(
            found,
            inputs,
        )[name]);
    }
}

/// Every listed output bit carries what its net carries, and every output is
/// driven by a gate.
spec fn outputs_agree(
    so_far: Outputs,
    ports: Seq<(String, Json)>,
    inputs: Map<Seq<char>, bool>,
    nets: spec_fn(i64) -> bool,
) -> bool {
    &&& sound(so_far.reading, inputs, nets)
    &&& forall|name: Seq<char>| #[trigger]
        so_far.ports.dom().contains(name) ==> port_agrees(so_far, ports, name, inputs, nets)
    &&& forall|i: int|
        0 <= i < so_far.signals.len() ==> known(so_far.reading, #[trigger] so_far.signals[i])
            && !so_far.reading.inputs.contains(so_far.signals[i])
    &&& so_far.signals.no_duplicates()
}

spec fn port_agrees(
    so_far: Outputs,
    ports: Seq<(String, Json)>,
    name: Seq<char>,
    inputs: Map<Seq<char>, bool>,
    nets: spec_fn(i64) -> bool,
) -> bool {
    let signal = so_far.ports[name];
    &&& so_far.signals.contains(signal)
    &&& known(so_far.reading, signal)
    &&& exists|net: i64| #[trigger]
        is_port_bit(ports, "output"@, name, net) && values(so_far.reading, inputs)[signal] == nets(
            net,
        )
}

proof fn lemma_with_output(
    so_far: Outputs,
    reading: Reading,
    ports: Seq<(String, Json)>,
    name: Seq<char>,
    signal: Seq<char>,
    net: i64,
    inputs: Map<Seq<char>, bool>,
    nets: spec_fn(i64) -> bool,
)
    requires
        outputs_agree(so_far, ports, inputs, nets),
        sound(reading, inputs, nets),
        extends(so_far.reading, reading, inputs),
        reading.inputs == so_far.reading.inputs,
        known(reading, signal),
        !reading.inputs.contains(signal),
        values(reading, inputs)[signal] == nets(net),
        is_port_bit(ports, "output"@, name, net),
    ensures
        outputs_agree(
            yosys_json::with_output(so_far, reading, name, signal),
            ports,
            inputs,
            nets,
        ),
{
    let next = yosys_json::with_output(so_far, reading, name, signal);
    assert(next.signals.contains(signal)) by {
        if !so_far.signals.contains(signal) {
            assert(next.signals.last() == signal);
        }
    }
    assert forall|other: Seq<char>| so_far.signals.contains(other) implies next.signals.contains(
        other,
    ) by {
        let i = choose|i: int| 0 <= i < so_far.signals.len() && so_far.signals[i] == other;
        assert(next.signals[i] == other);
    }
    assert forall|other: Seq<char>| #[trigger] next.ports.dom().contains(other) implies port_agrees(
        next,
        ports,
        other,
        inputs,
        nets,
    ) by {
        if other != name {
            assert(so_far.ports.dom().contains(other));
            let seen = choose|seen: i64| #[trigger]
                is_port_bit(ports, "output"@, other, seen) && values(
                    so_far.reading,
                    inputs,
                )[so_far.ports[other]] == nets(seen);
            assert(is_port_bit(ports, "output"@, other, seen));
        }
    }
    assert forall|i: int| 0 <= i < next.signals.len() implies known(
        next.reading,
        #[trigger] next.signals[i],
    ) && !next.reading.inputs.contains(next.signals[i]) by {
        if i < so_far.signals.len() {
            assert(next.signals[i] == so_far.signals[i]);
        }
    }
}

proof fn lemma_output_bits_sound(
    so_far: Outputs,
    ports: Seq<(String, Json)>,
    port: int,
    from: nat,
    depth: nat,
    inputs: Map<Seq<char>, bool>,
    nets: spec_fn(i64) -> bool,
)
    requires
        0 <= port < ports.len(),
        outputs_agree(so_far, ports, inputs, nets),
        yosys_json::port_bits(ports[port].0@, ports[port].1, "output"@) matches Ok(Some(bits)),
    ensures
        ({
            let bits = yosys_json::port_bits(
                ports[port].0@,
                ports[port].1,
                "output"@,
            )->Ok_0->Some_0;
            yosys_json::output_bits(so_far, ports[port].0@, bits, from, depth) matches Ok(done)
                ==> {
                &&& outputs_agree(done, ports, inputs, nets)
                &&& done.reading.inputs == so_far.reading.inputs
                &&& so_far.ports.dom().subset_of(done.ports.dom())
                &&& forall|bit: nat, name: Seq<char>, net: i64|
                    from <= bit && #[trigger] is_bit_of(ports, "output"@, port, bit, name, net)
                        ==> done.ports.dom().contains(name)
            }
        }),
    decreases
            yosys_json::port_bits(
                ports[port].0@,
                ports[port].1,
                "output"@,
            )->Ok_0->Some_0.len() - from,
{
    let name = ports[port].0@;
    let bits = yosys_json::port_bits(name, ports[port].1, "output"@)->Ok_0->Some_0;
    if from < bits.len() {
        if let Ok(Bit::Net(id)) = yosys_json::bit_of(bits[from as int]) {
            lemma_output_sound(so_far.reading, id, depth, inputs, nets);
            yosys_json::lemma_resolved_keeps(so_far.reading, id, depth);
            if let Ok((reading, signal)) = yosys_json::output_signal(so_far.reading, id, depth) {
                let bit = yosys_json::bit_name(name, bits.len(), from);
                assert(is_bit_of(ports, "output"@, port, from, bit, id));
                lemma_with_output(so_far, reading, ports, bit, signal, id, inputs, nets);
                let next = yosys_json::with_output(so_far, reading, bit, signal);
                lemma_output_bits_sound(next, ports, port, from + 1, depth, inputs, nets);
            }
        }
    }
}

proof fn lemma_outputs_sound(
    so_far: Outputs,
    ports: Seq<(String, Json)>,
    from: nat,
    depth: nat,
    inputs: Map<Seq<char>, bool>,
    nets: spec_fn(i64) -> bool,
)
    requires
        outputs_agree(so_far, ports, inputs, nets),
    ensures
        yosys_json::outputs_read(so_far, ports, from, depth) matches Ok(done) ==> {
            &&& outputs_agree(done, ports, inputs, nets)
            &&& done.reading.inputs == so_far.reading.inputs
            &&& so_far.ports.dom().subset_of(done.ports.dom())
            &&& forall|port: int, bit: nat, name: Seq<char>, net: i64|
                from <= port && #[trigger] is_bit_of(ports, "output"@, port, bit, name, net)
                    ==> done.ports.dom().contains(name)
        },
    decreases ports.len() - from,
{
    if from < ports.len() {
        let (name, port) = ports[from as int];
        if let Ok(found) = yosys_json::port_bits(name@, port, "output"@) {
            match found {
                None => {
                    lemma_outputs_sound(so_far, ports, from + 1, depth, inputs, nets);
                },
                Some(bits) => {
                    lemma_output_bits_sound(
                        so_far,
                        ports,
                        from as int,
                        0,
                        depth,
                        inputs,
                        nets,
                    );
                    if let Ok(next) = yosys_json::output_bits(so_far, name@, bits, 0, depth) {
                        lemma_outputs_sound(next, ports, from + 1, depth, inputs, nets);
                    }
                },
            }
        }
    }
}

/// Names and nets of inputs belong together.
spec fn inputs_listed(
    so_far: (Seq<Seq<char>>, Map<i64, Seq<char>>),
    ports: Seq<(String, Json)>,
) -> bool {
    forall|net: i64| #[trigger]
        so_far.1.dom().contains(net) ==> so_far.0.contains(so_far.1[net]) && is_port_bit(
            ports,
            "input"@,
            so_far.1[net],
            net,
        )
}

proof fn lemma_input_bits_listed(
    so_far: (Seq<Seq<char>>, Map<i64, Seq<char>>),
    ports: Seq<(String, Json)>,
    port: int,
    from: nat,
)
    requires
        0 <= port < ports.len(),
        inputs_listed(so_far, ports),
        yosys_json::port_bits(ports[port].0@, ports[port].1, "input"@) matches Ok(Some(bits)),
    ensures
        ({
            let bits = yosys_json::port_bits(
                ports[port].0@,
                ports[port].1,
                "input"@,
            )->Ok_0->Some_0;
            yosys_json::input_bits(so_far, ports[port].0@, bits, from) matches Ok(done)
                ==> inputs_listed(done, ports)
        }),
    decreases
            yosys_json::port_bits(
                ports[port].0@,
                ports[port].1,
                "input"@,
            )->Ok_0->Some_0.len() - from,
{
    let name = ports[port].0@;
    let bits = yosys_json::port_bits(name, ports[port].1, "input"@)->Ok_0->Some_0;
    if from < bits.len() {
        if let Ok(Bit::Net(id)) = yosys_json::bit_of(bits[from as int]) {
            let bit = yosys_json::bit_name(name, bits.len(), from);
            assert(is_bit_of(ports, "input"@, port, from, bit, id));
            let next = (so_far.0.push(bit), so_far.1.insert(id, bit));
            assert forall|net: i64| #[trigger] next.1.dom().contains(net) implies next.0.contains(
                next.1[net],
            ) && is_port_bit(ports, "input"@, next.1[net], net) by {
                if net == id {
                    assert(next.0.last() == bit);
                } else {
                    assert(so_far.1.dom().contains(net));
                    let i = choose|i: int|
                        0 <= i < so_far.0.len() && so_far.0[i] == so_far.1[net];
                    assert(next.0[i] == so_far.1[net]);
                }
            }
            lemma_input_bits_listed(next, ports, port, from + 1);
        }
    }
}

proof fn lemma_inputs_listed(
    so_far: (Seq<Seq<char>>, Map<i64, Seq<char>>),
    ports: Seq<(String, Json)>,
    from: nat,
)
    requires
        inputs_listed(so_far, ports),
    ensures
        yosys_json::inputs_read(so_far, ports, from) matches Ok(done) ==> inputs_listed(
            done,
            ports,
        ),
    decreases ports.len() - from,
{
    if from < ports.len() {
        let (name, port) = ports[from as int];
        if let Ok(found) = yosys_json::port_bits(name@, port, "input"@) {
            match found {
                None => {
                    lemma_inputs_listed(so_far, ports, from + 1);
                },
                Some(bits) => {
                    lemma_input_bits_listed(so_far, ports, from as int, 0);
                    if let Ok(next) = yosys_json::input_bits(so_far, name@, bits, 0) {
                        lemma_inputs_listed(next, ports, from + 1);
                    }
                },
            }
        }
    }
}

/// The cells are those of the module, and each driver drives its own net.
spec fn cells_listed(
    so_far: (Seq<CellView>, Map<i64, int>),
    fields: Seq<(String, Json)>,
) -> bool {
    &&& so_far.0.len() <= fields.len()
    &&& forall|i: int|
        0 <= i < so_far.0.len() ==> yosys_json::cell_read(fields[i].0@, fields[i].1) == Ok::<
            CellView,
            Seq<char>,
        >(#[trigger] so_far.0[i])
    &&& forall|net: i64| #[trigger]
        so_far.1.dom().contains(net) ==> 0 <= so_far.1[net] < so_far.0.len()
            && so_far.0[so_far.1[net]].net == net
}

proof fn lemma_cells_listed(
    so_far: (Seq<CellView>, Map<i64, int>),
    fields: Seq<(String, Json)>,
    from: nat,
)
    requires
        from == so_far.0.len(),
        cells_listed(so_far, fields),
    ensures
        yosys_json::cells_read(so_far, fields, from) matches Ok(done) ==> cells_listed(
            done,
            fields,
        ) && done.0.len() == fields.len(),
    decreases fields.len() - from,
{
    if from < fields.len() {
        if let Ok(cell) = yosys_json::cell_read(fields[from as int].0@, fields[from as int].1) {
            let next = (so_far.0.push(cell), so_far.1.insert(cell.net, from as int));
            assert forall|i: int| 0 <= i < next.0.len() implies yosys_json::cell_read(
                fields[i].0@,
                fields[i].1,
            ) == Ok::<CellView, Seq<char>>(#[trigger] next.0[i]) by {
                if i < from {
                    assert(next.0[i] == so_far.0[i]);
                }
            }
            lemma_cells_listed(next, fields, from + 1);
        }
    }
}

/// A netlist computes what its module computes. Take any state of the module's
/// nets that every cell agrees with, and let the netlist's inputs carry what
/// their nets carry. Then the signal of every bit of an output port carries what
/// the net behind that bit carries.
///
/// Moreover, every bit of an output port has a signal, the signals of ports are
/// the netlist's outputs, no output is listed twice, and each is driven by a
/// gate, never a bare input.
pub proof fn lemma_netlist_computes_its_module(
    value: Json,
    top_module: Seq<char>,
    inputs: Map<Seq<char>, bool>,
    nets: spec_fn(i64) -> bool,
)
    requires
        yosys_json::netlist_read(value, top_module) is Ok,
        settled(yosys_json::module_of(value, top_module)->Ok_0.1, nets),
        inputs_agree(yosys_json::module_of(value, top_module)->Ok_0.0, inputs, nets),
    ensures
        ({
            let ports = yosys_json::module_of(value, top_module)->Ok_0.0;
            let (found, signals) = yosys_json::netlist_read(value, top_module)->Ok_0;
            let carried = netlist::carried(inputs, found.gates, found.gates.len());
            &&& forall|name: Seq<char>| #[trigger]
                signals.dom().contains(name) ==> found.outputs.contains(signals[name]) && exists|
                    net: i64,
                | #[trigger]
                    is_port_bit(ports, "output"@, name, net) && carried[signals[name]] == nets(net)
            &&& forall|name: Seq<char>, net: i64| #[trigger]
                is_port_bit(ports, "output"@, name, net) ==> signals.dom().contains(name)
            &&& found.outputs.no_duplicates()
            &&& forall|i: int|
                0 <= i < found.outputs.len() ==> !found.inputs.contains(#[trigger] found.outputs[i])
                    && exists|gate: int|
                    0 <= gate < found.gates.len() && (#[trigger] found.gates[gate]).output
                        == found.outputs[i]
        }),
{
    let (ports, fields) = yosys_json::module_of(value, top_module)->Ok_0;
    let none: (Seq<Seq<char>>, Map<i64, Seq<char>>) = (seq![], Map::empty());
    let no_cells: (Seq<CellView>, Map<i64, int>) = (seq![], Map::empty());
    lemma_inputs_listed(none, ports, 0);
    lemma_cells_listed(no_cells, fields, 0);
    let named = yosys_json::inputs_read(none, ports, 0)->Ok_0;
    let cells = yosys_json::cells_read(no_cells, fields, 0)->Ok_0;
    let start = yosys_json::start_of(named, cells);
    netlist::lemma_fresh_prefix_exists(named.0);
    assert forall|net: i64| #[trigger] start.drivers.dom().contains(net) implies start.cells[start.drivers[net]].net
        == net && cell_agrees(start.cells[start.drivers[net]], nets) by {
        let i = start.drivers[net];
        assert(fields[i] == fields[i]);
        assert(start.cells[i] == cells.0[i]);
    }
    assert forall|net: i64| #[trigger] start.signals.dom().contains(net) implies known(
        start,
        start.signals[net],
    ) && values(start, inputs)[start.signals[net]] == nets(net) by {
        assert(is_port_bit(ports, "input"@, start.signals[net], net));
    }
    let begun = yosys_json::no_outputs(start);
    assert(outputs_agree(begun, ports, inputs, nets));
    lemma_outputs_sound(begun, ports, 0, fields.len(), inputs, nets);
    let done = yosys_json::outputs_read(begun, ports, 0, fields.len())->Ok_0;
    let (found, signals) = yosys_json::netlist_read(value, top_module)->Ok_0;
    assert forall|name: Seq<char>| #[trigger] signals.dom().contains(name) implies found.outputs.contains(
        signals[name],
    ) && exists|net: i64| #[trigger]
        is_port_bit(ports, "output"@, name, net) && netlist::carried(
            inputs,
            found.gates,
            found.gates.len(),
        )[signals[name]] == nets(net) by {
        assert(port_agrees(done, ports, name, inputs, nets));
    }
    assert forall|name: Seq<char>, net: i64| #[trigger]
        is_port_bit(ports, "output"@, name, net) implies signals.dom().contains(name) by {
        let (port, bit) = choose|port: int, bit: nat| #[trigger]
            is_bit_of(ports, "output"@, port, bit, name, net);
        assert(is_bit_of(ports, "output"@, port, bit, name, net));
    }
    assert forall|i: int| 0 <= i < found.outputs.len() implies !found.inputs.contains(
        #[trigger] found.outputs[i],
    ) && exists|gate: int|
        0 <= gate < found.gates.len() && (#[trigger] found.gates[gate]).output
            == found.outputs[i] by {
        assert(found.outputs[i] == done.signals[i]);
        assert(known(done.reading, done.signals[i]));
        assert(found.inputs == done.reading.inputs);
        assert(!done.reading.inputs.contains(done.signals[i]));
        let gate = choose|gate: int|
            0 <= gate < done.reading.gates.len() && (#[trigger] done.reading.gates[gate]).output
                == done.signals[i];
        assert(found.gates[gate].output == found.outputs[i]);
    }
}

} // verus!
