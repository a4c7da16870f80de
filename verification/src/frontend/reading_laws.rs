//! What reading a synthesised module promises: what its cells and bits mean, which names its
//! inputs get, and which module is read.

use crate::compile::topology;
use crate::compile::gate_laws;
use crate::compile::topology::GateKind;
use crate::frontend;
use crate::frontend::json;
use crate::frontend::json::Json;
use crate::frontend::meaning;
use crate::frontend::yosys_json;
use crate::frontend::yosys_json::{Bit, CellView, Reading};
use crate::text;
use vstd::prelude::*;

verus! {

/// The value of a field is that of the first field of its name; a value that is no object
/// has no fields.
pub proof fn lemma_the_first_field_counts(
    fields: Seq<(String, Json)>,
    name: Seq<char>,
    from: int,
)
    requires
        0 <= from,
    ensures
        match json::field_from(fields, name, from) {
            Some(value) => exists|i: int|
                from <= i < fields.len() && (#[trigger] fields[i]).0@ == name && fields[i].1
                    == value && forall|j: int|
                    from <= j < i ==> (#[trigger] fields[j]).0@ != name,
            None => forall|i: int| from <= i < fields.len() ==> (#[trigger] fields[i]).0@ != name,
        },
    decreases fields.len() - from,
{
    if from < fields.len() {
        if fields[from].0@ == name {
            assert(fields[from].1 == json::field_from(fields, name, from)->0);
        } else {
            lemma_the_first_field_counts(fields, name, from + 1);
            if let Some(value) = json::field_from(fields, name, from + 1) {
                let i = choose|i: int|
                    from + 1 <= i < fields.len() && (#[trigger] fields[i]).0@ == name
                        && fields[i].1 == value && forall|j: int|
                        from + 1 <= j < i ==> (#[trigger] fields[j]).0@ != name;
                assert(fields[i].0@ == name);
            }
        }
    }
}

/// Only an object has members, and its members are its fields.
pub proof fn lemma_members_of_a_value(value: Json, name: Seq<char>)
    ensures
        json::member(value, name) is Some ==> value is Object,
        value matches Json::Object(fields) ==> json::member(value, name) == json::field_from(
            fields@,
            name,
            0,
        ),
{
}

/// A bit is a net if it is written as an integer, and zero or one if it is written as that
/// digit in quotes; nothing else is a bit.
pub proof fn lemma_what_a_bit_is(value: Json, net: i64)
    ensures
        yosys_json::bit_of(value) == Ok::<Bit, Seq<char>>(Bit::Net(net)) <==> value
            == Json::Integer(net),
        yosys_json::bit_of(value) == Ok::<Bit, Seq<char>>(Bit::Zero) <==> (value matches Json::Text(
            written,
        ) && written@ == seq!['0']),
        yosys_json::bit_of(value) == Ok::<Bit, Seq<char>>(Bit::One) <==> (value matches Json::Text(
            written,
        ) && written@ == seq!['1']),
{
    reveal_strlit("0");
    reveal_strlit("1");
    assert("0"@ =~= seq!['0']);
    assert("1"@ =~= seq!['1']);
    assert(seq!['0'][0] != seq!['1'][0]);
}

/// A pin is connected to a bit exactly if its connection is a list of that bit alone.
pub proof fn lemma_what_a_pin_is_connected_to(
    connections: Seq<(String, Json)>,
    pin: Seq<char>,
    cell: Seq<char>,
    bit: Json,
)
    ensures
        yosys_json::pin_bit(connections, pin, cell) == Ok::<Json, Seq<char>>(bit) <==> (json::field(
            connections,
            pin,
        ) matches Some(Json::Array(items)) && items@.len() == 1 && items@[0] == bit),
{
}

/// The pins of each kind, in the order of the inputs: by the letters of the alphabet, and
/// for a multiplexer the selecting pin last.
pub proof fn lemma_pins_of_gates(kind: GateKind)
    requires
        topology::kind_arity(kind) <= 4,
        topology::kind_arity(kind) >= 1,
    ensures
        yosys_json::pins_of(kind).len() == topology::kind_arity(kind),
        yosys_json::pins_of(kind)[0] == "A"@,
        topology::kind_arity(kind) >= 2 ==> yosys_json::pins_of(kind)[1] == "B"@,
        kind is Mux || kind is Nmux ==> yosys_json::pins_of(kind)[2] == "S"@,
        topology::kind_arity(kind) >= 3 && !(kind is Mux) && !(kind is Nmux)
            ==> yosys_json::pins_of(kind)[2] == "C"@,
        topology::kind_arity(kind) == 4 ==> yosys_json::pins_of(kind)[3] == "D"@,
{
}

/// What the cells that synthesis emits compute of their pins.
#[verifier::rlimit(60)]
pub proof fn lemma_what_cells_compute(cell: CellView, nets: spec_fn(i64) -> bool)
    ensures
        ({
            let a = meaning::pin_value(cell, "A"@, nets);
            let b = meaning::pin_value(cell, "B"@, nets);
            let c = meaning::pin_value(cell, "C"@, nets);
            let d = meaning::pin_value(cell, "D"@, nets);
            let s = meaning::pin_value(cell, "S"@, nets);
            let y = nets(cell.net);
            let is = |name: Seq<char>| cell.cell_type == name;
            let agrees = meaning::cell_agrees(cell, nets);
            &&& is("$_NOT_"@) ==> (agrees <==> y == !a)
            &&& is("$_BUF_"@) ==> (agrees <==> y == a)
            &&& is("$_NOR_"@) ==> (agrees <==> y == !(a || b))
            &&& is("$_OR_"@) ==> (agrees <==> y == (a || b))
            &&& is("$_AND_"@) ==> (agrees <==> y == (a && b))
            &&& is("$_NAND_"@) ==> (agrees <==> y == !(a && b))
            &&& is("$_XOR_"@) ==> (agrees <==> y == (a != b))
            &&& is("$_XNOR_"@) ==> (agrees <==> y == (a == b))
            &&& is("$_ANDNOT_"@) ==> (agrees <==> y == (a && !b))
            &&& is("$_ORNOT_"@) ==> (agrees <==> y == (a || !b))
            &&& is("$_AOI3_"@) ==> (agrees <==> y == !((a && b) || c))
            &&& is("$_OAI3_"@) ==> (agrees <==> y == !((a || b) && c))
            &&& is("$_AOI4_"@) ==> (agrees <==> y == !((a && b) || (c && d)))
            &&& is("$_OAI4_"@) ==> (agrees <==> y == !((a || b) && (c || d)))
            &&& is("$_MUX_"@) ==> (agrees <==> y == (if s {
                b
            } else {
                a
            }))
            &&& is("$_NMUX_"@) ==> (agrees <==> y != (if s {
                b
            } else {
                a
            }))
        }),
{
    gate_laws::lemma_which_cell_is_which_gate(cell.cell_type);
    if let Some(kind) = yosys_json::kind_of(cell.cell_type) {
        let v = meaning::pin_values(cell, kind, nets);
        if kind is Nor || kind is Or {
            if topology::kind_arity(kind) == 1 {
                assert(topology::any(v) == v[0]);
            } else {
                assert(topology::any(v) == (v[0] || v[1]));
            }
        }
    }
}

/// A port has bits in a direction exactly if it states the direction and lists its bits; it
/// is passed over exactly if it states another.
pub proof fn lemma_bits_of_a_port(name: Seq<char>, port: Json, direction: Seq<char>)
    ensures
        ({
            let stated = json::member(port, "direction"@);
            let listed = json::member(port, "bits"@);
            let found = yosys_json::port_bits(name, port, direction);
            let has_bits = found is Ok && found->Ok_0 is Some;
            let passed_over = found is Ok && found->Ok_0 is None;
            let agrees = (stated matches Some(Json::Text(written)) && written@ == direction);
            let differs = (stated matches Some(Json::Text(written)) && written@ != direction);
            let lists = (listed matches Some(Json::Array(_)));
            &&& has_bits <==> agrees && lists
            &&& passed_over <==> differs
            &&& has_bits ==> (listed matches Some(Json::Array(items)) && items@
                == found->Ok_0->0)
        }),
{
}

/// A port of one bit goes by its own name, and each bit of any other by the name of the
/// port with the number of the bit.
pub proof fn lemma_names_of_bits(port: Seq<char>, width: nat, index: nat)
    ensures
        width == 1 ==> yosys_json::bit_name(port, width, index) == port,
        width != 1 ==> yosys_json::bit_name(port, width, index) == port + seq!['[']
            + text::decimal(index) + seq![']'],
{
    reveal_strlit("[");
    reveal_strlit("]");
    assert("["@ =~= seq!['[']);
    assert("]"@ =~= seq![']']);
}

/// An input port adds the names of its bits, in order, and each net gets the name of its
/// bit.
pub proof fn lemma_bits_of_an_input(
    so_far: (Seq<Seq<char>>, Map<i64, Seq<char>>),
    port: Seq<char>,
    bits: Seq<Json>,
    from: nat,
)
    requires
        from <= bits.len(),
    ensures
        yosys_json::input_bits(so_far, port, bits, from) is Ok <==> forall|i: int|
            from <= i < bits.len() ==> (#[trigger] bits[i]) is Integer,
        yosys_json::input_bits(so_far, port, bits, from) matches Ok((names, nets)) ==> {
            &&& names.len() == so_far.0.len() + bits.len() - from
            &&& forall|i: int| 0 <= i < so_far.0.len() ==> #[trigger] names[i] == so_far.0[i]
            &&& forall|i: int|
                from <= i < bits.len() ==> names[so_far.0.len() + i - from]
                    == #[trigger] yosys_json::bit_name(port, bits.len(), i as nat)
            &&& forall|i: int|
                from <= i < bits.len() ==> nets.dom().contains((#[trigger] bits[i])->Integer_0)
            &&& forall|net: i64| #[trigger]
                so_far.1.dom().contains(net) ==> nets.dom().contains(net)
        },
    decreases bits.len() - from,
{
    if from < bits.len() {
        lemma_what_a_bit_is(bits[from as int], bits[from as int]->Integer_0);
        if let Ok(Bit::Net(id)) = yosys_json::bit_of(bits[from as int]) {
            let name = yosys_json::bit_name(port, bits.len(), from);
            let next = (so_far.0.push(name), so_far.1.insert(id, name));
            lemma_bits_of_an_input(next, port, bits, from + 1);
            if let Ok((names, nets)) = yosys_json::input_bits(so_far, port, bits, from) {
                assert forall|i: int| from <= i < bits.len() implies names[so_far.0.len() + i
                    - from] == #[trigger] yosys_json::bit_name(port, bits.len(), i as nat) by {
                    if i == from {
                        assert(names[so_far.0.len() as int] == next.0[so_far.0.len() as int]);
                    } else {
                        assert(names[next.0.len() + i - (from + 1)] == yosys_json::bit_name(
                            port,
                            bits.len(),
                            i as nat,
                        ));
                    }
                }
                assert forall|i: int| 0 <= i < so_far.0.len() implies #[trigger] names[i]
                    == so_far.0[i] by {
                    assert(names[i] == next.0[i]);
                }
                assert forall|i: int| from <= i < bits.len() implies nets.dom().contains(
                    (#[trigger] bits[i])->Integer_0,
                ) by {
                    if i == from {
                        assert(next.1.dom().contains(id));
                    }
                }
                assert forall|net: i64| #[trigger] so_far.1.dom().contains(net) implies
                    nets.dom().contains(net) by {
                    assert(next.1.dom().contains(net));
                }
            }
        } else {
            lemma_what_a_bit_is(bits[from as int], 0);
            assert(!(bits[from as int] is Integer));
        }
    }
}

/// How many inputs the ports from one on have.
pub open spec fn input_count(ports: Seq<(String, Json)>, from: nat) -> nat
    decreases ports.len() - from,
{
    if from >= ports.len() {
        0
    } else {
        input_count(ports, from + 1) + match yosys_json::port_bits(
            ports[from as int].0@,
            ports[from as int].1,
            "input"@,
        ) {
            Ok(Some(bits)) => bits.len(),
            _ => 0nat,
        }
    }
}

/// The inputs of a module are the bits of its input ports, port after port, and every one
/// of them.
pub proof fn lemma_inputs_of_a_module(
    so_far: (Seq<Seq<char>>, Map<i64, Seq<char>>),
    ports: Seq<(String, Json)>,
    from: nat,
)
    requires
        from <= ports.len(),
        yosys_json::inputs_read(so_far, ports, from) is Ok,
    ensures
        ({
            let (names, nets) = yosys_json::inputs_read(so_far, ports, from)->Ok_0;
            &&& names.len() == so_far.0.len() + input_count(ports, from)
            &&& forall|i: int| 0 <= i < so_far.0.len() ==> #[trigger] names[i] == so_far.0[i]
            &&& forall|port: int, bit: nat, name: Seq<char>, net: i64|
                from <= port && #[trigger] meaning::is_bit_of(
                    ports,
                    "input"@,
                    port,
                    bit,
                    name,
                    net,
                ) ==> names.contains(name) && nets.dom().contains(net)
            &&& forall|net: i64| #[trigger]
                so_far.1.dom().contains(net) ==> nets.dom().contains(net)
        }),
    decreases ports.len() - from,
{
    if from < ports.len() {
        let (label, port) = ports[from as int];
        let found = yosys_json::port_bits(label@, port, "input"@);
        let (names, nets) = yosys_json::inputs_read(so_far, ports, from)->Ok_0;
        if let Ok(Some(bits)) = found {
            lemma_bits_of_an_input(so_far, label@, bits, 0);
            let next = yosys_json::input_bits(so_far, label@, bits, 0)->Ok_0;
            lemma_inputs_of_a_module(next, ports, from + 1);
            assert forall|i: int| 0 <= i < so_far.0.len() implies #[trigger] names[i]
                == so_far.0[i] by {
                assert(names[i] == next.0[i]);
            }
            assert forall|p: int, bit: nat, name: Seq<char>, net: i64|
                from <= p && #[trigger] meaning::is_bit_of(
                    ports,
                    "input"@,
                    p,
                    bit,
                    name,
                    net,
                ) implies names.contains(name) && nets.dom().contains(net) by {
                if p == from {
                    lemma_what_a_bit_is(bits[bit as int], net);
                    let at = (so_far.0.len() + bit) as int;
                    let k = bit as int;
                    assert(next.0[so_far.0.len() + k - 0] == yosys_json::bit_name(
                        label@,
                        bits.len(),
                        k as nat,
                    ));
                    assert(names[at] == next.0[at]);
                    assert(next.1.dom().contains(bits[bit as int]->Integer_0));
                }
            }
            assert forall|net: i64| #[trigger] so_far.1.dom().contains(net) implies
                nets.dom().contains(net) by {
                assert(next.1.dom().contains(net));
            }
        } else {
            lemma_inputs_of_a_module(so_far, ports, from + 1);
        }
    }
}

/// A cell is read exactly if it states its type and its connections and its output is
/// connected to one net, which it then drives.
pub proof fn lemma_which_cells_are_read(name: Seq<char>, cell: Json)
    ensures
        ({
            let read = yosys_json::cell_read(name, cell);
            let stated = json::member(cell, "type"@);
            let listed = json::member(cell, "connections"@);
            let typed = (stated matches Some(Json::Text(_)));
            let drives = (listed matches Some(Json::Object(connections)) && json::field(
                connections@,
                "Y"@,
            ) matches Some(Json::Array(items)) && items@.len() == 1 && items@[0] is Integer);
            &&& read is Ok <==> typed && drives
            &&& read is Ok ==> {
                let found = read->Ok_0;
                let same_type = (stated matches Some(Json::Text(written)) && written@
                    == found.cell_type);
                let same_pins = (listed matches Some(Json::Object(connections)) && connections@
                    == found.connections);
                let output = (json::field(found.connections, "Y"@) matches Some(
                    Json::Array(items),
                ) && items@[0] == Json::Integer(found.net));
                found.name == name && same_type && same_pins && output
            }
        }),
{
    if let Some(Json::Object(connections)) = json::member(cell, "connections"@) {
        if let Some(Json::Array(items)) = json::field(connections@, "Y"@) {
            if items@.len() == 1 {
                lemma_what_a_bit_is(items@[0], items@[0]->Integer_0);
                if let Ok(Bit::Net(net)) = yosys_json::bit_of(items@[0]) {
                    lemma_what_a_bit_is(items@[0], net);
                }
            }
        }
    }
}

/// All cells are read, in order, and a net is driven by the last cell that names it as its
/// output.
pub proof fn lemma_cells_of_a_module(
    so_far: (Seq<CellView>, Map<i64, int>),
    fields: Seq<(String, Json)>,
    from: nat,
)
    requires
        from <= fields.len(),
        so_far.0.len() == from,
    ensures
        yosys_json::cells_read(so_far, fields, from) is Ok <==> forall|i: int|
            from <= i < fields.len() ==> yosys_json::cell_read(
                (#[trigger] fields[i]).0@,
                fields[i].1,
            ) is Ok,
        yosys_json::cells_read(so_far, fields, from) matches Ok((cells, drivers)) ==> {
            &&& cells.len() == fields.len()
            &&& forall|i: int| 0 <= i < from ==> #[trigger] cells[i] == so_far.0[i]
            &&& forall|i: int|
                from <= i < fields.len() ==> yosys_json::cell_read(fields[i].0@, fields[i].1)
                    == Ok::<CellView, Seq<char>>(#[trigger] cells[i])
            &&& forall|i: int|
                from <= i < fields.len() ==> drivers.dom().contains((#[trigger] cells[i]).net)
                    && drivers[cells[i].net] >= i
            &&& forall|net: i64| #[trigger]
                drivers.dom().contains(net) ==> (so_far.1.dom().contains(net) && drivers[net]
                    == so_far.1[net]) || (from <= drivers[net] < fields.len()
                    && cells[drivers[net]].net == net)
            &&& forall|net: i64| #[trigger]
                so_far.1.dom().contains(net) ==> drivers.dom().contains(net)
        },
    decreases fields.len() - from,
{
    if from < fields.len() {
        if let Ok(cell) = yosys_json::cell_read(fields[from as int].0@, fields[from as int].1) {
            let next = (so_far.0.push(cell), so_far.1.insert(cell.net, from as int));
            lemma_cells_of_a_module(next, fields, from + 1);
            if let Ok((cells, drivers)) = yosys_json::cells_read(so_far, fields, from) {
                assert(cells[from as int] == next.0[from as int]);
                assert forall|i: int| 0 <= i < from implies #[trigger] cells[i] == so_far.0[i] by {
                    assert(cells[i] == next.0[i]);
                }
                assert(next.1.dom().contains(cell.net));
                assert forall|i: int| from <= i < fields.len() implies drivers.dom().contains(
                    (#[trigger] cells[i]).net,
                ) && drivers[cells[i].net] >= i by {
                    if i == from {
                        assert(drivers.dom().contains(cell.net));
                    }
                }
                assert forall|net: i64| #[trigger] drivers.dom().contains(net) implies (
                so_far.1.dom().contains(net) && drivers[net] == so_far.1[net]) || (from
                    <= drivers[net] < fields.len() && cells[drivers[net]].net == net) by {}
                assert forall|net: i64| #[trigger] so_far.1.dom().contains(net) implies
                    drivers.dom().contains(net) by {
                    assert(next.1.dom().contains(net));
                }
            }
        }
    }
}

/// The signals that are kept are those of the pins that are not tied to zero, in order.
pub proof fn lemma_which_pins_are_kept(pins: Seq<Option<Seq<char>>>)
    ensures
        yosys_json::kept(pins) == pins.filter(|pin: Option<Seq<char>>| pin is Some).map_values(
            |pin: Option<Seq<char>>| pin->0,
        ),
    decreases pins.len(),
{
    let pred = |pin: Option<Seq<char>>| pin is Some;
    let inside = |pin: Option<Seq<char>>| pin->0;
    if pins.len() == 0 {
        pins.lemma_filter_len(pred);
        assert(yosys_json::kept(pins) =~= pins.filter(pred).map_values(inside));
    } else {
        let before = pins.drop_last();
        lemma_which_pins_are_kept(before);
        assert(pins =~= before.push(pins.last()));
        before.lemma_filter_push(pins.last(), pred);
        assert(yosys_json::kept(pins) =~= pins.filter(pred).map_values(inside));
    }
}

/// The first pin that is tied to zero.
pub proof fn lemma_the_first_tied_pin(pins: Seq<Option<Seq<char>>>, from: int)
    requires
        0 <= from,
    ensures
        match yosys_json::first_tied(pins, from) {
            Some(at) => from <= at < pins.len() && pins[at] is None && forall|i: int|
                from <= i < at ==> (#[trigger] pins[i]) is Some,
            None => forall|i: int| from <= i < pins.len() ==> (#[trigger] pins[i]) is Some,
        },
    decreases pins.len() - from,
{
    if from < pins.len() && pins[from] is Some {
        lemma_the_first_tied_pin(pins, from + 1);
    }
}

/// A cell becomes a gate exactly if enough of its pins carry a signal: a NOR and an OR one at
/// least, any other all. What it becomes reads the signals that are kept; an OR of one signal is
/// that signal, without a gate.
pub proof fn lemma_which_cells_become_gates(
    r: Reading,
    cell: CellView,
    kind: GateKind,
    pins: Seq<Option<Seq<char>>>,
)
    ensures
        ({
            let made = yosys_json::gate_of(r, cell, kind, pins);
            let names = yosys_json::kept(pins);
            let spreads = kind is Nor || kind is Or;
            &&& made is Ok <==> (if spreads {
                names.len() > 0
            } else {
                forall|i: int| 0 <= i < pins.len() ==> (#[trigger] pins[i]) is Some
            })
            &&& made is Ok ==> {
                let (after, signal) = made->Ok_0;
                if kind is Or && names.len() == 1 {
                    after == r && signal == names[0]
                } else {
                    &&& after.gates.len() == r.gates.len() + 1
                    &&& after.gates.drop_last() == r.gates
                    &&& after.gates.last().inputs == names
                    &&& after.gates.last().output == signal
                    &&& kind is Nor ==> after.gates.last().kind == GateKind::Nor(
                        names.len() as usize,
                    )
                    &&& kind is Or ==> after.gates.last().kind == GateKind::Or(
                        names.len() as usize,
                    )
                    &&& !spreads ==> after.gates.last().kind == kind
                }
            }
        }),
{
    lemma_the_first_tied_pin(pins, 0);
    if let Ok((after, signal)) = yosys_json::gate_of(r, cell, kind, pins) {
        if !(kind is Or && yosys_json::kept(pins).len() == 1) {
            assert(after.gates.drop_last() =~= r.gates);
        }
    }
}

/// An output is never a bare input: an input gets one buffer for each net, which is used
/// again.
pub proof fn lemma_outputs_are_buffered(r: Reading, net: i64, name: Seq<char>)
    ensures
        ({
            let (after, signal) = yosys_json::buffered(r, net, name);
            let (again, same) = yosys_json::buffered(after, net, name);
            &&& !r.inputs.contains(name) ==> after == r && signal == name
            &&& r.inputs.contains(name) ==> after.buffers.dom().contains(net)
                && after.buffers[net] == signal
            &&& r.inputs.contains(name) && !r.buffers.dom().contains(net) ==> {
                &&& after.gates.len() == r.gates.len() + 1
                &&& after.gates.last().kind is Buf
                &&& after.gates.last().inputs == seq![name]
                &&& after.gates.last().output == signal
            }
            &&& r.inputs.contains(name) && r.buffers.dom().contains(net) ==> after == r
            &&& again == after && same == signal
        }),
{
}

/// The cells that nothing has reached are those that still drive their nets.
pub proof fn lemma_which_cells_are_left_over(r: Reading, count: nat)
    requires
        count <= r.cells.len(),
    ensures
        yosys_json::left_over(r, count).len() == 0 <==> forall|i: int|
            0 <= i < count ==> !(r.drivers.dom().contains((#[trigger] r.cells[i]).net)
                && r.drivers[r.cells[i].net] == i),
        forall|name: Seq<char>| #[trigger]
            yosys_json::left_over(r, count).contains(name) <==> exists|i: int|
                0 <= i < count && (#[trigger] r.cells[i]).name == name && r.drivers.dom().contains(
                    r.cells[i].net,
                ) && r.drivers[r.cells[i].net] == i,
    decreases count,
{
    if count > 0 {
        lemma_which_cells_are_left_over(r, (count - 1) as nat);
        let before = yosys_json::left_over(r, (count - 1) as nat);
        let all = yosys_json::left_over(r, count);
        let last = r.cells[count - 1];
        let kept = r.drivers.dom().contains(last.net) && r.drivers[last.net] == count - 1;
        assert forall|name: Seq<char>| #[trigger] all.contains(name) <==> exists|i: int|
            0 <= i < count && (#[trigger] r.cells[i]).name == name && r.drivers.dom().contains(
                r.cells[i].net,
            ) && r.drivers[r.cells[i].net] == i by {
            if all.contains(name) {
                let k = choose|k: int| 0 <= k < all.len() && all[k] == name;
                if k < before.len() {
                    assert(before[k] == name);
                    assert(before.contains(name));
                } else {
                    assert(r.cells[count - 1].name == name);
                }
            }
            if before.contains(name) {
                let k = choose|k: int| 0 <= k < before.len() && before[k] == name;
                assert(all[k] == name);
            }
            if kept && last.name == name {
                assert(all[before.len() as int] == name);
            }
        }
    }
}

/// The module that is read is the first of its name among the modules, with its ports and
/// its cells; all three must be objects.
pub proof fn lemma_which_module_is_read(
    value: Json,
    top_module: Seq<char>,
    ports: Seq<(String, Json)>,
    cells: Seq<(String, Json)>,
)
    ensures
        (yosys_json::module_of(value, top_module) == Ok::<
            (Seq<(String, Json)>, Seq<(String, Json)>),
            Seq<char>,
        >((ports, cells))) <==> (json::member(value, "modules"@) matches Some(Json::Object(modules))
            && json::field(modules@, top_module) matches Some(module) && json::member(
            module,
            "ports"@,
        ) matches Some(Json::Object(port_fields)) && json::member(module, "cells"@) matches Some(
            Json::Object(cell_fields),
        ) && port_fields@ == ports && cell_fields@ == cells),
{
}

/// What a failed synthesis reports: its errors if there is anything in them, else its
/// output if there is anything in that.
pub proof fn lemma_what_a_failure_reports(
    stderr: Seq<char>,
    stdout: Seq<char>,
    status: Option<i32>,
)
    ensures
        ({
            let report = frontend::diagnosis(stderr, stdout, status);
            let says = |written: Seq<char>|
                exists|i: int| 0 <= i < written.len() && !frontend::is_space(#[trigger] written[i]);
            &&& says(stderr) ==> report == stderr
            &&& !says(stderr) && says(stdout) ==> report == stdout
            &&& !says(stderr) && !says(stdout) ==> report == "synth.py exited with status "@
                + frontend::status_text(status) + " and produced no diagnostic output"@
        }),
{
}

/// Spaces, tabs and line ends are white space; letters, digits and marks are not.
pub proof fn lemma_what_is_white_space(c: char)
    ensures
        c == ' ' || c == '\t' || c == '\n' || c == '\r' ==> frontend::is_space(c),
        '!' <= c <= '~' ==> !frontend::is_space(c),
        (c as int) < 9 ==> !frontend::is_space(c),
{
}

} // verus!
