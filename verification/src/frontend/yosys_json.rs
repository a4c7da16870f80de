//! Reads a gate-level netlist that Yosys writes as JSON.
//!
//! Nets are integers, and a constant stands as a string where a net would. Each
//! cell becomes one gate of the netlist; how a gate becomes redstone is decided
//! later. Whatever cannot be read is refused by name: a cell left out in silence
//! would be a netlist for another circuit.

use crate::compile::netlist;
use crate::compile::netlist::{GateView, Netlist, NetlistBuilder, NetlistView};
use crate::compile::topology;
use crate::compile::topology::GateKind;
use crate::frontend::json;
use crate::frontend::json::Json;
use crate::frontend::FrontendError;
use crate::properties::Properties;
use crate::text;
use std::collections::{HashMap, HashSet};
use vstd::prelude::*;

verus! {

broadcast use vstd::std_specs::hash::group_hash_axioms;

/// One bit of a port or a pin.
#[derive(Debug, Clone, Copy, PartialEq, Eq, Structural)]
pub enum Bit {
    Net(i64),
    Zero,
    One,
}

pub open spec fn bit_of(value: Json) -> Result<Bit, Seq<char>> {
    match value {
        Json::Integer(id) => Ok(Bit::Net(id)),
        Json::Number(written) => Err("net id `"@ + written@ + "` is not an integer"@),
        Json::Text(written) => if written@ == "0"@ {
            Ok(Bit::Zero)
        } else if written@ == "1"@ {
            Ok(Bit::One)
        } else {
            Err(
                "constant bit `"@ + written@
                    + "` -- there is no way to drive a hard-wired x/z value onto a real net in redstone"@,
            )
        },
        _ => Err("unexpected bit value in yosys JSON: "@ + json::rendered(value)),
    }
}

pub open spec fn object_of(value: Json, what: Seq<char>) -> Result<Seq<(String, Json)>, Seq<char>> {
    match value {
        Json::Object(fields) => Ok(fields@),
        _ => Err("expected "@ + what + " to be a JSON object"@),
    }
}

pub open spec fn array_of(value: Json, what: Seq<char>) -> Result<Seq<Json>, Seq<char>> {
    match value {
        Json::Array(items) => Ok(items@),
        _ => Err("expected "@ + what + " to be a JSON array"@),
    }
}

pub open spec fn text_of(value: Json, what: Seq<char>) -> Result<Seq<char>, Seq<char>> {
    match value {
        Json::Text(written) => Ok(written@),
        _ => Err("expected "@ + what + " to be a JSON string"@),
    }
}

/// A pin's one bit.
pub open spec fn pin_bit(
    connections: Seq<(String, Json)>,
    pin: Seq<char>,
    cell: Seq<char>,
) -> Result<Json, Seq<char>> {
    match json::field(connections, pin) {
        None => Err("cell `"@ + cell + "` has no `"@ + pin + "` connection"@),
        Some(bits) => match array_of(bits, "cell `"@ + cell + "` pin `"@ + pin + "`"@) {
            Err(message) => Err(message),
            Ok(items) => if items.len() != 1 {
                Err(
                    "cell `"@ + cell + "` pin `"@ + pin + ("` is "@ + text::decimal(items.len())
                        + "-bit; every Yosys `$_*_` simple cell is scalar"@),
                )
            } else {
                Ok(items[0])
            },
        },
    }
}

/// The input pins of a cell of a kind, in the order in which the kind takes
/// its inputs. A multiplexer selects by its pin `S`.
pub open spec fn pins_of(kind: GateKind) -> Seq<Seq<char>> {
    match kind {
        GateKind::Mux | GateKind::Nmux => seq!["A"@, "B"@, "S"@],
        _ => if topology::kind_arity(kind) == 1 {
            seq!["A"@]
        } else if topology::kind_arity(kind) == 2 {
            seq!["A"@, "B"@]
        } else if topology::kind_arity(kind) == 3 {
            seq!["A"@, "B"@, "C"@]
        } else {
            seq!["A"@, "B"@, "C"@, "D"@]
        },
    }
}

/// The kind of gate that a type of cell is.
pub open spec fn kind_of(cell_type: Seq<char>) -> Option<GateKind> {
    topology::kind_under(topology::yosys_cells(), cell_type, 0)
}

/// A cell, with the net that it drives.
#[verifier::ext_equal]
pub struct CellView {
    pub name: Seq<char>,
    pub cell_type: Seq<char>,
    pub connections: Seq<(String, Json)>,
    pub net: i64,
}

/// How far the reading has come.
#[verifier::ext_equal]
pub struct Reading {
    /// The cells of the module.
    pub cells: Seq<CellView>,
    /// The cell that drives a net, for the cells not reached yet.
    pub drivers: Map<i64, int>,
    /// The signal that a net has become.
    pub signals: Map<i64, Seq<char>>,
    /// The nets whose cells are being built.
    pub visiting: Set<i64>,
    /// The names of the inputs.
    pub inputs: Seq<Seq<char>>,
    /// The buffer behind an input that is an output too.
    pub buffers: Map<i64, Seq<char>>,
    /// What invented names begin with.
    pub prefix: Seq<char>,
    /// The gates so far.
    pub gates: Seq<GateView>,
}

/// A reading with one more gate, and the signal that this gate drives.
pub open spec fn with_gate(
    r: Reading,
    kind: GateKind,
    inputs: Seq<Seq<char>>,
) -> (Reading, Seq<char>) {
    let output = netlist::invented(r.prefix, r.gates.len());
    (Reading { gates: r.gates.push(GateView { output, inputs, kind }), ..r }, output)
}

/// The signals among the pins, without the pins that are tied to zero.
pub open spec fn kept(pins: Seq<Option<Seq<char>>>) -> Seq<Seq<char>>
    decreases pins.len(),
{
    if pins.len() == 0 {
        seq![]
    } else {
        match pins.last() {
            Some(name) => kept(pins.drop_last()).push(name),
            None => kept(pins.drop_last()),
        }
    }
}

/// The first pin that is tied to zero, if one is.
pub open spec fn first_tied(pins: Seq<Option<Seq<char>>>, from: int) -> Option<int>
    decreases pins.len() - from,
{
    if from < 0 || from >= pins.len() {
        None
    } else if pins[from] is None {
        Some(from)
    } else {
        first_tied(pins, from + 1)
    }
}

pub open spec fn unknown_type(cell: CellView) -> Seq<char> {
    "cell `"@ + cell.name + "` has type `"@ + cell.cell_type
        + "`, which this project's topology library has no realization for. Supported: [\"$_NOT_\", \"$_NOR_\", \"$_OR_\", \"$_BUF_\", \"$_AND_\", \"$_NAND_\", \"$_XOR_\", \"$_XNOR_\", \"$_ANDNOT_\", \"$_ORNOT_\", \"$_AOI3_\", \"$_OAI3_\", \"$_AOI4_\", \"$_OAI4_\", \"$_MUX_\", \"$_NMUX_\"]. (A `$__ZERO`/`$__ONE` drives a hard-wired constant and a `$_DFF_*_` holds state -- neither has any realization in real redstone. A word-level type such as `$and` means `techmap` did not run.)"@
}

/// The name of a kind of fixed arity.
pub open spec fn kind_label(kind: GateKind) -> Seq<char> {
    match kind {
        GateKind::Buf => "Buf"@,
        GateKind::And => "And"@,
        GateKind::Nand => "Nand"@,
        GateKind::Xor => "Xor"@,
        GateKind::Xnor => "Xnor"@,
        GateKind::AndNot => "AndNot"@,
        GateKind::OrNot => "OrNot"@,
        GateKind::Aoi3 => "Aoi3"@,
        GateKind::Oai3 => "Oai3"@,
        GateKind::Aoi4 => "Aoi4"@,
        GateKind::Oai4 => "Oai4"@,
        GateKind::Mux => "Mux"@,
        _ => "Nmux"@,
    }
}

pub open spec fn tied_pin(cell: CellView, kind: GateKind, pin: Seq<char>) -> Seq<char> {
    "cell `"@ + cell.name + "` ("@ + cell.cell_type + (") has pin `"@ + pin
        + "` tied to constant 0. Folding a constant into a "@ + kind_label(kind)
        + " would mean guessing which smaller gate Yosys meant, and guessing wrong is a netlist that still compiles to the wrong circuit -- run `opt` before `write_json` instead"@)
}

/// What a cell becomes whose pins have been read. A zero on a NOR or an OR drops
/// out, since it is their neutral element; an OR of one signal is that signal.
pub open spec fn gate_of(
    r: Reading,
    cell: CellView,
    kind: GateKind,
    pins: Seq<Option<Seq<char>>>,
) -> Result<(Reading, Seq<char>), Seq<char>> {
    let names = kept(pins);
    match kind {
        GateKind::Nor(_) => if names.len() == 0 {
            Err(
                "cell `"@ + cell.name
                    + "` has no real inputs left after folding constant-0 pins; a hard-wired-1 output has no realization in redstone"@,
            )
        } else {
            Ok(with_gate(r, GateKind::Nor(names.len() as usize), names))
        },
        GateKind::Or(_) => if names.len() == 0 {
            Err(
                "cell `"@ + cell.name
                    + "` has no real inputs left after folding constant-0 pins; a hard-wired-0 output has no realization in redstone"@,
            )
        } else if names.len() == 1 {
            Ok((r, names[0]))
        } else {
            Ok(with_gate(r, GateKind::Or(names.len() as usize), names))
        },
        _ => match first_tied(pins, 0) {
            Some(at) => Err(tied_pin(cell, kind, pins_of(kind)[at])),
            None => Ok(with_gate(r, kind, names)),
        },
    }
}

pub open spec fn cycle_through(net: i64) -> Seq<char> {
    "combinational cycle through net "@ + text::signed_decimal(net as int)
        + " -- this frontend only supports combinational logic, and yosys should never emit a cycle for it"@
}

pub open spec fn undriven(net: i64) -> Seq<char> {
    "net "@ + text::signed_decimal(net as int)
        + " is driven by neither a primary input nor a cell"@
}

pub open spec fn tied_high(cell: Seq<char>, pin: Seq<char>) -> Seq<char> {
    "cell `"@ + cell + "` pin `"@ + pin
        + "` is tied to constant 1 -- there is no tie-off cell in real redstone, so a gate with a hard-wired input has no realization here"@
}

/// The signal of a net, with the gates built that it takes. No cell is entered
/// twice, so `depth` need only be the number of cells.
pub open spec fn resolved(r: Reading, net: i64, depth: nat) -> Result<
    (Reading, Seq<char>),
    Seq<char>,
>
    decreases depth, 0int, 0nat,
{
    if r.signals.dom().contains(net) {
        Ok((r, r.signals[net]))
    } else if r.visiting.contains(net) {
        Err(cycle_through(net))
    } else if !r.drivers.dom().contains(net) || depth == 0 {
        Err(undriven(net))
    } else {
        let entered = Reading {
            visiting: r.visiting.insert(net),
            drivers: r.drivers.remove(net),
            ..r
        };
        match built(entered, r.cells[r.drivers[net]], (depth - 1) as nat) {
            Err(message) => Err(message),
            Ok((after, name)) => Ok(
                (
                    Reading {
                        visiting: after.visiting.remove(net),
                        signals: after.signals.insert(net, name),
                        ..after
                    },
                    name,
                ),
            ),
        }
    }
}

/// The signal of a cell's output, with the gates built that it takes.
pub open spec fn built(r: Reading, cell: CellView, depth: nat) -> Result<
    (Reading, Seq<char>),
    Seq<char>,
>
    decreases depth, 2int, 0nat,
{
    match kind_of(cell.cell_type) {
        None => Err(unknown_type(cell)),
        Some(kind) => match pins_read(r, cell, pins_of(kind), pins_of(kind).len(), depth) {
            Err(message) => Err(message),
            Ok((after, pins)) => gate_of(after, cell, kind, pins),
        },
    }
}

/// The signals at the first `count` pins of a cell; a pin that is tied to zero
/// has none.
pub open spec fn pins_read(
    r: Reading,
    cell: CellView,
    pins: Seq<Seq<char>>,
    count: nat,
    depth: nat,
) -> Result<(Reading, Seq<Option<Seq<char>>>), Seq<char>>
    decreases depth, 1int, count,
{
    if count == 0 {
        Ok((r, seq![]))
    } else {
        match pins_read(r, cell, pins, (count - 1) as nat, depth) {
            Err(message) => Err(message),
            Ok((before, signals)) => match pin_bit(
                cell.connections,
                pins[count - 1],
                cell.name,
            ) {
                Err(message) => Err(message),
                Ok(value) => match bit_of(value) {
                    Err(message) => Err(message),
                    Ok(Bit::Net(id)) => match resolved(before, id, depth) {
                        Err(message) => Err(message),
                        Ok((after, name)) => Ok((after, signals.push(Some(name)))),
                    },
                    Ok(Bit::Zero) => Ok((before, signals.push(None))),
                    Ok(Bit::One) => Err(tied_high(cell.name, pins[count - 1])),
                },
            },
        }
    }
}

/// The signal that a net has become, or becomes by reading the cell behind it.
pub open spec fn net_signal(r: Reading, net: i64, depth: nat) -> Result<
    (Reading, Seq<char>),
    Seq<char>,
> {
    if r.drivers.dom().contains(net) {
        resolved(r, net, depth)
    } else if r.signals.dom().contains(net) {
        Ok((r, r.signals[net]))
    } else {
        Err("output "@ + undriven(net))
    }
}

/// A signal that some gate drives: the given one, unless that is an input. An
/// input gets a buffer, and only one for each net.
pub open spec fn buffered(r: Reading, net: i64, name: Seq<char>) -> (Reading, Seq<char>) {
    if !r.inputs.contains(name) {
        (r, name)
    } else if r.buffers.dom().contains(net) {
        (r, r.buffers[net])
    } else {
        let (after, output) = with_gate(r, GateKind::Buf, seq![name]);
        (Reading { buffers: after.buffers.insert(net, output), ..after }, output)
    }
}

/// The signal behind a bit of an output, which is never a bare input.
pub open spec fn output_signal(r: Reading, net: i64, depth: nat) -> Result<
    (Reading, Seq<char>),
    Seq<char>,
> {
    match net_signal(r, net, depth) {
        Err(message) => Err(message),
        Ok((after, name)) => Ok(buffered(after, net, name)),
    }
}

/// The bits of a port, if it has the direction that is asked for.
pub open spec fn port_bits(name: Seq<char>, port: Json, direction: Seq<char>) -> Result<
    Option<Seq<Json>>,
    Seq<char>,
> {
    match json::member(port, "direction"@) {
        None => Err("port `"@ + name + "` has no `direction`"@),
        Some(stated) => match text_of(stated, "port direction"@) {
            Err(message) => Err(message),
            Ok(found) => if found != direction {
                Ok(None)
            } else {
                match json::member(port, "bits"@) {
                    None => Err("port `"@ + name + "` has no `bits`"@),
                    Some(bits) => match array_of(bits, "port bits"@) {
                        Err(message) => Err(message),
                        Ok(items) => Ok(Some(items)),
                    },
                }
            },
        },
    }
}

/// The name of one bit of a port: the port's own where it has one bit alone.
pub open spec fn bit_name(port: Seq<char>, width: nat, index: nat) -> Seq<char> {
    if width == 1 {
        port
    } else {
        port + "["@ + text::decimal(index) + "]"@
    }
}

/// The inputs that the bits of a port add, from one bit on.
pub open spec fn input_bits(
    so_far: (Seq<Seq<char>>, Map<i64, Seq<char>>),
    port: Seq<char>,
    bits: Seq<Json>,
    from: nat,
) -> Result<(Seq<Seq<char>>, Map<i64, Seq<char>>), Seq<char>>
    decreases bits.len() - from,
{
    if from >= bits.len() {
        Ok(so_far)
    } else {
        match bit_of(bits[from as int]) {
            Err(message) => Err(message),
            Ok(Bit::Net(id)) => {
                let name = bit_name(port, bits.len(), from);
                input_bits((so_far.0.push(name), so_far.1.insert(id, name)), port, bits, from + 1)
            },
            Ok(_) => Err(
                "input port `"@ + port
                    + "` has a constant bit, which yosys should never emit for a real input"@,
            ),
        }
    }
}

/// The inputs among the ports, from one port on: their names in order, and the
/// name of each net.
pub open spec fn inputs_read(
    so_far: (Seq<Seq<char>>, Map<i64, Seq<char>>),
    ports: Seq<(String, Json)>,
    from: nat,
) -> Result<(Seq<Seq<char>>, Map<i64, Seq<char>>), Seq<char>>
    decreases ports.len() - from,
{
    if from >= ports.len() {
        Ok(so_far)
    } else {
        let (name, port) = ports[from as int];
        match port_bits(name@, port, "input"@) {
            Err(message) => Err(message),
            Ok(None) => inputs_read(so_far, ports, from + 1),
            Ok(Some(bits)) => match input_bits(so_far, name@, bits, 0) {
                Err(message) => Err(message),
                Ok(next) => inputs_read(next, ports, from + 1),
            },
        }
    }
}

pub open spec fn cell_read(name: Seq<char>, cell: Json) -> Result<CellView, Seq<char>> {
    match json::member(cell, "type"@) {
        None => Err("cell `"@ + name + "` has no `type`"@),
        Some(stated) => match text_of(stated, "cell type"@) {
            Err(message) => Err(message),
            Ok(cell_type) => match json::member(cell, "connections"@) {
                None => Err("cell `"@ + name + "` has no `connections`"@),
                Some(listed) => match object_of(listed, "cell connections"@) {
                    Err(message) => Err(message),
                    Ok(connections) => match pin_bit(connections, "Y"@, name) {
                        Err(message) => Err(message),
                        Ok(value) => match bit_of(value) {
                            Err(message) => Err(message),
                            Ok(Bit::Net(net)) => Ok(CellView { name, cell_type, connections, net }),
                            Ok(_) => Err(
                                "cell `"@ + name + "` ("@ + cell_type
                                    + ") has a constant output, which is never something ABC needs written to a real net"@,
                            ),
                        },
                    },
                },
            },
        },
    }
}

/// The cells, from one on, and which of them drives each net: the last that
/// names it as its output.
pub open spec fn cells_read(
    so_far: (Seq<CellView>, Map<i64, int>),
    fields: Seq<(String, Json)>,
    from: nat,
) -> Result<(Seq<CellView>, Map<i64, int>), Seq<char>>
    decreases fields.len() - from,
{
    if from >= fields.len() {
        Ok(so_far)
    } else {
        match cell_read(fields[from as int].0@, fields[from as int].1) {
            Err(message) => Err(message),
            Ok(cell) => cells_read(
                (so_far.0.push(cell), so_far.1.insert(cell.net, from as int)),
                fields,
                from + 1,
            ),
        }
    }
}

/// A reading with the outputs found so far.
#[verifier::ext_equal]
pub struct Outputs {
    pub reading: Reading,
    /// The signals that are outputs, each once.
    pub signals: Seq<Seq<char>>,
    /// The signal of each bit of an output port.
    pub ports: Map<Seq<char>, Seq<char>>,
}

/// One more bit of an output port, and the signal behind it.
pub open spec fn with_output(
    so_far: Outputs,
    reading: Reading,
    name: Seq<char>,
    signal: Seq<char>,
) -> Outputs {
    Outputs {
        reading,
        signals: if so_far.signals.contains(signal) {
            so_far.signals
        } else {
            so_far.signals.push(signal)
        },
        ports: so_far.ports.insert(name, signal),
    }
}

/// The outputs that the bits of a port add, from one bit on.
pub open spec fn output_bits(
    so_far: Outputs,
    port: Seq<char>,
    bits: Seq<Json>,
    from: nat,
    depth: nat,
) -> Result<Outputs, Seq<char>>
    decreases bits.len() - from,
{
    if from >= bits.len() {
        Ok(so_far)
    } else {
        match bit_of(bits[from as int]) {
            Err(message) => Err(message),
            Ok(Bit::Net(id)) => match output_signal(so_far.reading, id, depth) {
                Err(message) => Err(message),
                Ok((reading, signal)) => output_bits(
                    with_output(so_far, reading, bit_name(port, bits.len(), from), signal),
                    port,
                    bits,
                    from + 1,
                    depth,
                ),
            },
            Ok(_) => Err(
                "output port `"@ + port
                    + "` is tied to a constant -- there is no hard-wired driver in real redstone"@,
            ),
        }
    }
}

/// The outputs among the ports, from one port on.
pub open spec fn outputs_read(
    so_far: Outputs,
    ports: Seq<(String, Json)>,
    from: nat,
    depth: nat,
) -> Result<Outputs, Seq<char>>
    decreases ports.len() - from,
{
    if from >= ports.len() {
        Ok(so_far)
    } else {
        let (name, port) = ports[from as int];
        match port_bits(name@, port, "output"@) {
            Err(message) => Err(message),
            Ok(None) => outputs_read(so_far, ports, from + 1, depth),
            Ok(Some(bits)) => match output_bits(so_far, name@, bits, 0, depth) {
                Err(message) => Err(message),
                Ok(next) => outputs_read(next, ports, from + 1, depth),
            },
        }
    }
}

/// The names of those among the first `count` cells that nothing has reached.
pub open spec fn left_over(r: Reading, count: nat) -> Seq<Seq<char>>
    decreases count,
{
    if count == 0 {
        seq![]
    } else {
        let before = left_over(r, (count - 1) as nat);
        let net = r.cells[count - 1].net;
        if r.drivers.dom().contains(net) && r.drivers[net] == count - 1 {
            before.push(r.cells[count - 1].name)
        } else {
            before
        }
    }
}

/// The reading before any output has been looked at.
pub open spec fn start_of(
    inputs: (Seq<Seq<char>>, Map<i64, Seq<char>>),
    cells: (Seq<CellView>, Map<i64, int>),
) -> Reading {
    Reading {
        cells: cells.0,
        drivers: cells.1,
        signals: inputs.1,
        visiting: Set::empty(),
        inputs: inputs.0,
        buffers: Map::empty(),
        prefix: netlist::fresh_prefix(inputs.0),
        gates: seq![],
    }
}

pub open spec fn no_outputs(reading: Reading) -> Outputs {
    Outputs { reading, signals: seq![], ports: Map::empty() }
}

/// What the ports and cells of a module amount to.
pub open spec fn module_read(ports: Seq<(String, Json)>, cells: Seq<(String, Json)>) -> Result<
    (NetlistView, Map<Seq<char>, Seq<char>>),
    Seq<char>,
> {
    match inputs_read((seq![], Map::empty()), ports, 0) {
        Err(message) => Err(message),
        Ok(inputs) => match cells_read((seq![], Map::empty()), cells, 0) {
            Err(message) => Err(message),
            Ok(found) => match outputs_read(
                no_outputs(start_of(inputs, found)),
                ports,
                0,
                cells.len(),
            ) {
                Err(message) => Err(message),
                Ok(done) => {
                    let unused = left_over(done.reading, cells.len());
                    if unused.len() > 0 {
                        Err(
                            text::decimal(unused.len())
                                + " cell(s) are never used to drive any output: "@
                                + text::debug_list(unused),
                        )
                    } else {
                        Ok(
                            (
                                NetlistView {
                                    inputs: inputs.0,
                                    outputs: done.signals,
                                    gates: done.reading.gates,
                                },
                                done.ports,
                            ),
                        )
                    }
                },
            },
        },
    }
}

pub open spec fn field_names(fields: Seq<(String, Json)>) -> Seq<Seq<char>> {
    Seq::new(fields.len(), |i: int| fields[i].0@)
}

/// The ports and cells of the module that is asked for.
pub open spec fn module_of(value: Json, top_module: Seq<char>) -> Result<
    (Seq<(String, Json)>, Seq<(String, Json)>),
    Seq<char>,
> {
    match json::member(value, "modules"@) {
        None => Err("yosys JSON has no `modules` key"@),
        Some(listed) => match object_of(listed, "`modules`"@) {
            Err(message) => Err(message),
            Ok(modules) => match json::field(modules, top_module) {
                None => Err(
                    "yosys JSON has no module named `"@ + top_module + "`; found: "@
                        + text::debug_list(field_names(modules)),
                ),
                Some(module) => match json::member(module, "ports"@) {
                    None => Err("module has no `ports` key"@),
                    Some(ports) => match object_of(ports, "`ports`"@) {
                        Err(message) => Err(message),
                        Ok(port_fields) => match json::member(module, "cells"@) {
                            None => Err("module has no `cells` key"@),
                            Some(cells) => match object_of(cells, "`cells`"@) {
                                Err(message) => Err(message),
                                Ok(cell_fields) => Ok((port_fields, cell_fields)),
                            },
                        },
                    },
                },
            },
        },
    }
}

/// The netlist that a JSON value holds under a module's name, with the signal
/// of each bit of its output ports; or what is wrong with it.
pub open spec fn netlist_read(value: Json, top_module: Seq<char>) -> Result<
    (NetlistView, Map<Seq<char>, Seq<char>>),
    Seq<char>,
> {
    match module_of(value, top_module) {
        Err(message) => Err(message),
        Ok((ports, cells)) => module_read(ports, cells),
    }
}

/// The error is a refusal with this message.
pub open spec fn says(error: FrontendError, message: Seq<char>) -> bool {
    match error {
        FrontendError::Unsupported(written) => written@ == message,
        _ => false,
    }
}

fn refusal(a: &str, b: &str, c: &str) -> (error: FrontendError)
    ensures
        says(error, a@ + b@ + c@),
{
    FrontendError::Unsupported(text::glue3(a, b, c))
}

fn long_refusal(a: &str, b: &str, c: &str, d: &str, e: &str) -> (error: FrontendError)
    ensures
        says(error, a@ + b@ + c@ + d@ + e@),
{
    FrontendError::Unsupported(text::glue5(a, b, c, d, e))
}

fn plain_refusal(message: &str) -> (error: FrontendError)
    ensures
        says(error, message@),
{
    FrontendError::Unsupported(message.to_owned())
}

fn parse_bit(value: &Json) -> (bit: Result<Bit, FrontendError>)
    ensures
        match bit {
            Ok(found) => bit_of(*value) == Ok::<Bit, Seq<char>>(found),
            Err(error) => bit_of(*value) is Err && says(error, bit_of(*value)->Err_0),
        },
{
    match value {
        Json::Integer(id) => Ok(Bit::Net(*id)),
        Json::Number(written) => Err(refusal("net id `", written.as_str(), "` is not an integer")),
        Json::Text(written) => if text::same_text(written.as_str(), "0") {
            Ok(Bit::Zero)
        } else if text::same_text(written.as_str(), "1") {
            Ok(Bit::One)
        } else {
            Err(
                refusal(
                    "constant bit `",
                    written.as_str(),
                    "` -- there is no way to drive a hard-wired x/z value onto a real net in redstone",
                ),
            )
        },
        other => {
            let shown: String = other.render();
            Err(
                FrontendError::Unsupported(
                    text::glue2("unexpected bit value in yosys JSON: ", shown.as_str()),
                ),
            )
        },
    }
}

fn as_object<'a>(value: &'a Json, what: &str) -> (fields: Result<
    &'a Vec<(String, Json)>,
    FrontendError,
>)
    ensures
        match fields {
            Ok(found) => object_of(*value, what@) == Ok::<Seq<(String, Json)>, Seq<char>>(found@),
            Err(error) => object_of(*value, what@) is Err && says(
                error,
                object_of(*value, what@)->Err_0,
            ),
        },
{
    match value {
        Json::Object(fields) => Ok(fields),
        _ => Err(refusal("expected ", what, " to be a JSON object")),
    }
}

fn as_array<'a>(value: &'a Json, what: &str) -> (items: Result<&'a Vec<Json>, FrontendError>)
    ensures
        match items {
            Ok(found) => array_of(*value, what@) == Ok::<Seq<Json>, Seq<char>>(found@),
            Err(error) => array_of(*value, what@) is Err && says(
                error,
                array_of(*value, what@)->Err_0,
            ),
        },
{
    match value {
        Json::Array(items) => Ok(items),
        _ => Err(refusal("expected ", what, " to be a JSON array")),
    }
}

fn as_text<'a>(value: &'a Json, what: &str) -> (written: Result<&'a str, FrontendError>)
    ensures
        match written {
            Ok(found) => text_of(*value, what@) == Ok::<Seq<char>, Seq<char>>(found@),
            Err(error) => text_of(*value, what@) is Err && says(
                error,
                text_of(*value, what@)->Err_0,
            ),
        },
{
    match value {
        Json::Text(written) => Ok(written.as_str()),
        _ => Err(refusal("expected ", what, " to be a JSON string")),
    }
}

fn single_bit<'a>(connections: &'a Vec<(String, Json)>, pin: &str, cell: &str) -> (bit: Result<
    &'a Json,
    FrontendError,
>)
    ensures
        match bit {
            Ok(found) => pin_bit(connections@, pin@, cell@) == Ok::<Json, Seq<char>>(*found),
            Err(error) => pin_bit(connections@, pin@, cell@) is Err && says(
                error,
                pin_bit(connections@, pin@, cell@)->Err_0,
            ),
        },
{
    let bits: &Json = match json::lookup(connections, pin) {
        Some(found) => found,
        None => return Err(long_refusal("cell `", cell, "` has no `", pin, "` connection")),
    };
    let what: String = text::glue5("cell `", cell, "` pin `", pin, "`");
    match as_array(bits, what.as_str()) {
        Err(error) => Err(error),
        Ok(items) => {
            if items.len() != 1 {
                let count: usize = items.len();
                let width: String = text::decimal_text(count as u64);
                let tail: String = text::glue3(
                    "` is ",
                    width.as_str(),
                    "-bit; every Yosys `$_*_` simple cell is scalar",
                );
                Err(long_refusal("cell `", cell, "` pin `", pin, tail.as_str()))
            } else {
                Ok(&items[0])
            }
        },
    }
}

/// The input pins of a type of cell, in the order in which its kind of gate
/// takes them; the output pin is always `Y`.
pub fn pins_for(cell_type: &str) -> (pins: Option<Vec<&'static str>>)
    ensures
        match pins {
            Some(names) => kind_of(cell_type@) is Some && str_views(names@) == pins_of(
                kind_of(cell_type@)->0,
            ),
            None => kind_of(cell_type@) is None,
        },
{
    match topology::gate_kind_for_yosys_cell(cell_type) {
        Some(kind) => Some(pin_names(kind)),
        None => None,
    }
}

fn pin_names(kind: GateKind) -> (names: Vec<&'static str>)
    ensures
        pins_of(kind) == str_views(names@),
{
    let names: Vec<&'static str> = match kind {
        GateKind::Mux | GateKind::Nmux => vec!["A", "B", "S"],
        _ => match kind.arity() {
            1 => vec!["A"],
            2 => vec!["A", "B"],
            3 => vec!["A", "B", "C"],
            _ => vec!["A", "B", "C", "D"],
        },
    };
    assert(pins_of(kind) =~= str_views(names@));
    names
}

/// A cell as it stands in the JSON.
struct CellInfo<'a> {
    name: &'a str,
    cell_type: &'a str,
    connections: &'a Vec<(String, Json)>,
    net: i64,
}

impl<'a> CellInfo<'a> {
    spec fn as_cell(self) -> CellView {
        CellView {
            name: self.name@,
            cell_type: self.cell_type@,
            connections: self.connections@,
            net: self.net,
        }
    }
}

spec fn cell_views<'a>(cells: Seq<CellInfo<'a>>) -> Seq<CellView> {
    Seq::new(cells.len(), |i: int| cells[i].as_cell())
}

spec fn name_map(names: Map<i64, String>) -> Map<i64, Seq<char>> {
    names.map_values(|name: String| name@)
}

spec fn index_map(indices: Map<i64, usize>) -> Map<i64, int> {
    indices.map_values(|index: usize| index as int)
}

proof fn lemma_name_inserted(names: Map<i64, String>, net: i64, name: String)
    ensures
        name_map(names.insert(net, name)) == name_map(names).insert(net, name@),
{
    assert(name_map(names.insert(net, name)) =~= name_map(names).insert(net, name@));
}

struct Context<'a> {
    cells: Vec<CellInfo<'a>>,
    driver_of: HashMap<i64, usize>,
    signal_of: HashMap<i64, String>,
    in_progress: HashSet<i64>,
    inputs: Vec<String>,
    buffer_of_input: HashMap<i64, String>,
    builder: NetlistBuilder,
}

impl<'a> Context<'a> {
    spec fn reading(self) -> Reading {
        Reading {
            cells: cell_views(self.cells@),
            drivers: index_map(self.driver_of@),
            signals: name_map(self.signal_of@),
            visiting: self.in_progress@,
            inputs: netlist::texts(self.inputs@),
            buffers: name_map(self.buffer_of_input@),
            prefix: self.builder.prefix@,
            gates: netlist::gate_views(self.builder.gates@),
        }
    }

    spec fn wf(self) -> bool {
        &&& forall|net: i64|
            self.driver_of@.dom().contains(net) ==> (#[trigger] self.driver_of@[net])
                < self.cells@.len()
        &&& self.driver_of@.dom().finite()
    }

    fn resolve(&mut self, net: i64, Ghost(depth): Ghost<nat>) -> (signal: Result<
        String,
        FrontendError,
    >)
        requires
            old(self).wf(),
            old(self).driver_of@.dom().len() <= depth,
        ensures
            final(self).wf(),
            final(self).driver_of@.dom().subset_of(old(self).driver_of@.dom()),
            match signal {
                Ok(name) => resolved(old(self).reading(), net, depth) == Ok::<
                    (Reading, Seq<char>),
                    Seq<char>,
                >((final(self).reading(), name@)),
                Err(error) => resolved(old(self).reading(), net, depth) is Err && says(
                    error,
                    resolved(old(self).reading(), net, depth)->Err_0,
                ),
            },
        decreases depth, 0int, 0nat,
    {
        let ghost start = *self;
        let known: Option<&String> = self.signal_of.get(&net);
        if let Some(name) = known {
            return Ok(name.as_str().to_owned());
        }
        if self.in_progress.contains(&net) {
            let number: String = text::signed_text(net);
            return Err(
                refusal(
                    "combinational cycle through net ",
                    number.as_str(),
                    " -- this frontend only supports combinational logic, and yosys should never emit a cycle for it",
                ),
            );
        }
        let cell: usize = match self.driver_of.get(&net) {
            Some(index) => *index,
            None => {
                let number: String = text::signed_text(net);
                return Err(
                    refusal(
                        "net ",
                        number.as_str(),
                        " is driven by neither a primary input nor a cell",
                    ),
                );
            },
        };
        assert(depth > 0) by {
            assert(start.driver_of@.dom().contains(net));
            if start.driver_of@.dom().len() == 0 {
                assert(start.driver_of@.dom() =~= Set::empty());
            }
        }
        self.in_progress.insert(net);
        self.driver_of.remove(&net);
        proof {
            assert(index_map(self.driver_of@) =~= index_map(start.driver_of@).remove(net));
            assert(self.driver_of@.dom() =~= start.driver_of@.dom().remove(net));
        }
        let ghost entered = self.reading();
        let built: Result<String, FrontendError> = self.build_cell(
            cell,
            Ghost((depth - 1) as nat),
        );
        match built {
            Err(error) => Err(error),
            Ok(name) => {
                let ghost after = *self;
                self.in_progress.remove(&net);
                self.signal_of.insert(net, name.as_str().to_owned());
                proof {
                    lemma_name_inserted(after.signal_of@, net, self.signal_of@[net]);
                    assert(self.signal_of@ =~= after.signal_of@.insert(net, self.signal_of@[net]));
                }
                Ok(name)
            },
        }
    }

    fn build_cell(&mut self, index: usize, Ghost(depth): Ghost<nat>) -> (signal: Result<
        String,
        FrontendError,
    >)
        requires
            old(self).wf(),
            index < old(self).cells@.len(),
            old(self).driver_of@.dom().len() <= depth,
        ensures
            final(self).wf(),
            final(self).driver_of@.dom().subset_of(old(self).driver_of@.dom()),
            match signal {
                Ok(name) => built(
                    old(self).reading(),
                    old(self).cells@[index as int].as_cell(),
                    depth,
                ) == Ok::<(Reading, Seq<char>), Seq<char>>((final(self).reading(), name@)),
                Err(error) => built(
                    old(self).reading(),
                    old(self).cells@[index as int].as_cell(),
                    depth,
                ) is Err && says(
                    error,
                    built(
                        old(self).reading(),
                        old(self).cells@[index as int].as_cell(),
                        depth,
                    )->Err_0,
                ),
            },
        decreases depth, 2int, 0nat,
    {
        let cell_type: &'a str = self.cells[index].cell_type;
        let cell_name: &'a str = self.cells[index].name;
        let ghost cell = self.cells@[index as int].as_cell();
        let kind: GateKind = match topology::gate_kind_for_yosys_cell(cell_type) {
            Some(kind) => kind,
            None => return Err(
                long_refusal(
                    "cell `",
                    cell_name,
                    "` has type `",
                    cell_type,
                    "`, which this project's topology library has no realization for. Supported: [\"$_NOT_\", \"$_NOR_\", \"$_OR_\", \"$_BUF_\", \"$_AND_\", \"$_NAND_\", \"$_XOR_\", \"$_XNOR_\", \"$_ANDNOT_\", \"$_ORNOT_\", \"$_AOI3_\", \"$_OAI3_\", \"$_AOI4_\", \"$_OAI4_\", \"$_MUX_\", \"$_NMUX_\"]. (A `$__ZERO`/`$__ONE` drives a hard-wired constant and a `$_DFF_*_` holds state -- neither has any realization in real redstone. A word-level type such as `$and` means `techmap` did not run.)",
                ),
            ),
        };
        let pins: Vec<&'static str> = pin_names(kind);
        let signals: Vec<Option<String>> = match self.inputs_of(index, &pins, Ghost(depth)) {
            Err(error) => return Err(error),
            Ok(found) => found,
        };
        self.gate(cell_name, cell_type, kind, &pins, signals, Ghost(cell))
    }

    /// Reads every pin of a cell, in order.
    fn inputs_of(&mut self, index: usize, pins: &Vec<&'static str>, Ghost(depth): Ghost<nat>) -> (
        signals: Result<Vec<Option<String>>, FrontendError>)
        requires
            old(self).wf(),
            index < old(self).cells@.len(),
            old(self).driver_of@.dom().len() <= depth,
        ensures
            final(self).wf(),
            final(self).driver_of@.dom().subset_of(old(self).driver_of@.dom()),
            ({
                let expected = pins_read(
                    old(self).reading(),
                    old(self).cells@[index as int].as_cell(),
                    str_views(pins@),
                    pins@.len(),
                    depth,
                );
                match signals {
                    Ok(found) => expected == Ok::<
                        (Reading, Seq<Option<Seq<char>>>),
                        Seq<char>,
                    >((final(self).reading(), pin_views(found@))) && found@.len() == pins@.len(),
                    Err(error) => expected is Err && says(error, expected->Err_0),
                }
            }),
        decreases depth, 1int, 0nat,
    {
        let ghost start = *self;
        let ghost cell = self.cells@[index as int].as_cell();
        let ghost names = str_views(pins@);
        let connections: &'a Vec<(String, Json)> = self.cells[index].connections;
        let cell_name: &'a str = self.cells[index].name;
        let mut signals: Vec<Option<String>> = Vec::new();
        let mut at: usize = 0;
        proof {
            assert(pin_views(signals@) =~= seq![]);
        }
        while at < pins.len()
            invariant
                at <= pins@.len(),
                start == *old(self),
                names == str_views(pins@),
                cell == start.cells@[index as int].as_cell(),
                cell.connections == connections@,
                cell.name == cell_name@,
                start.driver_of@.dom().len() <= depth,
                start.wf(),
                self.wf(),
                self.driver_of@.dom().subset_of(start.driver_of@.dom()),
                signals@.len() == at,
                pins_read(start.reading(), cell, names, at as nat, depth) == Ok::<
                    (Reading, Seq<Option<Seq<char>>>),
                    Seq<char>,
                >((self.reading(), pin_views(signals@))),
            decreases pins@.len() - at,
        {
            let ghost before = signals@;
            assert(names[at as int] == pins@[at as int]@);
            let ghost step = pins_read(start.reading(), cell, names, at as nat + 1, depth);
            let value: &Json = match single_bit(connections, pins[at], cell_name) {
                Err(error) => {
                    proof {
                        assert(step is Err);
                        lemma_pins_fail(
                            start.reading(),
                            cell,
                            names,
                            at as nat + 1,
                            pins@.len(),
                            depth,
                        );
                    }
                    return Err(error);
                },
                Ok(found) => found,
            };
            let bit: Bit = match parse_bit(value) {
                Err(error) => {
                    proof {
                        assert(step is Err);
                        lemma_pins_fail(
                            start.reading(),
                            cell,
                            names,
                            at as nat + 1,
                            pins@.len(),
                            depth,
                        );
                    }
                    return Err(error);
                },
                Ok(found) => found,
            };
            match bit {
                Bit::Net(id) => {
                    proof {
                        vstd::set_lib::lemma_len_subset(
                            self.driver_of@.dom(),
                            start.driver_of@.dom(),
                        );
                    }
                    match self.resolve(id, Ghost(depth)) {
                        Err(error) => {
                            proof {
                                assert(step is Err);
                                lemma_pins_fail(
                                    start.reading(),
                                    cell,
                                    names,
                                    at as nat + 1,
                                    pins@.len(),
                                    depth,
                                );
                            }
                            return Err(error);
                        },
                        Ok(name) => {
                            signals.push(Some(name));
                        },
                    }
                },
                Bit::Zero => {
                    signals.push(None);
                },
                Bit::One => {
                    proof {
                        assert(step is Err);
                        lemma_pins_fail(
                            start.reading(),
                            cell,
                            names,
                            at as nat + 1,
                            pins@.len(),
                            depth,
                        );
                    }
                    return Err(
                        long_refusal(
                            "cell `",
                            cell_name,
                            "` pin `",
                            pins[at],
                            "` is tied to constant 1 -- there is no tie-off cell in real redstone, so a gate with a hard-wired input has no realization here",
                        ),
                    );
                },
            }
            at = at + 1;
            proof {
                let last = match signals@[at - 1] {
                    Some(name) => Some(name@),
                    None => None,
                };
                assert(pin_views(signals@) =~= pin_views(before).push(last));
            }
        }
        Ok(signals)
    }

    /// Builds what becomes of a cell whose pins have been read.
    fn gate(
        &mut self,
        cell_name: &str,
        cell_type: &str,
        kind: GateKind,
        pins: &Vec<&'static str>,
        signals: Vec<Option<String>>,
        Ghost(cell): Ghost<CellView>,
    ) -> (signal: Result<String, FrontendError>)
        requires
            old(self).wf(),
            cell.name == cell_name@,
            cell.cell_type == cell_type@,
            pins_of(kind) == str_views(pins@),
            signals@.len() == pins@.len(),
        ensures
            final(self).wf(),
            final(self).driver_of == old(self).driver_of,
            ({
                let expected = gate_of(old(self).reading(), cell, kind, pin_views(signals@));
                match signal {
                    Ok(name) => expected == Ok::<(Reading, Seq<char>), Seq<char>>(
                        (final(self).reading(), name@),
                    ),
                    Err(error) => expected is Err && says(error, expected->Err_0),
                }
            }),
    {
        let ghost views = pin_views(signals@);
        let mut names: Vec<String> = Vec::new();
        let mut tied: Option<usize> = None;
        let mut at: usize = 0;
        assert(netlist::texts(names@) =~= kept(views.take(0)));
        while at < signals.len()
            invariant
                at <= signals@.len(),
                views == pin_views(signals@),
                netlist::texts(names@) == kept(views.take(at as int)),
                match tied {
                    Some(first) => first < at && first_tied(views, 0) == Some(first as int),
                    None => first_tied(views, 0) == first_tied(views, at as int),
                },
            decreases signals@.len() - at,
        {
            let ghost before = names@;
            proof {
                assert(views.take(at + 1).drop_last() =~= views.take(at as int));
                assert(views.take(at + 1).last() == views[at as int]);
            }
            match &signals[at] {
                Some(name) => {
                    names.push(name.as_str().to_owned());
                    assert(netlist::texts(names@) =~= netlist::texts(before).push(name@));
                },
                None => {
                    if tied.is_none() {
                        tied = Some(at);
                    }
                },
            }
            at = at + 1;
        }
        assert(views.take(at as int) =~= views);
        match kind {
            GateKind::Nor(_) => {
                if names.len() == 0 {
                    return Err(
                        refusal(
                            "cell `",
                            cell_name,
                            "` has no real inputs left after folding constant-0 pins; a hard-wired-1 output has no realization in redstone",
                        ),
                    );
                }
                Ok(self.builder.nor(names))
            },
            GateKind::Or(_) => {
                if names.len() == 0 {
                    return Err(
                        refusal(
                            "cell `",
                            cell_name,
                            "` has no real inputs left after folding constant-0 pins; a hard-wired-0 output has no realization in redstone",
                        ),
                    );
                }
                if names.len() == 1 {
                    assert(netlist::texts(names@)[0] == names@[0]@);
                    return Ok(names[0].as_str().to_owned());
                }
                Ok(self.builder.merge(names))
            },
            _ => {
                if let Some(first) = tied {
                    let label: &'static str = kind_name(kind);
                    assert(pins_of(kind)[first as int] == pins@[first as int]@);
                    let tail: String = text::glue5(
                        ") has pin `",
                        pins[first],
                        "` tied to constant 0. Folding a constant into a ",
                        label,
                        " would mean guessing which smaller gate Yosys meant, and guessing wrong is a netlist that still compiles to the wrong circuit -- run `opt` before `write_json` instead",
                    );
                    return Err(
                        long_refusal("cell `", cell_name, "` (", cell_type, tail.as_str()),
                    );
                }
                Ok(self.builder.cell(kind, names))
            },
        }
    }
}

fn kind_name(kind: GateKind) -> (label: &'static str)
    ensures
        label@ == kind_label(kind),
{
    match kind {
        GateKind::Buf => "Buf",
        GateKind::And => "And",
        GateKind::Nand => "Nand",
        GateKind::Xor => "Xor",
        GateKind::Xnor => "Xnor",
        GateKind::AndNot => "AndNot",
        GateKind::OrNot => "OrNot",
        GateKind::Aoi3 => "Aoi3",
        GateKind::Oai3 => "Oai3",
        GateKind::Aoi4 => "Aoi4",
        GateKind::Oai4 => "Oai4",
        GateKind::Mux => "Mux",
        _ => "Nmux",
    }
}

/// Reading a net changes neither the cells, nor the inputs, nor the prefix, and
/// only takes drivers away.
pub open spec fn keeps(before: Reading, after: Reading) -> bool {
    &&& after.cells == before.cells
    &&& after.inputs == before.inputs
    &&& after.prefix == before.prefix
    &&& forall|net: i64| #[trigger]
        after.drivers.dom().contains(net) ==> before.drivers.dom().contains(net)
            && after.drivers[net] == before.drivers[net]
}

pub proof fn lemma_resolved_keeps(r: Reading, net: i64, depth: nat)
    ensures
        resolved(r, net, depth) matches Ok((after, name)) ==> keeps(r, after),
    decreases depth, 0int, 0nat,
{
    if !r.signals.dom().contains(net) && !r.visiting.contains(net) && r.drivers.dom().contains(net)
        && depth > 0 {
        let entered = Reading {
            visiting: r.visiting.insert(net),
            drivers: r.drivers.remove(net),
            ..r
        };
        lemma_built_keeps(entered, r.cells[r.drivers[net]], (depth - 1) as nat);
    }
}

pub proof fn lemma_built_keeps(r: Reading, cell: CellView, depth: nat)
    ensures
        built(r, cell, depth) matches Ok((after, name)) ==> keeps(r, after),
    decreases depth, 2int, 0nat,
{
    if kind_of(cell.cell_type) is Some {
        let pins = pins_of(kind_of(cell.cell_type)->0);
        lemma_pins_keep(r, cell, pins, pins.len(), depth);
    }
}

pub proof fn lemma_pins_keep(
    r: Reading,
    cell: CellView,
    pins: Seq<Seq<char>>,
    count: nat,
    depth: nat,
)
    ensures
        pins_read(r, cell, pins, count, depth) matches Ok((after, signals)) ==> keeps(r, after)
            && signals.len() == count,
    decreases depth, 1int, count,
{
    if count > 0 {
        lemma_pins_keep(r, cell, pins, (count - 1) as nat, depth);
        if let Ok((before, signals)) = pins_read(r, cell, pins, (count - 1) as nat, depth) {
            if let Ok(value) = pin_bit(cell.connections, pins[count - 1], cell.name) {
                if let Ok(Bit::Net(id)) = bit_of(value) {
                    lemma_resolved_keeps(before, id, depth);
                }
            }
        }
    }
}

proof fn lemma_output_bits_keep(
    so_far: Outputs,
    port: Seq<char>,
    bits: Seq<Json>,
    from: nat,
    depth: nat,
)
    ensures
        output_bits(so_far, port, bits, from, depth) matches Ok(done) ==> keeps(
            so_far.reading,
            done.reading,
        ),
    decreases bits.len() - from,
{
    if from < bits.len() {
        if let Ok(Bit::Net(id)) = bit_of(bits[from as int]) {
            lemma_resolved_keeps(so_far.reading, id, depth);
            if let Ok((reading, signal)) = output_signal(so_far.reading, id, depth) {
                let next = with_output(so_far, reading, bit_name(port, bits.len(), from), signal);
                lemma_output_bits_keep(next, port, bits, from + 1, depth);
            }
        }
    }
}

proof fn lemma_outputs_keep(so_far: Outputs, ports: Seq<(String, Json)>, from: nat, depth: nat)
    ensures
        outputs_read(so_far, ports, from, depth) matches Ok(done) ==> keeps(
            so_far.reading,
            done.reading,
        ),
    decreases ports.len() - from,
{
    if from < ports.len() {
        let (name, port) = ports[from as int];
        if let Ok(found) = port_bits(name@, port, "output"@) {
            match found {
                None => {
                    lemma_outputs_keep(so_far, ports, from + 1, depth);
                },
                Some(bits) => {
                    lemma_output_bits_keep(so_far, name@, bits, 0, depth);
                    if let Ok(next) = output_bits(so_far, name@, bits, 0, depth) {
                        lemma_outputs_keep(next, ports, from + 1, depth);
                    }
                },
            }
        }
    }
}

proof fn lemma_readings_keep(start: Reading, ports: Seq<(String, Json)>, depth: nat)
    ensures
        outputs_read(no_outputs(start), ports, 0, depth) matches Ok(done) ==> keeps(
            start,
            done.reading,
        ),
{
    lemma_outputs_keep(no_outputs(start), ports, 0, depth);
}

/// Where a pin cannot be read, neither can all of them, for the same reason.
proof fn lemma_pins_fail(
    r: Reading,
    cell: CellView,
    pins: Seq<Seq<char>>,
    few: nat,
    many: nat,
    depth: nat,
)
    requires
        few <= many,
        pins_read(r, cell, pins, few, depth) is Err,
    ensures
        pins_read(r, cell, pins, many, depth) == pins_read(r, cell, pins, few, depth),
    decreases many - few,
{
    if few < many {
        lemma_pins_fail(r, cell, pins, few, (many - 1) as nat, depth);
    }
}

pub open spec fn str_views(list: Seq<&'static str>) -> Seq<Seq<char>> {
    Seq::new(list.len(), |i: int| list[i]@)
}

spec fn pin_views(pins: Seq<Option<String>>) -> Seq<Option<Seq<char>>> {
    Seq::new(
        pins.len(),
        |i: int|
            match pins[i] {
                Some(name) => Some(name@),
                None => None,
            },
    )
}

fn bit_label(port: &str, width: usize, index: usize) -> (name: String)
    ensures
        name@ == bit_name(port@, width as nat, index as nat),
{
    if width == 1 {
        port.to_owned()
    } else {
        let number: String = text::decimal_text(index as u64);
        text::glue4(port, "[", number.as_str(), "]")
    }
}

/// The bits of a port, if it has the direction that is asked for.
fn bits_of<'a>(name: &str, port: &'a Json, direction: &str) -> (bits: Result<
    Option<&'a Vec<Json>>,
    FrontendError,
>)
    ensures
        match bits {
            Ok(Some(found)) => port_bits(name@, *port, direction@) == Ok::<
                Option<Seq<Json>>,
                Seq<char>,
            >(Some(found@)),
            Ok(None) => port_bits(name@, *port, direction@) == Ok::<
                Option<Seq<Json>>,
                Seq<char>,
            >(None),
            Err(error) => port_bits(name@, *port, direction@) is Err && says(
                error,
                port_bits(name@, *port, direction@)->Err_0,
            ),
        },
{
    let stated: &Json = match port.get("direction") {
        Some(found) => found,
        None => return Err(refusal("port `", name, "` has no `direction`")),
    };
    match as_text(stated, "port direction") {
        Err(error) => Err(error),
        Ok(found) => {
            if !text::same_text(found, direction) {
                return Ok(None);
            }
            let bits: &Json = match port.get("bits") {
                Some(listed) => listed,
                None => return Err(refusal("port `", name, "` has no `bits`")),
            };
            match as_array(bits, "port bits") {
                Err(error) => Err(error),
                Ok(items) => Ok(Some(items)),
            }
        },
    }
}

/// The inputs as far as they have been read.
struct Inputs {
    names: Vec<String>,
    signal_of: HashMap<i64, String>,
}

impl Inputs {
    spec fn so_far(self) -> (Seq<Seq<char>>, Map<i64, Seq<char>>) {
        (netlist::texts(self.names@), name_map(self.signal_of@))
    }

    fn read_port(&mut self, port: &str, bits: &Vec<Json>) -> (done: Result<(), FrontendError>)
        ensures
            ({
                let expected = input_bits(old(self).so_far(), port@, bits@, 0);
                match done {
                    Ok(_) => expected == Ok::<
                        (Seq<Seq<char>>, Map<i64, Seq<char>>),
                        Seq<char>,
                    >(final(self).so_far()),
                    Err(error) => expected is Err && says(error, expected->Err_0),
                }
            }),
    {
        let ghost expected = input_bits(self.so_far(), port@, bits@, 0);
        let mut at: usize = 0;
        while at < bits.len()
            invariant
                at <= bits@.len(),
                expected == input_bits(old(self).so_far(), port@, bits@, 0),
                expected == input_bits(self.so_far(), port@, bits@, at as nat),
            decreases bits@.len() - at,
        {
            match parse_bit(&bits[at]) {
                Err(error) => return Err(error),
                Ok(Bit::Net(id)) => {
                    let ghost before = *self;
                    let name: String = bit_label(port, bits.len(), at);
                    let copy: String = name.as_str().to_owned();
                    self.signal_of.insert(id, copy);
                    self.names.push(name);
                    proof {
                        lemma_name_inserted(before.signal_of@, id, copy);
                        assert(netlist::texts(self.names@) =~= netlist::texts(before.names@).push(
                            name@,
                        ));
                    }
                },
                Ok(_) => return Err(
                    refusal(
                        "input port `",
                        port,
                        "` has a constant bit, which yosys should never emit for a real input",
                    ),
                ),
            }
            at = at + 1;
        }
        Ok(())
    }
}

fn read_inputs(ports: &Vec<(String, Json)>) -> (inputs: Result<Inputs, FrontendError>)
    ensures
        ({
            let expected = inputs_read((seq![], Map::empty()), ports@, 0);
            match inputs {
                Ok(found) => expected == Ok::<
                    (Seq<Seq<char>>, Map<i64, Seq<char>>),
                    Seq<char>,
                >(found.so_far()),
                Err(error) => expected is Err && says(error, expected->Err_0),
            }
        }),
{
    let ghost expected = inputs_read((seq![], Map::empty()), ports@, 0);
    let mut inputs = Inputs { names: Vec::new(), signal_of: HashMap::new() };
    proof {
        assert(netlist::texts(inputs.names@) =~= seq![]);
        assert(name_map(inputs.signal_of@) =~= Map::empty());
    }
    let mut at: usize = 0;
    while at < ports.len()
        invariant
            at <= ports@.len(),
            expected == inputs_read((seq![], Map::empty()), ports@, 0),
            expected == inputs_read(inputs.so_far(), ports@, at as nat),
        decreases ports@.len() - at,
    {
        let name: &str = ports[at].0.as_str();
        match bits_of(name, &ports[at].1, "input") {
            Err(error) => return Err(error),
            Ok(None) => {},
            Ok(Some(bits)) => match inputs.read_port(name, bits) {
                Err(error) => return Err(error),
                Ok(_) => {},
            },
        }
        at = at + 1;
    }
    Ok(inputs)
}

fn read_cell<'a>(name: &'a str, cell: &'a Json) -> (info: Result<CellInfo<'a>, FrontendError>)
    ensures
        ({
            let expected = cell_read(name@, *cell);
            match info {
                Ok(found) => expected == Ok::<CellView, Seq<char>>(found.as_cell()),
                Err(error) => expected is Err && says(error, expected->Err_0),
            }
        }),
{
    let stated: &Json = match cell.get("type") {
        Some(found) => found,
        None => return Err(refusal("cell `", name, "` has no `type`")),
    };
    let cell_type: &str = match as_text(stated, "cell type") {
        Err(error) => return Err(error),
        Ok(found) => found,
    };
    let listed: &Json = match cell.get("connections") {
        Some(found) => found,
        None => return Err(refusal("cell `", name, "` has no `connections`")),
    };
    let connections: &Vec<(String, Json)> = match as_object(listed, "cell connections") {
        Err(error) => return Err(error),
        Ok(found) => found,
    };
    let value: &Json = match single_bit(connections, "Y", name) {
        Err(error) => return Err(error),
        Ok(found) => found,
    };
    match parse_bit(value) {
        Err(error) => Err(error),
        Ok(Bit::Net(net)) => Ok(CellInfo { name, cell_type, connections, net }),
        Ok(_) => Err(
            long_refusal(
                "cell `",
                name,
                "` (",
                cell_type,
                ") has a constant output, which is never something ABC needs written to a real net",
            ),
        ),
    }
}

/// The cells of a module, and which of them drives each net.
struct Cells<'a> {
    cells: Vec<CellInfo<'a>>,
    driver_of: HashMap<i64, usize>,
}

impl<'a> Cells<'a> {
    spec fn so_far(self) -> (Seq<CellView>, Map<i64, int>) {
        (cell_views(self.cells@), index_map(self.driver_of@))
    }

    spec fn wf(self) -> bool {
        &&& forall|net: i64|
            self.driver_of@.dom().contains(net) ==> (#[trigger] self.driver_of@[net])
                < self.cells@.len()
        &&& self.driver_of@.dom().finite()
        &&& self.driver_of@.dom().len() <= self.cells@.len()
    }
}

fn read_cells<'a>(fields: &'a Vec<(String, Json)>) -> (cells: Result<Cells<'a>, FrontendError>)
    ensures
        ({
            let expected = cells_read((seq![], Map::empty()), fields@, 0);
            match cells {
                Ok(found) => found.wf() && found.cells@.len() == fields@.len() && expected == Ok::<
                    (Seq<CellView>, Map<i64, int>),
                    Seq<char>,
                >(found.so_far()),
                Err(error) => expected is Err && says(error, expected->Err_0),
            }
        }),
{
    let ghost expected = cells_read((seq![], Map::empty()), fields@, 0);
    let mut cells: Vec<CellInfo<'a>> = Vec::new();
    let mut driver_of: HashMap<i64, usize> = HashMap::new();
    proof {
        assert(cell_views(cells@) =~= seq![]);
        assert(index_map(driver_of@) =~= Map::empty());
    }
    let mut at: usize = 0;
    while at < fields.len()
        invariant
            at <= fields@.len(),
            cells@.len() == at,
            expected == cells_read((seq![], Map::empty()), fields@, 0),
            expected == cells_read((cell_views(cells@), index_map(driver_of@)), fields@, at as nat),
            forall|net: i64| driver_of@.dom().contains(net) ==> (#[trigger] driver_of@[net]) < at,
            driver_of@.dom().finite(),
            driver_of@.dom().len() <= at,
        decreases fields@.len() - at,
    {
        match read_cell(fields[at].0.as_str(), &fields[at].1) {
            Err(error) => return Err(error),
            Ok(cell) => {
                let ghost before = (cells@, driver_of@);
                driver_of.insert(cell.net, at);
                cells.push(cell);
                proof {
                    assert(cell_views(cells@) =~= cell_views(before.0).push(cell.as_cell()));
                    assert(index_map(driver_of@) =~= index_map(before.1).insert(
                        cell.net,
                        at as int,
                    ));
                }
            },
        }
        at = at + 1;
    }
    Ok(Cells { cells, driver_of })
}

fn holds_text(list: &Vec<String>, name: &str) -> (found: bool)
    ensures
        found == netlist::texts(list@).contains(name@),
{
    let ghost views = netlist::texts(list@);
    let mut at: usize = 0;
    while at < list.len()
        invariant
            at <= list@.len(),
            views == netlist::texts(list@),
            forall|i: int| 0 <= i < at ==> #[trigger] views[i] != name@,
        decreases list@.len() - at,
    {
        assert(views[at as int] == list@[at as int]@);
        if text::same_text(list[at].as_str(), name) {
            return true;
        }
        at = at + 1;
    }
    false
}

impl<'a> Context<'a> {
    /// The signal behind a bit of an output.
    fn output_net(&mut self, net: i64, Ghost(depth): Ghost<nat>) -> (signal: Result<
        String,
        FrontendError,
    >)
        requires
            old(self).wf(),
            old(self).driver_of@.dom().len() <= depth,
        ensures
            final(self).wf(),
            final(self).driver_of@.dom().subset_of(old(self).driver_of@.dom()),
            ({
                let expected = output_signal(old(self).reading(), net, depth);
                match signal {
                    Ok(name) => expected == Ok::<(Reading, Seq<char>), Seq<char>>(
                        (final(self).reading(), name@),
                    ),
                    Err(error) => expected is Err && says(error, expected->Err_0),
                }
            }),
    {
        let name: String = if self.driver_of.contains_key(&net) {
            match self.resolve(net, Ghost(depth)) {
                Err(error) => return Err(error),
                Ok(found) => found,
            }
        } else {
            match self.signal_of.get(&net) {
                Some(found) => found.as_str().to_owned(),
                None => {
                    let number: String = text::signed_text(net);
                    let error: FrontendError = FrontendError::Unsupported(
                        text::glue4(
                            "output ",
                            "net ",
                            number.as_str(),
                            " is driven by neither a primary input nor a cell",
                        ),
                    );
                    proof {
                        assert(error->Unsupported_0@ =~= "output "@ + undriven(net));
                    }
                    return Err(error);
                },
            }
        };
        if !holds_text(&self.inputs, name.as_str()) {
            return Ok(name);
        }
        if let Some(buffered) = self.buffer_of_input.get(&net) {
            return Ok(buffered.as_str().to_owned());
        }
        let ghost before = *self;
        let inputs: Vec<String> = vec![name];
        assert(netlist::texts(inputs@) =~= seq![name@]);
        let output: String = self.builder.cell(GateKind::Buf, inputs);
        let copy: String = output.as_str().to_owned();
        self.buffer_of_input.insert(net, copy);
        proof {
            lemma_name_inserted(before.buffer_of_input@, net, copy);
        }
        Ok(output)
    }
}

/// A reading with the outputs found so far.
struct Harvest<'a> {
    context: Context<'a>,
    outputs: Vec<String>,
    ports: Properties,
}

impl<'a> Harvest<'a> {
    spec fn so_far(self) -> Outputs {
        Outputs {
            reading: self.context.reading(),
            signals: netlist::texts(self.outputs@),
            ports: self.ports@,
        }
    }

    fn read_port(&mut self, port: &str, bits: &Vec<Json>, Ghost(depth): Ghost<nat>) -> (done:
        Result<(), FrontendError>)
        requires
            old(self).context.wf(),
            old(self).context.driver_of@.dom().len() <= depth,
        ensures
            final(self).context.wf(),
            final(self).context.driver_of@.dom().subset_of(old(self).context.driver_of@.dom()),
            ({
                let expected = output_bits(old(self).so_far(), port@, bits@, 0, depth);
                match done {
                    Ok(_) => expected == Ok::<Outputs, Seq<char>>(final(self).so_far()),
                    Err(error) => expected is Err && says(error, expected->Err_0),
                }
            }),
    {
        let ghost expected = output_bits(self.so_far(), port@, bits@, 0, depth);
        let mut at: usize = 0;
        while at < bits.len()
            invariant
                at <= bits@.len(),
                self.context.wf(),
                self.context.driver_of@.dom().subset_of(old(self).context.driver_of@.dom()),
                old(self).context.driver_of@.dom().finite(),
                old(self).context.driver_of@.dom().len() <= depth,
                expected == output_bits(old(self).so_far(), port@, bits@, 0, depth),
                expected == output_bits(self.so_far(), port@, bits@, at as nat, depth),
            decreases bits@.len() - at,
        {
            match parse_bit(&bits[at]) {
                Err(error) => return Err(error),
                Ok(Bit::Net(id)) => {
                    let ghost before = self.so_far();
                    proof {
                        vstd::set_lib::lemma_len_subset(
                            self.context.driver_of@.dom(),
                            old(self).context.driver_of@.dom(),
                        );
                    }
                    match self.context.output_net(id, Ghost(depth)) {
                        Err(error) => return Err(error),
                        Ok(signal) => {
                            let name: String = bit_label(port, bits.len(), at);
                            self.ports.insert(name.as_str(), signal.as_str());
                            if !holds_text(&self.outputs, signal.as_str()) {
                                let ghost listed = self.outputs@;
                                self.outputs.push(signal);
                                assert(netlist::texts(self.outputs@) =~= netlist::texts(
                                    listed,
                                ).push(signal@));
                            }
                            assert(self.so_far() =~= with_output(
                                before,
                                self.context.reading(),
                                name@,
                                signal@,
                            ));
                        },
                    }
                },
                Ok(_) => return Err(
                    refusal(
                        "output port `",
                        port,
                        "` is tied to a constant -- there is no hard-wired driver in real redstone",
                    ),
                ),
            }
            at = at + 1;
        }
        Ok(())
    }
}

fn read_outputs<'a>(
    context: Context<'a>,
    ports: &Vec<(String, Json)>,
    Ghost(depth): Ghost<nat>,
) -> (harvest: Result<Harvest<'a>, FrontendError>)
    requires
        context.wf(),
        context.driver_of@.dom().len() <= depth,
    ensures
        ({
            let expected = outputs_read(no_outputs(context.reading()), ports@, 0, depth);
            match harvest {
                Ok(found) => expected == Ok::<Outputs, Seq<char>>(found.so_far()),
                Err(error) => expected is Err && says(error, expected->Err_0),
            }
        }),
{
    let ghost reading = context.reading();
    let ghost drivers = context.driver_of@.dom();
    let ghost expected = outputs_read(no_outputs(reading), ports@, 0, depth);
    let mut harvest = Harvest { context, outputs: Vec::new(), ports: Properties::new() };
    proof {
        assert(harvest.so_far() =~= no_outputs(reading));
    }
    let mut at: usize = 0;
    while at < ports.len()
        invariant
            at <= ports@.len(),
            reading == context.reading(),
            harvest.context.wf(),
            harvest.context.driver_of@.dom().subset_of(drivers),
            drivers.finite(),
            drivers.len() <= depth,
            expected == outputs_read(no_outputs(reading), ports@, 0, depth),
            expected == outputs_read(harvest.so_far(), ports@, at as nat, depth),
        decreases ports@.len() - at,
    {
        let name: &str = ports[at].0.as_str();
        match bits_of(name, &ports[at].1, "output") {
            Err(error) => return Err(error),
            Ok(None) => {},
            Ok(Some(bits)) => {
                proof {
                    vstd::set_lib::lemma_len_subset(harvest.context.driver_of@.dom(), drivers);
                }
                match harvest.read_port(name, bits, Ghost(depth)) {
                    Err(error) => return Err(error),
                    Ok(_) => {},
                }
            },
        }
        at = at + 1;
    }
    Ok(harvest)
}

impl<'a> Context<'a> {
    /// The cells that nothing has reached.
    fn unused(&self) -> (names: Vec<&'a str>)
        ensures
            Seq::new(names@.len(), |i: int| names@[i]@) == left_over(
                self.reading(),
                self.cells@.len(),
            ),
    {
        let ghost r = self.reading();
        let mut names: Vec<&'a str> = Vec::new();
        assert(Seq::new(names@.len(), |i: int| names@[i]@) =~= left_over(r, 0));
        let mut at: usize = 0;
        while at < self.cells.len()
            invariant
                at <= self.cells@.len(),
                r == self.reading(),
                Seq::new(names@.len(), |i: int| names@[i]@) == left_over(r, at as nat),
            decreases self.cells@.len() - at,
        {
            let ghost before = names@;
            let net: i64 = self.cells[at].net;
            let waiting: bool = match self.driver_of.get(&net) {
                Some(index) => *index == at,
                None => false,
            };
            assert(r.cells[at as int] == self.cells@[at as int].as_cell());
            if waiting {
                names.push(self.cells[at].name);
                assert(Seq::new(names@.len(), |i: int| names@[i]@) =~= Seq::new(
                    before.len(),
                    |i: int| before[i]@,
                ).push(self.cells@[at as int].name@));
            }
            at = at + 1;
        }
        names
    }
}

/// Reads the netlist of a module, together with the signal of each bit of its
/// output ports: a port of one bit goes by its own name, a wider one by its
/// name with the bit's number in brackets.
pub fn netlist_from_json(value: &Json, top_module: &str) -> (read: Result<
    (Netlist, Properties),
    FrontendError,
>)
    ensures
        match read {
            Ok((found, ports)) => netlist_read(*value, top_module@) == Ok::<
                (NetlistView, Map<Seq<char>, Seq<char>>),
                Seq<char>,
            >((found@, ports@)),
            Err(error) => netlist_read(*value, top_module@) is Err && says(
                error,
                netlist_read(*value, top_module@)->Err_0,
            ),
        },
{
    let listed: &Json = match value.get("modules") {
        Some(found) => found,
        None => return Err(plain_refusal("yosys JSON has no `modules` key")),
    };
    let modules: &Vec<(String, Json)> = match as_object(listed, "`modules`") {
        Err(error) => return Err(error),
        Ok(found) => found,
    };
    let module: &Json = match json::lookup(modules, top_module) {
        Some(found) => found,
        None => {
            let available: Vec<&str> = names_of(modules);
            let shown: String = text::debug_listed(&available);
            return Err(
                FrontendError::Unsupported(
                    text::glue4(
                        "yosys JSON has no module named `",
                        top_module,
                        "`; found: ",
                        shown.as_str(),
                    ),
                ),
            );
        },
    };
    let port_value: &Json = match module.get("ports") {
        Some(found) => found,
        None => return Err(plain_refusal("module has no `ports` key")),
    };
    let ports: &Vec<(String, Json)> = match as_object(port_value, "`ports`") {
        Err(error) => return Err(error),
        Ok(found) => found,
    };
    let cell_value: &Json = match module.get("cells") {
        Some(found) => found,
        None => return Err(plain_refusal("module has no `cells` key")),
    };
    let fields: &Vec<(String, Json)> = match as_object(cell_value, "`cells`") {
        Err(error) => return Err(error),
        Ok(found) => found,
    };
    read_module(ports, fields)
}

/// Reads the netlist of a module from what Yosys wrote. A text that is no JSON is
/// refused in the parser's words.
pub fn netlist_from_text(written: &str, top_module: &str) -> (read: Result<
    (Netlist, Properties),
    FrontendError,
>)
    ensures
        match json::json_document(written@) {
            Err(reason) => read matches Err(FrontendError::Json(why)) && why@ == reason,
            Ok(value) => match read {
                Ok((found, ports)) => netlist_read(value, top_module@) == Ok::<
                    (NetlistView, Map<Seq<char>, Seq<char>>),
                    Seq<char>,
                >((found@, ports@)),
                Err(error) => netlist_read(value, top_module@) is Err && says(
                    error,
                    netlist_read(value, top_module@)->Err_0,
                ),
            },
        },
{
    match json::parse_json(written) {
        Ok(value) => netlist_from_json(&value, top_module),
        Err(reason) => Err(FrontendError::Json(reason)),
    }
}

fn names_of<'a>(fields: &'a Vec<(String, Json)>) -> (names: Vec<&'a str>)
    ensures
        Seq::new(names@.len(), |i: int| names@[i]@) == field_names(fields@),
{
    let mut names: Vec<&'a str> = Vec::new();
    let mut at: usize = 0;
    while at < fields.len()
        invariant
            at <= fields@.len(),
            names@.len() == at,
            forall|i: int| 0 <= i < at ==> (#[trigger] names@[i])@ == fields@[i].0@,
        decreases fields@.len() - at,
    {
        names.push(fields[at].0.as_str());
        at = at + 1;
    }
    assert(Seq::new(names@.len(), |i: int| names@[i]@) =~= field_names(fields@));
    names
}

fn read_module(ports: &Vec<(String, Json)>, fields: &Vec<(String, Json)>) -> (read: Result<
    (Netlist, Properties),
    FrontendError,
>)
    ensures
        match read {
            Ok((found, signals)) => module_read(ports@, fields@) == Ok::<
                (NetlistView, Map<Seq<char>, Seq<char>>),
                Seq<char>,
            >((found@, signals@)),
            Err(error) => module_read(ports@, fields@) is Err && says(
                error,
                module_read(ports@, fields@)->Err_0,
            ),
        },
{
    let inputs: Inputs = match read_inputs(ports) {
        Err(error) => return Err(error),
        Ok(found) => found,
    };
    let cells: Cells = match read_cells(fields) {
        Err(error) => return Err(error),
        Ok(found) => found,
    };
    let ghost start = start_of(inputs.so_far(), cells.so_far());
    let builder: NetlistBuilder = NetlistBuilder::new(&inputs.names);
    let context = Context {
        cells: cells.cells,
        driver_of: cells.driver_of,
        signal_of: inputs.signal_of,
        in_progress: HashSet::new(),
        inputs: inputs.names,
        buffer_of_input: HashMap::new(),
        builder,
    };
    proof {
        assert(context.reading() =~= start) by {
            assert(name_map(context.buffer_of_input@) =~= Map::empty());
            assert(netlist::gate_views(context.builder.gates@) =~= seq![]);
        }
    }
    let harvest: Harvest = match read_outputs(context, ports, Ghost(fields@.len())) {
        Err(error) => return Err(error),
        Ok(found) => found,
    };
    let Harvest { context: after, outputs, ports: signals } = harvest;
    let unused: Vec<&str> = after.unused();
    proof {
        lemma_readings_keep(start, ports@, fields@.len());
        assert(after.reading().cells.len() == after.cells@.len());
    }
    if unused.len() > 0 {
        let count: usize = unused.len();
        let number: String = text::decimal_text(count as u64);
        let shown: String = text::debug_listed(&unused);
        return Err(
            refusal(
                number.as_str(),
                " cell(s) are never used to drive any output: ",
                shown.as_str(),
            ),
        );
    }
    let Context { inputs: names, builder: finished, .. } = after;
    let found = Netlist { inputs: names, outputs, gates: finished.into_gates() };
    Ok((found, signals))
}

} // verus!
