//! What is promised of netlists: when one can be laid out, and what its signals carry.

use crate::compile::netlist;
use crate::compile::netlist::{GateView, NetlistView};
use crate::compile::topology;
use vstd::prelude::*;

verus! {

/// Something drives a signal exactly if it is a declared input or the output of a gate.
pub proof fn lemma_what_is_driven(list: NetlistView, name: Seq<char>)
    ensures
        netlist::driven(list, name) <==> (exists|i: int|
            0 <= i < list.inputs.len() && #[trigger] list.inputs[i] == name) || (exists|g: int|
            0 <= g < list.gates.len() && (#[trigger] list.gates[g]).output == name),
{
}

proof fn lemma_first_of_names(list: NetlistView, names: Seq<Seq<char>>, from: int)
    requires
        0 <= from,
    ensures
        match netlist::first_undriven(list, names, from) {
            Some(name) => exists|i: int|
                from <= i < names.len() && #[trigger] names[i] == name && !netlist::driven(
                    list,
                    name,
                ) && forall|j: int| from <= j < i ==> netlist::driven(list, #[trigger] names[j]),
            None => forall|i: int|
                from <= i < names.len() ==> netlist::driven(list, #[trigger] names[i]),
        },
    decreases names.len() - from,
{
    if from < names.len() {
        if !netlist::driven(list, names[from]) {
            assert(names[from] == netlist::first_undriven(list, names, from)->0);
        } else {
            lemma_first_of_names(list, names, from + 1);
            if let Some(name) = netlist::first_undriven(list, names, from + 1) {
                let i = choose|i: int|
                    from + 1 <= i < names.len() && #[trigger] names[i] == name && !netlist::driven(
                        list,
                        name,
                    ) && forall|j: int|
                        from + 1 <= j < i ==> netlist::driven(list, #[trigger] names[j]);
                assert(names[i] == name);
            }
        }
    }
}

/// Every input of a gate is driven.
pub open spec fn fully_driven(list: NetlistView, g: int) -> bool {
    forall|i: int|
        0 <= i < list.gates[g].inputs.len() ==> netlist::driven(
            list,
            #[trigger] list.gates[g].inputs[i],
        )
}

proof fn lemma_first_of_gates(list: NetlistView, from: int)
    requires
        0 <= from,
    ensures
        match netlist::first_undriven_input(list, from) {
            Some(name) => !netlist::driven(list, name) && exists|g: int|
                from <= g < list.gates.len() && (#[trigger] list.gates[g]).inputs.contains(name)
                    && forall|h: int| from <= h < g ==> #[trigger] fully_driven(list, h),
            None => forall|g: int|
                from <= g < list.gates.len() ==> #[trigger] fully_driven(list, g),
        },
    decreases list.gates.len() - from,
{
    if from < list.gates.len() {
        let names = list.gates[from].inputs;
        lemma_first_of_names(list, names, 0);
        match netlist::first_undriven(list, names, 0) {
            Some(name) => {
                assert(list.gates[from].inputs.contains(name));
            },
            None => {
                assert(fully_driven(list, from));
                lemma_first_of_gates(list, from + 1);
                if let Some(name) = netlist::first_undriven_input(list, from + 1) {
                    let g = choose|g: int|
                        from + 1 <= g < list.gates.len() && (
                        #[trigger] list.gates[g]).inputs.contains(name) && forall|h: int|
                            from + 1 <= h < g ==> #[trigger] fully_driven(list, h);
                    assert(list.gates[g].inputs.contains(name));
                }
            },
        }
    }
}

proof fn lemma_first_of_outputs(list: NetlistView, from: int)
    requires
        0 <= from,
    ensures
        match netlist::first_undriven_output(list, from) {
            Some(name) => !netlist::gate_drives(list.gates, name) && exists|i: int|
                from <= i < list.outputs.len() && #[trigger] list.outputs[i] == name && forall|
                    j: int,
                |
                    from <= j < i ==> netlist::gate_drives(
                        list.gates,
                        #[trigger] list.outputs[j],
                    ),
            None => forall|i: int|
                from <= i < list.outputs.len() ==> netlist::gate_drives(
                    list.gates,
                    #[trigger] list.outputs[i],
                ),
        },
    decreases list.outputs.len() - from,
{
    if from < list.outputs.len() {
        if !netlist::gate_drives(list.gates, list.outputs[from]) {
            assert(list.outputs[from] == netlist::first_undriven_output(list, from)->0);
        } else {
            lemma_first_of_outputs(list, from + 1);
            if let Some(name) = netlist::first_undriven_output(list, from + 1) {
                let i = choose|i: int|
                    from + 1 <= i < list.outputs.len() && #[trigger] list.outputs[i] == name
                        && forall|j: int|
                        from + 1 <= j < i ==> netlist::gate_drives(
                            list.gates,
                            #[trigger] list.outputs[j],
                        );
                assert(list.outputs[i] == name);
            }
        }
    }
}

/// Nothing keeps a netlist from being laid out for want of a driver exactly if every input
/// of every gate is driven, and every output by a gate. What is reported is an input of a
/// gate that nothing drives, in the first gate that has one, or else the first output that
/// no gate drives.
pub proof fn lemma_which_signal_is_undriven(list: NetlistView)
    ensures
        netlist::undriven_signal(list) is None <==> (forall|g: int|
            0 <= g < list.gates.len() ==> #[trigger] fully_driven(list, g)) && (forall|i: int|
            0 <= i < list.outputs.len() ==> netlist::gate_drives(
                list.gates,
                #[trigger] list.outputs[i],
            )),
        match netlist::undriven_signal(list) {
            Some(name) => if forall|g: int|
                0 <= g < list.gates.len() ==> #[trigger] fully_driven(list, g) {
                !netlist::gate_drives(list.gates, name) && exists|i: int|
                    0 <= i < list.outputs.len() && #[trigger] list.outputs[i] == name && forall|
                        j: int,
                    |
                        0 <= j < i ==> netlist::gate_drives(
                            list.gates,
                            #[trigger] list.outputs[j],
                        )
            } else {
                !netlist::driven(list, name) && exists|g: int|
                    0 <= g < list.gates.len() && (#[trigger] list.gates[g]).inputs.contains(name)
                        && forall|h: int| 0 <= h < g ==> #[trigger] fully_driven(list, h)
            },
            None => true,
        },
{
    lemma_first_of_gates(list, 0);
    lemma_first_of_outputs(list, 0);
    if let Some(name) = netlist::first_undriven_input(list, 0) {
        let g = choose|g: int|
            0 <= g < list.gates.len() && (#[trigger] list.gates[g]).inputs.contains(name)
                && forall|h: int| 0 <= h < g ==> #[trigger] fully_driven(list, h);
        let i = choose|i: int|
            0 <= i < list.gates[g].inputs.len() && list.gates[g].inputs[i] == name;
        assert(!netlist::driven(list, list.gates[g].inputs[i]));
        assert(!fully_driven(list, g));
    }
}

/// The gates stand in order: no gate drives what a gate before it, or it itself, reads, nor
/// what another gate drives.
pub open spec fn stand_in_order(gates: Seq<GateView>) -> bool {
    &&& forall|g: int, h: int|
        0 <= g <= h < gates.len() ==> !(#[trigger] gates[g]).inputs.contains(
            (#[trigger] gates[h]).output,
        )
    &&& forall|g: int, h: int|
        0 <= g < h < gates.len() ==> (#[trigger] gates[g]).output != (#[trigger] gates[h]).output
}

/// Once all gates are worked out in order, the output of each carries what its kind makes
/// of what its inputs carry, and a signal that no gate drives what it carried at first.
pub proof fn lemma_what_signals_carry(
    inputs: Map<Seq<char>, bool>,
    gates: Seq<GateView>,
    count: nat,
    g: int,
)
    requires
        stand_in_order(gates),
        0 <= g < count <= gates.len(),
    ensures
        ({
            let values = netlist::carried(inputs, gates, count);
            &&& values.dom().contains(gates[g].output)
            &&& values[gates[g].output] == topology::kind_value(
                gates[g].kind,
                Seq::new(gates[g].inputs.len(), |i: int| values[gates[g].inputs[i]]),
            )
        }),
    decreases count,
{
    let values = netlist::carried(inputs, gates, count);
    let before = netlist::carried(inputs, gates, (count - 1) as nat);
    let last = gates[count - 1];
    if g < count - 1 {
        lemma_what_signals_carry(inputs, gates, (count - 1) as nat, g);
        assert(gates[g].output != gates[count - 1].output);
    }
    assert(!gates[g].inputs.contains(gates[count - 1].output));
    assert forall|i: int| 0 <= i < gates[g].inputs.len() implies values[gates[g].inputs[i]]
        == before[gates[g].inputs[i]] by {
        assert(gates[g].inputs.contains(gates[g].inputs[i]));
    }
    assert(Seq::new(gates[g].inputs.len(), |i: int| values[gates[g].inputs[i]]) =~= Seq::new(
        gates[g].inputs.len(),
        |i: int| before[gates[g].inputs[i]],
    ));
    assert(netlist::read_all(gates[g].inputs, before) =~= Seq::new(
        gates[g].inputs.len(),
        |i: int| before[gates[g].inputs[i]],
    ));
}

/// A signal that no gate drives carries what it carried at first.
pub proof fn lemma_inputs_keep_what_they_carry(
    inputs: Map<Seq<char>, bool>,
    gates: Seq<GateView>,
    count: nat,
    name: Seq<char>,
)
    requires
        count <= gates.len(),
        !netlist::gate_drives(gates, name),
    ensures
        netlist::carried(inputs, gates, count).dom().contains(name) <==> inputs.dom().contains(
            name,
        ),
        netlist::carried(inputs, gates, count)[name] == inputs[name],
    decreases count,
{
    if count > 0 {
        lemma_inputs_keep_what_they_carry(inputs, gates, (count - 1) as nat, name);
        assert(gates[count - 1].output != name);
    }
}

/// The prefix of invented names is an `n` and underscores, as few as will do.
pub proof fn lemma_what_invented_names_begin_with(taken: Seq<Seq<char>>, underscores: nat)
    ensures
        ({
            let prefix = netlist::candidate(underscores);
            &&& prefix.len() == underscores + 1
            &&& prefix[0] == 'n'
            &&& forall|i: int| 0 < i < prefix.len() ==> #[trigger] prefix[i] == '_'
        }),
        netlist::is_fresh_prefix(taken, underscores) ==> forall|i: int|
            0 <= i < taken.len() ==> !netlist::candidate(underscores).is_prefix_of(
                #[trigger] taken[i],
            ),
        netlist::is_fresh_prefix(taken, underscores) && underscores > 0 ==> exists|i: int|
            0 <= i < taken.len() && netlist::candidate((underscores - 1) as nat).is_prefix_of(
                #[trigger] taken[i],
            ),
{
    reveal_strlit("n");
    assert("n"@ =~= seq!['n']);
    if netlist::is_fresh_prefix(taken, underscores) && underscores > 0 {
        let fewer = (underscores - 1) as nat;
        assert(netlist::clashes(taken, netlist::candidate(fewer)));
    }
}

} // verus!
