//! What is promised of gates: what each computes, what it is called, and what it costs to
//! build.

use crate::compile::expansion;
use crate::compile::expansion::{Operand, StepView};
use crate::compile::topology;
use crate::compile::topology::{GateKind, Primitive, TemplateNode};
use vstd::prelude::*;

verus! {

proof fn lemma_any_of_one(one: bool)
    ensures
        topology::any(seq![one]) == one,
{
    assert(seq![one][0] == one);
}

proof fn lemma_any_of_two(one: bool, two: bool)
    ensures
        topology::any(seq![one, two]) == (one || two),
{
    assert(seq![one, two][0] == one);
    assert(seq![one, two][1] == two);
}

/// A NOR is the complement of an OR, which carries a signal if one of its inputs does; an
/// AND does if both do, an XOR if they differ. All other gates are these, one after the
/// other or complemented. A multiplexer gives its second input if its third carries a
/// signal, and else its first.
pub proof fn lemma_what_gates_compute(v: Seq<bool>, arity: usize)
    ensures
        ({
            let of = |kind: GateKind, inputs: Seq<bool>| topology::kind_value(kind, inputs);
            let not = |value: bool| topology::kind_value(GateKind::Nor(1), seq![value]);
            &&& of(GateKind::Or(arity), v) <==> v.contains(true)
            &&& of(GateKind::Nor(arity), v) <==> !v.contains(true)
            &&& not(true) == false && not(false) == true
            &&& v.len() >= 1 ==> of(GateKind::Buf, v) == v[0]
            &&& v.len() == 2 ==> {
                &&& of(GateKind::And, v) <==> !v.contains(false)
                &&& of(GateKind::Nand, v) <==> v.contains(false)
                &&& of(GateKind::Xor, v) <==> v.contains(true) && v.contains(false)
                &&& of(GateKind::Xnor, v) == not(of(GateKind::Xor, v))
                &&& of(GateKind::AndNot, v) == of(GateKind::And, seq![v[0], not(v[1])])
                &&& of(GateKind::OrNot, v) == of(GateKind::Or(2), seq![v[0], not(v[1])])
            }
            &&& v.len() == 3 ==> {
                let both = of(GateKind::And, seq![v[0], v[1]]);
                let either = of(GateKind::Or(2), seq![v[0], v[1]]);
                &&& of(GateKind::Aoi3, v) == of(GateKind::Nor(2), seq![both, v[2]])
                &&& of(GateKind::Oai3, v) == of(GateKind::Nand, seq![either, v[2]])
                &&& v[2] ==> of(GateKind::Mux, v) == v[1]
                &&& !v[2] ==> of(GateKind::Mux, v) == v[0]
                &&& of(GateKind::Nmux, v) == not(of(GateKind::Mux, v))
            }
            &&& v.len() == 4 ==> {
                let both = of(GateKind::And, seq![v[0], v[1]]);
                let others = of(GateKind::And, seq![v[2], v[3]]);
                let either = of(GateKind::Or(2), seq![v[0], v[1]]);
                let other = of(GateKind::Or(2), seq![v[2], v[3]]);
                &&& of(GateKind::Aoi4, v) == of(GateKind::Nor(2), seq![both, others])
                &&& of(GateKind::Oai4, v) == of(GateKind::Nand, seq![either, other])
            }
        }),
{
    assert(topology::any(v) <==> v.contains(true));
    lemma_any_of_one(true);
    lemma_any_of_one(false);
    lemma_any_of_one(topology::kind_value(GateKind::Xor, v));
    lemma_any_of_one(topology::kind_value(GateKind::Mux, v));
    lemma_any_of_one(v[1]);
    lemma_any_of_two(v[0], v[1]);
    lemma_any_of_two(v[0], !v[1]);
    lemma_any_of_two(v[2], v[3]);
    let both = v[0] && v[1];
    lemma_any_of_two(both, v[2]);
    lemma_any_of_two(both, v[2] && v[3]);
    if v.len() == 2 {
        assert(v.contains(true) <==> v[0] || v[1]);
        assert(v.contains(false) <==> !v[0] || !v[1]);
    }
}

/// How many inputs each kind of gate has: a NOR and an OR as many as they say, the others a
/// number of their own.
pub proof fn lemma_how_many_inputs_gates_have(kind: GateKind, arity: usize)
    ensures
        topology::kind_arity(GateKind::Nor(arity)) == arity,
        topology::kind_arity(GateKind::Or(arity)) == arity,
        kind is Buf ==> topology::kind_arity(kind) == 1,
        kind is And || kind is Nand || kind is Xor || kind is Xnor || kind is AndNot || kind
            is OrNot ==> topology::kind_arity(kind) == 2,
        kind is Aoi3 || kind is Oai3 || kind is Mux || kind is Nmux ==> topology::kind_arity(kind)
            == 3,
        kind is Aoi4 || kind is Oai4 ==> topology::kind_arity(kind) == 4,
{
}

/// Each kind of gate goes by a name of its own, and no other name is one. A merge is an OR.
pub proof fn lemma_names_of_gates(name: Seq<char>, arity: usize)
    ensures
        ({
            let kind = topology::kind_named(name, arity);
            &&& name == "nor"@ <==> kind == Some(GateKind::Nor(arity))
            &&& name == "merge"@ <==> kind == Some(GateKind::Or(arity))
            &&& name == "buf"@ <==> kind == Some(GateKind::Buf)
            &&& name == "and"@ <==> kind == Some(GateKind::And)
            &&& name == "nand"@ <==> kind == Some(GateKind::Nand)
            &&& name == "xor"@ <==> kind == Some(GateKind::Xor)
            &&& name == "xnor"@ <==> kind == Some(GateKind::Xnor)
            &&& name == "andnot"@ <==> kind == Some(GateKind::AndNot)
            &&& name == "ornot"@ <==> kind == Some(GateKind::OrNot)
            &&& name == "aoi3"@ <==> kind == Some(GateKind::Aoi3)
            &&& name == "oai3"@ <==> kind == Some(GateKind::Oai3)
            &&& name == "aoi4"@ <==> kind == Some(GateKind::Aoi4)
            &&& name == "oai4"@ <==> kind == Some(GateKind::Oai4)
            &&& name == "mux"@ <==> kind == Some(GateKind::Mux)
            &&& name == "nmux"@ <==> kind == Some(GateKind::Nmux)
            &&& kind is Some ==> topology::kind_name(kind->0) == name
        }),
{
    reveal_strlit("nor");
    reveal_strlit("merge");
    reveal_strlit("buf");
    reveal_strlit("and");
    reveal_strlit("nand");
    reveal_strlit("xor");
    reveal_strlit("xnor");
    reveal_strlit("andnot");
    reveal_strlit("ornot");
    reveal_strlit("aoi3");
    reveal_strlit("oai3");
    reveal_strlit("aoi4");
    reveal_strlit("oai4");
    reveal_strlit("mux");
    reveal_strlit("nmux");
    assert("nor"@.len() == 3 && "nor"@[0] == 'n');
    assert("merge"@.len() == 5 && "merge"@[0] == 'm');
    assert("buf"@.len() == 3 && "buf"@[0] == 'b');
    assert("and"@.len() == 3 && "and"@[0] == 'a');
    assert("nand"@.len() == 4 && "nand"@[0] == 'n' && "nand"@[1] == 'a');
    assert("xor"@.len() == 3 && "xor"@[0] == 'x');
    assert("xnor"@.len() == 4 && "xnor"@[0] == 'x');
    assert("andnot"@.len() == 6);
    assert("ornot"@.len() == 5 && "ornot"@[0] == 'o');
    assert("aoi3"@.len() == 4 && "aoi3"@[0] == 'a' && "aoi3"@[3] == '3');
    assert("oai3"@.len() == 4 && "oai3"@[0] == 'o' && "oai3"@[3] == '3');
    assert("aoi4"@.len() == 4 && "aoi4"@[0] == 'a' && "aoi4"@[3] == '4');
    assert("oai4"@.len() == 4 && "oai4"@[0] == 'o' && "oai4"@[3] == '4');
    assert("mux"@.len() == 3 && "mux"@[0] == 'm');
    assert("nmux"@.len() == 4 && "nmux"@[0] == 'n' && "nmux"@[1] == 'm');
}

/// What a table has under a name is the kind of the first entry of that name.
pub proof fn lemma_the_first_kind_under_a_name(
    table: Seq<(Seq<char>, GateKind)>,
    name: Seq<char>,
    from: int,
)
    requires
        0 <= from,
    ensures
        match topology::kind_under(table, name, from) {
            Some(kind) => exists|i: int|
                from <= i < table.len() && #[trigger] table[i] == (name, kind) && forall|j: int|
                    from <= j < i ==> (#[trigger] table[j]).0 != name,
            None => forall|i: int| from <= i < table.len() ==> (#[trigger] table[i]).0 != name,
        },
    decreases table.len() - from,
{
    if from < table.len() {
        if table[from].0 == name {
            assert(table[from] == (name, topology::kind_under(table, name, from)->0));
        } else {
            lemma_the_first_kind_under_a_name(table, name, from + 1);
            if let Some(kind) = topology::kind_under(table, name, from + 1) {
                let i = choose|i: int|
                    from + 1 <= i < table.len() && #[trigger] table[i] == (name, kind)
                        && forall|j: int|
                        from + 1 <= j < i ==> (#[trigger] table[j]).0 != name;
                assert(table[i] == (name, kind));
            }
        }
    }
}

proof fn lemma_cell_names()
    ensures
        "$_NOT_"@.len() == 6 && "$_NOT_"@[2] == 'N' && "$_NOT_"@[4] == 'T',
        "$_NOR_"@.len() == 6 && "$_NOR_"@[2] == 'N' && "$_NOR_"@[4] == 'R',
        "$_OR_"@.len() == 5,
        "$_BUF_"@.len() == 6 && "$_BUF_"@[2] == 'B',
        "$_AND_"@.len() == 6 && "$_AND_"@[2] == 'A',
        "$_NAND_"@.len() == 7 && "$_NAND_"@[2] == 'N' && "$_NAND_"@[3] == 'A',
        "$_XOR_"@.len() == 6 && "$_XOR_"@[2] == 'X',
        "$_XNOR_"@.len() == 7 && "$_XNOR_"@[2] == 'X',
        "$_ANDNOT_"@.len() == 9,
        "$_ORNOT_"@.len() == 8,
        "$_AOI3_"@.len() == 7 && "$_AOI3_"@[2] == 'A' && "$_AOI3_"@[5] == '3',
        "$_OAI3_"@.len() == 7 && "$_OAI3_"@[2] == 'O' && "$_OAI3_"@[5] == '3',
        "$_AOI4_"@.len() == 7 && "$_AOI4_"@[2] == 'A' && "$_AOI4_"@[5] == '4',
        "$_OAI4_"@.len() == 7 && "$_OAI4_"@[2] == 'O' && "$_OAI4_"@[5] == '4',
        "$_MUX_"@.len() == 6 && "$_MUX_"@[2] == 'M',
        "$_NMUX_"@.len() == 7 && "$_NMUX_"@[2] == 'N' && "$_NMUX_"@[3] == 'M',
{
    reveal_strlit("$_NOT_");
    reveal_strlit("$_NOR_");
    reveal_strlit("$_OR_");
    reveal_strlit("$_BUF_");
    reveal_strlit("$_AND_");
    reveal_strlit("$_NAND_");
    reveal_strlit("$_XOR_");
    reveal_strlit("$_XNOR_");
    reveal_strlit("$_ANDNOT_");
    reveal_strlit("$_ORNOT_");
    reveal_strlit("$_AOI3_");
    reveal_strlit("$_OAI3_");
    reveal_strlit("$_AOI4_");
    reveal_strlit("$_OAI4_");
    reveal_strlit("$_MUX_");
    reveal_strlit("$_NMUX_");
}

/// Each cell that synthesis emits is one gate, and no other name is a cell.
pub proof fn lemma_which_cell_is_which_gate(name: Seq<char>)
    ensures
        ({
            let kind = topology::kind_under(topology::yosys_cells(), name, 0);
            &&& name == "$_NOT_"@ <==> kind == Some(GateKind::Nor(1))
            &&& name == "$_NOR_"@ <==> kind == Some(GateKind::Nor(2))
            &&& name == "$_OR_"@ <==> kind == Some(GateKind::Or(2))
            &&& name == "$_BUF_"@ <==> kind == Some(GateKind::Buf)
            &&& name == "$_AND_"@ <==> kind == Some(GateKind::And)
            &&& name == "$_NAND_"@ <==> kind == Some(GateKind::Nand)
            &&& name == "$_XOR_"@ <==> kind == Some(GateKind::Xor)
            &&& name == "$_XNOR_"@ <==> kind == Some(GateKind::Xnor)
            &&& name == "$_ANDNOT_"@ <==> kind == Some(GateKind::AndNot)
            &&& name == "$_ORNOT_"@ <==> kind == Some(GateKind::OrNot)
            &&& name == "$_AOI3_"@ <==> kind == Some(GateKind::Aoi3)
            &&& name == "$_OAI3_"@ <==> kind == Some(GateKind::Oai3)
            &&& name == "$_AOI4_"@ <==> kind == Some(GateKind::Aoi4)
            &&& name == "$_OAI4_"@ <==> kind == Some(GateKind::Oai4)
            &&& name == "$_MUX_"@ <==> kind == Some(GateKind::Mux)
            &&& name == "$_NMUX_"@ <==> kind == Some(GateKind::Nmux)
            &&& kind matches Some(GateKind::Nor(arity)) ==> 1 <= arity <= 2
            &&& kind matches Some(GateKind::Or(arity)) ==> arity == 2
        }),
{
    lemma_cell_names();
    reveal_with_fuel(topology::kind_under, 17);
}

/// A torch takes up three cells for itself and three for each input, a merge three for each
/// wire.
pub proof fn lemma_how_much_ground_steps_take(arity: int)
    ensures
        1 <= arity <= 3 ==> expansion::torch_area(arity) == 3 * (arity + 1),
        2 <= arity <= 3 ==> expansion::merge_area(arity) == 3 * arity,
{
}

/// The ground of several steps is the sum of what each takes up.
pub proof fn lemma_ground_adds_up(steps: Seq<StepView>, count: nat)
    requires
        count <= steps.len(),
    ensures
        expansion::steps_area(steps, count) == steps.take(count as int).fold_left(
            0int,
            |sum: int, step: StepView|
                sum + match step {
                    StepView::Nor(operands) => expansion::torch_area(operands.len() as int) as int,
                    StepView::Merge(operands) => expansion::merge_area(
                        operands.len() as int,
                    ) as int,
                },
        ),
    decreases count,
{
    if count > 0 {
        lemma_ground_adds_up(steps, (count - 1) as nat);
        assert(steps.take(count as int).drop_last() =~= steps.take(count - 1));
    }
}

/// The deepest operand is as deep as any: none is deeper, and one is just as deep unless
/// there is no depth at all. An input has none.
pub proof fn lemma_the_deepest_operand(operands: Seq<Operand>, depths: Seq<nat>, count: nat)
    requires
        count <= operands.len(),
    ensures
        ({
            let most = expansion::deepest(operands, depths, count);
            let depth = |operand: Operand|
                match operand {
                    Operand::Input { pin, polarity } => 0,
                    Operand::Step(step) => depths[step as int],
                };
            &&& forall|i: int| 0 <= i < count ==> depth(#[trigger] operands[i]) <= most
            &&& most > 0 ==> exists|i: int|
                0 <= i < count && depth(#[trigger] operands[i]) == most
        }),
    decreases count,
{
    if count > 0 {
        lemma_the_deepest_operand(operands, depths, (count - 1) as nat);
        let before = expansion::deepest(operands, depths, (count - 1) as nat);
        let most = expansion::deepest(operands, depths, count);
        let depth = |operand: Operand|
            match operand {
                Operand::Input { pin, polarity } => 0,
                Operand::Step(step) => depths[step as int],
            };
        if most > 0 {
            if most == before {
                let i = choose|i: int|
                    0 <= i < count - 1 && depth(#[trigger] operands[i]) == before;
                assert(depth(operands[i]) == most);
            } else {
                assert(depth(operands[count - 1]) == most);
            }
        }
    }
}

/// A torch adds one to the depth of its deepest operand, a merge nothing, and later steps
/// change nothing of it.
pub proof fn lemma_depths_of_steps(steps: Seq<StepView>, count: nat, i: int)
    requires
        0 <= i < count <= steps.len(),
    ensures
        ({
            let depths = expansion::step_depths(steps, count);
            let before = expansion::step_depths(steps, i as nat);
            &&& depths.len() == count
            &&& before.len() == i
            &&& match steps[i] {
                StepView::Nor(operands) => depths[i] == expansion::deepest(
                    operands,
                    before,
                    operands.len(),
                ) + 1,
                StepView::Merge(operands) => depths[i] == expansion::deepest(
                    operands,
                    before,
                    operands.len(),
                ),
            }
            &&& forall|j: int| 0 <= j < i ==> #[trigger] depths[j] == before[j]
        }),
    decreases count,
{
    lemma_depths_length(steps, (count - 1) as nat);
    lemma_depths_length(steps, i as nat);
    if i < count - 1 {
        lemma_depths_of_steps(steps, (count - 1) as nat, i);
    }
}

proof fn lemma_depths_length(steps: Seq<StepView>, count: nat)
    ensures
        expansion::step_depths(steps, count).len() == count,
    decreases count,
{
    if count > 0 {
        lemma_depths_length(steps, (count - 1) as nat);
    }
}

/// What a gate costs is the ground of its steps, and two ticks for each torch on the way to
/// the last.
pub proof fn lemma_what_steps_cost(steps: Seq<StepView>)
    requires
        steps.len() > 0,
    ensures
        expansion::steps_cost(steps).0 == expansion::steps_area(steps, steps.len()),
        expansion::steps_cost(steps).1 == 2 * expansion::step_depths(
            steps,
            steps.len(),
        )[steps.len() - 1],
{
    lemma_depths_length(steps, steps.len());
}

/// A NOR is built of one torch that reads every input. A buffer is built of two, of which
/// the second reads the first. A bare merge is built of nothing, an isolated one of a
/// repeater for each input.
pub proof fn lemma_what_gates_are_built_of(arity: usize, i: int)
    requires
        0 <= i < arity,
    ensures
        ({
            let entry = topology::nor_view(arity);
            &&& entry.nodes.len() == 1
            &&& entry.nodes[0] == (TemplateNode::Torch, Primitive::Torch)
            &&& entry.inputs.len() == arity
            &&& entry.inputs[i] == entry.nodes[0].0
            &&& entry.output == Some(entry.nodes[0].0)
            &&& entry.internal_edges.len() == 0
        }),
        ({
            let entry = topology::buf_view();
            &&& entry.nodes.len() == 2
            &&& entry.nodes[0] == (TemplateNode::Torch, Primitive::Torch)
            &&& entry.nodes[1] == (TemplateNode::SecondTorch, Primitive::Torch)
            &&& entry.inputs.len() == 1
            &&& entry.inputs[0] == entry.nodes[0].0
            &&& entry.output == Some(entry.nodes[1].0)
            &&& entry.internal_edges.len() == 1
            &&& entry.internal_edges[0] == (entry.nodes[0].0, entry.nodes[1].0)
        }),
        ({
            let entry = topology::or_bare_view(arity);
            &&& entry.nodes.len() == 0
            &&& entry.inputs.len() == 0
            &&& entry.output is None
        }),
        ({
            let entry = topology::or_isolated_view(arity);
            &&& entry.nodes.len() == arity
            &&& entry.inputs.len() == arity
            &&& entry.nodes[i] == (
                TemplateNode::IsolatingRepeater(i as usize),
                Primitive::Repeater,
            )
            &&& entry.inputs[i] == entry.nodes[i].0
            &&& entry.output is None
            &&& entry.internal_edges.len() == 0
        }),
{
}

/// The default library has one entry for each NOR of up to three inputs and for the buffer,
/// a bare and an isolated merge of two and of three, and nothing else.
pub proof fn lemma_what_the_default_library_holds(kind: GateKind)
    ensures
        topology::default_entries().dom().contains(kind) <==> match kind {
            GateKind::Nor(arity) => 1 <= arity <= 3,
            GateKind::Or(arity) => 2 <= arity <= 3,
            GateKind::Buf => true,
            _ => false,
        },
        topology::default_entries().dom().contains(kind) ==> match kind {
            GateKind::Nor(arity) => topology::default_entries()[kind] == seq![
                topology::nor_view(arity),
            ],
            GateKind::Or(arity) => topology::default_entries()[kind] == seq![
                topology::or_bare_view(arity),
                topology::or_isolated_view(arity),
            ],
            _ => topology::default_entries()[kind] == seq![topology::buf_view()],
        },
{
}

} // verus!
