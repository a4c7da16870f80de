//! How each kind of gate is spelled out in torches and merges, and what that
//! costs in ground and in delay.
//!
//! Every signal is available in both polarities, so a step may read an input
//! or its complement. Either polarity of a gate's output can be built; which
//! one is cheaper depends on the kind of gate.

use crate::compile::topology;
use crate::compile::topology::{GateKind, LibraryEntry, Primitive, Template, TemplateNode};
use vstd::prelude::*;

verus! {

/// How long a torch takes to follow its input.
pub const TORCH_DELAY_GAME_TICKS: u64 = 2;

#[derive(Debug, Clone, Copy, PartialEq, Eq, PartialOrd, Ord, Hash, Structural)]
pub enum SignalPolarity {
    Positive,
    Negative,
}

/// What a step reads: one of its gate's inputs, in either polarity, or the output
/// of an earlier step.
#[derive(Debug, Clone, Copy, PartialEq, Eq, Structural)]
pub enum Operand {
    Input { pin: usize, polarity: SignalPolarity },
    Step(usize),
}

#[derive(Debug, PartialEq, Eq)]
pub enum Step {
    Nor(Vec<Operand>),
    Merge(Vec<Operand>),
}

/// A gate as steps, the last of which is its output.
#[derive(Debug, PartialEq, Eq)]
pub struct Expansion {
    pub steps: Vec<Step>,
}

/// What a [`Step`] stands for.
#[verifier::ext_equal]
pub enum StepView {
    Nor(Seq<Operand>),
    Merge(Seq<Operand>),
}

impl View for Step {
    type V = StepView;

    open spec fn view(&self) -> StepView {
        match *self {
            Step::Nor(operands) => StepView::Nor(operands@),
            Step::Merge(operands) => StepView::Merge(operands@),
        }
    }
}

impl View for Expansion {
    type V = Seq<StepView>;

    open spec fn view(&self) -> Seq<StepView> {
        Seq::new(self.steps@.len(), |i: int| self.steps@[i]@)
    }
}

pub open spec fn operands_of(step: StepView) -> Seq<Operand> {
    match step {
        StepView::Nor(operands) => operands,
        StepView::Merge(operands) => operands,
    }
}

/// What an operand carries.
pub open spec fn read(operand: Operand, inputs: Seq<bool>, values: Seq<bool>) -> bool {
    match operand {
        Operand::Input { pin, polarity: SignalPolarity::Positive } => inputs[pin as int],
        Operand::Input { pin, polarity: SignalPolarity::Negative } => !inputs[pin as int],
        Operand::Step(step) => values[step as int],
    }
}

/// Some operand carries a signal.
pub open spec fn fires(operands: Seq<Operand>, inputs: Seq<bool>, values: Seq<bool>) -> bool {
    exists|i: int| 0 <= i < operands.len() && read(#[trigger] operands[i], inputs, values)
}

pub open spec fn step_value(step: StepView, inputs: Seq<bool>, values: Seq<bool>) -> bool {
    match step {
        StepView::Nor(operands) => !fires(operands, inputs, values),
        StepView::Merge(operands) => fires(operands, inputs, values),
    }
}

/// What the first `count` steps carry.
pub open spec fn step_values(steps: Seq<StepView>, inputs: Seq<bool>, count: nat) -> Seq<bool>
    decreases count,
{
    if count == 0 {
        seq![]
    } else {
        let before = step_values(steps, inputs, (count - 1) as nat);
        before.push(step_value(steps[count - 1], inputs, before))
    }
}

/// What the steps compute.
pub open spec fn computes(steps: Seq<StepView>, inputs: Seq<bool>) -> bool {
    step_values(steps, inputs, steps.len()).last()
}

/// The step reads only inputs that its gate has and steps that precede it.
pub open spec fn operands_ok(operands: Seq<Operand>, arity: nat, index: int) -> bool {
    forall|i: int|
        0 <= i < operands.len() ==> match #[trigger] operands[i] {
            Operand::Input { pin, polarity } => pin < arity,
            Operand::Step(step) => step < index,
        }
}

/// A torch takes one to three inputs and a merge two or three.
pub open spec fn width_ok(step: StepView) -> bool {
    match step {
        StepView::Nor(operands) => 1 <= operands.len() <= 3,
        StepView::Merge(operands) => 2 <= operands.len() <= 3,
    }
}

pub open spec fn step_ok(step: StepView, arity: nat, index: int) -> bool {
    width_ok(step) && operands_ok(operands_of(step), arity, index)
}

/// The steps can be built, for a gate of this many inputs.
pub open spec fn well_formed(steps: Seq<StepView>, arity: nat) -> bool {
    &&& steps.len() > 0
    &&& forall|i: int| 0 <= i < steps.len() ==> step_ok(#[trigger] steps[i], arity, i)
}

pub open spec fn positive(pin: int) -> Operand {
    Operand::Input { pin: pin as usize, polarity: SignalPolarity::Positive }
}

pub open spec fn negative(pin: int) -> Operand {
    Operand::Input { pin: pin as usize, polarity: SignalPolarity::Negative }
}

pub open spec fn earlier(step: int) -> Operand {
    Operand::Step(step as usize)
}

pub open spec fn all_positive(arity: usize) -> Seq<Operand> {
    Seq::new(arity as nat, |i: int| positive(i))
}

pub open spec fn nor_of(a: Operand, b: Operand) -> StepView {
    StepView::Nor(seq![a, b])
}

pub open spec fn merge_of(a: Operand, b: Operand) -> StepView {
    StepView::Merge(seq![a, b])
}

/// The steps that carry a gate's value.
pub open spec fn positive_steps(kind: GateKind) -> Seq<StepView> {
    match kind {
        GateKind::Nor(arity) => seq![StepView::Nor(all_positive(arity))],
        GateKind::Or(arity) => seq![StepView::Merge(all_positive(arity))],
        GateKind::Buf => seq![StepView::Nor(seq![negative(0)])],
        GateKind::And => seq![nor_of(negative(0), negative(1))],
        GateKind::Nand => seq![merge_of(negative(0), negative(1))],
        GateKind::AndNot => seq![nor_of(negative(0), positive(1))],
        GateKind::OrNot => seq![merge_of(positive(0), negative(1))],
        GateKind::Xor => seq![
            nor_of(negative(0), positive(1)),
            nor_of(negative(1), positive(0)),
            merge_of(earlier(0), earlier(1)),
        ],
        GateKind::Xnor => seq![
            nor_of(negative(0), positive(1)),
            nor_of(negative(1), positive(0)),
            nor_of(earlier(0), earlier(1)),
        ],
        GateKind::Aoi3 => seq![
            nor_of(negative(0), negative(1)),
            nor_of(earlier(0), positive(2)),
        ],
        GateKind::Oai3 => seq![
            nor_of(positive(0), positive(1)),
            merge_of(earlier(0), negative(2)),
        ],
        GateKind::Aoi4 => seq![
            nor_of(negative(0), negative(1)),
            nor_of(negative(2), negative(3)),
            nor_of(earlier(0), earlier(1)),
        ],
        GateKind::Oai4 => seq![
            nor_of(positive(0), positive(1)),
            nor_of(positive(2), positive(3)),
            merge_of(earlier(0), earlier(1)),
        ],
        GateKind::Mux => seq![
            nor_of(negative(1), negative(2)),
            nor_of(negative(0), positive(2)),
            merge_of(earlier(0), earlier(1)),
        ],
        GateKind::Nmux => seq![
            nor_of(negative(1), negative(2)),
            nor_of(negative(0), positive(2)),
            nor_of(earlier(0), earlier(1)),
        ],
    }
}

/// The steps that carry the complement of a gate's value.
pub open spec fn negative_steps(kind: GateKind) -> Seq<StepView> {
    match kind {
        GateKind::Nor(arity) => if arity == 1 {
            seq![StepView::Nor(seq![negative(0)])]
        } else {
            seq![StepView::Merge(all_positive(arity))]
        },
        GateKind::Or(arity) => seq![StepView::Nor(all_positive(arity))],
        GateKind::Buf => seq![StepView::Nor(seq![positive(0)])],
        GateKind::And => seq![merge_of(negative(0), negative(1))],
        GateKind::Nand => seq![nor_of(negative(0), negative(1))],
        GateKind::AndNot => seq![merge_of(negative(0), positive(1))],
        GateKind::OrNot => seq![nor_of(positive(0), negative(1))],
        GateKind::Xor => seq![
            nor_of(negative(0), positive(1)),
            nor_of(negative(1), positive(0)),
            nor_of(earlier(0), earlier(1)),
        ],
        GateKind::Xnor => seq![
            nor_of(negative(0), positive(1)),
            nor_of(negative(1), positive(0)),
            merge_of(earlier(0), earlier(1)),
        ],
        GateKind::Aoi3 => seq![
            nor_of(negative(0), negative(1)),
            merge_of(earlier(0), positive(2)),
        ],
        GateKind::Oai3 => seq![
            nor_of(positive(0), positive(1)),
            nor_of(earlier(0), negative(2)),
        ],
        GateKind::Aoi4 => seq![
            nor_of(negative(0), negative(1)),
            nor_of(negative(2), negative(3)),
            merge_of(earlier(0), earlier(1)),
        ],
        GateKind::Oai4 => seq![
            nor_of(positive(0), positive(1)),
            nor_of(positive(2), positive(3)),
            nor_of(earlier(0), earlier(1)),
        ],
        GateKind::Mux => seq![
            nor_of(negative(1), negative(2)),
            nor_of(negative(0), positive(2)),
            nor_of(earlier(0), earlier(1)),
        ],
        GateKind::Nmux => seq![
            nor_of(negative(1), negative(2)),
            nor_of(negative(0), positive(2)),
            merge_of(earlier(0), earlier(1)),
        ],
    }
}

pub open spec fn steps_for(kind: GateKind, polarity: SignalPolarity) -> Seq<StepView> {
    match polarity {
        SignalPolarity::Positive => positive_steps(kind),
        SignalPolarity::Negative => negative_steps(kind),
    }
}

/// There is hardware of this width: a NOR of up to three inputs, an OR of two
/// or three.
pub open spec fn legal(kind: GateKind) -> bool {
    match kind {
        GateKind::Nor(arity) => 1 <= arity <= 3,
        GateKind::Or(arity) => 2 <= arity <= 3,
        _ => true,
    }
}

proof fn lemma_fires_on_few(a: Operand, b: Operand, inputs: Seq<bool>, values: Seq<bool>)
    ensures
        fires(seq![a], inputs, values) == read(a, inputs, values),
        fires(seq![a, b], inputs, values) == (read(a, inputs, values) || read(b, inputs, values)),
{
    assert(seq![a][0] == a);
    assert(seq![a, b][0] == a);
    assert(seq![a, b][1] == b);
}

proof fn lemma_fires_on_all(inputs: Seq<bool>, arity: usize)
    requires
        inputs.len() == arity,
    ensures
        fires(all_positive(arity), inputs, seq![]) == topology::any(inputs),
{
    let operands = all_positive(arity);
    if topology::any(inputs) {
        let i = choose|i: int| 0 <= i < inputs.len() && #[trigger] inputs[i];
        assert(read(operands[i], inputs, seq![]));
    }
    if fires(operands, inputs, seq![]) {
        let i = choose|i: int|
            0 <= i < operands.len() && read(#[trigger] operands[i], inputs, seq![]);
        assert(inputs[i]);
    }
}

proof fn lemma_one_step(step: StepView, inputs: Seq<bool>)
    ensures
        computes(seq![step], inputs) == step_value(step, inputs, seq![]),
{
    reveal_with_fuel(step_values, 2);
}

/// Whether neither operand carries a signal; both read inputs.
spec fn quiet(a: Operand, b: Operand, inputs: Seq<bool>) -> bool {
    !(read(a, inputs, seq![]) || read(b, inputs, seq![]))
}

/// A torch over two inputs, then a torch or a merge over it and a third.
proof fn lemma_two_steps(a: Operand, b: Operand, c: Operand, inputs: Seq<bool>)
    requires
        c is Input,
    ensures
        computes(seq![nor_of(a, b), nor_of(earlier(0), c)], inputs) == !(quiet(a, b, inputs)
            || read(c, inputs, seq![])),
        computes(seq![nor_of(a, b), merge_of(earlier(0), c)], inputs) == (quiet(a, b, inputs)
            || read(c, inputs, seq![])),
{
    reveal_with_fuel(step_values, 3);
    lemma_fires_on_few(a, b, inputs, seq![]);
    let first = seq![quiet(a, b, inputs)];
    lemma_fires_on_few(earlier(0), c, inputs, first);
    let torch = seq![nor_of(a, b), nor_of(earlier(0), c)];
    let merge = seq![nor_of(a, b), merge_of(earlier(0), c)];
    assert(step_values(torch, inputs, 1) =~= first);
    assert(step_values(merge, inputs, 1) =~= first);
}

/// Two torches over two inputs each, then a torch or a merge over both.
proof fn lemma_three_steps(a: Operand, b: Operand, c: Operand, d: Operand, inputs: Seq<bool>)
    requires
        c is Input,
        d is Input,
    ensures
        computes(
            seq![nor_of(a, b), nor_of(c, d), nor_of(earlier(0), earlier(1))],
            inputs,
        ) == !(quiet(a, b, inputs) || quiet(c, d, inputs)),
        computes(
            seq![nor_of(a, b), nor_of(c, d), merge_of(earlier(0), earlier(1))],
            inputs,
        ) == (quiet(a, b, inputs) || quiet(c, d, inputs)),
{
    reveal_with_fuel(step_values, 4);
    lemma_fires_on_few(a, b, inputs, seq![]);
    let first = seq![quiet(a, b, inputs)];
    lemma_fires_on_few(c, d, inputs, first);
    let second = seq![quiet(a, b, inputs), quiet(c, d, inputs)];
    lemma_fires_on_few(earlier(0), earlier(1), inputs, second);
    let torch = seq![nor_of(a, b), nor_of(c, d), nor_of(earlier(0), earlier(1))];
    let merge = seq![nor_of(a, b), nor_of(c, d), merge_of(earlier(0), earlier(1))];
    assert(step_values(torch, inputs, 1) =~= first);
    assert(step_values(merge, inputs, 1) =~= first);
    assert(step_values(torch, inputs, 2) =~= second);
    assert(step_values(merge, inputs, 2) =~= second);
}

/// A gate's positive steps compute that gate and its negative steps compute the
/// complement, whatever the inputs.
pub proof fn lemma_steps_compute_their_gate(
    kind: GateKind,
    polarity: SignalPolarity,
    inputs: Seq<bool>,
)
    requires
        inputs.len() == topology::kind_arity(kind),
    ensures
        computes(steps_for(kind, polarity), inputs) == (topology::kind_value(kind, inputs) == (
        polarity is Positive)),
{
    let steps = steps_for(kind, polarity);
    lemma_one_step(steps[0], inputs);
    match kind {
        GateKind::Nor(arity) => {
            lemma_fires_on_all(inputs, arity);
            lemma_fires_on_few(negative(0), negative(0), inputs, seq![]);
            if arity == 1 {
                assert(topology::any(inputs) == inputs[0]);
            }
        },
        GateKind::Or(arity) => {
            lemma_fires_on_all(inputs, arity);
        },
        GateKind::Buf => {
            lemma_fires_on_few(negative(0), negative(0), inputs, seq![]);
            lemma_fires_on_few(positive(0), positive(0), inputs, seq![]);
        },
        GateKind::And | GateKind::Nand => {
            lemma_fires_on_few(negative(0), negative(1), inputs, seq![]);
        },
        GateKind::AndNot => {
            lemma_fires_on_few(negative(0), positive(1), inputs, seq![]);
        },
        GateKind::OrNot => {
            lemma_fires_on_few(positive(0), negative(1), inputs, seq![]);
        },
        GateKind::Xor | GateKind::Xnor => {
            lemma_three_steps(negative(0), positive(1), negative(1), positive(0), inputs);
        },
        GateKind::Aoi3 => {
            lemma_two_steps(negative(0), negative(1), positive(2), inputs);
        },
        GateKind::Oai3 => {
            lemma_two_steps(positive(0), positive(1), negative(2), inputs);
        },
        GateKind::Aoi4 => {
            lemma_three_steps(negative(0), negative(1), negative(2), negative(3), inputs);
        },
        GateKind::Oai4 => {
            lemma_three_steps(positive(0), positive(1), positive(2), positive(3), inputs);
        },
        GateKind::Mux | GateKind::Nmux => {
            lemma_three_steps(negative(1), negative(2), negative(0), positive(2), inputs);
        },
    }
}

/// Every gate that there is hardware for can be built, in either polarity.
pub proof fn lemma_steps_are_well_formed(kind: GateKind, polarity: SignalPolarity)
    requires
        legal(kind),
    ensures
        well_formed(steps_for(kind, polarity), topology::kind_arity(kind)),
{
}

impl Expansion {
    /// The step that gives the output.
    pub fn output_step(&self) -> (index: usize)
        requires
            self.steps@.len() > 0,
        ensures
            index == self.steps@.len() - 1,
    {
        self.steps.len() - 1
    }

    fn operands(step: &Step) -> (operands: &[Operand])
        ensures
            operands@ == operands_of(step@),
    {
        match step {
            Step::Nor(operands) => operands.as_slice(),
            Step::Merge(operands) => operands.as_slice(),
        }
    }

    /// Whether the steps can be built for a gate of this kind: every torch and
    /// merge of a width that there is, every operand an input of this gate or an
    /// earlier step.
    pub fn validate(&self, kind: GateKind) -> (ok: bool)
        ensures
            ok == well_formed(self@, topology::kind_arity(kind)),
    {
        if self.steps.len() == 0 {
            return false;
        }
        let arity: usize = kind.arity();
        let mut index: usize = 0;
        while index < self.steps.len()
            invariant
                index <= self.steps@.len() == self@.len(),
                arity == topology::kind_arity(kind),
                forall|i: int| 0 <= i < index ==> step_ok(#[trigger] self@[i], arity as nat, i),
            decreases self.steps@.len() - index,
        {
            let step: &Step = &self.steps[index];
            let operands: &[Operand] = Self::operands(step);
            let wide: bool = match step {
                Step::Nor(_) => operands.len() >= 1 && operands.len() <= 3,
                Step::Merge(_) => operands.len() >= 2 && operands.len() <= 3,
            };
            assert(self@[index as int] == step@);
            if !wide {
                assert(!step_ok(self@[index as int], arity as nat, index as int));
                return false;
            }
            let mut at: usize = 0;
            while at < operands.len()
                invariant
                    at <= operands@.len(),
                    index < self.steps@.len() == self@.len(),
                    operands@ == operands_of(self@[index as int]),
                    arity == topology::kind_arity(kind),
                    forall|i: int|
                        0 <= i < at ==> match #[trigger] operands@[i] {
                            Operand::Input { pin, polarity } => pin < arity,
                            Operand::Step(step) => step < index,
                        },
                decreases operands@.len() - at,
            {
                let fine: bool = match operands[at] {
                    Operand::Input { pin, .. } => pin < arity,
                    Operand::Step(earlier) => earlier < index,
                };
                if !fine {
                    assert(!operands_ok(operands@, arity as nat, index as int)) by {
                        let bad = operands@[at as int];
                    }
                    assert(!step_ok(self@[index as int], arity as nat, index as int));
                    return false;
                }
                at = at + 1;
            }
            index = index + 1;
        }
        true
    }

    /// What the steps compute.
    pub fn evaluate(&self, inputs: &[bool]) -> (value: bool)
        requires
            self@.len() > 0,
            forall|i: int|
                0 <= i < self@.len() ==> operands_ok(
                    operands_of(#[trigger] self@[i]),
                    inputs@.len(),
                    i,
                ),
        ensures
            value == computes(self@, inputs@),
    {
        let mut values: Vec<bool> = Vec::new();
        let mut index: usize = 0;
        while index < self.steps.len()
            invariant
                index <= self.steps@.len() == self@.len(),
                values@ == step_values(self@, inputs@, index as nat),
                values@.len() == index,
                forall|i: int|
                    0 <= i < self@.len() ==> operands_ok(
                        operands_of(#[trigger] self@[i]),
                        inputs@.len(),
                        i,
                    ),
            decreases self.steps@.len() - index,
        {
            let step: &Step = &self.steps[index];
            assert(self@[index as int] == step@);
            let live: bool = any_fires(Self::operands(step), inputs, &values);
            let value: bool = match step {
                Step::Nor(_) => !live,
                Step::Merge(_) => live,
            };
            values.push(value);
            index = index + 1;
        }
        values[index - 1]
    }
}

fn any_fires(operands: &[Operand], inputs: &[bool], values: &Vec<bool>) -> (live: bool)
    requires
        operands_ok(operands@, inputs@.len(), values@.len() as int),
    ensures
        live == fires(operands@, inputs@, values@),
{
    let mut at: usize = 0;
    while at < operands.len()
        invariant
            at <= operands@.len(),
            operands_ok(operands@, inputs@.len(), values@.len() as int),
            forall|i: int| 0 <= i < at ==> !read(#[trigger] operands@[i], inputs@, values@),
        decreases operands@.len() - at,
    {
        let carried: bool = match operands[at] {
            Operand::Input { pin, polarity } => match polarity {
                SignalPolarity::Positive => inputs[pin],
                SignalPolarity::Negative => !inputs[pin],
            },
            Operand::Step(step) => values[step],
        };
        if carried {
            assert(read(operands@[at as int], inputs@, values@));
            return true;
        }
        at = at + 1;
    }
    false
}

fn input(pin: usize) -> (operand: Operand)
    ensures
        operand == positive(pin as int),
{
    Operand::Input { pin, polarity: SignalPolarity::Positive }
}

fn complement(pin: usize) -> (operand: Operand)
    ensures
        operand == negative(pin as int),
{
    Operand::Input { pin, polarity: SignalPolarity::Negative }
}

fn every_input(arity: usize) -> (operands: Vec<Operand>)
    ensures
        operands@ == all_positive(arity),
{
    let mut operands: Vec<Operand> = Vec::new();
    let mut pin: usize = 0;
    while pin < arity
        invariant
            pin <= arity,
            operands@ == all_positive(pin),
        decreases arity - pin,
    {
        operands.push(input(pin));
        pin = pin + 1;
        assert(operands@ =~= all_positive(pin));
    }
    operands
}

fn nor(a: Operand, b: Operand) -> (step: Step)
    ensures
        step@ == nor_of(a, b),
{
    let step = Step::Nor(vec![a, b]);
    assert(operands_of(step@) =~= seq![a, b]);
    step
}

fn merge(a: Operand, b: Operand) -> (step: Step)
    ensures
        step@ == merge_of(a, b),
{
    let step = Step::Merge(vec![a, b]);
    assert(operands_of(step@) =~= seq![a, b]);
    step
}

fn one(step: Step) -> (expansion: Expansion)
    ensures
        expansion@ == seq![step@],
{
    Expansion { steps: vec![step] }
}

fn two(first: Step, second: Step) -> (expansion: Expansion)
    ensures
        expansion@ == seq![first@, second@],
{
    Expansion { steps: vec![first, second] }
}

fn three(first: Step, second: Step, third: Step) -> (expansion: Expansion)
    ensures
        expansion@ == seq![first@, second@, third@],
{
    Expansion { steps: vec![first, second, third] }
}

/// A torch on one input.
fn torch_on(operand: Operand) -> (expansion: Expansion)
    ensures
        expansion@ == seq![StepView::Nor(seq![operand])],
{
    let step = Step::Nor(vec![operand]);
    assert(operands_of(step@) =~= seq![operand]);
    one(step)
}

pub fn expansion_for(kind: GateKind) -> (expansion: Expansion)
    ensures
        expansion@ == positive_steps(kind),
{
    expansion_for_polarity(kind, SignalPolarity::Positive)
}

pub fn expansion_for_polarity(kind: GateKind, polarity: SignalPolarity) -> (expansion: Expansion)
    ensures
        expansion@ == steps_for(kind, polarity),
{
    match polarity {
        SignalPolarity::Positive => positive_expansion_for(kind),
        SignalPolarity::Negative => negative_expansion_for(kind),
    }
}

fn positive_expansion_for(kind: GateKind) -> (expansion: Expansion)
    ensures
        expansion@ == positive_steps(kind),
{
    let first = Operand::Step(0);
    let second = Operand::Step(1);
    match kind {
        GateKind::Nor(arity) => one(Step::Nor(every_input(arity))),
        GateKind::Or(arity) => one(Step::Merge(every_input(arity))),
        GateKind::Buf => torch_on(complement(0)),
        GateKind::And => one(nor(complement(0), complement(1))),
        GateKind::Nand => one(merge(complement(0), complement(1))),
        GateKind::AndNot => one(nor(complement(0), input(1))),
        GateKind::OrNot => one(merge(input(0), complement(1))),
        GateKind::Xor => three(
            nor(complement(0), input(1)),
            nor(complement(1), input(0)),
            merge(first, second),
        ),
        GateKind::Xnor => three(
            nor(complement(0), input(1)),
            nor(complement(1), input(0)),
            nor(first, second),
        ),
        GateKind::Aoi3 => two(nor(complement(0), complement(1)), nor(first, input(2))),
        GateKind::Oai3 => two(nor(input(0), input(1)), merge(first, complement(2))),
        GateKind::Aoi4 => three(
            nor(complement(0), complement(1)),
            nor(complement(2), complement(3)),
            nor(first, second),
        ),
        GateKind::Oai4 => three(
            nor(input(0), input(1)),
            nor(input(2), input(3)),
            merge(first, second),
        ),
        GateKind::Mux => three(
            nor(complement(1), complement(2)),
            nor(complement(0), input(2)),
            merge(first, second),
        ),
        GateKind::Nmux => three(
            nor(complement(1), complement(2)),
            nor(complement(0), input(2)),
            nor(first, second),
        ),
    }
}

fn negative_expansion_for(kind: GateKind) -> (expansion: Expansion)
    ensures
        expansion@ == negative_steps(kind),
{
    let first = Operand::Step(0);
    let second = Operand::Step(1);
    match kind {
        GateKind::Nor(1) => torch_on(complement(0)),
        GateKind::Nor(arity) => one(Step::Merge(every_input(arity))),
        GateKind::Or(arity) => one(Step::Nor(every_input(arity))),
        GateKind::Buf => torch_on(input(0)),
        GateKind::And => one(merge(complement(0), complement(1))),
        GateKind::Nand => one(nor(complement(0), complement(1))),
        GateKind::AndNot => one(merge(complement(0), input(1))),
        GateKind::OrNot => one(nor(input(0), complement(1))),
        GateKind::Xor => three(
            nor(complement(0), input(1)),
            nor(complement(1), input(0)),
            nor(first, second),
        ),
        GateKind::Xnor => three(
            nor(complement(0), input(1)),
            nor(complement(1), input(0)),
            merge(first, second),
        ),
        GateKind::Aoi3 => two(nor(complement(0), complement(1)), merge(first, input(2))),
        GateKind::Oai3 => two(nor(input(0), input(1)), nor(first, complement(2))),
        GateKind::Aoi4 => three(
            nor(complement(0), complement(1)),
            nor(complement(2), complement(3)),
            merge(first, second),
        ),
        GateKind::Oai4 => three(
            nor(input(0), input(1)),
            nor(input(2), input(3)),
            nor(first, second),
        ),
        GateKind::Mux => three(
            nor(complement(1), complement(2)),
            nor(complement(0), input(2)),
            nor(first, second),
        ),
        GateKind::Nmux => three(
            nor(complement(1), complement(2)),
            nor(complement(0), input(2)),
            merge(first, second),
        ),
    }
}

/// The ground a torch stands on, by how many inputs it reads.
pub open spec fn torch_area(arity: int) -> nat {
    if arity == 1 {
        6
    } else if arity == 2 {
        9
    } else {
        12
    }
}

/// The ground a merge stands on, by how many wires meet.
pub open spec fn merge_area(arity: int) -> nat {
    if arity == 2 {
        6
    } else {
        9
    }
}

pub open spec fn step_area(step: StepView) -> nat {
    match step {
        StepView::Nor(operands) => torch_area(operands.len() as int),
        StepView::Merge(operands) => merge_area(operands.len() as int),
    }
}

/// The ground that the first `count` steps stand on.
pub open spec fn steps_area(steps: Seq<StepView>, count: nat) -> nat
    decreases count,
{
    if count == 0 {
        0
    } else {
        steps_area(steps, (count - 1) as nat) + step_area(steps[count - 1])
    }
}

/// How many torches a signal passes on its way to an operand.
pub open spec fn operand_depth(operand: Operand, depths: Seq<nat>) -> nat {
    match operand {
        Operand::Input { pin, polarity } => 0,
        Operand::Step(step) => depths[step as int],
    }
}

/// The most torches on the way to one of the first `count` operands.
pub open spec fn deepest(operands: Seq<Operand>, depths: Seq<nat>, count: nat) -> nat
    decreases count,
{
    if count == 0 {
        0
    } else {
        let before = deepest(operands, depths, (count - 1) as nat);
        let next = operand_depth(operands[count - 1], depths);
        if next > before {
            next
        } else {
            before
        }
    }
}

/// How many torches a signal passes on its way out of each of the first `count`
/// steps: a torch adds itself, a merge adds nothing.
pub open spec fn step_depths(steps: Seq<StepView>, count: nat) -> Seq<nat>
    decreases count,
{
    if count == 0 {
        seq![]
    } else {
        let before = step_depths(steps, (count - 1) as nat);
        let operands = operands_of(steps[count - 1]);
        let upstream = deepest(operands, before, operands.len());
        before.push(
            if steps[count - 1] is Nor {
                upstream + 1
            } else {
                upstream
            },
        )
    }
}

/// What it costs to build a gate.
#[derive(Debug, Clone, Copy, PartialEq, Eq, Structural)]
pub struct RealisationCost {
    pub area: u32,
    pub delay_game_ticks: u64,
}

pub open spec fn steps_cost(steps: Seq<StepView>) -> (nat, nat) {
    (
        steps_area(steps, steps.len()),
        TORCH_DELAY_GAME_TICKS as nat * step_depths(steps, steps.len()).last(),
    )
}

pub fn nor_footprint_area(arity: usize) -> (area: u32)
    requires
        1 <= arity <= 3,
    ensures
        area == torch_area(arity as int),
{
    match arity {
        1 => 6,
        2 => 9,
        _ => 12,
    }
}

pub fn merge_footprint_area(arity: usize) -> (area: u32)
    requires
        2 <= arity <= 3,
    ensures
        area == merge_area(arity as int),
{
    match arity {
        2 => 6,
        _ => 9,
    }
}

fn upstream_of(operands: &[Operand], depths: &Vec<u32>, Ghost(model): Ghost<Seq<nat>>) -> (most: u32)
    requires
        operands_ok(operands@, usize::MAX as nat + 1, depths@.len() as int),
        model.len() == depths@.len(),
        forall|i: int| 0 <= i < model.len() ==> #[trigger] depths@[i] == model[i],
        forall|i: int| 0 <= i < model.len() ==> #[trigger] model[i] <= model.len(),
    ensures
        most == deepest(operands@, model, operands@.len()),
        most <= model.len(),
{
    let mut most: u32 = 0;
    let mut at: usize = 0;
    while at < operands.len()
        invariant
            at <= operands@.len(),
            operands_ok(operands@, usize::MAX as nat + 1, depths@.len() as int),
            model.len() == depths@.len(),
            forall|i: int| 0 <= i < model.len() ==> #[trigger] depths@[i] == model[i],
            forall|i: int| 0 <= i < model.len() ==> #[trigger] model[i] <= model.len(),
            most == deepest(operands@, model, at as nat),
            most <= model.len(),
        decreases operands@.len() - at,
    {
        let depth: u32 = match operands[at] {
            Operand::Input { .. } => 0,
            Operand::Step(step) => depths[step],
        };
        assert(depth == operand_depth(operands@[at as int], model));
        if depth > most {
            most = depth;
        }
        at = at + 1;
    }
    most
}

pub fn expansion_cost(kind: GateKind) -> (cost: RealisationCost)
    requires
        well_formed(positive_steps(kind), topology::kind_arity(kind)),
    ensures
        (cost.area as nat, cost.delay_game_ticks as nat) == steps_cost(positive_steps(kind)),
{
    expansion_cost_for_polarity(kind, SignalPolarity::Positive)
}

pub fn expansion_cost_for_polarity(kind: GateKind, polarity: SignalPolarity) -> (cost:
    RealisationCost)
    requires
        well_formed(steps_for(kind, polarity), topology::kind_arity(kind)),
    ensures
        (cost.area as nat, cost.delay_game_ticks as nat) == steps_cost(steps_for(kind, polarity)),
{
    let expansion: Expansion = expansion_for_polarity(kind, polarity);
    let ghost steps = steps_for(kind, polarity);
    let mut area: u32 = 0;
    let mut depths: Vec<u32> = Vec::new();
    let mut index: usize = 0;
    while index < expansion.steps.len()
        invariant
            index <= expansion.steps@.len() == steps.len() <= 3,
            expansion@ == steps,
            well_formed(steps, topology::kind_arity(kind)),
            area == steps_area(steps, index as nat),
            area <= 12 * index,
            depths@.len() == index,
            step_depths(steps, index as nat).len() == index,
            forall|i: int|
                0 <= i < index ==> #[trigger] depths@[i] == step_depths(steps, index as nat)[i],
            forall|i: int|
                0 <= i < index ==> #[trigger] step_depths(steps, index as nat)[i] <= index,
        decreases expansion.steps@.len() - index,
    {
        let ghost model = step_depths(steps, index as nat);
        let step: &Step = &expansion.steps[index];
        assert(steps[index as int] == step@);
        assert(step_ok(steps[index as int], topology::kind_arity(kind), index as int));
        let operands: &[Operand] = Expansion::operands(step);
        let upstream: u32 = upstream_of(operands, &depths, Ghost(model));
        let ghost next = step_depths(steps, index as nat + 1);
        match step {
            Step::Nor(_) => {
                area = area + nor_footprint_area(operands.len());
                depths.push(upstream + 1);
            },
            Step::Merge(_) => {
                area = area + merge_footprint_area(operands.len());
                depths.push(upstream);
            },
        }
        proof {
            assert(next.len() == index + 1);
            assert forall|i: int| 0 <= i < index + 1 implies #[trigger] depths@[i] == next[i]
                && next[i] <= index + 1 by {
                if i < index {
                    assert(next[i] == model[i]);
                }
            }
        }
        index = index + 1;
    }
    let torches: u32 = depths[index - 1];
    RealisationCost { area, delay_game_ticks: TORCH_DELAY_GAME_TICKS * torches as u64 }
}

pub open spec fn reads(node: TemplateNode) -> spec_fn(TemplateNode) -> bool {
    |role: TemplateNode| role == node
}

pub open spec fn enters(node: TemplateNode) -> spec_fn((TemplateNode, TemplateNode)) -> bool {
    |edge: (TemplateNode, TemplateNode)| edge.1 == node
}

/// How many inputs a node of a template reads, from outside and from within.
pub open spec fn node_fan_in(
    inputs: Seq<TemplateNode>,
    edges: Seq<(TemplateNode, TemplateNode)>,
    node: TemplateNode,
) -> nat {
    inputs.filter(reads(node)).len() + edges.filter(enters(node)).len()
}

/// One node of a path feeds the next.
pub open spec fn fed(
    edges: Seq<(TemplateNode, TemplateNode)>,
    path: Seq<TemplateNode>,
    i: int,
) -> bool {
    edges.contains((path[i - 1], path[i]))
}

/// Nodes, each of which feeds the next.
pub open spec fn is_path(
    edges: Seq<(TemplateNode, TemplateNode)>,
    path: Seq<TemplateNode>,
) -> bool {
    &&& path.len() > 0
    &&& forall|i: int| 0 < i < path.len() ==> #[trigger] fed(edges, path, i)
}

/// The number of nodes on the longest path that ends at a node.
pub open spec fn is_depth(
    edges: Seq<(TemplateNode, TemplateNode)>,
    node: TemplateNode,
    depth: nat,
) -> bool {
    &&& exists|path: Seq<TemplateNode>|
        #[trigger] is_path(edges, path) && path.last() == node && path.len() == depth
    &&& forall|path: Seq<TemplateNode>| #[trigger]
        is_path(edges, path) && path.last() == node ==> path.len() <= depth
}

/// A numbering of the nodes by which every edge goes up.
pub open spec fn ranks(
    edges: Seq<(TemplateNode, TemplateNode)>,
    rank: spec_fn(TemplateNode) -> nat,
) -> bool {
    forall|i: int| 0 <= i < edges.len() ==> rank((#[trigger] edges[i]).0) < rank(edges[i].1)
}

/// No node feeds itself, through however many others.
pub open spec fn acyclic(edges: Seq<(TemplateNode, TemplateNode)>) -> bool {
    exists|rank: spec_fn(TemplateNode) -> nat|
        #[trigger] ranks(edges, rank) && forall|node: TemplateNode| #[trigger]
            rank(node) < u32::MAX
}

impl Template {
    fn fan_in(&self, node: TemplateNode) -> (count: usize)
        requires
            self.inputs@.len() + self.internal_edges@.len() <= usize::MAX,
        ensures
            count == node_fan_in(self.inputs@, self.internal_edges@, node),
    {
        let mut external: usize = 0;
        let mut at: usize = 0;
        while at < self.inputs.len()
            invariant
                at <= self.inputs@.len(),
                external == self.inputs@.take(at as int).filter(reads(node)).len(),
                external <= at,
            decreases self.inputs@.len() - at,
        {
            proof {
                let before = self.inputs@.take(at as int);
                assert(self.inputs@.take(at + 1) =~= before.push(self.inputs@[at as int]));
                before.lemma_filter_push(self.inputs@[at as int], reads(node));
            }
            if self.inputs[at] == node {
                external = external + 1;
            }
            at = at + 1;
        }
        assert(self.inputs@.take(at as int) =~= self.inputs@);
        let mut internal: usize = 0;
        at = 0;
        while at < self.internal_edges.len()
            invariant
                at <= self.internal_edges@.len(),
                internal == self.internal_edges@.take(at as int).filter(enters(node)).len(),
                internal <= at,
            decreases self.internal_edges@.len() - at,
        {
            proof {
                let before = self.internal_edges@.take(at as int);
                assert(self.internal_edges@.take(at + 1) =~= before.push(
                    self.internal_edges@[at as int],
                ));
                before.lemma_filter_push(self.internal_edges@[at as int], enters(node));
            }
            if self.internal_edges[at].1 == node {
                internal = internal + 1;
            }
            at = at + 1;
        }
        assert(self.internal_edges@.take(at as int) =~= self.internal_edges@);
        external + internal
    }

    /// How many torches a signal passes on its way out of a node.
    fn torch_depth(
        &self,
        node: TemplateNode,
        Ghost(rank): Ghost<spec_fn(TemplateNode) -> nat>,
    ) -> (depth: u32)
        requires
            ranks(self.internal_edges@, rank),
            forall|other: TemplateNode| #[trigger] rank(other) < u32::MAX,
        ensures
            is_depth(self.internal_edges@, node, depth as nat),
            depth <= rank(node) + 1,
        decreases rank(node),
    {
        let ghost edges = self.internal_edges@;
        let mut upstream: u32 = 0;
        let ghost mut longest: Seq<TemplateNode> = seq![];
        let mut at: usize = 0;
        while at < self.internal_edges.len()
            invariant
                at <= edges.len(),
                edges == self.internal_edges@,
                ranks(edges, rank),
                forall|other: TemplateNode| #[trigger] rank(other) < u32::MAX,
                upstream <= rank(node),
                longest.len() == upstream,
                is_path(edges, longest.push(node)),
                forall|i: int, path: Seq<TemplateNode>|
                    0 <= i < at && (#[trigger] edges[i]).1 == node && #[trigger] is_path(edges, path)
                        && path.last() == edges[i].0 ==> path.len() <= upstream,
            decreases edges.len() - at,
        {
            if self.internal_edges[at].1 == node {
                let from: TemplateNode = self.internal_edges[at].0;
                assert(rank(edges[at as int].0) < rank(edges[at as int].1));
                let depth: u32 = self.torch_depth(from, Ghost(rank));
                if depth > upstream {
                    upstream = depth;
                    proof {
                        longest = choose|path: Seq<TemplateNode>| #[trigger]
                            is_path(edges, path) && path.last() == from && path.len() == depth;
                        let longer = longest.push(node);
                        assert forall|i: int| 0 < i < longer.len() implies #[trigger] fed(
                            edges,
                            longer,
                            i,
                        ) by {
                            if i < longest.len() {
                                assert(fed(edges, longest, i));
                                assert(longer[i] == longest[i]);
                                assert(longer[i - 1] == longest[i - 1]);
                            } else {
                                assert(edges[at as int] == (longer[i - 1], longer[i]));
                            }
                        }
                    }
                }
            }
            at = at + 1;
        }
        proof {
            let depth = (upstream + 1) as nat;
            let whole = longest.push(node);
            assert(is_path(edges, whole) && whole.last() == node && whole.len() == depth);
            assert forall|path: Seq<TemplateNode>| #[trigger]
                is_path(edges, path) && path.last() == node implies path.len() <= depth by {
                if path.len() > 1 {
                    let before = path.drop_last();
                    assert forall|i: int| 0 < i < before.len() implies #[trigger] fed(
                        edges,
                        before,
                        i,
                    ) by {
                        assert(fed(edges, path, i));
                        assert(before[i] == path[i]);
                        assert(before[i - 1] == path[i - 1]);
                    }
                    assert(is_path(edges, before));
                    assert(fed(edges, path, path.len() - 1));
                    let i = choose|i: int|
                        0 <= i < edges.len() && edges[i] == (
                            path[path.len() - 2],
                            path[path.len() - 1],
                        );
                    assert(edges[i].1 == node);
                    assert(before.last() == edges[i].0);
                }
            }
        }
        upstream + 1
    }
}

/// The ground that the first `count` nodes of a template stand on.
pub open spec fn nodes_area(entry: topology::EntryView, count: nat) -> nat
    decreases count,
{
    if count == 0 {
        0
    } else {
        nodes_area(entry, (count - 1) as nat) + torch_area(
            node_fan_in(entry.inputs, entry.internal_edges, entry.nodes[count - 1].0) as int,
        )
    }
}

/// The entry can be priced as a realisation of the kind: a merge has no output
/// node; anything else is torches with one output, wired without a loop.
pub open spec fn priceable(kind: GateKind, entry: topology::EntryView) -> bool {
    match kind {
        GateKind::Or(arity) => 2 <= arity <= 3 && entry.output is None,
        _ => {
            &&& entry.output is Some
            &&& entry.nodes.len() <= u32::MAX / 12
            &&& entry.inputs.len() + entry.internal_edges.len() <= usize::MAX
            &&& forall|i: int|
                0 <= i < entry.nodes.len() ==> (#[trigger] entry.nodes[i]).1 == Primitive::Torch && 1
                    <= node_fan_in(entry.inputs, entry.internal_edges, entry.nodes[i].0) <= 3
            &&& acyclic(entry.internal_edges)
        },
    }
}

/// What an entry costs: a merge its ground alone, torches their ground and one
/// delay for each on the longest way to the output.
pub open spec fn costs(kind: GateKind, entry: topology::EntryView, area: nat, delay: nat) -> bool {
    match kind {
        GateKind::Or(arity) => area == merge_area(arity as int) && delay == 0,
        _ => area == nodes_area(entry, entry.nodes.len()) && exists|depth: nat| #[trigger]
            is_depth(entry.internal_edges, entry.output->0, depth) && delay
                == TORCH_DELAY_GAME_TICKS * depth,
    }
}

pub fn entry_cost(kind: GateKind, entry: &LibraryEntry) -> (cost: RealisationCost)
    requires
        priceable(kind, entry@),
    ensures
        costs(kind, entry@, cost.area as nat, cost.delay_game_ticks as nat),
{
    if let GateKind::Or(arity) = kind {
        return RealisationCost { area: merge_footprint_area(arity), delay_game_ticks: 0 };
    }
    let template: &Template = &entry.template;
    let output: TemplateNode = match template.output {
        Some(node) => node,
        None => TemplateNode::Torch,
    };
    let ghost rank = choose|rank: spec_fn(TemplateNode) -> nat|
        #[trigger] ranks(entry@.internal_edges, rank) && forall|node: TemplateNode| #[trigger]
            rank(node) < u32::MAX;
    let mut area: u32 = 0;
    let mut at: usize = 0;
    while at < template.nodes.len()
        invariant
            at <= template.nodes@.len(),
            *template == entry.template,
            priceable(kind, entry@),
            !(kind is Or),
            area == nodes_area(entry@, at as nat),
            area <= 12 * at,
        decreases template.nodes@.len() - at,
    {
        assert(entry@.nodes[at as int].1 == Primitive::Torch);
        area = area + nor_footprint_area(template.fan_in(template.nodes[at].0));
        at = at + 1;
    }
    let depth: u32 = template.torch_depth(output, Ghost(rank));
    assert(is_depth(entry@.internal_edges, entry@.output->0, depth as nat));
    RealisationCost { area, delay_game_ticks: TORCH_DELAY_GAME_TICKS * depth as u64 }
}

/// A node that nothing inside the template feeds has depth one.
proof fn lemma_lone_depth(node: TemplateNode, depth: nat)
    ensures
        is_depth(seq![], node, depth) ==> depth == 1,
        acyclic(seq![]),
{
    let none: Seq<(TemplateNode, TemplateNode)> = seq![];
    let rank = |other: TemplateNode| 0nat;
    assert(ranks(none, rank));
    if is_depth(none, node, depth) {
        assert(is_path(none, seq![node]) && seq![node].last() == node);
        let path = choose|path: Seq<TemplateNode>| #[trigger]
            is_path(none, path) && path.last() == node && path.len() == depth;
        if path.len() > 1 {
            assert(fed(none, path, 1));
        }
    }
}

/// The second of two torches in a row has depth two.
proof fn lemma_chained_depth(depth: nat)
    ensures
        is_depth(topology::buf_view().internal_edges, TemplateNode::SecondTorch, depth) ==> depth
            == 2,
        acyclic(topology::buf_view().internal_edges),
{
    let edges = topology::buf_view().internal_edges;
    let rank = |other: TemplateNode|
        if other == TemplateNode::SecondTorch {
            1nat
        } else {
            0nat
        };
    assert(ranks(edges, rank));
    if is_depth(edges, TemplateNode::SecondTorch, depth) {
        let chain = seq![TemplateNode::Torch, TemplateNode::SecondTorch];
        assert(edges[0] == (chain[0], chain[1]));
        assert(fed(edges, chain, 1));
        assert(is_path(edges, chain));
        let path = choose|path: Seq<TemplateNode>| #[trigger]
            is_path(edges, path) && path.last() == TemplateNode::SecondTorch && path.len()
                == depth;
        if path.len() > 2 {
            assert(fed(edges, path, path.len() - 2));
            assert(fed(edges, path, path.len() - 1));
        }
    }
}

proof fn lemma_torch_inputs(arity: usize)
    ensures
        node_fan_in(
            topology::nor_view(arity).inputs,
            topology::nor_view(arity).internal_edges,
            TemplateNode::Torch,
        ) == arity,
{
    let inputs = topology::nor_view(arity).inputs;
    lemma_filter_keeps_all(inputs, reads(TemplateNode::Torch));
    assert(topology::nor_view(arity).internal_edges.filter(enters(TemplateNode::Torch)) =~= seq![])
        by {
        topology::nor_view(arity).internal_edges.lemma_filter_len(enters(TemplateNode::Torch));
    }
}

proof fn lemma_filter_keeps_all<A>(s: Seq<A>, keep: spec_fn(A) -> bool)
    requires
        forall|i: int| 0 <= i < s.len() ==> keep(#[trigger] s[i]),
    ensures
        s.filter(keep).len() == s.len(),
    decreases s.len(),
{
    if s.len() > 0 {
        let before = s.drop_last();
        assert forall|i: int| 0 <= i < before.len() implies keep(#[trigger] before[i]) by {
            assert(keep(s[i]));
        }
        lemma_filter_keeps_all(before, keep);
        assert(keep(s[s.len() - 1]));
        before.lemma_filter_push(s.last(), keep);
        assert(before.push(s.last()) =~= s);
    } else {
        s.lemma_filter_len(keep);
    }
}

/// Every entry of the default library can be priced, and none is free of
/// ground.
pub proof fn lemma_default_entries_have_a_price(kind: GateKind, index: int)
    requires
        topology::default_entries().dom().contains(kind),
        0 <= index < topology::default_entries()[kind].len(),
    ensures
        priceable(kind, topology::default_entries()[kind][index]),
        forall|area: nat, delay: nat| #[trigger]
            costs(kind, topology::default_entries()[kind][index], area, delay) ==> area > 0,
{
    let entry = topology::default_entries()[kind][index];
    match kind {
        GateKind::Or(arity) => {},
        GateKind::Buf => {
            lemma_chained_depth(0);
            lemma_buf_inputs();
            assert(entry == topology::buf_view());
            assert(nodes_area(entry, 2) > 0) by {
                reveal_with_fuel(nodes_area, 3);
            }
        },
        GateKind::Nor(arity) => {
            lemma_lone_depth(TemplateNode::Torch, 0);
            lemma_torch_inputs(arity);
            assert(entry == topology::nor_view(arity));
            assert(nodes_area(entry, 1) > 0) by {
                reveal_with_fuel(nodes_area, 2);
            }
        },
        _ => {},
    }
}

proof fn lemma_buf_inputs()
    ensures
        node_fan_in(
            topology::buf_view().inputs,
            topology::buf_view().internal_edges,
            TemplateNode::Torch,
        ) == 1,
        node_fan_in(
            topology::buf_view().inputs,
            topology::buf_view().internal_edges,
            TemplateNode::SecondTorch,
        ) == 1,
{
    let inputs = topology::buf_view().inputs;
    let edges = topology::buf_view().internal_edges;
    let no_inputs: Seq<TemplateNode> = seq![];
    let no_edges: Seq<(TemplateNode, TemplateNode)> = seq![];
    assert(inputs =~= no_inputs.push(TemplateNode::Torch));
    assert(edges =~= no_edges.push((TemplateNode::Torch, TemplateNode::SecondTorch)));
    no_inputs.lemma_filter_len(reads(TemplateNode::Torch));
    no_inputs.lemma_filter_len(reads(TemplateNode::SecondTorch));
    no_edges.lemma_filter_len(enters(TemplateNode::Torch));
    no_edges.lemma_filter_len(enters(TemplateNode::SecondTorch));
    no_inputs.lemma_filter_push(TemplateNode::Torch, reads(TemplateNode::Torch));
    no_inputs.lemma_filter_push(TemplateNode::Torch, reads(TemplateNode::SecondTorch));
    let edge = (TemplateNode::Torch, TemplateNode::SecondTorch);
    no_edges.lemma_filter_push(edge, enters(TemplateNode::Torch));
    no_edges.lemma_filter_push(edge, enters(TemplateNode::SecondTorch));
}

/// For a kind that is one step of hardware, every entry of the default library
/// costs what the kind's expansion costs. A bare and an isolated merge thus
/// cost the same.
pub proof fn lemma_entry_and_expansion_costs_agree(
    kind: GateKind,
    index: int,
    area: nat,
    delay: nat,
)
    requires
        kind is Nor || kind is Or,
        topology::default_entries().dom().contains(kind),
        0 <= index < topology::default_entries()[kind].len(),
        costs(kind, topology::default_entries()[kind][index], area, delay),
    ensures
        (area, delay) == steps_cost(positive_steps(kind)),
{
    let entry = topology::default_entries()[kind][index];
    let steps = positive_steps(kind);
    reveal_with_fuel(steps_area, 2);
    reveal_with_fuel(step_depths, 2);
    let operands = operands_of(steps[0]);
    lemma_inputs_are_shallow(operands, seq![], operands.len());
    match kind {
        GateKind::Or(arity) => {},
        GateKind::Nor(arity) => {
            reveal_with_fuel(nodes_area, 2);
            lemma_torch_inputs(arity);
            assert(entry == topology::nor_view(arity));
            let depth = choose|depth: nat| #[trigger]
                is_depth(entry.internal_edges, entry.output->0, depth) && delay
                    == TORCH_DELAY_GAME_TICKS * depth;
            lemma_lone_depth(TemplateNode::Torch, depth);
        },
        _ => {},
    }
}

proof fn lemma_inputs_are_shallow(operands: Seq<Operand>, depths: Seq<nat>, count: nat)
    requires
        count <= operands.len(),
        forall|i: int| 0 <= i < operands.len() ==> (#[trigger] operands[i]) is Input,
    ensures
        deepest(operands, depths, count) == 0,
    decreases count,
{
    if count > 0 {
        lemma_inputs_are_shallow(operands, depths, (count - 1) as nat);
        assert(operands[count - 1] is Input);
    }
}

/// The complement of an AND is built as a NAND is, and likewise for the other
/// pairs of kinds that complement each other.
pub proof fn lemma_complements_are_built_alike()
    ensures
        negative_steps(GateKind::And) == positive_steps(GateKind::Nand),
        negative_steps(GateKind::Nand) == positive_steps(GateKind::And),
        negative_steps(GateKind::Xor) == positive_steps(GateKind::Xnor),
        negative_steps(GateKind::Xnor) == positive_steps(GateKind::Xor),
        negative_steps(GateKind::Mux) == positive_steps(GateKind::Nmux),
        negative_steps(GateKind::Nmux) == positive_steps(GateKind::Mux),
{
}

/// There is hardware for every cell that synthesis emits, and for every step of
/// its expansion the default library has an entry.
pub proof fn lemma_every_cell_can_be_built(index: int, polarity: SignalPolarity, step: int)
    requires
        0 <= index < topology::yosys_cells().len(),
        0 <= step < steps_for(topology::yosys_cells()[index].1, polarity).len(),
    ensures
        legal(topology::yosys_cells()[index].1),
        topology::default_entries().dom().contains(
            step_kind(steps_for(topology::yosys_cells()[index].1, polarity)[step]),
        ),
{
    let kind = topology::yosys_cells()[index].1;
    lemma_steps_are_well_formed(kind, polarity);
    assert(step_ok(steps_for(kind, polarity)[step], topology::kind_arity(kind), step));
}

/// The kind of gate that a step is.
pub open spec fn step_kind(step: StepView) -> GateKind {
    match step {
        StepView::Nor(operands) => GateKind::Nor(operands.len() as usize),
        StepView::Merge(operands) => GateKind::Or(operands.len() as usize),
    }
}

} // verus!
