//! Netlists: named signals, and the gates that drive them.

use crate::compile::topology;
use crate::compile::topology::GateKind;
use crate::text;
use vstd::prelude::*;

verus! {

/// A gate, which drives the signal that it names.
#[derive(Debug, PartialEq, Eq)]
pub struct Gate {
    pub output: String,
    pub inputs: Vec<String>,
    pub kind: GateKind,
}

#[derive(Debug, PartialEq, Eq)]
pub struct Netlist {
    pub inputs: Vec<String>,
    pub outputs: Vec<String>,
    pub gates: Vec<Gate>,
}

/// What a [`Gate`] stands for.
#[verifier::ext_equal]
pub struct GateView {
    pub output: Seq<char>,
    pub inputs: Seq<Seq<char>>,
    pub kind: GateKind,
}

/// What a [`Netlist`] stands for.
#[verifier::ext_equal]
pub struct NetlistView {
    pub inputs: Seq<Seq<char>>,
    pub outputs: Seq<Seq<char>>,
    pub gates: Seq<GateView>,
}

pub open spec fn texts(list: Seq<String>) -> Seq<Seq<char>> {
    Seq::new(list.len(), |i: int| list[i]@)
}

pub open spec fn gate_views(list: Seq<Gate>) -> Seq<GateView> {
    Seq::new(list.len(), |i: int| list[i]@)
}

impl View for Gate {
    type V = GateView;

    open spec fn view(&self) -> GateView {
        GateView { output: self.output@, inputs: texts(self.inputs@), kind: self.kind }
    }
}

impl View for Netlist {
    type V = NetlistView;

    open spec fn view(&self) -> NetlistView {
        NetlistView {
            inputs: texts(self.inputs@),
            outputs: texts(self.outputs@),
            gates: gate_views(self.gates@),
        }
    }
}

/// Copies of names.
pub fn copy_texts(list: &[&str]) -> (copies: Vec<String>)
    ensures
        copies@.len() == list@.len(),
        forall|i: int| 0 <= i < list@.len() ==> (#[trigger] copies@[i])@ == list@[i]@,
{
    let mut copies: Vec<String> = Vec::new();
    let mut at: usize = 0;
    while at < list.len()
        invariant
            at <= list@.len(),
            copies@.len() == at,
            forall|i: int| 0 <= i < at ==> (#[trigger] copies@[i])@ == list@[i]@,
        decreases list@.len() - at,
    {
        copies.push(list[at].to_owned());
        at = at + 1;
    }
    copies
}

impl Gate {
    pub fn nor(output: &str, inputs: &[&str]) -> (gate: Gate)
        ensures
            gate@ == (GateView {
                output: output@,
                inputs: Seq::new(inputs@.len(), |i: int| inputs@[i]@),
                kind: GateKind::Nor(inputs.len()),
            }),
    {
        let copies: Vec<String> = copy_texts(inputs);
        assert(texts(copies@) =~= Seq::new(inputs@.len(), |i: int| inputs@[i]@));
        Gate { output: output.to_owned(), inputs: copies, kind: GateKind::Nor(inputs.len()) }
    }

    pub fn merge(output: &str, inputs: &[&str]) -> (gate: Gate)
        ensures
            gate@ == (GateView {
                output: output@,
                inputs: Seq::new(inputs@.len(), |i: int| inputs@[i]@),
                kind: GateKind::Or(inputs.len()),
            }),
    {
        let copies: Vec<String> = copy_texts(inputs);
        assert(texts(copies@) =~= Seq::new(inputs@.len(), |i: int| inputs@[i]@));
        Gate { output: output.to_owned(), inputs: copies, kind: GateKind::Or(inputs.len()) }
    }

    /// Whether this is wires that meet, with no component of its own.
    pub fn is_merge(&self) -> (merges: bool)
        ensures
            merges == (self.kind is Or),
    {
        match self.kind {
            GateKind::Or(_) => true,
            _ => false,
        }
    }
}

/// What every signal carries after the first `count` gates, which are worked
/// out in order.
pub open spec fn carried(
    inputs: Map<Seq<char>, bool>,
    gates: Seq<GateView>,
    count: nat,
) -> Map<Seq<char>, bool>
    decreases count,
{
    if count == 0 {
        inputs
    } else {
        let before = carried(inputs, gates, (count - 1) as nat);
        let gate = gates[count - 1];
        before.insert(gate.output, topology::kind_value(gate.kind, read_all(gate.inputs, before)))
    }
}

pub open spec fn read_all(names: Seq<Seq<char>>, values: Map<Seq<char>, bool>) -> Seq<bool> {
    Seq::new(names.len(), |i: int| values[names[i]])
}

/// More gates change nothing of what came before them.
pub proof fn lemma_carried_extends(
    inputs: Map<Seq<char>, bool>,
    gates: Seq<GateView>,
    next: GateView,
    count: nat,
)
    requires
        count <= gates.len(),
    ensures
        carried(inputs, gates.push(next), count) == carried(inputs, gates, count),
    decreases count,
{
    if count > 0 {
        lemma_carried_extends(inputs, gates, next, (count - 1) as nat);
        assert(gates.push(next)[count - 1] == gates[count - 1]);
    }
}

/// A prefix for invented names.
pub open spec fn candidate(underscores: nat) -> Seq<char> {
    "n"@ + Seq::new(underscores, |i: int| '_')
}

pub open spec fn clashes(taken: Seq<Seq<char>>, prefix: Seq<char>) -> bool {
    exists|i: int| 0 <= i < taken.len() && prefix.is_prefix_of(#[trigger] taken[i])
}

pub open spec fn is_fresh_prefix(taken: Seq<Seq<char>>, underscores: nat) -> bool {
    &&& !clashes(taken, candidate(underscores))
    &&& forall|fewer: nat| fewer < underscores ==> clashes(taken, #[trigger] candidate(fewer))
}

/// The shortest prefix that no name in use begins with.
pub open spec fn fresh_prefix(taken: Seq<Seq<char>>) -> Seq<char> {
    candidate(choose|underscores: nat| is_fresh_prefix(taken, underscores))
}

proof fn lemma_fresh_prefix(taken: Seq<Seq<char>>, underscores: nat)
    requires
        is_fresh_prefix(taken, underscores),
    ensures
        fresh_prefix(taken) == candidate(underscores),
{
    let chosen = choose|other: nat| is_fresh_prefix(taken, other);
    if chosen < underscores {
        assert(clashes(taken, candidate(chosen)));
    } else if underscores < chosen {
        assert(clashes(taken, candidate(underscores)));
    }
}

proof fn lemma_least_fresh(taken: Seq<Seq<char>>, tried: nat, longest: nat)
    requires
        tried <= longest,
        forall|i: int| 0 <= i < taken.len() ==> (#[trigger] taken[i]).len() <= longest,
        forall|fewer: nat| fewer < tried ==> clashes(taken, #[trigger] candidate(fewer)),
    ensures
        exists|underscores: nat| is_fresh_prefix(taken, underscores),
    decreases longest - tried,
{
    reveal_strlit("n");
    assert("n"@.len() == 1);
    if clashes(taken, candidate(tried)) {
        let i = choose|i: int|
            0 <= i < taken.len() && candidate(tried).is_prefix_of(#[trigger] taken[i]);
        assert(candidate(tried).len() == 1 + tried);
        lemma_least_fresh(taken, tried + 1, longest);
    } else {
        assert(is_fresh_prefix(taken, tried));
    }
}

spec fn longest_name(taken: Seq<Seq<char>>) -> nat
    decreases taken.len(),
{
    if taken.len() == 0 {
        0
    } else {
        let before = longest_name(taken.drop_last());
        if taken.last().len() > before {
            taken.last().len()
        } else {
            before
        }
    }
}

proof fn lemma_longest_name(taken: Seq<Seq<char>>)
    ensures
        forall|i: int| 0 <= i < taken.len() ==> (#[trigger] taken[i]).len() <= longest_name(taken),
    decreases taken.len(),
{
    if taken.len() > 0 {
        lemma_longest_name(taken.drop_last());
        assert forall|i: int| 0 <= i < taken.len() implies (#[trigger] taken[i]).len()
            <= longest_name(taken) by {
            if i < taken.len() - 1 {
                assert(taken.drop_last()[i] == taken[i]);
            }
        }
    }
}

/// No name in use begins with the prefix for invented names.
pub proof fn lemma_fresh_prefix_exists(taken: Seq<Seq<char>>)
    ensures
        !clashes(taken, fresh_prefix(taken)),
{
    lemma_longest_name(taken);
    lemma_least_fresh(taken, 0, longest_name(taken));
}

/// The name of a gate that is built as number `index`.
pub open spec fn invented(prefix: Seq<char>, index: nat) -> Seq<char> {
    prefix + text::decimal(index)
}

/// Invented names differ from each other and from every name in use.
pub proof fn lemma_invented_names(taken: Seq<Seq<char>>, prefix: Seq<char>, one: nat, two: nat)
    requires
        !clashes(taken, prefix),
    ensures
        invented(prefix, one) == invented(prefix, two) ==> one == two,
        !taken.contains(invented(prefix, one)),
{
    text::lemma_decimal_value(one);
    text::lemma_decimal_value(two);
    if invented(prefix, one) == invented(prefix, two) {
        let start = prefix.len() as int;
        assert(invented(prefix, one).skip(start) =~= text::decimal(one));
        assert(invented(prefix, two).skip(start) =~= text::decimal(two));
    }
    if taken.contains(invented(prefix, one)) {
        let i = choose|i: int| 0 <= i < taken.len() && taken[i] == invented(prefix, one);
        assert(prefix.is_prefix_of(taken[i])) by {
            assert(prefix =~= taken[i].subrange(0, prefix.len() as int));
        }
    }
}

fn begins_with(name: &str, prefix: &str) -> (begins: bool)
    ensures
        begins == prefix@.is_prefix_of(name@),
{
    let length: usize = prefix.unicode_len();
    if name.unicode_len() < length {
        return false;
    }
    let start: &str = name.substring_char(0, length);
    assert(prefix@.is_prefix_of(name@) == (start@ == prefix@));
    text::same_text(start, prefix)
}

fn any_begins_with(names: &Vec<String>, prefix: &str) -> (found: bool)
    ensures
        found == clashes(texts(names@), prefix@),
{
    let ghost taken = texts(names@);
    let mut at: usize = 0;
    while at < names.len()
        invariant
            at <= names@.len(),
            taken == texts(names@),
            forall|i: int| 0 <= i < at ==> !prefix@.is_prefix_of(#[trigger] taken[i]),
        decreases names@.len() - at,
    {
        assert(taken[at as int] == names@[at as int]@);
        if begins_with(names[at].as_str(), prefix) {
            return true;
        }
        at = at + 1;
    }
    false
}

/// A netlist under construction, which invents a name for each gate.
#[derive(Debug)]
pub struct NetlistBuilder {
    pub prefix: String,
    pub gates: Vec<Gate>,
}

impl NetlistBuilder {
    /// A builder whose names keep clear of those given.
    pub fn new(taken: &Vec<String>) -> (builder: NetlistBuilder)
        ensures
            builder.prefix@ == fresh_prefix(texts(taken@)),
            !clashes(texts(taken@), builder.prefix@),
            builder.gates@ == Seq::<Gate>::empty(),
    {
        let ghost names = texts(taken@);
        let mut longest: usize = 0;
        let mut at: usize = 0;
        while at < taken.len()
            invariant
                at <= taken@.len(),
                names == texts(taken@),
                forall|i: int| 0 <= i < at ==> (#[trigger] names[i]).len() <= longest,
            decreases taken@.len() - at,
        {
            let length: usize = taken[at].as_str().unicode_len();
            assert(names[at as int].len() == length);
            if length > longest {
                longest = length;
            }
            at = at + 1;
        }
        let mut prefix: String = "n".to_owned();
        let mut underscores: usize = 0;
        proof {
            reveal_strlit("n");
            assert(prefix@ =~= candidate(0));
        }
        while any_begins_with(taken, prefix.as_str())
            invariant
                names == texts(taken@),
                prefix@ == candidate(underscores as nat),
                underscores <= longest,
                forall|i: int| 0 <= i < names.len() ==> (#[trigger] names[i]).len() <= longest,
                forall|fewer: nat|
                    fewer < underscores ==> clashes(names, #[trigger] candidate(fewer)),
            decreases longest - underscores,
        {
            proof {
                reveal_strlit("n");
                reveal_strlit("_");
                assert("n"@.len() == 1);
                let i = choose|i: int|
                    0 <= i < names.len() && prefix@.is_prefix_of(#[trigger] names[i]);
                assert(names[i].len() <= longest);
                assert(candidate((underscores + 1) as nat) =~= prefix@ + "_"@);
            }
            prefix.append("_");
            underscores = underscores + 1;
        }
        proof {
            lemma_fresh_prefix(names, underscores as nat);
        }
        NetlistBuilder { prefix, gates: Vec::new() }
    }

    /// Adds a gate, and returns the signal that it drives.
    pub fn cell(&mut self, kind: GateKind, inputs: Vec<String>) -> (output: String)
        ensures
            output@ == invented(old(self).prefix@, old(self).gates@.len()),
            final(self).prefix == old(self).prefix,
            gate_views(final(self).gates@) == gate_views(old(self).gates@).push(
                (GateView { output: output@, inputs: texts(inputs@), kind }),
            ),
    {
        let ghost before = gate_views(self.gates@);
        let mut output: String = self.prefix.as_str().to_owned();
        let count: usize = self.gates.len();
        text::push_decimal(&mut output, count as u64);
        let name: String = output.as_str().to_owned();
        self.gates.push(Gate { output: name, inputs, kind });
        assert(gate_views(self.gates@) =~= before.push(self.gates@.last()@));
        output
    }

    pub fn nor(&mut self, inputs: Vec<String>) -> (output: String)
        ensures
            output@ == invented(old(self).prefix@, old(self).gates@.len()),
            final(self).prefix == old(self).prefix,
            gate_views(final(self).gates@) == gate_views(old(self).gates@).push(
                (GateView {
                    output: output@,
                    inputs: texts(inputs@),
                    kind: GateKind::Nor(inputs.len()),
                }),
            ),
    {
        let arity: usize = inputs.len();
        self.cell(GateKind::Nor(arity), inputs)
    }

    pub fn merge(&mut self, inputs: Vec<String>) -> (output: String)
        ensures
            output@ == invented(old(self).prefix@, old(self).gates@.len()),
            final(self).prefix == old(self).prefix,
            gate_views(final(self).gates@) == gate_views(old(self).gates@).push(
                (GateView {
                    output: output@,
                    inputs: texts(inputs@),
                    kind: GateKind::Or(inputs.len()),
                }),
            ),
    {
        let arity: usize = inputs.len();
        self.cell(GateKind::Or(arity), inputs)
    }

    pub fn into_gates(self) -> (gates: Vec<Gate>)
        ensures
            gates == self.gates,
    {
        self.gates
    }
}

/// Why a netlist cannot be laid out.
#[derive(Debug, PartialEq, Eq)]
pub enum CompileError {
    /// A signal is used that nothing drives.
    UndrivenSignal(String),
    /// A gate depends on itself.
    CyclicNetlist,
}

pub open spec fn gate_drives(gates: Seq<GateView>, name: Seq<char>) -> bool {
    exists|i: int| 0 <= i < gates.len() && (#[trigger] gates[i]).output == name
}

pub open spec fn driven(list: NetlistView, name: Seq<char>) -> bool {
    list.inputs.contains(name) || gate_drives(list.gates, name)
}

/// One gate reads what another drives.
pub open spec fn depends(gates: Seq<GateView>, reader: int, driver: int) -> bool {
    gates[reader].inputs.contains(gates[driver].output)
}

/// The gates in an order in which each comes after those that it reads.
pub open spec fn is_topological(gates: Seq<GateView>, order: Seq<usize>) -> bool {
    &&& order.no_duplicates()
    &&& order.len() == gates.len()
    &&& forall|k: int| 0 <= k < order.len() ==> (#[trigger] order[k]) < gates.len()
    &&& forall|j: int, k: int|
        0 <= j < order.len() && 0 <= k < order.len() && #[trigger] depends(
            gates,
            order[k] as int,
            order[j] as int,
        ) ==> j < k
}

/// The first input of a gate that nothing drives, if there is one.
pub open spec fn first_undriven(
    list: NetlistView,
    names: Seq<Seq<char>>,
    from: int,
) -> Option<Seq<char>>
    decreases names.len() - from,
{
    if from < 0 || from >= names.len() {
        None
    } else if !driven(list, names[from]) {
        Some(names[from])
    } else {
        first_undriven(list, names, from + 1)
    }
}

/// The first input of any gate, from one gate on, that nothing drives.
pub open spec fn first_undriven_input(list: NetlistView, from: int) -> Option<Seq<char>>
    decreases list.gates.len() - from,
{
    if from < 0 || from >= list.gates.len() {
        None
    } else {
        match first_undriven(list, list.gates[from].inputs, 0) {
            Some(name) => Some(name),
            None => first_undriven_input(list, from + 1),
        }
    }
}

/// The first output, from one on, that no gate drives.
pub open spec fn first_undriven_output(list: NetlistView, from: int) -> Option<Seq<char>>
    decreases list.outputs.len() - from,
{
    if from < 0 || from >= list.outputs.len() {
        None
    } else if !gate_drives(list.gates, list.outputs[from]) {
        Some(list.outputs[from])
    } else {
        first_undriven_output(list, from + 1)
    }
}

/// The signal that keeps a netlist from being laid out: an input of a gate that
/// nothing drives, or else an output that no gate drives.
pub open spec fn undriven_signal(list: NetlistView) -> Option<Seq<char>> {
    match first_undriven_input(list, 0) {
        Some(name) => Some(name),
        None => first_undriven_output(list, 0),
    }
}

fn drives(gates: &Vec<Gate>, name: &str) -> (found: bool)
    ensures
        found == gate_drives(gate_views(gates@), name@),
{
    let ghost views = gate_views(gates@);
    let mut at: usize = 0;
    while at < gates.len()
        invariant
            at <= gates@.len(),
            views == gate_views(gates@),
            forall|i: int| 0 <= i < at ==> (#[trigger] views[i]).output != name@,
        decreases gates@.len() - at,
    {
        assert(views[at as int].output == gates@[at as int].output@);
        if text::same_text(gates[at].output.as_str(), name) {
            return true;
        }
        at = at + 1;
    }
    false
}

fn listed(names: &Vec<String>, name: &str) -> (found: bool)
    ensures
        found == texts(names@).contains(name@),
{
    let ghost views = texts(names@);
    let mut at: usize = 0;
    while at < names.len()
        invariant
            at <= names@.len(),
            views == texts(names@),
            forall|i: int| 0 <= i < at ==> #[trigger] views[i] != name@,
        decreases names@.len() - at,
    {
        assert(views[at as int] == names@[at as int]@);
        if text::same_text(names[at].as_str(), name) {
            return true;
        }
        at = at + 1;
    }
    false
}

/// Whether every gate that a gate reads has its place already.
fn ready(gates: &Vec<Gate>, placed: &Vec<bool>, reader: usize) -> (free: bool)
    requires
        reader < gates@.len(),
        placed@.len() == gates@.len(),
    ensures
        free == (forall|j: int|
            0 <= j < gates@.len() && #[trigger] depends(gate_views(gates@), reader as int, j)
                ==> placed@[j]),
{
    let ghost views = gate_views(gates@);
    let mut at: usize = 0;
    while at < gates.len()
        invariant
            at <= gates@.len(),
            views == gate_views(gates@),
            reader < gates@.len(),
            placed@.len() == gates@.len(),
            forall|j: int|
                0 <= j < at && #[trigger] depends(views, reader as int, j) ==> placed@[j],
        decreases gates@.len() - at,
    {
        assert(views[at as int].output == gates@[at as int].output@);
        assert(views[reader as int].inputs == texts(gates@[reader as int].inputs@));
        if !placed[at] && listed(&gates[reader].inputs, gates[at].output.as_str()) {
            assert(depends(views, reader as int, at as int));
            return false;
        }
        at = at + 1;
    }
    true
}

/// The gates placed so far stand in order, and all that any of them reads stands
/// before it.
spec fn partial_order(gates: Seq<GateView>, order: Seq<usize>, placed: Seq<bool>) -> bool {
    &&& placed.len() == gates.len()
    &&& order.no_duplicates()
    &&& forall|k: int| 0 <= k < order.len() ==> (#[trigger] order[k]) < gates.len() && placed[order[k] as int]
    &&& forall|i: int|
        0 <= i < placed.len() && #[trigger] placed[i] ==> order.contains(i as usize)
    &&& forall|k: int, j: int|
        0 <= k < order.len() && 0 <= j < gates.len() && #[trigger] depends(
            gates,
            order[k] as int,
            j,
        ) ==> before_in(order, j, k)
}

/// A gate stands before a place in the order.
spec fn before_in(order: Seq<usize>, gate: int, place: int) -> bool {
    exists|k: int| 0 <= k < place && #[trigger] order[k] == gate
}

proof fn lemma_place_next(gates: Seq<GateView>, order: Seq<usize>, placed: Seq<bool>, next: usize)
    requires
        gates.len() <= usize::MAX,
        partial_order(gates, order, placed),
        next < gates.len(),
        !placed[next as int],
        forall|j: int|
            0 <= j < gates.len() && #[trigger] depends(gates, next as int, j) ==> placed[j],
    ensures
        partial_order(gates, order.push(next), placed.update(next as int, true)),
{
    let longer = order.push(next);
    let marked = placed.update(next as int, true);
    if order.contains(next) {
        let k = choose|k: int| 0 <= k < order.len() && order[k] == next;
        assert(placed[order[k] as int]);
    }
    assert(longer.no_duplicates());
    assert forall|i: int| 0 <= i < marked.len() && #[trigger] marked[i] implies longer.contains(
        i as usize,
    ) by {
        if i == next {
            assert(longer[order.len() as int] == i as usize);
        } else {
            assert(placed[i]);
            let k = choose|k: int| 0 <= k < order.len() && order[k] == i as usize;
            assert(longer[k] == i as usize);
        }
    }
    assert forall|k: int, j: int|
        0 <= k < longer.len() && 0 <= j < gates.len() && #[trigger] depends(
            gates,
            longer[k] as int,
            j,
        ) implies before_in(longer, j, k) by {
        if k < order.len() {
            assert(longer[k] == order[k]);
            assert(before_in(order, j, k));
            let earlier = choose|earlier: int| 0 <= earlier < k && #[trigger] order[earlier] == j;
            assert(longer[earlier] == j);
        } else {
            assert(placed[j]);
            let earlier = choose|earlier: int|
                0 <= earlier < order.len() && order[earlier] == j as usize;
            assert(longer[earlier] == j);
        }
    }
}

/// A whole order is topological.
proof fn lemma_whole_order(gates: Seq<GateView>, order: Seq<usize>, placed: Seq<bool>)
    requires
        partial_order(gates, order, placed),
        order.len() == gates.len(),
    ensures
        is_topological(gates, order),
{
    assert forall|j: int, k: int|
        0 <= j < order.len() && 0 <= k < order.len() && #[trigger] depends(
            gates,
            order[k] as int,
            order[j] as int,
        ) implies j < k by {
        assert(before_in(order, order[j] as int, k));
        let earlier = choose|earlier: int| 0 <= earlier < k && #[trigger] order[earlier] == order[j];
        assert(order[earlier] == order[j]);
    }
}

/// Where no gate that is left can be placed, there is no order at all: the first
/// of the left ones in any order reads another of them.
proof fn lemma_stuck(gates: Seq<GateView>, placed: Seq<bool>, order: Seq<usize>, left: int)
    requires
        gates.len() <= usize::MAX,
        placed.len() == gates.len(),
        0 <= left < gates.len(),
        !placed[left],
        forall|i: int|
            0 <= i < gates.len() && !#[trigger] placed[i] ==> reads_unplaced(gates, placed, i),
    ensures
        !is_topological(gates, order),
{
    if is_topological(gates, order) {
        lemma_order_covers(gates.len(), order);
        assert(order.contains(left as usize));
        let at = choose|k: int| 0 <= k < order.len() && order[k] == left as usize;
        lemma_all_placed(gates, placed, order, at);
    }
}

spec fn reads_unplaced(gates: Seq<GateView>, placed: Seq<bool>, reader: int) -> bool {
    exists|j: int|
        0 <= j < gates.len() && #[trigger] depends(gates, reader, j) && !placed[j]
}

proof fn lemma_all_placed(gates: Seq<GateView>, placed: Seq<bool>, order: Seq<usize>, at: int)
    requires
        gates.len() <= usize::MAX,
        placed.len() == gates.len(),
        is_topological(gates, order),
        0 <= at < order.len(),
        forall|i: int|
            0 <= i < gates.len() && !#[trigger] placed[i] ==> reads_unplaced(gates, placed, i),
    ensures
        placed[order[at] as int],
    decreases at,
{
    lemma_order_covers(gates.len(), order);
    let reader = order[at] as int;
    if !placed[reader] {
        assert(reads_unplaced(gates, placed, reader));
        let j = choose|j: int|
            0 <= j < gates.len() && #[trigger] depends(gates, reader, j) && !placed[j];
        assert(order.contains(j as usize));
        let earlier = choose|k: int| 0 <= k < order.len() && order[k] == j as usize;
        assert(depends(gates, order[at] as int, order[earlier] as int));
        lemma_all_placed(gates, placed, order, earlier);
    }
}

/// As many different numbers below a bound as the bound are all of them.
proof fn lemma_order_covers(count: nat, order: Seq<usize>)
    requires
        count <= usize::MAX,
        order.no_duplicates(),
        order.len() == count,
        forall|k: int| 0 <= k < order.len() ==> (#[trigger] order[k]) < count,
    ensures
        forall|i: int| 0 <= i < count ==> #[trigger] order.contains(i as usize),
{
    order.unique_seq_to_set();
    let numbers = order.to_set();
    let all = Set::new(|n: usize| n < count);
    lemma_numbers_below(count);
    assert(numbers.subset_of(all)) by {
        assert forall|n: usize| numbers.contains(n) implies all.contains(n) by {
            let k = choose|k: int| 0 <= k < order.len() && order[k] == n;
            assert(order[k] < count);
        }
    }
    vstd::set_lib::lemma_subset_equality(numbers, all);
    assert forall|i: int| 0 <= i < count implies #[trigger] order.contains(i as usize) by {
        assert(all.contains(i as usize));
    }
}

proof fn lemma_numbers_below(count: nat)
    requires
        count <= usize::MAX,
    ensures
        Set::new(|n: usize| n < count).finite(),
        Set::new(|n: usize| n < count).len() == count,
    decreases count,
{
    let all = Set::new(|n: usize| n < count);
    if count == 0 {
        assert(all =~= Set::empty());
    } else {
        lemma_numbers_below((count - 1) as nat);
        let fewer = Set::new(|n: usize| n < (count - 1) as nat);
        assert(all =~= fewer.insert((count - 1) as usize));
    }
}

impl Netlist {
    /// Whether an input or a gate drives the signal.
    pub fn is_driven(&self, name: &str) -> (found: bool)
        ensures
            found == driven(self@, name@),
    {
        listed(&self.inputs, name) || drives(&self.gates, name)
    }

    /// The gates in an order in which each comes after those that it reads, if
    /// there is one.
    pub fn topological_order(&self) -> (order: Option<Vec<usize>>)
        ensures
            match order {
                Some(found) => is_topological(self@.gates, found@),
                None => forall|other: Seq<usize>| !is_topological(self@.gates, other),
            },
    {
        let ghost gates = self@.gates;
        let count: usize = self.gates.len();
        let mut placed: Vec<bool> = vec![false; count];
        let mut order: Vec<usize> = Vec::new();
        while order.len() < count
            invariant
                count == self.gates@.len() == gates.len(),
                gates == gate_views(self.gates@),
                gates == self@.gates,
                order@.len() <= count,
                partial_order(gates, order@, placed@),
            decreases count - order@.len(),
        {
            let mut next: usize = 0;
            while next < count && (placed[next] || !ready(&self.gates, &placed, next))
                invariant
                    next <= count == self.gates@.len() == gates.len(),
                    gates == gate_views(self.gates@),
                    placed@.len() == count,
                    forall|i: int|
                        0 <= i < next && !#[trigger] placed@[i] ==> reads_unplaced(
                            gates,
                            placed@,
                            i,
                        ),
                decreases count - next,
            {
                next = next + 1;
            }
            if next == count {
                proof {
                    lemma_some_left(gates.len(), order@, placed@);
                    let left = choose|left: int| 0 <= left < gates.len() && !#[trigger] placed@[left];
                    assert forall|other: Seq<usize>| !is_topological(gates, other) by {
                        lemma_stuck(gates, placed@, other, left);
                    }
                }
                return None;
            }
            proof {
                lemma_place_next(gates, order@, placed@, next);
                lemma_order_fits(gates.len(), order@.push(next));
            }
            order.push(next);
            placed[next] = true;
        }
        proof {
            lemma_whole_order(gates, order@, placed@);
        }
        Some(order)
    }

    /// Checks that a netlist can be laid out, and gives an order in which to do
    /// it.
    pub fn checked_order(&self) -> (order: Result<Vec<usize>, CompileError>)
        ensures
            match order {
                Ok(found) => undriven_signal(self@) is None && is_topological(
                    self@.gates,
                    found@,
                ),
                Err(CompileError::UndrivenSignal(name)) => undriven_signal(self@) == Some(name@),
                Err(CompileError::CyclicNetlist) => undriven_signal(self@) is None && forall|
                    other: Seq<usize>,
                | !is_topological(self@.gates, other),
            },
    {
        let mut gate: usize = 0;
        while gate < self.gates.len()
            invariant
                gate <= self.gates@.len() == self@.gates.len(),
                first_undriven_input(self@, 0) == first_undriven_input(self@, gate as int),
            decreases self.gates@.len() - gate,
        {
            let ghost names = self@.gates[gate as int].inputs;
            assert(names == texts(self.gates@[gate as int].inputs@));
            let mut at: usize = 0;
            while at < self.gates[gate].inputs.len()
                invariant
                    gate < self.gates@.len() == self@.gates.len(),
                    names == texts(self.gates@[gate as int].inputs@),
                    names == self@.gates[gate as int].inputs,
                    at <= names.len(),
                    first_undriven_input(self@, 0) == first_undriven_input(self@, gate as int),
                    first_undriven(self@, names, 0) == first_undriven(self@, names, at as int),
                decreases names.len() - at,
            {
                let name: &str = self.gates[gate].inputs[at].as_str();
                assert(names[at as int] == name@);
                if !self.is_driven(name) {
                    return Err(CompileError::UndrivenSignal(name.to_owned()));
                }
                at = at + 1;
            }
            gate = gate + 1;
        }
        let mut at: usize = 0;
        while at < self.outputs.len()
            invariant
                at <= self.outputs@.len() == self@.outputs.len(),
                first_undriven_input(self@, 0) is None,
                first_undriven_output(self@, 0) == first_undriven_output(self@, at as int),
            decreases self.outputs@.len() - at,
        {
            let name: &str = self.outputs[at].as_str();
            assert(self@.outputs[at as int] == name@);
            if !drives(&self.gates, name) {
                return Err(CompileError::UndrivenSignal(name.to_owned()));
            }
            at = at + 1;
        }
        match self.topological_order() {
            Some(order) => Ok(order),
            None => Err(CompileError::CyclicNetlist),
        }
    }
}

/// Fewer numbers than there are leave one out.
proof fn lemma_some_left(count: nat, order: Seq<usize>, placed: Seq<bool>)
    requires
        placed.len() == count,
        order.len() < count,
        order.no_duplicates(),
        forall|i: int|
            0 <= i < placed.len() && #[trigger] placed[i] ==> order.contains(i as usize),
        count <= usize::MAX,
    ensures
        exists|left: int| 0 <= left < count && !#[trigger] placed[left],
{
    if forall|left: int| 0 <= left < count ==> #[trigger] placed[left] {
        order.unique_seq_to_set();
        lemma_numbers_below(count);
        let all = Set::new(|n: usize| n < count);
        assert(all.subset_of(order.to_set())) by {
            assert forall|n: usize| all.contains(n) implies order.to_set().contains(n) by {
                assert(placed[n as int]);
            }
        }
        vstd::set_lib::lemma_len_subset(all, order.to_set());
    }
}

/// No more different numbers below a bound than the bound.
proof fn lemma_order_fits(count: nat, order: Seq<usize>)
    requires
        order.no_duplicates(),
        count <= usize::MAX,
        forall|k: int| 0 <= k < order.len() ==> (#[trigger] order[k]) < count,
    ensures
        order.len() <= count,
{
    order.unique_seq_to_set();
    lemma_numbers_below(count);
    let all = Set::new(|n: usize| n < count);
    assert(order.to_set().subset_of(all)) by {
        assert forall|n: usize| order.to_set().contains(n) implies all.contains(n) by {
            let k = choose|k: int| 0 <= k < order.len() && order[k] == n;
            assert(order[k] < count);
        }
    }
    vstd::set_lib::lemma_len_subset(order.to_set(), all);
}

} // verus!
