//! What gates there are, what they compute, and what they are built from.
//!
//! A gate is realised by torches, each an inverter over the OR of what it
//! reads, and by merges, which OR their inputs by joining wires.

use crate::text;
use vstd::prelude::*;

verus! {

/// A component that can be placed.
#[derive(Debug, Clone, Copy, PartialEq, Eq, Hash, Structural)]
pub enum Primitive {
    Torch,
    Repeater,
    Comparator,
    Lever,
    Lamp,
}

/// A kind of gate. `Nor` and `Or` come with as many inputs as they say; every
/// other kind has a number of its own.
#[derive(Debug, Clone, Copy, PartialEq, Eq, PartialOrd, Ord, Hash, Structural)]
pub enum GateKind {
    Nor(usize),
    Or(usize),
    Buf,
    And,
    Nand,
    Xor,
    Xnor,
    AndNot,
    OrNot,
    Aoi3,
    Oai3,
    Aoi4,
    Oai4,
    Mux,
    Nmux,
}

/// One of the values is true.
pub open spec fn any(values: Seq<bool>) -> bool {
    exists|i: int| 0 <= i < values.len() && #[trigger] values[i]
}

pub open spec fn kind_arity(kind: GateKind) -> nat {
    match kind {
        GateKind::Nor(arity) => arity as nat,
        GateKind::Or(arity) => arity as nat,
        GateKind::Buf => 1,
        GateKind::And | GateKind::Nand | GateKind::Xor | GateKind::Xnor | GateKind::AndNot
        | GateKind::OrNot => 2,
        GateKind::Aoi3 | GateKind::Oai3 | GateKind::Mux | GateKind::Nmux => 3,
        GateKind::Aoi4 | GateKind::Oai4 => 4,
    }
}

/// What a gate computes. A multiplexer's third input selects between its first
/// two.
pub open spec fn kind_value(kind: GateKind, v: Seq<bool>) -> bool {
    match kind {
        GateKind::Nor(_) => !any(v),
        GateKind::Or(_) => any(v),
        GateKind::Buf => v[0],
        GateKind::And => v[0] && v[1],
        GateKind::Nand => !(v[0] && v[1]),
        GateKind::Xor => v[0] != v[1],
        GateKind::Xnor => v[0] == v[1],
        GateKind::AndNot => v[0] && !v[1],
        GateKind::OrNot => v[0] || !v[1],
        GateKind::Aoi3 => !((v[0] && v[1]) || v[2]),
        GateKind::Oai3 => !((v[0] || v[1]) && v[2]),
        GateKind::Aoi4 => !((v[0] && v[1]) || (v[2] && v[3])),
        GateKind::Oai4 => !((v[0] || v[1]) && (v[2] || v[3])),
        GateKind::Mux => if v[2] {
            v[1]
        } else {
            v[0]
        },
        GateKind::Nmux => !(if v[2] {
            v[1]
        } else {
            v[0]
        }),
    }
}

pub open spec fn kind_name(kind: GateKind) -> Seq<char> {
    match kind {
        GateKind::Nor(_) => "nor"@,
        GateKind::Or(_) => "merge"@,
        GateKind::Buf => "buf"@,
        GateKind::And => "and"@,
        GateKind::Nand => "nand"@,
        GateKind::Xor => "xor"@,
        GateKind::Xnor => "xnor"@,
        GateKind::AndNot => "andnot"@,
        GateKind::OrNot => "ornot"@,
        GateKind::Aoi3 => "aoi3"@,
        GateKind::Oai3 => "oai3"@,
        GateKind::Aoi4 => "aoi4"@,
        GateKind::Oai4 => "oai4"@,
        GateKind::Mux => "mux"@,
        GateKind::Nmux => "nmux"@,
    }
}

pub open spec fn kind_named(name: Seq<char>, arity: usize) -> Option<GateKind> {
    if name == "nor"@ {
        Some(GateKind::Nor(arity))
    } else if name == "merge"@ {
        Some(GateKind::Or(arity))
    } else if name == "buf"@ {
        Some(GateKind::Buf)
    } else if name == "and"@ {
        Some(GateKind::And)
    } else if name == "nand"@ {
        Some(GateKind::Nand)
    } else if name == "xor"@ {
        Some(GateKind::Xor)
    } else if name == "xnor"@ {
        Some(GateKind::Xnor)
    } else if name == "andnot"@ {
        Some(GateKind::AndNot)
    } else if name == "ornot"@ {
        Some(GateKind::OrNot)
    } else if name == "aoi3"@ {
        Some(GateKind::Aoi3)
    } else if name == "oai3"@ {
        Some(GateKind::Oai3)
    } else if name == "aoi4"@ {
        Some(GateKind::Aoi4)
    } else if name == "oai4"@ {
        Some(GateKind::Oai4)
    } else if name == "mux"@ {
        Some(GateKind::Mux)
    } else if name == "nmux"@ {
        Some(GateKind::Nmux)
    } else {
        None
    }
}

impl GateKind {
    /// An inverter, which is a NOR of one input.
    pub fn inverter() -> (kind: GateKind)
        ensures
            kind == GateKind::Nor(1),
    {
        GateKind::Nor(1)
    }

    pub fn fixed_arity(self) -> (arity: Option<usize>)
        ensures
            match arity {
                Some(n) => !(self is Nor) && !(self is Or) && n == kind_arity(self),
                None => self is Nor || self is Or,
            },
    {
        match self {
            GateKind::Nor(_) | GateKind::Or(_) => None,
            GateKind::Buf => Some(1),
            GateKind::And | GateKind::Nand | GateKind::Xor | GateKind::Xnor | GateKind::AndNot
            | GateKind::OrNot => Some(2),
            GateKind::Aoi3 | GateKind::Oai3 | GateKind::Mux | GateKind::Nmux => Some(3),
            GateKind::Aoi4 | GateKind::Oai4 => Some(4),
        }
    }

    pub fn arity(self) -> (arity: usize)
        ensures
            arity == kind_arity(self),
    {
        match self {
            GateKind::Nor(arity) => arity,
            GateKind::Or(arity) => arity,
            other => match other.fixed_arity() {
                Some(arity) => arity,
                None => 0,
            },
        }
    }

    /// Whether this is one step of hardware: a torch or a merge.
    pub fn is_realisable(self) -> (direct: bool)
        ensures
            direct == (self is Nor || self is Or),
    {
        match self {
            GateKind::Nor(_) | GateKind::Or(_) => true,
            _ => false,
        }
    }

    /// The name a gate has in files and on the wire.
    pub fn wire_name(self) -> (name: &'static str)
        ensures
            name@ == kind_name(self),
    {
        match self {
            GateKind::Nor(_) => "nor",
            GateKind::Or(_) => "merge",
            GateKind::Buf => "buf",
            GateKind::And => "and",
            GateKind::Nand => "nand",
            GateKind::Xor => "xor",
            GateKind::Xnor => "xnor",
            GateKind::AndNot => "andnot",
            GateKind::OrNot => "ornot",
            GateKind::Aoi3 => "aoi3",
            GateKind::Oai3 => "oai3",
            GateKind::Aoi4 => "aoi4",
            GateKind::Oai4 => "oai4",
            GateKind::Mux => "mux",
            GateKind::Nmux => "nmux",
        }
    }

    pub fn from_wire_name(name: &str, arity: usize) -> (kind: Option<GateKind>)
        ensures
            kind == kind_named(name@, arity),
    {
        if text::same_text(name, "nor") {
            Some(GateKind::Nor(arity))
        } else if text::same_text(name, "merge") {
            Some(GateKind::Or(arity))
        } else if text::same_text(name, "buf") {
            Some(GateKind::Buf)
        } else if text::same_text(name, "and") {
            Some(GateKind::And)
        } else if text::same_text(name, "nand") {
            Some(GateKind::Nand)
        } else if text::same_text(name, "xor") {
            Some(GateKind::Xor)
        } else if text::same_text(name, "xnor") {
            Some(GateKind::Xnor)
        } else if text::same_text(name, "andnot") {
            Some(GateKind::AndNot)
        } else if text::same_text(name, "ornot") {
            Some(GateKind::OrNot)
        } else if text::same_text(name, "aoi3") {
            Some(GateKind::Aoi3)
        } else if text::same_text(name, "oai3") {
            Some(GateKind::Oai3)
        } else if text::same_text(name, "aoi4") {
            Some(GateKind::Aoi4)
        } else if text::same_text(name, "oai4") {
            Some(GateKind::Oai4)
        } else if text::same_text(name, "mux") {
            Some(GateKind::Mux)
        } else if text::same_text(name, "nmux") {
            Some(GateKind::Nmux)
        } else {
            None
        }
    }

    /// What a gate of this kind computes.
    pub fn evaluate(self, inputs: &[bool]) -> (value: bool)
        requires
            inputs@.len() == kind_arity(self),
        ensures
            value == kind_value(self, inputs@),
    {
        match self {
            GateKind::Nor(_) => !any_set(inputs),
            GateKind::Or(_) => any_set(inputs),
            GateKind::Buf => inputs[0],
            GateKind::And => inputs[0] && inputs[1],
            GateKind::Nand => !(inputs[0] && inputs[1]),
            GateKind::Xor => inputs[0] != inputs[1],
            GateKind::Xnor => inputs[0] == inputs[1],
            GateKind::AndNot => inputs[0] && !inputs[1],
            GateKind::OrNot => inputs[0] || !inputs[1],
            GateKind::Aoi3 => !((inputs[0] && inputs[1]) || inputs[2]),
            GateKind::Oai3 => !((inputs[0] || inputs[1]) && inputs[2]),
            GateKind::Aoi4 => !((inputs[0] && inputs[1]) || (inputs[2] && inputs[3])),
            GateKind::Oai4 => !((inputs[0] || inputs[1]) && (inputs[2] || inputs[3])),
            GateKind::Mux => if inputs[2] {
                inputs[1]
            } else {
                inputs[0]
            },
            GateKind::Nmux => !(if inputs[2] {
                inputs[1]
            } else {
                inputs[0]
            }),
        }
    }
}

fn any_set(values: &[bool]) -> (found: bool)
    ensures
        found == any(values@),
{
    let mut at: usize = 0;
    while at < values.len()
        invariant
            at <= values@.len(),
            forall|i: int| 0 <= i < at ==> !#[trigger] values@[i],
        decreases values@.len() - at,
    {
        if values[at] {
            return true;
        }
        at = at + 1;
    }
    false
}

/// A kind's name, with its arity, names the kind again.
pub proof fn lemma_wire_names_round_trip(kind: GateKind)
    ensures
        kind_named(kind_name(kind), kind_arity(kind) as usize) == Some(kind),
{
    reveal_strlit("nor");
    reveal_strlit("merge");
    reveal_strlit("buf");
    reveal_strlit("and");
    reveal_strlit("nand");
    reveal_strlit("xor");
    reveal_strlit("xnor");
    reveal_strlit("andnot");
    reveal_strlit("ornot");
    reveal_strlit("aoi3");
    reveal_strlit("oai3");
    reveal_strlit("aoi4");
    reveal_strlit("oai4");
    reveal_strlit("mux");
    reveal_strlit("nmux");
    let name = kind_name(kind);
    assert("nor"@.len() == 3 && "nor"@[0] == 'n');
    assert("merge"@.len() == 5);
    assert("buf"@.len() == 3 && "buf"@[0] == 'b');
    assert("and"@.len() == 3 && "and"@[0] == 'a');
    assert("nand"@.len() == 4 && "nand"@[0] == 'n' && "nand"@[1] == 'a');
    assert("xor"@.len() == 3 && "xor"@[0] == 'x');
    assert("xnor"@.len() == 4 && "xnor"@[0] == 'x');
    assert("andnot"@.len() == 6);
    assert("ornot"@.len() == 5 && "ornot"@[0] == 'o' && "merge"@[0] == 'm');
    assert("aoi3"@.len() == 4 && "aoi3"@[0] == 'a' && "aoi3"@[3] == '3');
    assert("oai3"@.len() == 4 && "oai3"@[0] == 'o' && "oai3"@[3] == '3');
    assert("aoi4"@.len() == 4 && "aoi4"@[0] == 'a' && "aoi4"@[3] == '4');
    assert("oai4"@.len() == 4 && "oai4"@[0] == 'o' && "oai4"@[3] == '4');
    assert("mux"@.len() == 3 && "mux"@[0] == 'm');
    assert("nmux"@.len() == 4 && "nmux"@[0] == 'n' && "nmux"@[1] == 'm');
}

/// The cells that synthesis emits, and which gate each one is.
pub open spec fn yosys_cells() -> Seq<(Seq<char>, GateKind)> {
    seq![
        ("$_NOT_"@, GateKind::Nor(1)),
        ("$_NOR_"@, GateKind::Nor(2)),
        ("$_OR_"@, GateKind::Or(2)),
        ("$_BUF_"@, GateKind::Buf),
        ("$_AND_"@, GateKind::And),
        ("$_NAND_"@, GateKind::Nand),
        ("$_XOR_"@, GateKind::Xor),
        ("$_XNOR_"@, GateKind::Xnor),
        ("$_ANDNOT_"@, GateKind::AndNot),
        ("$_ORNOT_"@, GateKind::OrNot),
        ("$_AOI3_"@, GateKind::Aoi3),
        ("$_OAI3_"@, GateKind::Oai3),
        ("$_AOI4_"@, GateKind::Aoi4),
        ("$_OAI4_"@, GateKind::Oai4),
        ("$_MUX_"@, GateKind::Mux),
        ("$_NMUX_"@, GateKind::Nmux),
    ]
}

/// The first kind that a table has under a name.
pub open spec fn kind_under(
    table: Seq<(Seq<char>, GateKind)>,
    name: Seq<char>,
    from: int,
) -> Option<GateKind>
    decreases table.len() - from,
{
    if from < 0 || from >= table.len() {
        None
    } else if table[from].0 == name {
        Some(table[from].1)
    } else {
        kind_under(table, name, from + 1)
    }
}

pub fn known_yosys_cell_types() -> (table: Vec<(&'static str, GateKind)>)
    ensures
        table@.len() == yosys_cells().len(),
        forall|i: int|
            0 <= i < table@.len() ==> ((#[trigger] table@[i]).0@, table@[i].1) == yosys_cells()[i],
{
    vec![
        ("$_NOT_", GateKind::Nor(1)),
        ("$_NOR_", GateKind::Nor(2)),
        ("$_OR_", GateKind::Or(2)),
        ("$_BUF_", GateKind::Buf),
        ("$_AND_", GateKind::And),
        ("$_NAND_", GateKind::Nand),
        ("$_XOR_", GateKind::Xor),
        ("$_XNOR_", GateKind::Xnor),
        ("$_ANDNOT_", GateKind::AndNot),
        ("$_ORNOT_", GateKind::OrNot),
        ("$_AOI3_", GateKind::Aoi3),
        ("$_OAI3_", GateKind::Oai3),
        ("$_AOI4_", GateKind::Aoi4),
        ("$_OAI4_", GateKind::Oai4),
        ("$_MUX_", GateKind::Mux),
        ("$_NMUX_", GateKind::Nmux),
    ]
}

pub fn gate_kind_for_yosys_cell(cell_type: &str) -> (kind: Option<GateKind>)
    ensures
        kind == kind_under(yosys_cells(), cell_type@, 0),
{
    let table: Vec<(&'static str, GateKind)> = known_yosys_cell_types();
    let mut at: usize = 0;
    while at < table.len()
        invariant
            at <= table@.len() == yosys_cells().len(),
            forall|i: int|
                0 <= i < table@.len() ==> ((#[trigger] table@[i]).0@, table@[i].1)
                    == yosys_cells()[i],
            kind_under(yosys_cells(), cell_type@, 0) == kind_under(
                yosys_cells(),
                cell_type@,
                at as int,
            ),
        decreases table@.len() - at,
    {
        assert((table@[at as int].0@, table@[at as int].1) == yosys_cells()[at as int]);
        if text::same_text(table[at].0, cell_type) {
            return Some(table[at].1);
        }
        at = at + 1;
    }
    None
}

/// A part of a template.
#[derive(Debug, Clone, Copy, PartialEq, Eq, PartialOrd, Ord, Hash, Structural)]
pub enum TemplateNode {
    Torch,
    SecondTorch,
    IsolatingRepeater(usize),
}

/// How two parts of a template stand to each other.
#[derive(Debug, Clone, Copy, PartialEq, Eq, Structural)]
pub enum EmbeddingHint {
    OppositeSides(TemplateNode, TemplateNode),
    Coplanar(TemplateNode, TemplateNode),
}

/// One way to build a gate out of primitives.
#[derive(Debug)]
pub struct Template {
    pub nodes: Vec<(TemplateNode, Primitive)>,
    pub internal_edges: Vec<(TemplateNode, TemplateNode)>,
    pub inputs: Vec<TemplateNode>,
    pub output: Option<TemplateNode>,
    pub embedding_hints: Vec<EmbeddingHint>,
}

#[derive(Debug)]
pub struct LibraryEntry {
    pub name: &'static str,
    pub template: Template,
}

/// What a [`LibraryEntry`] stands for.
#[verifier::ext_equal]
pub struct EntryView {
    pub name: Seq<char>,
    pub nodes: Seq<(TemplateNode, Primitive)>,
    pub internal_edges: Seq<(TemplateNode, TemplateNode)>,
    pub inputs: Seq<TemplateNode>,
    pub output: Option<TemplateNode>,
    pub embedding_hints: Seq<EmbeddingHint>,
}

impl View for LibraryEntry {
    type V = EntryView;

    open spec fn view(&self) -> EntryView {
        EntryView {
            name: self.name@,
            nodes: self.template.nodes@,
            internal_edges: self.template.internal_edges@,
            inputs: self.template.inputs@,
            output: self.template.output,
            embedding_hints: self.template.embedding_hints@,
        }
    }
}

/// One torch that reads every input.
pub open spec fn nor_view(arity: usize) -> EntryView {
    EntryView {
        name: if arity == 1 {
            "torch-nor1 (not)"@
        } else if arity == 2 {
            "torch-nor2"@
        } else {
            "torch-nor3"@
        },
        nodes: seq![(TemplateNode::Torch, Primitive::Torch)],
        internal_edges: seq![],
        inputs: Seq::new(arity as nat, |i: int| TemplateNode::Torch),
        output: Some(TemplateNode::Torch),
        embedding_hints: seq![],
    }
}

/// Two torches, one after the other.
pub open spec fn buf_view() -> EntryView {
    EntryView {
        name: "torch-torch-buf (buf)"@,
        nodes: seq![
            (TemplateNode::Torch, Primitive::Torch),
            (TemplateNode::SecondTorch, Primitive::Torch),
        ],
        internal_edges: seq![(TemplateNode::Torch, TemplateNode::SecondTorch)],
        inputs: seq![TemplateNode::Torch],
        output: Some(TemplateNode::SecondTorch),
        embedding_hints: seq![],
    }
}

/// Wires that simply meet.
pub open spec fn or_bare_view(arity: usize) -> EntryView {
    EntryView {
        name: if arity == 2 {
            "wire-merge-or2 (bare)"@
        } else {
            "wire-merge-or3 (bare)"@
        },
        nodes: seq![],
        internal_edges: seq![],
        inputs: seq![],
        output: None,
        embedding_hints: seq![],
    }
}

/// Wires that meet behind a repeater each, so that none feeds back.
pub open spec fn or_isolated_view(arity: usize) -> EntryView {
    EntryView {
        name: if arity == 2 {
            "wire-merge-or2 (isolated)"@
        } else {
            "wire-merge-or3 (isolated)"@
        },
        nodes: Seq::new(
            arity as nat,
            |i: int| (TemplateNode::IsolatingRepeater(i as usize), Primitive::Repeater),
        ),
        internal_edges: seq![],
        inputs: Seq::new(arity as nat, |i: int| TemplateNode::IsolatingRepeater(i as usize)),
        output: None,
        embedding_hints: seq![],
    }
}

pub fn nor_entry(arity: usize) -> (entry: LibraryEntry)
    requires
        1 <= arity <= 3,
    ensures
        entry@ == nor_view(arity),
{
    let name: &'static str = if arity == 1 {
        "torch-nor1 (not)"
    } else if arity == 2 {
        "torch-nor2"
    } else {
        "torch-nor3"
    };
    let entry = LibraryEntry {
        name,
        template: Template {
            nodes: vec![(TemplateNode::Torch, Primitive::Torch)],
            internal_edges: Vec::new(),
            inputs: vec![TemplateNode::Torch; arity],
            output: Some(TemplateNode::Torch),
            embedding_hints: Vec::new(),
        },
    };
    assert(entry@ =~= nor_view(arity));
    entry
}

pub fn buf_entry() -> (entry: LibraryEntry)
    ensures
        entry@ == buf_view(),
{
    let entry = LibraryEntry {
        name: "torch-torch-buf (buf)",
        template: Template {
            nodes: vec![
                (TemplateNode::Torch, Primitive::Torch),
                (TemplateNode::SecondTorch, Primitive::Torch),
            ],
            internal_edges: vec![(TemplateNode::Torch, TemplateNode::SecondTorch)],
            inputs: vec![TemplateNode::Torch],
            output: Some(TemplateNode::SecondTorch),
            embedding_hints: Vec::new(),
        },
    };
    assert(entry@ =~= buf_view());
    entry
}

pub fn or_bare_entry(arity: usize) -> (entry: LibraryEntry)
    requires
        2 <= arity <= 3,
    ensures
        entry@ == or_bare_view(arity),
{
    let entry = LibraryEntry {
        name: if arity == 2 {
            "wire-merge-or2 (bare)"
        } else {
            "wire-merge-or3 (bare)"
        },
        template: Template {
            nodes: Vec::new(),
            internal_edges: Vec::new(),
            inputs: Vec::new(),
            output: None,
            embedding_hints: Vec::new(),
        },
    };
    assert(entry@ =~= or_bare_view(arity));
    entry
}

pub fn or_isolated_entry(arity: usize) -> (entry: LibraryEntry)
    requires
        2 <= arity <= 3,
    ensures
        entry@ == or_isolated_view(arity),
{
    let mut nodes: Vec<(TemplateNode, Primitive)> = Vec::new();
    let mut inputs: Vec<TemplateNode> = Vec::new();
    let mut at: usize = 0;
    while at < arity
        invariant
            at <= arity,
            nodes@ == Seq::new(
                at as nat,
                |i: int| (TemplateNode::IsolatingRepeater(i as usize), Primitive::Repeater),
            ),
            inputs@ == Seq::new(at as nat, |i: int| TemplateNode::IsolatingRepeater(i as usize)),
        decreases arity - at,
    {
        nodes.push((TemplateNode::IsolatingRepeater(at), Primitive::Repeater));
        inputs.push(TemplateNode::IsolatingRepeater(at));
        at = at + 1;
    }
    let entry = LibraryEntry {
        name: if arity == 2 {
            "wire-merge-or2 (isolated)"
        } else {
            "wire-merge-or3 (isolated)"
        },
        template: Template {
            nodes,
            internal_edges: Vec::new(),
            inputs,
            output: None,
            embedding_hints: Vec::new(),
        },
    };
    assert(entry@ =~= or_isolated_view(arity));
    entry
}

/// The ways to build each kind of gate, best first.
#[derive(Debug)]
pub struct Library {
    entries: Vec<(GateKind, Vec<LibraryEntry>)>,
}

pub open spec fn entry_views(entries: Seq<LibraryEntry>) -> Seq<EntryView> {
    Seq::new(entries.len(), |i: int| entries[i]@)
}

/// The map that a list of kinds and entries makes.
pub open spec fn kinds_map(
    entries: Seq<(GateKind, Vec<LibraryEntry>)>,
) -> Map<GateKind, Seq<EntryView>>
    decreases entries.len(),
{
    if entries.len() == 0 {
        Map::empty()
    } else {
        kinds_map(entries.drop_last()).insert(entries.last().0, entry_views(entries.last().1@))
    }
}

pub open spec fn kinds_distinct(entries: Seq<(GateKind, Vec<LibraryEntry>)>) -> bool {
    forall|i: int, j: int|
        0 <= i < j < entries.len() ==> (#[trigger] entries[i]).0 != (#[trigger] entries[j]).0
}

proof fn lemma_kinds_map(entries: Seq<(GateKind, Vec<LibraryEntry>)>)
    requires
        kinds_distinct(entries),
    ensures
        forall|i: int|
            0 <= i < entries.len() ==> kinds_map(entries).dom().contains(
                (#[trigger] entries[i]).0,
            ) && kinds_map(entries)[entries[i].0] == entry_views(entries[i].1@),
        forall|kind: GateKind|
            (forall|i: int| 0 <= i < entries.len() ==> (#[trigger] entries[i]).0 != kind)
                ==> !#[trigger] kinds_map(entries).dom().contains(kind),
    decreases entries.len(),
{
    if entries.len() > 0 {
        let shorter = entries.drop_last();
        assert(kinds_distinct(shorter)) by {
            assert forall|i: int, j: int| 0 <= i < j < shorter.len() implies (
            #[trigger] shorter[i]).0 != (#[trigger] shorter[j]).0 by {
                assert(entries[i].0 != entries[j].0);
            }
        }
        lemma_kinds_map(shorter);
        assert forall|i: int| 0 <= i < entries.len() implies kinds_map(entries).dom().contains(
            (#[trigger] entries[i]).0,
        ) && kinds_map(entries)[entries[i].0] == entry_views(entries[i].1@) by {
            if i < shorter.len() {
                assert(shorter[i] == entries[i]);
                assert(entries[i].0 != entries[entries.len() - 1].0);
            }
        }
        assert forall|kind: GateKind|
            (forall|i: int|
                0 <= i < entries.len() ==> (#[trigger] entries[i]).0 != kind) implies !#[trigger] kinds_map(
            entries,
        ).dom().contains(kind) by {
            assert forall|i: int| 0 <= i < shorter.len() implies (#[trigger] shorter[i]).0 != kind by {
                assert(entries[i].0 != kind);
            }
            assert(entries[entries.len() - 1].0 != kind);
            assert(!kinds_map(shorter).dom().contains(kind));
        }
    }
}

/// A library of kinds that are listed once has for each the entries that are listed with it,
/// and for no other kind any.
pub proof fn lemma_what_a_library_holds(
    entries: Seq<(GateKind, Vec<LibraryEntry>)>,
    kind: GateKind,
    i: int,
)
    requires
        kinds_distinct(entries),
        0 <= i < entries.len(),
    ensures
        kinds_map(entries).dom().contains(entries[i].0),
        kinds_map(entries)[entries[i].0].len() == entries[i].1@.len(),
        forall|k: int|
            0 <= k < entries[i].1@.len() ==> #[trigger] kinds_map(entries)[entries[i].0][k]
                == entries[i].1@[k]@,
        kinds_map(entries).dom().contains(kind) <==> exists|j: int|
            0 <= j < entries.len() && (#[trigger] entries[j]).0 == kind,
{
    lemma_kinds_map(entries);
    assert(kinds_map(entries)[entries[i].0] == entry_views(entries[i].1@));
}

impl View for Library {
    type V = Map<GateKind, Seq<EntryView>>;

    closed spec fn view(&self) -> Map<GateKind, Seq<EntryView>> {
        kinds_map(self.entries@)
    }
}

/// What the default library holds.
pub open spec fn default_entries() -> Map<GateKind, Seq<EntryView>> {
    Map::<GateKind, Seq<EntryView>>::empty().insert(GateKind::Nor(1), seq![nor_view(1)]).insert(
        GateKind::Nor(2),
        seq![nor_view(2)],
    ).insert(GateKind::Nor(3), seq![nor_view(3)]).insert(GateKind::Buf, seq![buf_view()]).insert(
        GateKind::Or(2),
        seq![or_bare_view(2), or_isolated_view(2)],
    ).insert(GateKind::Or(3), seq![or_bare_view(3), or_isolated_view(3)])
}

impl Library {
    #[verifier::type_invariant]
    spec fn wf(self) -> bool {
        kinds_distinct(self.entries@)
    }

    pub fn new(entries: Vec<(GateKind, Vec<LibraryEntry>)>) -> (library: Library)
        requires
            kinds_distinct(entries@),
        ensures
            library@ == kinds_map(entries@),
    {
        Library { entries }
    }

    /// The entries that there is hardware for: NORs of up to three inputs, the
    /// buffer, and merges of two and three.
    pub fn default_library() -> (library: Library)
        ensures
            library@ == default_entries(),
    {
        let mut entries: Vec<(GateKind, Vec<LibraryEntry>)> = Vec::new();
        entries.push((GateKind::Nor(1), vec![nor_entry(1)]));
        entries.push((GateKind::Nor(2), vec![nor_entry(2)]));
        entries.push((GateKind::Nor(3), vec![nor_entry(3)]));
        entries.push((GateKind::Buf, vec![buf_entry()]));
        entries.push((GateKind::Or(2), vec![or_bare_entry(2), or_isolated_entry(2)]));
        entries.push((GateKind::Or(3), vec![or_bare_entry(3), or_isolated_entry(3)]));
        proof {
            reveal_with_fuel(kinds_map, 7);
            let list = entries@;
            assert(entry_views(list[0].1@) =~= seq![nor_view(1)]);
            assert(entry_views(list[1].1@) =~= seq![nor_view(2)]);
            assert(entry_views(list[2].1@) =~= seq![nor_view(3)]);
            assert(entry_views(list[3].1@) =~= seq![buf_view()]);
            assert(entry_views(list[4].1@) =~= seq![or_bare_view(2), or_isolated_view(2)]);
            assert(entry_views(list[5].1@) =~= seq![or_bare_view(3), or_isolated_view(3)]);
            assert(list.drop_last().last() == list[4]);
            assert(list.drop_last().drop_last().last() == list[3]);
            assert(list.drop_last().drop_last().drop_last().last() == list[2]);
            assert(list.drop_last().drop_last().drop_last().drop_last().last() == list[1]);
            assert(list.drop_last().drop_last().drop_last().drop_last().drop_last().last()
                == list[0]);
            assert(kinds_map(list) =~= default_entries());
        }
        Library { entries }
    }

    pub fn entries_for(&self, kind: GateKind) -> (found: &[LibraryEntry])
        ensures
            entry_views(found@) == (if self@.dom().contains(kind) {
                self@[kind]
            } else {
                seq![]
            }),
    {
        proof {
            use_type_invariant(self);
            lemma_kinds_map(self.entries@);
        }
        let mut at: usize = 0;
        while at < self.entries.len()
            invariant
                at <= self.entries@.len(),
                self@ == kinds_map(self.entries@),
                forall|i: int| 0 <= i < at ==> (#[trigger] self.entries@[i]).0 != kind,
                forall|i: int|
                    0 <= i < self.entries@.len() ==> self@.dom().contains(
                        (#[trigger] self.entries@[i]).0,
                    ) && self@[self.entries@[i].0] == entry_views(self.entries@[i].1@),
            decreases self.entries@.len() - at,
        {
            if self.entries[at].0 == kind {
                return self.entries[at].1.as_slice();
            }
            at = at + 1;
        }
        let none: &[LibraryEntry] = &[];
        assert(entry_views(none@) =~= seq![]);
        none
    }

    /// The best way to build a gate, if there is one.
    pub fn first_choice(&self, kind: GateKind) -> (entry: Option<&LibraryEntry>)
        ensures
            match entry {
                Some(found) => self@.dom().contains(kind) && self@[kind].len() > 0 && found@
                    == self@[kind][0],
                None => !self@.dom().contains(kind) || self@[kind].len() == 0,
            },
    {
        let entries: &[LibraryEntry] = self.entries_for(kind);
        let ghost views = entry_views(entries@);
        assert(views.len() == entries@.len());
        if entries.len() == 0 {
            None
        } else {
            assert(views[0] == entries@[0]@);
            Some(&entries[0])
        }
    }
}

/// The node is one of the entry's own.
pub open spec fn has_node(entry: EntryView, node: TemplateNode) -> bool {
    exists|i: int| 0 <= i < entry.nodes.len() && (#[trigger] entry.nodes[i]).0 == node
}

/// An entry speaks of no nodes but its own, each of which it has once.
pub open spec fn speaks_of_its_own(entry: EntryView) -> bool {
    &&& forall|i: int, j: int|
        0 <= i < j < entry.nodes.len() ==> (#[trigger] entry.nodes[i]).0 != (
        #[trigger] entry.nodes[j]).0
    &&& forall|i: int|
        0 <= i < entry.internal_edges.len() ==> has_node(
            entry,
            (#[trigger] entry.internal_edges[i]).0,
        ) && has_node(entry, entry.internal_edges[i].1)
    &&& forall|i: int| 0 <= i < entry.inputs.len() ==> has_node(entry, #[trigger] entry.inputs[i])
    &&& entry.output matches Some(node) ==> has_node(entry, node)
}

/// Every entry of the default library speaks of its own nodes alone. It has a place
/// for each input, unless it is built of nothing; the inputs of a merge share no
/// repeater; and a signal leaves from one of its nodes, unless it is a merge.
pub proof fn lemma_default_templates(kind: GateKind, at: int)
    requires
        default_entries().dom().contains(kind),
        0 <= at < default_entries()[kind].len(),
    ensures
        ({
            let entry = default_entries()[kind][at];
            &&& speaks_of_its_own(entry)
            &&& entry.nodes.len() > 0 ==> entry.inputs.len() == kind_arity(kind)
            &&& entry.nodes.len() == 0 ==> entry.inputs.len() == 0
            &&& entry.output is None <==> kind is Or
            &&& kind is Or ==> forall|i: int, j: int|
                0 <= i < j < entry.inputs.len() ==> #[trigger] entry.inputs[i]
                    != #[trigger] entry.inputs[j]
        }),
{
    let entry = default_entries()[kind][at];
    match kind {
        GateKind::Or(arity) => {
            if at == 1 {
                assert forall|i: int| 0 <= i < entry.inputs.len() implies has_node(
                    entry,
                    #[trigger] entry.inputs[i],
                ) by {
                    assert(entry.nodes[i].0 == entry.inputs[i]);
                }
            }
        },
        GateKind::Buf => {
            assert(entry.nodes[0].0 == TemplateNode::Torch);
            assert(entry.nodes[1].0 == TemplateNode::SecondTorch);
        },
        _ => {
            assert(entry.nodes[0].0 == TemplateNode::Torch);
        },
    }
}

} // verus!
