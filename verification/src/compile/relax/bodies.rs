//! The bodies of a circuit, and the springs and welds between them.

use crate::compile::circuit;
use crate::compile::netlist;
use crate::compile::topology::Primitive;
use crate::redstone::block::{BlockKind, Facing};
use crate::redstone::position;
use crate::redstone::position::Position;
use vstd::prelude::*;

verus! {

/// One of the four ways in which a cell can be turned.
#[derive(Debug, Clone, Copy, PartialEq, Eq, PartialOrd, Ord, Hash, Structural)]
pub enum CellFacing {
    North,
    East,
    South,
    West,
}

pub open spec fn facing_index(facing: CellFacing) -> int {
    match facing {
        CellFacing::North => 0,
        CellFacing::East => 1,
        CellFacing::South => 2,
        CellFacing::West => 3,
    }
}

impl CellFacing {
    pub fn index(self) -> (index: usize)
        ensures
            index == facing_index(self),
    {
        match self {
            CellFacing::North => 0,
            CellFacing::East => 1,
            CellFacing::South => 2,
            CellFacing::West => 3,
        }
    }

    pub fn from_index(index: usize) -> (facing: Option<CellFacing>)
        ensures
            match facing {
                Some(found) => facing_index(found) == index,
                None => index >= 4,
            },
    {
        match index {
            0 => Some(CellFacing::North),
            1 => Some(CellFacing::East),
            2 => Some(CellFacing::South),
            3 => Some(CellFacing::West),
            _ => None,
        }
    }
}

/// A place at which a component takes or gives a signal.
#[derive(Debug, Clone, Copy, PartialEq, Eq, Structural)]
pub enum PortKind {
    RepeaterRear,
    RepeaterFront,
    RepeaterSide,
}

#[derive(Debug, Clone, Copy, PartialEq, Eq, Structural)]
pub enum RelativeSide {
    Left,
    Right,
}

#[derive(Debug, Clone, Copy, PartialEq, Eq, Structural)]
pub struct Port {
    pub kind: PortKind,
    pub side: Option<RelativeSide>,
    pub position: Position,
}

/// A block of a component, by where it stands.
#[derive(Debug, Clone, Copy, PartialEq, Eq, Structural)]
pub struct Part {
    pub position: Position,
    pub kind: BlockKind,
}

/// A component turned one way.
#[derive(Debug)]
pub struct Variant {
    pub parts: Vec<Part>,
    pub ports: Vec<Port>,
}

/// The sides on which a cell that is turned one way has its inputs and its
/// output.
#[derive(Debug)]
pub struct Frame {
    pub inputs: Vec<Facing>,
    pub output: Facing,
}

/// How cells and components look, turned each of the four ways. A component that
/// cannot be placed has no variants.
#[derive(Debug)]
pub struct Catalogue {
    pub frames: Vec<Frame>,
    pub torch: Vec<Variant>,
    pub repeater: Vec<Variant>,
    pub comparator: Vec<Variant>,
    pub lever: Vec<Variant>,
    pub lamp: Vec<Variant>,
}

impl Catalogue {
    pub open spec fn wf(self) -> bool {
        &&& self.frames@.len() == 4
        &&& forall|primitive: Primitive|
            (#[trigger] self.of(primitive))@.len() == 0 || self.of(primitive)@.len() == 4
    }

    pub open spec fn of(self, primitive: Primitive) -> Vec<Variant> {
        match primitive {
            Primitive::Torch => self.torch,
            Primitive::Repeater => self.repeater,
            Primitive::Comparator => self.comparator,
            Primitive::Lever => self.lever,
            Primitive::Lamp => self.lamp,
        }
    }

    pub open spec fn frame(self, facing: CellFacing) -> Frame {
        self.frames@[facing_index(facing)]
    }

    /// The variants of a component.
    pub fn variants(&self, primitive: Primitive) -> (variants: &Vec<Variant>)
        ensures
            *variants == self.of(primitive),
    {
        match primitive {
            Primitive::Torch => &self.torch,
            Primitive::Repeater => &self.repeater,
            Primitive::Comparator => &self.comparator,
            Primitive::Lever => &self.lever,
            Primitive::Lamp => &self.lamp,
        }
    }
}

#[derive(Debug, Clone, Copy, PartialEq, Eq, Structural)]
pub enum BodyKind {
    /// A component, by its node in the graph.
    Primitive { node: usize, kind: Primitive },
    /// The point at which the wires of a merge meet, by its gate.
    Junction { gate: usize },
}

/// Something that has a place.
#[derive(Debug)]
pub struct Body {
    pub what: BodyKind,
    pub position: Position,
    /// The signals that it reads.
    pub inputs: Vec<String>,
    /// The signal that it drives, if it drives one of its own.
    pub output: Option<String>,
    pub facing: CellFacing,
    /// Whether it must stay where it is.
    pub pinned: bool,
}

/// Where on a body a spring is tied.
#[derive(Debug, Clone, Copy, PartialEq, Eq, Structural)]
pub enum Attach {
    Socket(usize),
    Pin,
    Port(PortKind),
}

/// A spring between two bodies.
#[derive(Debug, Clone, Copy, PartialEq, Eq)]
pub struct Pull {
    pub from: (usize, Attach),
    pub to: (usize, Attach),
}

/// Two bodies that stand at a fixed distance.
#[derive(Debug, Clone, Copy, PartialEq, Eq, Structural)]
pub enum Weld {
    /// A repeater in a socket of a junction.
    AtSocket { repeater: usize, junction: usize, input_index: usize },
    /// A repeater beside another, to lock it.
    BesideAt { lock: usize, data: usize, side: RelativeSide },
}

#[derive(Debug)]
pub struct BodyGraph {
    pub bodies: Vec<Body>,
    pub pulls: Vec<Pull>,
    pub welds: Vec<Weld>,
    /// The bodies of each gate, and then of each input.
    pub nodes: Vec<Vec<usize>>,
    /// The body that a gate or an input is placed by.
    pub anchor_body: Vec<usize>,
}

/// What a [`Body`] stands for.
#[verifier::ext_equal]
pub struct BodyView {
    pub what: BodyKind,
    pub position: Position,
    pub inputs: Seq<Seq<char>>,
    pub output: Option<Seq<char>>,
    pub facing: CellFacing,
    pub pinned: bool,
}

impl View for Body {
    type V = BodyView;

    open spec fn view(&self) -> BodyView {
        BodyView {
            what: self.what,
            position: self.position,
            inputs: netlist::texts(self.inputs@),
            output: match self.output {
                Some(name) => Some(name@),
                None => None,
            },
            facing: self.facing,
            pinned: self.pinned,
        }
    }
}

pub open spec fn body_views(bodies: Seq<Body>) -> Seq<BodyView> {
    Seq::new(bodies.len(), |i: int| bodies[i]@)
}

pub open spec fn hops_of(what: BodyKind) -> int {
    match what {
        BodyKind::Primitive { node, kind } => if kind == Primitive::Torch {
            2
        } else {
            1
        },
        BodyKind::Junction { gate } => 1,
    }
}

/// How far from a body its output is picked up. A torch stands in the first cell
/// out, and so its output is one further.
pub fn pin_hops(body: &Body) -> (hops: i32)
    ensures
        hops == hops_of(body.what),
{
    match body.what {
        BodyKind::Primitive { kind, .. } => match kind {
            Primitive::Torch => 2,
            _ => 1,
        },
        BodyKind::Junction { .. } => 1,
    }
}

/// So many steps in a direction, from the middle.
pub open spec fn steps_out(direction: Facing, count: int) -> Position {
    match direction {
        Facing::North => Position { x: 0, y: 0, z: (-count) as i32 },
        Facing::South => Position { x: 0, y: 0, z: count as i32 },
        Facing::East => Position { x: count as i32, y: 0, z: 0 },
        Facing::West => Position { x: (-count) as i32, y: 0, z: 0 },
        Facing::Up => Position { x: 0, y: count as i32, z: 0 },
        Facing::Down => Position { x: 0, y: (-count) as i32, z: 0 },
    }
}

fn walk_out(direction: Facing, count: i32) -> (cell: Position)
    requires
        0 <= count <= 2,
    ensures
        cell == steps_out(direction, count as int),
{
    match direction {
        Facing::North => Position::new(0, 0, -count),
        Facing::South => Position::new(0, 0, count),
        Facing::East => Position::new(count, 0, 0),
        Facing::West => Position::new(-count, 0, 0),
        Facing::Up => Position::new(0, count, 0),
        Facing::Down => Position::new(0, -count, 0),
    }
}

/// The first port of a kind, from one on.
pub open spec fn port_from(ports: Seq<Port>, kind: PortKind, from: int) -> Option<Port>
    decreases ports.len() - from,
{
    if from < 0 || from >= ports.len() {
        None
    } else if ports[from].kind == kind {
        Some(ports[from])
    } else {
        port_from(ports, kind, from + 1)
    }
}

/// The component of a body, turned as the body is.
pub open spec fn variant_of(catalogue: Catalogue, what: BodyKind, facing: CellFacing) -> Variant {
    catalogue.of(what->kind)@[facing_index(facing)]
}

/// The spring can be tied there: the socket is one of the cell's, the port one of
/// the component's.
pub open spec fn attachable(catalogue: Catalogue, attach: Attach, body: Body) -> bool {
    match attach {
        Attach::Socket(index) => index < catalogue.frame(body.facing).inputs@.len(),
        Attach::Pin => true,
        Attach::Port(kind) => {
            &&& body.what is Primitive
            &&& catalogue.of(body.what->kind)@.len() == 4
            &&& port_from(
                variant_of(catalogue, body.what, body.facing).ports@,
                kind,
                0,
            ) is Some
        },
    }
}

/// Where a spring is tied, from the middle of its body.
pub open spec fn offset_of(
    catalogue: Catalogue,
    attach: Attach,
    what: BodyKind,
    facing: CellFacing,
) -> Position {
    match attach {
        Attach::Socket(index) => steps_out(catalogue.frame(facing).inputs@[index as int], 1),
        Attach::Pin => steps_out(catalogue.frame(facing).output, hops_of(what)),
        Attach::Port(kind) => port_from(
            variant_of(catalogue, what, facing).ports@,
            kind,
            0,
        )->0.position,
    }
}

pub fn attach_offset(catalogue: &Catalogue, attach: Attach, body: &Body) -> (offset: Position)
    requires
        catalogue.wf(),
        attachable(*catalogue, attach, *body),
    ensures
        offset == offset_of(*catalogue, attach, body.what, body.facing),
{
    let index: usize = body.facing.index();
    match attach {
        Attach::Socket(socket) => walk_out(catalogue.frames[index].inputs[socket], 1),
        Attach::Pin => walk_out(catalogue.frames[index].output, pin_hops(body)),
        Attach::Port(kind) => {
            let primitive: Primitive = match body.what {
                BodyKind::Primitive { kind: found, .. } => found,
                BodyKind::Junction { .. } => Primitive::Repeater,
            };
            let ports: &Vec<Port> = &catalogue.variants(primitive)[index].ports;
            match find_port(ports, kind) {
                Some(port) => port.position,
                None => Position::new(0, 0, 0),
            }
        },
    }
}

fn find_port(ports: &Vec<Port>, kind: PortKind) -> (found: Option<Port>)
    ensures
        found == port_from(ports@, kind, 0),
{
    let mut at: usize = 0;
    while at < ports.len()
        invariant
            at <= ports@.len(),
            port_from(ports@, kind, 0) == port_from(ports@, kind, at as int),
        decreases ports@.len() - at,
    {
        if ports[at].kind == kind {
            return Some(ports[at]);
        }
        at = at + 1;
    }
    None
}

/// A cell that a body takes up, by where it is from the body's middle, and the
/// signals that stand in it. A cell without a signal keeps nothing out.
#[derive(Debug, PartialEq, Eq)]
pub struct Cell {
    pub offset: (i32, i32, i32),
    pub carries: Vec<String>,
}

/// What a [`Cell`] stands for.
#[verifier::ext_equal]
pub struct CellView {
    pub offset: (i32, i32, i32),
    pub carries: Seq<Seq<char>>,
}

impl View for Cell {
    type V = CellView;

    open spec fn view(&self) -> CellView {
        CellView { offset: self.offset, carries: netlist::texts(self.carries@) }
    }
}

pub open spec fn cell_list(cells: Seq<Cell>) -> Seq<CellView> {
    Seq::new(cells.len(), |i: int| cells[i]@)
}

pub open spec fn triple(cell: Position) -> (i32, i32, i32) {
    (cell.x, cell.y, cell.z)
}

/// The cell that a gate reads in: on the net of every input, or on its own where
/// it has none.
pub open spec fn sink_cell(inputs: Seq<Seq<char>>, output: Seq<char>) -> CellView {
    CellView {
        offset: (0, 0, 0),
        carries: if inputs.len() == 0 {
            seq![output]
        } else {
            inputs
        },
    }
}

/// The first `count` sockets, each on the net of its input.
pub open spec fn socket_cells(frame: Frame, inputs: Seq<Seq<char>>, count: nat) -> Seq<CellView> {
    Seq::new(
        count,
        |i: int|
            CellView { offset: triple(steps_out(frame.inputs@[i], 1)), carries: seq![inputs[i]] },
    )
}

/// The first `count` cells out, on the net that is driven.
pub open spec fn pin_cells(frame: Frame, output: Seq<char>, count: nat) -> Seq<CellView> {
    Seq::new(
        count,
        |i: int|
            CellView { offset: triple(steps_out(frame.output, i + 1)), carries: seq![output] },
    )
}

/// The floors under a body: under a junction, and under a lever and its pin.
pub open spec fn floor_cells(frame: Frame, what: BodyKind) -> Seq<CellView> {
    let bare = CellView { offset: (0, -1i32, 0), carries: seq![] };
    match what {
        BodyKind::Junction { gate } => seq![bare],
        BodyKind::Primitive { node, kind } => if kind == Primitive::Lever {
            let pin = steps_out(frame.output, hops_of(what));
            seq![bare, CellView { offset: (pin.x, (pin.y - 1) as i32, pin.z), carries: seq![] }]
        } else {
            seq![]
        },
    }
}

/// The first `count` blocks of a component that drives no net of its own: each is
/// on the net that it repeats, but for what is merely solid.
pub open spec fn part_cells(parts: Seq<Part>, repeated: Seq<char>, count: nat) -> Seq<CellView> {
    Seq::new(
        count,
        |i: int|
            CellView {
                offset: triple(parts[i].position),
                carries: if parts[i].kind == BlockKind::Solid {
                    seq![]
                } else {
                    seq![repeated]
                },
            },
    )
}

/// The cells that a body takes up.
pub open spec fn cells_of(catalogue: Catalogue, body: BodyView) -> Seq<CellView> {
    let frame = catalogue.frame(body.facing);
    match body.output {
        Some(output) => seq![sink_cell(body.inputs, output)] + socket_cells(
            frame,
            body.inputs,
            body.inputs.len(),
        ) + pin_cells(frame, output, hops_of(body.what) as nat) + floor_cells(frame, body.what),
        None => {
            let parts = variant_of(catalogue, body.what, body.facing).parts@;
            part_cells(parts, body.inputs[0], parts.len())
        },
    }
}

/// The body has a face for each of its inputs; a body that drives nothing is a
/// component that repeats an input.
pub open spec fn body_ok(catalogue: Catalogue, body: Body) -> bool {
    match body.output {
        Some(_) => body.inputs@.len() <= catalogue.frame(body.facing).inputs@.len(),
        None => body.what is Primitive && catalogue.of(body.what->kind)@.len() == 4
            && body.inputs@.len() > 0,
    }
}

pub fn one_name(name: &str) -> (names: Vec<String>)
    ensures
        netlist::texts(names@) == seq![name@],
{
    let names: Vec<String> = vec![name.to_owned()];
    assert(netlist::texts(names@) =~= seq![name@]);
    names
}

pub fn no_names() -> (names: Vec<String>)
    ensures
        netlist::texts(names@) == Seq::<Seq<char>>::empty(),
{
    let names: Vec<String> = Vec::new();
    assert(netlist::texts(names@) =~= Seq::<Seq<char>>::empty());
    names
}

pub fn copy_names(list: &Vec<String>) -> (copies: Vec<String>)
    ensures
        netlist::texts(copies@) == netlist::texts(list@),
{
    let mut copies: Vec<String> = Vec::new();
    let mut at: usize = 0;
    while at < list.len()
        invariant
            at <= list@.len(),
            copies@.len() == at,
            forall|i: int| 0 <= i < at ==> (#[trigger] copies@[i])@ == list@[i]@,
        decreases list@.len() - at,
    {
        copies.push(list[at].as_str().to_owned());
        at = at + 1;
    }
    assert(netlist::texts(copies@) =~= netlist::texts(list@));
    copies
}

fn push_cell(list: &mut Vec<Cell>, offset: (i32, i32, i32), carries: Vec<String>)
    ensures
        cell_list(final(list)@) == cell_list(old(list)@).push(
            (CellView { offset, carries: netlist::texts(carries@) }),
        ),
{
    let ghost before = cell_list(list@);
    list.push(Cell { offset, carries });
    assert(cell_list(list@) =~= before.push(list@.last()@));
}

/// The cells that a body takes up.
pub fn cells(catalogue: &Catalogue, body: &Body) -> (taken: Vec<Cell>)
    requires
        catalogue.wf(),
        body_ok(*catalogue, *body),
    ensures
        cell_list(taken@) == cells_of(*catalogue, body@),
{
    let index: usize = body.facing.index();
    let mut taken: Vec<Cell> = Vec::new();
    let ghost view = body@;
    assert(cell_list(taken@) =~= seq![]);
    if let Some(output) = &body.output {
        let frame: &Frame = &catalogue.frames[index];
        let ghost name = output@;
        let names: Vec<String> = if body.inputs.len() == 0 {
            one_name(output.as_str())
        } else {
            copy_names(&body.inputs)
        };
        push_cell(&mut taken, (0, 0, 0), names);
        let ghost first = seq![sink_cell(view.inputs, name)];
        assert(cell_list(taken@) =~= first);
        let mut at: usize = 0;
        assert(first + socket_cells(*frame, view.inputs, 0) =~= first);
        while at < body.inputs.len()
            invariant
                view == body@,
                frame.inputs@.len() >= body.inputs@.len(),
                at <= body.inputs@.len(),
                cell_list(taken@) == first + socket_cells(*frame, view.inputs, at as nat),
            decreases body.inputs@.len() - at,
        {
            let step: Position = walk_out(frame.inputs[at], 1);
            let carried: Vec<String> = one_name(body.inputs[at].as_str());
            assert(view.inputs[at as int] == body.inputs@[at as int]@);
            push_cell(&mut taken, (step.x, step.y, step.z), carried);
            at = at + 1;
            proof {
                let more = socket_cells(*frame, view.inputs, at as nat);
                let some = socket_cells(*frame, view.inputs, (at - 1) as nat);
                assert(first + more =~= (first + some).push(more[at - 1]));
            }
        }
        let ghost second = first + socket_cells(*frame, view.inputs, view.inputs.len());
        let hops: i32 = pin_hops(body);
        let mut hop: i32 = 0;
        assert(second + pin_cells(*frame, name, 0) =~= second);
        while hop < hops
            invariant
                0 <= hop <= hops <= 2,
                name == output@,
                cell_list(taken@) == second + pin_cells(*frame, name, hop as nat),
            decreases hops - hop,
        {
            hop = hop + 1;
            let step: Position = walk_out(frame.output, hop);
            push_cell(&mut taken, (step.x, step.y, step.z), one_name(output.as_str()));
            proof {
                let more = pin_cells(*frame, name, hop as nat);
                let some = pin_cells(*frame, name, (hop - 1) as nat);
                assert(second + more =~= (second + some).push(more[hop - 1]));
            }
        }
        let ghost third = second + pin_cells(*frame, name, hops as nat);
        let ghost bare = CellView { offset: (0, -1i32, 0), carries: seq![] };
        match body.what {
            BodyKind::Junction { .. } => {
                push_cell(&mut taken, (0, -1, 0), no_names());
                assert(cell_list(taken@) =~= third + seq![bare]);
            },
            BodyKind::Primitive { kind, .. } => {
                if kind == Primitive::Lever {
                    let pin: Position = walk_out(frame.output, hops);
                    push_cell(&mut taken, (0, -1, 0), no_names());
                    push_cell(&mut taken, (pin.x, pin.y - 1, pin.z), no_names());
                    assert(cell_list(taken@) =~= third + floor_cells(*frame, body.what));
                } else {
                    assert(third + floor_cells(*frame, body.what) =~= third);
                }
            },
        }
    } else {
        let primitive: Primitive = match body.what {
            BodyKind::Primitive { kind, .. } => kind,
            BodyKind::Junction { .. } => Primitive::Repeater,
        };
        let parts: &Vec<Part> = &catalogue.variants(primitive)[index].parts;
        let repeated: &String = &body.inputs[0];
        assert(view.inputs[0] == repeated@);
        let mut at: usize = 0;
        assert(cell_list(taken@) =~= part_cells(parts@, repeated@, 0));
        while at < parts.len()
            invariant
                at <= parts@.len(),
                cell_list(taken@) == part_cells(parts@, repeated@, at as nat),
            decreases parts@.len() - at,
        {
            let part: Part = parts[at];
            let carried: Vec<String> = if part.kind == BlockKind::Solid {
                no_names()
            } else {
                one_name(repeated.as_str())
            };
            push_cell(&mut taken, (part.position.x, part.position.y, part.position.z), carried);
            at = at + 1;
            proof {
                let more = part_cells(parts@, repeated@, at as nat);
                let some = part_cells(parts@, repeated@, (at - 1) as nat);
                assert(more =~= some.push(more[at - 1]));
            }
        }
    }
    taken
}

} // verus!
