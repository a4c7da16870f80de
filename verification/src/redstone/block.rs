//! What a cell of a world holds.

use crate::properties::Properties;
use crate::text;
use vstd::prelude::*;

verus! {

/// The kinds of block that behave differently.
#[derive(Debug, Clone, Copy, PartialEq, Eq, Structural)]
pub enum BlockKind {
    Air,
    Solid,
    Glass,
    Slab,
    RedstoneWire,
    Repeater,
    Comparator,
    Torch,
    WallTorch,
    Lever,
    RedstoneBlock,
    Lamp,
    Piston,
    Observer,
    Target,
    DaylightDetector,
    Button,
    PressurePlate,
    WeightedPressurePlate,
    Other,
}

/// A direction along one axis.
#[derive(Debug, Clone, Copy, PartialEq, Eq, Structural)]
pub enum Facing {
    North,
    South,
    East,
    West,
    Up,
    Down,
}

/// What an attached block hangs on.
#[derive(Debug, Clone, Copy, PartialEq, Eq, Structural)]
pub enum Face {
    Floor,
    Wall,
    Ceiling,
}

/// Which part of its cell a slab fills.
#[derive(Debug, Clone, Copy, PartialEq, Eq, Structural)]
pub enum SlabHalf {
    Top,
    Bottom,
    Double,
}

/// One block with its state.
///
/// What the simulator knows of stands in fields of its own; every other
/// property is kept as it was read, in `extra_properties`.
#[derive(Debug)]
pub struct BlockState {
    pub kind: BlockKind,
    pub facing: Option<Facing>,
    pub face: Option<Face>,
    pub power: u8,
    pub delay: u8,
    pub lit: bool,
    pub half: Option<SlabHalf>,
    pub name: String,
    pub extra_properties: Properties,
}

/// What a [`BlockState`] stands for.
pub struct BlockView {
    pub kind: BlockKind,
    pub facing: Option<Facing>,
    pub face: Option<Face>,
    pub power: u8,
    pub delay: u8,
    pub lit: bool,
    pub half: Option<SlabHalf>,
    pub name: Seq<char>,
    pub extra_properties: Map<Seq<char>, Seq<char>>,
}

impl View for BlockState {
    type V = BlockView;

    open spec fn view(&self) -> BlockView {
        BlockView {
            kind: self.kind,
            facing: self.facing,
            face: self.face,
            power: self.power,
            delay: self.delay,
            lit: self.lit,
            half: self.half,
            name: self.name@,
            extra_properties: self.extra_properties@,
        }
    }
}

/// Nothing at all.
pub open spec fn air() -> BlockView {
    BlockView {
        kind: BlockKind::Air,
        facing: None,
        face: None,
        power: 0,
        delay: 0,
        lit: false,
        half: None,
        name: "minecraft:air"@,
        extra_properties: Map::empty(),
    }
}

impl BlockState {
    /// Nothing at all.
    pub fn air() -> (state: BlockState)
        ensures
            state@ == air(),
    {
        BlockState::plain(BlockKind::Air, "minecraft:air")
    }

    /// A block of `kind` with nothing set.
    pub fn plain(kind: BlockKind, name: &str) -> (state: BlockState)
        ensures
            state@ == (BlockView { kind, name: name@, ..air() }),
    {
        BlockState {
            kind,
            facing: None,
            face: None,
            power: 0,
            delay: 0,
            lit: false,
            half: None,
            name: name.to_owned(),
            extra_properties: Properties::new(),
        }
    }

    /// Whether two blocks are in the same state.
    pub fn same(&self, other: &BlockState) -> (equal: bool)
        ensures
            equal == (self@ == other@),
    {
        self.kind == other.kind && self.facing == other.facing && self.face == other.face
            && self.power == other.power && self.delay == other.delay && self.lit == other.lit
            && self.half == other.half && text::same_text(self.name.as_str(), other.name.as_str())
            && self.extra_properties.same(&other.extra_properties)
    }
}

impl Clone for BlockState {
    fn clone(&self) -> (copy: BlockState)
        ensures
            copy@ == self@,
    {
        BlockState {
            kind: self.kind,
            facing: self.facing,
            face: self.face,
            power: self.power,
            delay: self.delay,
            lit: self.lit,
            half: self.half,
            name: self.name.clone(),
            extra_properties: self.extra_properties.duplicate(),
        }
    }
}

} // verus!
