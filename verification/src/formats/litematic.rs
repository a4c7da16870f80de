//! The `.litematic` schematic: what a file says of a world, and a world as a
//! file.
//!
//! Schema version 7, sub-version 1 is written; version 6 is read too. Both
//! encode their blocks alike.

use crate::formats::bitpack;
use crate::formats::nbt::FormatError;
use crate::properties::Properties;
use crate::redstone::block::{BlockKind, BlockState, BlockView, Face, Facing, SlabHalf};
use crate::redstone::world;
use crate::redstone::world::{Palette, World};
use crate::text;
use vstd::arithmetic::power2;
use vstd::prelude::*;

verus! {

/// The schema that is written.
pub const SCHEMATIC_VERSION: i32 = 7;

pub const SCHEMATIC_SUB_VERSION: i32 = 1;

/// The latest schema that is read.
pub const MAX_SUPPORTED_VERSION: i32 = 7;

/// The earliest schema that is read.
pub const MIN_SUPPORTED_VERSION: i32 = 6;

/// The data version of the game release that files are written for.
pub const DATA_VERSION_26_2: i32 = 4903;

#[derive(Debug)]
pub struct LitematicFile {
    pub minecraft_data_version: i32,
    pub version: i32,
    pub sub_version: i32,
    pub metadata: Metadata,
    pub regions: Vec<(String, Region)>,
}

#[derive(Debug)]
pub struct Metadata {
    pub name: String,
    pub author: String,
    pub description: String,
    pub region_count: i32,
    pub total_volume: i32,
    pub total_blocks: i32,
    pub time_created: i64,
    pub time_modified: i64,
    pub enclosing_size: Vec3,
}

#[derive(Debug, Clone, Copy, PartialEq, Eq, Structural)]
pub struct Vec3 {
    pub x: i32,
    pub y: i32,
    pub z: i32,
}

#[derive(Debug)]
pub struct Region {
    pub position: Vec3,
    /// How far the region goes along each axis; negative towards the negative
    /// end.
    pub size: Vec3,
    pub block_state_palette: Vec<PaletteEntry>,
    pub block_states: Vec<i64>,
}

#[derive(Debug)]
pub struct PaletteEntry {
    pub name: String,
    pub properties: Properties,
}

/// Whether `name` ends with `tail`.
pub open spec fn ends_with(name: Seq<char>, tail: Seq<char>) -> bool {
    name.len() >= tail.len() && name.skip(name.len() - tail.len()) == tail
}

/// The kind of the block with a given name.
pub open spec fn kind_for(name: Seq<char>) -> BlockKind {
    if name == "minecraft:air"@ || name == "minecraft:cave_air"@ || name
        == "minecraft:void_air"@ {
        BlockKind::Air
    } else if name == "minecraft:redstone_wire"@ {
        BlockKind::RedstoneWire
    } else if name == "minecraft:repeater"@ {
        BlockKind::Repeater
    } else if name == "minecraft:comparator"@ {
        BlockKind::Comparator
    } else if name == "minecraft:redstone_torch"@ {
        BlockKind::Torch
    } else if name == "minecraft:redstone_wall_torch"@ {
        BlockKind::WallTorch
    } else if name == "minecraft:lever"@ {
        BlockKind::Lever
    } else if name == "minecraft:redstone_block"@ {
        BlockKind::RedstoneBlock
    } else if name == "minecraft:redstone_lamp"@ {
        BlockKind::Lamp
    } else if name == "minecraft:piston"@ || name == "minecraft:sticky_piston"@ {
        BlockKind::Piston
    } else if name == "minecraft:glass"@ || name == "minecraft:tinted_glass"@ || name
        == "minecraft:glowstone"@ || name == "minecraft:sea_lantern"@ || name == "minecraft:tnt"@
        || name == "minecraft:ice"@ {
        BlockKind::Glass
    } else if ends_with(name, "_slab"@) {
        BlockKind::Slab
    } else if name == "minecraft:stone"@ || name == "minecraft:smooth_stone"@ || name
        == "minecraft:cobblestone"@ || name == "minecraft:dirt"@ || name
        == "minecraft:oak_planks"@ {
        BlockKind::Solid
    } else if name == "minecraft:observer"@ {
        BlockKind::Observer
    } else if name == "minecraft:target"@ {
        BlockKind::Target
    } else if name == "minecraft:daylight_detector"@ {
        BlockKind::DaylightDetector
    } else if ends_with(name, "_button"@) {
        BlockKind::Button
    } else if ends_with(name, "_weighted_pressure_plate"@) {
        BlockKind::WeightedPressurePlate
    } else if ends_with(name, "_pressure_plate"@) {
        BlockKind::PressurePlate
    } else {
        BlockKind::Other
    }
}

/// Whether a property of a kind of block is read into a field of its own.
///
/// Every other property is kept as it is and written back as it was, so a new
/// block loses nothing on the way through.
pub open spec fn is_structured(kind: BlockKind, key: Seq<char>) -> bool {
    match kind {
        BlockKind::RedstoneWire => key == "power"@,
        BlockKind::Repeater => key == "facing"@ || key == "delay"@ || key == "powered"@,
        BlockKind::Comparator => key == "facing"@ || key == "powered"@,
        BlockKind::WallTorch => key == "facing"@ || key == "lit"@,
        BlockKind::Torch | BlockKind::Lamp => key == "lit"@,
        BlockKind::Lever => key == "face"@ || key == "facing"@ || key == "powered"@,
        BlockKind::Piston => key == "facing"@,
        BlockKind::Slab => key == "type"@,
        BlockKind::Button => key == "face"@ || key == "powered"@,
        BlockKind::PressurePlate => key == "powered"@,
        BlockKind::WeightedPressurePlate => key == "power"@,
        BlockKind::Observer => key == "facing"@ || key == "powered"@,
        BlockKind::Target | BlockKind::DaylightDetector => key == "power"@,
        _ => false,
    }
}

/// The value that a kind of block reads under `key`.
pub open spec fn read_value(
    kind: BlockKind,
    properties: Map<Seq<char>, Seq<char>>,
    key: Seq<char>,
) -> Option<Seq<char>> {
    if is_structured(kind, key) && properties.dom().contains(key) {
        Some(properties[key])
    } else {
        None
    }
}

pub open spec fn facing_named(name: Seq<char>) -> Option<Facing> {
    if name == "north"@ {
        Some(Facing::North)
    } else if name == "south"@ {
        Some(Facing::South)
    } else if name == "east"@ {
        Some(Facing::East)
    } else if name == "west"@ {
        Some(Facing::West)
    } else if name == "up"@ {
        Some(Facing::Up)
    } else if name == "down"@ {
        Some(Facing::Down)
    } else {
        None
    }
}

pub open spec fn facing_name(facing: Facing) -> Seq<char> {
    match facing {
        Facing::North => "north"@,
        Facing::South => "south"@,
        Facing::East => "east"@,
        Facing::West => "west"@,
        Facing::Up => "up"@,
        Facing::Down => "down"@,
    }
}

pub open spec fn face_named(name: Seq<char>) -> Option<Face> {
    if name == "floor"@ {
        Some(Face::Floor)
    } else if name == "wall"@ {
        Some(Face::Wall)
    } else if name == "ceiling"@ {
        Some(Face::Ceiling)
    } else {
        None
    }
}

pub open spec fn face_name(face: Face) -> Seq<char> {
    match face {
        Face::Floor => "floor"@,
        Face::Wall => "wall"@,
        Face::Ceiling => "ceiling"@,
    }
}

pub open spec fn half_named(name: Seq<char>) -> Option<SlabHalf> {
    if name == "top"@ {
        Some(SlabHalf::Top)
    } else if name == "bottom"@ {
        Some(SlabHalf::Bottom)
    } else if name == "double"@ {
        Some(SlabHalf::Double)
    } else {
        None
    }
}

pub open spec fn half_name(half: SlabHalf) -> Seq<char> {
    match half {
        SlabHalf::Top => "top"@,
        SlabHalf::Bottom => "bottom"@,
        SlabHalf::Double => "double"@,
    }
}

pub open spec fn flag_name(flag: bool) -> Seq<char> {
    if flag {
        "true"@
    } else {
        "false"@
    }
}

/// The small number that a text states: decimal digits, with a plus sign in
/// front or none, and at most 255.
pub open spec fn small_number(written: Seq<char>) -> Option<nat> {
    let digits = if written.len() > 1 && written[0] == '+' {
        written.skip(1)
    } else {
        written
    };
    if digits.len() > 0 && text::all_digits(digits) && text::digits_value(digits) <= 255 {
        Some(text::digits_value(digits))
    } else {
        None
    }
}

/// The number under `key`, or 0.
pub open spec fn number_under(
    kind: BlockKind,
    properties: Map<Seq<char>, Seq<char>>,
    key: Seq<char>,
) -> u8 {
    match read_value(kind, properties, key) {
        Some(written) => match small_number(written) {
            Some(n) => n as u8,
            None => 0,
        },
        None => 0,
    }
}

/// The block that a name and its properties describe.
pub open spec fn parsed(name: Seq<char>, properties: Map<Seq<char>, Seq<char>>) -> BlockView {
    let kind = kind_for(name);
    BlockView {
        kind,
        facing: match read_value(kind, properties, "facing"@) {
            Some(value) => facing_named(value),
            None => None,
        },
        face: match read_value(kind, properties, "face"@) {
            Some(value) => face_named(value),
            None => None,
        },
        power: number_under(kind, properties, "power"@),
        delay: number_under(kind, properties, "delay"@),
        lit: match read_value(kind, properties, "lit"@) {
            Some(value) => value == "true"@,
            None => match read_value(kind, properties, "powered"@) {
                Some(value) => value == "true"@,
                None => false,
            },
        },
        half: match read_value(kind, properties, "type"@) {
            Some(value) => half_named(value),
            None => None,
        },
        name,
        extra_properties: unstructured(kind, properties),
    }
}

/// The properties that a kind of block has no field for.
pub open spec fn unstructured(
    kind: BlockKind,
    properties: Map<Seq<char>, Seq<char>>,
) -> Map<Seq<char>, Seq<char>> {
    Map::new(
        |key: Seq<char>| properties.dom().contains(key) && !is_structured(kind, key),
        |key: Seq<char>| properties[key],
    )
}

/// `properties` with a value under `key`, if there is one to write.
pub open spec fn with_value(
    properties: Map<Seq<char>, Seq<char>>,
    write: bool,
    key: Seq<char>,
    value: Seq<char>,
) -> Map<Seq<char>, Seq<char>> {
    if write {
        properties.insert(key, value)
    } else {
        properties
    }
}

/// The properties that describe a block.
///
/// Only those that the block really has: the game refuses a file that says
/// more.
pub open spec fn written(state: BlockView) -> Map<Seq<char>, Seq<char>> {
    let kind = state.kind;
    let facing = with_value(
        state.extra_properties,
        is_structured(kind, "facing"@) && state.facing is Some,
        "facing"@,
        facing_name(state.facing->0),
    );
    let face = with_value(
        facing,
        is_structured(kind, "face"@) && state.face is Some,
        "face"@,
        face_name(state.face->0),
    );
    let half = with_value(
        face,
        is_structured(kind, "type"@) && state.half is Some,
        "type"@,
        half_name(state.half->0),
    );
    match kind {
        BlockKind::RedstoneWire | BlockKind::WeightedPressurePlate | BlockKind::Target
        | BlockKind::DaylightDetector => half.insert("power"@, text::decimal(state.power as nat)),
        BlockKind::Repeater => half.insert("delay"@, text::decimal(state.delay as nat)).insert(
            "powered"@,
            flag_name(state.lit),
        ),
        BlockKind::Torch | BlockKind::WallTorch | BlockKind::Lamp => half.insert(
            "lit"@,
            flag_name(state.lit),
        ),
        BlockKind::Comparator | BlockKind::Lever | BlockKind::Button | BlockKind::PressurePlate
        | BlockKind::Observer => half.insert("powered"@, flag_name(state.lit)),
        _ => half,
    }
}

/// Whether `name` ends with `tail`.
fn has_tail(name: &str, tail: &str) -> (ends: bool)
    ensures
        ends == ends_with(name@, tail@),
{
    let long: usize = name.unicode_len();
    let short: usize = tail.unicode_len();
    if long < short {
        return false;
    }
    let end: &str = name.substring_char(long - short, long);
    assert(end@ == name@.skip(name@.len() - tail@.len()));
    text::same_text(end, tail)
}

/// The kind of the block with a given name.
fn kind_of(name: &str) -> (kind: BlockKind)
    ensures
        kind == kind_for(name@),
{
    if text::same_text(name, "minecraft:air") || text::same_text(name, "minecraft:cave_air")
        || text::same_text(name, "minecraft:void_air") {
        BlockKind::Air
    } else if text::same_text(name, "minecraft:redstone_wire") {
        BlockKind::RedstoneWire
    } else if text::same_text(name, "minecraft:repeater") {
        BlockKind::Repeater
    } else if text::same_text(name, "minecraft:comparator") {
        BlockKind::Comparator
    } else if text::same_text(name, "minecraft:redstone_torch") {
        BlockKind::Torch
    } else if text::same_text(name, "minecraft:redstone_wall_torch") {
        BlockKind::WallTorch
    } else if text::same_text(name, "minecraft:lever") {
        BlockKind::Lever
    } else if text::same_text(name, "minecraft:redstone_block") {
        BlockKind::RedstoneBlock
    } else if text::same_text(name, "minecraft:redstone_lamp") {
        BlockKind::Lamp
    } else if text::same_text(name, "minecraft:piston") || text::same_text(
        name,
        "minecraft:sticky_piston",
    ) {
        BlockKind::Piston
    } else if text::same_text(name, "minecraft:glass") || text::same_text(
        name,
        "minecraft:tinted_glass",
    ) || text::same_text(name, "minecraft:glowstone") || text::same_text(
        name,
        "minecraft:sea_lantern",
    ) || text::same_text(name, "minecraft:tnt") || text::same_text(name, "minecraft:ice") {
        BlockKind::Glass
    } else if has_tail(name, "_slab") {
        BlockKind::Slab
    } else if text::same_text(name, "minecraft:stone") || text::same_text(
        name,
        "minecraft:smooth_stone",
    ) || text::same_text(name, "minecraft:cobblestone") || text::same_text(
        name,
        "minecraft:dirt",
    ) || text::same_text(name, "minecraft:oak_planks") {
        BlockKind::Solid
    } else if text::same_text(name, "minecraft:observer") {
        BlockKind::Observer
    } else if text::same_text(name, "minecraft:target") {
        BlockKind::Target
    } else if text::same_text(name, "minecraft:daylight_detector") {
        BlockKind::DaylightDetector
    } else if has_tail(name, "_button") {
        BlockKind::Button
    } else if has_tail(name, "_weighted_pressure_plate") {
        BlockKind::WeightedPressurePlate
    } else if has_tail(name, "_pressure_plate") {
        BlockKind::PressurePlate
    } else {
        BlockKind::Other
    }
}

/// Whether a property of a kind of block is read into a field of its own.
fn structured(kind: BlockKind, key: &str) -> (own: bool)
    ensures
        own == is_structured(kind, key@),
{
    match kind {
        BlockKind::RedstoneWire => text::same_text(key, "power"),
        BlockKind::Repeater => text::same_text(key, "facing") || text::same_text(key, "delay")
            || text::same_text(key, "powered"),
        BlockKind::Comparator => text::same_text(key, "facing") || text::same_text(key, "powered"),
        BlockKind::WallTorch => text::same_text(key, "facing") || text::same_text(key, "lit"),
        BlockKind::Torch | BlockKind::Lamp => text::same_text(key, "lit"),
        BlockKind::Lever => text::same_text(key, "face") || text::same_text(key, "facing")
            || text::same_text(key, "powered"),
        BlockKind::Piston => text::same_text(key, "facing"),
        BlockKind::Slab => text::same_text(key, "type"),
        BlockKind::Button => text::same_text(key, "face") || text::same_text(key, "powered"),
        BlockKind::PressurePlate => text::same_text(key, "powered"),
        BlockKind::WeightedPressurePlate => text::same_text(key, "power"),
        BlockKind::Observer => text::same_text(key, "facing") || text::same_text(key, "powered"),
        BlockKind::Target | BlockKind::DaylightDetector => text::same_text(key, "power"),
        _ => false,
    }
}

fn reads<'a>(kind: BlockKind, properties: &'a Properties, key: &str) -> (value: Option<&'a String>)
    ensures
        match value {
            Some(found) => read_value(kind, properties@, key@) == Some(found@),
            None => read_value(kind, properties@, key@) is None,
        },
{
    if structured(kind, key) {
        properties.get(key)
    } else {
        None
    }
}

fn parse_facing(name: &str) -> (facing: Option<Facing>)
    ensures
        facing == facing_named(name@),
{
    if text::same_text(name, "north") {
        Some(Facing::North)
    } else if text::same_text(name, "south") {
        Some(Facing::South)
    } else if text::same_text(name, "east") {
        Some(Facing::East)
    } else if text::same_text(name, "west") {
        Some(Facing::West)
    } else if text::same_text(name, "up") {
        Some(Facing::Up)
    } else if text::same_text(name, "down") {
        Some(Facing::Down)
    } else {
        None
    }
}

fn parse_face(name: &str) -> (face: Option<Face>)
    ensures
        face == face_named(name@),
{
    if text::same_text(name, "floor") {
        Some(Face::Floor)
    } else if text::same_text(name, "wall") {
        Some(Face::Wall)
    } else if text::same_text(name, "ceiling") {
        Some(Face::Ceiling)
    } else {
        None
    }
}

fn parse_half(name: &str) -> (half: Option<SlabHalf>)
    ensures
        half == half_named(name@),
{
    if text::same_text(name, "top") {
        Some(SlabHalf::Top)
    } else if text::same_text(name, "bottom") {
        Some(SlabHalf::Bottom)
    } else if text::same_text(name, "double") {
        Some(SlabHalf::Double)
    } else {
        None
    }
}

/// The small number that a text states.
fn parse_small(written: &str) -> (number: Option<u8>)
    ensures
        match number {
            Some(n) => small_number(written@) == Some(n as nat),
            None => small_number(written@) is None,
        },
{
    let len: usize = written.unicode_len();
    let mut at: usize = 0;
    if len > 1 && written.get_char(0) == '+' {
        at = 1;
    }
    let ghost digits = written@.skip(at as int);
    let ghost from = at as int;
    proof {
        assert(written@.skip(0) =~= written@);
    }
    if len == 0 {
        return None;
    }
    let mut total: u32 = 0;
    assert(digits.take(0) =~= Seq::<char>::empty());
    while at < len
        invariant
            len == written@.len(),
            0 <= from <= at <= len,
            from == (if written@.len() > 1 && written@[0] == '+' {
                1int
            } else {
                0int
            }),
            written@.skip(0) == written@,
            digits == written@.skip(from),
            digits.len() == len - from,
            total <= 255,
            text::all_digits(digits.take(at - from)),
            total == text::digits_value(digits.take(at - from)),
        decreases len - at,
    {
        let c: char = written.get_char(at);
        let ghost k = at - from;
        proof {
            assert(0 <= k < digits.len());
            assert(written@.skip(from)[k] == written@[k + from]);
            assert(digits[k] == c);
            assert(digits.take(k + 1) =~= digits.take(k).push(c));
            assert(digits.take(k + 1).drop_last() =~= digits.take(k));
        }
        if c < '0' || c > '9' {
            assert(!text::all_digits(digits)) by {
                assert(!text::is_digit(digits[k]));
            }
            return None;
        }
        let d: u32 = c as u32 - 48;
        total = total * 10 + d;
        if total > 255 {
            proof {
                text::lemma_value_grows(digits, k + 1);
            }
            return None;
        }
        at = at + 1;
    }
    assert(digits.take(digits.len() as int) =~= digits);
    Some(total as u8)
}

fn number_at(kind: BlockKind, properties: &Properties, key: &str) -> (number: u8)
    ensures
        number == number_under(kind, properties@, key@),
{
    match reads(kind, properties, key) {
        Some(written) => match parse_small(written.as_str()) {
            Some(n) => n,
            None => 0,
        },
        None => 0,
    }
}

/// The properties that a kind of block has no field for.
fn extras(kind: BlockKind, properties: &Properties) -> (extra: Properties)
    ensures
        extra@ == unstructured(kind, properties@),
{
    let count: usize = properties.len();
    let ghost pairs = properties.pairs();
    let mut extra: Properties = Properties::new();
    let mut at: usize = 0;
    proof {
        assert(pairs.take(0) =~= Seq::<(Seq<char>, Seq<char>)>::empty());
        assert(unstructured(kind, crate::properties::as_map(pairs.take(0))) =~= Map::<
            Seq<char>,
            Seq<char>,
        >::empty());
    }
    while at < count
        invariant
            count == pairs.len(),
            pairs == properties.pairs(),
            crate::properties::keys_ascending(pairs),
            at <= count,
            extra@ == unstructured(kind, crate::properties::as_map(pairs.take(at as int))),
        decreases count - at,
    {
        let key: &String = properties.key(at);
        let value: &String = properties.value(at);
        proof {
            crate::properties::lemma_next_pair(pairs, at as int);
        }
        let ghost was = crate::properties::as_map(pairs.take(at as int));
        let ghost now = crate::properties::as_map(pairs.take(at + 1));
        if !structured(kind, key.as_str()) {
            extra.insert(key.as_str(), value.as_str());
            assert(unstructured(kind, now) =~= unstructured(kind, was).insert(key@, value@));
        } else {
            assert(unstructured(kind, now) =~= unstructured(kind, was));
        }
        at = at + 1;
    }
    assert(pairs.take(count as int) =~= pairs);
    extra
}

/// The block that a name and its properties describe.
///
/// A name that is not known is `BlockKind::Other`.
pub fn parse_block_name(name: &str, properties: &Properties) -> (state: BlockState)
    ensures
        state@ == parsed(name@, properties@),
{
    let kind: BlockKind = kind_of(name);
    let facing: Option<Facing> = match reads(kind, properties, "facing") {
        Some(value) => parse_facing(value.as_str()),
        None => None,
    };
    let face: Option<Face> = match reads(kind, properties, "face") {
        Some(value) => parse_face(value.as_str()),
        None => None,
    };
    let half: Option<SlabHalf> = match reads(kind, properties, "type") {
        Some(value) => parse_half(value.as_str()),
        None => None,
    };
    let power: u8 = number_at(kind, properties, "power");
    let delay: u8 = number_at(kind, properties, "delay");
    let lit: bool = match reads(kind, properties, "lit") {
        Some(value) => text::same_text(value.as_str(), "true"),
        None => match reads(kind, properties, "powered") {
            Some(value) => text::same_text(value.as_str(), "true"),
            None => false,
        },
    };
    let extra_properties: Properties = extras(kind, properties);
    BlockState {
        kind,
        facing,
        face,
        power,
        delay,
        lit,
        half,
        name: name.to_owned(),
        extra_properties,
    }
}

fn facing_text(facing: Facing) -> (name: &'static str)
    ensures
        name@ == facing_name(facing),
{
    match facing {
        Facing::North => "north",
        Facing::South => "south",
        Facing::East => "east",
        Facing::West => "west",
        Facing::Up => "up",
        Facing::Down => "down",
    }
}

fn face_text(face: Face) -> (name: &'static str)
    ensures
        name@ == face_name(face),
{
    match face {
        Face::Floor => "floor",
        Face::Wall => "wall",
        Face::Ceiling => "ceiling",
    }
}

fn half_text(half: SlabHalf) -> (name: &'static str)
    ensures
        name@ == half_name(half),
{
    match half {
        SlabHalf::Top => "top",
        SlabHalf::Bottom => "bottom",
        SlabHalf::Double => "double",
    }
}

fn flag_text(flag: bool) -> (name: &'static str)
    ensures
        name@ == flag_name(flag),
{
    if flag {
        "true"
    } else {
        "false"
    }
}

fn number_text(number: u8) -> (written: String)
    ensures
        written@ == text::decimal(number as nat),
{
    let mut written: String = String::new();
    text::push_decimal(&mut written, number as u64);
    assert(written@ =~= text::decimal(number as nat));
    written
}

/// The palette entry that describes a block.
pub fn block_state_to_entry(state: &BlockState) -> (entry: PaletteEntry)
    ensures
        entry.name@ == state@.name,
        entry.properties@ == written(state@),
{
    let kind: BlockKind = state.kind;
    let mut properties: Properties = state.extra_properties.duplicate();
    if structured(kind, "facing") {
        if let Some(facing) = state.facing {
            properties.insert("facing", facing_text(facing));
        }
    }
    if structured(kind, "face") {
        if let Some(face) = state.face {
            properties.insert("face", face_text(face));
        }
    }
    if structured(kind, "type") {
        if let Some(half) = state.half {
            properties.insert("type", half_text(half));
        }
    }
    match kind {
        BlockKind::RedstoneWire | BlockKind::WeightedPressurePlate | BlockKind::Target
        | BlockKind::DaylightDetector => {
            let power: String = number_text(state.power);
            properties.insert("power", power.as_str());
        },
        BlockKind::Repeater => {
            let delay: String = number_text(state.delay);
            properties.insert("delay", delay.as_str());
            properties.insert("powered", flag_text(state.lit));
        },
        BlockKind::Torch | BlockKind::WallTorch | BlockKind::Lamp => {
            properties.insert("lit", flag_text(state.lit));
        },
        BlockKind::Comparator | BlockKind::Lever | BlockKind::Button | BlockKind::PressurePlate
        | BlockKind::Observer => {
            properties.insert("powered", flag_text(state.lit));
        },
        _ => {},
    }
    PaletteEntry { name: state.name.clone(), properties }
}

/// The region whose name comes first.
pub open spec fn first_named(regions: Seq<(String, Region)>, at: int) -> bool {
    &&& 0 <= at < regions.len()
    &&& forall|i: int|
        0 <= i < regions.len() ==> !text::before((#[trigger] regions[i]).0@, regions[at].0@)
    &&& forall|i: int| 0 <= i < at ==> (#[trigger] regions[i]).0@ != regions[at].0@
}

/// The complaint about a size that has no opposite.
pub open spec fn size_complaint(axis: Seq<char>, value: int) -> Seq<char> {
    "region size."@ + axis + " ("@ + text::signed_decimal(value) + ") is out of range"@
}

/// The complaint about a region too large to count.
pub open spec fn volume_complaint(x: int, y: int, z: int) -> Seq<char> {
    "region volume "@ + text::signed_decimal(x) + "x"@ + text::signed_decimal(y) + "x"@
        + text::signed_decimal(z) + " overflows"@
}

/// The complaint about a cell that names no palette entry.
pub open spec fn index_complaint(index: int, palette: int) -> Seq<char> {
    "block state index "@ + text::signed_decimal(index) + " is out of range for a palette of "@
        + text::signed_decimal(palette)
}

pub open spec fn magnitude(value: int) -> int {
    if value < 0 {
        -value
    } else {
        value
    }
}

pub open spec fn nbt_error(result: Result<World, FormatError>, complaint: Seq<char>) -> bool {
    result matches Err(FormatError::Nbt(reason)) && reason@ == complaint
}

pub open spec fn missing(result: Result<World, FormatError>, field: Seq<char>) -> bool {
    result matches Err(FormatError::MissingField(name)) && name@ == field
}

/// How many cells a region of a given size has.
pub open spec fn volume(size: Vec3) -> int {
    magnitude(size.x as int) * magnitude(size.y as int) * magnitude(size.z as int)
}

/// What a region comes to: each thing that can be wrong with it, in the order
/// in which it is looked for, or else the world it describes.
pub open spec fn region_read(region: Region, result: Result<World, FormatError>) -> bool {
    let size = region.size;
    let bits = bitpack::entry_bits(region.block_state_palette@.len());
    if size.x == i32::MIN {
        nbt_error(result, size_complaint("x"@, size.x as int))
    } else if size.y == i32::MIN {
        nbt_error(result, size_complaint("y"@, size.y as int))
    } else if size.z == i32::MIN {
        nbt_error(result, size_complaint("z"@, size.z as int))
    } else if size.x == 0 || size.y == 0 || size.z == 0 {
        missing(result, "Size"@)
    } else if volume(size) > usize::MAX {
        nbt_error(
            result,
            volume_complaint(
                magnitude(size.x as int),
                magnitude(size.y as int),
                magnitude(size.z as int),
            ),
        )
    } else if 64 * region.block_states@.len() < volume(size) * bits {
        missing(result, "BlockStates"@)
    } else {
        exists|raw: Seq<u32>|
            #[trigger] bitpack::unpacked(
                region.block_states@,
                bits as u32,
                volume(size) as nat,
                raw,
            ) && cells_read(region, raw, result)
    }
}

/// The first cell that names no palette entry is complained about; where all
/// do, the world holds at each cell the block that its entry describes.
pub open spec fn cells_read(
    region: Region,
    raw: Seq<u32>,
    result: Result<World, FormatError>,
) -> bool {
    let known = region.block_state_palette@.len();
    match result {
        Ok(world) => {
            &&& world.wf()
            &&& world.sizes() == (
                magnitude(region.size.x as int),
                magnitude(region.size.y as int),
                magnitude(region.size.z as int),
            )
            &&& forall|i: int| 0 <= i < raw.len() ==> (#[trigger] raw[i]) < known
            &&& forall|i: int|
                0 <= i < raw.len() ==> world.states()[#[trigger] world.numbers()[i] as int]
                    == entry_block(region, raw[i] as int)
        },
        Err(_) => exists|i: int|
            0 <= i < raw.len() && #[trigger] raw[i] >= known && nbt_error(
                result,
                index_complaint(raw[i] as int, known as int),
            ) && forall|j: int| 0 <= j < i ==> (#[trigger] raw[j]) < known,
    }
}

/// The block that a palette entry of a region describes.
pub open spec fn entry_block(region: Region, number: int) -> BlockView {
    parsed(
        region.block_state_palette@[number].name@,
        region.block_state_palette@[number].properties@,
    )
}

/// `value` without its sign, where it has an opposite.
fn abs_axis(value: i32, axis: &str) -> (size: Result<i32, FormatError>)
    ensures
        match size {
            Ok(n) => value != i32::MIN && n == magnitude(value as int),
            Err(FormatError::Nbt(reason)) => value == i32::MIN && reason@ == size_complaint(
                axis@,
                value as int,
            ),
            _ => false,
        },
{
    if value == i32::MIN {
        let mut reason: String = "region size.".to_owned();
        reason.append(axis);
        reason.append(" (");
        text::push_signed(&mut reason, value as i64);
        reason.append(") is out of range");
        return Err(FormatError::Nbt(reason));
    }
    Ok(if value < 0 {
        -value
    } else {
        value
    })
}

/// The world that a file describes, or what is wrong with the file.
///
/// Of several regions only the one whose name comes first is read.
pub fn load(file: &LitematicFile) -> (result: Result<World, FormatError>)
    requires
        forall|i: int|
            0 <= i < file.regions@.len() ==> (
            #[trigger] file.regions@[i]).1.block_state_palette@.len() < u32::MAX,
    ensures
        if file.version < MIN_SUPPORTED_VERSION || file.version > MAX_SUPPORTED_VERSION {
            result == Err::<World, FormatError>(FormatError::UnsupportedVersion(file.version))
        } else if file.regions@.len() == 0 {
            missing(result, "Regions"@)
        } else {
            exists|at: int|
                #[trigger] first_named(file.regions@, at) && region_read(
                    file.regions@[at].1,
                    result,
                )
        },
{
    if file.version < MIN_SUPPORTED_VERSION || file.version > MAX_SUPPORTED_VERSION {
        return Err(FormatError::UnsupportedVersion(file.version));
    }
    if file.regions.len() == 0 {
        return Err(FormatError::MissingField("Regions".to_owned()));
    }
    let at: usize = first_region(&file.regions);
    assert(first_named(file.regions@, at as int));
    load_region(&file.regions[at].1)
}

fn first_region(regions: &Vec<(String, Region)>) -> (first: usize)
    requires
        regions@.len() > 0,
    ensures
        first_named(regions@, first as int),
{
    let mut first: usize = 0;
    let mut at: usize = 1;
    proof {
        text::lemma_before_total(regions@[0].0@, regions@[0].0@);
    }
    while at < regions.len()
        invariant
            0 <= first < at <= regions@.len(),
            forall|i: int|
                0 <= i < at ==> !text::before((#[trigger] regions@[i]).0@, regions@[first as int].0@),
            forall|i: int| 0 <= i < first ==> (#[trigger] regions@[i]).0@ != regions@[first as int].0@,
        decreases regions@.len() - at,
    {
        if text::is_before(regions[at].0.as_str(), regions[first].0.as_str()) {
            proof {
                let best = regions@[first as int].0@;
                let next = regions@[at as int].0@;
                assert forall|i: int| 0 <= i < at + 1 implies !text::before(
                    (#[trigger] regions@[i]).0@,
                    next,
                ) by {
                    text::lemma_before_total(next, next);
                    if i < at && text::before(regions@[i].0@, next) {
                        text::lemma_before_transitive(regions@[i].0@, next, best);
                    }
                }
                assert forall|i: int| 0 <= i < at implies (#[trigger] regions@[i]).0@ != next by {
                    assert(!text::before(regions@[i].0@, best));
                }
            }
            first = at;
        }
        at = at + 1;
    }
    first
}

/// The world that a region describes, or what is wrong with it.
#[verifier::rlimit(40)]
pub fn load_region(region: &Region) -> (result: Result<World, FormatError>)
    requires
        region.block_state_palette@.len() < u32::MAX,
    ensures
        region_read(*region, result),
{
    let size_x: i32 = match abs_axis(region.size.x, "x") {
        Ok(n) => n,
        Err(error) => {
            return Err(error);
        },
    };
    let size_y: i32 = match abs_axis(region.size.y, "y") {
        Ok(n) => n,
        Err(error) => {
            return Err(error);
        },
    };
    let size_z: i32 = match abs_axis(region.size.z, "z") {
        Ok(n) => n,
        Err(error) => {
            return Err(error);
        },
    };
    if size_x == 0 || size_y == 0 || size_z == 0 {
        return Err(FormatError::MissingField("Size".to_owned()));
    }
    let ghost known = region.block_state_palette@.len();
    let mut palette: Palette = Palette::new();
    let mut index_map: Vec<u32> = Vec::new();
    let mut at: usize = 0;
    while at < region.block_state_palette.len()
        invariant
            at <= known == region.block_state_palette@.len() < u32::MAX,
            world::palette_ok(palette@),
            palette@.len() <= at + 1,
            index_map@.len() == at,
            forall|i: int|
                0 <= i < at ==> (#[trigger] index_map@[i]) < palette@.len()
                    && palette@[index_map@[i] as int] == entry_block(*region, i),
        decreases known - at,
    {
        let entry: &PaletteEntry = &region.block_state_palette[at];
        let state: BlockState = parse_block_name(entry.name.as_str(), &entry.properties);
        let ghost was = palette@;
        let number: u32 = palette.intern(state);
        index_map.push(number);
        at = at + 1;
    }
    let ghost cells_total = volume(region.size);
    let plane: Option<usize> = (size_x as usize).checked_mul(size_y as usize);
    let count: Option<usize> = match plane {
        Some(n) => n.checked_mul(size_z as usize),
        None => None,
    };
    let count: usize = match count {
        Some(n) => n,
        None => {
            proof {
                assert(size_x * size_y <= size_x * size_y * size_z) by (nonlinear_arith)
                    requires
                        size_x > 0,
                        size_y > 0,
                        size_z > 0,
                ;
            }
            let mut reason: String = "region volume ".to_owned();
            text::push_signed(&mut reason, size_x as i64);
            reason.append("x");
            text::push_signed(&mut reason, size_y as i64);
            reason.append("x");
            text::push_signed(&mut reason, size_z as i64);
            reason.append(" overflows");
            return Err(FormatError::Nbt(reason));
        },
    };
    assert(count == cells_total);
    let bits: u32 = bitpack::bits_per_entry(region.block_state_palette.len());
    proof {
        lemma_bits_within(known, bits);
        assert(count as u128 * bits as u128 <= 0xffff_ffff_ffff_ffff * 64) by (nonlinear_arith)
            requires
                count <= 0xffff_ffff_ffff_ffff,
                bits <= 64,
        ;
    }
    let needed: u128 = count as u128 * bits as u128;
    if 64 * (region.block_states.len() as u128) < needed {
        return Err(FormatError::MissingField("BlockStates".to_owned()));
    }
    let raw: Vec<u32> = bitpack::unpack(region.block_states.as_slice(), bits, count);
    proof {
        assert(bitpack::unpacked(
            region.block_states@,
            bitpack::entry_bits(known) as u32,
            volume(region.size) as nat,
            raw@,
        ));
    }
    // The cells number the file's palette; the world has its own numbers.
    let mut cells: Vec<u32> = Vec::new();
    let mut at: usize = 0;
    while at < raw.len()
        invariant
            at <= raw@.len(),
            known == region.block_state_palette@.len() == index_map@.len(),
            known < u32::MAX,
            bitpack::unpacked(
                region.block_states@,
                bitpack::entry_bits(known) as u32,
                volume(region.size) as nat,
                raw@,
            ),
            region.size.x != i32::MIN,
            region.size.y != i32::MIN,
            region.size.z != i32::MIN,
            region.size.x != 0 && region.size.y != 0 && region.size.z != 0,
            volume(region.size) <= usize::MAX,
            64 * region.block_states@.len() >= volume(region.size) * bitpack::entry_bits(known),
            forall|i: int|
                0 <= i < known ==> (#[trigger] index_map@[i]) < palette@.len()
                    && palette@[index_map@[i] as int] == entry_block(*region, i),
            cells@.len() == at,
            forall|i: int| 0 <= i < at ==> (#[trigger] raw@[i]) < known,
            forall|i: int| 0 <= i < at ==> #[trigger] cells@[i] == index_map@[raw@[i] as int],
        decreases raw@.len() - at,
    {
        let index: u32 = raw[at];
        if index as usize >= index_map.len() {
            let mut reason: String = "block state index ".to_owned();
            text::push_signed(&mut reason, index as i64);
            reason.append(" is out of range for a palette of ");
            text::push_signed(&mut reason, region.block_state_palette.len() as i64);
            let result: Result<World, FormatError> = Err(FormatError::Nbt(reason));
            proof {
                assert(raw@[at as int] >= known);
                assert(nbt_error(result, index_complaint(raw@[at as int] as int, known as int)));
                assert(cells_read(*region, raw@, result));
            }
            return result;
        }
        cells.push(index_map[index as usize]);
        at = at + 1;
    }
    proof {
        assert(size_y * size_z * size_x == size_x * size_y * size_z) by (nonlinear_arith);
        assert forall|i: int| 0 <= i < cells@.len() implies (#[trigger] cells@[i])
            < palette@.len() by {
            assert(raw@[i] < known);
            assert(index_map@[raw@[i] as int] < palette@.len());
        }
    }
    let ghost states = palette@;
    let ghost numbers = cells@;
    let world: World = World::from_parts(size_x, size_y, size_z, palette, cells);
    let result: Result<World, FormatError> = Ok(world);
    proof {
        assert forall|i: int| 0 <= i < raw@.len() implies world.states()[#[trigger] world.numbers()[i] as int]
            == entry_block(*region, raw@[i] as int) by {
            assert(numbers[i] == index_map@[raw@[i] as int]);
            assert(raw@[i] < known);
        }
        assert(cells_read(*region, raw@, result));
    }
    result
}

/// How many of the first `upto` cells hold something.
pub open spec fn filled(world: &World, upto: int) -> nat
    decreases upto,
{
    if upto <= 0 {
        0
    } else {
        filled(world, upto - 1) + if world.states()[world.numbers()[upto - 1] as int].kind
            != BlockKind::Air {
            1nat
        } else {
            0nat
        }
    }
}

/// What a world looks like as a file.
pub open spec fn saved(world: &World, name: Seq<char>, file: LitematicFile) -> bool {
    let (sx, sy, sz) = world.sizes();
    let size = Vec3 { x: sx as i32, y: sy as i32, z: sz as i32 };
    let cells = world.numbers().len();
    &&& file.minecraft_data_version == DATA_VERSION_26_2
    &&& file.version == SCHEMATIC_VERSION
    &&& file.sub_version == SCHEMATIC_SUB_VERSION
    &&& file.metadata.name@ == name
    &&& file.metadata.author@ == "REDA"@
    &&& file.metadata.description@ == "Generated by REDA"@
    &&& file.metadata.region_count == 1
    &&& file.metadata.total_volume == (cells as usize) as i32
    &&& file.metadata.total_blocks == (filled(world, cells as int) as usize) as i32
    &&& file.metadata.time_created == 0
    &&& file.metadata.time_modified == 0
    &&& file.metadata.enclosing_size == size
    &&& file.regions@.len() == 1
    &&& file.regions@[0].0@ == name
    &&& file.regions@[0].1.position == (Vec3 { x: 0, y: 0, z: 0 })
    &&& file.regions@[0].1.size == size
    &&& entries_written(world.states(), file.regions@[0].1.block_state_palette@)
    &&& bitpack::packed(
        world.numbers(),
        bitpack::entry_bits(world.states().len()) as u32,
        file.regions@[0].1.block_states@,
    )
}

/// One palette entry for each block state, in order.
pub open spec fn entries_written(states: Seq<BlockView>, entries: Seq<PaletteEntry>) -> bool {
    &&& entries.len() == states.len()
    &&& forall|i: int|
        0 <= i < states.len() ==> (#[trigger] entries[i]).name@ == states[i].name
            && entries[i].properties@ == written(states[i])
}

/// A world as a file with one region.
pub fn save(world: &World, name: &str) -> (file: LitematicFile)
    requires
        world.wf(),
        world.numbers().len() * 32 + 63 <= u64::MAX,
    ensures
        saved(world, name@, file),
{
    let (size_x, size_y, size_z) = world.size();
    let size: Vec3 = Vec3 { x: size_x, y: size_y, z: size_z };
    let states: &Vec<BlockState> = world.palette().entries();
    let mut entries: Vec<PaletteEntry> = Vec::new();
    let mut at: usize = 0;
    while at < states.len()
        invariant
            at <= states@.len() == world.states().len(),
            forall|i: int| 0 <= i < states@.len() ==> (#[trigger] states@[i])@ == world.states()[i],
            entries@.len() == at,
            forall|i: int|
                0 <= i < at ==> (#[trigger] entries@[i]).name@ == world.states()[i].name
                    && entries@[i].properties@ == written(world.states()[i]),
        decreases states@.len() - at,
    {
        assert(states@[at as int]@ == world.states()[at as int]);
        entries.push(block_state_to_entry(&states[at]));
        at = at + 1;
    }
    let bits: u32 = bitpack::bits_per_entry(entries.len());
    let cells: &Vec<u32> = world.cells();
    proof {
        assert(cells.len() == cells@.len());
        lemma_bits_within(entries@.len(), bits);
        lemma_words_within(world.numbers().len(), bits);
    }
    let packed: Vec<i64> = bitpack::pack(cells.as_slice(), bits);
    let mut full: usize = 0;
    let mut at: usize = 0;
    while at < cells.len()
        invariant
            world.wf(),
            cells@ == world.numbers(),
            at <= cells@.len(),
            full == filled(world, at as int),
            full <= at,
        decreases cells@.len() - at,
    {
        assert(world.numbers()[at as int] < world.states().len());
        let is_full: bool = match world.palette().get(cells[at]) {
            Some(state) => state.kind != BlockKind::Air,
            None => false,
        };
        if is_full {
            full = full + 1;
        }
        at = at + 1;
    }
    let region: Region = Region {
        position: Vec3 { x: 0, y: 0, z: 0 },
        size,
        block_state_palette: entries,
        block_states: packed,
    };
    let mut regions: Vec<(String, Region)> = Vec::new();
    regions.push((name.to_owned(), region));
    LitematicFile {
        minecraft_data_version: DATA_VERSION_26_2,
        version: SCHEMATIC_VERSION,
        sub_version: SCHEMATIC_SUB_VERSION,
        metadata: Metadata {
            name: name.to_owned(),
            author: "REDA".to_owned(),
            description: "Generated by REDA".to_owned(),
            region_count: 1,
            total_volume: #[verifier::truncate] (cells.len() as i32),
            total_blocks: #[verifier::truncate] (full as i32),
            time_created: 0,
            time_modified: 0,
            enclosing_size: size,
        },
        regions,
    }
}

proof fn lemma_bits_within(len: nat, bits: u32)
    requires
        len <= u32::MAX,
        bits == bitpack::entry_bits(len),
    ensures
        2 <= bits <= 32,
{
    bitpack::lemma_entry_bits(len);
    power2::lemma2_to64();
    if bits > 32 {
        if bits > 33 {
            power2::lemma_pow2_strictly_increases(32, (bits - 1) as nat);
        }
        assert(power2::pow2((bits - 1) as nat) >= power2::pow2(32));
        assert(power2::pow2(32) == 0x1_0000_0000);
    }
}

proof fn lemma_words_within(count: nat, bits: u32)
    requires
        2 <= bits <= 32,
        count * 32 + 63 <= u64::MAX,
        count <= usize::MAX,
    ensures
        count * bits + 63 <= u64::MAX,
        bitpack::words_for(count, bits) <= usize::MAX,
{
    assert(count * bits <= count * 32) by (nonlinear_arith)
        requires
            bits <= 32,
    ;
    assert((count * bits as nat + 63) / 64 <= count / 2 + 1);
}

/// Whether `value` is how a structured property is written.
pub open spec fn plain_value(key: Seq<char>, value: Seq<char>) -> bool {
    if key == "facing"@ {
        facing_named(value) is Some
    } else if key == "face"@ {
        face_named(value) is Some
    } else if key == "type"@ {
        half_named(value) is Some
    } else if key == "power"@ || key == "delay"@ {
        exists|n: nat| n <= 255 && value == #[trigger] text::decimal(n)
    } else {
        value == "true"@ || value == "false"@
    }
}

/// A block may do without the property.
pub open spec fn may_be_absent(key: Seq<char>) -> bool {
    key == "facing"@ || key == "face"@ || key == "type"@
}

/// Every structured property of a kind of block is there, and plainly written; a
/// facing, a face and a type may be absent.
pub open spec fn complete(kind: BlockKind, properties: Map<Seq<char>, Seq<char>>) -> bool {
    forall|key: Seq<char>| #[trigger]
        is_structured(kind, key) ==> if properties.dom().contains(key) {
            plain_value(key, properties[key])
        } else {
            may_be_absent(key)
        }
}

proof fn lemma_keys_differ()
    ensures
        "facing"@ != "face"@,
        "facing"@ != "type"@,
        "facing"@ != "power"@,
        "facing"@ != "delay"@,
        "facing"@ != "lit"@,
        "facing"@ != "powered"@,
        "face"@ != "type"@,
        "face"@ != "power"@,
        "face"@ != "delay"@,
        "face"@ != "lit"@,
        "face"@ != "powered"@,
        "type"@ != "power"@,
        "type"@ != "delay"@,
        "type"@ != "lit"@,
        "type"@ != "powered"@,
        "power"@ != "delay"@,
        "power"@ != "lit"@,
        "power"@ != "powered"@,
        "delay"@ != "lit"@,
        "delay"@ != "powered"@,
        "lit"@ != "powered"@,
        "true"@ != "false"@,
{
    reveal_strlit("facing");
    reveal_strlit("face");
    reveal_strlit("type");
    reveal_strlit("power");
    reveal_strlit("delay");
    reveal_strlit("lit");
    reveal_strlit("powered");
    reveal_strlit("true");
    reveal_strlit("false");
    assert("facing"@.len() == 6);
    assert("face"@.len() == 4);
    assert("type"@.len() == 4);
    assert("power"@.len() == 5);
    assert("delay"@.len() == 5);
    assert("lit"@.len() == 3);
    assert("powered"@.len() == 7);
    assert("true"@.len() == 4);
    assert("false"@.len() == 5);
    assert("face"@[0] != "type"@[0]);
    assert("power"@[0] != "delay"@[0]);
}

/// A small number in decimal states itself.
proof fn lemma_small_decimal(n: nat)
    requires
        n <= 255,
    ensures
        small_number(text::decimal(n)) == Some(n),
{
    text::lemma_decimal_value(n);
    assert(text::is_digit(text::decimal(n)[0]));
}

proof fn lemma_number_back(kind: BlockKind, properties: Map<Seq<char>, Seq<char>>, key: Seq<char>)
    requires
        complete(kind, properties),
        is_structured(kind, key),
        key == "power"@ || key == "delay"@,
    ensures
        text::decimal(number_under(kind, properties, key) as nat) == properties[key],
{
    lemma_keys_differ();
    let value = properties[key];
    assert(plain_value(key, value));
    let n = choose|n: nat| n <= 255 && value == #[trigger] text::decimal(n);
    lemma_small_decimal(n);
}

/// Every property that comes in goes out again: a block read with its structured
/// properties plainly written is written with exactly the properties it was read
/// with.
#[verifier::rlimit(60)]
pub proof fn lemma_properties_come_back(name: Seq<char>, properties: Map<Seq<char>, Seq<char>>)
    requires
        complete(kind_for(name), properties),
    ensures
        written(parsed(name, properties)) == properties,
{
    lemma_keys_differ();
    let kind = kind_for(name);
    let state = parsed(name, properties);
    assert(is_structured(kind, "facing"@) && properties.dom().contains("facing"@) ==> plain_value(
        "facing"@,
        properties["facing"@],
    ));
    assert(is_structured(kind, "face"@) && properties.dom().contains("face"@) ==> plain_value(
        "face"@,
        properties["face"@],
    ));
    assert(is_structured(kind, "type"@) && properties.dom().contains("type"@) ==> plain_value(
        "type"@,
        properties["type"@],
    ));
    assert(is_structured(kind, "lit"@) ==> plain_value("lit"@, properties["lit"@]));
    assert(is_structured(kind, "powered"@) ==> plain_value("powered"@, properties["powered"@]));
    if is_structured(kind, "power"@) {
        lemma_number_back(kind, properties, "power"@);
    }
    if is_structured(kind, "delay"@) {
        lemma_number_back(kind, properties, "delay"@);
    }
    let back = written(state);
    assert forall|key: Seq<char>| back.dom().contains(key) <==> properties.dom().contains(key) by {
        assert(is_structured(kind, key) ==> properties.dom().contains(key) || may_be_absent(key));
    }
    assert forall|key: Seq<char>| #[trigger] properties.dom().contains(key) implies back[key]
        == properties[key] by {}
    assert(back =~= properties);
}

/// The block that is read where another has been written.
pub open spec fn reread(state: BlockView) -> BlockView {
    parsed(state.name, written(state))
}

/// Whether reading what is written of a block gives the block again.
pub open spec fn faithful(state: BlockView) -> bool {
    reread(state) == state
}

proof fn lemma_names_come_back()
    ensures
        forall|facing: Facing| #[trigger] facing_named(facing_name(facing)) == Some(facing),
        forall|face: Face| #[trigger] face_named(face_name(face)) == Some(face),
        forall|half: SlabHalf| #[trigger] half_named(half_name(half)) == Some(half),
        "true"@ != "false"@,
{
    lemma_keys_differ();
    reveal_strlit("north");
    reveal_strlit("south");
    reveal_strlit("east");
    reveal_strlit("west");
    reveal_strlit("up");
    reveal_strlit("down");
    reveal_strlit("floor");
    reveal_strlit("wall");
    reveal_strlit("ceiling");
    reveal_strlit("top");
    reveal_strlit("bottom");
    reveal_strlit("double");
    assert("north"@[0] == 'n' && "south"@[0] == 's' && "east"@[0] == 'e' && "west"@[0] == 'w'
        && "up"@[0] == 'u' && "down"@[0] == 'd');
    assert("floor"@[0] == 'f' && "wall"@[0] == 'w' && "ceiling"@[0] == 'c');
    assert("top"@[0] == 't' && "bottom"@[0] == 'b' && "double"@[0] == 'd');
}

/// Reading what is written of a block that was read gives the block again,
/// whatever its properties were.
#[verifier::rlimit(60)]
pub proof fn lemma_read_blocks_are_faithful(
    name: Seq<char>,
    properties: Map<Seq<char>, Seq<char>>,
)
    ensures
        faithful(parsed(name, properties)),
{
    lemma_keys_differ();
    lemma_names_come_back();
    let kind = kind_for(name);
    let state = parsed(name, properties);
    let back = written(state);
    lemma_small_decimal(state.power as nat);
    lemma_small_decimal(state.delay as nat);
    assert(unstructured(kind, back) =~= state.extra_properties);
    let again = parsed(name, back);
    assert(again.facing == state.facing);
    assert(again.face == state.face);
    assert(again.half == state.half);
    assert(again.power == state.power);
    assert(again.delay == state.delay);
    assert(again.lit == state.lit);
    assert(again =~= state);
}

/// Saving a world and loading the file gives at every cell the block that is read
/// where the cell's block has been written: the same block, where that is faithful.
pub proof fn lemma_save_then_load(
    world: &World,
    name: Seq<char>,
    file: LitematicFile,
    at: int,
    result: Result<World, FormatError>,
)
    requires
        world.wf(),
        world.numbers().len() <= usize::MAX,
        saved(world, name, file),
        first_named(file.regions@, at),
        region_read(file.regions@[at].1, result),
    ensures
        result matches Ok(loaded) && loaded.sizes() == world.sizes() && forall|
            x: int,
            y: int,
            z: int,
        | #[trigger]
            loaded.at(x, y, z) == (if world.holds(x, y, z) {
                reread(world.at(x, y, z))
            } else {
                world.at(x, y, z)
            }) && (faithful(world.at(x, y, z)) ==> loaded.at(x, y, z) == world.at(x, y, z)),
{
    let region = file.regions@[0].1;
    let (sx, sy, sz) = world.sizes();
    let len = world.states().len();
    let bits = bitpack::entry_bits(len) as u32;
    bitpack::lemma_entry_bits(len);
    power2::lemma2_to64();
    if bitpack::entry_bits(len) > 32 {
        let below = (bitpack::entry_bits(len) - 1) as nat;
        if below > 32 {
            power2::lemma_pow2_strictly_increases(32, below);
        }
        assert(power2::pow2(32) == 0x1_0000_0000);
    }
    assert(volume(region.size) == world.numbers().len()) by (nonlinear_arith)
        requires
            volume(region.size) == sx * sy * sz,
            world.numbers().len() == sy * sz * sx,
    ;
    let count = world.numbers().len();
    assert(64 * region.block_states@.len() >= count * bits);
    let raw = choose|raw: Seq<u32>|
        #[trigger] bitpack::unpacked(region.block_states@, bits, volume(region.size) as nat, raw)
            && cells_read(region, raw, result);
    assert forall|i: int| 0 <= i < count implies bitpack::fits(
        #[trigger] world.numbers()[i],
        bits,
    ) by {
        assert(world.numbers()[i] < world.states().len());
        bitpack::lemma_small_fits(world.numbers()[i], bits);
    }
    bitpack::lemma_pack_then_unpack(world.numbers(), bits, region.block_states@, raw);
    assert forall|i: int| 0 <= i < raw.len() implies (#[trigger] raw[i])
        < region.block_state_palette@.len() by {
        assert(world.numbers()[i] < world.states().len());
    }
    assert(result is Ok);
    let loaded = result->Ok_0;
    assert forall|x: int, y: int, z: int| #[trigger]
        loaded.at(x, y, z) == (if world.holds(x, y, z) {
            reread(world.at(x, y, z))
        } else {
            world.at(x, y, z)
        }) by {
        if world.holds(x, y, z) {
            world::lemma_cell_inside(sx, sy, sz, x, y, z);
            let i = world::cell_index(sx, sz, x, y, z);
            assert(loaded.states()[loaded.numbers()[i] as int] == entry_block(
                region,
                raw[i] as int,
            ));
            let number = world.numbers()[i] as int;
            assert(number < world.states().len());
            assert(region.block_state_palette@[number].name@ == world.states()[number].name);
        }
    }
}

} // verus!
