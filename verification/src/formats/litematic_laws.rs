//! What reading and writing schematics promises: which names are of which kind, which
//! properties are read into which field, and in what order the cells lie.

use crate::formats::bitpack;
use crate::formats::litematic;
use crate::formats::litematic::{LitematicFile, Region};
use crate::formats::nbt::FormatError;
use crate::redstone::block;
use crate::redstone::block::{BlockKind, Face, Facing, SlabHalf};
use crate::redstone::world;
use crate::redstone::world::World;
use crate::text;
use vstd::arithmetic::power2;
use vstd::prelude::*;

verus! {

proof fn lemma_tail(name: Seq<char>, tail: Seq<char>, back: int)
    requires
        litematic::ends_with(name, tail),
        0 < back <= tail.len(),
    ensures
        name[name.len() - back] == tail[tail.len() - back],
{
    assert(name.skip(name.len() - tail.len())[tail.len() - back] == tail[tail.len() - back]);
}

/// The names of the components of a circuit, each of a kind of its own.
pub open spec fn component_kind(name: Seq<char>) -> Option<BlockKind> {
    if name == "minecraft:redstone_wire"@ {
        Some(BlockKind::RedstoneWire)
    } else if name == "minecraft:repeater"@ {
        Some(BlockKind::Repeater)
    } else if name == "minecraft:comparator"@ {
        Some(BlockKind::Comparator)
    } else if name == "minecraft:redstone_torch"@ {
        Some(BlockKind::Torch)
    } else if name == "minecraft:redstone_wall_torch"@ {
        Some(BlockKind::WallTorch)
    } else if name == "minecraft:lever"@ {
        Some(BlockKind::Lever)
    } else if name == "minecraft:redstone_block"@ {
        Some(BlockKind::RedstoneBlock)
    } else if name == "minecraft:redstone_lamp"@ {
        Some(BlockKind::Lamp)
    } else if name == "minecraft:observer"@ {
        Some(BlockKind::Observer)
    } else if name == "minecraft:target"@ {
        Some(BlockKind::Target)
    } else if name == "minecraft:daylight_detector"@ {
        Some(BlockKind::DaylightDetector)
    } else {
        None
    }
}

/// The lengths of the names that the kinds go by, and what tells those of one length
/// apart.
proof fn lemma_the_names()
    ensures
        "minecraft:air"@.len() == 13,
        "minecraft:cave_air"@.len() == 18,
        "minecraft:void_air"@.len() == 18,
        "minecraft:redstone_wire"@.len() == 23,
        "minecraft:repeater"@.len() == 18,
        "minecraft:comparator"@.len() == 20,
        "minecraft:redstone_torch"@.len() == 24,
        "minecraft:redstone_wall_torch"@.len() == 29,
        "minecraft:lever"@.len() == 15,
        "minecraft:redstone_block"@.len() == 24,
        "minecraft:redstone_lamp"@.len() == 23,
        "minecraft:piston"@.len() == 16,
        "minecraft:sticky_piston"@.len() == 23,
        "minecraft:glass"@.len() == 15,
        "minecraft:tinted_glass"@.len() == 22,
        "minecraft:glowstone"@.len() == 19,
        "minecraft:sea_lantern"@.len() == 21,
        "minecraft:tnt"@.len() == 13,
        "minecraft:ice"@.len() == 13,
        "minecraft:stone"@.len() == 15,
        "minecraft:smooth_stone"@.len() == 22,
        "minecraft:cobblestone"@.len() == 21,
        "minecraft:dirt"@.len() == 14,
        "minecraft:oak_planks"@.len() == 20,
        "minecraft:observer"@.len() == 18,
        "minecraft:target"@.len() == 16,
        "minecraft:daylight_detector"@.len() == 27,
        // Fourth from the end, third, second and last.
        "minecraft:air"@.skip(9) == seq![':', 'a', 'i', 'r'],
        "minecraft:cave_air"@.skip(14) == seq!['_', 'a', 'i', 'r'],
        "minecraft:void_air"@.skip(14) == seq!['_', 'a', 'i', 'r'],
        "minecraft:redstone_wire"@.skip(19) == seq!['w', 'i', 'r', 'e'],
        "minecraft:repeater"@.skip(14) == seq!['a', 't', 'e', 'r'],
        "minecraft:comparator"@.skip(16) == seq!['a', 't', 'o', 'r'],
        "minecraft:redstone_torch"@.skip(20) == seq!['o', 'r', 'c', 'h'],
        "minecraft:redstone_wall_torch"@.skip(25) == seq!['o', 'r', 'c', 'h'],
        "minecraft:lever"@.skip(11) == seq!['e', 'v', 'e', 'r'],
        "minecraft:redstone_block"@.skip(20) == seq!['l', 'o', 'c', 'k'],
        "minecraft:redstone_lamp"@.skip(19) == seq!['l', 'a', 'm', 'p'],
        "minecraft:piston"@.skip(12) == seq!['s', 't', 'o', 'n'],
        "minecraft:sticky_piston"@.skip(19) == seq!['s', 't', 'o', 'n'],
        "minecraft:glass"@.skip(11) == seq!['l', 'a', 's', 's'],
        "minecraft:tinted_glass"@.skip(18) == seq!['l', 'a', 's', 's'],
        "minecraft:glowstone"@.skip(15) == seq!['t', 'o', 'n', 'e'],
        "minecraft:sea_lantern"@.skip(17) == seq!['t', 'e', 'r', 'n'],
        "minecraft:tnt"@.skip(9) == seq![':', 't', 'n', 't'],
        "minecraft:ice"@.skip(9) == seq![':', 'i', 'c', 'e'],
        "minecraft:stone"@.skip(11) == seq!['t', 'o', 'n', 'e'],
        "minecraft:smooth_stone"@.skip(18) == seq!['t', 'o', 'n', 'e'],
        "minecraft:cobblestone"@.skip(17) == seq!['t', 'o', 'n', 'e'],
        "minecraft:dirt"@.skip(10) == seq!['d', 'i', 'r', 't'],
        "minecraft:oak_planks"@.skip(16) == seq!['a', 'n', 'k', 's'],
        "minecraft:observer"@.skip(14) == seq!['r', 'v', 'e', 'r'],
        "minecraft:target"@.skip(12) == seq!['r', 'g', 'e', 't'],
        "minecraft:daylight_detector"@.skip(23) == seq!['c', 't', 'o', 'r'],
{
    reveal_strlit("minecraft:air");
    reveal_strlit("minecraft:cave_air");
    reveal_strlit("minecraft:void_air");
    reveal_strlit("minecraft:redstone_wire");
    reveal_strlit("minecraft:repeater");
    reveal_strlit("minecraft:comparator");
    reveal_strlit("minecraft:redstone_torch");
    reveal_strlit("minecraft:redstone_wall_torch");
    reveal_strlit("minecraft:lever");
    reveal_strlit("minecraft:redstone_block");
    reveal_strlit("minecraft:redstone_lamp");
    reveal_strlit("minecraft:piston");
    reveal_strlit("minecraft:sticky_piston");
    reveal_strlit("minecraft:glass");
    reveal_strlit("minecraft:tinted_glass");
    reveal_strlit("minecraft:glowstone");
    reveal_strlit("minecraft:sea_lantern");
    reveal_strlit("minecraft:tnt");
    reveal_strlit("minecraft:ice");
    reveal_strlit("minecraft:stone");
    reveal_strlit("minecraft:smooth_stone");
    reveal_strlit("minecraft:cobblestone");
    reveal_strlit("minecraft:dirt");
    reveal_strlit("minecraft:oak_planks");
    reveal_strlit("minecraft:observer");
    reveal_strlit("minecraft:target");
    reveal_strlit("minecraft:daylight_detector");
}

/// How a name ends, where it is long enough.
proof fn lemma_last_four(name: Seq<char>)
    requires
        name.len() >= 4,
    ensures
        name.skip(name.len() - 4).len() == 4,
        name.skip(name.len() - 4)[0] == name[name.len() - 4],
        name.skip(name.len() - 4)[1] == name[name.len() - 3],
        name.skip(name.len() - 4)[2] == name[name.len() - 2],
        name.skip(name.len() - 4)[3] == name[name.len() - 1],
{
}

/// The endings of the kinds that go by one.
proof fn lemma_the_endings(name: Seq<char>)
    ensures
        litematic::ends_with(name, "_slab"@) ==> name.len() >= 5 && name[name.len() - 1] == 'b',
        litematic::ends_with(name, "_button"@) ==> name.len() >= 7 && name[name.len() - 4] == 't'
            && name[name.len() - 2] == 'o' && name[name.len() - 1] == 'n',
        litematic::ends_with(name, "_pressure_plate"@) ==> name.len() >= 15 && name[name.len() - 3]
            == 'a' && name[name.len() - 2] == 't' && name[name.len() - 1] == 'e',
        litematic::ends_with(name, "_weighted_pressure_plate"@) ==> name.len() >= 24
            && litematic::ends_with(name, "_pressure_plate"@),
{
    reveal_strlit("_slab");
    reveal_strlit("_button");
    reveal_strlit("_pressure_plate");
    reveal_strlit("_weighted_pressure_plate");
    if litematic::ends_with(name, "_slab"@) {
        lemma_tail(name, "_slab"@, 1);
    }
    if litematic::ends_with(name, "_button"@) {
        lemma_tail(name, "_button"@, 1);
        lemma_tail(name, "_button"@, 2);
        lemma_tail(name, "_button"@, 4);
    }
    if litematic::ends_with(name, "_weighted_pressure_plate"@) {
        let long = "_weighted_pressure_plate"@;
        let short = "_pressure_plate"@;
        assert(short =~= long.skip(9));
        assert(name.skip(name.len() - 15) =~= name.skip(name.len() - 24).skip(9));
    }
    if litematic::ends_with(name, "_pressure_plate"@) {
        lemma_tail(name, "_pressure_plate"@, 1);
        lemma_tail(name, "_pressure_plate"@, 2);
        lemma_tail(name, "_pressure_plate"@, 3);
    }
}

/// The kind of a component is the component's own, and no other name has that kind. Air
/// goes by three names, and pistons by two.
#[verifier::rlimit(100)]
#[verifier::spinoff_prover]
pub proof fn lemma_which_names_are_components(name: Seq<char>)
    ensures
        ({
            let kind = litematic::kind_for(name);
            &&& kind is RedstoneWire <==> name == "minecraft:redstone_wire"@
            &&& kind is Repeater <==> name == "minecraft:repeater"@
            &&& kind is Comparator <==> name == "minecraft:comparator"@
            &&& kind is Torch <==> name == "minecraft:redstone_torch"@
            &&& kind is WallTorch <==> name == "minecraft:redstone_wall_torch"@
            &&& kind is Lever <==> name == "minecraft:lever"@
            &&& kind is RedstoneBlock <==> name == "minecraft:redstone_block"@
            &&& kind is Lamp <==> name == "minecraft:redstone_lamp"@
            &&& kind is Observer <==> name == "minecraft:observer"@
            &&& kind is Target <==> name == "minecraft:target"@
            &&& kind is DaylightDetector <==> name == "minecraft:daylight_detector"@
            &&& kind is Piston <==> name == "minecraft:piston"@ || name
                == "minecraft:sticky_piston"@
            &&& kind is Air <==> name == "minecraft:air"@ || name == "minecraft:cave_air"@ || name
                == "minecraft:void_air"@
        }),
{
    lemma_the_names();
    lemma_the_endings(name);
    if name.len() >= 4 {
        lemma_last_four(name);
    }
}

/// No two components share a kind.
pub proof fn lemma_components_are_told_apart(one: Seq<char>, two: Seq<char>)
    requires
        component_kind(one) is Some,
        component_kind(two) is Some,
    ensures
        litematic::kind_for(one) == component_kind(one)->0,
        litematic::kind_for(one) == litematic::kind_for(two) ==> one == two,
{
    lemma_which_names_are_components(one);
    lemma_which_names_are_components(two);
}

/// Glass and solid blocks go by their names; slabs, buttons and plates by how their names
/// end; what is none of these is some other block.
#[verifier::rlimit(100)]
#[verifier::spinoff_prover]
pub proof fn lemma_which_names_are_plain_blocks(name: Seq<char>)
    ensures
        ({
            let kind = litematic::kind_for(name);
            &&& kind is Glass <==> name == "minecraft:glass"@ || name
                == "minecraft:tinted_glass"@ || name == "minecraft:glowstone"@ || name
                == "minecraft:sea_lantern"@ || name == "minecraft:tnt"@ || name
                == "minecraft:ice"@
            &&& kind is Solid <==> name == "minecraft:stone"@ || name
                == "minecraft:smooth_stone"@ || name == "minecraft:cobblestone"@ || name
                == "minecraft:dirt"@ || name == "minecraft:oak_planks"@
            &&& kind is Slab <==> litematic::ends_with(name, "_slab"@)
            &&& kind is Button <==> litematic::ends_with(name, "_button"@)
            &&& kind is WeightedPressurePlate <==> litematic::ends_with(
                name,
                "_weighted_pressure_plate"@,
            )
            &&& kind is PressurePlate <==> litematic::ends_with(name, "_pressure_plate"@)
                && !litematic::ends_with(name, "_weighted_pressure_plate"@)
        }),
{
    lemma_the_names();
    lemma_the_endings(name);
    if name.len() >= 4 {
        lemma_last_four(name);
    }
}

/// A name ends with another exactly if something stands before it, perhaps nothing.
pub proof fn lemma_what_ends_with(name: Seq<char>, tail: Seq<char>)
    ensures
        litematic::ends_with(name, tail) <==> exists|head: Seq<char>| name == #[trigger] (head
            + tail),
{
    if litematic::ends_with(name, tail) {
        let head = name.take(name.len() - tail.len());
        assert(name =~= head + tail);
    }
    if exists|head: Seq<char>| name == #[trigger] (head + tail) {
        let head = choose|head: Seq<char>| name == #[trigger] (head + tail);
        assert(name.skip(name.len() - tail.len()) =~= tail);
    }
}

/// Each direction, face and half goes by one name, and no other name is one.
pub proof fn lemma_names_of_values(name: Seq<char>)
    ensures
        name == "north"@ <==> litematic::facing_named(name) == Some(Facing::North),
        name == "south"@ <==> litematic::facing_named(name) == Some(Facing::South),
        name == "east"@ <==> litematic::facing_named(name) == Some(Facing::East),
        name == "west"@ <==> litematic::facing_named(name) == Some(Facing::West),
        name == "up"@ <==> litematic::facing_named(name) == Some(Facing::Up),
        name == "down"@ <==> litematic::facing_named(name) == Some(Facing::Down),
        name == "floor"@ <==> litematic::face_named(name) == Some(Face::Floor),
        name == "wall"@ <==> litematic::face_named(name) == Some(Face::Wall),
        name == "ceiling"@ <==> litematic::face_named(name) == Some(Face::Ceiling),
        name == "top"@ <==> litematic::half_named(name) == Some(SlabHalf::Top),
        name == "bottom"@ <==> litematic::half_named(name) == Some(SlabHalf::Bottom),
        name == "double"@ <==> litematic::half_named(name) == Some(SlabHalf::Double),
        forall|facing: Facing|
            litematic::facing_named(name) == Some(facing) <==> #[trigger] litematic::facing_name(
                facing,
            ) == name,
        forall|face: Face|
            litematic::face_named(name) == Some(face) <==> #[trigger] litematic::face_name(face)
                == name,
        forall|half: SlabHalf|
            litematic::half_named(name) == Some(half) <==> #[trigger] litematic::half_name(half)
                == name,
        name == "true"@ <==> litematic::flag_name(true) == name,
        name == "false"@ <==> litematic::flag_name(false) == name,
        litematic::flag_name(true) != litematic::flag_name(false),
{
    reveal_strlit("north");
    reveal_strlit("south");
    reveal_strlit("east");
    reveal_strlit("west");
    reveal_strlit("up");
    reveal_strlit("down");
    reveal_strlit("floor");
    reveal_strlit("wall");
    reveal_strlit("ceiling");
    reveal_strlit("top");
    reveal_strlit("bottom");
    reveal_strlit("double");
    reveal_strlit("true");
    reveal_strlit("false");
    assert("north"@[0] == 'n' && "south"@[0] == 's' && "east"@[0] == 'e' && "west"@[0] == 'w'
        && "up"@[0] == 'u' && "down"@[0] == 'd');
    assert("floor"@[0] == 'f' && "wall"@[0] == 'w' && "ceiling"@[0] == 'c');
    assert("top"@[0] == 't' && "bottom"@[0] == 'b' && "double"@[0] == 'd');
    assert("true"@[0] == 't' && "false"@[0] == 'f');
}

proof fn lemma_keys()
    ensures
        "facing"@.len() == 6,
        "face"@.len() == 4,
        "type"@.len() == 4,
        "power"@.len() == 5,
        "delay"@.len() == 5,
        "lit"@.len() == 3,
        "powered"@.len() == 7,
        "face"@[0] == 'f',
        "type"@[0] == 't',
        "power"@[0] == 'p',
        "delay"@[0] == 'd',
{
    reveal_strlit("facing");
    reveal_strlit("face");
    reveal_strlit("type");
    reveal_strlit("power");
    reveal_strlit("delay");
    reveal_strlit("lit");
    reveal_strlit("powered");
}

/// Which kinds of blocks have which property read into a field; a property of another name
/// never is.
#[verifier::rlimit(60)]
pub proof fn lemma_which_properties_are_read(kind: BlockKind, key: Seq<char>)
    ensures
        litematic::is_structured(kind, "facing"@) <==> kind is Repeater || kind is Comparator
            || kind is WallTorch || kind is Lever || kind is Piston || kind is Observer,
        litematic::is_structured(kind, "face"@) <==> kind is Lever || kind is Button,
        litematic::is_structured(kind, "type"@) <==> kind is Slab,
        litematic::is_structured(kind, "delay"@) <==> kind is Repeater,
        litematic::is_structured(kind, "power"@) <==> kind is RedstoneWire || kind
            is WeightedPressurePlate || kind is Target || kind is DaylightDetector,
        litematic::is_structured(kind, "lit"@) <==> kind is Torch || kind is WallTorch || kind
            is Lamp,
        litematic::is_structured(kind, "powered"@) <==> kind is Repeater || kind is Comparator
            || kind is Lever || kind is Button || kind is PressurePlate || kind is Observer,
        litematic::is_structured(kind, key) ==> key == "facing"@ || key == "face"@ || key
            == "type"@ || key == "delay"@ || key == "power"@ || key == "lit"@ || key
            == "powered"@,
{
    lemma_keys();
}

/// A number of at most 255 is read from its decimal form, with a plus sign in front or
/// none; a greater one is not read.
pub proof fn lemma_which_numbers_are_read(n: nat)
    ensures
        n <= 255 ==> litematic::small_number(text::decimal(n)) == Some(n),
        n <= 255 ==> litematic::small_number(seq!['+'] + text::decimal(n)) == Some(n),
        n > 255 ==> litematic::small_number(text::decimal(n)) is None,
{
    text::lemma_decimal_value(n);
    let written = text::decimal(n);
    assert(text::is_digit(written[0]));
    assert((seq!['+'] + written).skip(1) =~= written);
}

/// A text with anything but digits in it, apart from a sign in front, is no number.
pub proof fn lemma_which_texts_are_no_numbers(written: Seq<char>, at: int)
    requires
        0 <= at < written.len(),
        !('0' <= written[at] <= '9'),
        at > 0 || written[0] != '+',
    ensures
        litematic::small_number(written) is None,
{
    if written.len() > 1 && written[0] == '+' {
        assert(written.skip(1)[at - 1] == written[at]);
    }
}

/// What is read of a block: its name and its kind, from each property that its kind has
/// the value it names, and nothing from a property that is absent. All other properties
/// are kept as they are.
#[verifier::rlimit(60)]
pub proof fn lemma_what_is_read_of_a_block(
    name: Seq<char>,
    properties: Map<Seq<char>, Seq<char>>,
)
    ensures
        ({
            let block = litematic::parsed(name, properties);
            let kind = litematic::kind_for(name);
            let given = |key: Seq<char>|
                litematic::is_structured(kind, key) && properties.dom().contains(key);
            &&& block.name == name
            &&& block.kind == kind
            &&& block.facing is Some <==> given("facing"@) && litematic::facing_named(
                properties["facing"@],
            ) is Some
            &&& block.facing is Some ==> litematic::facing_name(block.facing->0)
                == properties["facing"@]
            &&& block.face is Some <==> given("face"@) && litematic::face_named(
                properties["face"@],
            ) is Some
            &&& block.face is Some ==> litematic::face_name(block.face->0) == properties["face"@]
            &&& block.half is Some <==> given("type"@) && litematic::half_named(
                properties["type"@],
            ) is Some
            &&& block.half is Some ==> litematic::half_name(block.half->0) == properties["type"@]
            &&& block.lit <==> (given("lit"@) && properties["lit"@] == "true"@) || (!given("lit"@)
                && given("powered"@) && properties["powered"@] == "true"@)
            &&& !given("power"@) ==> block.power == 0
            &&& !given("delay"@) ==> block.delay == 0
            &&& forall|n: nat|
                n <= 255 && given("power"@) && properties["power"@] == #[trigger] text::decimal(n)
                    ==> block.power == n
            &&& forall|n: nat|
                n <= 255 && given("delay"@) && properties["delay"@] == #[trigger] text::decimal(n)
                    ==> block.delay == n
            &&& forall|key: Seq<char>| #[trigger]
                block.extra_properties.dom().contains(key) <==> properties.dom().contains(key)
                    && !litematic::is_structured(kind, key)
            &&& forall|key: Seq<char>| #[trigger]
                block.extra_properties.dom().contains(key) ==> block.extra_properties[key]
                    == properties[key]
        }),
{
    let kind = litematic::kind_for(name);
    let block = litematic::parsed(name, properties);
    if properties.dom().contains("facing"@) {
        lemma_names_of_values(properties["facing"@]);
    }
    if properties.dom().contains("face"@) {
        lemma_names_of_values(properties["face"@]);
    }
    if properties.dom().contains("type"@) {
        lemma_names_of_values(properties["type"@]);
    }
    assert forall|n: nat| n <= 255 implies litematic::small_number(#[trigger] text::decimal(n))
        == Some(n) by {
        lemma_which_numbers_are_read(n);
    }
}

/// The number of blocks that a file states is the number of cells that hold something.
pub proof fn lemma_blocks_are_counted(world: &World, upto: nat)
    requires
        upto <= world.numbers().len(),
    ensures
        litematic::filled(world, upto as int) == world.numbers().take(upto as int).filter(
            |number: u32| !(world.states()[number as int].kind is Air),
        ).len(),
    decreases upto,
{
    let pred = |number: u32| !(world.states()[number as int].kind is Air);
    if upto == 0 {
        world.numbers().take(0).lemma_filter_len(pred);
    } else {
        let last = world.numbers()[upto - 1];
        lemma_blocks_are_counted(world, (upto - 1) as nat);
        assert(world.numbers().take(upto as int) =~= world.numbers().take(upto - 1).push(last));
        world.numbers().take(upto - 1).lemma_filter_push(last, pred);
    }
}

/// The cells lie in the list along `x`, then along `z`, then along `y`.
pub proof fn lemma_in_which_order_cells_lie(sx: int, sz: int, x: int, y: int, z: int)
    ensures
        world::cell_index(sx, sz, 0, 0, 0) == 0,
        world::cell_index(sx, sz, x + 1, y, z) == world::cell_index(sx, sz, x, y, z) + 1,
        world::cell_index(sx, sz, 0, y, z + 1) == world::cell_index(sx, sz, sx - 1, y, z) + 1,
        world::cell_index(sx, sz, 0, y + 1, 0) == world::cell_index(sx, sz, sx - 1, y, sz - 1)
            + 1,
{
    assert((0 * sz + 0) * sx + 0 == 0) by (nonlinear_arith);
    assert((y * sz + (z + 1)) * sx + 0 == (y * sz + z) * sx + (sx - 1) + 1) by (nonlinear_arith);
    assert(((y + 1) * sz + 0) * sx + 0 == (y * sz + (sz - 1)) * sx + (sx - 1) + 1)
        by (nonlinear_arith);
}

/// A file has one region, which has the name, the place and the size of the world, one
/// palette entry for each block state, and as many words as the cells need.
pub proof fn lemma_what_a_saved_file_states(world: &World, name: Seq<char>, file: LitematicFile)
    requires
        world.wf(),
        litematic::saved(world, name, file),
    ensures
        ({
            let region = file.regions@[0].1;
            let (sx, sy, sz) = world.sizes();
            let bits = bitpack::entry_bits(world.states().len()) as u32;
            let cells = world.numbers().len();
            &&& file.regions@.len() == file.metadata.region_count == 1
            &&& file.regions@[0].0@ == name
            &&& file.metadata.name@ == name
            &&& region.size.x == sx && region.size.y == sy && region.size.z == sz
            &&& file.metadata.enclosing_size == region.size
            &&& region.position.x == 0 && region.position.y == 0 && region.position.z == 0
            &&& cells <= i32::MAX ==> file.metadata.total_volume == cells
            &&& cells <= i32::MAX ==> file.metadata.total_blocks == world.numbers().filter(
                |number: u32| !(world.states()[number as int].kind is Air),
            ).len()
            &&& region.block_state_palette@.len() == world.states().len()
            &&& 64 * region.block_states@.len() >= cells * bits
            &&& 64 * (region.block_states@.len() - 1) < cells * bits || cells * bits == 0
        }),
{
    let cells = world.numbers().len();
    let pred = |number: u32| !(world.states()[number as int].kind is Air);
    lemma_blocks_are_counted(world, cells);
    assert(world.numbers().take(cells as int) =~= world.numbers());
    world.numbers().lemma_filter_len(pred);
    let bits = bitpack::entry_bits(world.states().len()) as u32;
    assert(cells * bits >= 0) by (nonlinear_arith)
        requires
            cells >= 0,
            bits >= 0,
    ;
}

/// A bit of a word is that of the number in binary.
pub proof fn lemma_bits_of_a_word(word: u64, k: u64)
    requires
        k < 64,
    ensures
        bitpack::bit(word, k as int) <==> (word as nat / power2::pow2(k as nat)) % 2 == 1,
{
    vstd::bits::lemma_u64_shr_is_div(word, k);
    let shifted: u64 = word >> k;
    assert((shifted & 1 == 1) <==> shifted % 2 == 1) by (bit_vector);
}

/// Packed words hold the bits of the values one after the other, the lowest first, from
/// the lowest bit of the first word on; the bits after the last value are not set.
pub proof fn lemma_where_bits_lie(values: Seq<u32>, bits: u32, longs: Seq<i64>, i: int, j: int)
    requires
        bitpack::packed(values, bits, longs),
        0 < bits,
        0 <= i < values.len(),
        0 <= j < bits,
    ensures
        i * bits + j < 64 * longs.len(),
        bitpack::bit(longs[(i * bits + j) / 64] as u64, (i * bits + j) % 64) == bitpack::bit(
            values[i] as u64,
            j,
        ),
        forall|k: int|
            values.len() * bits <= k < 64 * longs.len() ==> !(#[trigger] bitpack::stream_bit(
                longs,
                k,
            )),
{
    let k = i * bits + j;
    let count = values.len() as int;
    assert(k < count * bits && k >= 0) by (nonlinear_arith)
        requires
            k == i * bits + j,
            0 <= i < count,
            0 <= j < bits,
    ;
    assert(64 * longs.len() >= count * bits);
    vstd::arithmetic::div_mod::lemma_fundamental_div_mod_converse(k, bits as int, i, j);
    assert(bitpack::stream_bit(longs, k) == bitpack::carries(values, bits, k));
}

/// Unpacking gives entry after entry, the lowest bit first; where the words do not reach,
/// zero.
pub proof fn lemma_what_is_unpacked(
    longs: Seq<i64>,
    bits: u32,
    count: nat,
    entries: Seq<u32>,
    i: int,
    j: int,
)
    requires
        bitpack::unpacked(longs, bits, count, entries),
        0 <= i < count,
        0 <= j < bits <= 32,
    ensures
        entries.len() == count,
        (i + 1) * bits <= 64 * longs.len() ==> (bitpack::bit(entries[i] as u64, j)
            == bitpack::bit(longs[(i * bits + j) / 64] as u64, (i * bits + j) % 64)),
        (i + 1) * bits > 64 * longs.len() ==> entries[i] == 0,
{
    if (i + 1) * bits <= 64 * longs.len() {
        assert(bitpack::reads_at(longs, bits, i * bits, entries[i]));
    }
}

/// A region is read only if each of its sides is some cells long and its words hold all its
/// cells; the world is as large as the region, whichever way the sides run, and each cell
/// holds the block of the palette entry that the words number at the cell's place.
pub proof fn lemma_what_is_read_of_a_region(
    region: Region,
    result: Result<World, FormatError>,
)
    requires
        litematic::region_read(region, result),
        result is Ok,
    ensures
        ({
            let world = result->Ok_0;
            let (sx, sy, sz) = world.sizes();
            let size = region.size;
            let bits = bitpack::entry_bits(region.block_state_palette@.len());
            &&& sx > 0 && (sx == size.x || sx == -size.x)
            &&& sy > 0 && (sy == size.y || sy == -size.y)
            &&& sz > 0 && (sz == size.z || sz == -size.z)
            &&& 64 * region.block_states@.len() >= sx * sy * sz * bits
            &&& exists|raw: Seq<u32>|
                #[trigger] bitpack::unpacked(
                    region.block_states@,
                    bits as u32,
                    (sx * sy * sz) as nat,
                    raw,
                ) && forall|x: int, y: int, z: int|
                    world.holds(x, y, z) ==> {
                        let entry = region.block_state_palette@[raw[world::cell_index(
                            sx,
                            sz,
                            x,
                            y,
                            z,
                        )] as int];
                        #[trigger] world.at(x, y, z) == litematic::parsed(
                            entry.name@,
                            entry.properties@,
                        )
                    }
        }),
{
    let world = result->Ok_0;
    let (sx, sy, sz) = world.sizes();
    let size = region.size;
    let bits = bitpack::entry_bits(region.block_state_palette@.len());
    assert(litematic::volume(size) == sx * sy * sz);
    let raw = choose|raw: Seq<u32>|
        #[trigger] bitpack::unpacked(
            region.block_states@,
            bits as u32,
            litematic::volume(size) as nat,
            raw,
        ) && litematic::cells_read(region, raw, result);
    assert(bitpack::unpacked(
        region.block_states@,
        bits as u32,
        (sx * sy * sz) as nat,
        raw,
    ));
    assert(sx * sy * sz >= 0) by (nonlinear_arith)
        requires
            sx > 0,
            sy > 0,
            sz > 0,
    ;
    assert forall|x: int, y: int, z: int| world.holds(x, y, z) implies {
        let entry = region.block_state_palette@[raw[world::cell_index(sx, sz, x, y, z)] as int];
        #[trigger] world.at(x, y, z) == litematic::parsed(entry.name@, entry.properties@)
    } by {
        world::lemma_cell_inside(sx, sy, sz, x, y, z);
        assert(sy * sz * sx == sx * sy * sz) by (nonlinear_arith);
        let i = world::cell_index(sx, sz, x, y, z);
        assert(world.states()[world.numbers()[i] as int] == litematic::entry_block(
            region,
            raw[i] as int,
        ));
    }
}

/// A region with sides of some cells whose words hold all its cells and number none but
/// entries of its palette is read.
pub proof fn lemma_which_regions_are_read(
    region: Region,
    result: Result<World, FormatError>,
    raw: Seq<u32>,
)
    requires
        litematic::region_read(region, result),
        region.size.x != 0 && region.size.x != i32::MIN,
        region.size.y != 0 && region.size.y != i32::MIN,
        region.size.z != 0 && region.size.z != i32::MIN,
        ({
            let bits = bitpack::entry_bits(region.block_state_palette@.len());
            let count = litematic::volume(region.size);
            &&& count <= usize::MAX
            &&& 64 * region.block_states@.len() >= count * bits
            &&& bitpack::unpacked(region.block_states@, bits as u32, count as nat, raw)
        }),
        forall|entries: Seq<u32>, i: int|
            #![trigger entries[i]]
            bitpack::unpacked(
                region.block_states@,
                bitpack::entry_bits(region.block_state_palette@.len()) as u32,
                litematic::volume(region.size) as nat,
                entries,
            ) && 0 <= i < entries.len() ==> entries[i] < region.block_state_palette@.len(),
    ensures
        result is Ok,
{
    let bits = bitpack::entry_bits(region.block_state_palette@.len());
    let entries = choose|entries: Seq<u32>|
        #[trigger] bitpack::unpacked(
            region.block_states@,
            bits as u32,
            litematic::volume(region.size) as nat,
            entries,
        ) && litematic::cells_read(region, entries, result);
    if result is Err {
        let i = choose|i: int|
            0 <= i < entries.len() && #[trigger] entries[i] >= region.block_state_palette@.len();
        assert(entries[i] < region.block_state_palette@.len());
    }
}

/// The name of air without properties is read as nothing at all.
pub proof fn lemma_air_is_read_as_air()
    ensures
        litematic::parsed("minecraft:air"@, Map::empty()) == block::air(),
{
    let read = litematic::parsed("minecraft:air"@, Map::empty());
    assert(read.extra_properties =~= Map::empty());
}

} // verus!
