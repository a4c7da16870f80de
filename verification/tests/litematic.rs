use reda::formats::litematic::{
    block_state_to_entry, load, load_region, parse_block_name, save, LitematicFile, Metadata,
    PaletteEntry, Region, Vec3, DATA_VERSION_26_2, MAX_SUPPORTED_VERSION, SCHEMATIC_VERSION,
};
use reda::formats::nbt::FormatError;
use reda::properties::Properties;
use reda::redstone::block::{BlockKind, BlockState, Face, Facing, SlabHalf};
use reda::redstone::world::World;

fn props(pairs: &[(&str, &str)]) -> Properties {
    let mut properties = Properties::new();
    for (k, v) in pairs {
        properties.insert(k, v);
    }
    properties
}

fn keys(properties: &Properties) -> Vec<&str> {
    (0..properties.len()).map(|at| properties.key(at).as_str()).collect()
}

fn rich_world() -> World {
    let mut world = World::new(2, 1, 1);
    world.set(
        0,
        0,
        0,
        parse_block_name(
            "minecraft:redstone_wall_torch",
            &props(&[("facing", "north"), ("lit", "true")]),
        ),
    );
    world.set(
        1,
        0,
        0,
        parse_block_name(
            "minecraft:repeater",
            &props(&[("facing", "east"), ("delay", "2"), ("powered", "false")]),
        ),
    );
    world
}

#[test]
fn saving_a_world_gives_the_same_document_every_time() {
    let world = rich_world();
    let first = format!("{:?}", save(&world, "property_order"));
    for _ in 0..16 {
        assert_eq!(format!("{:?}", save(&world, "property_order")), first);
    }
}

#[test]
fn parses_plain_stone() {
    let b = parse_block_name("minecraft:stone", &props(&[]));
    assert_eq!(b.kind, BlockKind::Solid);
    assert_eq!(b.name, "minecraft:stone");
}

#[test]
fn parses_redstone_wire_power() {
    let b = parse_block_name("minecraft:redstone_wire", &props(&[("power", "11")]));
    assert_eq!(b.kind, BlockKind::RedstoneWire);
    assert_eq!(b.power, 11);
}

#[test]
fn parses_repeater_facing_delay_and_state() {
    let b = parse_block_name(
        "minecraft:repeater",
        &props(&[("facing", "north"), ("delay", "3"), ("powered", "true")]),
    );
    assert_eq!(b.kind, BlockKind::Repeater);
    assert_eq!(b.facing, Some(Facing::North));
    assert_eq!(b.delay, 3);
    assert!(b.lit);
}

#[test]
fn parses_slab_half() {
    let top = parse_block_name("minecraft:smooth_stone_slab", &props(&[("type", "top")]));
    assert_eq!(top.half, Some(SlabHalf::Top));

    let double = parse_block_name("minecraft:smooth_stone_slab", &props(&[("type", "double")]));
    assert_eq!(double.half, Some(SlabHalf::Double));
}

#[test]
fn parses_glass_as_non_conductive_kind() {
    let b = parse_block_name("minecraft:glass", &props(&[]));
    assert_eq!(b.kind, BlockKind::Glass);
}

#[test]
fn parses_wall_torch_with_facing() {
    let b = parse_block_name(
        "minecraft:redstone_wall_torch",
        &props(&[("facing", "east"), ("lit", "true")]),
    );
    assert_eq!(b.kind, BlockKind::WallTorch);
    assert_eq!(b.facing, Some(Facing::East));
    assert!(b.lit);
}

#[test]
fn parse_block_name_keeps_unknown_blocks_as_other() {
    let b = parse_block_name("minecraft:some_future_block", &props(&[]));
    assert_eq!(b.kind, BlockKind::Other);
    assert_eq!(b.name, "minecraft:some_future_block");
}

#[test]
fn block_state_to_entry_preserves_properties() {
    let b = parse_block_name(
        "minecraft:repeater",
        &props(&[("facing", "north"), ("delay", "3"), ("powered", "true")]),
    );
    let entry = block_state_to_entry(&b);
    assert_eq!(entry.name, "minecraft:repeater");
    assert_eq!(
        entry.properties.get("facing").map(String::as_str),
        Some("north")
    );
    assert_eq!(entry.properties.get("delay").map(String::as_str), Some("3"));
    assert_eq!(
        entry.properties.get("powered").map(String::as_str),
        Some("true")
    );
}

#[test]
fn block_state_to_entry_emits_no_properties_for_plain_blocks() {
    let b = parse_block_name("minecraft:stone", &props(&[]));
    let entry = block_state_to_entry(&b);
    assert!(entry.properties.len() == 0);
}

#[test]
fn axis_error_messages_name_the_axis() {
    let messages: Vec<String> = ["x", "y", "z"]
        .iter()
        .map(|axis| format!("region size.{axis} ({}) is out of range", i32::MIN))
        .collect();
    assert_eq!(messages.len(), 3);
    assert!(messages[0].contains("size.x"));
    assert!(messages[1].contains("size.y"));
    assert!(messages[2].contains("size.z"));
    assert!(
        messages[0] != messages[1] && messages[1] != messages[2],
        "each axis must produce a distinct message"
    );
}

#[test]
fn facing_is_not_emitted_for_blocks_that_have_no_such_property() {
    let mut stone = parse_block_name("minecraft:stone", &props(&[]));
    stone.facing = Some(Facing::North);

    let entry = block_state_to_entry(&stone);
    assert!(
        entry.properties.get("facing").is_none(),
        "a plain solid block must not carry a facing property"
    );
}

#[test]
fn slab_half_is_not_emitted_for_non_slabs() {
    let mut stone = parse_block_name("minecraft:stone", &props(&[]));
    stone.half = Some(SlabHalf::Top);

    let entry = block_state_to_entry(&stone);
    assert!(
        entry.properties.get("type").is_none(),
        "a non-slab must not carry a type property"
    );
}

#[test]
fn facing_is_still_emitted_for_blocks_that_do_have_it() {
    let rep = parse_block_name(
        "minecraft:repeater",
        &props(&[("facing", "east"), ("delay", "2"), ("powered", "false")]),
    );
    let entry = block_state_to_entry(&rep);
    assert_eq!(
        entry.properties.get("facing").map(String::as_str),
        Some("east"),
        "a repeater must keep its facing"
    );
}

#[test]
fn observer_facing_survives_the_round_trip() {
    let b = parse_block_name("minecraft:observer", &props(&[("facing", "north")]));
    let entry = block_state_to_entry(&b);
    assert_eq!(
        entry.properties.get("facing").map(String::as_str),
        Some("north"),
        "an observer's facing must not be lost"
    );
}

#[test]
fn comparator_mode_survives_the_round_trip() {
    let b = parse_block_name(
        "minecraft:comparator",
        &props(&[
            ("mode", "subtract"),
            ("powered", "true"),
            ("facing", "north"),
        ]),
    );
    let entry = block_state_to_entry(&b);
    assert_eq!(
        entry.properties.get("mode").map(String::as_str),
        Some("subtract"),
        "a subtract comparator must not become a compare comparator"
    );
    assert_eq!(
        entry.properties.get("facing").map(String::as_str),
        Some("north")
    );
    assert_eq!(
        entry.properties.get("powered").map(String::as_str),
        Some("true")
    );
}

#[test]
fn lever_face_and_repeater_locked_survive() {
    let lever = parse_block_name(
        "minecraft:lever",
        &props(&[("face", "floor"), ("facing", "north"), ("powered", "false")]),
    );
    let entry = block_state_to_entry(&lever);
    assert_eq!(
        entry.properties.get("face").map(String::as_str),
        Some("floor"),
        "a floor lever must not become a wall lever"
    );

    let rep = parse_block_name(
        "minecraft:repeater",
        &props(&[
            ("locked", "true"),
            ("delay", "1"),
            ("powered", "false"),
            ("facing", "east"),
        ]),
    );
    let rep_entry = block_state_to_entry(&rep);
    assert_eq!(
        rep_entry.properties.get("locked").map(String::as_str),
        Some("true")
    );
}

#[test]
fn lever_face_is_read_into_the_structured_field_not_extra_properties() {
    let lever = parse_block_name(
        "minecraft:lever",
        &props(&[
            ("face", "ceiling"),
            ("facing", "west"),
            ("powered", "false"),
        ]),
    );
    assert_eq!(lever.face, Some(Face::Ceiling));
    assert!(
        lever.extra_properties.get("face").is_none(),
        "face must be a structured field, not stashed in extra_properties"
    );
}

#[test]
fn button_face_survives_the_round_trip() {
    let button = parse_block_name(
        "minecraft:oak_button",
        &props(&[("face", "wall"), ("facing", "north"), ("powered", "true")]),
    );
    assert_eq!(button.face, Some(Face::Wall));
    let entry = block_state_to_entry(&button);
    assert_eq!(
        entry.properties.get("face").map(String::as_str),
        Some("wall"),
        "a wall button must not become a floor button"
    );
}

#[test]
fn face_is_not_emitted_for_blocks_that_have_no_such_property() {
    let mut stone = parse_block_name("minecraft:stone", &props(&[]));
    stone.face = Some(Face::Floor);

    let entry = block_state_to_entry(&stone);
    assert!(
        entry.properties.get("face").is_none(),
        "a plain solid block must not carry a face property"
    );
}

#[test]
fn plain_blocks_gain_no_properties_they_did_not_have() {
    let stone = parse_block_name("minecraft:stone", &props(&[]));
    assert!(block_state_to_entry(&stone).properties.len() == 0);
}

#[test]
fn every_input_property_comes_back_out() {
    let cases: Vec<(&str, Vec<(&str, &str)>)> = vec![
        (
            "minecraft:observer",
            vec![("facing", "up"), ("powered", "false")],
        ),
        (
            "minecraft:oak_stairs",
            vec![
                ("facing", "east"),
                ("half", "top"),
                ("shape", "straight"),
                ("waterlogged", "false"),
            ],
        ),
        (
            "minecraft:redstone_wire",
            vec![("power", "9"), ("north", "side"), ("east", "up")],
        ),
        (
            "minecraft:hopper",
            vec![("facing", "down"), ("enabled", "true")],
        ),
        (
            "minecraft:lever",
            vec![("face", "wall"), ("facing", "south"), ("powered", "true")],
        ),
        (
            "minecraft:stone_button",
            vec![
                ("face", "ceiling"),
                ("facing", "east"),
                ("powered", "false"),
            ],
        ),
    ];

    for (name, pairs) in cases {
        let input = props(&pairs);
        let state = parse_block_name(name, &input);
        let output = block_state_to_entry(&state).properties;

        let mut in_keys: Vec<&str> = keys(&input);
        let mut out_keys: Vec<&str> = keys(&output);
        in_keys.sort_unstable();
        out_keys.sort_unstable();
        assert_eq!(in_keys, out_keys, "key set changed for {name}");

        for (k, v) in &pairs {
            assert_eq!(
                output.get(k).map(String::as_str),
                Some(*v),
                "value changed for {name}.{k}"
            );
        }
    }
}

#[test]
fn input_component_names_are_recognised() {
    assert_eq!(
        parse_block_name("minecraft:stone_button", &props(&[])).kind,
        BlockKind::Button
    );
    assert_eq!(
        parse_block_name("minecraft:oak_pressure_plate", &props(&[])).kind,
        BlockKind::PressurePlate
    );
    assert_eq!(
        parse_block_name("minecraft:observer", &props(&[])).kind,
        BlockKind::Observer
    );
}

#[test]
fn weighted_pressure_plates_keep_their_analog_power() {
    let plate = parse_block_name(
        "minecraft:light_weighted_pressure_plate",
        &props(&[("power", "7")]),
    );
    assert_eq!(plate.kind, BlockKind::WeightedPressurePlate);
    assert_eq!(
        plate.power, 7,
        "analog power must reach the structured field"
    );

    let entry = block_state_to_entry(&plate);
    assert_eq!(entry.properties.get("power").map(String::as_str), Some("7"));
    assert!(
        entry.properties.get("powered").is_none(),
        "a weighted plate has no `powered` property; emitting one makes Minecraft reject the file"
    );
}

#[test]
fn ordinary_pressure_plates_still_use_powered() {
    let plate = parse_block_name(
        "minecraft:stone_pressure_plate",
        &props(&[("powered", "true")]),
    );
    assert_eq!(plate.kind, BlockKind::PressurePlate);
    let entry = block_state_to_entry(&plate);
    assert_eq!(
        entry.properties.get("powered").map(String::as_str),
        Some("true")
    );
    assert!(entry.properties.get("power").is_none());
}

#[test]
#[allow(clippy::assertions_on_constants)]
fn written_version_is_loadable_by_the_target_minecraft_version() {
    assert_eq!(
        SCHEMATIC_VERSION, 7,
        "26.2 Litematica writes schema version 7"
    );
    assert_eq!(
        DATA_VERSION_26_2, 4903,
        "26.2's live server reports data version 4903"
    );
    assert!(
        MAX_SUPPORTED_VERSION >= SCHEMATIC_VERSION,
        "we must be able to read back what we write"
    );
}

fn same_block(left: &BlockState, right: &BlockState) -> bool {
    left.same(right)
}

#[test]
fn a_saved_world_loads_as_it_was() {
    let mut world = World::new(3, 2, 2);
    world.set(0, 0, 0, parse_block_name("minecraft:stone", &props(&[])));
    world.set(
        2,
        1,
        1,
        parse_block_name("minecraft:redstone_wire", &props(&[("power", "9"), ("north", "side")])),
    );
    world.set(
        1,
        0,
        1,
        parse_block_name(
            "minecraft:lever",
            &props(&[("face", "wall"), ("facing", "south"), ("powered", "true")]),
        ),
    );
    let file = save(&world, "circuit");
    assert_eq!(file.version, SCHEMATIC_VERSION);
    assert_eq!(file.minecraft_data_version, DATA_VERSION_26_2);
    assert_eq!(file.metadata.name, "circuit");
    assert_eq!(file.metadata.region_count, 1);
    assert_eq!(file.metadata.total_volume, 12);
    assert_eq!(file.metadata.total_blocks, 3);
    let loaded = load(&file).expect("what was saved loads");
    assert_eq!(loaded.size(), (3, 2, 2));
    for x in 0..3 {
        for y in 0..2 {
            for z in 0..2 {
                assert!(same_block(loaded.get(x, y, z), world.get(x, y, z)), "({x}, {y}, {z})");
            }
        }
    }
}

fn empty_file(version: i32, regions: Vec<(String, Region)>) -> LitematicFile {
    LitematicFile {
        minecraft_data_version: DATA_VERSION_26_2,
        version,
        sub_version: 1,
        metadata: Metadata {
            name: "test".to_string(),
            author: "".to_string(),
            description: "".to_string(),
            region_count: 1,
            total_volume: 1,
            total_blocks: 0,
            time_created: 0,
            time_modified: 0,
            enclosing_size: Vec3 { x: 1, y: 1, z: 1 },
        },
        regions,
    }
}

fn region(x: i32, y: i32, z: i32, names: &[&str], block_states: Vec<i64>) -> Region {
    Region {
        position: Vec3 { x: 0, y: 0, z: 0 },
        size: Vec3 { x, y, z },
        block_state_palette: names
            .iter()
            .map(|name| PaletteEntry { name: name.to_string(), properties: Properties::new() })
            .collect(),
        block_states,
    }
}

#[test]
fn a_version_that_is_too_old_or_too_new_is_refused() {
    for version in [5, 8] {
        let refused = load(&empty_file(version, Vec::new()));
        assert!(matches!(refused, Err(FormatError::UnsupportedVersion(found)) if found == version));
    }
}

#[test]
fn a_file_without_regions_is_refused() {
    let refused = load(&empty_file(SCHEMATIC_VERSION, Vec::new()));
    let message = refused.expect_err("nothing to load").message();
    assert!(message.contains("Regions"), "{message}");
}

#[test]
fn the_region_whose_name_comes_first_is_the_one_that_is_read() {
    let air = "minecraft:air";
    let file = empty_file(
        SCHEMATIC_VERSION,
        vec![
            ("b".to_string(), region(2, 1, 1, &[air, "minecraft:stone"], vec![0b0101])),
            ("a".to_string(), region(1, 1, 1, &[air, "minecraft:glass"], vec![0b01])),
        ],
    );
    let world = load(&file).expect("loads");
    assert_eq!(world.size(), (1, 1, 1));
    assert_eq!(world.get(0, 0, 0).kind, BlockKind::Glass);
}

#[test]
fn a_negative_size_runs_towards_the_negative_end() {
    let world = load_region(&region(-2, 1, -1, &["minecraft:air", "minecraft:stone"], vec![0b0100]))
        .expect("loads");
    assert_eq!(world.size(), (2, 1, 1));
    assert_eq!(world.get(0, 0, 0).kind, BlockKind::Air);
    assert_eq!(world.get(1, 0, 0).kind, BlockKind::Solid);
}

#[test]
fn a_size_out_of_range_names_its_axis() {
    let sizes = [(i32::MIN, 1, 1, "size.x"), (1, i32::MIN, 1, "size.y"), (1, 1, i32::MIN, "size.z")];
    for (x, y, z, axis) in sizes {
        let refused = load_region(&region(x, y, z, &["minecraft:air"], vec![0]));
        let message = refused.expect_err("out of range").message();
        assert!(message.contains(axis), "{message}");
        assert!(message.contains("-2147483648"), "{message}");
    }
}

#[test]
fn an_empty_box_is_refused() {
    assert!(load_region(&region(0, 1, 1, &["minecraft:air"], vec![0])).is_err());
}

#[test]
fn a_property_that_says_nothing_known_is_kept_as_it_was() {
    let state = parse_block_name("minecraft:repeater", &props(&[("facing", "sideways")]));
    assert_eq!(state.facing, None);
    let entry = block_state_to_entry(&state);
    assert_eq!(entry.properties.get("powered").map(String::as_str), Some("false"));
}

#[test]
fn a_block_without_a_facing_a_face_or_a_type_loads_as_it_was() {
    let mut world = World::new(3, 1, 1);
    world.set(
        0,
        0,
        0,
        parse_block_name("minecraft:redstone_wall_torch", &props(&[("lit", "true")])),
    );
    world.set(1, 0, 0, parse_block_name("minecraft:lever", &props(&[("powered", "false")])));
    world.set(2, 0, 0, parse_block_name("minecraft:smooth_stone_slab", &props(&[])));
    let loaded = load(&save(&world, "absent")).expect("what was saved loads");
    for x in 0..3 {
        assert_eq!(loaded.get(x, 0, 0).facing, None);
        assert!(same_block(loaded.get(x, 0, 0), world.get(x, 0, 0)), "{x}");
    }
}

#[test]
fn a_block_that_is_not_what_its_name_says_loads_as_its_name_says() {
    let mut world = World::new(1, 1, 1);
    world.set(0, 0, 0, BlockState::plain(BlockKind::RedstoneWire, "minecraft:stone"));
    let loaded = load(&save(&world, "renamed")).expect("what was saved loads");
    assert_eq!(loaded.get(0, 0, 0).kind, BlockKind::Solid);
    let again = load(&save(&loaded, "renamed")).expect("what was saved loads");
    assert!(same_block(again.get(0, 0, 0), loaded.get(0, 0, 0)));
}
