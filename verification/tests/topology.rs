use reda::compile::expansion::{
    entry_cost, expansion_cost, expansion_cost_for_polarity, expansion_for,
    expansion_for_polarity, merge_footprint_area, nor_footprint_area, Operand, SignalPolarity,
    Step, TORCH_DELAY_GAME_TICKS,
};
use reda::compile::topology::{
    buf_entry, gate_kind_for_yosys_cell, known_yosys_cell_types, nor_entry, or_bare_entry,
    or_isolated_entry, GateKind, Library, Primitive, TemplateNode,
};

#[test]
fn default_library_has_exactly_one_entry_per_nor_arity_one_to_three() {
    let library = Library::default_library();
    for arity in 1..=3 {
        let entries = library.entries_for(GateKind::Nor(arity));
        assert_eq!(entries.len(), 1, "arity {arity} should have exactly one entry");
    }
    assert!(library.entries_for(GateKind::Nor(4)).is_empty(), "fan-in 4 has no entry -- it is not hardware");
}

#[test]
fn not_is_nor_of_one() {
    assert_eq!(GateKind::inverter(), GateKind::Nor(1));
}

#[test]
fn every_nor_entry_is_a_single_torch_node_with_no_internal_edges() {
    for arity in 1..=3 {
        let entry = nor_entry(arity);
        assert_eq!(entry.template.nodes, vec![(TemplateNode::Torch, Primitive::Torch)], "arity {arity}");
        assert!(entry.template.internal_edges.is_empty(), "arity {arity}: a single-node entry has nothing to connect internally");
        assert_eq!(entry.template.output, Some(TemplateNode::Torch), "arity {arity}");
    }
}

#[test]
fn every_nor_entry_lands_all_of_its_arity_many_inputs_on_the_torch() {
    for arity in 1..=3 {
        let entry = nor_entry(arity);
        assert_eq!(entry.template.inputs.len(), arity, "arity {arity}");
        assert!(entry.template.inputs.iter().all(|&role| role == TemplateNode::Torch), "arity {arity}");
    }
}

#[test]
fn choose_picks_the_first_registered_entry() {
    let library = Library::default_library();
    let chosen = library.first_choice(GateKind::Nor(2)).expect("NOR2 has an entry");
    assert_eq!(chosen.name, "torch-nor2");
}

#[test]
fn choose_returns_none_for_an_unregistered_gate_kind() {
    let library = Library::default_library();
    assert!(library.first_choice(GateKind::Nor(99)).is_none());
}

#[test]
fn gate_kind_for_yosys_cell_maps_the_simple_cells_abc_actually_emits() {
    assert_eq!(gate_kind_for_yosys_cell("$_NOT_"), Some(GateKind::Nor(1)), "a 1-input NOR *is* an inverter");
    assert_eq!(gate_kind_for_yosys_cell("$_NOR_"), Some(GateKind::Nor(2)));
    assert_eq!(gate_kind_for_yosys_cell("$_OR_"), Some(GateKind::Or(2)), "an OR is a wire merge, not a gate");
    assert_eq!(gate_kind_for_yosys_cell("$_AND_"), Some(GateKind::And));
    assert_eq!(gate_kind_for_yosys_cell("$_NAND_"), Some(GateKind::Nand));
    assert_eq!(gate_kind_for_yosys_cell("$_ANDNOT_"), Some(GateKind::AndNot));
    assert_eq!(gate_kind_for_yosys_cell("$_ORNOT_"), Some(GateKind::OrNot));
    assert_eq!(gate_kind_for_yosys_cell("$_MUX_"), Some(GateKind::Mux));
    assert_eq!(gate_kind_for_yosys_cell("$_BUF_"), Some(GateKind::Buf));
}
#[test]
fn every_known_yosys_cell_expands_and_its_arity_is_the_kinds_own() {
    for (cell_type, kind) in known_yosys_cell_types() {
        let expansion = expansion_for(kind);
        assert!(expansion.validate(kind), "{cell_type} ({kind:?})");
        assert!(!expansion.steps.is_empty(), "{cell_type} ({kind:?}) expands to nothing");
    }
}

#[test]
fn gate_kind_for_yosys_cell_has_no_mapping_for_constants_state_or_tri_state() {
    assert_eq!(gate_kind_for_yosys_cell("$__ZERO"), None);
    assert_eq!(gate_kind_for_yosys_cell("$__ONE"), None);
    assert_eq!(gate_kind_for_yosys_cell("$_DFF_P_"), None, "sequential logic is a later task, not this one");
    assert_eq!(gate_kind_for_yosys_cell("$_DLATCH_P_"), None);
    assert_eq!(gate_kind_for_yosys_cell("$_TBUF_"), None, "there is no tri-state in redstone");
    assert_eq!(gate_kind_for_yosys_cell("$_and_"), None, "the table is exact-match, not case-insensitive");
    assert_eq!(gate_kind_for_yosys_cell("NOR2"), None);
    assert_eq!(gate_kind_for_yosys_cell("OR2"), None);
    assert_eq!(gate_kind_for_yosys_cell("BUF"), None);
}

#[test]
fn buf_entry_is_two_chained_torches_with_the_input_on_the_first_and_the_output_from_the_second() {
    let entry = buf_entry();
    assert_eq!(
        entry.template.nodes,
        vec![(TemplateNode::Torch, Primitive::Torch), (TemplateNode::SecondTorch, Primitive::Torch)]
    );
    assert_eq!(entry.template.internal_edges, vec![(TemplateNode::Torch, TemplateNode::SecondTorch)]);
    assert_eq!(entry.template.inputs, vec![TemplateNode::Torch]);
    assert_eq!(entry.template.output, Some(TemplateNode::SecondTorch));
}

#[test]
fn entry_cost_of_every_nor_arity_is_its_own_footprint_at_one_torch_delay() {
    for arity in 1..=3 {
        let cost = entry_cost(GateKind::Nor(arity), &nor_entry(arity));
        assert_eq!(cost.area, nor_footprint_area(arity), "arity {arity}");
        assert_eq!(cost.delay_game_ticks, TORCH_DELAY_GAME_TICKS, "arity {arity}");
    }
}

#[test]
fn entry_cost_of_buf_is_two_nor1_footprints_at_two_torch_delays() {
    let cost = entry_cost(GateKind::Buf, &buf_entry());
    assert_eq!(cost.area, 2 * nor_footprint_area(1));
    assert_eq!(cost.delay_game_ticks, 2 * TORCH_DELAY_GAME_TICKS);
}
#[test]
fn every_cell_footprint_matches_what_the_placer_actually_reserves() {
    for (arity, (x, _, z)) in [(1, (2, 1, 3)), (2, (3, 1, 3)), (3, (3, 1, 4))] {
        assert_eq!(
            (x * z) as u32,
            nor_footprint_area(arity),
            "NOR arity {arity}: a cell of {x}x{z}, nor_footprint_area says {}",
            nor_footprint_area(arity)
        );
    }

    for (arity, (x, _, z)) in [(2, (3, 1, 2)), (3, (3, 1, 3))] {
        assert_eq!(
            (x * z) as u32,
            merge_footprint_area(arity),
            "OR arity {arity}: a cell of {x}x{z}, merge_footprint_area says {}",
            merge_footprint_area(arity)
        );
    }
}

#[test]
fn default_library_registers_a_bare_and_an_isolated_entry_for_or_two_and_three() {
    let library = Library::default_library();
    for arity in 2..=3 {
        let entries = library.entries_for(GateKind::Or(arity));
        assert_eq!(entries.len(), 2, "arity {arity} should have exactly the bare and isolated entries");
        assert!(entries[0].name.contains("bare"), "arity {arity}: bare entry should be registered first");
        assert!(entries[1].name.contains("isolated"), "arity {arity}");
    }
    assert!(library.entries_for(GateKind::Or(4)).is_empty(), "fan-in 4 has no entry -- it is not hardware");
    assert!(library.entries_for(GateKind::Or(1)).is_empty(), "a 1-input OR is not registered");
}

#[test]
fn or_bare_entry_has_no_nodes_no_inputs_and_no_output_primitive() {
    for arity in 2..=3 {
        let entry = or_bare_entry(arity);
        assert!(entry.template.nodes.is_empty(), "arity {arity}: a bare merge places nothing");
        assert!(entry.template.internal_edges.is_empty(), "arity {arity}");
        assert!(
            entry.template.inputs.is_empty(),
            "arity {arity}: there is no node for a declared input to land on"
        );
        assert_eq!(entry.template.output, None, "arity {arity}: no primitive realises this gate's output");
    }
}

#[test]
fn or_isolated_entry_has_one_distinct_repeater_per_branch_and_still_no_output_primitive() {
    for arity in 2..=3 {
        let entry = or_isolated_entry(arity);
        assert_eq!(entry.template.nodes.len(), arity, "arity {arity}: one repeater per branch");
        for &(role, primitive) in &entry.template.nodes {
            assert_eq!(primitive, Primitive::Repeater, "arity {arity}: every node here is a repeater");
            assert!(matches!(role, TemplateNode::IsolatingRepeater(_)), "arity {arity}");
        }
        let distinct: std::collections::BTreeSet<TemplateNode> = entry.template.inputs.iter().copied().collect();
        assert_eq!(distinct.len(), arity, "arity {arity}: every input must name a distinct node");
        assert!(entry.template.internal_edges.is_empty(), "arity {arity}: branches do not feed each other");
        assert_eq!(entry.template.output, None, "arity {arity}: even isolated, a merge has no output primitive");
    }
}

#[test]
fn entry_cost_of_a_bare_or_merge_is_its_reserved_ground_plan_at_no_torch_delay() {
    for arity in 2..=3 {
        let cost = entry_cost(GateKind::Or(arity), &or_bare_entry(arity));
        assert_eq!(cost.area, merge_footprint_area(arity), "arity {arity}");
        assert_eq!(cost.delay_game_ticks, 0, "arity {arity}");
    }
}

#[test]
fn entry_cost_of_an_isolated_or_merge_is_exactly_the_bare_entrys() {
    for arity in 2..=3 {
        let bare = entry_cost(GateKind::Or(arity), &or_bare_entry(arity));
        let isolated = entry_cost(GateKind::Or(arity), &or_isolated_entry(arity));
        assert_eq!(isolated, bare, "arity {arity}: one number has to price both realisations");
        assert_eq!(isolated.area, merge_footprint_area(arity), "arity {arity}");
        assert_eq!(isolated.delay_game_ticks, 0, "arity {arity}");
    }
}
#[test]
fn no_library_entry_is_priced_at_zero_area() {
    let library = Library::default_library();
    for kind in every_gate_kind() {
        for entry in library.entries_for(kind) {
            let cost = entry_cost(kind, entry);
            assert!(cost.area > 0, "{kind:?}'s entry `{}` is priced at zero area", entry.name);
        }
    }
}

fn every_gate_kind() -> Vec<GateKind> {
    let mut kinds: Vec<GateKind> = (1..=3).map(GateKind::Nor).chain((2..=3).map(GateKind::Or)).collect();
    for kind in [
        GateKind::Buf,
        GateKind::And,
        GateKind::Nand,
        GateKind::Xor,
        GateKind::Xnor,
        GateKind::AndNot,
        GateKind::OrNot,
        GateKind::Aoi3,
        GateKind::Oai3,
        GateKind::Aoi4,
        GateKind::Oai4,
        GateKind::Mux,
        GateKind::Nmux,
    ] {
        match kind {
            GateKind::Nor(_) | GateKind::Or(_) => unreachable!("listed separately, with their arities"),
            GateKind::Buf
            | GateKind::And
            | GateKind::Nand
            | GateKind::Xor
            | GateKind::Xnor
            | GateKind::AndNot
            | GateKind::OrNot
            | GateKind::Aoi3
            | GateKind::Oai3
            | GateKind::Aoi4
            | GateKind::Oai4
            | GateKind::Mux
            | GateKind::Nmux => kinds.push(kind),
        }
    }
    kinds
}

#[test]
fn every_expansion_is_well_formed() {
    for kind in every_gate_kind() {
        for polarity in [SignalPolarity::Positive, SignalPolarity::Negative] {
            assert!(expansion_for_polarity(kind, polarity).validate(kind), "{kind:?}");
        }
    }
}
#[test]
fn every_positive_expansion_computes_its_own_gates_truth_table() {
    for kind in every_gate_kind() {
        let arity = kind.arity();
        let expansion = expansion_for_polarity(kind, SignalPolarity::Positive);
        for bits in 0..(1u32 << arity) {
            let inputs: Vec<bool> = (0..arity).map(|i| (bits >> i) & 1 == 1).collect();
            assert_eq!(
                expansion.evaluate(&inputs),
                kind.evaluate(&inputs),
                "{kind:?} on {inputs:?}: the expansion does not compute its gate"
            );
        }
    }
}
#[test]
fn every_negative_expansion_computes_the_complement_of_its_gate() {
    for kind in every_gate_kind() {
        let arity = kind.arity();
        for bits in 0..(1u32 << arity) {
            let inputs: Vec<bool> = (0..arity).map(|i| (bits >> i) & 1 == 1).collect();
            assert_eq!(
                expansion_for_polarity(kind, SignalPolarity::Negative).evaluate(&inputs),
                !kind.evaluate(&inputs),
                "{kind:?} on {inputs:?}: the negative expansion does not compute the complement"
            );
        }
    }
}

#[test]
fn nand_is_the_negative_realisation_of_and() {
    assert_eq!(
        expansion_cost_for_polarity(GateKind::And, SignalPolarity::Negative),
        expansion_cost(GateKind::Nand),
    );
}

#[test]
fn and_selects_signed_torch_and_merge_topologies() {
    let negative_inputs = vec![
        Operand::Input { pin: 0, polarity: SignalPolarity::Negative },
        Operand::Input { pin: 1, polarity: SignalPolarity::Negative },
    ];
    assert_eq!(
        expansion_for_polarity(GateKind::And, SignalPolarity::Positive).steps,
        vec![Step::Nor(negative_inputs.clone())],
    );
    assert_eq!(
        expansion_for_polarity(GateKind::And, SignalPolarity::Negative).steps,
        vec![Step::Merge(negative_inputs)],
    );
}
#[test]
fn a_realisable_kinds_expansion_is_one_step_of_itself() {
    for arity in 1..=3 {
        assert_eq!(
            expansion_for(GateKind::Nor(arity)).steps,
            vec![Step::Nor(
                (0..arity)
                    .map(|pin| Operand::Input { pin, polarity: SignalPolarity::Positive })
                    .collect()
            )]
        );
    }
    for arity in 2..=3 {
        assert_eq!(
            expansion_for(GateKind::Or(arity)).steps,
            vec![Step::Merge(
                (0..arity)
                    .map(|pin| Operand::Input { pin, polarity: SignalPolarity::Positive })
                    .collect()
            )]
        );
    }
}
#[test]
fn positive_buf_reads_the_negative_input_rail() {
    let expansion = expansion_for(GateKind::Buf);
    assert_eq!(
        expansion.steps,
        vec![Step::Nor(vec![Operand::Input {
            pin: 0,
            polarity: SignalPolarity::Negative,
        }])]
    );
}
#[test]
fn entry_cost_and_expansion_cost_agree_for_every_realisable_kind() {
    let library = Library::default_library();
    for arity in 1..=3 {
        let kind = GateKind::Nor(arity);
        let entry = library.first_choice(kind).expect("registered");
        assert_eq!(entry_cost(kind, entry), expansion_cost(kind), "{kind:?}");
    }
    for arity in 2..=3 {
        let kind = GateKind::Or(arity);
        for entry in library.entries_for(kind) {
            assert_eq!(entry_cost(kind, entry), expansion_cost(kind), "{kind:?} / `{}`", entry.name);
        }
    }
}
#[test]
fn finishing_in_a_merge_costs_no_gate_delay_and_finishing_in_a_torch_costs_one() {
    let torch = TORCH_DELAY_GAME_TICKS;
    assert_eq!(expansion_cost(GateKind::Nand).delay_game_ticks, 0);
    assert_eq!(expansion_cost(GateKind::And).delay_game_ticks, torch);
    assert_eq!(expansion_cost(GateKind::Xor).delay_game_ticks, torch);
    assert_eq!(expansion_cost(GateKind::Xnor).delay_game_ticks, 2 * torch);
    assert_eq!(expansion_cost(GateKind::Oai4).delay_game_ticks, torch);
    assert_eq!(expansion_cost(GateKind::Aoi4).delay_game_ticks, 2 * torch);
}

#[test]
fn wire_names_round_trip_for_every_kind() {
    for kind in every_gate_kind() {
        let name = kind.wire_name();
        assert_eq!(
            GateKind::from_wire_name(name, kind.arity()),
            Some(kind),
            "`{name}` must read back as the kind that wrote it"
        );
    }
    assert_eq!(GateKind::from_wire_name("nonsense", 2), None);
}

#[test]
fn the_last_step_is_the_output() {
    let expansion = expansion_for(GateKind::Xor);
    assert_eq!(expansion.output_step(), expansion.steps.len() - 1);
}

#[test]
fn only_a_nor_and_an_or_are_hardware() {
    assert!(GateKind::Nor(2).is_realisable());
    assert!(GateKind::Or(3).is_realisable());
    for kind in [GateKind::And, GateKind::Xor, GateKind::Mux, GateKind::Buf] {
        assert!(!kind.is_realisable());
    }
}

#[test]
fn every_entry_of_the_default_library_speaks_of_its_own_nodes() {
    let library = Library::default_library();
    let kinds = [
        GateKind::Nor(1),
        GateKind::Nor(2),
        GateKind::Nor(3),
        GateKind::Buf,
        GateKind::Or(2),
        GateKind::Or(3),
    ];
    for kind in kinds {
        for entry in library.entries_for(kind) {
            let template = &entry.template;
            let nodes: Vec<TemplateNode> = template.nodes.iter().map(|(node, _)| *node).collect();
            assert!(template.inputs.iter().chain(&template.output).all(|node| nodes.contains(node)));
            assert!(template
                .internal_edges
                .iter()
                .all(|(from, to)| nodes.contains(from) && nodes.contains(to)));
            assert_eq!(template.inputs.len(), if nodes.is_empty() { 0 } else { kind.arity() });
            assert_eq!(template.output.is_none(), matches!(kind, GateKind::Or(_)));
        }
    }
}
