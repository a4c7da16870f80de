use reda::compile::expansion::{expansion_for, Step};
use reda::compile::netlist::{CompileError, Gate, Netlist};
use reda::compile::topology::{gate_kind_for_yosys_cell, known_yosys_cell_types, GateKind, Library};
use reda::frontend::json::Json;
use reda::frontend::yosys_json::{netlist_from_json, netlist_from_text, pins_for};
use reda::frontend::{synthesis_outcome, FrontendError};
use reda::properties::Properties;

fn convert(value: &serde_json::Value) -> Json {
    match value {
        serde_json::Value::Null => Json::Null,
        serde_json::Value::Bool(set) => Json::Bool(*set),
        serde_json::Value::Number(number) => match number.as_i64() {
            Some(integer) => Json::Integer(integer),
            None => Json::Number(number.to_string()),
        },
        serde_json::Value::String(text) => Json::Text(text.clone()),
        serde_json::Value::Array(items) => Json::Array(items.iter().map(convert).collect()),
        serde_json::Value::Object(fields) => {
            Json::Object(fields.iter().map(|(name, field)| (name.clone(), convert(field))).collect())
        }
    }
}

fn parsed(text: &str) -> Json {
    let value: serde_json::Value = serde_json::from_str(text).expect("test data is JSON");
    convert(&value)
}

fn module_text(ports: &str, cells: &str) -> String {
    format!("{{\"modules\": {{\"top\": {{\"ports\": {{{ports}}}, \"cells\": {{{cells}}}}}}}}}")
}

fn module(ports: &str, cells: &str) -> Json {
    parsed(&module_text(ports, cells))
}

fn read(ports: &str, cells: &str) -> Result<(Netlist, Properties), FrontendError> {
    netlist_from_text(&module_text(ports, cells), "top")
}

fn refusal(ports: &str, cells: &str) -> String {
    match read(ports, cells) {
        Ok(_) => panic!("must be refused"),
        Err(error) => error.message(),
    }
}

const A_TO_Y: &str = r#""a": {"direction": "input", "bits": [2]},
    "y": {"direction": "output", "bits": [3]}"#;

#[test]
fn every_accepted_yosys_cell_type_lowers_to_something_the_library_can_place() {
    let library = Library::default_library();
    for (cell_type, kind) in known_yosys_cell_types() {
        let expansion = expansion_for(kind);
        assert!(!expansion.steps.is_empty(), "{cell_type} ({kind:?}) has no expansion");
        for step in &expansion.steps {
            let realised = match step {
                Step::Nor(operands) => GateKind::Nor(operands.len()),
                Step::Merge(operands) => GateKind::Or(operands.len()),
            };
            assert!(
                library.first_choice(realised).is_some(),
                "{cell_type} ({kind:?}) expands through {realised:?}, which has no library entry"
            );
        }
    }
}

#[test]
fn an_unmapped_cell_type_has_no_gate_kind() {
    assert!(gate_kind_for_yosys_cell("$__ZERO").is_none());
    assert!(gate_kind_for_yosys_cell("$__ONE").is_none());
    assert!(gate_kind_for_yosys_cell("$_DFF_P_").is_none());
    assert!(gate_kind_for_yosys_cell("").is_none());
}

#[test]
fn every_known_cell_type_has_pin_names_and_vice_versa() {
    for (cell_type, kind) in known_yosys_cell_types() {
        let pins = pins_for(cell_type).unwrap_or_else(|| panic!("{cell_type} has no pin names"));
        assert!(!pins.contains(&"Y"), "{cell_type}: `Y` is the output, not an input pin");
        if let Some(fixed) = kind.fixed_arity() {
            assert_eq!(pins.len(), fixed, "{cell_type}: {kind:?} takes {fixed} input(s)");
        } else {
            assert_eq!(pins.len(), kind.arity(), "{cell_type}");
        }
    }
    for cell_type in ["$_DFF_P_", "$__ZERO", "NOR2", ""] {
        assert!(pins_for(cell_type).is_none(), "{cell_type} has pin names but no GateKind");
    }
}

#[test]
fn a_buf_cell_becomes_one_buf_gate_not_a_realisation_of_one() {
    let (netlist, port_map) = read(
        A_TO_Y,
        r#""buf0": {"type": "$_BUF_", "connections": {"A": [2], "Y": [3]}}"#,
    )
    .expect("a lone $_BUF_ cell must synthesize");

    assert_eq!(netlist.inputs, vec!["a".to_string()]);
    assert_eq!(netlist.gates.len(), 1, "one Yosys cell is one netlist gate");
    assert_eq!(netlist.gates[0].kind, GateKind::Buf);
    assert_eq!(netlist.gates[0].inputs, vec!["a".to_string()]);
    assert_eq!(port_map.get("y"), Some(&netlist.gates[0].output));
}

#[test]
fn a_mux_cell_keeps_its_kind_and_its_a_b_s_pin_order() {
    let (netlist, _) = read(
        r#""a": {"direction": "input", "bits": [2]}, "b": {"direction": "input", "bits": [3]},
        "s": {"direction": "input", "bits": [4]}, "y": {"direction": "output", "bits": [5]}"#,
        r#""mux0": {"type": "$_MUX_", "connections": {"A": [2], "B": [3], "S": [4], "Y": [5]}}"#,
    )
    .expect("a lone $_MUX_ cell must synthesize");
    assert_eq!(netlist.gates.len(), 1);
    assert_eq!(netlist.gates[0].kind, GateKind::Mux);
    assert_eq!(
        netlist.gates[0].inputs,
        vec!["a".to_string(), "b".to_string(), "s".to_string()],
        "pin order is A, B, S -- `Y = S ? B : A` is written against it"
    );
}

#[test]
fn a_nor_cell_with_a_constant_zero_pin_folds_to_a_real_1_input_nor() {
    let (netlist, port_map) = read(
        r#""a": {"direction": "input", "bits": [2]}, "y": {"direction": "output", "bits": [4]}"#,
        r#""nor0": {"type": "$_NOR_", "connections": {"A": [2], "B": ["0"], "Y": [4]}}"#,
    )
    .expect("NOR with one constant-0 pin must synthesize");

    assert_eq!(netlist.gates.len(), 1, "folding must not synthesize an extra gate");
    assert_eq!(netlist.gates[0].inputs, vec!["a".to_string()], "the folded B pin must not appear");
    assert_eq!(netlist.gates[0].kind, GateKind::Nor(1));
    assert_eq!(port_map.get("y"), Some(&netlist.gates[0].output));
}

#[test]
fn a_constant_pin_on_a_fixed_arity_cell_is_rejected_by_name() {
    let message = refusal(
        r#""a": {"direction": "input", "bits": [2]}, "y": {"direction": "output", "bits": [4]}"#,
        r#""and0": {"type": "$_AND_", "connections": {"A": [2], "B": ["0"], "Y": [4]}}"#,
    );
    assert!(message.contains("and0"), "error must name the cell: {message}");
    assert!(message.contains('B'), "error must name the pin: {message}");
}

#[test]
fn an_unmapped_cell_type_fails_loudly_and_names_the_cell() {
    let message = refusal(
        A_TO_Y,
        r#""dff0": {"type": "$_DFF_P_", "connections": {"D": [2], "Y": [3]}}"#,
    );
    assert!(message.contains("dff0"), "error must name the cell: {message}");
    assert!(message.contains("$_DFF_P_"), "error must name the cell's type: {message}");
    assert!(message.contains("[\"$_NOT_\", \"$_NOR_\""), "error must list what there is: {message}");
}

#[test]
fn gates_come_out_in_the_order_in_which_they_are_read() {
    let (netlist, ports) = read(
        r#""a": {"direction": "input", "bits": [2]}, "b": {"direction": "input", "bits": [3]},
        "y": {"direction": "output", "bits": [5]}"#,
        r#""first": {"type": "$_NOT_", "connections": {"A": [4], "Y": [5]}},
        "second": {"type": "$_NOR_", "connections": {"A": [2], "B": [3], "Y": [4]}}"#,
    )
    .expect("two cells");
    assert_eq!(netlist.gates.len(), 2);
    assert_eq!(netlist.gates[0].kind, GateKind::Nor(2), "what is read comes before what reads it");
    assert_eq!(netlist.gates[1].inputs, vec![netlist.gates[0].output.clone()]);
    assert_eq!(netlist.outputs, vec![netlist.gates[1].output.clone()]);
    assert_eq!(ports.get("y"), Some(&netlist.gates[1].output));
    assert_eq!(netlist.checked_order().expect("it can be ordered"), vec![0, 1]);
}

#[test]
fn a_wide_port_has_a_name_for_each_bit() {
    let (netlist, ports) = read(
        r#""in": {"direction": "input", "bits": [2, 3]},
        "out": {"direction": "output", "bits": [4, 5]}"#,
        r#""low": {"type": "$_NOT_", "connections": {"A": [2], "Y": [4]}},
        "high": {"type": "$_NOT_", "connections": {"A": [3], "Y": [5]}}"#,
    )
    .expect("a wide port");
    assert_eq!(netlist.inputs, vec!["in[0]".to_string(), "in[1]".to_string()]);
    assert_eq!(ports.len(), 2);
    assert_eq!(ports.get("out[0]"), Some(&netlist.outputs[0]));
    assert_eq!(ports.get("out[1]"), Some(&netlist.outputs[1]));
}

#[test]
fn an_output_that_is_an_input_gets_a_buffer_of_its_own() {
    let ports = r#""a": {"direction": "input", "bits": [2]},
        "y": {"direction": "output", "bits": [2]}, "z": {"direction": "output", "bits": [2]}"#;
    let (netlist, map) = read(ports, "").expect("a wire");
    assert_eq!(netlist.gates.len(), 1, "the two outputs share it");
    assert_eq!(netlist.gates[0].kind, GateKind::Buf);
    assert_eq!(netlist.outputs, vec![netlist.gates[0].output.clone()]);
    assert_eq!(map.get("y"), map.get("z"));
}

#[test]
fn an_or_with_one_input_left_is_a_wire_and_its_output_is_buffered() {
    let (netlist, _) = read(
        A_TO_Y,
        r#""or0": {"type": "$_OR_", "connections": {"A": [2], "B": ["0"], "Y": [3]}}"#,
    )
    .expect("an alias");
    assert_eq!(netlist.gates.len(), 1);
    assert_eq!(netlist.gates[0].kind, GateKind::Buf, "no output is an input");
    assert_eq!(netlist.gates[0].inputs, vec!["a".to_string()]);
}

#[test]
fn invented_names_are_none_of_the_inputs() {
    let (netlist, _) = read(
        r#""n0": {"direction": "input", "bits": [2]}, "y": {"direction": "output", "bits": [3]}"#,
        r#""not0": {"type": "$_NOT_", "connections": {"A": [2], "Y": [3]}}"#,
    )
    .expect("an inverter");
    assert_eq!(netlist.inputs, vec!["n0".to_string()]);
    assert_ne!(netlist.gates[0].output, "n0");
}

#[test]
fn every_shape_that_cannot_be_read_is_refused() {
    let cases = [
        (parsed("{}"), "no `modules` key"),
        (parsed(r#"{"modules": 3}"#), "expected `modules` to be a JSON object"),
        (parsed(r#"{"modules": {"other": {}}}"#), "no module named `top`; found: [\"other\"]"),
        (parsed(r#"{"modules": {"top": {}}}"#), "module has no `ports` key"),
        (parsed(r#"{"modules": {"top": {"ports": {}}}}"#), "module has no `cells` key"),
        (module(r#""a": {}"#, ""), "port `a` has no `direction`"),
        (module(r#""a": {"direction": 1}"#, ""), "expected port direction to be a JSON string"),
        (module(r#""a": {"direction": "input"}"#, ""), "port `a` has no `bits`"),
        (
            module(r#""a": {"direction": "input", "bits": ["0"]}"#, ""),
            "input port `a` has a constant bit",
        ),
        (
            module(r#""a": {"direction": "input", "bits": ["x"]}"#, ""),
            "constant bit `x`",
        ),
        (
            module(r#""a": {"direction": "input", "bits": [{"k": ["q\"", 1.5, null, true]}]}"#, ""),
            "unexpected bit value in yosys JSON: {\"k\":[\"q\\\"\",1.5,null,true]}",
        ),
        (
            module(r#""y": {"direction": "output", "bits": ["1"]}"#, ""),
            "output port `y` is tied to a constant",
        ),
        (
            module(r#""y": {"direction": "output", "bits": [9]}"#, ""),
            "net 9 is driven by neither a primary input nor a cell",
        ),
        (module("", r#""c": {}"#), "cell `c` has no `type`"),
        (module("", r#""c": {"type": "$_NOT_"}"#), "cell `c` has no `connections`"),
        (
            module("", r#""c": {"type": "$_NOT_", "connections": {}}"#),
            "cell `c` has no `Y` connection",
        ),
        (
            module("", r#""c": {"type": "$_NOT_", "connections": {"Y": [1, 2]}}"#),
            "cell `c` pin `Y` is 2-bit",
        ),
        (
            module("", r#""c": {"type": "$_NOT_", "connections": {"Y": ["0"]}}"#),
            "cell `c` ($_NOT_) has a constant output",
        ),
        (
            module("", r#""c": {"type": "$_NOT_", "connections": {"A": [1], "Y": [2]}}"#),
            "1 cell(s) are never used to drive any output: [\"c\"]",
        ),
        (
            module(
                r#""y": {"direction": "output", "bits": [2]}"#,
                r#""c": {"type": "$_NOT_", "connections": {"A": ["1"], "Y": [2]}}"#,
            ),
            "cell `c` pin `A` is tied to constant 1",
        ),
        (
            module(
                r#""y": {"direction": "output", "bits": [2]}"#,
                r#""c": {"type": "$_NOT_", "connections": {"A": ["0"], "Y": [2]}}"#,
            ),
            "hard-wired-1 output",
        ),
        (
            module(
                r#""y": {"direction": "output", "bits": [2]}"#,
                r#""c": {"type": "$_OR_", "connections": {"A": ["0"], "B": ["0"], "Y": [2]}}"#,
            ),
            "hard-wired-0 output",
        ),
        (
            module(
                r#""y": {"direction": "output", "bits": [2]}"#,
                r#""c": {"type": "$_NOT_", "connections": {"A": [2], "Y": [2]}}"#,
            ),
            "combinational cycle through net 2",
        ),
    ];
    for (document, expected) in cases {
        match netlist_from_json(&document, "top") {
            Ok(_) => panic!("{expected}: must be refused"),
            Err(error) => {
                let message = error.message();
                assert!(message.contains(expected), "{message} does not say {expected}");
                assert!(matches!(error, FrontendError::Unsupported(_)));
            }
        }
    }
}

#[test]
fn json_is_written_as_it_would_be_read() {
    let text = r#"{"a\n\u0001":[1,-2,2.5,null,false,"\\"],"b":{}}"#;
    assert_eq!(parsed(text).render(), text);
}

#[test]
fn a_field_is_found_by_its_name() {
    let document = parsed(r#"{"a": 1, "b": [2]}"#);
    assert!(matches!(document.get("a"), Some(Json::Integer(1))));
    assert!(document.get("c").is_none());
    assert!(Json::Null.get("a").is_none());
}

#[test]
fn synthesis_succeeds_only_with_an_output() {
    assert!(synthesis_outcome(true, true, "", "", Some(0)).is_ok());
    let reports = [
        (synthesis_outcome(false, true, "broken\n", "chatter", Some(1)), "broken"),
        (synthesis_outcome(true, false, "  ", "chatter", Some(0)), "chatter"),
    ];
    for (outcome, expected) in reports {
        match outcome {
            Err(FrontendError::SynthesisFailed { stderr }) => {
                assert!(stderr.contains(expected), "{stderr}")
            }
            _ => panic!("{expected}: must fail"),
        }
    }
    assert!(synthesis_outcome(false, false, "", " \n", Some(3)).is_err());
}

#[test]
fn every_frontend_error_says_what_it_is() {
    assert!(FrontendError::PythonNotFound("no such file".to_string())
        .message()
        .contains("no such file"));
    assert!(FrontendError::Io("denied".to_string()).message().contains("denied"));
    assert!(FrontendError::Json("eof".to_string()).message().contains("eof"));
}

#[test]
fn a_netlist_that_cannot_be_ordered_is_refused() {
    let cyclic = Netlist {
        inputs: vec!["a".to_string()],
        outputs: vec!["x".to_string()],
        gates: vec![Gate::nor("x", &["y"]), Gate::nor("y", &["x"])],
    };
    assert!(matches!(cyclic.checked_order(), Err(CompileError::CyclicNetlist)));
    let undriven = Netlist {
        inputs: vec!["a".to_string()],
        outputs: vec!["x".to_string()],
        gates: vec![Gate::nor("x", &["b"])],
    };
    assert!(matches!(undriven.checked_order(), Err(CompileError::UndrivenSignal(_))));
}

#[test]
fn a_text_and_its_value_give_the_same_netlist() {
    let text = module_text(A_TO_Y, "");
    let by_text = netlist_from_text(&text, "top").map_err(|error| error.message());
    let by_value = netlist_from_json(&parsed(&text), "top").map_err(|error| error.message());
    match (by_text, by_value) {
        (Ok((one, _)), Ok((other, _))) => assert_eq!(format!("{one:?}"), format!("{other:?}")),
        (Err(one), Err(other)) => assert_eq!(one, other),
        _ => panic!("the text and the value must be read alike"),
    }
}

#[test]
fn a_text_that_is_no_json_is_refused_in_the_words_of_the_parser() {
    let reason = serde_json::from_str::<serde_json::Value>("{\"modules\":").unwrap_err().to_string();
    match netlist_from_text("{\"modules\":", "top") {
        Err(FrontendError::Json(why)) => assert_eq!(why, reason),
        _ => panic!("must be refused as JSON"),
    }
}

#[test]
fn texts_are_rendered_between_quotes_and_escaped() {
    let text = |written: &str| Json::Text(written.to_string()).render();
    assert_eq!(text("a\"b\\c"), "\"a\\\"b\\\\c\"");
    assert_eq!(text("\u{8}\t\n\u{c}\r"), "\"\\b\\t\\n\\f\\r\"");
    assert_eq!(text("\u{1}\u{1f}\u{7f}\u{e9}"), "\"\\u0001\\u001f\u{7f}\u{e9}\"");
}
