//! Tests for the canonical-format parser: node records, edge tokens, and
//! the meta-info descriptor — including the serialize-then-parse round
//! trip on the converter's output.

use libgc::cbmc::convert::Converter;
use libgc::cbmc::parser::Parser as RawParser;
use libgc::parser::Context;
use libgc::parser::error::ErrorType;
use libgc::parser::parse_circuit;
use libgc::parser::parse_meta_info;
use libgc::parser::parse_node;
use libgc::parser::types::GateType;
use libgc::parser::types::ID;
use libgc::parser::types::Pin;

#[test]
fn parse_node_input_record() {
    let ctx = Context::new();
    let n = parse_node("+5 -> 1:0 2:1 -3", &ctx).unwrap();
    assert_eq!(n.id(), ID::Input(5));
    assert_eq!(n.gate_type(), None);
    assert!(n.circuit().is_none());
    let edges = n.edges();
    assert_eq!(edges.len(), 3);
    assert_eq!(edges[0].id(), ID::Gate(1));
    assert_eq!(edges[0].pin(), Some(Pin::Left));
    assert_eq!(edges[1].id(), ID::Gate(2));
    assert_eq!(edges[1].pin(), Some(Pin::Right));
    assert_eq!(edges[2].id(), ID::Output(3));
    assert_eq!(edges[2].pin(), None);
}

#[test]
fn parse_node_gate_record() {
    let ctx = Context::new();
    let n = parse_node("X:7 -> -2", &ctx).unwrap();
    assert_eq!(n.id(), ID::Gate(7));
    assert_eq!(n.gate_type(), Some(GateType::XOR));

    let n = parse_node("A:1 -> 2:0", &ctx).unwrap();
    assert_eq!(n.gate_type(), Some(GateType::AND));

    let n = parse_node("O:1 -> 2:0", &ctx).unwrap();
    assert_eq!(n.gate_type(), Some(GateType::OR));

    let n = parse_node("N:1 -> 2:0", &ctx).unwrap();
    assert_eq!(n.gate_type(), Some(GateType::NOT));
}

#[test]
fn parse_node_cross_circuit_records() {
    let ctx = Context::new();
    // an input feeding a named child's input
    let n = parse_node("+1 -> c0:+1", &ctx).unwrap();
    assert_eq!(n.id(), ID::Input(1));
    let edges = n.edges();
    assert_eq!(edges.len(), 1);
    assert_eq!(edges[0].id(), ID::Input(1));
    assert_eq!(edges[0].circuit().unwrap(), "c0");

    // an output sourced from a named child
    let n = parse_node("c0:-1 -> -1", &ctx).unwrap();
    assert_eq!(n.id(), ID::Output(1));
    assert_eq!(n.circuit().unwrap(), "c0");
}

#[test]
fn parse_node_rejects_malformed_records() {
    let ctx = Context::new();
    assert!(parse_node("+5", &ctx).is_err());
    assert!(parse_node("+x -> 1:0", &ctx).is_err());
    assert_eq!(
        parse_node("+x -> 1:0", &ctx).unwrap_err().err_type,
        ErrorType::InvalidInputID
    );
    assert_eq!(
        parse_node("+1 -> 1:2", &ctx).unwrap_err().err_type,
        ErrorType::InvalidPin
    );
    assert_eq!(
        parse_node("+1 -> -x", &ctx).unwrap_err().err_type,
        ErrorType::InvalidOutputID
    );
    assert_eq!(
        parse_node("X:y -> -1", &ctx).unwrap_err().err_type,
        ErrorType::InvalidGateID
    );
}

#[test]
fn parse_circuit_collects_nodes_in_order() {
    let lines = vec![
        "+1 -> 1:0 1:1".to_string(),
        "A:1 -> -1".to_string(),
    ];
    let nodes = parse_circuit(&lines).unwrap();
    assert_eq!(nodes.len(), 2);
    assert_eq!(nodes[0].id(), ID::Input(1));
    assert_eq!(nodes[1].id(), ID::Gate(1));

    let bad = vec!["+1 -> 1:0".to_string(), "nonsense".to_string()];
    assert!(parse_circuit(&bad).is_err());
}

#[test]
fn parse_meta_info_reads_descriptor() {
    let lines = vec![
        "INPUTS = 64".to_string(),
        "GATES = 154".to_string(),
        "OUTPUTS = 32".to_string(),
        "ONE = 3:1 7:1".to_string(),
        "c0 = sub/one".to_string(),
    ];
    let info = parse_meta_info(&lines).unwrap();
    assert_eq!(info.inputs, 64);
    assert_eq!(info.gates, 154);
    assert_eq!(info.outputs, 32);
    let one = info.one.unwrap();
    assert!(one.is_constant());
    assert_eq!(one.edges().len(), 2);
    assert_eq!(one.edges()[0].id(), ID::Gate(3));
    assert_eq!(one.edges()[0].pin(), Some(Pin::Right));
    assert_eq!(info.sub_circuits.len(), 1);
    assert_eq!(info.sub_circuits[0].0, "c0");
    assert_eq!(info.sub_circuits[0].1, "sub/one");
}

#[test]
fn parse_meta_info_rejects_repeated_and_reserved_keys() {
    let dup = vec!["INPUTS = 1".to_string(), "INPUTS = 2".to_string()];
    assert!(parse_meta_info(&dup).is_err());

    let reserved = vec!["A = somewhere".to_string()];
    assert!(parse_meta_info(&reserved).is_err());

    let malformed = vec!["INPUTS".to_string()];
    assert!(parse_meta_info(&malformed).is_err());

    let not_a_number = vec!["GATES = many".to_string()];
    assert!(parse_meta_info(&not_a_number).is_err());
}

#[test]
fn id_u64() {
    assert_eq!(ID::Gate(0).u64(), 0);
    assert_eq!(ID::Gate(1).u64(), 1);
    assert_eq!(ID::Gate(0xFFFFFFFFFFFFFFFF).u64(), 0xFFFFFFFFFFFFFFFF);

    assert_eq!(ID::Input(0).u64(), 0);
    assert_eq!(ID::Input(1).u64(), 1);
    assert_eq!(ID::Input(0xFFFFFFFFFFFFFFFF).u64(), 0xFFFFFFFFFFFFFFFF);

    assert_eq!(ID::Output(0).u64(), 0);
    assert_eq!(ID::Output(1).u64(), 1);
    assert_eq!(ID::Output(0xFFFFFFFFFFFFFFFF).u64(), 0xFFFFFFFFFFFFFFFF);
}

#[test]
fn context_lines_advance() {
    let mut ctx = Context::new();
    assert_eq!(ctx.line, 1);
    ctx.next_line();
    assert_eq!(ctx.line, 2);
    let e = ctx.fail(ErrorType::Unknown, "token");
    assert_eq!(e.err_type, ErrorType::Unknown);
}

#[test]
fn serialized_circuit_parses_back_isomorphic() {
    // ingest a small graph, render it canonically, parse it back, and
    // compare gate types, ordering and wire destinations
    let p = RawParser::new(
        vec![
            "AND 2 0:3:0".to_string(),
            "XOR 2 0:3:1".to_string(),
            "OR 2 0:-1:0 0:-2:0".to_string(),
        ],
        vec![
            "InWire:#1 0:1:0 0:2:0".to_string(),
            "InWire:#2 0:1:1 0:2:1".to_string(),
        ],
        None,
    );
    let gates = p.parse_gates().unwrap();
    let inputs = p.parse_inputs().unwrap();
    let conv = Converter::new();
    let lines = conv.convert_circuit(&inputs, &gates);
    let nodes = parse_circuit(&lines).unwrap();
    assert_eq!(nodes.len(), 5);

    assert_eq!(nodes[0].id(), ID::Input(1));
    assert_eq!(nodes[0].edges().len(), 2);
    assert_eq!(nodes[0].edges()[0].id(), ID::Gate(1));
    assert_eq!(nodes[0].edges()[0].pin(), Some(Pin::Left));
    assert_eq!(nodes[0].edges()[1].id(), ID::Gate(2));
    assert_eq!(nodes[0].edges()[1].pin(), Some(Pin::Left));

    assert_eq!(nodes[1].id(), ID::Input(2));
    assert_eq!(nodes[1].edges()[0].pin(), Some(Pin::Right));

    assert_eq!(nodes[2].id(), ID::Gate(1));
    assert_eq!(nodes[2].gate_type(), Some(GateType::AND));
    assert_eq!(nodes[2].edges()[0].id(), ID::Gate(3));

    assert_eq!(nodes[3].id(), ID::Gate(2));
    assert_eq!(nodes[3].gate_type(), Some(GateType::XOR));

    assert_eq!(nodes[4].id(), ID::Gate(3));
    assert_eq!(nodes[4].gate_type(), Some(GateType::OR));
    assert_eq!(nodes[4].edges().len(), 2);
    assert_eq!(nodes[4].edges()[0].id(), ID::Output(1));
    assert_eq!(nodes[4].edges()[1].id(), ID::Output(2));
}

#[test]
fn serialized_meta_info_parses_back() {
    let p = RawParser::new(
        vec!["NOT 1 0:-1:0".to_string()],
        vec!["InWire:#1 0:1:0".to_string()],
        None,
    );
    let gates = p.parse_gates().unwrap();
    let inputs = p.parse_inputs().unwrap();
    let conv = Converter::new();
    let (not_free, constant) = conv.replace_not_gates(&gates, None);
    let lines = conv.create_meta_info(&inputs, &not_free, constant);
    let info = parse_meta_info(&lines).unwrap();
    assert_eq!(info.inputs, 1);
    assert_eq!(info.gates, 1);
    assert_eq!(info.outputs, 1);
    let one = info.one.unwrap();
    assert_eq!(one.edges().len(), 1);
    assert_eq!(one.edges()[0].id(), ID::Gate(1));
    assert_eq!(one.edges()[0].pin(), Some(Pin::Right));
}
