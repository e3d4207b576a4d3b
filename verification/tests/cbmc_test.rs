//! Tests for the ingestion side: the graph model, the line parsers, the
//! topological sorter, and the NOT-elimination converter.

use libgc::cbmc::convert::Converter;
use libgc::cbmc::parser::Parser;
use libgc::cbmc::sort::check_gates;
use libgc::cbmc::sort::sort_gates;
use libgc::cbmc::types::Constant;
use libgc::cbmc::types::Gate;
use libgc::cbmc::types::GateType;
use libgc::cbmc::types::ID;
use libgc::cbmc::types::IOPin;
use libgc::cbmc::types::Pin;
use libgc::cbmc::types::Wire;

#[test]
fn gatetype_pins() {
    assert_eq!(2, GateType::AND.pins());
    assert_eq!(2, GateType::XOR.pins());
    assert_eq!(2, GateType::OR.pins());
    assert_eq!(1, GateType::NOT.pins());
}

#[test]
fn id_index() {
    assert_eq!(ID::Gate(1).as_index(), 0);
    assert_eq!(ID::Gate(0xFFFFFFFFFFFFFFFF).as_index(), 0xFFFFFFFFFFFFFFFE);

    assert_eq!(ID::Input(1).as_index(), 0);
    assert_eq!(ID::Input(0xFFFFFFFFFFFFFFFF).as_index(), 0xFFFFFFFFFFFFFFFE);

    assert_eq!(ID::Output(1).as_index(), 0);
    assert_eq!(ID::Output(0xFFFFFFFFFFFFFFFF).as_index(), 0xFFFFFFFFFFFFFFFE);
}

#[test]
fn gate_gate_type() {
    assert_eq!(GateType::AND, Gate::new(GateType::AND, 1).get_type());
    assert_eq!(GateType::OR, Gate::new(GateType::OR, 1).get_type());
    assert_eq!(GateType::XOR, Gate::new(GateType::XOR, 1).get_type());
    assert_eq!(GateType::NOT, Gate::new(GateType::NOT, 1).get_type());
}

#[test]
fn gate_id() {
    assert_eq!(Gate::new(GateType::AND, 1).id(), ID::Gate(1));
    assert_eq!(Gate::new(GateType::OR, 2).id(), ID::Gate(2));
    assert_eq!(Gate::new(GateType::XOR, 3).id(), ID::Gate(3));
    assert_eq!(Gate::new(GateType::NOT, 19).id(), ID::Gate(19));
}

#[test]
fn gate_copy() {
    let mut gate = Gate::new(GateType::AND, 1);
    gate.connect(Wire::to_gate(2, Pin::Right));
    gate.connect(Wire::to_gate(3, Pin::Left));

    let copy = gate.clone();

    assert!(gate == copy);

    let mut copy2 = gate.clone();
    copy2.connect(Wire::to_output(1));

    assert!(gate == copy);
    assert!(gate != copy2);
    assert!(copy != copy2);
}

#[test]
fn destination_type() {
    let wire = Wire::to_output(5);
    assert!(wire.is_output());
    assert_eq!(wire.destination(), ID::Output(5));
    assert_eq!(wire.destionation_pin(), None);

    let wire = Wire::to_gate(7, Pin::Right);
    assert!(!wire.is_output());
    assert_eq!(wire.destination(), ID::Gate(7));
    assert_eq!(wire.destionation_pin(), Some(Pin::Right));
}

#[test]
fn wire_parse_gate_and_output() {
    let w = Wire::parse("0:5:1", 3).unwrap();
    assert_eq!(w.destination(), ID::Gate(5));
    assert_eq!(w.destionation_pin(), Some(Pin::Right));

    let w = Wire::parse(" 0 : -4 : 0 ", 3).unwrap();
    assert_eq!(w.destination(), ID::Output(4));
    assert_eq!(w.destionation_pin(), None);

    // the source pin must be 0, the destination pin 0 or 1
    assert!(Wire::parse("1:5:0", 3).is_err());
    assert!(Wire::parse("0:5:2", 3).is_err());
    assert!(Wire::parse("0:5", 3).is_err());
    assert!(Wire::parse("0:x:1", 3).is_err());
}

#[test]
fn gate_parse_line() {
    let g = Gate::parse("AND 2 0:3:0 0:-1:0", 7).unwrap();
    assert_eq!(g.get_type(), GateType::AND);
    assert_eq!(g.id(), ID::Gate(7));
    assert_eq!(g.len(), 2);
    assert_eq!(g.wires[0].destination(), ID::Gate(3));
    assert_eq!(g.wires[1].destination(), ID::Output(1));

    let g = Gate::parse("NOT 1 0:2:0", 4).unwrap();
    assert_eq!(g.get_type(), GateType::NOT);

    // the pin count must match the type's arity
    assert!(Gate::parse("AND 1 0:3:0", 1).is_err());
    assert!(Gate::parse("NOT 2 0:3:0", 1).is_err());
    assert!(Gate::parse("NAND 2 0:3:0", 1).is_err());
    assert!(Gate::parse("AND 2", 1).is_err());
}

#[test]
fn input_pin_parse_line() {
    let p = IOPin::parse_input("InWire:#3 0:1:0 0:2:1", 3).unwrap();
    assert_eq!(p.id(), ID::Input(3));
    assert_eq!(p.wires.len(), 2);
    assert_eq!(p.wires[0].destination(), ID::Gate(1));
    assert_eq!(p.wires[1].destination(), ID::Gate(2));

    assert!(IOPin::parse_input("InWire:#-3 0:1:0", 1).is_err());
    assert!(IOPin::parse_input("InWire:3 0:1:0", 1).is_err());
    assert!(IOPin::parse_input("InWire:#3", 1).is_err());
}

#[test]
fn parser_parses_all_files() {
    let p = Parser::new(
        vec!["AND 2 0:2:0 0:2:1".to_string(), "XOR 2 0:-1:0".to_string()],
        vec!["InWire:#1 0:1:0".to_string(), "InWire:#2 0:1:1".to_string()],
        Some("0:2:0 0:2:1".to_string()),
    );
    let gates = p.parse_gates().unwrap();
    assert_eq!(gates.len(), 2);
    assert_eq!(gates[0].id(), ID::Gate(1));
    assert_eq!(gates[1].id(), ID::Gate(2));

    let inputs = p.parse_inputs().unwrap();
    assert_eq!(inputs.len(), 2);
    assert_eq!(inputs[0].id(), ID::Input(1));

    let cons = p.parse_constant().unwrap().unwrap();
    assert_eq!(cons.wires.len(), 2);

    let none = Parser::new(vec![], vec![], None);
    assert!(none.parse_constant().unwrap().is_none());

    let bad = Parser::new(vec!["AND 2".to_string()], vec![], None);
    assert!(bad.parse_gates().is_err());
}

#[test]
fn sort_reorders_dependencies() {
    // gate 2 feeds gate 1, so gate 2 must come first
    let p = Parser::new(
        vec!["AND 2 0:-1:0".to_string(), "AND 2 0:1:0 0:1:1".to_string()],
        vec![],
        None,
    );
    let gates = p.parse_gates().unwrap();
    assert!(check_gates(&gates));
    let sorted = sort_gates(&gates).unwrap();
    assert_eq!(sorted.len(), 2);
    assert_eq!(sorted[0].id(), ID::Gate(2));
    assert_eq!(sorted[1].id(), ID::Gate(1));
}

#[test]
fn sort_keeps_wave_order() {
    // two independent gates feed a third: input order is preserved
    let p = Parser::new(
        vec![
            "AND 2 0:3:0".to_string(),
            "XOR 2 0:3:1".to_string(),
            "OR 2 0:-1:0".to_string(),
        ],
        vec![],
        None,
    );
    let gates = p.parse_gates().unwrap();
    assert!(check_gates(&gates));
    let sorted = sort_gates(&gates).unwrap();
    assert_eq!(sorted[0].id(), ID::Gate(1));
    assert_eq!(sorted[1].id(), ID::Gate(2));
    assert_eq!(sorted[2].id(), ID::Gate(3));
}

#[test]
fn sort_rejects_cycles() {
    // gates 1 and 2 feed each other: no order exists
    let p = Parser::new(
        vec!["AND 2 0:2:0".to_string(), "AND 2 0:1:0".to_string()],
        vec![],
        None,
    );
    let gates = p.parse_gates().unwrap();
    assert!(check_gates(&gates));
    assert!(sort_gates(&gates).is_err());

    // a self-loop is a cycle too
    let p = Parser::new(vec!["AND 2 0:1:0".to_string()], vec![], None);
    let gates = p.parse_gates().unwrap();
    assert!(check_gates(&gates));
    assert!(sort_gates(&gates).is_err());
}

#[test]
fn check_gates_rejects_out_of_range_targets() {
    let p = Parser::new(vec!["AND 2 0:9:0".to_string()], vec![], None);
    let gates = p.parse_gates().unwrap();
    assert!(!check_gates(&gates));
}

#[test]
fn replace_not_gates_rewrites_and_wires_constant() {
    // two NOT gates and one AND: the converted list has no NOT, and the
    // constant node consumes exactly two Right slots
    let p = Parser::new(
        vec![
            "NOT 1 0:3:0".to_string(),
            "NOT 1 0:3:1".to_string(),
            "AND 2 0:-1:0".to_string(),
        ],
        vec![],
        None,
    );
    let gates = p.parse_gates().unwrap();
    let conv = Converter::new();
    let (not_free, constant) = conv.replace_not_gates(&gates, None);
    assert_eq!(not_free.len(), 3);
    assert_eq!(not_free[0].get_type(), GateType::XOR);
    assert_eq!(not_free[1].get_type(), GateType::XOR);
    assert_eq!(not_free[2].get_type(), GateType::AND);
    assert_eq!(not_free[0].id(), ID::Gate(1));
    assert_eq!(not_free[0].wires, gates[0].wires);
    let cons = constant.unwrap();
    assert_eq!(cons.wires.len(), 2);
    assert_eq!(cons.wires[0], Wire::to_gate(1, Pin::Right));
    assert_eq!(cons.wires[1], Wire::to_gate(2, Pin::Right));
}

#[test]
fn replace_not_gates_merges_upstream_constant() {
    let p = Parser::new(vec!["NOT 1 0:-1:0".to_string()], vec![], None);
    let gates = p.parse_gates().unwrap();
    let mut upstream = Constant::new();
    upstream.connect_to_gate(9, Pin::Right);
    let conv = Converter::new();
    let (_, constant) = conv.replace_not_gates(&gates, Some(upstream));
    let cons = constant.unwrap();
    assert_eq!(cons.wires.len(), 2);
    assert_eq!(cons.wires[0], Wire::to_gate(1, Pin::Right));
    assert_eq!(cons.wires[1], Wire::to_gate(9, Pin::Right));
}

#[test]
fn replace_not_gates_keeps_upstream_when_no_not() {
    let p = Parser::new(vec!["AND 2 0:-1:0".to_string()], vec![], None);
    let gates = p.parse_gates().unwrap();
    let conv = Converter::new();
    let (not_free, constant) = conv.replace_not_gates(&gates, None);
    assert_eq!(not_free.len(), 1);
    assert!(constant.is_none());
}

#[test]
fn converter_buffering() {
    let mut conv = Converter::new();
    assert_eq!(conv.cap, 4 * 1024 * 1024);
    conv.buffering(512);
    assert_eq!(conv.cap, 512);
}

#[test]
fn convert_circuit_renders_canonical_lines() {
    let p = Parser::new(
        vec!["AND 2 0:2:0 0:2:1".to_string(), "XOR 2 0:-1:0".to_string()],
        vec!["InWire:#1 0:1:0".to_string(), "InWire:#2 0:1:1".to_string()],
        None,
    );
    let gates = p.parse_gates().unwrap();
    let inputs = p.parse_inputs().unwrap();
    let conv = Converter::new();
    let lines = conv.convert_circuit(&inputs, &gates);
    assert_eq!(lines.len(), 4);
    assert_eq!(lines[0], "+1 -> 1:0");
    assert_eq!(lines[1], "+2 -> 1:1");
    assert_eq!(lines[2], "A:1 -> 2:0 2:1");
    assert_eq!(lines[3], "X:2 -> -1");
}

#[test]
fn create_meta_info_renders_counts_and_constant() {
    let p = Parser::new(
        vec!["AND 2 0:2:0 0:2:1".to_string(), "XOR 2 0:-1:0".to_string()],
        vec!["InWire:#1 0:1:0".to_string(), "InWire:#2 0:1:1".to_string()],
        None,
    );
    let gates = p.parse_gates().unwrap();
    let inputs = p.parse_inputs().unwrap();
    let conv = Converter::new();
    let lines = conv.create_meta_info(&inputs, &gates, None);
    assert_eq!(lines.len(), 3);
    assert_eq!(lines[0], "INPUTS = 2");
    assert_eq!(lines[1], "GATES = 2");
    assert_eq!(lines[2], "OUTPUTS = 1");

    let mut cons = Constant::new();
    cons.connect_to_gate(2, Pin::Right);
    let lines = conv.create_meta_info(&inputs, &gates, Some(cons));
    assert_eq!(lines.len(), 4);
    assert_eq!(lines[3], "ONE = 2:1");
}
