//! Tests for the execution engine: the evaluation state machine, the
//! fan-in discipline, a 32-bit ripple-carry adder, hierarchical
//! composition, and the NOT-elimination equivalence on a small circuit.

use libgc::cbmc::convert::Converter;
use libgc::cbmc::parser::Parser as RawParser;
use libgc::circuit::binary::Circuit;
use libgc::circuit::binary::error::ExecErrorKind;
use libgc::parser::MetaInfo;
use libgc::parser::parse_circuit;

fn flat_info(inputs: u64, outputs: u64, gates: u64) -> MetaInfo {
    MetaInfo { inputs, outputs, gates, one: None, sub_circuits: Vec::new() }
}

fn flat_circuit(inputs: u64, outputs: u64, gates: u64, lines: Vec<String>) -> Circuit {
    let nodes = parse_circuit(&lines).unwrap();
    Circuit::new(flat_info(inputs, outputs, gates), nodes, Vec::new()).unwrap()
}

fn set_pin_from_to(c: &mut Circuit, from: u64, to: u64, val: u8) {
    let mut i = from;
    while i <= to {
        c.set_input(i, val);
        i += 1;
    }
}

/// The canonical body of a 32-bit ripple-carry adder: inputs 1..=32 are
/// the first summand, 33..=64 the second, outputs 1..=32 the sum, the
/// final carry discarded.
fn adder_lines() -> Vec<String> {
    let mut lines: Vec<String> = Vec::new();
    // input records, least significant bit first
    lines.push("+1 -> 1:0 2:0".to_string());
    for i in 1..31u64 {
        let base = 2 + (i - 1) * 5;
        lines.push(format!("+{} -> {}:0 {}:0", i + 1, base + 1, base + 3));
    }
    lines.push("+32 -> 153:0".to_string());
    lines.push("+33 -> 1:1 2:1".to_string());
    for i in 1..31u64 {
        let base = 2 + (i - 1) * 5;
        lines.push(format!("+{} -> {}:1 {}:1", 33 + i, base + 1, base + 3));
    }
    lines.push("+64 -> 153:1".to_string());
    // bit 0: sum and carry
    lines.push("X:1 -> -1".to_string());
    lines.push("A:2 -> 4:1 6:1".to_string());
    // bits 1..=30: full adders, the carry feeding the next stage
    for i in 1..31u64 {
        let base = 2 + (i - 1) * 5;
        let (t1, s, g1, g2, cout) = (base + 1, base + 2, base + 3, base + 4, base + 5);
        lines.push(format!("X:{} -> {}:0 {}:0", t1, s, g2));
        lines.push(format!("X:{} -> -{}", s, i + 1));
        lines.push(format!("A:{} -> {}:0", g1, cout));
        lines.push(format!("A:{} -> {}:1", g2, cout));
        if i < 30 {
            lines.push(format!("O:{} -> {}:1 {}:1", cout, base + 7, base + 9));
        } else {
            lines.push(format!("O:{} -> 154:1", cout));
        }
    }
    // bit 31: sum only, the final carry dropped
    lines.push("X:153 -> 154:0".to_string());
    lines.push("X:154 -> -32".to_string());
    lines
}

fn adder() -> Circuit {
    flat_circuit(64, 32, 154, adder_lines())
}

#[test]
fn adder_all_zero_inputs() {
    let mut c = adder();
    set_pin_from_to(&mut c, 1, 64, 0);
    assert!(c.is_executable());
    c.execute().unwrap();
    let output = c.collect_output().unwrap();
    assert_eq!(output, vec![0u8; 32]);
}

#[test]
fn adder_one_plus_zero() {
    let mut c = adder();
    set_pin_from_to(&mut c, 1, 64, 0);
    c.set_input(1, 1);
    c.execute().unwrap();
    let output = c.collect_output().unwrap();
    let mut expected = vec![0u8; 32];
    expected[0] = 1;
    assert_eq!(output, expected);
}

#[test]
fn adder_one_plus_one() {
    let mut c = adder();
    set_pin_from_to(&mut c, 1, 64, 0);
    c.set_input(1, 1);
    c.set_input(33, 1);
    c.execute().unwrap();
    let output = c.collect_output().unwrap();
    let mut expected = vec![0u8; 32];
    expected[1] = 1;
    assert_eq!(output, expected);
}

#[test]
fn adder_four_plus_five() {
    let mut c = adder();
    set_pin_from_to(&mut c, 1, 64, 0);
    c.set_input(3, 1);
    c.set_input(33, 1);
    c.set_input(35, 1);
    c.execute().unwrap();
    let output = c.collect_output().unwrap();
    let mut expected = vec![0u8; 32];
    expected[0] = 1;
    expected[3] = 1;
    assert_eq!(output, expected);
}

#[test]
fn adder_overflow_wraps() {
    // 0xFFFFFFFF + 2 = 1 with the carry out of range discarded
    let mut c = adder();
    set_pin_from_to(&mut c, 1, 64, 0);
    set_pin_from_to(&mut c, 1, 32, 1);
    c.set_input(34, 1);
    c.execute().unwrap();
    let output = c.collect_output().unwrap();
    let mut expected = vec![0u8; 32];
    expected[0] = 1;
    assert_eq!(output, expected);
}

#[test]
fn adder_reruns_deterministically() {
    // repeated evaluation with freshly set inputs gives identical output
    let mut c = adder();
    set_pin_from_to(&mut c, 1, 64, 0);
    c.set_input(1, 1);
    c.set_input(33, 1);
    c.execute().unwrap();
    let first = c.collect_output().unwrap();
    set_pin_from_to(&mut c, 1, 64, 0);
    c.set_input(1, 1);
    c.set_input(33, 1);
    c.execute().unwrap();
    let second = c.collect_output().unwrap();
    assert_eq!(first, second);

    let mut fresh = adder();
    set_pin_from_to(&mut fresh, 1, 64, 0);
    fresh.set_input(1, 1);
    fresh.set_input(33, 1);
    fresh.execute().unwrap();
    assert_eq!(fresh.collect_output().unwrap(), first);
}

#[test]
fn execute_requires_all_inputs() {
    let mut c = flat_circuit(2, 1, 1, vec![
        "+1 -> 1:0".to_string(),
        "+2 -> 1:1".to_string(),
        "A:1 -> -1".to_string(),
    ]);
    c.set_input(1, 1);
    assert!(!c.is_executable());
    let e = c.execute().unwrap_err();
    assert_eq!(e.kind, ExecErrorKind::NotExecutable);
    c.set_input(2, 1);
    assert!(c.is_executable());
    c.execute().unwrap();
    assert_eq!(c.collect_output().unwrap(), vec![1u8]);
    assert_eq!(c.get_output(1).unwrap(), 1);
    assert!(c.get_output(2).is_err());
}

#[test]
fn duplicate_fan_in_fails_execution() {
    // two wires target the same (gate 3, left) slot: a fatal violation,
    // never a silent overwrite
    let mut c = flat_circuit(2, 3, 3, vec![
        "+1 -> 1:0 1:1 3:0".to_string(),
        "+2 -> 2:0 2:1 3:0".to_string(),
        "A:1 -> -1".to_string(),
        "A:2 -> -2".to_string(),
        "A:3 -> -3".to_string(),
    ]);
    c.set_input(1, 1);
    c.set_input(2, 0);
    let e = c.execute().unwrap_err();
    assert_eq!(e.kind, ExecErrorKind::DuplicateFanIn);
}

#[test]
fn missing_operand_fails_execution() {
    let mut c = flat_circuit(1, 1, 1, vec![
        "+1 -> 1:0".to_string(),
        "A:1 -> -1".to_string(),
    ]);
    c.set_input(1, 1);
    let e = c.execute().unwrap_err();
    assert_eq!(e.kind, ExecErrorKind::MissingOperand);
}

#[test]
fn collect_output_reports_gaps() {
    let c = flat_circuit(1, 1, 0, vec!["+1 -> -1".to_string()]);
    let e = c.collect_output().unwrap_err();
    assert_eq!(e.kind, ExecErrorKind::MissingOutput);
}

#[test]
fn new_rejects_count_mismatch() {
    let nodes = parse_circuit(&vec![
        "+1 -> 1:0 1:1".to_string(),
        "A:1 -> -1".to_string(),
    ])
    .unwrap();
    let e = Circuit::new(flat_info(2, 1, 1), nodes, Vec::new()).unwrap_err();
    assert_eq!(e.kind, ExecErrorKind::BadMetaInfo);
}

#[test]
fn constant_node_seeds_gate_slots() {
    // a NOT gate eliminated into XOR-with-1: the constant is wired at
    // load time, so NOT(x) evaluates as x XOR 1
    let raw = RawParser::new(
        vec!["NOT 1 0:-1:0".to_string()],
        vec!["InWire:#1 0:1:0".to_string()],
        None,
    );
    let gates = raw.parse_gates().unwrap();
    let inputs = raw.parse_inputs().unwrap();
    let conv = Converter::new();
    let (not_free, constant) = conv.replace_not_gates(&gates, None);
    let body = conv.convert_circuit(&inputs, &not_free);
    let meta = conv.create_meta_info(&inputs, &not_free, constant);
    let info = libgc::parser::parse_meta_info(&meta).unwrap();
    let nodes = parse_circuit(&body).unwrap();
    let mut c = Circuit::new(info, nodes, Vec::new()).unwrap();
    c.set_input(1, 0);
    c.execute().unwrap();
    assert_eq!(c.collect_output().unwrap(), vec![1u8]);

    // and NOT of a set input is 0
    let raw2 = RawParser::new(
        vec!["NOT 1 0:-1:0".to_string()],
        vec!["InWire:#1 0:1:0".to_string()],
        None,
    );
    let gates2 = raw2.parse_gates().unwrap();
    let inputs2 = raw2.parse_inputs().unwrap();
    let (not_free2, constant2) = conv.replace_not_gates(&gates2, None);
    let body2 = conv.convert_circuit(&inputs2, &not_free2);
    let meta2 = conv.create_meta_info(&inputs2, &not_free2, constant2);
    let info2 = libgc::parser::parse_meta_info(&meta2).unwrap();
    let nodes2 = parse_circuit(&body2).unwrap();
    let mut c2 = Circuit::new(info2, nodes2, Vec::new()).unwrap();
    c2.set_input(1, 1);
    c2.execute().unwrap();
    assert_eq!(c2.collect_output().unwrap(), vec![0u8]);
}

#[test]
fn hierarchical_composition_matches_inlined() {
    // a parent whose sole input feeds a named child's sole input, whose
    // output feeds the parent's sole output, behaves like the child's
    // single gate inlined into the parent
    for bit in 0..2u8 {
        let child_nodes = parse_circuit(&vec![
            "+1 -> 1:0 1:1".to_string(),
            "A:1 -> -1".to_string(),
        ])
        .unwrap();
        let child = Circuit::new(flat_info(1, 1, 1), child_nodes, Vec::new()).unwrap();

        let parent_nodes = parse_circuit(&vec![
            "+1 -> c0:+1".to_string(),
            "c0:-1 -> -1".to_string(),
        ])
        .unwrap();
        let parent_info = MetaInfo {
            inputs: 1,
            outputs: 1,
            gates: 0,
            one: None,
            sub_circuits: vec![("c0".to_string(), "sub/c0".to_string())],
        };
        let mut parent =
            Circuit::new(parent_info, parent_nodes, vec![("c0".to_string(), child)]).unwrap();
        parent.set_input(1, bit);
        parent.execute().unwrap();
        let composed = parent.collect_output().unwrap();

        let mut inlined = flat_circuit(1, 1, 1, vec![
            "+1 -> 1:0 1:1".to_string(),
            "A:1 -> -1".to_string(),
        ]);
        inlined.set_input(1, bit);
        inlined.execute().unwrap();
        assert_eq!(composed, inlined.collect_output().unwrap());
    }
}

#[test]
fn hierarchical_reruns_deterministically() {
    // repeated evaluation of a parent with a child, with freshly set
    // inputs, gives identical output — as does a fresh construction
    let child_nodes = parse_circuit(&vec![
        "+1 -> 1:0 1:1".to_string(),
        "A:1 -> -1".to_string(),
    ])
    .unwrap();
    let child = Circuit::new(flat_info(1, 1, 1), child_nodes, Vec::new()).unwrap();
    let parent_nodes = parse_circuit(&vec![
        "+1 -> c0:+1".to_string(),
        "c0:-1 -> -1".to_string(),
    ])
    .unwrap();
    let parent_info = MetaInfo {
        inputs: 1,
        outputs: 1,
        gates: 0,
        one: None,
        sub_circuits: vec![("c0".to_string(), "sub/c0".to_string())],
    };
    let mut parent =
        Circuit::new(parent_info, parent_nodes, vec![("c0".to_string(), child)]).unwrap();
    parent.set_input(1, 1);
    parent.execute().unwrap();
    let first = parent.collect_output().unwrap();
    parent.set_input(1, 1);
    parent.execute().unwrap();
    assert_eq!(parent.collect_output().unwrap(), first);
    assert_eq!(first, vec![1u8]);
}

#[test]
fn new_rejects_missing_declared_child() {
    let parent_nodes = parse_circuit(&vec![
        "+1 -> c0:+1".to_string(),
        "c0:-1 -> -1".to_string(),
    ])
    .unwrap();
    let parent_info = MetaInfo {
        inputs: 1,
        outputs: 1,
        gates: 0,
        one: None,
        sub_circuits: vec![("c0".to_string(), "sub/c0".to_string())],
    };
    let e = Circuit::new(parent_info, parent_nodes, Vec::new()).unwrap_err();
    assert_eq!(e.kind, ExecErrorKind::UnknownSubCircuit);
}
