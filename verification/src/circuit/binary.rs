//! Hierarchical execution engine for canonical circuits: a circuit owns
//! its descriptor, its node stream, its value tables and its named child
//! circuits, and evaluates the stream once per supplied input assignment.

pub mod error;

use vstd::prelude::*;

use crate::circuit::binary::error::ExecError;
use crate::circuit::binary::error::ExecErrorKind;
use crate::parser::MetaInfo;
use crate::parser::types::Edge;
use crate::parser::types::EdgeSpec;
use crate::parser::types::GateType;
use crate::parser::types::ID;
use crate::parser::types::Node;
use crate::parser::types::NodeSpec;
use crate::parser::types::Pin;
use crate::parser::types::edge_views;
use crate::parser::types::node_views;
use crate::text::is_ascii_chars;
use crate::text::str_eq;
use vstd::string::StringExecFns;

verus! {

/// A runtime circuit: the descriptor, the canonical node stream in stored
/// (topological) order, the three value tables, the owned child circuits,
/// and the nesting depth of the ownership tree.
#[derive(Debug)]
pub struct Circuit {
    pub info: MetaInfo,
    pub nodes: Vec<Node>,
    pub input: Vec<Option<bool>>,
    pub output: Vec<Option<bool>>,
    pub lookup: Vec<Option<bool>>,
    pub sub: Vec<(String, Circuit)>,
    pub depth: u64,
}

/// The three value tables of one circuit, as sequences: the supplied
/// input bits, the produced output bits, and the `(gate, pin)` operand
/// slots, slot `2·(g−1)+pin` holding gate `g`'s chosen operand.
#[verifier::ext_equal]
pub struct Tables {
    pub input: Seq<Option<bool>>,
    pub output: Seq<Option<bool>>,
    pub lookup: Seq<Option<bool>>,
}

pub open spec fn tables(c: Circuit) -> Tables {
    Tables { input: c.input@, output: c.output@, lookup: c.lookup@ }
}

/// Structural well-formedness of a runtime circuit: table lengths match
/// the descriptor's counts, child names are ASCII (so lookups resolve),
/// children sit strictly lower in the ownership tree, and are themselves
/// well formed.
pub open spec fn wf(c: Circuit) -> bool
    decreases c,
{
    &&& c.input@.len() == c.info.inputs
    &&& c.output@.len() == c.info.outputs
    &&& c.lookup@.len() == 2 * c.info.gates
    &&& forall|j: int| 0 <= j < c.sub@.len() ==> is_ascii_chars((#[trigger] c.sub@[j]).0@)
    &&& forall|j: int| 0 <= j < c.sub@.len() ==> (#[trigger] c.sub@[j]).1.depth < c.depth
    &&& forall|j: int| 0 <= j < c.sub@.len() ==> wf((#[trigger] c.sub@[j]).1)
}

/// The boolean function of a gate type; NOT reads its single operand from
/// the `Left` slot.
pub open spec fn gate_eval(t: GateType, a: bool, b: bool) -> bool {
    match t {
        GateType::AND => a && b,
        GateType::XOR => a != b,
        GateType::OR => a || b,
        GateType::NOT => !a,
    }
}

/// Eliminating a NOT into an XOR against the constant-1 signal preserves
/// the computed bit.
pub proof fn lemma_not_as_xor_one(a: bool, b: bool)
    ensures
        gate_eval(GateType::XOR, a, true) == gate_eval(GateType::NOT, a, b),
{
}

/// Every declared input has been supplied.
pub open spec fn all_supplied(input: Seq<Option<bool>>) -> bool {
    forall|i: int| 0 <= i < input.len() ==> (#[trigger] input[i]) is Some
}

pub open spec fn slot_of(gid: u64, pin: Pin) -> int {
    2 * (gid - 1) + match pin {
        Pin::Left => 0int,
        Pin::Right => 1int,
    }
}

/// Writes an output entry; a later write to the same output overwrites,
/// as the format's single-consumer discipline makes a second write a
/// rerun's, not a conflict.
pub open spec fn fw_out(t: Tables, id: u64, val: bool) -> (Tables, Option<ExecErrorKind>) {
    if 1 <= id && id - 1 < t.output.len() {
        (Tables { output: t.output.update(id - 1, Some(val)), ..t }, None)
    } else {
        (t, Some(ExecErrorKind::InvalidEdge))
    }
}

/// Fills an operand slot: a second wire into an occupied, unconsumed slot
/// is a fatal fan-in violation.
pub open spec fn fw_slot(t: Tables, gid: u64, pin: Pin, val: bool) -> (
    Tables,
    Option<ExecErrorKind>,
) {
    if 1 <= gid && slot_of(gid, pin) < t.lookup.len() {
        if t.lookup[slot_of(gid, pin)] is Some {
            (t, Some(ExecErrorKind::DuplicateFanIn))
        } else {
            (Tables { lookup: t.lookup.update(slot_of(gid, pin), Some(val)), ..t }, None)
        }
    } else {
        (t, Some(ExecErrorKind::InvalidEdge))
    }
}

/// Consumes an operand slot: the value leaves the table as it is read.
pub open spec fn ftake_slot(t: Tables, gid: u64, pin: Pin) -> (Tables, Option<bool>) {
    if 1 <= gid && slot_of(gid, pin) < t.lookup.len() && t.lookup[slot_of(gid, pin)] is Some {
        (
            Tables { lookup: t.lookup.update(slot_of(gid, pin), None), ..t },
            Some(t.lookup[slot_of(gid, pin)]->0),
        )
    } else {
        (t, None)
    }
}

/// Fans a computed bit out along one edge of a gate, constant or tagged
/// output node: outputs are written directly, gate slots filled; an edge
/// into a sub-circuit needs one, which a flat circuit does not have.
pub open spec fn apply_edge_value(t: Tables, val: bool, e: EdgeSpec) -> (
    Tables,
    Option<ExecErrorKind>,
) {
    match e.id {
        ID::Output(o) => fw_out(t, o, val),
        ID::Gate(g) => match e.pin {
            Some(p) => fw_slot(t, g, p, val),
            None => (t, Some(ExecErrorKind::InvalidEdge)),
        },
        ID::Input(_) => match e.circuit {
            None => (t, Some(ExecErrorKind::InvalidEdge)),
            Some(name) => if !is_ascii_chars(name) {
                (t, Some(ExecErrorKind::InvalidName))
            } else {
                (t, Some(ExecErrorKind::UnknownSubCircuit))
            },
        },
        ID::Const => (t, Some(ExecErrorKind::InvalidEdge)),
    }
}

pub open spec fn apply_edges_value(t: Tables, val: bool, edges: Seq<EdgeSpec>, j: int) -> (
    Tables,
    Option<ExecErrorKind>,
)
    decreases edges.len() - j,
{
    if j < 0 || j >= edges.len() {
        (t, None)
    } else {
        let (t2, err) = apply_edge_value(t, val, edges[j]);
        match err {
            Some(e) => (t2, Some(e)),
            None => apply_edges_value(t2, val, edges, j + 1),
        }
    }
}

/// Fans an input node's bit out along one edge: an edge carrying a
/// sub-circuit name must lead to a child, which a flat circuit does not
/// have; otherwise the edge is applied as a value edge.
pub open spec fn apply_edge_input(t: Tables, val: bool, e: EdgeSpec) -> (
    Tables,
    Option<ExecErrorKind>,
) {
    match e.circuit {
        Some(name) => if !(e.id is Input) {
            (t, Some(ExecErrorKind::InvalidEdge))
        } else if !is_ascii_chars(name) {
            (t, Some(ExecErrorKind::InvalidName))
        } else {
            (t, Some(ExecErrorKind::UnknownSubCircuit))
        },
        None => apply_edge_value(t, val, e),
    }
}

pub open spec fn apply_edges_input(t: Tables, val: bool, edges: Seq<EdgeSpec>, j: int) -> (
    Tables,
    Option<ExecErrorKind>,
)
    decreases edges.len() - j,
{
    if j < 0 || j >= edges.len() {
        (t, None)
    } else {
        let (t2, err) = apply_edge_input(t, val, edges[j]);
        match err {
            Some(e) => (t2, Some(e)),
            None => apply_edges_input(t2, val, edges, j + 1),
        }
    }
}

/// Forwards an already-produced output along one edge: only edges into a
/// named sub-circuit's input are meaningful here, and a flat circuit has
/// no children to receive them.
pub open spec fn apply_edges_fwd(t: Tables, edges: Seq<EdgeSpec>, j: int) -> (
    Tables,
    Option<ExecErrorKind>,
)
    decreases edges.len() - j,
{
    if j < 0 || j >= edges.len() {
        (t, None)
    } else {
        match edges[j].id {
            ID::Input(_) => match edges[j].circuit {
                None => (t, Some(ExecErrorKind::InvalidEdge)),
                Some(name) => if !is_ascii_chars(name) {
                    (t, Some(ExecErrorKind::InvalidName))
                } else {
                    (t, Some(ExecErrorKind::UnknownSubCircuit))
                },
            },
            _ => (t, Some(ExecErrorKind::InvalidEdge)),
        }
    }
}

/// Processes one node of the stream in a flat circuit: inputs fan their
/// supplied bit out, gates consume their operand slots and fan the result
/// out, output nodes forward an already-produced bit.
pub open spec fn step_node(t: Tables, n: NodeSpec) -> (Tables, Option<ExecErrorKind>) {
    match n.id {
        ID::Input(id) => {
            if 1 <= id && id - 1 < t.input.len() && t.input[id - 1] is Some {
                apply_edges_input(t, t.input[id - 1]->0, n.edges, 0)
            } else {
                (t, Some(ExecErrorKind::MissingInput))
            }
        },
        ID::Gate(id) => {
            if n.circuit is Some {
                (t, Some(ExecErrorKind::InvalidNode))
            } else {
                match n.gate_type {
                    None => (t, Some(ExecErrorKind::InvalidNode)),
                    Some(gt) => {
                        if gt.spec_operands() == 1 {
                            let (t1, a) = ftake_slot(t, id, Pin::Left);
                            match a {
                                None => (t1, Some(ExecErrorKind::MissingOperand)),
                                Some(av) => apply_edges_value(
                                    t1,
                                    gate_eval(gt, av, false),
                                    n.edges,
                                    0,
                                ),
                            }
                        } else {
                            let (t1, a) = ftake_slot(t, id, Pin::Left);
                            match a {
                                None => (t1, Some(ExecErrorKind::MissingOperand)),
                                Some(av) => {
                                    let (t2, b) = ftake_slot(t1, id, Pin::Right);
                                    match b {
                                        None => (t2, Some(ExecErrorKind::MissingOperand)),
                                        Some(bv) => apply_edges_value(
                                            t2,
                                            gate_eval(gt, av, bv),
                                            n.edges,
                                            0,
                                        ),
                                    }
                                },
                            }
                        }
                    },
                }
            }
        },
        ID::Output(id) => {
            if n.circuit is Some {
                if !is_ascii_chars(n.circuit->0) {
                    (t, Some(ExecErrorKind::InvalidName))
                } else {
                    (t, Some(ExecErrorKind::UnknownSubCircuit))
                }
            } else if 1 <= id && id - 1 < t.output.len() && t.output[id - 1] is Some {
                apply_edges_fwd(t, n.edges, 0)
            } else {
                (t, Some(ExecErrorKind::MissingOutput))
            }
        },
        ID::Const => (t, Some(ExecErrorKind::InvalidNode)),
    }
}

pub open spec fn run_nodes(t: Tables, nodes: Seq<NodeSpec>, i: int) -> (
    Tables,
    Option<ExecErrorKind>,
)
    decreases nodes.len() - i,
{
    if i < 0 || i >= nodes.len() {
        (t, None)
    } else {
        let (t2, err) = step_node(t, nodes[i]);
        match err {
            Some(e) => (t2, Some(e)),
            None => run_nodes(t2, nodes, i + 1),
        }
    }
}

/// What one evaluation of a flat circuit does to its tables: nothing
/// before every input is supplied, otherwise one pass over the node
/// stream in stored order.
pub open spec fn spec_execute_flat(t: Tables, nodes: Seq<NodeSpec>) -> (
    Tables,
    Option<ExecErrorKind>,
) {
    if !all_supplied(t.input) {
        (t, Some(ExecErrorKind::NotExecutable))
    } else {
        run_nodes(t, nodes, 0)
    }
}


/// The evaluation state of one circuit during a walk: its value tables
/// and its named children, each child a whole runtime circuit.
#[verifier::ext_equal]
pub struct EvalState {
    pub t: Tables,
    pub subs: Seq<(Seq<char>, Circuit)>,
}

/// The children of a circuit as (name, child) pairs.
pub open spec fn sub_views(subs: Seq<(String, Circuit)>) -> Seq<(Seq<char>, Circuit)> {
    Seq::new(subs.len(), |j: int| (subs[j].0@, subs[j].1))
}

/// A circuit's evaluation state.
pub open spec fn eval_state(c: Circuit) -> EvalState {
    EvalState { t: tables(c), subs: sub_views(c.sub@) }
}

/// The first child of the given name, if any.
pub open spec fn find_from(subs: Seq<(Seq<char>, Circuit)>, name: Seq<char>, j: int) -> Option<
    int,
>
    decreases subs.len() - j,
{
    if j < 0 || j >= subs.len() {
        None
    } else if subs[j].0 == name {
        Some(j)
    } else {
        find_from(subs, name, j + 1)
    }
}

pub open spec fn find_name(subs: Seq<(Seq<char>, Circuit)>, name: Seq<char>) -> Option<int> {
    find_from(subs, name, 0)
}

/// `c1` is `c0` with only its input table changed to `in1`: descriptor,
/// node stream, depth, other tables and children untouched.
pub open spec fn child_with_input(c0: Circuit, in1: Seq<Option<bool>>, c1: Circuit) -> bool {
    &&& c1.info == c0.info
    &&& c1.nodes@ == c0.nodes@
    &&& c1.depth == c0.depth
    &&& c1.input@ == in1
    &&& c1.output@ == c0.output@
    &&& c1.lookup@ == c0.lookup@
    &&& c1.sub@ == c0.sub@
}

/// A trigger marker naming the child a cascade leaves behind.
pub open spec fn child_pick(c1: Circuit) -> bool {
    true
}

/// A trigger marker naming one step's outcome, so that proofs can hand
/// the walk relations their witnesses.
pub open spec fn step_pick(mid: EvalState, e0: Option<ExecErrorKind>) -> bool {
    true
}

/// Forwarding a bit into the named child: the child's input slot is set
/// and, the instant its last declared input arrives, the child runs one
/// evaluation — synchronously, inside this very step, and at most once,
/// since the run consumes the operand slots it read. An unknown name or
/// an undeclared input is a typed error that changes nothing.
pub open spec fn cascade_rel(
    d: nat,
    s0: EvalState,
    name: Seq<char>,
    inid: u64,
    val: bool,
    s1: EvalState,
    err: Option<ExecErrorKind>,
) -> bool
    decreases d, 0int, 0int, 0int,
{
    match find_name(s0.subs, name) {
        None => s1 == s0 && err == Some(ExecErrorKind::UnknownSubCircuit),
        Some(j) => {
            let c0 = s0.subs[j].1;
            if !(1 <= inid && inid - 1 < c0.input@.len()) {
                s1 == s0 && err == Some(ExecErrorKind::InvalidEdge)
            } else {
                let in1 = c0.input@.update(inid - 1, Some(val));
                if !all_supplied(in1) {
                    // the child only stores the bit
                    &&& err is None
                    &&& s1.t == s0.t
                    &&& exists|c1: Circuit|
                        #[trigger] child_pick(c1) && child_with_input(c0, in1, c1) && s1.subs
                            == s0.subs.update(j, (s0.subs[j].0, c1))
                } else if c0.depth < d {
                    // the child's last input arrived: it executes now
                    exists|c1: Circuit|
                        {
                            &&& #[trigger] child_pick(c1)
                            &&& c1.info == c0.info
                            &&& c1.nodes@ == c0.nodes@
                            &&& c1.depth == c0.depth
                            &&& c1.input@ == in1
                            &&& exec_rel(
                                c0.depth as nat,
                                EvalState {
                                    t: Tables {
                                        input: in1,
                                        output: c0.output@,
                                        lookup: c0.lookup@,
                                    },
                                    subs: sub_views(c0.sub@),
                                },
                                node_views(c0.nodes@),
                                eval_state(c1),
                                err,
                            )
                            &&& s1.t == s0.t
                            &&& s1.subs == s0.subs.update(j, (s0.subs[j].0, c1))
                        }
                } else {
                    false
                }
            }
        },
    }
}

/// One fan-out edge of a gate, constant or tagged output node: outputs
/// and gate slots are written locally, an edge into a named child
/// cascades.
pub open spec fn edge_value_rel(
    d: nat,
    s0: EvalState,
    val: bool,
    e: EdgeSpec,
    s1: EvalState,
    err: Option<ExecErrorKind>,
) -> bool
    decreases d, 0int, 0int, 1int,
{
    match e.id {
        ID::Input(k) => match e.circuit {
            None => s1 == s0 && err == Some(ExecErrorKind::InvalidEdge),
            Some(name) => if !is_ascii_chars(name) {
                s1 == s0 && err == Some(ExecErrorKind::InvalidName)
            } else {
                cascade_rel(d, s0, name, k, val, s1, err)
            },
        },
        _ => {
            let (t2, e2) = apply_edge_value(s0.t, val, e);
            s1.t == t2 && s1.subs == s0.subs && err == e2
        },
    }
}

/// One fan-out edge of an input node: an edge carrying a child name must
/// target an input of that child; a plain edge is a value edge.
pub open spec fn edge_input_rel(
    d: nat,
    s0: EvalState,
    val: bool,
    e: EdgeSpec,
    s1: EvalState,
    err: Option<ExecErrorKind>,
) -> bool
    decreases d, 0int, 0int, 1int,
{
    match e.circuit {
        Some(name) => if !(e.id is Input) {
            s1 == s0 && err == Some(ExecErrorKind::InvalidEdge)
        } else if !is_ascii_chars(name) {
            s1 == s0 && err == Some(ExecErrorKind::InvalidName)
        } else {
            cascade_rel(d, s0, name, e.id.val(), val, s1, err)
        },
        None => {
            let (t2, e2) = apply_edge_value(s0.t, val, e);
            s1.t == t2 && s1.subs == s0.subs && err == e2
        },
    }
}

/// One forwarding edge of an untagged output node: only an edge into a
/// named child's input is allowed.
pub open spec fn edge_fwd_rel(
    d: nat,
    s0: EvalState,
    val: bool,
    e: EdgeSpec,
    s1: EvalState,
    err: Option<ExecErrorKind>,
) -> bool
    decreases d, 0int, 0int, 1int,
{
    match e.id {
        ID::Input(k) => match e.circuit {
            None => s1 == s0 && err == Some(ExecErrorKind::InvalidEdge),
            Some(name) => if !is_ascii_chars(name) {
                s1 == s0 && err == Some(ExecErrorKind::InvalidName)
            } else {
                cascade_rel(d, s0, name, k, val, s1, err)
            },
        },
        _ => s1 == s0 && err == Some(ExecErrorKind::InvalidEdge),
    }
}

/// A whole fan-out list, one edge at a time, stopping at the first error.
pub open spec fn edges_value_rel(
    d: nat,
    s0: EvalState,
    val: bool,
    edges: Seq<EdgeSpec>,
    j: int,
    s1: EvalState,
    err: Option<ExecErrorKind>,
) -> bool
    decreases d, 0int, edges.len() - j, 2int,
{
    if j < 0 || j >= edges.len() {
        s1 == s0 && err is None
    } else {
        exists|mid: EvalState, e0: Option<ExecErrorKind>|
            #[trigger] step_pick(mid, e0) && edge_value_rel(d, s0, val, edges[j], mid, e0) && (match e0 {
                Some(k) => s1 == mid && err == Some(k),
                None => edges_value_rel(d, mid, val, edges, j + 1, s1, err),
            })
    }
}

pub open spec fn edges_input_rel(
    d: nat,
    s0: EvalState,
    val: bool,
    edges: Seq<EdgeSpec>,
    j: int,
    s1: EvalState,
    err: Option<ExecErrorKind>,
) -> bool
    decreases d, 0int, edges.len() - j, 2int,
{
    if j < 0 || j >= edges.len() {
        s1 == s0 && err is None
    } else {
        exists|mid: EvalState, e0: Option<ExecErrorKind>|
            #[trigger] step_pick(mid, e0) && edge_input_rel(d, s0, val, edges[j], mid, e0) && (match e0 {
                Some(k) => s1 == mid && err == Some(k),
                None => edges_input_rel(d, mid, val, edges, j + 1, s1, err),
            })
    }
}

pub open spec fn edges_fwd_rel(
    d: nat,
    s0: EvalState,
    val: bool,
    edges: Seq<EdgeSpec>,
    j: int,
    s1: EvalState,
    err: Option<ExecErrorKind>,
) -> bool
    decreases d, 0int, edges.len() - j, 2int,
{
    if j < 0 || j >= edges.len() {
        s1 == s0 && err is None
    } else {
        exists|mid: EvalState, e0: Option<ExecErrorKind>|
            #[trigger] step_pick(mid, e0) && edge_fwd_rel(d, s0, val, edges[j], mid, e0) && (match e0 {
                Some(k) => s1 == mid && err == Some(k),
                None => edges_fwd_rel(d, mid, val, edges, j + 1, s1, err),
            })
    }
}

/// One node of the stream, with children taken into account: an input
/// node fans its supplied bit out; a gate consumes its operand slots and
/// fans the result out; a tagged output node reads the named child's
/// already-computed output; an untagged one forwards its own.
pub open spec fn node_rel(
    d: nat,
    s0: EvalState,
    n: NodeSpec,
    s1: EvalState,
    err: Option<ExecErrorKind>,
) -> bool
    decreases d, 1int, 0int, 0int,
{
    match n.id {
        ID::Input(id) => {
            if 1 <= id && id - 1 < s0.t.input.len() && s0.t.input[id - 1] is Some {
                edges_input_rel(d, s0, s0.t.input[id - 1]->0, n.edges, 0, s1, err)
            } else {
                s1 == s0 && err == Some(ExecErrorKind::MissingInput)
            }
        },
        ID::Gate(id) => {
            if n.circuit is Some {
                s1 == s0 && err == Some(ExecErrorKind::InvalidNode)
            } else {
                match n.gate_type {
                    None => s1 == s0 && err == Some(ExecErrorKind::InvalidNode),
                    Some(gt) => {
                        let (t1, a) = ftake_slot(s0.t, id, Pin::Left);
                        if gt.spec_operands() == 1 {
                            match a {
                                None => s1 == EvalState { t: t1, ..s0 } && err == Some(
                                    ExecErrorKind::MissingOperand,
                                ),
                                Some(av) => edges_value_rel(
                                    d,
                                    EvalState { t: t1, ..s0 },
                                    gate_eval(gt, av, false),
                                    n.edges,
                                    0,
                                    s1,
                                    err,
                                ),
                            }
                        } else {
                            match a {
                                None => s1 == EvalState { t: t1, ..s0 } && err == Some(
                                    ExecErrorKind::MissingOperand,
                                ),
                                Some(av) => {
                                    let (t2, b) = ftake_slot(t1, id, Pin::Right);
                                    match b {
                                        None => s1 == EvalState { t: t2, ..s0 } && err == Some(
                                            ExecErrorKind::MissingOperand,
                                        ),
                                        Some(bv) => edges_value_rel(
                                            d,
                                            EvalState { t: t2, ..s0 },
                                            gate_eval(gt, av, bv),
                                            n.edges,
                                            0,
                                            s1,
                                            err,
                                        ),
                                    }
                                },
                            }
                        }
                    },
                }
            }
        },
        ID::Output(id) => {
            match n.circuit {
                Some(name) => {
                    if !is_ascii_chars(name) {
                        s1 == s0 && err == Some(ExecErrorKind::InvalidName)
                    } else {
                        match find_name(s0.subs, name) {
                            None => s1 == s0 && err == Some(ExecErrorKind::UnknownSubCircuit),
                            Some(j) => {
                                let c = s0.subs[j].1;
                                if 1 <= id && id - 1 < c.output@.len() && c.output@[id - 1]
                                    is Some {
                                    edges_value_rel(
                                        d,
                                        s0,
                                        c.output@[id - 1]->0,
                                        n.edges,
                                        0,
                                        s1,
                                        err,
                                    )
                                } else {
                                    s1 == s0 && err == Some(ExecErrorKind::MissingOutput)
                                }
                            },
                        }
                    }
                },
                None => {
                    if 1 <= id && id - 1 < s0.t.output.len() && s0.t.output[id - 1] is Some {
                        edges_fwd_rel(d, s0, s0.t.output[id - 1]->0, n.edges, 0, s1, err)
                    } else {
                        s1 == s0 && err == Some(ExecErrorKind::MissingOutput)
                    }
                },
            }
        },
        ID::Const => s1 == s0 && err == Some(ExecErrorKind::InvalidNode),
    }
}

/// The walk over the node stream from `i` on, stopping at the first
/// error.
pub open spec fn run_rel(
    d: nat,
    s0: EvalState,
    nodes: Seq<NodeSpec>,
    i: int,
    s1: EvalState,
    err: Option<ExecErrorKind>,
) -> bool
    decreases d, 2int, nodes.len() - i, 0int,
{
    if i < 0 || i >= nodes.len() {
        s1 == s0 && err is None
    } else {
        exists|mid: EvalState, e0: Option<ExecErrorKind>|
            #[trigger] step_pick(mid, e0) && node_rel(d, s0, nodes[i], mid, e0) && (match e0 {
                Some(k) => s1 == mid && err == Some(k),
                None => run_rel(d, mid, nodes, i + 1, s1, err),
            })
    }
}

/// One evaluation of a circuit, children included: nothing happens before
/// every declared input is supplied, otherwise one pass over the node
/// stream in stored order, cascading into children the instant their last
/// input arrives. Children never run on any other occasion, so each runs
/// at most once per bit that completes it, and never at an outside
/// caller's hand.
pub open spec fn exec_rel(
    d: nat,
    s0: EvalState,
    nodes: Seq<NodeSpec>,
    s1: EvalState,
    err: Option<ExecErrorKind>,
) -> bool
    decreases d, 3int, 0int, 0int,
{
    if !all_supplied(s0.t.input) {
        s1 == s0 && err == Some(ExecErrorKind::NotExecutable)
    } else {
        run_rel(d, s0, nodes, 0, s1, err)
    }
}

/// On a child-free state, one value edge of the walk relation does
/// exactly what the functional flat step does.
proof fn lemma_edge_value_rel_flat(
    d: nat,
    s0: EvalState,
    val: bool,
    e: EdgeSpec,
    s1: EvalState,
    err: Option<ExecErrorKind>,
)
    requires
        edge_value_rel(d, s0, val, e, s1, err),
        s0.subs.len() == 0,
    ensures
        s1.t == apply_edge_value(s0.t, val, e).0,
        err == apply_edge_value(s0.t, val, e).1,
        s1.subs == s0.subs,
{
    match e.id {
        ID::Input(k) => {
            match e.circuit {
                Some(name) => {
                    if is_ascii_chars(name) {
                        assert(find_name(s0.subs, name) is None);
                    }
                },
                None => {},
            }
        },
        _ => {},
    }
}

proof fn lemma_edge_input_rel_flat(
    d: nat,
    s0: EvalState,
    val: bool,
    e: EdgeSpec,
    s1: EvalState,
    err: Option<ExecErrorKind>,
)
    requires
        edge_input_rel(d, s0, val, e, s1, err),
        s0.subs.len() == 0,
    ensures
        s1.t == apply_edge_input(s0.t, val, e).0,
        err == apply_edge_input(s0.t, val, e).1,
        s1.subs == s0.subs,
{
    match e.circuit {
        Some(name) => {
            if e.id is Input && is_ascii_chars(name) {
                assert(find_name(s0.subs, name) is None);
            }
        },
        None => {},
    }
}

proof fn lemma_edge_fwd_rel_flat(
    d: nat,
    s0: EvalState,
    val: bool,
    e: EdgeSpec,
    s1: EvalState,
    err: Option<ExecErrorKind>,
)
    requires
        edge_fwd_rel(d, s0, val, e, s1, err),
        s0.subs.len() == 0,
    ensures
        s1.t == s0.t,
        err == apply_edges_fwd(s0.t, seq![e], 0).1,
        err is Some,
        s1.subs == s0.subs,
{
    match e.id {
        ID::Input(k) => {
            match e.circuit {
                Some(name) => {
                    if is_ascii_chars(name) {
                        assert(find_name(s0.subs, name) is None);
                    }
                },
                None => {},
            }
        },
        _ => {},
    }
    assert(seq![e][0] == e);
}

proof fn lemma_edges_value_rel_flat(
    d: nat,
    s0: EvalState,
    val: bool,
    edges: Seq<EdgeSpec>,
    j: int,
    s1: EvalState,
    err: Option<ExecErrorKind>,
)
    requires
        edges_value_rel(d, s0, val, edges, j, s1, err),
        s0.subs.len() == 0,
    ensures
        s1.t == apply_edges_value(s0.t, val, edges, j).0,
        err == apply_edges_value(s0.t, val, edges, j).1,
        s1.subs == s0.subs,
    decreases edges.len() - j,
{
    if 0 <= j < edges.len() {
        let (mid, e0) = choose|mid: EvalState, e0: Option<ExecErrorKind>|
            #[trigger] step_pick(mid, e0) && edge_value_rel(d, s0, val, edges[j], mid, e0) && (
            match e0 {
                Some(k) => s1 == mid && err == Some(k),
                None => edges_value_rel(d, mid, val, edges, j + 1, s1, err),
            });
        lemma_edge_value_rel_flat(d, s0, val, edges[j], mid, e0);
        match e0 {
            Some(k) => {},
            None => {
                lemma_edges_value_rel_flat(d, mid, val, edges, j + 1, s1, err);
            },
        }
    }
}

proof fn lemma_edges_input_rel_flat(
    d: nat,
    s0: EvalState,
    val: bool,
    edges: Seq<EdgeSpec>,
    j: int,
    s1: EvalState,
    err: Option<ExecErrorKind>,
)
    requires
        edges_input_rel(d, s0, val, edges, j, s1, err),
        s0.subs.len() == 0,
    ensures
        s1.t == apply_edges_input(s0.t, val, edges, j).0,
        err == apply_edges_input(s0.t, val, edges, j).1,
        s1.subs == s0.subs,
    decreases edges.len() - j,
{
    if 0 <= j < edges.len() {
        let (mid, e0) = choose|mid: EvalState, e0: Option<ExecErrorKind>|
            #[trigger] step_pick(mid, e0) && edge_input_rel(d, s0, val, edges[j], mid, e0) && (
            match e0 {
                Some(k) => s1 == mid && err == Some(k),
                None => edges_input_rel(d, mid, val, edges, j + 1, s1, err),
            });
        lemma_edge_input_rel_flat(d, s0, val, edges[j], mid, e0);
        match e0 {
            Some(k) => {},
            None => {
                lemma_edges_input_rel_flat(d, mid, val, edges, j + 1, s1, err);
            },
        }
    }
}

proof fn lemma_edges_fwd_rel_flat(
    d: nat,
    s0: EvalState,
    val: bool,
    edges: Seq<EdgeSpec>,
    j: int,
    s1: EvalState,
    err: Option<ExecErrorKind>,
)
    requires
        edges_fwd_rel(d, s0, val, edges, j, s1, err),
        s0.subs.len() == 0,
    ensures
        s1.t == apply_edges_fwd(s0.t, edges, j).0,
        err == apply_edges_fwd(s0.t, edges, j).1,
        s1.subs == s0.subs,
    decreases edges.len() - j,
{
    if 0 <= j < edges.len() {
        let (mid, e0) = choose|mid: EvalState, e0: Option<ExecErrorKind>|
            #[trigger] step_pick(mid, e0) && edge_fwd_rel(d, s0, val, edges[j], mid, e0) && (
            match e0 {
                Some(k) => s1 == mid && err == Some(k),
                None => edges_fwd_rel(d, mid, val, edges, j + 1, s1, err),
            });
        lemma_edge_fwd_rel_flat(d, s0, val, edges[j], mid, e0);
        match e0 {
            Some(k) => {},
            None => {
                lemma_edges_fwd_rel_flat(d, mid, val, edges, j + 1, s1, err);
            },
        }
    }
}

proof fn lemma_node_rel_flat(
    d: nat,
    s0: EvalState,
    n: NodeSpec,
    s1: EvalState,
    err: Option<ExecErrorKind>,
)
    requires
        node_rel(d, s0, n, s1, err),
        s0.subs.len() == 0,
    ensures
        s1.t == step_node(s0.t, n).0,
        err == step_node(s0.t, n).1,
        s1.subs == s0.subs,
{
    match n.id {
        ID::Input(id) => {
            if 1 <= id && id - 1 < s0.t.input.len() && s0.t.input[id - 1] is Some {
                lemma_edges_input_rel_flat(d, s0, s0.t.input[id - 1]->0, n.edges, 0, s1, err);
            }
        },
        ID::Gate(id) => {
            if n.circuit is None {
                match n.gate_type {
                    Some(gt) => {
                        let (t1, a) = ftake_slot(s0.t, id, Pin::Left);
                        if gt.spec_operands() == 1 {
                            match a {
                                Some(av) => {
                                    lemma_edges_value_rel_flat(
                                        d,
                                        EvalState { t: t1, ..s0 },
                                        gate_eval(gt, av, false),
                                        n.edges,
                                        0,
                                        s1,
                                        err,
                                    );
                                },
                                None => {},
                            }
                        } else {
                            match a {
                                Some(av) => {
                                    let (t2, b) = ftake_slot(t1, id, Pin::Right);
                                    match b {
                                        Some(bv) => {
                                            lemma_edges_value_rel_flat(
                                                d,
                                                EvalState { t: t2, ..s0 },
                                                gate_eval(gt, av, bv),
                                                n.edges,
                                                0,
                                                s1,
                                                err,
                                            );
                                        },
                                        None => {},
                                    }
                                },
                                None => {},
                            }
                        }
                    },
                    None => {},
                }
            }
        },
        ID::Output(id) => {
            match n.circuit {
                Some(name) => {
                    if is_ascii_chars(name) {
                        assert(find_name(s0.subs, name) is None);
                    }
                },
                None => {
                    if 1 <= id && id - 1 < s0.t.output.len() && s0.t.output[id - 1] is Some {
                        lemma_edges_fwd_rel_flat(
                            d,
                            s0,
                            s0.t.output[id - 1]->0,
                            n.edges,
                            0,
                            s1,
                            err,
                        );
                    }
                },
            }
        },
        ID::Const => {},
    }
}

proof fn lemma_run_rel_flat(
    d: nat,
    s0: EvalState,
    nodes: Seq<NodeSpec>,
    i: int,
    s1: EvalState,
    err: Option<ExecErrorKind>,
)
    requires
        run_rel(d, s0, nodes, i, s1, err),
        s0.subs.len() == 0,
    ensures
        s1.t == run_nodes(s0.t, nodes, i).0,
        err == run_nodes(s0.t, nodes, i).1,
        s1.subs == s0.subs,
    decreases nodes.len() - i,
{
    if 0 <= i < nodes.len() {
        let (mid, e0) = choose|mid: EvalState, e0: Option<ExecErrorKind>|
            #[trigger] step_pick(mid, e0) && node_rel(d, s0, nodes[i], mid, e0) && (match e0 {
                Some(k) => s1 == mid && err == Some(k),
                None => run_rel(d, mid, nodes, i + 1, s1, err),
            });
        lemma_node_rel_flat(d, s0, nodes[i], mid, e0);
        match e0 {
            Some(k) => {},
            None => {
                lemma_run_rel_flat(d, mid, nodes, i + 1, s1, err);
            },
        }
    }
}

/// On a child-free circuit the walk relation is the functional flat
/// evaluation, so any two evaluations it admits agree: the relational
/// and the functional views of the engine coincide where both speak.
pub proof fn lemma_exec_rel_flat(
    d: nat,
    s0: EvalState,
    nodes: Seq<NodeSpec>,
    s1: EvalState,
    err: Option<ExecErrorKind>,
)
    requires
        exec_rel(d, s0, nodes, s1, err),
        s0.subs.len() == 0,
    ensures
        s1.t == spec_execute_flat(s0.t, nodes).0,
        err == spec_execute_flat(s0.t, nodes).1,
        s1.subs == s0.subs,
{
    if all_supplied(s0.t.input) {
        lemma_run_rel_flat(d, s0, nodes, 0, s1, err);
    }
}

/// The canonical parent shape of a one-child composition: the sole input
/// feeds the named child's sole input, and the child's sole output feeds
/// the parent's sole output.
pub open spec fn bridge_input_node(name: Seq<char>) -> NodeSpec {
    NodeSpec {
        id: ID::Input(1),
        gate_type: None,
        circuit: None,
        edges: seq![EdgeSpec { id: ID::Input(1), pin: None, circuit: Some(name) }],
    }
}

pub open spec fn bridge_output_node(name: Seq<char>) -> NodeSpec {
    NodeSpec {
        id: ID::Output(1),
        gate_type: None,
        circuit: Some(name),
        edges: seq![EdgeSpec { id: ID::Output(1), pin: None, circuit: None }],
    }
}

/// Composition across a circuit boundary changes no evaluated value: a
/// parent whose sole input feeds a named child's sole input, and whose
/// sole output the child's sole output feeds, computes exactly what the
/// child computes flat on the same bit — whenever the inlined run
/// produces its output, the composed run succeeds with the same output.
pub proof fn lemma_single_child_composition(
    d: nat,
    s0: EvalState,
    child: Circuit,
    name: Seq<char>,
    s1: EvalState,
    err: Option<ExecErrorKind>,
)
    requires
        exec_rel(d, s0, seq![bridge_input_node(name), bridge_output_node(name)], s1, err),
        s0.subs == seq![(name, child)],
        is_ascii_chars(name),
        s0.t.input.len() == 1,
        s0.t.input[0] is Some,
        s0.t.output.len() == 1,
        child.input@.len() == 1,
        child.sub@.len() == 0,
    ensures
        ({
            let in1 = child.input@.update(0, Some(s0.t.input[0]->0));
            let crun = spec_execute_flat(
                Tables { input: in1, output: child.output@, lookup: child.lookup@ },
                node_views(child.nodes@),
            );
            crun.1 is None && crun.0.output.len() >= 1 && crun.0.output[0] is Some ==> err
                is None && s1.t.output[0] == crun.0.output[0]
        }),
{
    let nodes = seq![bridge_input_node(name), bridge_output_node(name)];
    let bit = s0.t.input[0]->0;
    let in1 = child.input@.update(0, Some(bit));
    let ct0 = Tables { input: in1, output: child.output@, lookup: child.lookup@ };
    let crun = spec_execute_flat(ct0, node_views(child.nodes@));
    if crun.1 is None && crun.0.output.len() >= 1 && crun.0.output[0] is Some {
        assert(all_supplied(s0.t.input));
        // the walk holds two nodes: destructure it step by step
        let (mid0, e0) = choose|mid: EvalState, e0: Option<ExecErrorKind>|
            #[trigger] step_pick(mid, e0) && node_rel(d, s0, nodes[0], mid, e0) && (match e0 {
                Some(k) => s1 == mid && err == Some(k),
                None => run_rel(d, mid, nodes, 1, s1, err),
            });
        // the input node: its single edge cascades into the child
        assert(nodes[0] == bridge_input_node(name));
        let iedges = bridge_input_node(name).edges;
        assert(node_rel(d, s0, nodes[0], mid0, e0));
        assert(edges_input_rel(d, s0, bit, iedges, 0, mid0, e0));
        let (mid1, e1) = choose|mid: EvalState, e1: Option<ExecErrorKind>|
            #[trigger] step_pick(mid, e1) && edge_input_rel(d, s0, bit, iedges[0], mid, e1) && (
            match e1 {
                Some(k) => mid0 == mid && e0 == Some(k),
                None => edges_input_rel(d, mid, bit, iedges, 1, mid0, e0),
            });
        assert(iedges[0].circuit == Some(name));
        assert(cascade_rel(d, s0, name, 1, bit, mid1, e1));
        assert(find_name(s0.subs, name) == Some(0int)) by {
            assert(s0.subs[0].0 == name);
        }
        assert(s0.subs[0].1 == child);
        assert(all_supplied(in1)) by {
            assert(in1.len() == 1);
            assert(in1[0] is Some);
        }
        assert((child.depth as nat) < d);
        let c1 = choose|c1: Circuit|
            #[trigger] child_pick(c1) && c1.info == child.info && c1.nodes@ == child.nodes@
                && c1.depth == child.depth && c1.input@ == in1 && exec_rel(
                child.depth as nat,
                EvalState { t: ct0, subs: sub_views(child.sub@) },
                node_views(child.nodes@),
                eval_state(c1),
                e1,
            ) && mid1.t == s0.t && mid1.subs == s0.subs.update(0, (s0.subs[0].0, c1));
        // the child ran flat: its tables are the inlined run's tables
        assert(sub_views(child.sub@).len() == 0);
        lemma_exec_rel_flat(
            child.depth as nat,
            EvalState { t: ct0, subs: sub_views(child.sub@) },
            node_views(child.nodes@),
            eval_state(c1),
            e1,
        );
        assert(eval_state(c1).t == crun.0);
        assert(e1 == crun.1);
        assert(e1 is None);
        assert(edges_input_rel(d, mid1, bit, iedges, 1, mid0, e0));
        assert(mid0 == mid1 && e0 is None);
        // the tagged output node: it reads the child's computed output
        assert(run_rel(d, mid0, nodes, 1, s1, err));
        let (mid2, e2) = choose|mid: EvalState, e2: Option<ExecErrorKind>|
            #[trigger] step_pick(mid, e2) && node_rel(d, mid0, nodes[1], mid, e2) && (match e2 {
                Some(k) => s1 == mid && err == Some(k),
                None => run_rel(d, mid, nodes, 2, s1, err),
            });
        assert(nodes[1] == bridge_output_node(name));
        assert(find_name(mid0.subs, name) == Some(0int)) by {
            assert(mid0.subs[0].0 == name);
        }
        assert(mid0.subs[0].1 == c1);
        assert(c1.output@ == crun.0.output);
        assert(c1.output@[0] is Some);
        let val = c1.output@[0]->0;
        let oedges = bridge_output_node(name).edges;
        assert(edges_value_rel(d, mid0, val, oedges, 0, mid2, e2));
        let (mid3, e3) = choose|mid: EvalState, e3: Option<ExecErrorKind>|
            #[trigger] step_pick(mid, e3) && edge_value_rel(d, mid0, val, oedges[0], mid, e3) && (
            match e3 {
                Some(k) => mid2 == mid && e2 == Some(k),
                None => edges_value_rel(d, mid, val, oedges, 1, mid2, e2),
            });
        assert(oedges[0].id == ID::Output(1));
        assert(mid3.t == fw_out(mid0.t, 1, val).0 && e3 == fw_out(mid0.t, 1, val).1);
        assert(mid0.t.output.len() == 1);
        assert(e3 is None);
        assert(mid3.t.output[0] == Some(val));
        assert(edges_value_rel(d, mid3, val, oedges, 1, mid2, e2));
        assert(mid2 == mid3 && e2 is None);
        assert(run_rel(d, mid2, nodes, 2, s1, err));
        assert(s1 == mid2 && err is None);
        assert(s1.t.output[0] == crun.0.output[0]);
    }
}

/// The parts of a circuit one evaluation never changes: descriptor, node
/// stream, nesting depth, table sizes, own inputs, and the child roster.
pub open spec fn same_frame(a: Circuit, b: Circuit) -> bool {
    &&& b.info == a.info
    &&& b.nodes@ == a.nodes@
    &&& b.depth == a.depth
    &&& b.input@ == a.input@
    &&& b.output@.len() == a.output@.len()
    &&& b.lookup@.len() == a.lookup@.len()
    &&& b.sub@.len() == a.sub@.len()
    &&& forall|j: int|
        0 <= j < a.sub@.len() ==> (#[trigger] b.sub@[j]).0 == a.sub@[j].0 && b.sub@[j].1.depth
            == a.sub@[j].1.depth
}

/// One related edge step extends the fold relation by one position.
proof fn lemma_edges_value_step(
    d: nat,
    s0: EvalState,
    val: bool,
    edges: Seq<EdgeSpec>,
    j: int,
    mid: EvalState,
    e0: Option<ExecErrorKind>,
    s1: EvalState,
    err: Option<ExecErrorKind>,
)
    requires
        0 <= j < edges.len(),
        edge_value_rel(d, s0, val, edges[j], mid, e0),
        match e0 {
            Some(k) => s1 == mid && err == Some(k),
            None => edges_value_rel(d, mid, val, edges, j + 1, s1, err),
        },
    ensures
        edges_value_rel(d, s0, val, edges, j, s1, err),
{
    assert(step_pick(mid, e0));
    assert(edge_value_rel(d, s0, val, edges[j], mid, e0) && match e0 {
        Some(k) => s1 == mid && err == Some(k),
        None => edges_value_rel(d, mid, val, edges, j + 1, s1, err),
    });
}

proof fn lemma_edges_input_step(
    d: nat,
    s0: EvalState,
    val: bool,
    edges: Seq<EdgeSpec>,
    j: int,
    mid: EvalState,
    e0: Option<ExecErrorKind>,
    s1: EvalState,
    err: Option<ExecErrorKind>,
)
    requires
        0 <= j < edges.len(),
        edge_input_rel(d, s0, val, edges[j], mid, e0),
        match e0 {
            Some(k) => s1 == mid && err == Some(k),
            None => edges_input_rel(d, mid, val, edges, j + 1, s1, err),
        },
    ensures
        edges_input_rel(d, s0, val, edges, j, s1, err),
{
    assert(step_pick(mid, e0));
    assert(edge_input_rel(d, s0, val, edges[j], mid, e0) && match e0 {
        Some(k) => s1 == mid && err == Some(k),
        None => edges_input_rel(d, mid, val, edges, j + 1, s1, err),
    });
}

proof fn lemma_edges_fwd_step(
    d: nat,
    s0: EvalState,
    val: bool,
    edges: Seq<EdgeSpec>,
    j: int,
    mid: EvalState,
    e0: Option<ExecErrorKind>,
    s1: EvalState,
    err: Option<ExecErrorKind>,
)
    requires
        0 <= j < edges.len(),
        edge_fwd_rel(d, s0, val, edges[j], mid, e0),
        match e0 {
            Some(k) => s1 == mid && err == Some(k),
            None => edges_fwd_rel(d, mid, val, edges, j + 1, s1, err),
        },
    ensures
        edges_fwd_rel(d, s0, val, edges, j, s1, err),
{
    assert(step_pick(mid, e0));
    assert(edge_fwd_rel(d, s0, val, edges[j], mid, e0) && match e0 {
        Some(k) => s1 == mid && err == Some(k),
        None => edges_fwd_rel(d, mid, val, edges, j + 1, s1, err),
    });
}

/// One related node step extends the walk relation by one position.
proof fn lemma_run_step(
    d: nat,
    s0: EvalState,
    nodes: Seq<NodeSpec>,
    i: int,
    mid: EvalState,
    e0: Option<ExecErrorKind>,
    s1: EvalState,
    err: Option<ExecErrorKind>,
)
    requires
        0 <= i < nodes.len(),
        node_rel(d, s0, nodes[i], mid, e0),
        match e0 {
            Some(k) => s1 == mid && err == Some(k),
            None => run_rel(d, mid, nodes, i + 1, s1, err),
        },
    ensures
        run_rel(d, s0, nodes, i, s1, err),
{
    assert(step_pick(mid, e0));
    assert(node_rel(d, s0, nodes[i], mid, e0) && match e0 {
        Some(k) => s1 == mid && err == Some(k),
        None => run_rel(d, mid, nodes, i + 1, s1, err),
    });
}

/// The kind a step's optional error carries.
pub open spec fn kind_of(r: Option<ExecError>) -> Option<ExecErrorKind> {
    match r {
        Some(e) => Some(e.kind),
        None => None,
    }
}

/// A scan that found no earlier match pins the first-match search.
proof fn lemma_find_from_skip(subs: Seq<(Seq<char>, Circuit)>, name: Seq<char>, j: int)
    requires
        0 <= j <= subs.len(),
        forall|t: int| 0 <= t < j ==> (#[trigger] subs[t]).0 != name,
    ensures
        find_name(subs, name) == find_from(subs, name, j),
    decreases j,
{
    if j > 0 {
        lemma_find_from_skip(subs, name, j - 1);
    }
}

impl Circuit {
    /// Writes a produced bit to an output entry.
    fn write_out(&mut self, id: u64, val: bool) -> (r: Option<ExecError>)
        ensures
            same_frame(*old(self), *final(self)),
            final(self).sub@ == old(self).sub@,
            final(self).lookup@ == old(self).lookup@,
            wf(*old(self)) ==> wf(*final(self)),
            ({
                let (t2, err) = fw_out(tables(*old(self)), id, val);
                tables(*final(self)) == t2 && err == match r {
                    Some(e) => Some(e.kind),
                    None => None::<ExecErrorKind>,
                }
            }),
    {
        if 1 <= id && id - 1 < self.output.len() as u64 {
            let idx = (id - 1) as usize;
            self.output[idx] = Some(val);
            proof {
                assert(tables(*self) =~= fw_out(tables(*old(self)), id, val).0);
            }
            None
        } else {
            Some(ExecError::new(ExecErrorKind::InvalidEdge, "edge targets no declared output"))
        }
    }

    /// Fills a gate operand slot, refusing a second write to an occupied
    /// one.
    fn write_slot(&mut self, gid: u64, pin: Pin, val: bool) -> (r: Option<ExecError>)
        requires
            old(self).lookup@.len() % 2 == 0,
        ensures
            same_frame(*old(self), *final(self)),
            final(self).sub@ == old(self).sub@,
            final(self).output@ == old(self).output@,
            wf(*old(self)) ==> wf(*final(self)),
            ({
                let (t2, err) = fw_slot(tables(*old(self)), gid, pin, val);
                tables(*final(self)) == t2 && err == match r {
                    Some(e) => Some(e.kind),
                    None => None::<ExecErrorKind>,
                }
            }),
    {
        let half = (self.lookup.len() as u64) / 2;
        if 1 <= gid && gid - 1 < half {
            let idx = 2 * ((gid - 1) as usize) + (match pin {
                Pin::Left => 0usize,
                Pin::Right => 1usize,
            });
            if self.lookup[idx].is_some() {
                Some(ExecError::new(ExecErrorKind::DuplicateFanIn, "operand slot already filled"))
            } else {
                self.lookup[idx] = Some(val);
                proof {
                    assert(tables(*self) =~= fw_slot(tables(*old(self)), gid, pin, val).0);
                }
                None
            }
        } else {
            Some(ExecError::new(ExecErrorKind::InvalidEdge, "edge targets no declared gate slot"))
        }
    }

    /// Consumes a gate operand slot, removing the entry as it is read.
    fn take_slot(&mut self, gid: u64, pin: Pin) -> (r: Option<bool>)
        requires
            old(self).lookup@.len() % 2 == 0,
        ensures
            same_frame(*old(self), *final(self)),
            final(self).sub@ == old(self).sub@,
            final(self).output@ == old(self).output@,
            wf(*old(self)) ==> wf(*final(self)),
            ({
                let (t2, v) = ftake_slot(tables(*old(self)), gid, pin);
                tables(*final(self)) == t2 && r == v
            }),
    {
        let half = (self.lookup.len() as u64) / 2;
        if 1 <= gid && gid - 1 < half {
            let idx = 2 * ((gid - 1) as usize) + (match pin {
                Pin::Left => 0usize,
                Pin::Right => 1usize,
            });
            match self.lookup[idx] {
                Some(v) => {
                    self.lookup[idx] = None;
                    proof {
                        assert(tables(*self) =~= ftake_slot(tables(*old(self)), gid, pin).0);
                    }
                    Some(v)
                },
                None => None,
            }
        } else {
            None
        }
    }

    /// Looks a child circuit up by name.
    fn find_sub(&self, name: &str) -> (r: Option<usize>)
        requires
            name.is_ascii(),
            forall|j: int| 0 <= j < self.sub@.len() ==> is_ascii_chars((#[trigger] self.sub@[j]).0@),
        ensures
            r is Some ==> r->0 < self.sub@.len() && self.sub@[r->0 as int].0@ == name@,
            r is Some ==> forall|t: int| 0 <= t < r->0 ==> (#[trigger] self.sub@[t]).0@ != name@,
            r is None ==> forall|j: int|
                0 <= j < self.sub@.len() ==> (#[trigger] self.sub@[j]).0@ != name@,
    {
        let mut j: usize = 0;
        while j < self.sub.len()
            invariant
                name.is_ascii(),
                forall|t: int|
                    0 <= t < self.sub@.len() ==> is_ascii_chars((#[trigger] self.sub@[t]).0@),
                0 <= j <= self.sub@.len(),
                forall|t: int| 0 <= t < j ==> (#[trigger] self.sub@[t]).0@ != name@,
            decreases self.sub@.len() - j,
        {
            if str_eq(self.sub[j].0.as_str(), name) {
                return Some(j);
            }
            j = j + 1;
        }
        None
    }

    /// Whether every declared input has been supplied, making the circuit
    /// executable.
    pub fn is_executable(&self) -> (b: bool)
        ensures
            b == all_supplied(self.input@),
    {
        let mut i: usize = 0;
        while i < self.input.len()
            invariant
                0 <= i <= self.input@.len(),
                forall|t: int| 0 <= t < i ==> (#[trigger] self.input@[t]) is Some,
            decreases self.input@.len() - i,
        {
            if self.input[i].is_none() {
                return false;
            }
            i = i + 1;
        }
        true
    }

    /// Supplies one input bit: any non-zero value is the 1 signal.
    pub fn set_input(&mut self, id: u64, val: u8)
        requires
            1 <= id,
            id <= old(self).input@.len(),
        ensures
            final(self).input@ == old(self).input@.update(id - 1, Some(val != 0)),
            final(self).info == old(self).info,
            final(self).nodes@ == old(self).nodes@,
            final(self).output@ == old(self).output@,
            final(self).lookup@ == old(self).lookup@,
            final(self).sub@ == old(self).sub@,
            final(self).depth == old(self).depth,
            wf(*old(self)) ==> wf(*final(self)),
    {
        let n = self.input.len();
        let idx = (id - 1) as usize;
        self.input[idx] = Some(val != 0);
        proof {
            assert(final(self).input@ =~= old(self).input@.update(id - 1, Some(val != 0)));
        }
    }

    /// Reads one produced output bit; asking before it is produced is the
    /// fatal gap the format forbids.
    pub fn get_output(&self, id: u64) -> (r: Result<u8, ExecError>)
        ensures
            r is Ok <==> (1 <= id && id - 1 < self.output@.len() && self.output@[id - 1] is Some),
            r is Ok ==> r->Ok_0 == (if self.output@[id - 1]->0 {
                1u8
            } else {
                0u8
            }),
            r is Err ==> r->Err_0.kind == ExecErrorKind::MissingOutput,
    {
        if 1 <= id && id - 1 < self.output.len() as u64 {
            match self.output[(id - 1) as usize] {
                Some(v) => Ok(
                    if v {
                        1
                    } else {
                        0
                    },
                ),
                None => Err(
                    ExecError::new(
                        ExecErrorKind::MissingOutput,
                        crate::text::to_dec_string(id).concat(" has no output value").as_str(),
                    ),
                ),
            }
        } else {
            Err(
                ExecError::new(
                    ExecErrorKind::MissingOutput,
                    crate::text::to_dec_string(id).concat(" has no output value").as_str(),
                ),
            )
        }
    }

    /// Drains the output table in ascending output order into a dense bit
    /// sequence; a gap is a fatal error.
    pub fn collect_output(&self) -> (r: Result<Vec<u8>, ExecError>)
        ensures
            r is Ok <==> all_supplied(self.output@),
            r is Ok ==> r->Ok_0@.len() == self.output@.len(),
            r is Ok ==> forall|i: int|
                0 <= i < self.output@.len() ==> #[trigger] r->Ok_0@[i] == (if self.output@[i]->0 {
                    1u8
                } else {
                    0u8
                }),
            r is Err ==> r->Err_0.kind == ExecErrorKind::MissingOutput,
    {
        let mut out: Vec<u8> = Vec::new();
        let mut i: usize = 0;
        while i < self.output.len()
            invariant
                0 <= i <= self.output@.len(),
                out@.len() == i,
                forall|t: int| 0 <= t < i ==> (#[trigger] self.output@[t]) is Some,
                forall|t: int|
                    0 <= t < i ==> #[trigger] out@[t] == (if self.output@[t]->0 {
                        1u8
                    } else {
                        0u8
                    }),
            decreases self.output@.len() - i,
        {
            match self.output[i] {
                Some(v) => {
                    out.push(
                        if v {
                            1
                        } else {
                            0
                        },
                    );
                },
                None => {
                    return Err(
                        ExecError::new(ExecErrorKind::MissingOutput, "gap in the output table"),
                    );
                },
            }
            i = i + 1;
        }
        Ok(out)
    }

    /// Forwards a bit into a named child: sets the child's input and, the
    /// instant its last input arrives, executes it.
    fn cascade(&mut self, name: &str, inid: u64, val: bool) -> (r: Option<ExecError>)
        requires
            wf(*old(self)),
            name.is_ascii(),
        ensures
            wf(*final(self)),
            same_frame(*old(self), *final(self)),
            final(self).output@ == old(self).output@,
            final(self).lookup@ == old(self).lookup@,
            old(self).sub@.len() == 0 ==> *final(self) == *old(self) && r is Some && r->0.kind
                == ExecErrorKind::UnknownSubCircuit,
            cascade_rel(
                old(self).depth as nat,
                eval_state(*old(self)),
                name@,
                inid,
                val,
                eval_state(*final(self)),
                kind_of(r),
            ),
        decreases self.depth, 1int,
    {
        let ghost s0 = eval_state(*self);
        let ghost d = old(self).depth as nat;
        proof {
            assert forall|t: int| 0 <= t < s0.subs.len() implies #[trigger] s0.subs[t].0
                == self.sub@[t].0@ by {}
        }
        let j = match self.find_sub(name) {
            Some(j) => j,
            None => {
                proof {
                    assert forall|t: int|
                        0 <= t < s0.subs.len() implies (#[trigger] s0.subs[t]).0 != name@ by {
                        assert(self.sub@[t].0@ != name@);
                    }
                    lemma_find_from_skip(s0.subs, name@, s0.subs.len() as int);
                    assert(find_name(s0.subs, name@) is None);
                    assert(eval_state(*self) == s0);
                    assert(cascade_rel(
                        d,
                        s0,
                        name@,
                        inid,
                        val,
                        eval_state(*self),
                        Some(ExecErrorKind::UnknownSubCircuit),
                    ));
                }
                return Some(
                    ExecError::new(ExecErrorKind::UnknownSubCircuit, "edge names no sub-circuit"),
                );
            },
        };
        let ghost subs0 = self.sub@;
        proof {
            assert(wf(subs0[j as int].1));
            assert(subs0[j as int].1.depth < self.depth);
            assert forall|t: int| 0 <= t < j implies (#[trigger] s0.subs[t]).0 != name@ by {
                assert(self.sub@[t].0@ != name@);
            }
            lemma_find_from_skip(s0.subs, name@, j as int);
            assert(s0.subs[j as int].0 == name@);
            assert(find_name(s0.subs, name@) == Some(j as int));
            assert(s0.subs[j as int].1 == subs0[j as int].1);
        }
        let (sub_name, mut child) = self.sub.remove(j);
        if !(1 <= inid && inid - 1 < child.input.len() as u64) {
            self.sub.insert(j, (sub_name, child));
            proof {
                assert(self.sub@ =~= subs0);
                assert(sub_views(self.sub@) =~= sub_views(subs0));
                assert(eval_state(*self) =~~= s0);
                assert(cascade_rel(
                    d,
                    s0,
                    name@,
                    inid,
                    val,
                    eval_state(*self),
                    Some(ExecErrorKind::InvalidEdge),
                ));
            }
            return Some(
                ExecError::new(ExecErrorKind::InvalidEdge, "edge targets no input of the child"),
            );
        }
        let ghost c0 = child;
        let ghost in1 = c0.input@.update(inid - 1, Some(val));
        let ghost pre_state = EvalState {
            t: Tables { input: in1, output: c0.output@, lookup: c0.lookup@ },
            subs: sub_views(c0.sub@),
        };
        let idx = (inid - 1) as usize;
        child.input[idx] = Some(val);
        proof {
            assert(child.input@ =~= in1);
            assert(wf(child));
            assert(eval_state(child) =~~= pre_state);
        }
        let mut fail: Option<ExecError> = None;
        let ran = child.is_executable();
        if ran {
            match child.execute() {
                Ok(_) => {
                    proof {
                        assert(exec_rel(
                            c0.depth as nat,
                            pre_state,
                            node_views(c0.nodes@),
                            eval_state(child),
                            kind_of(fail),
                        ));
                    }
                },
                Err(e) => {
                    fail = Some(e);
                    proof {
                        assert(exec_rel(
                            c0.depth as nat,
                            pre_state,
                            node_views(c0.nodes@),
                            eval_state(child),
                            kind_of(fail),
                        ));
                    }
                },
            }
        }
        let ghost name_g = sub_name;
        let ghost child_g = child;
        self.sub.insert(j, (sub_name, child));
        proof {
            assert(self.sub@ =~= subs0.update(j as int, (name_g, child_g)));
            assert forall|t: int| 0 <= t < self.sub@.len() implies (#[trigger] self.sub@[t]).0
                == subs0[t].0 && self.sub@[t].1.depth == subs0[t].1.depth && is_ascii_chars(
                self.sub@[t].0@,
            ) && self.sub@[t].1.depth < self.depth && wf(self.sub@[t].1) by {
                if t != j {
                    assert(self.sub@[t] == subs0[t]);
                }
            }
            // the child absorbed the bit, exactly as the cascade relation
            // describes
            assert(name_g == subs0[j as int].0);
            assert(sub_views(self.sub@) =~= s0.subs.update(
                j as int,
                (s0.subs[j as int].0, child_g),
            ));
            assert(eval_state(*self).t == s0.t);
            assert(eval_state(*self).subs == s0.subs.update(
                j as int,
                (s0.subs[j as int].0, child_g),
            ));
            assert(child_pick(child_g));
            if !ran {
                assert(!all_supplied(in1));
                assert(child_with_input(c0, in1, child_g));
                assert(fail is None);
            } else {
                assert(all_supplied(in1));
                assert((c0.depth as nat) < d);
                assert(child_g.input@ == in1);
            }
            assert(cascade_rel(d, s0, name@, inid, val, eval_state(*self), kind_of(fail)));
        }
        fail
    }

    /// Fans a computed bit out along a gate's, the constant's, or a tagged
    /// output node's edges.
    fn fanout_value(&mut self, val: bool, edges: &Vec<Edge>) -> (r: Option<ExecError>)
        requires
            wf(*old(self)),
        ensures
            wf(*final(self)),
            same_frame(*old(self), *final(self)),
            old(self).sub@.len() == 0 ==> ({
                let (t2, err) = apply_edges_value(tables(*old(self)), val, edge_views(edges@), 0);
                tables(*final(self)) == t2 && err == kind_of(r)
            }),
            edges_value_rel(
                old(self).depth as nat,
                eval_state(*old(self)),
                val,
                edge_views(edges@),
                0,
                eval_state(*final(self)),
                kind_of(r),
            ),
        decreases self.depth, 2int,
    {
        let ghost evs = edge_views(edges@);
        let ghost t0 = tables(*old(self));
        let ghost s0 = eval_state(*old(self));
        let ghost d = old(self).depth as nat;
        let m = edges.len();
        let mut j: usize = 0;
        while j < m
            invariant
                wf(*self),
                same_frame(*old(self), *self),
                m == edges@.len(),
                evs == edge_views(edges@),
                0 <= j <= m,
                t0 == tables(*old(self)),
                s0 == eval_state(*old(self)),
                d == old(self).depth as nat,
                self.depth == old(self).depth,
                old(self).sub@.len() == 0 ==> self.sub@.len() == 0 && apply_edges_value(
                    t0,
                    val,
                    evs,
                    0,
                ) == apply_edges_value(tables(*self), val, evs, j as int),
                forall|s_end: EvalState, e_end: Option<ExecErrorKind>|
                    #[trigger] edges_value_rel(d, eval_state(*self), val, evs, j as int, s_end, e_end)
                        ==> edges_value_rel(d, s0, val, evs, 0, s_end, e_end),
            decreases m - j,
        {
            let ghost sp = eval_state(*self);
            let e = &edges[j];
            proof {
                assert(evs[j as int] == edges@[j as int]@);
            }
            let step = match e.id {
                ID::Output(o) => {
                    let w = self.write_out(o, val);
                    proof {
                        assert(edge_value_rel(d, sp, val, evs[j as int], eval_state(*self), kind_of(w)));
                    }
                    w
                },
                ID::Gate(g) => match e.pin {
                    Some(p) => {
                        let w = self.write_slot(g, p, val);
                        proof {
                            assert(edge_value_rel(
                                d,
                                sp,
                                val,
                                evs[j as int],
                                eval_state(*self),
                                kind_of(w),
                            ));
                        }
                        w
                    },
                    None => {
                        proof {
                            assert(edge_value_rel(
                                d,
                                sp,
                                val,
                                evs[j as int],
                                eval_state(*self),
                                Some(ExecErrorKind::InvalidEdge),
                            ));
                        }
                        Some(ExecError::new(ExecErrorKind::InvalidEdge, "gate edge without a pin"))
                    },
                },
                ID::Input(inid) => match &e.circuit {
                    None => {
                        proof {
                            assert(edge_value_rel(
                                d,
                                sp,
                                val,
                                evs[j as int],
                                eval_state(*self),
                                Some(ExecErrorKind::InvalidEdge),
                            ));
                        }
                        Some(
                            ExecError::new(
                                ExecErrorKind::InvalidEdge,
                                "input edge without a sub-circuit name",
                            ),
                        )
                    },
                    Some(key) => {
                        if !key.as_str().is_ascii() {
                            proof {
                                assert(edge_value_rel(
                                    d,
                                    sp,
                                    val,
                                    evs[j as int],
                                    eval_state(*self),
                                    Some(ExecErrorKind::InvalidName),
                                ));
                            }
                            Some(
                                ExecError::new(
                                    ExecErrorKind::InvalidName,
                                    "sub-circuit name is not ASCII",
                                ),
                            )
                        } else {
                            let w = self.cascade(key.as_str(), inid, val);
                            proof {
                                assert(edge_value_rel(
                                    d,
                                    sp,
                                    val,
                                    evs[j as int],
                                    eval_state(*self),
                                    kind_of(w),
                                ));
                            }
                            w
                        }
                    },
                },
                ID::Const => {
                    proof {
                        assert(edge_value_rel(
                            d,
                            sp,
                            val,
                            evs[j as int],
                            eval_state(*self),
                            Some(ExecErrorKind::InvalidEdge),
                        ));
                    }
                    Some(ExecError::new(ExecErrorKind::InvalidEdge, "edge targets the constant"))
                },
            };
            match step {
                Some(err) => {
                    proof {
                        assert(edge_value_rel(
                            d,
                            sp,
                            val,
                            evs[j as int],
                            eval_state(*self),
                            Some(err.kind),
                        ));
                        lemma_edges_value_step(
                            d,
                            sp,
                            val,
                            evs,
                            j as int,
                            eval_state(*self),
                            Some(err.kind),
                            eval_state(*self),
                            Some(err.kind),
                        );
                    }
                    return Some(err);
                },
                None => {
                    proof {
                        assert(edge_value_rel(
                            d,
                            sp,
                            val,
                            evs[j as int],
                            eval_state(*self),
                            None::<ExecErrorKind>,
                        ));
                        assert forall|s_end: EvalState, e_end: Option<ExecErrorKind>|
                            #[trigger] edges_value_rel(
                                d,
                                eval_state(*self),
                                val,
                                evs,
                                j + 1,
                                s_end,
                                e_end,
                            ) implies edges_value_rel(d, s0, val, evs, 0, s_end, e_end) by {
                            lemma_edges_value_step(
                                d,
                                sp,
                                val,
                                evs,
                                j as int,
                                eval_state(*self),
                                None,
                                s_end,
                                e_end,
                            );
                        }
                    }
                },
            }
            j = j + 1;
        }
        proof {
            assert(edges_value_rel(
                d,
                eval_state(*self),
                val,
                evs,
                m as int,
                eval_state(*self),
                None::<ExecErrorKind>,
            ));
        }
        None
    }

    /// Fans an input node's bit out along its edges, where an edge naming
    /// a sub-circuit must target an input of that child.
    fn fanout_input(&mut self, val: bool, edges: &Vec<Edge>) -> (r: Option<ExecError>)
        requires
            wf(*old(self)),
        ensures
            wf(*final(self)),
            same_frame(*old(self), *final(self)),
            old(self).sub@.len() == 0 ==> ({
                let (t2, err) = apply_edges_input(tables(*old(self)), val, edge_views(edges@), 0);
                tables(*final(self)) == t2 && err == kind_of(r)
            }),
            edges_input_rel(
                old(self).depth as nat,
                eval_state(*old(self)),
                val,
                edge_views(edges@),
                0,
                eval_state(*final(self)),
                kind_of(r),
            ),
        decreases self.depth, 2int,
    {
        let ghost evs = edge_views(edges@);
        let ghost t0 = tables(*old(self));
        let ghost s0 = eval_state(*old(self));
        let ghost d = old(self).depth as nat;
        let m = edges.len();
        let mut j: usize = 0;
        while j < m
            invariant
                wf(*self),
                same_frame(*old(self), *self),
                m == edges@.len(),
                evs == edge_views(edges@),
                0 <= j <= m,
                t0 == tables(*old(self)),
                s0 == eval_state(*old(self)),
                d == old(self).depth as nat,
                self.depth == old(self).depth,
                old(self).sub@.len() == 0 ==> self.sub@.len() == 0 && apply_edges_input(
                    t0,
                    val,
                    evs,
                    0,
                ) == apply_edges_input(tables(*self), val, evs, j as int),
                forall|s_end: EvalState, e_end: Option<ExecErrorKind>|
                    #[trigger] edges_input_rel(d, eval_state(*self), val, evs, j as int, s_end, e_end)
                        ==> edges_input_rel(d, s0, val, evs, 0, s_end, e_end),
            decreases m - j,
        {
            let ghost sp = eval_state(*self);
            let e = &edges[j];
            proof {
                assert(evs[j as int] == edges@[j as int]@);
            }
            let step = match &e.circuit {
                Some(key) => {
                    if !e.id.is_input() {
                        proof {
                            assert(edge_input_rel(
                                d,
                                sp,
                                val,
                                evs[j as int],
                                eval_state(*self),
                                Some(ExecErrorKind::InvalidEdge),
                            ));
                        }
                        Some(
                            ExecError::new(
                                ExecErrorKind::InvalidEdge,
                                "a named edge of an input node must target an input",
                            ),
                        )
                    } else if !key.as_str().is_ascii() {
                        proof {
                            assert(edge_input_rel(
                                d,
                                sp,
                                val,
                                evs[j as int],
                                eval_state(*self),
                                Some(ExecErrorKind::InvalidName),
                            ));
                        }
                        Some(
                            ExecError::new(
                                ExecErrorKind::InvalidName,
                                "sub-circuit name is not ASCII",
                            ),
                        )
                    } else {
                        let w = self.cascade(key.as_str(), e.id.u64(), val);
                        proof {
                            assert(edge_input_rel(
                                d,
                                sp,
                                val,
                                evs[j as int],
                                eval_state(*self),
                                kind_of(w),
                            ));
                        }
                        w
                    }
                },
                None => {
                    let w = match e.id {
                        ID::Output(o) => self.write_out(o, val),
                        ID::Gate(g) => match e.pin {
                            Some(p) => self.write_slot(g, p, val),
                            None => Some(
                                ExecError::new(
                                    ExecErrorKind::InvalidEdge,
                                    "gate edge without a pin",
                                ),
                            ),
                        },
                        ID::Input(_) => Some(
                            ExecError::new(
                                ExecErrorKind::InvalidEdge,
                                "input edge without a sub-circuit name",
                            ),
                        ),
                        ID::Const => Some(
                            ExecError::new(ExecErrorKind::InvalidEdge, "edge targets the constant"),
                        ),
                    };
                    proof {
                        assert(edge_input_rel(d, sp, val, evs[j as int], eval_state(*self), kind_of(w)));
                    }
                    w
                },
            };
            match step {
                Some(err) => {
                    proof {
                        assert(edge_input_rel(
                            d,
                            sp,
                            val,
                            evs[j as int],
                            eval_state(*self),
                            Some(err.kind),
                        ));
                        lemma_edges_input_step(
                            d,
                            sp,
                            val,
                            evs,
                            j as int,
                            eval_state(*self),
                            Some(err.kind),
                            eval_state(*self),
                            Some(err.kind),
                        );
                    }
                    return Some(err);
                },
                None => {
                    proof {
                        assert(edge_input_rel(
                            d,
                            sp,
                            val,
                            evs[j as int],
                            eval_state(*self),
                            None::<ExecErrorKind>,
                        ));
                        assert forall|s_end: EvalState, e_end: Option<ExecErrorKind>|
                            #[trigger] edges_input_rel(
                                d,
                                eval_state(*self),
                                val,
                                evs,
                                j + 1,
                                s_end,
                                e_end,
                            ) implies edges_input_rel(d, s0, val, evs, 0, s_end, e_end) by {
                            lemma_edges_input_step(
                                d,
                                sp,
                                val,
                                evs,
                                j as int,
                                eval_state(*self),
                                None,
                                s_end,
                                e_end,
                            );
                        }
                    }
                },
            }
            j = j + 1;
        }
        proof {
            assert(edges_input_rel(
                d,
                eval_state(*self),
                val,
                evs,
                m as int,
                eval_state(*self),
                None::<ExecErrorKind>,
            ));
        }
        None
    }

    /// Processes one input node: looks its supplied bit up and fans it
    /// out.
    fn process_input(&mut self, node: &Node) -> (r: Option<ExecError>)
        requires
            wf(*old(self)),
            node.id is Input,
        ensures
            wf(*final(self)),
            same_frame(*old(self), *final(self)),
            old(self).sub@.len() == 0 ==> ({
                let (t2, err) = step_node(tables(*old(self)), node@);
                tables(*final(self)) == t2 && err == kind_of(r)
            }),
            node_rel(
                old(self).depth as nat,
                eval_state(*old(self)),
                node@,
                eval_state(*final(self)),
                kind_of(r),
            ),
        decreases self.depth, 3int,
    {
        let ghost s0 = eval_state(*self);
        let ghost d = old(self).depth as nat;
        let id = node.id.u64();
        if !(1 <= id && id - 1 < self.input.len() as u64) {
            proof {
                assert(node_rel(d, s0, node@, eval_state(*self), Some(ExecErrorKind::MissingInput)));
            }
            return Some(ExecError::new(ExecErrorKind::MissingInput, "missing input value"));
        }
        let val = match self.input[(id - 1) as usize] {
            Some(v) => v,
            None => {
                proof {
                    assert(node_rel(
                        d,
                        s0,
                        node@,
                        eval_state(*self),
                        Some(ExecErrorKind::MissingInput),
                    ));
                }
                return Some(ExecError::new(ExecErrorKind::MissingInput, "missing input value"));
            },
        };
        let w = self.fanout_input(val, &node.edges);
        proof {
            assert(s0.t.input[id - 1] == Some(val));
            assert(node_rel(d, s0, node@, eval_state(*self), kind_of(w)));
        }
        w
    }

    /// Processes one gate node: consumes its operand slots, computes the
    /// gate function, and fans the result out.
    fn process_gate(&mut self, node: &Node) -> (r: Option<ExecError>)
        requires
            wf(*old(self)),
            node.id is Gate,
        ensures
            wf(*final(self)),
            same_frame(*old(self), *final(self)),
            old(self).sub@.len() == 0 ==> ({
                let (t2, err) = step_node(tables(*old(self)), node@);
                tables(*final(self)) == t2 && err == kind_of(r)
            }),
            node_rel(
                old(self).depth as nat,
                eval_state(*old(self)),
                node@,
                eval_state(*final(self)),
                kind_of(r),
            ),
        decreases self.depth, 3int,
    {
        let ghost s0 = eval_state(*self);
        let ghost d = old(self).depth as nat;
        let id = node.id.u64();
        if node.circuit.is_some() {
            proof {
                assert(node_rel(d, s0, node@, eval_state(*self), Some(ExecErrorKind::InvalidNode)));
            }
            return Some(
                ExecError::new(ExecErrorKind::InvalidNode, "a gate cannot reference a sub-circuit"),
            );
        }
        let gt = match node.gate_type {
            Some(t) => t,
            None => {
                proof {
                    assert(node_rel(
                        d,
                        s0,
                        node@,
                        eval_state(*self),
                        Some(ExecErrorKind::InvalidNode),
                    ));
                }
                return Some(
                    ExecError::new(ExecErrorKind::InvalidNode, "gate node without a gate type"),
                );
            },
        };
        let ghost mut a_g: bool = false;
        let ghost mut b_g: bool = false;
        let val = if gt.operands() == 1 {
            let a = match self.take_slot(id, Pin::Left) {
                Some(v) => v,
                None => {
                    proof {
                        assert(eval_state(*self) =~~= (EvalState {
                            t: ftake_slot(s0.t, id, Pin::Left).0,
                            ..s0
                        }));
                        assert(node_rel(
                            d,
                            s0,
                            node@,
                            eval_state(*self),
                            Some(ExecErrorKind::MissingOperand),
                        ));
                    }
                    return Some(
                        ExecError::new(ExecErrorKind::MissingOperand, "no value for the left pin"),
                    );
                },
            };
            proof {
                a_g = a;
            }
            !a
        } else {
            let a = match self.take_slot(id, Pin::Left) {
                Some(v) => v,
                None => {
                    proof {
                        assert(eval_state(*self) =~~= (EvalState {
                            t: ftake_slot(s0.t, id, Pin::Left).0,
                            ..s0
                        }));
                        assert(node_rel(
                            d,
                            s0,
                            node@,
                            eval_state(*self),
                            Some(ExecErrorKind::MissingOperand),
                        ));
                    }
                    return Some(
                        ExecError::new(ExecErrorKind::MissingOperand, "no value for the left pin"),
                    );
                },
            };
            let b = match self.take_slot(id, Pin::Right) {
                Some(v) => v,
                None => {
                    proof {
                        assert(eval_state(*self) =~~= (EvalState {
                            t: ftake_slot(ftake_slot(s0.t, id, Pin::Left).0, id, Pin::Right).0,
                            ..s0
                        }));
                        assert(node_rel(
                            d,
                            s0,
                            node@,
                            eval_state(*self),
                            Some(ExecErrorKind::MissingOperand),
                        ));
                    }
                    return Some(
                        ExecError::new(ExecErrorKind::MissingOperand, "no value for the right pin"),
                    );
                },
            };
            proof {
                a_g = a;
                b_g = b;
            }
            match gt {
                GateType::AND => a && b,
                GateType::XOR => a != b,
                GateType::OR => a || b,
                GateType::NOT => !a,
            }
        };
        let ghost smid = eval_state(*self);
        proof {
            if gt.spec_operands() == 1 {
                assert(ftake_slot(s0.t, id, Pin::Left).1 == Some(a_g));
                assert(smid =~~= (EvalState { t: ftake_slot(s0.t, id, Pin::Left).0, ..s0 }));
                assert(gt == GateType::NOT);
                assert(val == gate_eval(gt, a_g, false));
            } else {
                assert(ftake_slot(s0.t, id, Pin::Left).1 == Some(a_g));
                assert(ftake_slot(ftake_slot(s0.t, id, Pin::Left).0, id, Pin::Right).1 == Some(
                    b_g,
                ));
                assert(smid =~~= (EvalState {
                    t: ftake_slot(ftake_slot(s0.t, id, Pin::Left).0, id, Pin::Right).0,
                    ..s0
                }));
                assert(val == gate_eval(gt, a_g, b_g));
            }
        }
        let w = self.fanout_value(val, &node.edges);
        proof {
            assert(node_rel(d, s0, node@, eval_state(*self), kind_of(w)));
        }
        w
    }

    /// Processes one output node: a tagged one reads the named child's
    /// already-computed output, an untagged one its own; the bit is then
    /// forwarded along any further edges.
    fn process_output(&mut self, node: &Node) -> (r: Option<ExecError>)
        requires
            wf(*old(self)),
            node.id is Output,
        ensures
            wf(*final(self)),
            same_frame(*old(self), *final(self)),
            old(self).sub@.len() == 0 ==> ({
                let (t2, err) = step_node(tables(*old(self)), node@);
                tables(*final(self)) == t2 && err == kind_of(r)
            }),
            node_rel(
                old(self).depth as nat,
                eval_state(*old(self)),
                node@,
                eval_state(*final(self)),
                kind_of(r),
            ),
        decreases self.depth, 3int,
    {
        let ghost s0 = eval_state(*self);
        let ghost d = old(self).depth as nat;
        let id = node.id.u64();
        proof {
            assert forall|t: int| 0 <= t < s0.subs.len() implies #[trigger] s0.subs[t].0
                == self.sub@[t].0@ by {}
        }
        match &node.circuit {
            Some(key) => {
                if !key.as_str().is_ascii() {
                    proof {
                        assert(node_rel(
                            d,
                            s0,
                            node@,
                            eval_state(*self),
                            Some(ExecErrorKind::InvalidName),
                        ));
                    }
                    return Some(
                        ExecError::new(ExecErrorKind::InvalidName, "sub-circuit name is not ASCII"),
                    );
                }
                let j = match self.find_sub(key.as_str()) {
                    Some(j) => j,
                    None => {
                        proof {
                            assert forall|t: int|
                                0 <= t < s0.subs.len() implies (#[trigger] s0.subs[t]).0
                                    != key@ by {
                                assert(self.sub@[t].0@ != key@);
                            }
                            lemma_find_from_skip(s0.subs, key@, s0.subs.len() as int);
                            assert(node_rel(
                                d,
                                s0,
                                node@,
                                eval_state(*self),
                                Some(ExecErrorKind::UnknownSubCircuit),
                            ));
                        }
                        return Some(
                            ExecError::new(
                                ExecErrorKind::UnknownSubCircuit,
                                "output node names no sub-circuit",
                            ),
                        );
                    },
                };
                proof {
                    assert forall|t: int| 0 <= t < j implies (#[trigger] s0.subs[t]).0 != key@ by {
                        assert(self.sub@[t].0@ != key@);
                    }
                    lemma_find_from_skip(s0.subs, key@, j as int);
                    assert(s0.subs[j as int].0 == key@);
                    assert(find_name(s0.subs, key@) == Some(j as int));
                    assert(s0.subs[j as int].1 == self.sub@[j as int].1);
                }
                let val = match self.sub[j].1.get_output(id) {
                    Ok(v) => v != 0,
                    Err(e) => {
                        proof {
                            assert(node_rel(
                                d,
                                s0,
                                node@,
                                eval_state(*self),
                                Some(ExecErrorKind::MissingOutput),
                            ));
                        }
                        return Some(e);
                    },
                };
                proof {
                    assert(s0.subs[j as int].1.output@[id - 1] == Some(val));
                }
                let w = self.fanout_value(val, &node.edges);
                proof {
                    assert(node_rel(d, s0, node@, eval_state(*self), kind_of(w)));
                }
                w
            },
            None => {
                if !(1 <= id && id - 1 < self.output.len() as u64) {
                    proof {
                        assert(node_rel(
                            d,
                            s0,
                            node@,
                            eval_state(*self),
                            Some(ExecErrorKind::MissingOutput),
                        ));
                    }
                    return Some(
                        ExecError::new(ExecErrorKind::MissingOutput, "no value for this output"),
                    );
                }
                let val = match self.output[(id - 1) as usize] {
                    Some(v) => v,
                    None => {
                        proof {
                            assert(node_rel(
                                d,
                                s0,
                                node@,
                                eval_state(*self),
                                Some(ExecErrorKind::MissingOutput),
                            ));
                        }
                        return Some(
                            ExecError::new(ExecErrorKind::MissingOutput, "no value for this output"),
                        );
                    },
                };
                // only an edge into a named child may forward an output
                let ghost evs = edge_views(node.edges@);
                let ghost t0 = tables(*old(self));
                let ghost nid = id;
                let m = node.edges.len();
                let mut j: usize = 0;
                while j < m
                    invariant
                        wf(*self),
                        same_frame(*old(self), *self),
                        m == node.edges@.len(),
                        evs == edge_views(node.edges@),
                        node@.edges == evs,
                        node@.circuit is None,
                        node@.id == ID::Output(nid),
                        1 <= nid,
                        nid - 1 < t0.output.len(),
                        t0.output[nid - 1] is Some,
                        val == t0.output[nid - 1]->0,
                        0 <= j <= m,
                        t0 == tables(*old(self)),
                        s0 == eval_state(*old(self)),
                        d == old(self).depth as nat,
                        self.depth == old(self).depth,
                        old(self).sub@.len() == 0 ==> self.sub@.len() == 0 && apply_edges_fwd(
                            t0,
                            evs,
                            0,
                        ) == apply_edges_fwd(tables(*self), evs, j as int),
                        forall|s_end: EvalState, e_end: Option<ExecErrorKind>|
                            #[trigger] edges_fwd_rel(
                                d,
                                eval_state(*self),
                                val,
                                evs,
                                j as int,
                                s_end,
                                e_end,
                            ) ==> edges_fwd_rel(d, s0, val, evs, 0, s_end, e_end),
                    decreases m - j,
                {
                    let ghost sp = eval_state(*self);
                    let e = &node.edges[j];
                    proof {
                        assert(evs[j as int] == node.edges@[j as int]@);
                    }
                    let step = match e.id {
                        ID::Input(inid) => match &e.circuit {
                            None => {
                                proof {
                                    assert(edge_fwd_rel(
                                        d,
                                        sp,
                                        val,
                                        evs[j as int],
                                        eval_state(*self),
                                        Some(ExecErrorKind::InvalidEdge),
                                    ));
                                }
                                Some(
                                    ExecError::new(
                                        ExecErrorKind::InvalidEdge,
                                        "input edge without a sub-circuit name",
                                    ),
                                )
                            },
                            Some(key) => {
                                if !key.as_str().is_ascii() {
                                    proof {
                                        assert(edge_fwd_rel(
                                            d,
                                            sp,
                                            val,
                                            evs[j as int],
                                            eval_state(*self),
                                            Some(ExecErrorKind::InvalidName),
                                        ));
                                    }
                                    Some(
                                        ExecError::new(
                                            ExecErrorKind::InvalidName,
                                            "sub-circuit name is not ASCII",
                                        ),
                                    )
                                } else {
                                    let w = self.cascade(key.as_str(), inid, val);
                                    proof {
                                        assert(edge_fwd_rel(
                                            d,
                                            sp,
                                            val,
                                            evs[j as int],
                                            eval_state(*self),
                                            kind_of(w),
                                        ));
                                    }
                                    w
                                }
                            },
                        },
                        _ => {
                            proof {
                                assert(edge_fwd_rel(
                                    d,
                                    sp,
                                    val,
                                    evs[j as int],
                                    eval_state(*self),
                                    Some(ExecErrorKind::InvalidEdge),
                                ));
                            }
                            Some(
                                ExecError::new(
                                    ExecErrorKind::InvalidEdge,
                                    "an output may only forward into a sub-circuit",
                                ),
                            )
                        },
                    };
                    match step {
                        Some(err) => {
                            proof {
                                if old(self).sub@.len() == 0 {
                                    assert(apply_edges_fwd(tables(*self), evs, j as int) == (
                                        tables(*self),
                                        Some(err.kind),
                                    ));
                                    assert(step_node(t0, node@) == (tables(*self), Some(err.kind)));
                                }
                                lemma_edges_fwd_step(
                                    d,
                                    sp,
                                    val,
                                    evs,
                                    j as int,
                                    eval_state(*self),
                                    Some(err.kind),
                                    eval_state(*self),
                                    Some(err.kind),
                                );
                                assert(node_rel(
                                    d,
                                    s0,
                                    node@,
                                    eval_state(*self),
                                    Some(err.kind),
                                ));
                            }
                            return Some(err);
                        },
                        None => {
                            proof {
                                assert forall|s_end: EvalState, e_end: Option<ExecErrorKind>|
                                    #[trigger] edges_fwd_rel(
                                        d,
                                        eval_state(*self),
                                        val,
                                        evs,
                                        j + 1,
                                        s_end,
                                        e_end,
                                    ) implies edges_fwd_rel(d, s0, val, evs, 0, s_end, e_end) by {
                                    lemma_edges_fwd_step(
                                        d,
                                        sp,
                                        val,
                                        evs,
                                        j as int,
                                        eval_state(*self),
                                        None,
                                        s_end,
                                        e_end,
                                    );
                                }
                            }
                        },
                    }
                    j = j + 1;
                }
                proof {
                    if old(self).sub@.len() == 0 {
                        assert(apply_edges_fwd(tables(*self), evs, m as int) == (
                            tables(*self),
                            None::<ExecErrorKind>,
                        ));
                    }
                    assert(edges_fwd_rel(
                        d,
                        eval_state(*self),
                        val,
                        evs,
                        m as int,
                        eval_state(*self),
                        None::<ExecErrorKind>,
                    ));
                    assert(node_rel(d, s0, node@, eval_state(*self), None::<ExecErrorKind>));
                }
                None
            },
        }
    }

    /// Evaluates the circuit: one pass over the node stream in stored
    /// (topological) order, cascading into children the instant their
    /// last input arrives. Fails before touching any node unless every
    /// input is supplied.
    pub fn execute(&mut self) -> (r: Result<(), ExecError>)
        requires
            wf(*old(self)),
        ensures
            wf(*final(self)),
            same_frame(*old(self), *final(self)),
            r is Ok ==> all_supplied(old(self).input@),
            old(self).sub@.len() == 0 ==> ({
                let (t2, err) = spec_execute_flat(tables(*old(self)), node_views(old(self).nodes@));
                tables(*final(self)) == t2 && err == match r {
                    Ok(u) => None::<ExecErrorKind>,
                    Err(e) => Some(e.kind),
                }
            }),
            exec_rel(
                old(self).depth as nat,
                eval_state(*old(self)),
                node_views(old(self).nodes@),
                eval_state(*final(self)),
                match r {
                    Ok(u) => None::<ExecErrorKind>,
                    Err(e) => Some(e.kind),
                },
            ),
        decreases self.depth, 4int,
    {
        let ghost s0 = eval_state(*self);
        let ghost d = old(self).depth as nat;
        if !self.is_executable() {
            proof {
                assert(exec_rel(
                    d,
                    s0,
                    node_views(old(self).nodes@),
                    eval_state(*self),
                    Some(ExecErrorKind::NotExecutable),
                ));
            }
            return Err(ExecError::new(ExecErrorKind::NotExecutable, "circuit is not executable"));
        }
        let ghost t0 = tables(*old(self));
        let ghost nvs = node_views(self.nodes@);
        let n = self.nodes.len();
        let ghost sn = n;
        let mut i: usize = 0;
        while i < n
            invariant
                wf(*self),
                same_frame(*old(self), *self),
                sn == n,
                n == self.nodes@.len(),
                nvs == node_views(old(self).nodes@),
                all_supplied(t0.input),
                0 <= i <= n,
                t0 == tables(*old(self)),
                s0 == eval_state(*old(self)),
                d == old(self).depth as nat,
                self.depth == old(self).depth,
                old(self).sub@.len() == 0 ==> self.sub@.len() == 0 && run_nodes(t0, nvs, 0)
                    == run_nodes(tables(*self), nvs, i as int),
                forall|s_end: EvalState, e_end: Option<ExecErrorKind>|
                    #[trigger] run_rel(d, eval_state(*self), nvs, i as int, s_end, e_end)
                        ==> run_rel(d, s0, nvs, 0, s_end, e_end),
            decreases n - i,
        {
            let ghost tpre = tables(*self);
            let ghost sp = eval_state(*self);
            let node = self.nodes[i].clone();
            proof {
                assert(nvs[i as int] == old(self).nodes@[i as int]@);
                assert(node@ == nvs[i as int]);
            }
            let step = match node.id {
                ID::Input(_) => self.process_input(&node),
                ID::Output(_) => self.process_output(&node),
                ID::Gate(_) => self.process_gate(&node),
                ID::Const => {
                    proof {
                        assert(node_rel(
                            d,
                            sp,
                            node@,
                            eval_state(*self),
                            Some(ExecErrorKind::InvalidNode),
                        ));
                    }
                    Some(ExecError::new(ExecErrorKind::InvalidNode, "invalid node in the stream"))
                },
            };
            proof {
                assert(node_rel(d, sp, nvs[i as int], eval_state(*self), kind_of(step)));
                if old(self).sub@.len() == 0 {
                    if node@.id is Const {
                        assert(step_node(tpre, nvs[i as int]) == (
                            tpre,
                            Some(ExecErrorKind::InvalidNode),
                        ));
                    }
                    assert(run_nodes(tpre, nvs, i as int) == ({
                        let (t2, err) = step_node(tpre, nvs[i as int]);
                        match err {
                            Some(e) => (t2, Some(e)),
                            None => run_nodes(t2, nvs, i + 1),
                        }
                    }));
                }
            }
            match step {
                Some(e) => {
                    proof {
                        if old(self).sub@.len() == 0 {
                            assert(step_node(tpre, nvs[i as int]) == (
                                tables(*self),
                                Some(e.kind),
                            ));
                            assert(run_nodes(t0, nvs, 0) == (tables(*self), Some(e.kind)));
                            assert(spec_execute_flat(t0, nvs) == (tables(*self), Some(e.kind)));
                        }
                        lemma_run_step(
                            d,
                            sp,
                            nvs,
                            i as int,
                            eval_state(*self),
                            Some(e.kind),
                            eval_state(*self),
                            Some(e.kind),
                        );
                        assert(run_rel(d, s0, nvs, 0, eval_state(*self), Some(e.kind)));
                        assert(exec_rel(d, s0, nvs, eval_state(*self), Some(e.kind)));
                    }
                    return Err(e);
                },
                None => {
                    proof {
                        assert forall|s_end: EvalState, e_end: Option<ExecErrorKind>|
                            #[trigger] run_rel(d, eval_state(*self), nvs, i + 1, s_end, e_end)
                                implies run_rel(d, s0, nvs, 0, s_end, e_end) by {
                            lemma_run_step(
                                d,
                                sp,
                                nvs,
                                i as int,
                                eval_state(*self),
                                None,
                                s_end,
                                e_end,
                            );
                        }
                    }
                },
            }
            i = i + 1;
        }
        proof {
            if old(self).sub@.len() == 0 {
                assert(run_nodes(tables(*self), nvs, sn as int) == (
                    tables(*self),
                    None::<ExecErrorKind>,
                ));
            }
            assert(run_rel(d, eval_state(*self), nvs, sn as int, eval_state(*self), None::<
                ExecErrorKind,
            >));
            assert(run_rel(d, s0, nvs, 0, eval_state(*self), None::<ExecErrorKind>));
            assert(exec_rel(d, s0, nvs, eval_state(*self), None::<ExecErrorKind>));
        }
        Ok(())
    }
}

/// How many input records a node stream holds.
pub open spec fn count_inputs(ns: Seq<NodeSpec>) -> nat
    decreases ns.len(),
{
    if ns.len() == 0 {
        0
    } else {
        count_inputs(ns.drop_last()) + if ns.last().id is Input {
            1nat
        } else {
            0nat
        }
    }
}

/// How many gate records a node stream holds.
pub open spec fn count_gates(ns: Seq<NodeSpec>) -> nat
    decreases ns.len(),
{
    if ns.len() == 0 {
        0
    } else {
        count_gates(ns.drop_last()) + if ns.last().id is Gate {
            1nat
        } else {
            0nat
        }
    }
}

proof fn lemma_counts_take(ns: Seq<NodeSpec>, i: int)
    requires
        0 <= i < ns.len(),
    ensures
        count_inputs(ns.take(i + 1)) == count_inputs(ns.take(i)) + if ns[i].id is Input {
            1nat
        } else {
            0nat
        },
        count_gates(ns.take(i + 1)) == count_gates(ns.take(i)) + if ns[i].id is Gate {
            1nat
        } else {
            0nat
        },
{
    assert(ns.take(i + 1).drop_last() =~= ns.take(i));
    assert(ns.take(i + 1).last() == ns[i]);
}

proof fn lemma_counts_le(ns: Seq<NodeSpec>)
    ensures
        count_inputs(ns) <= ns.len(),
        count_gates(ns) <= ns.len(),
    decreases ns.len(),
{
    if ns.len() > 0 {
        lemma_counts_le(ns.drop_last());
    }
}

/// Fresh, empty value tables for a descriptor's counts.
pub open spec fn fresh_tables(info: MetaInfo) -> Tables {
    Tables {
        input: Seq::new(info.inputs as nat, |x: int| None::<bool>),
        output: Seq::new(info.outputs as nat, |x: int| None::<bool>),
        lookup: Seq::new(2 * info.gates as nat, |x: int| None::<bool>),
    }
}

/// What construction demands of its arguments: table sizes that fit in
/// memory, descriptor counts that match the node sets of the body, ASCII
/// child names, every declared sub-circuit present, and room for the
/// nesting depth.
pub open spec fn new_checks(info: MetaInfo, nodes: Seq<NodeSpec>, subs: Seq<(String, Circuit)>) -> bool {
    &&& info.inputs <= usize::MAX
    &&& info.outputs <= usize::MAX
    &&& 2 * info.gates <= usize::MAX
    &&& count_inputs(nodes) == info.inputs
    &&& count_gates(nodes) == info.gates
    &&& forall|j: int| 0 <= j < subs.len() ==> is_ascii_chars((#[trigger] subs[j]).0@)
    &&& forall|k: int|
        0 <= k < info.sub_circuits@.len() ==> is_ascii_chars(
            (#[trigger] info.sub_circuits@[k]).0@,
        ) && exists|j: int| 0 <= j < subs.len() && (#[trigger] subs[j].0@) == info.sub_circuits@[k].0@
    &&& forall|j: int| 0 <= j < subs.len() ==> (#[trigger] subs[j]).1.depth < 0xffff_ffff_ffff_ffff
}

impl Circuit {
    /// Builds a runtime circuit from its descriptor, its canonical node
    /// stream, and its already-constructed named children; checks the
    /// descriptor invariant, then feeds the constant-1 signal along the
    /// constant node's edges, cascading into children where they lead
    /// there.
    pub fn new(info: MetaInfo, nodes: Vec<Node>, subs: Vec<(String, Circuit)>) -> (r: Result<
        Circuit,
        ExecError,
    >)
        requires
            forall|j: int| 0 <= j < subs@.len() ==> wf((#[trigger] subs@[j]).1),
        ensures
            r is Ok ==> wf(r->Ok_0),
            r is Ok ==> r->Ok_0.info == info && r->Ok_0.nodes@ == nodes@ && r->Ok_0.input@
                == fresh_tables(info).input && r->Ok_0.sub@.len() == subs@.len() && (forall|j: int|
                0 <= j < subs@.len() ==> (#[trigger] r->Ok_0.sub@[j]).0 == subs@[j].0),
            r is Ok ==> new_checks(info, node_views(nodes@), subs@),
            r is Ok && info.one is None ==> tables(r->Ok_0) == fresh_tables(info),
            r is Ok && info.one is Some && subs@.len() == 0 ==> ({
                let (t2, err) = apply_edges_value(fresh_tables(info), true, info.one->0@.edges, 0);
                err is None && tables(r->Ok_0) == t2
            }),
            r is Ok && info.one is Some ==> edges_value_rel(
                r->Ok_0.depth as nat,
                EvalState { t: fresh_tables(info), subs: sub_views(subs@) },
                true,
                info.one->0@.edges,
                0,
                eval_state(r->Ok_0),
                None::<ExecErrorKind>,
            ),
            new_checks(info, node_views(nodes@), subs@) && info.one is None ==> r is Ok,
            new_checks(info, node_views(nodes@), subs@) && info.one is Some && subs@.len() == 0
                && apply_edges_value(fresh_tables(info), true, info.one->0@.edges, 0).1
                is None ==> r is Ok,
    {
        let ghost nvs = node_views(nodes@);
        let half = (usize::MAX as u64) / 2;
        if info.inputs > usize::MAX as u64 || info.outputs > usize::MAX as u64 || info.gates
            > half {
            return Err(ExecError::new(ExecErrorKind::BadMetaInfo, "table sizes beyond reach"));
        }
        let mut in_count: u64 = 0;
        let mut gate_count: u64 = 0;
        let mut i: usize = 0;
        while i < nodes.len()
            invariant
                nvs == node_views(nodes@),
                0 <= i <= nodes@.len(),
                in_count == count_inputs(nvs.take(i as int)),
                gate_count == count_gates(nvs.take(i as int)),
                in_count <= i,
                gate_count <= i,
            decreases nodes@.len() - i,
        {
            proof {
                lemma_counts_take(nvs, i as int);
                assert(nvs[i as int] == nodes@[i as int]@);
            }
            match nodes[i].id {
                ID::Input(_) => {
                    in_count = in_count + 1;
                },
                ID::Gate(_) => {
                    gate_count = gate_count + 1;
                },
                _ => {},
            }
            i = i + 1;
        }
        proof {
            assert(nvs.take(nvs.len() as int) =~= nvs);
        }
        if in_count != info.inputs || gate_count != info.gates {
            return Err(
                ExecError::new(
                    ExecErrorKind::BadMetaInfo,
                    "descriptor counts differ from the node sets",
                ),
            );
        }
        let mut j: usize = 0;
        while j < subs.len()
            invariant
                0 <= j <= subs@.len(),
                forall|t: int| 0 <= t < j ==> is_ascii_chars((#[trigger] subs@[t]).0@),
                forall|t: int|
                    0 <= t < j ==> (#[trigger] subs@[t]).1.depth < 0xffff_ffff_ffff_ffff,
            decreases subs@.len() - j,
        {
            if !subs[j].0.as_str().is_ascii() {
                return Err(
                    ExecError::new(ExecErrorKind::InvalidName, "sub-circuit name is not ASCII"),
                );
            }
            if subs[j].1.depth == 0xffff_ffff_ffff_ffff {
                return Err(ExecError::new(ExecErrorKind::BadMetaInfo, "nesting too deep"));
            }
            j = j + 1;
        }
        let mut k: usize = 0;
        while k < info.sub_circuits.len()
            invariant
                forall|t: int| 0 <= t < subs@.len() ==> is_ascii_chars((#[trigger] subs@[t]).0@),
                0 <= k <= info.sub_circuits@.len(),
                forall|t: int|
                    0 <= t < k ==> is_ascii_chars((#[trigger] info.sub_circuits@[t]).0@) && exists|
                        j2: int,
                    | 0 <= j2 < subs@.len() && (#[trigger] subs@[j2].0@) == info.sub_circuits@[t].0@,
            decreases info.sub_circuits@.len() - k,
        {
            let name = info.sub_circuits[k].0.as_str();
            if !name.is_ascii() {
                return Err(
                    ExecError::new(ExecErrorKind::InvalidName, "sub-circuit name is not ASCII"),
                );
            }
            let mut found = false;
            let mut j2: usize = 0;
            while j2 < subs.len()
                invariant
                    name.is_ascii(),
                    forall|t: int|
                        0 <= t < subs@.len() ==> is_ascii_chars((#[trigger] subs@[t]).0@),
                    0 <= j2 <= subs@.len(),
                    !found ==> forall|t: int| 0 <= t < j2 ==> (#[trigger] subs@[t].0@) != name@,
                    found ==> exists|t: int|
                        0 <= t < subs@.len() && (#[trigger] subs@[t].0@) == name@,
                decreases subs@.len() - j2,
            {
                if str_eq(subs[j2].0.as_str(), name) {
                    found = true;
                }
                j2 = j2 + 1;
            }
            if !found {
                return Err(
                    ExecError::new(
                        ExecErrorKind::UnknownSubCircuit,
                        "a declared sub-circuit was not supplied",
                    ),
                );
            }
            k = k + 1;
        }
        let mut depth: u64 = 1;
        let mut j3: usize = 0;
        while j3 < subs.len()
            invariant
                forall|t: int|
                    0 <= t < subs@.len() ==> (#[trigger] subs@[t]).1.depth
                        < 0xffff_ffff_ffff_ffff,
                0 <= j3 <= subs@.len(),
                1 <= depth,
                forall|t: int| 0 <= t < j3 ==> (#[trigger] subs@[t]).1.depth < depth,
            decreases subs@.len() - j3,
        {
            if subs[j3].1.depth >= depth {
                depth = subs[j3].1.depth + 1;
            }
            j3 = j3 + 1;
        }
        let one_node = match &info.one {
            Some(n) => Some(n.clone()),
            None => None,
        };
        let input: Vec<Option<bool>> = vec![None; info.inputs as usize];
        let output: Vec<Option<bool>> = vec![None; info.outputs as usize];
        let lookup: Vec<Option<bool>> = vec![None; 2 * (info.gates as usize)];
        let mut c = Circuit { info, nodes, input, output, lookup, sub: subs, depth };
        proof {
            assert(wf(c));
            assert(tables(c) =~= fresh_tables(c.info));
        }
        match one_node {
            Some(n) => {
                proof {
                    assert(edge_views(n.edges@) =~~= c.info.one->0@.edges);
                    assert(edge_views(n.edges@) == info.one->0@.edges);
                    assert(eval_state(c) =~~= (EvalState {
                        t: fresh_tables(info),
                        subs: sub_views(c.sub@),
                    }));
                }
                match c.fanout_value(true, &n.edges) {
                    Some(e) => Err(e),
                    None => Ok(c),
                }
            },
            None => Ok(c),
        }
    }
}

/// Execution is deterministic: flat circuits holding the same tables and
/// node stream — fresh constructions from one meta-info among them —
/// evaluate to the same tables and the same outcome, however often they
/// are run.
pub proof fn lemma_execute_deterministic(a: Circuit, b: Circuit)
    requires
        a.sub@.len() == 0,
        b.sub@.len() == 0,
        tables(a) == tables(b),
        node_views(a.nodes@) == node_views(b.nodes@),
    ensures
        spec_execute_flat(tables(a), node_views(a.nodes@)) == spec_execute_flat(
            tables(b),
            node_views(b.nodes@),
        ),
{
}

/// The NOT-free counterpart of a node stream: each NOT gate retyped as an
/// XOR, identity and fan-out unchanged.
pub open spec fn conv_node(n: NodeSpec) -> NodeSpec {
    if n.id is Gate && n.gate_type == Some(GateType::NOT) {
        NodeSpec { gate_type: Some(GateType::XOR), ..n }
    } else {
        n
    }
}

pub open spec fn conv_nodes(ns: Seq<NodeSpec>) -> Seq<NodeSpec> {
    Seq::new(ns.len(), |i: int| conv_node(ns[i]))
}

/// Whether the tail of the stream from `i` on still holds a NOT gate
/// numbered `g`.
pub open spec fn pending_not(ns: Seq<NodeSpec>, i: int, g: u64) -> bool {
    exists|k: int|
        i <= k < ns.len() && (#[trigger] ns[k]).id == ID::Gate(g) && ns[k].gate_type == Some(
            GateType::NOT,
        )
}

/// Whether the stream holds a NOT gate numbered `g` at all.
pub open spec fn has_not_gate(ns: Seq<NodeSpec>, g: u64) -> bool {
    pending_not(ns, 0, g)
}

/// The operand slots the constant-1 signal owns while their NOT gates are
/// still pending: the `Right` slots of the not-yet-evaluated NOT gates.
pub open spec fn protected_slot(ns: Seq<NodeSpec>, i: int, s: int) -> bool {
    s % 2 == 1 && pending_not(ns, i, ((s - 1) / 2 + 1) as u64)
}

/// What NOT-elimination asks of the stream: every NOT gate's `Right` slot
/// lies inside the table, no wire of any node feeds a NOT gate's `Right`
/// slot, and no other gate node shares a NOT gate's number.
pub open spec fn nots_isolated(ns: Seq<NodeSpec>, lookup_len: int) -> bool {
    &&& forall|k: int|
        0 <= k < ns.len() && (#[trigger] ns[k]).gate_type == Some(GateType::NOT) && ns[k].id
            is Gate ==> 1 <= ns[k].id.val() && slot_of(ns[k].id.val(), Pin::Right) < lookup_len
    &&& forall|k: int, j: int|
        0 <= k < ns.len() && 0 <= j < ns[k].edges.len() && (#[trigger] ns[k].edges[j]).id is Gate
            && ns[k].edges[j].pin == Some(Pin::Right) ==> !has_not_gate(
            ns,
            ns[k].edges[j].id.val(),
        )
    &&& forall|k1: int, k2: int|
        0 <= k1 < ns.len() && 0 <= k2 < ns.len() && k1 != k2 && (#[trigger] ns[k1]).gate_type
            == Some(GateType::NOT) && ns[k1].id is Gate && (#[trigger] ns[k2]).id is Gate ==> ns[k1].id
            != ns[k2].id
}

/// The running relation between an evaluation of the stream with its NOT
/// gates and one of the NOT-free stream: same inputs, same outputs, and
/// the same operand slots — except that the converted run holds the
/// constant 1 in each still-pending NOT gate's `Right` slot, which the
/// plain run leaves empty.
pub open spec fn conv_rel(t: Tables, t2: Tables, ns: Seq<NodeSpec>, i: int) -> bool {
    &&& t2.input == t.input
    &&& t2.output == t.output
    &&& t2.lookup.len() == t.lookup.len()
    &&& forall|s: int|
        0 <= s < t.lookup.len() && !protected_slot(ns, i, s) ==> t2.lookup[s] == (
        #[trigger] t.lookup[s])
    &&& forall|s: int|
        0 <= s < t.lookup.len() && #[trigger] protected_slot(ns, i, s) ==> t2.lookup[s] == Some(
            true,
        ) && t.lookup[s] is None
}

/// An edge never feeding a NOT gate's `Right` slot writes the same way in
/// both runs.
proof fn lemma_conv_edge_value(t: Tables, t2: Tables, ns: Seq<NodeSpec>, i: int, val: bool, e: EdgeSpec)
    requires
        0 <= i,
        conv_rel(t, t2, ns, i),
        e.id is Gate && e.pin == Some(Pin::Right) ==> !has_not_gate(ns, e.id.val()),
    ensures
        apply_edge_value(t, val, e).1 == apply_edge_value(t2, val, e).1,
        conv_rel(apply_edge_value(t, val, e).0, apply_edge_value(t2, val, e).0, ns, i),
{
    match e.id {
        ID::Gate(g) => {
            match e.pin {
                Some(p) => {
                    let s = slot_of(g, p);
                    if 1 <= g && s < t.lookup.len() {
                        assert(!protected_slot(ns, i, s)) by {
                            if protected_slot(ns, i, s) {
                                assert(p == Pin::Right);
                                assert(((s - 1) / 2 + 1) as u64 == g);
                                let k = choose|k: int|
                                    i <= k < ns.len() && (#[trigger] ns[k]).id == ID::Gate(g)
                                        && ns[k].gate_type == Some(GateType::NOT);
                                assert(pending_not(ns, 0, g));
                            }
                        }
                        assert(t2.lookup[s] == t.lookup[s]);
                    }
                },
                None => {},
            }
        },
        _ => {},
    }
}

proof fn lemma_conv_edges_value(
    t: Tables,
    t2: Tables,
    ns: Seq<NodeSpec>,
    i: int,
    val: bool,
    edges: Seq<EdgeSpec>,
    j: int,
)
    requires
        0 <= i,
        conv_rel(t, t2, ns, i),
        forall|j2: int|
            0 <= j2 < edges.len() && (#[trigger] edges[j2]).id is Gate && edges[j2].pin == Some(
                Pin::Right,
            ) ==> !has_not_gate(ns, edges[j2].id.val()),
    ensures
        apply_edges_value(t, val, edges, j).1 == apply_edges_value(t2, val, edges, j).1,
        conv_rel(
            apply_edges_value(t, val, edges, j).0,
            apply_edges_value(t2, val, edges, j).0,
            ns,
            i,
        ),
    decreases edges.len() - j,
{
    if 0 <= j < edges.len() {
        lemma_conv_edge_value(t, t2, ns, i, val, edges[j]);
        let (ta, ea) = apply_edge_value(t, val, edges[j]);
        let (tb, eb) = apply_edge_value(t2, val, edges[j]);
        if ea is None {
            lemma_conv_edges_value(ta, tb, ns, i, val, edges, j + 1);
        }
    }
}

/// An input node's fan-out writes the same way in both runs.
proof fn lemma_conv_edges_input(
    t: Tables,
    t2: Tables,
    ns: Seq<NodeSpec>,
    i: int,
    val: bool,
    edges: Seq<EdgeSpec>,
    j: int,
)
    requires
        0 <= i,
        conv_rel(t, t2, ns, i),
        forall|j2: int|
            0 <= j2 < edges.len() && (#[trigger] edges[j2]).id is Gate && edges[j2].pin == Some(
                Pin::Right,
            ) ==> !has_not_gate(ns, edges[j2].id.val()),
    ensures
        apply_edges_input(t, val, edges, j).1 == apply_edges_input(t2, val, edges, j).1,
        conv_rel(
            apply_edges_input(t, val, edges, j).0,
            apply_edges_input(t2, val, edges, j).0,
            ns,
            i,
        ),
    decreases edges.len() - j,
{
    if 0 <= j < edges.len() {
        if edges[j].circuit is None {
            lemma_conv_edge_value(t, t2, ns, i, val, edges[j]);
        }
        let (ta, ea) = apply_edge_input(t, val, edges[j]);
        let (tb, eb) = apply_edge_input(t2, val, edges[j]);
        if ea is None {
            lemma_conv_edges_input(ta, tb, ns, i, val, edges, j + 1);
        }
    }
}

/// Passing a node that is no NOT gate leaves the pending set unchanged.
proof fn lemma_pending_advance(ns: Seq<NodeSpec>, i: int)
    requires
        0 <= i < ns.len(),
        !(ns[i].id is Gate && ns[i].gate_type == Some(GateType::NOT)),
    ensures
        forall|g: u64| pending_not(ns, i, g) == pending_not(ns, i + 1, g),
{
    assert forall|g: u64| pending_not(ns, i, g) implies pending_not(ns, i + 1, g) by {
        let k = choose|k: int|
            i <= k < ns.len() && (#[trigger] ns[k]).id == ID::Gate(g) && ns[k].gate_type == Some(
                GateType::NOT,
            );
        assert(k != i);
    }
}

/// Passing the NOT gate at `i` removes exactly its own number from the
/// pending set.
proof fn lemma_pending_after_not(ns: Seq<NodeSpec>, i: int, g: u64)
    requires
        0 <= i < ns.len(),
        ns[i].id == ID::Gate(g),
        ns[i].gate_type == Some(GateType::NOT),
        forall|k1: int, k2: int|
            0 <= k1 < ns.len() && 0 <= k2 < ns.len() && k1 != k2 && (#[trigger] ns[k1]).gate_type
                == Some(GateType::NOT) && ns[k1].id is Gate && (#[trigger] ns[k2]).id
                is Gate ==> ns[k1].id != ns[k2].id,
    ensures
        !pending_not(ns, i + 1, g),
        forall|g2: u64| g2 != g ==> pending_not(ns, i, g2) == pending_not(ns, i + 1, g2),
{
    if pending_not(ns, i + 1, g) {
        let k = choose|k: int|
            i + 1 <= k < ns.len() && (#[trigger] ns[k]).id == ID::Gate(g) && ns[k].gate_type
                == Some(GateType::NOT);
        assert(ns[i].id != ns[k].id);
        assert(false);
    }
    assert forall|g2: u64| g2 != g && pending_not(ns, i, g2) implies pending_not(
        ns,
        i + 1,
        g2,
    ) by {
        let k = choose|k: int|
            i <= k < ns.len() && (#[trigger] ns[k]).id == ID::Gate(g2) && ns[k].gate_type == Some(
                GateType::NOT,
            );
        assert(k != i);
    }
}

/// With the pending NOT set unchanged from `i` to `i + 1`, the running
/// relation advances for free.
proof fn lemma_conv_rel_advance(t: Tables, t2: Tables, ns: Seq<NodeSpec>, i: int)
    requires
        conv_rel(t, t2, ns, i),
        forall|g: u64| pending_not(ns, i, g) == pending_not(ns, i + 1, g),
    ensures
        conv_rel(t, t2, ns, i + 1),
{
    assert forall|s: int|
        0 <= s < t.lookup.len() && !protected_slot(ns, i + 1, s) implies t2.lookup[s] == (
    #[trigger] t.lookup[s]) by {
        let g2 = ((s - 1) / 2 + 1) as u64;
        assert(pending_not(ns, i, g2) == pending_not(ns, i + 1, g2));
        assert(!protected_slot(ns, i, s));
    }
    assert forall|s: int|
        0 <= s < t.lookup.len() && #[trigger] protected_slot(ns, i + 1, s) implies t2.lookup[s]
            == Some(true) && t.lookup[s] is None by {
        let g2 = ((s - 1) / 2 + 1) as u64;
        assert(pending_not(ns, i, g2) == pending_not(ns, i + 1, g2));
        assert(protected_slot(ns, i, s));
    }
}

/// One step of the joint walk keeps the runs in lock step: the same
/// error, the same inputs and outputs, and — where the step goes through
/// — the running relation one node further.
proof fn lemma_conv_step(t: Tables, t2: Tables, ns: Seq<NodeSpec>, i: int)
    requires
        conv_rel(t, t2, ns, i),
        nots_isolated(ns, t.lookup.len() as int),
        t.lookup.len() <= 0x1_0000_0000_0000_0000,
        0 <= i < ns.len(),
    ensures
        step_node(t, ns[i]).1 == step_node(t2, conv_nodes(ns)[i]).1,
        step_node(t, ns[i]).0.input == step_node(t2, conv_nodes(ns)[i]).0.input,
        step_node(t, ns[i]).0.output == step_node(t2, conv_nodes(ns)[i]).0.output,
        step_node(t, ns[i]).1 is None ==> conv_rel(
            step_node(t, ns[i]).0,
            step_node(t2, conv_nodes(ns)[i]).0,
            ns,
            i + 1,
        ),
{
    let n = ns[i];
    let n2 = conv_nodes(ns)[i];
    assert(n2 == conv_node(n));
    match n.id {
        ID::Input(id) => {
            lemma_pending_advance(ns, i);
            lemma_conv_rel_advance(t, t2, ns, i);
            if 1 <= id && id - 1 < t.input.len() && t.input[id - 1] is Some {
                lemma_conv_edges_input(t, t2, ns, i + 1, t.input[id - 1]->0, n.edges, 0);
            }
        },
        ID::Output(id) => {
            lemma_pending_advance(ns, i);
            lemma_conv_rel_advance(t, t2, ns, i);
        },
        ID::Const => {
            lemma_pending_advance(ns, i);
            lemma_conv_rel_advance(t, t2, ns, i);
        },
        ID::Gate(g) => {
            if n.circuit is Some {
                // both runs refuse the node before touching any table
            } else if n.gate_type is None {
            } else if n.gate_type == Some(GateType::NOT) {
                // the NOT consumes only its left operand; the XOR also
                // consumes the constant 1 seeded in its right slot
                let sr = slot_of(g, Pin::Right);
                assert(1 <= g && sr < t.lookup.len() as int);
                assert(protected_slot(ns, i, sr)) by {
                    assert(((sr - 1) / 2 + 1) as u64 == g);
                }
                assert(t2.lookup[sr] == Some(true) && t.lookup[sr] is None);
                let sl = slot_of(g, Pin::Left);
                assert(!protected_slot(ns, i, sl));
                let (ta1, a1) = ftake_slot(t, g, Pin::Left);
                let (tb1, b1) = ftake_slot(t2, g, Pin::Left);
                assert(a1 == b1);
                match a1 {
                    None => {
                        assert(step_node(t, n).1 == Some(ExecErrorKind::MissingOperand));
                        assert(step_node(t2, n2).1 == Some(ExecErrorKind::MissingOperand));
                    },
                    Some(av) => {
                        let (tb2, b2) = ftake_slot(tb1, g, Pin::Right);
                        assert(tb1.lookup[sr] == Some(true));
                        assert(b2 == Some(true));
                        assert(gate_eval(GateType::XOR, av, true) == gate_eval(
                            GateType::NOT,
                            av,
                            false,
                        ));
                        lemma_pending_after_not(ns, i, g);
                        assert(conv_rel(ta1, tb2, ns, i + 1)) by {
                            assert forall|s: int|
                                0 <= s < ta1.lookup.len() && !protected_slot(
                                    ns,
                                    i + 1,
                                    s,
                                ) implies tb2.lookup[s] == (#[trigger] ta1.lookup[s]) by {
                                if s != sr && s != sl {
                                    if protected_slot(ns, i, s) {
                                        assert(((s - 1) / 2 + 1) as u64 != g);
                                        assert(pending_not(ns, i + 1, ((s - 1) / 2 + 1) as u64));
                                    }
                                }
                            }
                            assert forall|s: int|
                                0 <= s < ta1.lookup.len() && #[trigger] protected_slot(
                                    ns,
                                    i + 1,
                                    s,
                                ) implies tb2.lookup[s] == Some(true) && ta1.lookup[s]
                                is None by {
                                assert(protected_slot(ns, i, s));
                                assert(s != sr && s != sl);
                            }
                        }
                        lemma_conv_edges_value(
                            ta1,
                            tb2,
                            ns,
                            i + 1,
                            gate_eval(GateType::NOT, av, false),
                            n.edges,
                            0,
                        );
                    },
                }
            } else {
                let gt = n.gate_type->0;
                lemma_pending_advance(ns, i);
                lemma_conv_rel_advance(t, t2, ns, i);
                let sl = slot_of(g, Pin::Left);
                let sr = slot_of(g, Pin::Right);
                assert(!protected_slot(ns, i, sl));
                assert(!protected_slot(ns, i, sr)) by {
                    if protected_slot(ns, i, sr) {
                        assert(((sr - 1) / 2 + 1) as u64 == g);
                        let k = choose|k: int|
                            i <= k < ns.len() && (#[trigger] ns[k]).id == ID::Gate(g)
                                && ns[k].gate_type == Some(GateType::NOT);
                        assert(k != i);
                        assert(ns[k].id != ns[i].id);
                        assert(false);
                    }
                }
                let (ta1, a1) = ftake_slot(t, g, Pin::Left);
                let (tb1, b1) = ftake_slot(t2, g, Pin::Left);
                assert(a1 == b1);
                assert(conv_rel(ta1, tb1, ns, i + 1));
                if gt.spec_operands() == 2 {
                    let (ta2, a2) = ftake_slot(ta1, g, Pin::Right);
                    let (tb2, b2) = ftake_slot(tb1, g, Pin::Right);
                    assert(a2 == b2);
                    assert(conv_rel(ta2, tb2, ns, i + 1));
                    match (a1, a2) {
                        (Some(av), Some(bv)) => {
                            lemma_conv_edges_value(
                                ta2,
                                tb2,
                                ns,
                                i + 1,
                                gate_eval(gt, av, bv),
                                n.edges,
                                0,
                            );
                        },
                        _ => {},
                    }
                } else {
                    match a1 {
                        Some(av) => {
                            lemma_conv_edges_value(
                                ta1,
                                tb1,
                                ns,
                                i + 1,
                                gate_eval(gt, av, false),
                                n.edges,
                                0,
                            );
                        },
                        None => {},
                    }
                }
            }
        },
    }
}

proof fn lemma_edges_len_value(t: Tables, val: bool, edges: Seq<EdgeSpec>, j: int)
    ensures
        apply_edges_value(t, val, edges, j).0.lookup.len() == t.lookup.len(),
        apply_edges_value(t, val, edges, j).0.input.len() == t.input.len(),
        apply_edges_value(t, val, edges, j).0.output.len() == t.output.len(),
    decreases edges.len() - j,
{
    if 0 <= j < edges.len() {
        let (t2, err) = apply_edge_value(t, val, edges[j]);
        if err is None {
            lemma_edges_len_value(t2, val, edges, j + 1);
        }
    }
}

proof fn lemma_edges_len_input(t: Tables, val: bool, edges: Seq<EdgeSpec>, j: int)
    ensures
        apply_edges_input(t, val, edges, j).0.lookup.len() == t.lookup.len(),
        apply_edges_input(t, val, edges, j).0.input.len() == t.input.len(),
        apply_edges_input(t, val, edges, j).0.output.len() == t.output.len(),
    decreases edges.len() - j,
{
    if 0 <= j < edges.len() {
        let (t2, err) = apply_edge_input(t, val, edges[j]);
        if err is None {
            lemma_edges_len_input(t2, val, edges, j + 1);
        }
    }
}

/// A step never changes the sizes of the value tables.
proof fn lemma_step_len(t: Tables, n: NodeSpec)
    ensures
        step_node(t, n).0.lookup.len() == t.lookup.len(),
        step_node(t, n).0.input.len() == t.input.len(),
        step_node(t, n).0.output.len() == t.output.len(),
{
    match n.id {
        ID::Input(id) => {
            if 1 <= id && id - 1 < t.input.len() && t.input[id - 1] is Some {
                lemma_edges_len_input(t, t.input[id - 1]->0, n.edges, 0);
            }
        },
        ID::Gate(id) => {
            match n.gate_type {
                Some(gt) => {
                    let (t1, a) = ftake_slot(t, id, Pin::Left);
                    let (t2x, b) = ftake_slot(t1, id, Pin::Right);
                    if gt.spec_operands() == 1 {
                        match a {
                            Some(av) => {
                                lemma_edges_len_value(t1, gate_eval(gt, av, false), n.edges, 0);
                            },
                            None => {},
                        }
                    } else {
                        match (a, b) {
                            (Some(av), Some(bv)) => {
                                lemma_edges_len_value(t2x, gate_eval(gt, av, bv), n.edges, 0);
                            },
                            _ => {},
                        }
                    }
                },
                None => {},
            }
        },
        _ => {},
    }
}

/// The joint walk from `i` on: the same error, the same inputs and the
/// same outputs on both sides.
proof fn lemma_conv_run(t: Tables, t2: Tables, ns: Seq<NodeSpec>, i: int)
    requires
        conv_rel(t, t2, ns, i),
        nots_isolated(ns, t.lookup.len() as int),
        t.lookup.len() <= 0x1_0000_0000_0000_0000,
    ensures
        run_nodes(t, ns, i).1 == run_nodes(t2, conv_nodes(ns), i).1,
        run_nodes(t, ns, i).0.input == run_nodes(t2, conv_nodes(ns), i).0.input,
        run_nodes(t, ns, i).0.output == run_nodes(t2, conv_nodes(ns), i).0.output,
    decreases ns.len() - i,
{
    if 0 <= i < ns.len() {
        lemma_conv_step(t, t2, ns, i);
        let (ta, ea) = step_node(t, ns[i]);
        let (tb, eb) = step_node(t2, conv_nodes(ns)[i]);
        if ea is None {
            lemma_step_len(t, ns[i]);
            lemma_conv_run(ta, tb, ns, i + 1);
        }
    }
}

/// NOT-elimination preserves evaluation: a flat stream with NOT gates,
/// run against plain tables, and its NOT-free counterpart, run against
/// the same tables with the constant-1 signal seeded into each eliminated
/// gate's `Right` slot, fail the same way and compute identical outputs.
pub proof fn lemma_not_elimination_preserves_outputs(t: Tables, t2: Tables, ns: Seq<NodeSpec>)
    requires
        conv_rel(t, t2, ns, 0),
        nots_isolated(ns, t.lookup.len() as int),
        t.lookup.len() <= 0x1_0000_0000_0000_0000,
    ensures
        spec_execute_flat(t, ns).1 == spec_execute_flat(t2, conv_nodes(ns)).1,
        spec_execute_flat(t, ns).0.output == spec_execute_flat(t2, conv_nodes(ns)).0.output,
{
    if all_supplied(t.input) {
        lemma_conv_run(t, t2, ns, 0);
    }
}

} // verus!
