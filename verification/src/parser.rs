//! Parser for the canonical wire format: node records of the circuit body
//! and the meta-info descriptor, handed in as lines.

pub mod error;
pub mod types;

use vstd::prelude::*;
use vstd::string::StrSliceExecFns;
use vstd::string::StringExecFns;

use crate::parser::error::ErrorType;
use crate::parser::error::ParseError;
use crate::parser::types::Edge;
use crate::parser::types::EdgeSpec;
use crate::parser::types::GateType;
use crate::parser::types::ID;
use crate::parser::types::Node;
use crate::parser::types::NodeSpec;
use crate::parser::types::Pin;
use crate::parser::types::edge_views;
use crate::parser::types::node_views;
use crate::text::is_ascii_chars;
use crate::text::is_digit_char;
use crate::text::split_arrow_spec;
use crate::text::split_spec;
use crate::text::trim_spec;
use crate::text::uint_ok;
use crate::text::uint_val;
use crate::text::views_of;
use crate::text::parse_u64_max;
use crate::text::split_arrow;
use crate::text::split_char;
use crate::text::str_eq;
use crate::text::to_dec_string;
use crate::text::trim;

verus! {

/// Tracks the 1-based line a parser stands on, for error messages.
pub struct Context {
    pub line: u64,
}

impl Context {
    pub fn new() -> (c: Context)
        ensures
            c.line == 1,
    {
        Context { line: 1 }
    }

    pub fn next_line(&mut self)
        requires
            old(self).line < 0xffff_ffff_ffff_ffff,
        ensures
            final(self).line == old(self).line + 1,
    {
        self.line = self.line + 1;
    }

    /// An error of the given kind, its message naming the current line.
    pub fn fail(&self, err_type: ErrorType, msg: &str) -> (e: ParseError)
        ensures
            e.err_type == err_type,
    {
        let mut m = String::from_str("Line: ");
        m.append(to_dec_string(self.line).as_str());
        m.append(" - ");
        m.append(msg);
        ParseError::new(err_type, m.as_str())
    }
}

/// What one edge token denotes: `-<id>` an output, `<id>:<pin>` a gate
/// slot, `<name>:+<id>` an input of the named sub-circuit.
pub open spec fn edge_spec(s: Seq<char>) -> Result<EdgeSpec, ErrorType> {
    if !is_ascii_chars(s) {
        Err(ErrorType::Unknown)
    } else {
        let parts = split_spec(s, ':');
        if parts.len() == 1 {
            let t = trim_spec(parts[0]);
            if t.len() == 0 || t[0] != '-' {
                Err(ErrorType::Unknown)
            } else if uint_ok(t.skip(1), 0xffff_ffff_ffff_ffff) {
                Ok(
                    EdgeSpec {
                        id: ID::Output(uint_val(t.skip(1)) as u64),
                        pin: None,
                        circuit: None,
                    },
                )
            } else {
                Err(ErrorType::InvalidOutputID)
            }
        } else if parts.len() == 2 {
            let t0 = trim_spec(parts[0]);
            if t0.len() == 0 {
                Err(ErrorType::Unknown)
            } else if is_digit_char(t0[0]) {
                let p1 = trim_spec(parts[1]);
                if p1 =~= seq!['0'] || p1 =~= seq!['1'] {
                    if uint_ok(t0, 0xffff_ffff_ffff_ffff) {
                        Ok(
                            EdgeSpec {
                                id: ID::Gate(uint_val(t0) as u64),
                                pin: Some(
                                    if p1 =~= seq!['0'] {
                                        Pin::Left
                                    } else {
                                        Pin::Right
                                    },
                                ),
                                circuit: None,
                            },
                        )
                    } else {
                        Err(ErrorType::InvalidGateID)
                    }
                } else {
                    Err(ErrorType::InvalidPin)
                }
            } else {
                let p1 = trim_spec(parts[1]);
                if p1.len() == 0 || p1[0] != '+' {
                    Err(ErrorType::InvalidInputID)
                } else if uint_ok(p1.skip(1), 0xffff_ffff_ffff_ffff) {
                    Ok(
                        EdgeSpec {
                            id: ID::Input(uint_val(p1.skip(1)) as u64),
                            pin: None,
                            circuit: Some(t0),
                        },
                    )
                } else {
                    Err(ErrorType::InvalidInputID)
                }
            }
        } else {
            Err(ErrorType::Unknown)
        }
    }
}

/// What a blank-separated edge list denotes: its edges in order, or the
/// first malformed token's error.
pub open spec fn edge_list_spec(parts: Seq<Seq<char>>) -> Result<Seq<EdgeSpec>, ErrorType>
    decreases parts.len(),
{
    if parts.len() == 0 {
        Ok(Seq::<EdgeSpec>::empty())
    } else {
        match edge_spec(parts[0]) {
            Err(e) => Err(e),
            Ok(first) => match edge_list_spec(parts.drop_first()) {
                Err(e) => Err(e),
                Ok(rest) => Ok(seq![first] + rest),
            },
        }
    }
}

pub open spec fn edges_spec(s: Seq<char>) -> Result<Seq<EdgeSpec>, ErrorType> {
    edge_list_spec(split_spec(s, ' '))
}

/// What one body line denotes: an input, output or gate node with its
/// edges — an output possibly tagged with the sub-circuit it comes from.
pub open spec fn node_spec(s: Seq<char>) -> Result<NodeSpec, ErrorType> {
    if !is_ascii_chars(s) {
        Err(ErrorType::Unknown)
    } else {
        let parts = split_arrow_spec(s);
        if parts.len() != 2 {
            Err(ErrorType::Unknown)
        } else {
            match edges_spec(trim_spec(parts[1])) {
                Err(e) => Err(e),
                Ok(edges) => {
                    let node = trim_spec(parts[0]);
                    if node.len() > 0 && node[0] == '+' {
                        if uint_ok(node.skip(1), 0xffff_ffff_ffff_ffff) {
                            Ok(
                                NodeSpec {
                                    id: ID::Input(uint_val(node.skip(1)) as u64),
                                    gate_type: None,
                                    circuit: None,
                                    edges,
                                },
                            )
                        } else {
                            Err(ErrorType::InvalidInputID)
                        }
                    } else if node.len() > 0 && node[0] == '-' {
                        if uint_ok(node.skip(1), 0xffff_ffff_ffff_ffff) {
                            Ok(
                                NodeSpec {
                                    id: ID::Output(uint_val(node.skip(1)) as u64),
                                    gate_type: None,
                                    circuit: None,
                                    edges,
                                },
                            )
                        } else {
                            Err(ErrorType::InvalidOutputID)
                        }
                    } else {
                        let sub = split_spec(node, ':');
                        if sub.len() != 2 {
                            Err(ErrorType::Unknown)
                        } else {
                            let t0 = trim_spec(sub[0]);
                            if letter_gate_type(t0) is Some {
                                let id_part = trim_spec(sub[1]);
                                if uint_ok(id_part, 0xffff_ffff_ffff_ffff) {
                                    Ok(
                                        NodeSpec {
                                            id: ID::Gate(uint_val(id_part) as u64),
                                            gate_type: letter_gate_type(t0),
                                            circuit: None,
                                            edges,
                                        },
                                    )
                                } else {
                                    Err(ErrorType::InvalidGateID)
                                }
                            } else {
                                let n2 = trim_spec(sub[1]);
                                if n2.len() == 0 {
                                    Err(ErrorType::InvalidOutputID)
                                } else if uint_ok(n2.skip(1), 0xffff_ffff_ffff_ffff) {
                                    Ok(
                                        NodeSpec {
                                            id: ID::Output(uint_val(n2.skip(1)) as u64),
                                            gate_type: None,
                                            circuit: Some(t0),
                                            edges,
                                        },
                                    )
                                } else {
                                    Err(ErrorType::InvalidOutputID)
                                }
                            }
                        }
                    }
                },
            }
        }
    }
}

/// Which type of gate a one-letter canonical name denotes.
pub open spec fn letter_gate_type(t: Seq<char>) -> Option<GateType> {
    if t =~= seq!['A'] {
        Some(GateType::AND)
    } else if t =~= seq!['X'] {
        Some(GateType::XOR)
    } else if t =~= seq!['O'] {
        Some(GateType::OR)
    } else if t =~= seq!['N'] {
        Some(GateType::NOT)
    } else {
        None
    }
}

/// Parses one edge token.
fn parse_edge(token: &str, ctx: &Context) -> (r: Result<Edge, ParseError>)
    requires
        token.is_ascii(),
    ensures
        r is Ok <==> edge_spec(token@) is Ok,
        r is Ok ==> r->Ok_0@ =~~= edge_spec(token@)->Ok_0,
        r is Err ==> edge_spec(token@) is Err && r->Err_0.err_type == edge_spec(token@)->Err_0,
{
    let tokens = split_char(token, 58);
    if tokens.len() == 1 {
        let t = trim(tokens[0]);
        let tl = crate::text::str_len(t);
        if tl == 0 || t.get_ascii(0) != 45 {
            return Err(ctx.fail(ErrorType::Unknown, token));
        }
        let digits = t.substring_ascii(1, tl);
        proof {
            assert(digits@ =~= trim_spec(views_of(tokens@)[0]).skip(1));
        }
        match parse_u64_max(digits, 0xffff_ffff_ffff_ffff) {
            Some(v) => Ok(Edge::new(ID::Output(v), None, None)),
            None => Err(ctx.fail(ErrorType::InvalidOutputID, "output ID is not a number")),
        }
    } else if tokens.len() == 2 {
        let t0 = trim(tokens[0]);
        let t0l = crate::text::str_len(t0);
        if t0l == 0 {
            return Err(ctx.fail(ErrorType::Unknown, token));
        }
        let c = t0.get_ascii(0);
        if 48 <= c && c <= 57 {
            let p1 = trim(tokens[1]);
            proof {
                reveal_strlit("0");
                reveal_strlit("1");
                assert("0"@ =~= seq!['0']);
                assert("1"@ =~= seq!['1']);
                assert("0".is_ascii());
                assert("1".is_ascii());
            }
            let pin = if str_eq(p1, "0") {
                Pin::Left
            } else if str_eq(p1, "1") {
                Pin::Right
            } else {
                return Err(ctx.fail(ErrorType::InvalidPin, "pin is not 0 nor 1"));
            };
            match parse_u64_max(t0, 0xffff_ffff_ffff_ffff) {
                Some(v) => Ok(Edge::new(ID::Gate(v), Some(pin), None)),
                None => Err(ctx.fail(ErrorType::InvalidGateID, "gate ID is not a number")),
            }
        } else {
            let p1 = trim(tokens[1]);
            let p1l = crate::text::str_len(p1);
            if p1l == 0 || p1.get_ascii(0) != 43 {
                return Err(ctx.fail(ErrorType::InvalidInputID, token));
            }
            let digits = p1.substring_ascii(1, p1l);
            proof {
                assert(digits@ =~= trim_spec(views_of(tokens@)[1]).skip(1));
            }
            match parse_u64_max(digits, 0xffff_ffff_ffff_ffff) {
                Some(v) => Ok(Edge::new(ID::Input(v), None, Some(t0.to_owned()))),
                None => Err(ctx.fail(ErrorType::InvalidInputID, "input ID is not a number")),
            }
        }
    } else {
        Err(ctx.fail(ErrorType::Unknown, token))
    }
}

/// Parses a blank-separated edge list.
fn parse_edges(line: &str, ctx: &Context) -> (r: Result<Vec<Edge>, ParseError>)
    requires
        line.is_ascii(),
    ensures
        r is Ok <==> edges_spec(line@) is Ok,
        r is Ok ==> edge_views(r->Ok_0@) =~~= edges_spec(line@)->Ok_0,
        r is Err ==> edges_spec(line@) is Err && r->Err_0.err_type == edges_spec(line@)->Err_0,
{
    let tokens = split_char(line, 32);
    let ghost parts = split_spec(line@, ' ');
    let mut edges: Vec<Edge> = Vec::new();
    let mut i: usize = 0;
    while i < tokens.len()
        invariant
            parts == split_spec(line@, ' '),
            views_of(tokens@) =~~= parts,
            forall|t: int| 0 <= t < tokens@.len() ==> (#[trigger] tokens@[t]).is_ascii(),
            0 <= i <= tokens@.len(),
            forall|t: int| 0 <= t < i ==> edge_spec(#[trigger] parts[t]) is Ok,
            edges@.len() == i,
            forall|t: int|
                0 <= t < i ==> #[trigger] edge_views(edges@)[t] =~~= edge_spec(parts[t])->Ok_0,
        decreases tokens@.len() - i,
    {
        match parse_edge(tokens[i], ctx) {
            Ok(e) => {
                let ghost prev = edge_views(edges@);
                let ghost ev = e@;
                edges.push(e);
                proof {
                    assert forall|t: int| 0 <= t < i + 1 implies #[trigger] edge_views(edges@)[t]
                        == if t < i {
                        prev[t]
                    } else {
                        ev
                    } by {
                        assert(edge_views(edges@)[t] == edges@[t]@);
                    }
                }
            },
            Err(e) => {
                proof {
                    lemma_edge_list_err(parts, i as int);
                }
                return Err(e);
            },
        }
        i = i + 1;
    }
    proof {
        lemma_edge_list_ok(parts);
    }
    Ok(edges)
}

/// An edge list fails exactly at its first malformed token.
pub proof fn lemma_edge_list_err(parts: Seq<Seq<char>>, i: int)
    requires
        0 <= i < parts.len(),
        forall|t: int| 0 <= t < i ==> edge_spec(#[trigger] parts[t]) is Ok,
        edge_spec(parts[i]) is Err,
    ensures
        edge_list_spec(parts) is Err,
        edge_list_spec(parts)->Err_0 == edge_spec(parts[i])->Err_0,
    decreases parts.len(),
{
    if i > 0 {
        lemma_edge_list_err(parts.drop_first(), i - 1);
    }
}

/// An edge list of sound tokens denotes their edges in order.
pub proof fn lemma_edge_list_ok(parts: Seq<Seq<char>>)
    requires
        forall|t: int| 0 <= t < parts.len() ==> edge_spec(#[trigger] parts[t]) is Ok,
    ensures
        edge_list_spec(parts) is Ok,
        edge_list_spec(parts)->Ok_0.len() == parts.len(),
        forall|t: int|
            0 <= t < parts.len() ==> #[trigger] edge_list_spec(parts)->Ok_0[t] == edge_spec(
                parts[t],
            )->Ok_0,
    decreases parts.len(),
{
    if parts.len() > 0 {
        lemma_edge_list_ok(parts.drop_first());
    }
}

/// Parses one node record of the circuit body.
pub fn parse_node(line: &str, ctx: &Context) -> (r: Result<Node, ParseError>)
    ensures
        r is Ok <==> node_spec(line@) is Ok,
        r is Ok ==> r->Ok_0@ =~~= node_spec(line@)->Ok_0,
        r is Err ==> node_spec(line@) is Err && r->Err_0.err_type == node_spec(line@)->Err_0,
{
    if !line.is_ascii() {
        return Err(ctx.fail(ErrorType::Unknown, line));
    }
    let tokens = split_arrow(line);
    if tokens.len() != 2 {
        return Err(ctx.fail(ErrorType::Unknown, line));
    }
    let edges_part = trim(tokens[1]);
    let edges = match parse_edges(edges_part, ctx) {
        Ok(es) => es,
        Err(e) => {
            proof {
                assert(edges_part@ =~= trim_spec(split_arrow_spec(line@)[1]));
            }
            return Err(e);
        },
    };
    proof {
        assert(edges_part@ =~= trim_spec(split_arrow_spec(line@)[1]));
    }
    let node = trim(tokens[0]);
    let nl = crate::text::str_len(node);
    proof {
        assert(node@ =~= trim_spec(split_arrow_spec(line@)[0]));
    }
    if nl > 0 && node.get_ascii(0) == 43 {
        let digits = node.substring_ascii(1, nl);
        match parse_u64_max(digits, 0xffff_ffff_ffff_ffff) {
            Some(v) => Ok(Node::new(ID::Input(v), None, None, edges)),
            None => Err(ctx.fail(ErrorType::InvalidInputID, "input ID is not a number")),
        }
    } else if nl > 0 && node.get_ascii(0) == 45 {
        let digits = node.substring_ascii(1, nl);
        match parse_u64_max(digits, 0xffff_ffff_ffff_ffff) {
            Some(v) => Ok(Node::new(ID::Output(v), None, None, edges)),
            None => Err(ctx.fail(ErrorType::InvalidOutputID, "output ID is not a number")),
        }
    } else {
        let sub = split_char(node, 58);
        if sub.len() != 2 {
            return Err(ctx.fail(ErrorType::Unknown, line));
        }
        let t0 = trim(sub[0]);
        proof {
            reveal_strlit("A");
            reveal_strlit("X");
            reveal_strlit("O");
            reveal_strlit("N");
            assert("A"@ =~= seq!['A']);
            assert("X"@ =~= seq!['X']);
            assert("O"@ =~= seq!['O']);
            assert("N"@ =~= seq!['N']);
            assert("A".is_ascii());
            assert("X".is_ascii());
            assert("O".is_ascii());
            assert("N".is_ascii());
        }
        let gate_type = if str_eq(t0, "A") {
            Some(GateType::AND)
        } else if str_eq(t0, "X") {
            Some(GateType::XOR)
        } else if str_eq(t0, "O") {
            Some(GateType::OR)
        } else if str_eq(t0, "N") {
            Some(GateType::NOT)
        } else {
            None
        };
        match gate_type {
            Some(gt) => {
                let id_part = trim(sub[1]);
                match parse_u64_max(id_part, 0xffff_ffff_ffff_ffff) {
                    Some(v) => Ok(Node::new(ID::Gate(v), Some(gt), None, edges)),
                    None => Err(ctx.fail(ErrorType::InvalidGateID, "gate ID is not a number")),
                }
            },
            None => {
                let n2 = trim(sub[1]);
                let n2l = crate::text::str_len(n2);
                if n2l == 0 {
                    return Err(ctx.fail(ErrorType::InvalidOutputID, "output ID is missing"));
                }
                let digits = n2.substring_ascii(1, n2l);
                match parse_u64_max(digits, 0xffff_ffff_ffff_ffff) {
                    Some(v) => Ok(Node::new(ID::Output(v), None, Some(t0.to_owned()), edges)),
                    None => Err(ctx.fail(ErrorType::InvalidOutputID, "output ID is not a number")),
                }
            },
        }
    }
}

/// The per-circuit descriptor: the literal cardinalities of the input,
/// output and gate node sets, the optional constant node, and where each
/// named sub-circuit is stored.
#[derive(Debug)]
pub struct MetaInfo {
    pub inputs: u64,
    pub outputs: u64,
    pub gates: u64,
    pub one: Option<Node>,
    pub sub_circuits: Vec<(String, String)>,
}

/// The mathematical value of a descriptor.
#[verifier::ext_equal]
pub struct MetaSpec {
    pub inputs: u64,
    pub outputs: u64,
    pub gates: u64,
    pub one: Option<NodeSpec>,
    pub sub_circuits: Seq<(Seq<char>, Seq<char>)>,
}

impl View for MetaInfo {
    type V = MetaSpec;

    open spec fn view(&self) -> MetaSpec {
        MetaSpec {
            inputs: self.inputs,
            outputs: self.outputs,
            gates: self.gates,
            one: match self.one {
                Some(ref n) => Some(n@),
                None => None,
            },
            sub_circuits: self.sub_circuits@.map_values(|p: (String, String)| (p.0@, p.1@)),
        }
    }
}

impl Default for MetaInfo {
    /// An empty descriptor: no nodes, no constant, no sub-circuits.
    fn default() -> (m: MetaInfo)
        ensures
            m@ =~~= empty_meta(),
    {
        MetaInfo { inputs: 0, outputs: 0, gates: 0, one: None, sub_circuits: Vec::new() }
    }
}

pub open spec fn empty_meta() -> MetaSpec {
    MetaSpec {
        inputs: 0,
        outputs: 0,
        gates: 0,
        one: None,
        sub_circuits: Seq::<(Seq<char>, Seq<char>)>::empty(),
    }
}

/// What one descriptor line does to the descriptor built so far: a count,
/// the constant node's fan-out, or a sub-circuit location — each key at
/// most once, and no key that collides with a gate-type letter.
pub open spec fn meta_line_spec(m: MetaSpec, keys: Seq<Seq<char>>, line: Seq<char>) -> Result<
    (MetaSpec, Seq<Seq<char>>),
    ErrorType,
> {
    if !is_ascii_chars(line) {
        Err(ErrorType::Unknown)
    } else {
        let parts = split_spec(line, '=');
        if parts.len() != 2 {
            Err(ErrorType::Unknown)
        } else {
            let key = trim_spec(parts[0]);
            if keys.contains(key) {
                Err(ErrorType::Unknown)
            } else {
                let v = trim_spec(parts[1]);
                let keys2 = keys.push(key);
                if key == "INPUTS"@ {
                    if uint_ok(v, 0xffff_ffff_ffff_ffff) {
                        Ok((MetaSpec { inputs: uint_val(v) as u64, ..m }, keys2))
                    } else {
                        Err(ErrorType::Unknown)
                    }
                } else if key == "OUTPUTS"@ {
                    if uint_ok(v, 0xffff_ffff_ffff_ffff) {
                        Ok((MetaSpec { outputs: uint_val(v) as u64, ..m }, keys2))
                    } else {
                        Err(ErrorType::Unknown)
                    }
                } else if key == "GATES"@ {
                    if uint_ok(v, 0xffff_ffff_ffff_ffff) {
                        Ok((MetaSpec { gates: uint_val(v) as u64, ..m }, keys2))
                    } else {
                        Err(ErrorType::Unknown)
                    }
                } else if key == "ONE"@ {
                    match edges_spec(v) {
                        Err(e) => Err(e),
                        Ok(es) => Ok(
                            (
                                MetaSpec {
                                    one: Some(
                                        NodeSpec {
                                            id: ID::Const,
                                            gate_type: None,
                                            circuit: None,
                                            edges: es,
                                        },
                                    ),
                                    ..m
                                },
                                keys2,
                            ),
                        ),
                    }
                } else if key == "A"@ || key == "X"@ || key == "O"@ || key == "N"@ {
                    Err(ErrorType::Unknown)
                } else {
                    Ok((MetaSpec { sub_circuits: m.sub_circuits.push((key, v)), ..m }, keys2))
                }
            }
        }
    }
}

/// The descriptor the given lines build up, from the `start`-th line on.
pub open spec fn meta_fold(
    lines: Seq<Seq<char>>,
    start: int,
    m: MetaSpec,
    keys: Seq<Seq<char>>,
) -> Result<MetaSpec, ErrorType>
    decreases lines.len() - start,
{
    if start < 0 || start >= lines.len() {
        Ok(m)
    } else {
        match meta_line_spec(m, keys, lines[start]) {
            Err(e) => Err(e),
            Ok((m2, k2)) => meta_fold(lines, start + 1, m2, k2),
        }
    }
}

/// What a whole descriptor file denotes.
pub open spec fn meta_info_spec(lines: Seq<Seq<char>>) -> Result<MetaSpec, ErrorType> {
    meta_fold(lines, 0, empty_meta(), Seq::<Seq<char>>::empty())
}

/// Whether one of the keys seen so far equals the given one.
fn contains_key(keys: &Vec<String>, k: &str) -> (r: bool)
    requires
        k.is_ascii(),
        forall|i: int| 0 <= i < keys@.len() ==> crate::text::is_ascii_chars(#[trigger] keys@[i]@),
    ensures
        r == crate::text::string_views(keys@).contains(k@),
{
    let mut i: usize = 0;
    while i < keys.len()
        invariant
            k.is_ascii(),
            forall|t: int|
                0 <= t < keys@.len() ==> crate::text::is_ascii_chars(#[trigger] keys@[t]@),
            0 <= i <= keys@.len(),
            forall|t: int| 0 <= t < i ==> #[trigger] keys@[t]@ != k@,
        decreases keys@.len() - i,
    {
        if str_eq(keys[i].as_str(), k) {
            proof {
                assert(crate::text::string_views(keys@)[i as int] == keys@[i as int]@);
            }
            return true;
        }
        i = i + 1;
    }
    proof {
        if crate::text::string_views(keys@).contains(k@) {
            let t = choose|t: int|
                0 <= t < keys@.len() && crate::text::string_views(keys@)[t] == k@;
            assert(keys@[t]@ == k@);
        }
    }
    false
}

/// Parses the meta-info descriptor, one entry per line. Fails on the
/// first malformed or repeated entry, returning no partial descriptor.
pub fn parse_meta_info(lines: &Vec<String>) -> (r: Result<MetaInfo, ParseError>)
    requires
        lines@.len() < 0xffff_ffff_ffff_ffff,
    ensures
        r is Ok <==> meta_info_spec(crate::text::string_views(lines@)) is Ok,
        r is Ok ==> r->Ok_0@ =~~= meta_info_spec(crate::text::string_views(lines@))->Ok_0,
        r is Err ==> meta_info_spec(crate::text::string_views(lines@)) is Err
            && r->Err_0.err_type == meta_info_spec(crate::text::string_views(lines@))->Err_0,
{
    let ghost lv = crate::text::string_views(lines@);
    let mut info = MetaInfo { inputs: 0, outputs: 0, gates: 0, one: None, sub_circuits: Vec::new() };
    let mut keys: Vec<String> = Vec::new();
    let mut ctx = Context::new();
    let mut i: usize = 0;
    proof {
        assert(info@ =~~= empty_meta());
        assert(crate::text::string_views(keys@) =~= Seq::<Seq<char>>::empty());
    }
    while i < lines.len()
        invariant
            lv == crate::text::string_views(lines@),
            lines@.len() < 0xffff_ffff_ffff_ffff,
            0 <= i <= lines@.len(),
            ctx.line == i + 1,
            forall|t: int|
                0 <= t < keys@.len() ==> crate::text::is_ascii_chars(#[trigger] keys@[t]@),
            meta_info_spec(lv) == meta_fold(lv, i as int, info@, crate::text::string_views(keys@)),
        decreases lines@.len() - i,
    {
        let ghost m0 = info@;
        let ghost keys0 = crate::text::string_views(keys@);
        let line = lines[i].as_str();
        proof {
            assert(lv[i as int] == line@);
        }
        if !line.is_ascii() {
            return Err(ctx.fail(ErrorType::Unknown, ""));
        }
        let parts = split_char(line, 61);
        if parts.len() != 2 {
            return Err(ctx.fail(ErrorType::Unknown, line));
        }
        let key = trim(parts[0]);
        proof {
            assert(key@ =~= trim_spec(split_spec(line@, '=')[0]));
        }
        if contains_key(&keys, key) {
            return Err(ctx.fail(ErrorType::Unknown, key));
        }
        let v = trim(parts[1]);
        proof {
            assert(v@ =~= trim_spec(split_spec(line@, '=')[1]));
            reveal_strlit("INPUTS");
            reveal_strlit("OUTPUTS");
            reveal_strlit("GATES");
            reveal_strlit("ONE");
            reveal_strlit("A");
            reveal_strlit("X");
            reveal_strlit("O");
            reveal_strlit("N");
            assert("INPUTS".is_ascii());
            assert("OUTPUTS".is_ascii());
            assert("GATES".is_ascii());
            assert("ONE".is_ascii());
            assert("A".is_ascii());
            assert("X".is_ascii());
            assert("O".is_ascii());
            assert("N".is_ascii());
        }
        keys.push(key.to_owned());
        proof {
            assert forall|t: int| 0 <= t < keys@.len() implies #[trigger] crate::text::string_views(
                keys@,
            )[t] == if t < keys0.len() {
                keys0[t]
            } else {
                key@
            } by {
                assert(crate::text::string_views(keys@)[t] == keys@[t]@);
            }
            assert(crate::text::string_views(keys@) =~= keys0.push(key@));
        }
        if str_eq(key, "INPUTS") {
            match parse_u64_max(v, 0xffff_ffff_ffff_ffff) {
                Some(val) => {
                    info.inputs = val;
                },
                None => {
                    return Err(ctx.fail(ErrorType::Unknown, v));
                },
            }
        } else if str_eq(key, "OUTPUTS") {
            match parse_u64_max(v, 0xffff_ffff_ffff_ffff) {
                Some(val) => {
                    info.outputs = val;
                },
                None => {
                    return Err(ctx.fail(ErrorType::Unknown, v));
                },
            }
        } else if str_eq(key, "GATES") {
            match parse_u64_max(v, 0xffff_ffff_ffff_ffff) {
                Some(val) => {
                    info.gates = val;
                },
                None => {
                    return Err(ctx.fail(ErrorType::Unknown, v));
                },
            }
        } else if str_eq(key, "ONE") {
            match parse_edges(v, &ctx) {
                Ok(es) => {
                    let one = Node::new(ID::Const, None, None, es);
                    proof {
                        assert(one@.edges =~~= edges_spec(v@)->Ok_0);
                    }
                    info.one = Some(one);
                },
                Err(e) => {
                    return Err(e);
                },
            }
        } else if str_eq(key, "A") || str_eq(key, "X") || str_eq(key, "O") || str_eq(key, "N") {
            return Err(ctx.fail(ErrorType::Unknown, key));
        } else {
            let ghost subs0 = info@.sub_circuits;
            info.sub_circuits.push((key.to_owned(), v.to_owned()));
            proof {
                assert forall|t: int| 0 <= t < info.sub_circuits@.len() implies #[trigger] info@.sub_circuits[t]
                    == if t < subs0.len() {
                    subs0[t]
                } else {
                    (key@, v@)
                } by {
                    assert(info@.sub_circuits[t] == (info.sub_circuits@[t].0@, info.sub_circuits@[t].1@));
                }
                assert(info@.sub_circuits =~= subs0.push((key@, v@)));
            }
        }
        proof {
            let step = meta_line_spec(m0, keys0, lv[i as int]);
            assert(step is Ok);
            assert(info@ =~~= step->Ok_0.0);
            assert(crate::text::string_views(keys@) =~= step->Ok_0.1);
            assert(info@ == step->Ok_0.0);
        }
        ctx.next_line();
        i = i + 1;
    }
    Ok(info)
}

/// Parses a whole circuit body, one node per line. Fails on the first
/// malformed line, returning no partial graph.
pub fn parse_circuit(lines: &Vec<String>) -> (r: Result<Vec<Node>, ParseError>)
    requires
        lines@.len() < 0xffff_ffff_ffff_ffff,
    ensures
        r is Ok <==> (forall|i: int|
            0 <= i < lines@.len() ==> node_spec(#[trigger] lines@[i]@) is Ok),
        r is Ok ==> r->Ok_0@.len() == lines@.len(),
        r is Ok ==> forall|i: int|
            0 <= i < lines@.len() ==> #[trigger] node_views(r->Ok_0@)[i] =~~= node_spec(
                lines@[i]@,
            )->Ok_0,
        r is Err ==> exists|i: int| 0 <= i < lines@.len() && node_spec(#[trigger] lines@[i]@) is Err,
{
    let mut ctx = Context::new();
    let mut nodes: Vec<Node> = Vec::new();
    let mut i: usize = 0;
    while i < lines.len()
        invariant
            lines@.len() < 0xffff_ffff_ffff_ffff,
            0 <= i <= lines@.len(),
            ctx.line == i + 1,
            nodes@.len() == i,
            forall|t: int| 0 <= t < i ==> node_spec(#[trigger] lines@[t]@) is Ok,
            forall|t: int|
                0 <= t < i ==> #[trigger] node_views(nodes@)[t] =~~= node_spec(lines@[t]@)->Ok_0,
        decreases lines@.len() - i,
    {
        match parse_node(lines[i].as_str(), &ctx) {
            Ok(n) => {
                let ghost prev = node_views(nodes@);
                let ghost nv = n@;
                nodes.push(n);
                proof {
                    assert forall|t: int| 0 <= t < i + 1 implies #[trigger] node_views(nodes@)[t]
                        == if t < i {
                        prev[t]
                    } else {
                        nv
                    } by {
                        assert(node_views(nodes@)[t] == nodes@[t]@);
                    }
                }
            },
            Err(e) => {
                return Err(e);
            },
        }
        ctx.next_line();
        i = i + 1;
    }
    Ok(nodes)
}

} // verus!
