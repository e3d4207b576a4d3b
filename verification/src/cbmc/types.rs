//! Typed graph model of the raw compiler dump: identifiers, pins, wires,
//! gates and IO pins, together with their line parsers.

use vstd::prelude::*;
use vstd::string::StrSliceExecFns;
use vstd::string::StringExecFns;

use crate::cbmc::error::Error;
use crate::text::is_ascii_chars;
use crate::text::int_ok;
use crate::text::int_val;
use crate::text::split_spec;
use crate::text::split_ws_spec;
use crate::text::trim_spec;
use crate::text::uint_ok;
use crate::text::uint_val;
use crate::text::views_of;
use crate::text::parse_i64;
use crate::text::parse_u64_max;
use crate::text::split_char;
use crate::text::split_ws;
use crate::text::str_eq;
use crate::text::to_dec_string;
use crate::text::trim;

verus! {

/// A node identifier in one of three disjoint, 1-based numbering spaces.
/// `Input(5)` and `Gate(5)` name different nodes.
#[derive(Debug, Copy, Clone, PartialEq, Eq, Structural, Hash)]
pub enum ID {
    Input(u64),
    Output(u64),
    Gate(u64),
}

impl ID {
    /// The bare number of the identifier, regardless of its space.
    pub open spec fn val(self) -> u64 {
        match self {
            ID::Input(id) => id,
            ID::Output(id) => id,
            ID::Gate(id) => id,
        }
    }

    /// Identifiers are 1-based and dense; `as_index` addresses arrays.
    pub fn as_index(self) -> (i: usize)
        requires
            1 <= self.val(),
            self.val() - 1 <= usize::MAX,
        ensures
            i == self.val() - 1,
    {
        let id = match self {
            ID::Input(id) => id,
            ID::Output(id) => id,
            ID::Gate(id) => id,
        };
        (id - 1) as usize
    }

    pub fn is_input(self) -> (b: bool)
        ensures
            b == (self is Input),
    {
        match self {
            ID::Input(_) => true,
            _ => false,
        }
    }

    pub fn is_output(self) -> (b: bool)
        ensures
            b == (self is Output),
    {
        match self {
            ID::Output(_) => true,
            _ => false,
        }
    }

    pub fn is_gate(self) -> (b: bool)
        ensures
            b == (self is Gate),
    {
        match self {
            ID::Gate(_) => true,
            _ => false,
        }
    }
}

/// Which operand slot of a 2-input gate a wire feeds.
/// A 1-input gate (NOT) always uses `Left`.
#[derive(Debug, Copy, Clone, PartialEq, Eq, Structural, Hash)]
pub enum Pin {
    Left,
    Right,
}

/// The four basic gate types.
#[derive(Debug, Copy, Clone, PartialEq, Eq, Structural, Hash)]
pub enum GateType {
    AND,
    OR,
    XOR,
    NOT,
}

impl GateType {
    /// How many operand slots this type of gate has.
    pub open spec fn spec_pins(&self) -> u8 {
        match *self {
            GateType::NOT => 1u8,
            _ => 2u8,
        }
    }

    #[verifier::when_used_as_spec(spec_pins)]
    pub fn pins(&self) -> (n: u8)
        ensures
            n == self.spec_pins(),
    {
        match *self {
            GateType::NOT => 1,
            _ => 2,
        }
    }
}

/// A directed arc from a node's single output to another node's operand
/// slot. The pin is present exactly when the destination is a gate; a wire
/// to an output pin has none. The source is implicit: it is the node whose
/// outgoing list holds the wire.
#[derive(Debug, Copy, Clone, PartialEq, Eq, Structural, Hash)]
pub struct Wire {
    pub to: ID,
    pub pin: Option<Pin>,
}

impl Wire {
    pub open spec fn spec_destination(&self) -> ID {
        self.to
    }

    pub open spec fn spec_pin(&self) -> Option<Pin> {
        self.pin
    }

    /// A wire is well formed when it targets a gate slot or an output pin,
    /// carrying a pin selector exactly when a gate is targeted.
    pub open spec fn wf(self) -> bool {
        match self.to {
            ID::Gate(_) => self.pin is Some,
            ID::Output(_) => self.pin is None,
            ID::Input(_) => false,
        }
    }

    fn new(to: ID, pin: Option<Pin>) -> (w: Wire)
        ensures
            w.to == to,
            w.pin == pin,
    {
        Wire { to, pin }
    }

    pub fn to_gate(to: u64, pin: Pin) -> (w: Wire)
        ensures
            w.to == ID::Gate(to),
            w.pin == Some(pin),
    {
        Self::new(ID::Gate(to), Some(pin))
    }

    pub fn to_output(to: u64) -> (w: Wire)
        ensures
            w.to == ID::Output(to),
            w.pin == None::<Pin>,
    {
        Self::new(ID::Output(to), None)
    }

    #[verifier::when_used_as_spec(spec_destination)]
    pub fn destination(&self) -> (id: ID)
        ensures
            id == self.to,
    {
        self.to
    }

    pub fn set_destination(&mut self, id: ID)
        ensures
            final(self).to == id,
            final(self).pin == old(self).pin,
    {
        self.to = id;
    }

    #[verifier::when_used_as_spec(spec_pin)]
    pub fn destionation_pin(&self) -> (p: Option<Pin>)
        ensures
            p == self.pin,
    {
        self.pin
    }

    pub fn is_output(&self) -> (b: bool)
        ensures
            b == (self.to is Output),
    {
        match self.to {
            ID::Output(_) => true,
            _ => false,
        }
    }

    /// The wire grammar `SRC_PIN:DST_ID:DST_PIN`: `SRC_PIN` must be `0`,
    /// `DST_ID` is a signed number (negative selects an output), `DST_PIN`
    /// is `0` or `1`. Tokens may carry surrounding whitespace.
    pub open spec fn grammar_ok(s: Seq<char>) -> bool {
        is_ascii_chars(s) && {
            let parts = split_spec(trim_spec(s), ':');
            parts.len() == 3 && {
                let p0 = trim_spec(parts[0]);
                let p1 = trim_spec(parts[1]);
                let p2 = trim_spec(parts[2]);
                uint_ok(p0, 255) && uint_val(p0) == 0 && int_ok(p1) && uint_ok(p2, 255) && (
                uint_val(p2) == 0 || uint_val(p2) == 1)
            }
        }
    }

    /// The wire a grammatical expression denotes: a non-negative `DST_ID`
    /// targets that gate's chosen slot, a negative one targets output
    /// `-DST_ID` (and then carries no pin).
    pub open spec fn wire_of(s: Seq<char>) -> Wire {
        let parts = split_spec(trim_spec(s), ':');
        let dst = int_val(trim_spec(parts[1]));
        let pin = if uint_val(trim_spec(parts[2])) == 0 {
            Pin::Left
        } else {
            Pin::Right
        };
        if dst >= 0 {
            Wire { to: ID::Gate(dst as u64), pin: Some(pin) }
        } else {
            Wire { to: ID::Output((-dst) as u64), pin: None }
        }
    }

    /// Parses one `SRC_PIN:DST_ID:DST_PIN` token; the error names the line.
    pub fn parse(expr: &str, line: u64) -> (r: Result<Wire, Error>)
        ensures
            r is Ok <==> Wire::grammar_ok(expr@),
            r is Ok ==> r->Ok_0 == Wire::wire_of(expr@),
            r is Err ==> r->Err_0.line == Some(line),
    {
        if !expr.is_ascii() {
            return Err(Error::new(
                line,
                expr.to_owned().concat(" doesn't match 'src_pin':'dst_id':'dst_pin'"),
            ));
        }
        let t = trim(expr);
        let tokens = split_char(t, 58);
        if tokens.len() != 3 {
            return Err(Error::new(
                line,
                expr.to_owned().concat(" doesn't match 'src_pin':'dst_id':'dst_pin'"),
            ));
        }
        let tok0 = trim(tokens[0]);
        let src_pin = match parse_u64_max(tok0, 255) {
            Some(v) => v,
            None => {
                return Err(Error::new(line, tok0.to_owned().concat(" is not a valid pin number")));
            },
        };
        if src_pin != 0 {
            return Err(Error::new(
                line,
                to_dec_string(src_pin).concat(" is an invalid src pin - expected '0'"),
            ));
        }
        let tok1 = trim(tokens[1]);
        let dst_id = match parse_i64(tok1) {
            Some(v) => v,
            None => {
                return Err(Error::new(line, tok1.to_owned().concat(" is not a valid gate id")));
            },
        };
        let tok2 = trim(tokens[2]);
        let dst_pin_num = match parse_u64_max(tok2, 255) {
            Some(v) => v,
            None => {
                return Err(Error::new(line, tok2.to_owned().concat(" is not a valid pin number")));
            },
        };
        let dst_pin = if dst_pin_num == 0 {
            Pin::Left
        } else if dst_pin_num == 1 {
            Pin::Right
        } else {
            return Err(Error::new(
                line,
                to_dec_string(dst_pin_num).concat(" is an invalid dst pin - expected '0' or '1'"),
            ));
        };
        if dst_id >= 0 {
            Ok(Self::to_gate(dst_id as u64, dst_pin))
        } else {
            let out_id = ((-(dst_id + 1)) as u64) + 1;
            Ok(Self::to_output(out_id))
        }
    }
}

/// Copies a wire list element for element.
fn copy_wires(ws: &Vec<Wire>) -> (r: Vec<Wire>)
    ensures
        r@ =~= ws@,
{
    let mut r: Vec<Wire> = Vec::new();
    let mut i: usize = 0;
    while i < ws.len()
        invariant
            0 <= i <= ws@.len(),
            r@ =~= ws@.take(i as int),
        decreases ws@.len() - i,
    {
        r.push(ws[i]);
        proof {
            assert(ws@.take(i + 1) =~= ws@.take(i as int).push(ws@[i as int]));
        }
        i = i + 1;
    }
    proof {
        assert(ws@.take(ws@.len() as int) =~= ws@);
    }
    r
}

/// Parses the trailing wire tokens of a node line, starting at `from`.
fn parse_wire_list(tokens: &Vec<&str>, from: usize, line: u64) -> (r: Result<Vec<Wire>, Error>)
    requires
        from <= tokens@.len(),
    ensures
        r is Ok <==> (forall|i: int|
            from <= i < tokens@.len() ==> Wire::grammar_ok(#[trigger] tokens@[i]@)),
        r is Ok ==> r->Ok_0@ =~~= wires_of_tokens(views_of(tokens@), from as int),
        r is Err ==> r->Err_0.line == Some(line),
{
    let mut wires: Vec<Wire> = Vec::new();
    let mut i: usize = from;
    while i < tokens.len()
        invariant
            from <= i <= tokens@.len(),
            forall|j: int| from <= j < i ==> Wire::grammar_ok(#[trigger] tokens@[j]@),
            wires@.len() == i - from,
            forall|j: int|
                from <= j < i ==> wires@[j - from] == Wire::wire_of(#[trigger] tokens@[j]@),
        decreases tokens@.len() - i,
    {
        match Wire::parse(tokens[i], line) {
            Ok(w) => wires.push(w),
            Err(e) => {
                return Err(e);
            },
        }
        i = i + 1;
    }
    Ok(wires)
}

/// The wires denoted by the tokens of a node line from position `from` on.
pub open spec fn wires_of_tokens(toks: Seq<Seq<char>>, from: int) -> Seq<Wire> {
    Seq::new((toks.len() - from) as nat, |i: int| Wire::wire_of(toks[from + i]))
}

/// An input or output pin of the whole circuit, with its outgoing wires.
#[derive(Debug, Clone, PartialEq, Eq, Hash)]
pub struct IOPin {
    pub id: ID,
    pub wires: Vec<Wire>,
}

impl IOPin {
    pub fn new_input(id: u64) -> (p: IOPin)
        ensures
            p.id == ID::Input(id),
            p.wires@ =~= Seq::<Wire>::empty(),
    {
        IOPin { id: ID::Input(id), wires: Vec::new() }
    }

    pub fn new_output(id: u64) -> (p: IOPin)
        ensures
            p.id == ID::Output(id),
            p.wires@ =~= Seq::<Wire>::empty(),
    {
        IOPin { id: ID::Output(id), wires: Vec::new() }
    }

    /// The input-pin grammar `InWire:#ID (SRC:DST_ID:DST_PIN)+`: a head
    /// token naming a non-negative pin number, then at least one wire.
    pub open spec fn grammar_ok(s: Seq<char>) -> bool {
        is_ascii_chars(s) && {
            let toks = split_ws_spec(s);
            toks.len() >= 2 && {
                let head = split_spec(toks[0], '#');
                head.len() == 2 && head[0] == "InWire:"@ && int_ok(trim_spec(head[1])) && int_val(
                    trim_spec(head[1]),
                ) >= 0 && (forall|i: int|
                    1 <= i < toks.len() ==> Wire::grammar_ok(#[trigger] toks[i]))
            }
        }
    }

    /// Parses one `InWire:#ID ...` line; the error names the line.
    pub fn parse_input(expr: &str, line: u64) -> (r: Result<IOPin, Error>)
        ensures
            r is Ok <==> IOPin::grammar_ok(expr@),
            r is Ok ==> r->Ok_0.id == IOPin::pin_of_id(expr@),
            r is Ok ==> r->Ok_0.wires@ =~~= IOPin::pin_of_wires(expr@),
            r is Err ==> r->Err_0.line == Some(line),
    {
        if !expr.is_ascii() {
            return Err(Error::new(
                line,
                expr.to_owned().concat(" doesn't match 'InWire:#_':'[src_pin:dst_id:dst_pin]'"),
            ));
        }
        let tokens = split_ws(expr);
        if tokens.len() < 2 {
            return Err(Error::new(
                line,
                expr.to_owned().concat(" doesn't match 'InWire:#_':'[src_pin:dst_id:dst_pin]'"),
            ));
        }
        let io_pin = split_char(tokens[0], 35);
        if io_pin.len() != 2 {
            return Err(Error::new(
                line,
                tokens[0].to_owned().concat(" doesn't match 'InWire:#'number''"),
            ));
        }
        proof {
            reveal_strlit("InWire:");
            assert("InWire:".is_ascii());
        }
        if !str_eq(io_pin[0], "InWire:") {
            return Err(Error::new(line, io_pin[0].to_owned().concat(" doesn't match 'InWire'")));
        }
        let pin1 = trim(io_pin[1]);
        let pin_id = match parse_i64(pin1) {
            Some(v) => v,
            None => {
                return Err(Error::new(line, pin1.to_owned().concat(" is not a valid IO pin id")));
            },
        };
        if pin_id < 0 {
            return Err(Error::new(line, pin1.to_owned().concat(" is not a valid IO pin id")));
        }
        let wires = match parse_wire_list(&tokens, 1, line) {
            Ok(ws) => ws,
            Err(e) => {
                proof {
                    if IOPin::grammar_ok(expr@) {
                        let toks = split_ws_spec(expr@);
                        assert forall|i: int|
                            1 <= i < tokens@.len() implies Wire::grammar_ok(
                            #[trigger] tokens@[i]@,
                        ) by {
                            assert(views_of(tokens@)[i] == tokens@[i]@);
                            assert(Wire::grammar_ok(toks[i]));
                        }
                    }
                }
                return Err(e);
            },
        };
        proof {
            let toks = split_ws_spec(expr@);
            assert forall|i: int| 1 <= i < toks.len() implies Wire::grammar_ok(
                #[trigger] toks[i],
            ) by {
                assert(views_of(tokens@)[i] == tokens@[i]@);
                assert(Wire::grammar_ok(tokens@[i]@));
            }
            assert(wires_of_tokens(toks, 1) =~~= wires_of_tokens(views_of(tokens@), 1));
        }
        Ok(IOPin { id: ID::Input(pin_id as u64), wires })
    }

    /// The identifier a grammatical input line declares.
    pub open spec fn pin_of_id(s: Seq<char>) -> ID {
        let toks = split_ws_spec(s);
        let head = split_spec(toks[0], '#');
        ID::Input(int_val(trim_spec(head[1])) as u64)
    }

    /// The wires a grammatical input line declares.
    pub open spec fn pin_of_wires(s: Seq<char>) -> Seq<Wire> {
        wires_of_tokens(split_ws_spec(s), 1)
    }

    pub fn id(&self) -> (id: ID)
        ensures
            id == self.id,
    {
        self.id
    }

    pub fn connect(&mut self, wire: Wire)
        ensures
            final(self).id == old(self).id,
            final(self).wires@ =~= old(self).wires@.push(wire),
    {
        self.wires.push(wire);
    }

    pub fn connect_to_gate(&mut self, to: u64, pin: Pin)
        ensures
            final(self).id == old(self).id,
            final(self).wires@ =~= old(self).wires@.push(
                Wire { to: ID::Gate(to), pin: Some(pin) },
            ),
    {
        self.wires.push(Wire::to_gate(to, pin));
    }

    pub fn connect_to_output(&mut self, to: u64)
        ensures
            final(self).id == old(self).id,
            final(self).wires@ =~= old(self).wires@.push(
                Wire { to: ID::Output(to), pin: None },
            ),
    {
        self.wires.push(Wire::to_output(to));
    }
}

/// Which type of gate a head token names.
pub open spec fn gate_type_of(t: Seq<char>) -> Option<GateType> {
    if t == "AND"@ {
        Some(GateType::AND)
    } else if t == "XOR"@ {
        Some(GateType::XOR)
    } else if t == "OR"@ {
        Some(GateType::OR)
    } else if t == "NOT"@ {
        Some(GateType::NOT)
    } else {
        None
    }
}

/// Recognises the four gate-type names.
fn parse_gate_type(tok: &str) -> (r: Option<GateType>)
    requires
        tok.is_ascii(),
    ensures
        r == gate_type_of(tok@),
{
    proof {
        reveal_strlit("AND");
        reveal_strlit("XOR");
        reveal_strlit("OR");
        reveal_strlit("NOT");
        assert("AND".is_ascii());
        assert("XOR".is_ascii());
        assert("OR".is_ascii());
        assert("NOT".is_ascii());
    }
    if str_eq(tok, "AND") {
        Some(GateType::AND)
    } else if str_eq(tok, "XOR") {
        Some(GateType::XOR)
    } else if str_eq(tok, "OR") {
        Some(GateType::OR)
    } else if str_eq(tok, "NOT") {
        Some(GateType::NOT)
    } else {
        None
    }
}

/// A boolean function node of the graph: its type, its 1-based identifier,
/// and its outgoing wires.
#[derive(Debug, PartialEq, Eq, Hash)]
pub struct Gate {
    pub gtype: GateType,
    pub id: ID,
    pub wires: Vec<Wire>,
}

impl Gate {
    pub fn new(gate_type: GateType, id: u64) -> (g: Gate)
        ensures
            g.gtype == gate_type,
            g.id == ID::Gate(id),
            g.wires@ =~= Seq::<Wire>::empty(),
    {
        Gate { gtype: gate_type, id: ID::Gate(id), wires: Vec::new() }
    }

    /// The grammar of a gate line `GATE_TYPE PIN_COUNT (SRC:DST_ID:DST_PIN)+`: the
    /// pin count must equal the named type's arity, and at least one wire
    /// follows.
    pub open spec fn grammar_ok(s: Seq<char>) -> bool {
        is_ascii_chars(s) && {
            let toks = split_ws_spec(s);
            toks.len() >= 3 && gate_type_of(toks[0]) is Some && {
                let gt = gate_type_of(toks[0])->0;
                uint_ok(toks[1], 255) && uint_val(toks[1]) == gt.spec_pins() && (forall|i: int|
                    2 <= i < toks.len() ==> Wire::grammar_ok(#[trigger] toks[i]))
            }
        }
    }

    /// The type a grammatical gate line names.
    pub open spec fn gate_of_type(s: Seq<char>) -> GateType {
        gate_type_of(split_ws_spec(s)[0])->0
    }

    /// The wires a grammatical gate line declares.
    pub open spec fn gate_of_wires(s: Seq<char>) -> Seq<Wire> {
        wires_of_tokens(split_ws_spec(s), 2)
    }

    /// Parses one gate line; each gate takes the 1-based line number as
    /// its identity, never a number from the line itself.
    pub fn parse(expr: &str, line: u64) -> (r: Result<Gate, Error>)
        ensures
            r is Ok <==> Gate::grammar_ok(expr@),
            r is Ok ==> r->Ok_0.gtype == Gate::gate_of_type(expr@),
            r is Ok ==> r->Ok_0.id == ID::Gate(line),
            r is Ok ==> r->Ok_0.wires@ =~~= Gate::gate_of_wires(expr@),
            r is Err ==> r->Err_0.line == Some(line),
    {
        if !expr.is_ascii() {
            return Err(Error::new(
                line,
                expr.to_owned().concat(
                    " doesn't match 'gate_type':'pin_number':'[src_pin:dst_id:dst_pin]'",
                ),
            ));
        }
        let tokens = split_ws(expr);
        if tokens.len() < 3 {
            return Err(Error::new(
                line,
                expr.to_owned().concat(
                    " doesn't match 'gate_type':'pin_number':'[src_pin:dst_id:dst_pin]'",
                ),
            ));
        }
        let gate_type = match parse_gate_type(tokens[0]) {
            Some(t) => t,
            None => {
                return Err(Error::new(
                    line,
                    tokens[0].to_owned().concat(" is an unknown gate type"),
                ));
            },
        };
        let pin_num = match parse_u64_max(tokens[1], 255) {
            Some(v) => v,
            None => {
                return Err(Error::new(line, tokens[1].to_owned().concat(" is not a number")));
            },
        };
        if pin_num != gate_type.pins() as u64 {
            return Err(Error::new(
                line,
                tokens[1].to_owned().concat(" doesn't match its type's pin count"),
            ));
        }
        let wires = match parse_wire_list(&tokens, 2, line) {
            Ok(ws) => ws,
            Err(e) => {
                proof {
                    if Gate::grammar_ok(expr@) {
                        let toks = split_ws_spec(expr@);
                        assert forall|i: int|
                            2 <= i < tokens@.len() implies Wire::grammar_ok(
                            #[trigger] tokens@[i]@,
                        ) by {
                            assert(views_of(tokens@)[i] == tokens@[i]@);
                            assert(Wire::grammar_ok(toks[i]));
                        }
                    }
                }
                return Err(e);
            },
        };
        proof {
            let toks = split_ws_spec(expr@);
            assert forall|i: int| 2 <= i < toks.len() implies Wire::grammar_ok(
                #[trigger] toks[i],
            ) by {
                assert(views_of(tokens@)[i] == tokens@[i]@);
                assert(Wire::grammar_ok(tokens@[i]@));
            }
            assert(wires_of_tokens(toks, 2) =~~= wires_of_tokens(views_of(tokens@), 2));
        }
        Ok(Gate { gtype: gate_type, id: ID::Gate(line), wires })
    }

    pub fn connect(&mut self, wire: Wire)
        ensures
            final(self).gtype == old(self).gtype,
            final(self).id == old(self).id,
            final(self).wires@ =~= old(self).wires@.push(wire),
    {
        self.wires.push(wire);
    }

    pub fn connect_to_gate(&mut self, dst: u64, pin: Pin)
        ensures
            final(self).gtype == old(self).gtype,
            final(self).id == old(self).id,
            final(self).wires@ =~= old(self).wires@.push(
                Wire { to: ID::Gate(dst), pin: Some(pin) },
            ),
    {
        self.wires.push(Wire::to_gate(dst, pin))
    }

    pub fn connect_to_output(&mut self, dst: u64)
        ensures
            final(self).gtype == old(self).gtype,
            final(self).id == old(self).id,
            final(self).wires@ =~= old(self).wires@.push(
                Wire { to: ID::Output(dst), pin: None },
            ),
    {
        self.wires.push(Wire::to_output(dst))
    }

    /// Replaces the wire at `index`, keeping the list's length.
    pub fn replace(&mut self, index: usize, with: Wire)
        requires
            index < old(self).wires@.len(),
        ensures
            final(self).gtype == old(self).gtype,
            final(self).id == old(self).id,
            final(self).wires@ =~= old(self).wires@.update(index as int, with),
    {
        self.wires.push(with);
        self.wires.swap_remove(index);
        proof {
            assert(final(self).wires@ =~= old(self).wires@.update(index as int, with));
        }
    }

    pub fn set_id(&mut self, id: u64)
        ensures
            final(self).gtype == old(self).gtype,
            final(self).id == ID::Gate(id),
            final(self).wires@ == old(self).wires@,
    {
        self.id = ID::Gate(id);
    }

    pub fn id(&self) -> (id: ID)
        ensures
            id == self.id,
    {
        self.id
    }

    pub fn get_type(&self) -> (t: GateType)
        ensures
            t == self.gtype,
    {
        self.gtype
    }

    pub fn len(&self) -> (n: usize)
        ensures
            n == self.wires@.len(),
    {
        self.wires.len()
    }

    /// An exact copy, wire for wire.
    pub fn clone(&self) -> (g: Gate)
        ensures
            g.gtype == self.gtype,
            g.id == self.id,
            g.wires@ =~= self.wires@,
    {
        Gate { gtype: self.gtype, id: self.id, wires: copy_wires(&self.wires) }
    }
}

/// The mathematical value of an IO pin: its identifier with the wire list
/// as a sequence.
#[verifier::ext_equal]
pub struct PinSpec {
    pub id: ID,
    pub wires: Seq<Wire>,
}

impl View for IOPin {
    type V = PinSpec;

    open spec fn view(&self) -> PinSpec {
        PinSpec { id: self.id, wires: self.wires@ }
    }
}

/// The mathematical values of a pin list.
pub open spec fn pin_views(pins: Seq<IOPin>) -> Seq<PinSpec> {
    pins.map_values(|p: IOPin| p@)
}

/// The mathematical value of a gate: its fields with the wire list as a
/// sequence.
#[verifier::ext_equal]
pub struct GateSpec {
    pub gtype: GateType,
    pub id: ID,
    pub wires: Seq<Wire>,
}

impl View for Gate {
    type V = GateSpec;

    open spec fn view(&self) -> GateSpec {
        GateSpec { gtype: self.gtype, id: self.id, wires: self.wires@ }
    }
}

/// The mathematical values of a gate list.
pub open spec fn views(gates: Seq<Gate>) -> Seq<GateSpec> {
    gates.map_values(|g: Gate| g@)
}

/// The circuit's shared constant-1 node with its outgoing wires; at most
/// one exists per circuit.
#[derive(Debug, PartialEq, Eq, Hash)]
pub struct Constant {
    pub wires: Vec<Wire>,
}

impl Constant {
    pub fn new() -> (c: Constant)
        ensures
            c.wires@ =~= Seq::<Wire>::empty(),
    {
        Constant { wires: Vec::new() }
    }

    /// The constants-file grammar: a whitespace-separated list of wire
    /// tokens, possibly empty.
    pub open spec fn grammar_ok(s: Seq<char>) -> bool {
        is_ascii_chars(s) && {
            let toks = split_ws_spec(s);
            forall|i: int| 0 <= i < toks.len() ==> Wire::grammar_ok(#[trigger] toks[i])
        }
    }

    /// The wires a grammatical constants line declares.
    pub open spec fn constant_of_wires(s: Seq<char>) -> Seq<Wire> {
        wires_of_tokens(split_ws_spec(s), 0)
    }

    /// Parses the constants-file line: the constant node's outgoing wires.
    pub fn parse(expr: &str) -> (r: Result<Constant, Error>)
        ensures
            r is Ok <==> Constant::grammar_ok(expr@),
            r is Ok ==> r->Ok_0.wires@ =~~= Constant::constant_of_wires(expr@),
    {
        if !expr.is_ascii() {
            return Err(Error::new(
                1,
                expr.to_owned().concat(" doesn't match '[src_pin:dst_id:dst_pin]'"),
            ));
        }
        let tokens = split_ws(expr);
        let wires = match parse_wire_list(&tokens, 0, 1) {
            Ok(ws) => ws,
            Err(e) => {
                proof {
                    if Constant::grammar_ok(expr@) {
                        let toks = split_ws_spec(expr@);
                        assert forall|i: int|
                            0 <= i < tokens@.len() implies Wire::grammar_ok(
                            #[trigger] tokens@[i]@,
                        ) by {
                            assert(views_of(tokens@)[i] == tokens@[i]@);
                            assert(Wire::grammar_ok(toks[i]));
                        }
                    }
                }
                return Err(e);
            },
        };
        proof {
            let toks = split_ws_spec(expr@);
            assert forall|i: int| 0 <= i < toks.len() implies Wire::grammar_ok(
                #[trigger] toks[i],
            ) by {
                assert(views_of(tokens@)[i] == tokens@[i]@);
                assert(Wire::grammar_ok(tokens@[i]@));
            }
            assert(wires_of_tokens(toks, 0) =~~= wires_of_tokens(views_of(tokens@), 0));
        }
        Ok(Constant { wires })
    }

    pub fn connect(&mut self, wire: Wire)
        ensures
            final(self).wires@ =~= old(self).wires@.push(wire),
    {
        self.wires.push(wire);
    }

    pub fn connect_to_gate(&mut self, to: u64, pin: Pin)
        ensures
            final(self).wires@ =~= old(self).wires@.push(
                Wire { to: ID::Gate(to), pin: Some(pin) },
            ),
    {
        self.wires.push(Wire::to_gate(to, pin));
    }

    /// Merges another constant node's wires into this one.
    pub fn merge(&mut self, other: Constant)
        ensures
            final(self).wires@ =~= old(self).wires@ + other.wires@,
    {
        let mut rest = other;
        self.wires.append(&mut rest.wires);
    }
}

} // verus!
