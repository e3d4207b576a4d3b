//! NOT-gate elimination and the canonical wire format: rewrites every NOT
//! gate into an XOR against the shared constant-1 signal, and renders the
//! sorted, NOT-free graph as canonical text.

use vstd::prelude::*;
use vstd::string::StringExecFns;

use crate::cbmc::types::Constant;
use crate::cbmc::types::Gate;
use crate::cbmc::types::GateSpec;
use crate::cbmc::types::GateType;
use crate::cbmc::types::ID;
use crate::cbmc::types::IOPin;
use crate::cbmc::types::Pin;
use crate::cbmc::types::Wire;
use crate::cbmc::types::views;
use crate::text::dec_str;
use crate::text::to_dec_string;

verus! {

/// What NOT-elimination makes of one gate: a NOT becomes an XOR with the
/// same identity and fan-out; every other gate passes through unchanged.
pub open spec fn converted_gate(g: GateSpec) -> GateSpec {
    if g.gtype == GateType::NOT {
        GateSpec { gtype: GateType::XOR, id: ID::Gate(g.id.val()), wires: g.wires }
    } else {
        g
    }
}

/// The constant wires NOT-elimination creates: one wire into the `Right`
/// slot of each converted gate, in gate-list order.
pub open spec fn not_right_wires(gates: Seq<GateSpec>) -> Seq<Wire>
    decreases gates.len(),
{
    if gates.len() == 0 {
        Seq::<Wire>::empty()
    } else {
        not_right_wires(gates.drop_last()) + if gates.last().gtype == GateType::NOT {
            seq![Wire { to: ID::Gate(gates.last().id.val()), pin: Some(Pin::Right) }]
        } else {
            Seq::<Wire>::empty()
        }
    }
}

/// How many NOT gates the list holds.
pub open spec fn not_count(gates: Seq<GateSpec>) -> nat
    decreases gates.len(),
{
    if gates.len() == 0 {
        0
    } else {
        not_count(gates.drop_last()) + if gates.last().gtype == GateType::NOT {
            1nat
        } else {
            0nat
        }
    }
}

/// The eliminated NOT gates consume exactly one `Right` slot each.
pub proof fn lemma_not_right_wires_count(gates: Seq<GateSpec>)
    ensures
        not_right_wires(gates).len() == not_count(gates),
        forall|i: int|
            0 <= i < not_right_wires(gates).len() ==> (#[trigger] not_right_wires(gates)[i]).pin
                == Some(Pin::Right),
    decreases gates.len(),
{
    if gates.len() > 0 {
        lemma_not_right_wires_count(gates.drop_last());
    }
}

proof fn lemma_not_right_wires_take(gates: Seq<GateSpec>, k: int)
    requires
        0 <= k < gates.len(),
    ensures
        not_right_wires(gates.take(k + 1)) =~= not_right_wires(gates.take(k)) + if gates[k].gtype
            == GateType::NOT {
            seq![Wire { to: ID::Gate(gates[k].id.val()), pin: Some(Pin::Right) }]
        } else {
            Seq::<Wire>::empty()
        },
{
    assert(gates.take(k + 1).drop_last() =~= gates.take(k));
    assert(gates.take(k + 1).last() == gates[k]);
}

/// Renders the graph in the canonical wire format. The buffering capacity
/// only describes how the caller should write the rendered lines out.
pub struct Converter {
    pub cap: usize,
}

impl Converter {
    /// A converter with the default 4 MB write-buffer advice.
    pub fn new() -> (c: Converter)
        ensures
            c.cap == 4 * 1024 * 1024,
    {
        Self::with_capacity(4 * 1024 * 1024)
    }

    pub fn with_capacity(cap: usize) -> (c: Converter)
        ensures
            c.cap == cap,
    {
        Converter { cap }
    }

    pub fn buffering(&mut self, cap: usize)
        ensures
            final(self).cap == cap,
    {
        self.cap = cap;
    }

    /// Rewrites every NOT gate of the sorted list into an XOR whose `Right`
    /// slot the shared constant-1 node feeds, creating that node on first
    /// use and merging any constant handed in from upstream.
    pub fn replace_not_gates(&self, gates: &Vec<Gate>, cons: Option<Constant>) -> (r: (
        Vec<Gate>,
        Option<Constant>,
    ))
        ensures
            r.0@.len() == gates@.len(),
            forall|i: int|
                0 <= i < gates@.len() ==> #[trigger] views(r.0@)[i] =~= converted_gate(
                    views(gates@)[i],
                ),
            forall|i: int| 0 <= i < gates@.len() ==> (#[trigger] views(r.0@)[i]).gtype
                != GateType::NOT,
            not_count(views(gates@)) == 0 ==> (r.1 is Some <==> cons is Some),
            not_count(views(gates@)) == 0 && cons is Some ==> r.1->0.wires@ =~= cons->0.wires@,
            not_count(views(gates@)) > 0 ==> r.1 is Some && r.1->0.wires@ =~= not_right_wires(
                views(gates@),
            ) + if cons is Some {
                cons->0.wires@
            } else {
                Seq::<Wire>::empty()
            },
    {
        let ghost gs = views(gates@);
        let mut constant: Option<Constant> = None;
        let mut not_free: Vec<Gate> = Vec::new();
        let mut k: usize = 0;
        while k < gates.len()
            invariant
                gs == views(gates@),
                0 <= k <= gates@.len(),
                not_free@.len() == k,
                forall|i: int|
                    0 <= i < k ==> #[trigger] views(not_free@)[i] =~= converted_gate(gs[i]),
                forall|i: int| 0 <= i < k ==> (#[trigger] views(not_free@)[i]).gtype
                    != GateType::NOT,
                not_count(gs.take(k as int)) == 0 ==> constant is None,
                not_count(gs.take(k as int)) > 0 ==> constant is Some
                    && constant->0.wires@ =~= not_right_wires(gs.take(k as int)),
            decreases gates@.len() - k,
        {
            let gate = &gates[k];
            let ghost prev_views = views(not_free@);
            let ghost prev_cnt = not_count(gs.take(k as int));
            proof {
                lemma_not_right_wires_take(gs, k as int);
                assert(gs.take(k + 1).drop_last() =~= gs.take(k as int));
                assert(gs.take(k + 1).last() == gs[k as int]);
            }
            match gate.get_type() {
                GateType::NOT => {
                    let id_val = match gate.id() {
                        ID::Gate(v) => v,
                        ID::Input(v) => v,
                        ID::Output(v) => v,
                    };
                    let mut xor = Gate::new(GateType::XOR, id_val);
                    let mut j: usize = 0;
                    while j < gate.len()
                        invariant
                            0 <= j <= gate.wires@.len(),
                            xor.gtype == GateType::XOR,
                            xor.id == ID::Gate(id_val),
                            xor.wires@ =~= gate.wires@.take(j as int),
                        decreases gate.wires@.len() - j,
                    {
                        let w = gate.wires[j];
                        xor.connect(w);
                        proof {
                            assert(gate.wires@.take(j + 1) =~= gate.wires@.take(j as int).push(
                                gate.wires@[j as int],
                            ));
                        }
                        j = j + 1;
                    }
                    proof {
                        assert(gate.wires@.take(gate.wires@.len() as int) =~= gate.wires@);
                        assert(gs[k as int].id.val() == id_val);
                    }
                    let ghost xv = xor@;
                    not_free.push(xor);
                    let mut c = match constant {
                        Some(c0) => c0,
                        None => Constant::new(),
                    };
                    c.connect_to_gate(id_val, Pin::Right);
                    constant = Some(c);
                    proof {
                        assert forall|i: int| 0 <= i < k + 1 implies #[trigger] views(
                            not_free@,
                        )[i] =~= converted_gate(gs[i]) by {
                            if i < k {
                                assert(views(not_free@)[i] == prev_views[i]);
                            } else {
                                assert(views(not_free@)[i] == xv);
                            }
                        }
                        if prev_cnt == 0 {
                            assert(not_right_wires(gs.take(k as int)) =~= Seq::<Wire>::empty())
                                by {
                                lemma_not_right_wires_count(gs.take(k as int));
                            }
                        }
                    }
                },
                _ => {
                    let copy = gate.clone();
                    let ghost cv = copy@;
                    not_free.push(copy);
                    proof {
                        assert forall|i: int| 0 <= i < k + 1 implies #[trigger] views(
                            not_free@,
                        )[i] =~= converted_gate(gs[i]) by {
                            if i < k {
                                assert(views(not_free@)[i] == prev_views[i]);
                            } else {
                                assert(views(not_free@)[i] == cv);
                            }
                        }
                    }
                },
            }
            k = k + 1;
        }
        proof {
            assert(gs.take(gs.len() as int) =~= gs);
        }
        match (constant, cons) {
            (Some(mut c1), Some(c2)) => {
                c1.merge(c2);
                (not_free, Some(c1))
            },
            (Some(c), None) => (not_free, Some(c)),
            (None, Some(c)) => (not_free, Some(c)),
            (None, None) => (not_free, None),
        }
    }
}

/// The canonical digit of an operand slot.
pub open spec fn pin_char(p: Pin) -> char {
    match p {
        Pin::Left => '0',
        Pin::Right => '1',
    }
}

/// The canonical one-letter name of a gate type.
pub open spec fn type_char(t: GateType) -> char {
    match t {
        GateType::AND => 'A',
        GateType::OR => 'O',
        GateType::XOR => 'X',
        GateType::NOT => 'N',
    }
}

/// The canonical text of one wire: `<id>:<pin>` for a gate target, `-<id>`
/// for an output target, `+<id>` for a cross-circuit input target.
pub open spec fn wire_text(w: Wire) -> Seq<char> {
    match w.to {
        ID::Gate(g) => dec_str(g as nat) + match w.pin {
            Some(p) => seq![':', pin_char(p)],
            None => Seq::<char>::empty(),
        },
        ID::Output(o) => seq!['-'] + dec_str(o as nat),
        ID::Input(i) => seq!['+'] + dec_str(i as nat),
    }
}

/// The canonical text of a fan-out list: its wires separated by blanks.
pub open spec fn fanout_text(ws: Seq<Wire>) -> Seq<char>
    decreases ws.len(),
{
    if ws.len() == 0 {
        Seq::<char>::empty()
    } else if ws.len() == 1 {
        wire_text(ws[0])
    } else {
        fanout_text(ws.drop_last()) + seq![' '] + wire_text(ws.last())
    }
}

pub open spec fn arrow_text() -> Seq<char> {
    seq![' ', '-', '>', ' ']
}

/// The canonical record of an input pin.
pub open spec fn input_line_text(p: crate::cbmc::types::PinSpec) -> Seq<char> {
    seq!['+'] + dec_str(p.id.val() as nat) + arrow_text() + fanout_text(p.wires)
}

/// The canonical record of a gate.
pub open spec fn gate_line_text(g: GateSpec) -> Seq<char> {
    seq![type_char(g.gtype), ':'] + dec_str(g.id.val() as nat) + arrow_text() + fanout_text(
        g.wires,
    )
}

/// How many wires of the list target an output pin.
pub open spec fn out_cnt(ws: Seq<Wire>) -> nat
    decreases ws.len(),
{
    if ws.len() == 0 {
        0
    } else {
        out_cnt(ws.drop_last()) + if ws.last().to is Output {
            1nat
        } else {
            0nat
        }
    }
}

/// How many output-targeting wires the first `upto` gates hold; with each
/// output slot fed exactly once, the cardinality of the output node set.
pub open spec fn output_count(gates: Seq<GateSpec>, upto: int) -> nat
    decreases upto,
{
    if upto <= 0 {
        0
    } else {
        output_count(gates, upto - 1) + if upto - 1 < gates.len() {
            out_cnt(gates[upto - 1].wires)
        } else {
            0nat
        }
    }
}

/// Every output pin is fed by exactly one wire across the whole list:
/// the global fan-in discipline of output slots.
pub open spec fn outputs_once(gates: Seq<GateSpec>) -> bool {
    forall|k1: int, j1: int, k2: int, j2: int|
        0 <= k1 < gates.len() && 0 <= j1 < gates[k1].wires.len() && 0 <= k2 < gates.len() && 0
            <= j2 < gates[k2].wires.len() && !(k1 == k2 && j1 == j2) && (
        #[trigger] gates[k1].wires[j1]).to is Output && (#[trigger] gates[k2].wires[j2]).to
            is Output ==> gates[k1].wires[j1].to != gates[k2].wires[j2].to
}

/// The output numbers the wires reach, folded into an accumulator set.
pub open spec fn dests_with(s: Set<u64>, ws: Seq<Wire>) -> Set<u64>
    decreases ws.len(),
{
    if ws.len() == 0 {
        s
    } else {
        let r = dests_with(s, ws.drop_last());
        match ws.last().to {
            ID::Output(o) => r.insert(o),
            _ => r,
        }
    }
}

/// The output node set of the first `upto` gates: every output pin some
/// wire reaches.
pub open spec fn out_dests(gates: Seq<GateSpec>, upto: int) -> Set<u64>
    decreases upto,
{
    if upto <= 0 {
        Set::<u64>::empty()
    } else {
        if upto - 1 < gates.len() {
            dests_with(out_dests(gates, upto - 1), gates[upto - 1].wires)
        } else {
            out_dests(gates, upto - 1)
        }
    }
}

/// Whether a wire strictly before position `(k, j)` reaches output `o`.
pub open spec fn dest_in_prefix(gates: Seq<GateSpec>, k: int, j: int, o: u64) -> bool {
    exists|k2: int, j2: int|
        0 <= k2 < gates.len() && 0 <= j2 < gates[k2].wires.len() && (k2 < k || (k2 == k && j2 < j))
            && (#[trigger] gates[k2].wires[j2]).to == ID::Output(o)
}

proof fn lemma_dests_with_take(s: Set<u64>, ws: Seq<Wire>, j: int)
    requires
        0 <= j < ws.len(),
    ensures
        dests_with(s, ws.take(j + 1)) == (match ws[j].to {
            ID::Output(o) => dests_with(s, ws.take(j)).insert(o),
            _ => dests_with(s, ws.take(j)),
        }),
{
    assert(ws.take(j + 1).drop_last() =~= ws.take(j));
    assert(ws.take(j + 1).last() == ws[j]);
}

/// A destination found before `(k, j1)` is found before `(k, j2 >= j1)`.
proof fn lemma_prefix_mono(gates: Seq<GateSpec>, k: int, j1: int, j2: int, o: u64)
    requires
        dest_in_prefix(gates, k, j1, o),
        j1 <= j2,
    ensures
        dest_in_prefix(gates, k, j2, o),
{
    let (k2, w2) = choose|k2: int, w2: int|
        0 <= k2 < gates.len() && 0 <= w2 < gates[k2].wires.len() && (k2 < k || (k2 == k && w2 < j1))
            && (#[trigger] gates[k2].wires[w2]).to == ID::Output(o);
    assert(0 <= k2 < gates.len() && 0 <= w2 < gates[k2].wires.len() && (k2 < k || (k2 == k && w2
        < j2)) && gates[k2].wires[w2].to == ID::Output(o));
}

/// The joint induction: over the prefix up to wire `(k, j)`, the output
/// destination set is finite, counts exactly the output-targeting wires,
/// and holds exactly the outputs some earlier wire reaches.
proof fn lemma_card_prefix(gates: Seq<GateSpec>, k: int, j: int)
    requires
        outputs_once(gates),
        0 <= k < gates.len(),
        0 <= j <= gates[k].wires.len(),
    ensures
        dests_with(out_dests(gates, k), gates[k].wires.take(j)).finite(),
        dests_with(out_dests(gates, k), gates[k].wires.take(j)).len() == output_count(gates, k)
            + out_cnt(gates[k].wires.take(j)),
        forall|o: u64|
            dests_with(out_dests(gates, k), gates[k].wires.take(j)).contains(o)
                <==> dest_in_prefix(gates, k, j, o),
    decreases k, j,
{
    let ws = gates[k].wires;
    if j == 0 {
        assert(ws.take(0) =~= Seq::<Wire>::empty());
        if k == 0 {
            assert(out_dests(gates, 0) =~= Set::<u64>::empty());
            assert forall|o: u64| !dest_in_prefix(gates, 0, 0, o) by {}
        } else {
            let pw = gates[k - 1].wires;
            lemma_card_prefix(gates, k - 1, pw.len() as int);
            assert(pw.take(pw.len() as int) =~= pw);
            assert(out_dests(gates, k) == dests_with(out_dests(gates, k - 1), pw));
            assert forall|o: u64|
                dest_in_prefix(gates, k, 0, o) <==> dest_in_prefix(
                    gates,
                    k - 1,
                    pw.len() as int,
                    o,
                ) by {
                if dest_in_prefix(gates, k, 0, o) {
                    let (k2, j2) = choose|k2: int, j2: int|
                        0 <= k2 < gates.len() && 0 <= j2 < gates[k2].wires.len() && (k2 < k || (k2
                            == k && j2 < 0)) && (#[trigger] gates[k2].wires[j2]).to == ID::Output(
                            o,
                        );
                    assert(k2 < k);
                    assert(k2 < k - 1 || (k2 == k - 1 && j2 < pw.len()));
                }
                if dest_in_prefix(gates, k - 1, pw.len() as int, o) {
                    let (k2, j2) = choose|k2: int, j2: int|
                        0 <= k2 < gates.len() && 0 <= j2 < gates[k2].wires.len() && (k2 < k - 1 || (
                        k2 == k - 1 && j2 < pw.len())) && (#[trigger] gates[k2].wires[j2]).to
                            == ID::Output(o);
                    assert(k2 < k);
                }
            }
        }
    } else {
        lemma_card_prefix(gates, k, j - 1);
        lemma_dests_with_take(out_dests(gates, k), ws, j - 1);
        lemma_out_cnt_take(ws, j - 1);
        let s_prev = dests_with(out_dests(gates, k), ws.take(j - 1));
        match ws[j - 1].to {
            ID::Output(o) => {
                // a second wire to `o` would break the output discipline
                assert(!s_prev.contains(o)) by {
                    if s_prev.contains(o) {
                        assert(dest_in_prefix(gates, k, j - 1, o));
                        let (k2, w2) = choose|k2: int, w2: int|
                            0 <= k2 < gates.len() && 0 <= w2 < gates[k2].wires.len() && (k2 < k || (
                            k2 == k && w2 < j - 1)) && (#[trigger] gates[k2].wires[w2]).to
                                == ID::Output(o);
                        assert(gates[k2].wires[w2].to == gates[k].wires[j - 1].to);
                        assert(false);
                    }
                }
                assert forall|o2: u64|
                    dests_with(out_dests(gates, k), ws.take(j)).contains(o2)
                        <==> dest_in_prefix(gates, k, j, o2) by {
                    if dests_with(out_dests(gates, k), ws.take(j)).contains(o2) {
                        if o2 == o {
                            assert(gates[k].wires[j - 1].to == ID::Output(o2));
                            assert(dest_in_prefix(gates, k, j, o2));
                        } else {
                            assert(s_prev.contains(o2));
                            assert(dest_in_prefix(gates, k, j - 1, o2));
                            lemma_prefix_mono(gates, k, j - 1, j, o2);
                        }
                    }
                    if dest_in_prefix(gates, k, j, o2) {
                        let (k2, w2) = choose|k2: int, w2: int|
                            0 <= k2 < gates.len() && 0 <= w2 < gates[k2].wires.len() && (k2 < k || (
                            k2 == k && w2 < j)) && (#[trigger] gates[k2].wires[w2]).to
                                == ID::Output(o2);
                        if k2 < k || (k2 == k && w2 < j - 1) {
                            assert(dest_in_prefix(gates, k, j - 1, o2));
                            assert(s_prev.contains(o2));
                        } else {
                            assert(k2 == k && w2 == j - 1);
                            assert(o2 == o);
                        }
                    }
                }
            },
            _ => {
                assert forall|o2: u64|
                    dests_with(out_dests(gates, k), ws.take(j)).contains(o2)
                        <==> dest_in_prefix(gates, k, j, o2) by {
                    if dests_with(out_dests(gates, k), ws.take(j)).contains(o2) {
                        assert(s_prev.contains(o2));
                        assert(dest_in_prefix(gates, k, j - 1, o2));
                        lemma_prefix_mono(gates, k, j - 1, j, o2);
                    }
                    if dest_in_prefix(gates, k, j, o2) {
                        let (k2, w2) = choose|k2: int, w2: int|
                            0 <= k2 < gates.len() && 0 <= w2 < gates[k2].wires.len() && (k2 < k || (
                            k2 == k && w2 < j)) && (#[trigger] gates[k2].wires[w2]).to
                                == ID::Output(o2);
                        if k2 < k || (k2 == k && w2 < j - 1) {
                            assert(dest_in_prefix(gates, k, j - 1, o2));
                            assert(s_prev.contains(o2));
                        } else {
                            assert(k2 == k && w2 == j - 1);
                            assert(false);
                        }
                    }
                }
            },
        }
    }
}

/// With every output fed exactly once, the wire count the descriptor
/// writes as OUTPUTS equals the cardinality of the output node set.
pub proof fn lemma_output_count_is_cardinality(gates: Seq<GateSpec>)
    requires
        outputs_once(gates),
    ensures
        out_dests(gates, gates.len() as int).finite(),
        output_count(gates, gates.len() as int) == out_dests(gates, gates.len() as int).len(),
{
    if gates.len() == 0 {
        assert(out_dests(gates, 0) =~= Set::<u64>::empty());
    } else {
        let k = gates.len() - 1;
        let ws = gates[k].wires;
        lemma_card_prefix(gates, k, ws.len() as int);
        assert(ws.take(ws.len() as int) =~= ws);
        assert(out_dests(gates, gates.len() as int) == dests_with(out_dests(gates, k), ws));
    }
}

proof fn lemma_out_cnt_take(ws: Seq<Wire>, j: int)
    requires
        0 <= j < ws.len(),
    ensures
        out_cnt(ws.take(j + 1)) == out_cnt(ws.take(j)) + if ws[j].to is Output {
            1nat
        } else {
            0nat
        },
{
    assert(ws.take(j + 1).drop_last() =~= ws.take(j));
    assert(ws.take(j + 1).last() == ws[j]);
}

proof fn lemma_out_cnt_le(ws: Seq<Wire>)
    ensures
        out_cnt(ws) <= ws.len(),
    decreases ws.len(),
{
    if ws.len() > 0 {
        lemma_out_cnt_le(ws.drop_last());
    }
}

proof fn lemma_output_count_le(gates: Seq<GateSpec>, upto: int)
    ensures
        output_count(gates, upto) <= crate::cbmc::sort::sum_wires(gates, upto),
    decreases upto,
{
    if upto > 0 {
        lemma_output_count_le(gates, upto - 1);
        if 0 <= upto - 1 < gates.len() {
            lemma_out_cnt_le(gates[upto - 1].wires);
        }
    }
}

/// Renders one wire as canonical text.
fn wire_string(w: Wire) -> (r: String)
    ensures
        r@ =~= wire_text(w),
{
    match w.to {
        ID::Gate(g) => {
            let s = to_dec_string(g);
            match w.pin {
                Some(Pin::Left) => {
                    proof {
                        reveal_strlit(":0");
                        assert(":0"@ =~= seq![':', '0']);
                    }
                    s.concat(":0")
                },
                Some(Pin::Right) => {
                    proof {
                        reveal_strlit(":1");
                        assert(":1"@ =~= seq![':', '1']);
                    }
                    s.concat(":1")
                },
                None => {
                    proof {
                        assert(s@ + Seq::<char>::empty() =~= s@);
                    }
                    s
                },
            }
        },
        ID::Output(o) => {
            proof {
                reveal_strlit("-");
                assert("-"@ =~= seq!['-']);
            }
            String::from_str("-").concat(to_dec_string(o).as_str())
        },
        ID::Input(i) => {
            proof {
                reveal_strlit("+");
                assert("+"@ =~= seq!['+']);
            }
            String::from_str("+").concat(to_dec_string(i).as_str())
        },
    }
}

/// Renders a fan-out list as canonical text.
fn fanout_string(ws: &Vec<Wire>) -> (r: String)
    ensures
        r@ =~= fanout_text(ws@),
{
    let mut acc = String::new();
    let mut i: usize = 0;
    while i < ws.len()
        invariant
            0 <= i <= ws@.len(),
            acc@ =~= fanout_text(ws@.take(i as int)),
        decreases ws@.len() - i,
    {
        let ghost pre = ws@.take(i as int);
        proof {
            assert(ws@.take(i + 1).drop_last() =~= pre);
            assert(ws@.take(i + 1).last() == ws@[i as int]);
            reveal_strlit(" ");
            assert(" "@ =~= seq![' ']);
        }
        if i > 0 {
            acc.append(" ");
        }
        let piece = wire_string(ws[i]);
        acc.append(piece.as_str());
        i = i + 1;
    }
    proof {
        assert(ws@.take(ws@.len() as int) =~= ws@);
    }
    acc
}

/// Renders one input-pin record of the circuit body.
fn input_line(p: &IOPin) -> (r: String)
    ensures
        r@ =~= input_line_text(p@),
{
    let id_val = match p.id {
        ID::Input(v) => v,
        ID::Output(v) => v,
        ID::Gate(v) => v,
    };
    proof {
        reveal_strlit("+");
        assert("+"@ =~= seq!['+']);
        reveal_strlit(" -> ");
        assert(" -> "@ =~= arrow_text());
    }
    let mut line = String::from_str("+");
    line.append(to_dec_string(id_val).as_str());
    line.append(" -> ");
    line.append(fanout_string(&p.wires).as_str());
    line
}

/// Renders one gate record of the circuit body.
fn gate_line(g: &Gate) -> (r: String)
    ensures
        r@ =~= gate_line_text(g@),
{
    let head = match g.gtype {
        GateType::AND => "A:",
        GateType::OR => "O:",
        GateType::XOR => "X:",
        GateType::NOT => "N:",
    };
    proof {
        reveal_strlit("A:");
        reveal_strlit("O:");
        reveal_strlit("X:");
        reveal_strlit("N:");
        assert(head@ =~= seq![type_char(g.gtype), ':']);
        reveal_strlit(" -> ");
        assert(" -> "@ =~= arrow_text());
    }
    let id_val = match g.id {
        ID::Input(v) => v,
        ID::Output(v) => v,
        ID::Gate(v) => v,
    };
    let mut line = String::from_str(head);
    line.append(to_dec_string(id_val).as_str());
    line.append(" -> ");
    line.append(fanout_string(&g.wires).as_str());
    line
}

/// Counts the output-targeting wires of a gate list.
fn count_outputs(gates: &Vec<Gate>) -> (n: u64)
    requires
        crate::cbmc::sort::total_wires(views(gates@)) <= 0xffff_ffff_ffff_ffff,
    ensures
        n == output_count(views(gates@), gates@.len() as int),
{
    let ghost gs = views(gates@);
    let len = gates.len();
    let mut ctr: u64 = 0;
    let mut k: usize = 0;
    while k < len
        invariant
            gs == views(gates@),
            crate::cbmc::sort::total_wires(gs) <= 0xffff_ffff_ffff_ffff,
            len == gates@.len(),
            0 <= k <= len,
            ctr == output_count(gs, k as int),
        decreases len - k,
    {
        let wire_count = gates[k].len();
        let ghost ws = gs[k as int].wires;
        let mut j: usize = 0;
        while j < wire_count
            invariant
                gs == views(gates@),
                crate::cbmc::sort::total_wires(gs) <= 0xffff_ffff_ffff_ffff,
                len == gates@.len(),
                0 <= k < len,
                ws == gs[k as int].wires,
                wire_count == ws.len(),
                0 <= j <= wire_count,
                ctr == output_count(gs, k as int) + out_cnt(ws.take(j as int)),
            decreases wire_count - j,
        {
            proof {
                lemma_out_cnt_take(ws, j as int);
                lemma_out_cnt_le(ws);
                lemma_cnt_within_total(gs, k as int, j as int);
            }
            let wire = gates[k].wires[j];
            if wire.is_output() {
                ctr = ctr + 1;
            }
            j = j + 1;
        }
        proof {
            assert(ws.take(ws.len() as int) =~= ws);
        }
        k = k + 1;
    }
    ctr
}

/// The running output count stays within the total wire budget.
proof fn lemma_cnt_within_total(gs: Seq<GateSpec>, k: int, j: int)
    requires
        0 <= k < gs.len(),
        0 <= j < gs[k].wires.len(),
    ensures
        output_count(gs, k) + out_cnt(gs[k].wires.take(j)) + 1 <= crate::cbmc::sort::total_wires(
            gs,
        ),
{
    lemma_output_count_le(gs, k);
    lemma_out_cnt_take_le(gs[k].wires, j);
    assert(crate::cbmc::sort::sum_wires(gs, k + 1) == crate::cbmc::sort::sum_wires(gs, k)
        + gs[k].wires.len());
    crate::cbmc::sort::lemma_sum_wires_mono(gs, k + 1, gs.len() as int);
}

proof fn lemma_out_cnt_take_le(ws: Seq<Wire>, j: int)
    requires
        0 <= j < ws.len(),
    ensures
        out_cnt(ws.take(j)) + 1 <= ws.len(),
{
    lemma_out_cnt_le(ws.take(j));
}

impl Converter {
    /// Renders the canonical circuit body: one record per input pin, then
    /// one per gate, in the given (already topological) order.
    pub fn convert_circuit(&self, inputs: &Vec<IOPin>, gates: &Vec<Gate>) -> (lines: Vec<String>)
        ensures
            lines@.len() == inputs@.len() + gates@.len(),
            forall|i: int|
                0 <= i < inputs@.len() ==> #[trigger] lines@[i]@ =~= input_line_text(inputs@[i]@),
            forall|i: int|
                0 <= i < gates@.len() ==> #[trigger] lines@[inputs@.len() + i]@ =~= gate_line_text(
                    gates@[i]@,
                ),
    {
        let mut lines: Vec<String> = Vec::new();
        let mut i: usize = 0;
        while i < inputs.len()
            invariant
                0 <= i <= inputs@.len(),
                lines@.len() == i,
                forall|t: int|
                    0 <= t < i ==> #[trigger] lines@[t]@ =~= input_line_text(inputs@[t]@),
            decreases inputs@.len() - i,
        {
            let line = input_line(&inputs[i]);
            lines.push(line);
            i = i + 1;
        }
        let mut k: usize = 0;
        while k < gates.len()
            invariant
                lines@.len() == inputs@.len() + k,
                0 <= k <= gates@.len(),
                forall|t: int|
                    0 <= t < inputs@.len() ==> #[trigger] lines@[t]@ =~= input_line_text(
                        inputs@[t]@,
                    ),
                forall|t: int|
                    0 <= t < k ==> #[trigger] lines@[inputs@.len() + t]@ =~= gate_line_text(
                        gates@[t]@,
                    ),
            decreases gates@.len() - k,
        {
            let line = gate_line(&gates[k]);
            lines.push(line);
            k = k + 1;
        }
        lines
    }

    /// Renders the meta-info descriptor: the literal cardinalities of the
    /// input, gate and output node sets, and the constant node's fan-out
    /// where one exists. The OUTPUTS line counts output-targeting wires,
    /// which `lemma_output_count_is_cardinality` shows is the output node
    /// set's cardinality whenever each output is fed exactly once, as the
    /// format's fan-in discipline demands.
    pub fn create_meta_info(
        &self,
        inputs: &Vec<IOPin>,
        gates: &Vec<Gate>,
        constant: Option<Constant>,
    ) -> (lines: Vec<String>)
        requires
            crate::cbmc::sort::total_wires(views(gates@)) <= 0xffff_ffff_ffff_ffff,
        ensures
            lines@.len() == if constant is Some {
                4int
            } else {
                3int
            },
            lines@[0]@ =~= "INPUTS = "@ + dec_str(inputs@.len() as nat),
            lines@[1]@ =~= "GATES = "@ + dec_str(gates@.len() as nat),
            lines@[2]@ =~= "OUTPUTS = "@ + dec_str(
                output_count(views(gates@), gates@.len() as int),
            ),
            constant is Some ==> lines@[3]@ =~= "ONE = "@ + fanout_text(constant->0.wires@),
    {
        let mut lines: Vec<String> = Vec::new();
        let mut l0 = String::from_str("INPUTS = ");
        l0.append(to_dec_string(inputs.len() as u64).as_str());
        lines.push(l0);
        let mut l1 = String::from_str("GATES = ");
        l1.append(to_dec_string(gates.len() as u64).as_str());
        lines.push(l1);
        let outs = count_outputs(gates);
        let mut l2 = String::from_str("OUTPUTS = ");
        l2.append(to_dec_string(outs).as_str());
        lines.push(l2);
        match constant {
            Some(c) => {
                let mut l3 = String::from_str("ONE = ");
                l3.append(fanout_string(&c.wires).as_str());
                lines.push(l3);
            },
            None => {},
        }
        lines
    }
}

/// A canonical pin digit names the same slot on both sides of the wire
/// format.
pub open spec fn pin_as_canonical(p: Pin) -> crate::parser::types::Pin {
    match p {
        Pin::Left => crate::parser::types::Pin::Left,
        Pin::Right => crate::parser::types::Pin::Right,
    }
}

/// Serialize-then-parse is the identity on wires: the canonical text of a
/// well-formed wire parses back as an edge with the same destination and
/// the same pin.
pub proof fn lemma_wire_text_parses_back(w: Wire)
    requires
        w.wf(),
    ensures
        crate::parser::edge_spec(wire_text(w)) is Ok,
        w.to is Gate ==> crate::parser::edge_spec(wire_text(w))->Ok_0 =~= (
        crate::parser::types::EdgeSpec {
            id: crate::parser::types::ID::Gate(w.to.val()),
            pin: Some(pin_as_canonical(w.pin->0)),
            circuit: None,
        }),
        w.to is Output ==> crate::parser::edge_spec(wire_text(w))->Ok_0 =~= (
        crate::parser::types::EdgeSpec {
            id: crate::parser::types::ID::Output(w.to.val()),
            pin: None,
            circuit: None,
        }),
{
    let s = wire_text(w);
    match w.to {
        ID::Gate(g) => {
            crate::text::lemma_dec_str_val(g as nat);
            let d = dec_str(g as nat);
            let pc = pin_char(w.pin->0);
            assert(s =~= d + seq![':', pc]);
            assert forall|i: int| 0 <= i < s.len() implies '\0' <= #[trigger] s[i]
                <= '\u{7f}' by {
                if i < d.len() {
                    assert(s[i] == d[i]);
                    assert(crate::text::is_digit_char(d[i]));
                }
            }
            assert forall|j: int| 0 <= j < d.len() implies s[j] != ':' by {
                assert(s[j] == d[j]);
                assert(crate::text::is_digit_char(d[j]));
            }
            assert(s[d.len() as int] == ':');
            crate::text::lemma_split_head(s, ':', d.len() as int);
            let rest = s.skip(d.len() as int + 1);
            assert(rest =~= seq![pc]);
            assert(rest[0] != ':');
            crate::text::lemma_split_head(rest, ':', 1);
            assert(crate::text::split_spec(rest, ':') =~~= seq![rest]);
            let parts = crate::text::split_spec(s, ':');
            assert(parts =~~= seq![d] + seq![rest]);
            assert(parts.len() == 2);
            assert(parts[0] == d);
            assert(parts[1] == rest);
            assert forall|i: int| 0 <= i < d.len() implies !crate::text::is_ws_char(
                #[trigger] d[i],
            ) by {
                assert(crate::text::is_digit_char(d[i]));
            }
            crate::text::lemma_trim_id(d);
            crate::text::lemma_trim_id(rest);
            assert(crate::text::is_digit_char(d[0]));
            assert(crate::text::strip_plus(d) == d);
            assert(crate::text::uint_ok(d, 0xffff_ffff_ffff_ffff));
            assert(crate::text::uint_val(d) == g);
            match w.pin->0 {
                Pin::Left => {
                    assert(rest =~= seq!['0']);
                },
                Pin::Right => {
                    assert(rest =~= seq!['1']);
                },
            }
        },
        ID::Output(o) => {
            crate::text::lemma_dec_str_val(o as nat);
            let d = dec_str(o as nat);
            assert(s =~= seq!['-'] + d);
            assert forall|i: int| 0 <= i < s.len() implies '\0' <= #[trigger] s[i]
                <= '\u{7f}' by {
                if i >= 1 {
                    assert(s[i] == d[i - 1]);
                    assert(crate::text::is_digit_char(d[i - 1]));
                }
            }
            assert forall|j: int| 0 <= j < s.len() implies s[j] != ':' by {
                if j >= 1 {
                    assert(s[j] == d[j - 1]);
                    assert(crate::text::is_digit_char(d[j - 1]));
                }
            }
            crate::text::lemma_split_head(s, ':', s.len() as int);
            let parts = crate::text::split_spec(s, ':');
            assert(parts =~~= seq![s]);
            assert forall|i: int| 0 <= i < s.len() implies !crate::text::is_ws_char(
                #[trigger] s[i],
            ) by {
                if i >= 1 {
                    assert(crate::text::is_digit_char(d[i - 1]));
                }
            }
            crate::text::lemma_trim_id(s);
            let t = crate::text::trim_spec(parts[0]);
            assert(t == s);
            assert(t[0] == '-');
            assert(t.skip(1) =~= d);
            assert(crate::text::strip_plus(d) == d);
            assert(crate::text::uint_ok(t.skip(1), 0xffff_ffff_ffff_ffff));
            assert(crate::text::uint_val(t.skip(1)) == o);
        },
        ID::Input(_) => {
        },
    }
}

/// The characters a wire renders to: never blank, never an arrow head,
/// always ASCII — and at least one of them.
proof fn lemma_wire_text_chars(w: Wire)
    ensures
        wire_text(w).len() > 0,
        forall|i: int|
            0 <= i < wire_text(w).len() ==> !crate::text::is_ws_char(#[trigger] wire_text(w)[i])
                && wire_text(w)[i] != '>' && '\0' <= wire_text(w)[i] <= '\u{7f}',
{
    let s = wire_text(w);
    match w.to {
        ID::Gate(g) => {
            crate::text::lemma_dec_str_val(g as nat);
            let d = dec_str(g as nat);
            assert forall|i: int|
                0 <= i < s.len() implies !crate::text::is_ws_char(#[trigger] s[i]) && s[i] != '>'
                    && '\0' <= s[i] <= '\u{7f}' by {
                if i < d.len() {
                    assert(s[i] == d[i]);
                    assert(crate::text::is_digit_char(d[i]));
                }
            }
        },
        ID::Output(o) => {
            crate::text::lemma_dec_str_val(o as nat);
            let d = dec_str(o as nat);
            assert forall|i: int|
                0 <= i < s.len() implies !crate::text::is_ws_char(#[trigger] s[i]) && s[i] != '>'
                    && '\0' <= s[i] <= '\u{7f}' by {
                if i >= 1 {
                    assert(s[i] == d[i - 1]);
                    assert(crate::text::is_digit_char(d[i - 1]));
                }
            }
        },
        ID::Input(n) => {
            crate::text::lemma_dec_str_val(n as nat);
            let d = dec_str(n as nat);
            assert forall|i: int|
                0 <= i < s.len() implies !crate::text::is_ws_char(#[trigger] s[i]) && s[i] != '>'
                    && '\0' <= s[i] <= '\u{7f}' by {
                if i >= 1 {
                    assert(s[i] == d[i - 1]);
                    assert(crate::text::is_digit_char(d[i - 1]));
                }
            }
        },
    }
}

/// A rendered fan-out list splits on blanks back into its wire tokens,
/// and shares the wires' character classes.
proof fn lemma_fanout_split(ws: Seq<Wire>)
    requires
        ws.len() > 0,
    ensures
        crate::text::split_spec(fanout_text(ws), ' ') =~~= Seq::new(
            ws.len(),
            |i: int| wire_text(ws[i]),
        ),
        fanout_text(ws).len() > 0,
        !crate::text::is_ws_char(fanout_text(ws)[0]),
        !crate::text::is_ws_char(fanout_text(ws).last()),
        forall|i: int|
            0 <= i < fanout_text(ws).len() ==> (#[trigger] fanout_text(ws)[i]) != '>' && '\0'
                <= fanout_text(ws)[i] <= '\u{7f}',
    decreases ws.len(),
{
    let f = fanout_text(ws);
    if ws.len() == 1 {
        lemma_wire_text_chars(ws[0]);
        assert(f =~= wire_text(ws[0]));
        crate::text::lemma_split_head(f, ' ', f.len() as int);
        assert(crate::text::split_spec(f, ' ') =~~= seq![f]);
        assert(Seq::new(1nat, |i: int| wire_text(ws[i])) =~~= seq![wire_text(ws[0])]);
    } else {
        lemma_fanout_split(ws.drop_last());
        lemma_wire_text_chars(ws.last());
        let a = fanout_text(ws.drop_last());
        let b = wire_text(ws.last());
        assert(f =~= a + seq![' '] + b);
        crate::text::lemma_split_concat(a, b, ' ');
        crate::text::lemma_split_head(b, ' ', b.len() as int);
        assert(crate::text::split_spec(b, ' ') =~~= seq![b]);
        assert(crate::text::split_spec(f, ' ') =~~= crate::text::split_spec(a, ' ') + seq![b]);
        assert(crate::text::split_spec(f, ' ') =~~= Seq::new(
            ws.drop_last().len(),
            |i: int| wire_text(ws.drop_last()[i]),
        ) + seq![b]);
        assert(crate::text::split_spec(f, ' ') =~~= Seq::new(ws.len(), |i: int| wire_text(ws[i])));
        assert(f[0] == a[0]);
        assert(f.last() == b.last());
        assert forall|i: int| 0 <= i < f.len() implies (#[trigger] f[i]) != '>' && '\0' <= f[i]
            <= '\u{7f}' by {
            if i < a.len() {
                assert(f[i] == a[i]);
            } else if i > a.len() {
                assert(f[i] == b[i - a.len() - 1]);
            }
        }
    }
}

/// What a wire reads back as: an edge with the same destination and pin.
pub open spec fn wire_as_edge(w: Wire) -> crate::parser::types::EdgeSpec {
    match w.to {
        ID::Gate(g) => crate::parser::types::EdgeSpec {
            id: crate::parser::types::ID::Gate(g),
            pin: Some(pin_as_canonical(w.pin->0)),
            circuit: None,
        },
        ID::Output(o) => crate::parser::types::EdgeSpec {
            id: crate::parser::types::ID::Output(o),
            pin: None,
            circuit: None,
        },
        ID::Input(n) => crate::parser::types::EdgeSpec {
            id: crate::parser::types::ID::Input(n),
            pin: None,
            circuit: None,
        },
    }
}

/// The canonical record of a node line splits at exactly one arrow, its
/// head and fan-out parts trimmed back out.
proof fn lemma_line_split(head: Seq<char>, ws: Seq<Wire>)
    requires
        head.len() > 0,
        !crate::text::is_ws_char(head[0]),
        !crate::text::is_ws_char(head.last()),
        forall|i: int| 0 <= i < head.len() ==> (#[trigger] head[i]) != '>',
        forall|i: int| 0 <= i < head.len() ==> '\0' <= (#[trigger] head[i]) <= '\u{7f}',
        ws.len() > 0,
    ensures
        crate::text::split_arrow_spec(head + arrow_text() + fanout_text(ws)) =~~= seq![
            head.push(' '),
            seq![' '] + fanout_text(ws),
        ],
        crate::text::trim_spec(head.push(' ')) == head,
        crate::text::trim_spec(seq![' '] + fanout_text(ws)) == fanout_text(ws),
        crate::text::is_ascii_chars(head + arrow_text() + fanout_text(ws)),
{
    lemma_fanout_split(ws);
    let f = fanout_text(ws);
    let s = head + arrow_text() + f;
    let pos: int = head.len() as int + 1;
    assert(s[pos] == '-');
    assert(s[pos + 1] == '>');
    assert forall|j: int|
        0 <= j < pos && j + 2 <= s.len() implies !((#[trigger] s[j]) == '-' && s[j + 1]
            == '>') by {
        if j + 1 < head.len() {
            assert(s[j + 1] == head[j + 1]);
        } else if j + 1 == head.len() {
            assert(s[j + 1] == ' ');
        } else {
            assert(s[j + 1] == '-');
        }
    }
    crate::text::lemma_split_arrow_head(s, pos);
    assert(s.take(pos) =~= head.push(' '));
    let rest = s.skip(pos + 2);
    assert(rest =~= seq![' '] + f);
    assert forall|j: int|
        0 <= j < rest.len() && j + 2 <= rest.len() implies !((#[trigger] rest[j]) == '-' && rest[j
            + 1] == '>') by {
        assert(rest[j + 1] == f[j]);
    }
    crate::text::lemma_split_arrow_head(rest, rest.len() as int);
    assert(crate::text::split_arrow_spec(rest) =~~= seq![rest]);
    crate::text::lemma_trim_around(head);
    crate::text::lemma_trim_around(f);
    assert forall|i: int| 0 <= i < s.len() implies '\0' <= (#[trigger] s[i]) <= '\u{7f}' by {
        if i < head.len() {
            assert(s[i] == head[i]);
        } else if i >= head.len() + 4 {
            assert(s[i] == f[i - head.len() - 4]);
        }
    }
}

/// The edges a rendered fan-out reads back as.
proof fn lemma_fanout_parses_back(ws: Seq<Wire>)
    requires
        ws.len() > 0,
        forall|i: int| 0 <= i < ws.len() ==> (#[trigger] ws[i]).wf(),
    ensures
        crate::parser::edges_spec(fanout_text(ws)) is Ok,
        crate::parser::edges_spec(fanout_text(ws))->Ok_0 =~~= Seq::new(
            ws.len(),
            |i: int| wire_as_edge(ws[i]),
        ),
{
    lemma_fanout_split(ws);
    let toks = crate::text::split_spec(fanout_text(ws), ' ');
    assert forall|t: int| 0 <= t < toks.len() implies crate::parser::edge_spec(
        #[trigger] toks[t],
    ) is Ok && crate::parser::edge_spec(toks[t])->Ok_0 =~= wire_as_edge(ws[t]) by {
        assert(toks[t] == wire_text(ws[t]));
        lemma_wire_text_parses_back(ws[t]);
    }
    assert forall|t: int| 0 <= t < toks.len() implies crate::parser::edge_spec(
        #[trigger] toks[t],
    ) is Ok by {}
    crate::parser::lemma_edge_list_ok(toks);
    assert(crate::parser::edges_spec(fanout_text(ws))->Ok_0 =~~= Seq::new(
        ws.len(),
        |i: int| wire_as_edge(ws[i]),
    ));
}

/// What a gate type reads back as on the canonical side.
pub open spec fn type_as_canonical(t: GateType) -> crate::parser::types::GateType {
    match t {
        GateType::AND => crate::parser::types::GateType::AND,
        GateType::XOR => crate::parser::types::GateType::XOR,
        GateType::OR => crate::parser::types::GateType::OR,
        GateType::NOT => crate::parser::types::GateType::NOT,
    }
}

/// Serialize-then-parse is the identity on gate records: the canonical
/// line of a gate reads back as a gate node of the same type, the same
/// identity, and the same wire destinations in the same order.
pub proof fn lemma_gate_line_parses_back(g: GateSpec)
    requires
        g.wires.len() > 0,
        forall|i: int| 0 <= i < g.wires.len() ==> (#[trigger] g.wires[i]).wf(),
    ensures
        crate::parser::node_spec(gate_line_text(g)) is Ok,
        crate::parser::node_spec(gate_line_text(g))->Ok_0 =~~= (crate::parser::types::NodeSpec {
            id: crate::parser::types::ID::Gate(g.id.val()),
            gate_type: Some(type_as_canonical(g.gtype)),
            circuit: None,
            edges: Seq::new(g.wires.len(), |i: int| wire_as_edge(g.wires[i])),
        }),
{
    crate::text::lemma_dec_str_val(g.id.val() as nat);
    let d = dec_str(g.id.val() as nat);
    let head = seq![type_char(g.gtype), ':'] + d;
    assert(head[0] == type_char(g.gtype));
    assert(head.last() == d.last());
    assert(crate::text::is_digit_char(d.last()));
    assert forall|i: int| 0 <= i < head.len() implies (#[trigger] head[i]) != '>' && '\0'
        <= head[i] <= '\u{7f}' && !crate::text::is_ws_char(head[i]) by {
        if i >= 2 {
            assert(head[i] == d[i - 2]);
            assert(crate::text::is_digit_char(d[i - 2]));
        }
    }
    assert(gate_line_text(g) =~= head + arrow_text() + fanout_text(g.wires));
    lemma_line_split(head, g.wires);
    lemma_fanout_parses_back(g.wires);
    let node = crate::text::trim_spec(head.push(' '));
    assert(node == head);
    assert(node[0] != '+' && node[0] != '-');
    // the head splits at its colon into the type letter and the number
    assert(node[1] == ':');
    assert forall|j: int| 0 <= j < 1 implies node[j] != ':' by {}
    crate::text::lemma_split_head(node, ':', 1);
    let after = node.skip(2);
    assert(after =~= d);
    assert forall|j: int| 0 <= j < after.len() implies after[j] != ':' by {
        assert(crate::text::is_digit_char(d[j]));
    }
    crate::text::lemma_split_head(after, ':', after.len() as int);
    assert(crate::text::split_spec(after, ':') =~~= seq![after]);
    let sub = crate::text::split_spec(node, ':');
    assert(sub =~~= seq![node.take(1)] + seq![after]);
    assert(node.take(1) =~= seq![type_char(g.gtype)]);
    crate::text::lemma_trim_around(seq![type_char(g.gtype)]);
    crate::text::lemma_trim_around(d);
    assert(crate::text::strip_plus(d) == d);
    assert(crate::text::uint_ok(d, 0xffff_ffff_ffff_ffff));
    assert(crate::text::uint_val(d) == g.id.val());
    match g.gtype {
        GateType::AND => {
            assert(crate::parser::letter_gate_type(seq!['A']) == Some(
                crate::parser::types::GateType::AND,
            ));
        },
        GateType::XOR => {},
        GateType::OR => {},
        GateType::NOT => {},
    }
}

/// Serialize-then-parse is the identity on input records: the canonical
/// line of an input pin reads back as an input node with the same
/// identity and the same wire destinations in the same order.
pub proof fn lemma_input_line_parses_back(p: crate::cbmc::types::PinSpec)
    requires
        p.wires.len() > 0,
        forall|i: int| 0 <= i < p.wires.len() ==> (#[trigger] p.wires[i]).wf(),
    ensures
        crate::parser::node_spec(input_line_text(p)) is Ok,
        crate::parser::node_spec(input_line_text(p))->Ok_0 =~~= (crate::parser::types::NodeSpec {
            id: crate::parser::types::ID::Input(p.id.val()),
            gate_type: None,
            circuit: None,
            edges: Seq::new(p.wires.len(), |i: int| wire_as_edge(p.wires[i])),
        }),
{
    crate::text::lemma_dec_str_val(p.id.val() as nat);
    let d = dec_str(p.id.val() as nat);
    let head = seq!['+'] + d;
    assert(head[0] == '+');
    assert(head.last() == d.last());
    assert(crate::text::is_digit_char(d.last()));
    assert forall|i: int| 0 <= i < head.len() implies (#[trigger] head[i]) != '>' && '\0'
        <= head[i] <= '\u{7f}' && !crate::text::is_ws_char(head[i]) by {
        if i >= 1 {
            assert(head[i] == d[i - 1]);
            assert(crate::text::is_digit_char(d[i - 1]));
        }
    }
    assert(input_line_text(p) =~= head + arrow_text() + fanout_text(p.wires));
    lemma_line_split(head, p.wires);
    lemma_fanout_parses_back(p.wires);
    let node = crate::text::trim_spec(head.push(' '));
    assert(node == head);
    assert(node[0] == '+');
    assert(node.skip(1) =~= d);
    assert(crate::text::strip_plus(d) == d);
    assert(crate::text::uint_ok(d, 0xffff_ffff_ffff_ffff));
    assert(crate::text::uint_val(d) == p.id.val());
}

} // verus!
