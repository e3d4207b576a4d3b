//! Level-synchronous topological sorter for gate lists, with cycle
//! detection: gates are emitted in dependency waves, preserving the input
//! order within each wave.

use vstd::prelude::*;

use crate::cbmc::types::Gate;
use crate::cbmc::types::GateSpec;
use crate::cbmc::types::ID;
use crate::cbmc::types::Wire;
use crate::cbmc::types::views;

verus! {

/// Sorting failed: the graph is cyclic, so no topological ordering of
/// its gates exists.
#[derive(Debug, Clone, Copy, PartialEq, Eq, Structural, Hash)]
pub struct Error {}

impl Error {
    fn new() -> Error {
        Error {  }
    }
}

/// Every gate's identifier is its 1-based position in the list, as the
/// ingestion format guarantees.
pub open spec fn ids_are_positions(gates: Seq<GateSpec>) -> bool {
    forall|k: int| 0 <= k < gates.len() ==> (#[trigger] gates[k]).id == ID::Gate((k + 1) as u64)
}

/// A wire of a gate targets another gate of the list or an output pin.
pub open spec fn wire_target_ok(w: Wire, n: int) -> bool {
    match w.to {
        ID::Gate(g) => 1 <= g <= n,
        ID::Output(_) => true,
        ID::Input(_) => false,
    }
}

pub open spec fn wires_in_range(gates: Seq<GateSpec>) -> bool {
    forall|k: int, j: int|
        0 <= k < gates.len() && 0 <= j < gates[k].wires.len() ==> wire_target_ok(
            #[trigger] gates[k].wires[j],
            gates.len() as int,
        )
}

/// The structural well-formedness the ingestion format guarantees of a
/// gate list handed to the sorter.
pub open spec fn wf_gates(gates: Seq<GateSpec>) -> bool {
    gates.len() <= 0xffff_ffff_ffff_ffff && ids_are_positions(gates) && wires_in_range(gates)
}

/// Gate `g` feeds gate `h`: some wire of `g` targets `h`'s identifier.
pub open spec fn feeds(g: GateSpec, h: GateSpec) -> bool {
    exists|j: int| 0 <= j < g.wires.len() && (#[trigger] g.wires[j]).to == h.id
}

/// Every gate appears strictly before each gate it feeds.
pub open spec fn topo_ordered(sorted: Seq<GateSpec>) -> bool {
    forall|i: int, j: int|
        0 <= i < sorted.len() && 0 <= j < sorted.len() && feeds(
            #[trigger] sorted[i],
            #[trigger] sorted[j],
        ) ==> i < j
}

/// `sorted` holds exactly the gates of `gates`, each once.
pub open spec fn is_permutation(gates: Seq<GateSpec>, sorted: Seq<GateSpec>) -> bool {
    &&& sorted.len() == gates.len()
    &&& forall|i: int|
        0 <= i < sorted.len() ==> 1 <= (#[trigger] sorted[i]).id.val() <= gates.len()
    &&& forall|i: int|
        0 <= i < sorted.len() ==> #[trigger] sorted[i] =~= gates[sorted[i].id.val() - 1]
    &&& forall|k: int|
        0 <= k < gates.len() ==> exists|i: int|
            0 <= i < sorted.len() && (#[trigger] sorted[i]).id == (#[trigger] gates[k]).id
}

/// A valid result of the sorter: a permutation in dependency order.
pub open spec fn is_topo_sort(gates: Seq<GateSpec>, sorted: Seq<GateSpec>) -> bool {
    is_permutation(gates, sorted) && topo_ordered(sorted)
}

/// An acyclic gate list: one that admits a topological ordering.
pub open spec fn sortable(gates: Seq<GateSpec>) -> bool {
    exists|sorted: Seq<GateSpec>| is_topo_sort(gates, sorted)
}

/// How many wires of the list target gate `d`.
pub open spec fn cnt_to(ws: Seq<Wire>, d: u64) -> nat
    decreases ws.len(),
{
    if ws.len() == 0 {
        0
    } else {
        cnt_to(ws.drop_last(), d) + if ws.last().to == ID::Gate(d) {
            1nat
        } else {
            0nat
        }
    }
}

/// The in-degree of gate `d`: wires targeting it from not-yet-emitted
/// gates among the first `upto` of the list.
pub open spec fn indeg(gates: Seq<GateSpec>, emitted: Seq<bool>, d: u64, upto: int) -> nat
    decreases upto,
{
    if upto <= 0 {
        0
    } else {
        indeg(gates, emitted, d, upto - 1) + if 0 <= upto - 1 < gates.len() && !emitted[upto - 1] {
            cnt_to(gates[upto - 1].wires, d)
        } else {
            0nat
        }
    }
}

pub open spec fn indeg_full(gates: Seq<GateSpec>, emitted: Seq<bool>, d: u64) -> nat {
    indeg(gates, emitted, d, gates.len() as int)
}

/// Which gates the in-degree array already marks as emitted.
pub open spec fn emitted_of(nodes: Seq<i64>) -> Seq<bool> {
    Seq::new(nodes.len(), |k: int| nodes[k] == -1)
}

/// The total number of wires of the first `upto` gates.
pub open spec fn sum_wires(gates: Seq<GateSpec>, upto: int) -> nat
    decreases upto,
{
    if upto <= 0 {
        0
    } else {
        sum_wires(gates, upto - 1) + if upto - 1 < gates.len() {
            gates[upto - 1].wires.len()
        } else {
            0nat
        }
    }
}

pub open spec fn total_wires(gates: Seq<GateSpec>) -> nat {
    sum_wires(gates, gates.len() as int)
}

/// How many gates are already emitted.
pub open spec fn count_true(s: Seq<bool>) -> nat
    decreases s.len(),
{
    if s.len() == 0 {
        0
    } else {
        count_true(s.drop_last()) + if s.last() {
            1nat
        } else {
            0nat
        }
    }
}

proof fn lemma_cnt_to_take(ws: Seq<Wire>, d: u64, j: int)
    requires
        0 <= j < ws.len(),
    ensures
        cnt_to(ws.take(j + 1), d) == cnt_to(ws.take(j), d) + if ws[j].to == ID::Gate(d) {
            1nat
        } else {
            0nat
        },
{
    assert(ws.take(j + 1).drop_last() =~= ws.take(j));
    assert(ws.take(j + 1).last() == ws[j]);
}

proof fn lemma_cnt_to_take_le(ws: Seq<Wire>, d: u64, j: int)
    requires
        0 <= j <= ws.len(),
    ensures
        cnt_to(ws.take(j), d) <= cnt_to(ws, d),
    decreases ws.len() - j,
{
    if j == ws.len() {
        assert(ws.take(j) =~= ws);
    } else {
        lemma_cnt_to_take(ws, d, j);
        lemma_cnt_to_take_le(ws, d, j + 1);
    }
}

proof fn lemma_cnt_to_le_len(ws: Seq<Wire>, d: u64)
    ensures
        cnt_to(ws, d) <= ws.len(),
    decreases ws.len(),
{
    if ws.len() > 0 {
        lemma_cnt_to_le_len(ws.drop_last(), d);
    }
}

/// A positive count names a wire; a wire makes the count positive.
proof fn lemma_cnt_to_pos(ws: Seq<Wire>, d: u64)
    ensures
        cnt_to(ws, d) > 0 <==> exists|j: int| 0 <= j < ws.len() && (#[trigger] ws[j]).to
            == ID::Gate(d),
    decreases ws.len(),
{
    if ws.len() > 0 {
        lemma_cnt_to_pos(ws.drop_last(), d);
        if cnt_to(ws, d) > 0 {
            if ws.last().to == ID::Gate(d) {
                assert(ws[ws.len() - 1].to == ID::Gate(d));
            } else {
                let j = choose|j: int|
                    0 <= j < ws.drop_last().len() && (#[trigger] ws.drop_last()[j]).to == ID::Gate(
                        d,
                    );
                assert(ws[j].to == ID::Gate(d));
            }
        }
        if exists|j: int| 0 <= j < ws.len() && (#[trigger] ws[j]).to == ID::Gate(d) {
            let j = choose|j: int| 0 <= j < ws.len() && (#[trigger] ws[j]).to == ID::Gate(d);
            if j < ws.len() - 1 {
                assert(ws.drop_last()[j].to == ID::Gate(d));
            }
        }
    }
}

/// A not-yet-emitted gate's wires all count toward the in-degrees.
proof fn lemma_indeg_contrib(gates: Seq<GateSpec>, emitted: Seq<bool>, d: u64, k: int, upto: int)
    requires
        0 <= k < gates.len(),
        !emitted[k],
        0 <= upto <= gates.len(),
    ensures
        k < upto ==> indeg(gates, emitted, d, upto) >= cnt_to(gates[k].wires, d),
    decreases upto,
{
    if upto > 0 {
        lemma_indeg_contrib(gates, emitted, d, k, upto - 1);
    }
}

/// A positive in-degree names a not-yet-emitted feeding gate.
proof fn lemma_indeg_pos(gates: Seq<GateSpec>, emitted: Seq<bool>, d: u64, upto: int)
    requires
        indeg(gates, emitted, d, upto) > 0,
        upto <= gates.len(),
    ensures
        exists|k: int|
            0 <= k < gates.len() && !emitted[k] && cnt_to(#[trigger] gates[k].wires, d) > 0,
    decreases upto,
{
    if upto > 0 {
        if 0 <= upto - 1 < gates.len() && !emitted[upto - 1] && cnt_to(gates[upto - 1].wires, d)
            > 0 {
        } else {
            lemma_indeg_pos(gates, emitted, d, upto - 1);
        }
    }
}

/// Emitting gate `m` lowers each in-degree by exactly `m`'s contribution.
proof fn lemma_indeg_update(gates: Seq<GateSpec>, emitted: Seq<bool>, d: u64, m: int, upto: int)
    requires
        0 <= m < gates.len(),
        emitted.len() == gates.len(),
        !emitted[m],
        upto <= gates.len(),
    ensures
        indeg(gates, emitted.update(m, true), d, upto) + if m < upto {
            cnt_to(gates[m].wires, d)
        } else {
            0nat
        } == indeg(gates, emitted, d, upto),
    decreases upto,
{
    if upto > 0 {
        lemma_indeg_update(gates, emitted, d, m, upto - 1);
    }
}

proof fn lemma_indeg_le_sum(gates: Seq<GateSpec>, emitted: Seq<bool>, d: u64, upto: int)
    ensures
        indeg(gates, emitted, d, upto) <= sum_wires(gates, upto),
    decreases upto,
{
    if upto > 0 {
        lemma_indeg_le_sum(gates, emitted, d, upto - 1);
        if 0 <= upto - 1 < gates.len() {
            lemma_cnt_to_le_len(gates[upto - 1].wires, d);
        }
    }
}

/// The wire total over a longer prefix is never smaller.
pub proof fn lemma_sum_wires_mono(gates: Seq<GateSpec>, a: int, b: int)
    requires
        a <= b,
    ensures
        sum_wires(gates, a) <= sum_wires(gates, b),
    decreases b - a,
{
    if a < b {
        lemma_sum_wires_mono(gates, a, b - 1);
    }
}

proof fn lemma_count_true_le(s: Seq<bool>)
    ensures
        count_true(s) <= s.len(),
    decreases s.len(),
{
    if s.len() > 0 {
        lemma_count_true_le(s.drop_last());
    }
}

proof fn lemma_count_true_update(s: Seq<bool>, m: int)
    requires
        0 <= m < s.len(),
        !s[m],
    ensures
        count_true(s.update(m, true)) == count_true(s) + 1,
    decreases s.len(),
{
    if m == s.len() - 1 {
        assert(s.update(m, true).drop_last() =~= s.drop_last());
    } else {
        assert(s.update(m, true).drop_last() =~= s.drop_last().update(m, true));
        lemma_count_true_update(s.drop_last(), m);
    }
}

proof fn lemma_count_true_none(s: Seq<bool>)
    requires
        forall|k: int| 0 <= k < s.len() ==> !(#[trigger] s[k]),
    ensures
        count_true(s) == 0,
    decreases s.len(),
{
    if s.len() > 0 {
        lemma_count_true_none(s.drop_last());
    }
}

proof fn lemma_count_true_all(s: Seq<bool>)
    requires
        forall|k: int| 0 <= k < s.len() ==> #[trigger] s[k],
    ensures
        count_true(s) == s.len(),
    decreases s.len(),
{
    if s.len() > 0 {
        lemma_count_true_all(s.drop_last());
    }
}

/// The gates already moved to `sorted` stand in dependency order, come
/// from the emitted part of the list, cover it, and no pending gate feeds
/// any of them.
pub open spec fn sorted_matches(
    gates: Seq<GateSpec>,
    sorted: Seq<GateSpec>,
    emitted: Seq<bool>,
) -> bool {
    &&& forall|i: int|
        0 <= i < sorted.len() ==> 1 <= (#[trigger] sorted[i]).id.val() <= gates.len()
    &&& forall|i: int|
        0 <= i < sorted.len() ==> #[trigger] sorted[i] =~= gates[sorted[i].id.val() - 1]
    &&& forall|i: int| 0 <= i < sorted.len() ==> emitted[(#[trigger] sorted[i]).id.val() - 1]
    &&& forall|i1: int, i2: int|
        0 <= i1 < i2 < sorted.len() ==> (#[trigger] sorted[i1]).id != (#[trigger] sorted[i2]).id
    &&& forall|k: int|
        0 <= k < gates.len() && emitted[k] ==> exists|i: int|
            0 <= i < sorted.len() && (#[trigger] sorted[i]).id.val() - 1 == k
    &&& topo_ordered(sorted)
    &&& forall|k: int, i: int|
        0 <= k < gates.len() && !emitted[k] && 0 <= i < sorted.len() ==> !feeds(
            #[trigger] gates[k],
            #[trigger] sorted[i],
        )
}

/// The sorter's working state: the in-degree array matches the pending
/// part of the graph, and `sorted` is a prefix of a valid answer.
pub open spec fn sort_inv(gates: Seq<GateSpec>, nodes: Seq<i64>, sorted: Seq<GateSpec>) -> bool {
    &&& nodes.len() == gates.len()
    &&& forall|k: int|
        0 <= k < nodes.len() ==> #[trigger] nodes[k] == -1 || nodes[k] == indeg_full(
            gates,
            emitted_of(nodes),
            (k + 1) as u64,
        )
    &&& sorted.len() == count_true(emitted_of(nodes))
    &&& sorted_matches(gates, sorted, emitted_of(nodes))
}

/// Builds the in-degree array: for every gate, each of its wires that
/// targets a gate raises that target's count.
fn new_nodes(gates: &Vec<Gate>) -> (nodes: Vec<i64>)
    requires
        wf_gates(views(gates@)),
        total_wires(views(gates@)) <= 0x7fff_ffff_ffff_ffff,
    ensures
        nodes@.len() == gates@.len(),
        forall|t: int|
            0 <= t < nodes@.len() ==> #[trigger] nodes@[t] == indeg_full(
                views(gates@),
                Seq::new(gates@.len(), |x: int| false),
                (t + 1) as u64,
            ),
{
    let ghost gs = views(gates@);
    let ghost none = Seq::new(gates@.len(), |x: int| false);
    let n = gates.len();
    let mut nodes: Vec<i64> = vec![0i64; n];
    let mut k: usize = 0;
    while k < n
        invariant
            gs == views(gates@),
            none == Seq::new(gates@.len(), |x: int| false),
            wf_gates(gs),
            total_wires(gs) <= 0x7fff_ffff_ffff_ffff,
            n == gates@.len(),
            nodes@.len() == n,
            0 <= k <= n,
            forall|t: int|
                0 <= t < n ==> #[trigger] nodes@[t] == indeg(gs, none, (t + 1) as u64, k as int),
        decreases n - k,
    {
        let wire_count = gates[k].len();
        let ghost ws = gs[k as int].wires;
        let mut j: usize = 0;
        while j < wire_count
            invariant
                gs == views(gates@),
                none == Seq::new(gates@.len(), |x: int| false),
                wf_gates(gs),
                total_wires(gs) <= 0x7fff_ffff_ffff_ffff,
                n == gates@.len(),
                nodes@.len() == n,
                0 <= k < n,
                ws == gs[k as int].wires,
                wire_count == ws.len(),
                0 <= j <= wire_count,
                forall|t: int|
                    0 <= t < n ==> #[trigger] nodes@[t] == indeg(gs, none, (t + 1) as u64, k as int)
                        + cnt_to(ws.take(j as int), (t + 1) as u64),
            decreases wire_count - j,
        {
            let wire = gates[k].wires[j];
            proof {
                assert(wire == ws[j as int]);
                assert(wire_target_ok(ws[j as int], n as int));
            }
            if !wire.is_output() {
                let t = wire.destination().as_index();
                proof {
                    let d = (t + 1) as u64;
                    lemma_cnt_to_take(ws, d, j as int);
                    lemma_cnt_to_take_le(ws, d, j + 1);
                    lemma_cnt_to_le_len(ws, d);
                    assert forall|t2: int| 0 <= t2 < n && t2 != t implies #[trigger] cnt_to(
                        ws.take(j + 1),
                        (t2 + 1) as u64,
                    ) == cnt_to(ws.take(j as int), (t2 + 1) as u64) by {
                        lemma_cnt_to_take(ws, (t2 + 1) as u64, j as int);
                    }
                    // the new count stays within the total wire budget
                    lemma_indeg_le_sum(gs, none, d, k as int);
                    assert(sum_wires(gs, k + 1) == sum_wires(gs, k as int) + ws.len());
                    lemma_sum_wires_mono(gs, k + 1, n as int);
                    assert(indeg(gs, none, d, k as int) + cnt_to(ws.take(j + 1), d) <= total_wires(
                        gs,
                    ));
                }
                let cur = nodes[t];
                nodes[t] = cur + 1;
            } else {
                proof {
                    assert forall|t2: int| 0 <= t2 < n implies #[trigger] cnt_to(
                        ws.take(j + 1),
                        (t2 + 1) as u64,
                    ) == cnt_to(ws.take(j as int), (t2 + 1) as u64) by {
                        lemma_cnt_to_take(ws, (t2 + 1) as u64, j as int);
                    }
                }
            }
            j = j + 1;
        }
        proof {
            assert(ws.take(ws.len() as int) =~= ws);
        }
        k = k + 1;
    }
    nodes
}

/// The indices whose in-degree entry is zero, in increasing order: the
/// frontier the marking pass collects.
pub open spec fn zeros_upto(nodes: Seq<i64>, upto: int) -> Seq<int>
    decreases upto,
{
    if upto <= 0 {
        Seq::<int>::empty()
    } else {
        zeros_upto(nodes, upto - 1) + if 0 <= upto - 1 < nodes.len() && nodes[upto - 1] == 0 {
            seq![upto - 1]
        } else {
            Seq::<int>::empty()
        }
    }
}

/// The frontier of the graph: the not-yet-emitted gates no pending gate
/// feeds, by index, in increasing order.
pub open spec fn frontier_upto(gates: Seq<GateSpec>, emitted: Seq<bool>, upto: int) -> Seq<int>
    decreases upto,
{
    if upto <= 0 {
        Seq::<int>::empty()
    } else {
        frontier_upto(gates, emitted, upto - 1) + if 0 <= upto - 1 < gates.len() && !emitted[upto
            - 1] && indeg_full(gates, emitted, (upto - 1 + 1) as u64) == 0 {
            seq![upto - 1]
        } else {
            Seq::<int>::empty()
        }
    }
}

pub open spec fn frontier(gates: Seq<GateSpec>, emitted: Seq<bool>) -> Seq<int> {
    frontier_upto(gates, emitted, gates.len() as int)
}

/// Marks a whole wave as emitted.
pub open spec fn mark_wave(emitted: Seq<bool>, f: Seq<int>) -> Seq<bool>
    decreases f.len(),
{
    if f.len() == 0 {
        emitted
    } else {
        mark_wave(emitted, f.drop_last()).update(f.last(), true)
    }
}

/// The level-synchronous wave order: emit the whole frontier, input order
/// preserved inside the wave, then repeat on what remains. Every wave
/// emits at least one gate, so a fuel of the list's length always
/// suffices.
pub open spec fn waves(gates: Seq<GateSpec>, emitted: Seq<bool>, fuel: nat) -> Seq<GateSpec>
    decreases fuel,
{
    if fuel == 0 {
        Seq::<GateSpec>::empty()
    } else {
        let f = frontier(gates, emitted);
        if f.len() == 0 {
            Seq::<GateSpec>::empty()
        } else {
            Seq::new(f.len(), |x: int| gates[f[x]]) + waves(
                gates,
                mark_wave(emitted, f),
                (fuel - 1) as nat,
            )
        }
    }
}

/// The one ordering the sorter produces for a given list.
pub open spec fn kahn_order(gates: Seq<GateSpec>) -> Seq<GateSpec> {
    waves(gates, Seq::new(gates.len(), |x: int| false), gates.len())
}

/// The indices a marking pass collected, as a sequence of positions.
pub open spec fn marked_ints(m: Seq<usize>) -> Seq<int> {
    Seq::new(m.len(), |i: int| m[i] as int)
}

/// Under the sorter's invariant, the zero entries of the in-degree array
/// are exactly the frontier of the pending graph.
proof fn lemma_zeros_are_frontier(gates: Seq<GateSpec>, nodes: Seq<i64>, upto: int)
    requires
        nodes.len() == gates.len(),
        forall|k: int|
            0 <= k < nodes.len() ==> #[trigger] nodes[k] == -1 || nodes[k] == indeg_full(
                gates,
                emitted_of(nodes),
                (k + 1) as u64,
            ),
    ensures
        zeros_upto(nodes, upto) =~= frontier_upto(gates, emitted_of(nodes), upto),
    decreases upto,
{
    if upto > 0 {
        lemma_zeros_are_frontier(gates, nodes, upto - 1);
    }
}

proof fn lemma_mark_wave_take(emitted: Seq<bool>, f: Seq<int>, i: int)
    requires
        0 <= i < f.len(),
    ensures
        mark_wave(emitted, f.take(i + 1)) == mark_wave(emitted, f.take(i)).update(f[i], true),
{
    assert(f.take(i + 1).drop_last() =~= f.take(i));
    assert(f.take(i + 1).last() == f[i]);
}

proof fn lemma_frontier_all_emitted(gates: Seq<GateSpec>, emitted: Seq<bool>, upto: int)
    requires
        forall|k: int| 0 <= k < emitted.len() ==> #[trigger] emitted[k],
        upto <= emitted.len(),
    ensures
        frontier_upto(gates, emitted, upto) =~= Seq::<int>::empty(),
    decreases upto,
{
    if upto > 0 {
        lemma_frontier_all_emitted(gates, emitted, upto - 1);
    }
}

proof fn lemma_count_true_lt(s: Seq<bool>, k: int)
    requires
        0 <= k < s.len(),
        !s[k],
    ensures
        count_true(s) < s.len(),
    decreases s.len(),
{
    if k == s.len() - 1 {
        lemma_count_true_le(s.drop_last());
    } else {
        lemma_count_true_lt(s.drop_last(), k);
    }
}

/// Collects the frontier: the indices of all pending gates whose in-degree
/// has reached zero, in increasing order. Returns whether every gate has
/// already been emitted.
fn mark_nodes(marked: &mut Vec<usize>, nodes: &Vec<i64>) -> (done: bool)
    requires
        forall|k: int| 0 <= k < nodes@.len() ==> #[trigger] nodes@[k] >= -1,
    ensures
        done == (forall|k: int| 0 <= k < nodes@.len() ==> #[trigger] nodes@[k] == -1),
        forall|i1: int, i2: int|
            0 <= i1 < i2 < final(marked)@.len() ==> final(marked)@[i1] < final(marked)@[i2],
        forall|i: int|
            0 <= i < final(marked)@.len() ==> (#[trigger] final(marked)@[i]) < nodes@.len()
                && nodes@[final(marked)@[i] as int] == 0,
        forall|k: int|
            0 <= k < nodes@.len() && nodes@[k] == 0 ==> exists|i: int|
                0 <= i < final(marked)@.len() && #[trigger] final(marked)@[i] == k,
        marked_ints(final(marked)@) =~= zeros_upto(nodes@, nodes@.len() as int),
{
    marked.clear();
    let mut done = true;
    let mut k: usize = 0;
    while k < nodes.len()
        invariant
            forall|kk: int| 0 <= kk < nodes@.len() ==> #[trigger] nodes@[kk] >= -1,
            0 <= k <= nodes@.len(),
            done == (forall|kk: int| 0 <= kk < k ==> #[trigger] nodes@[kk] == -1),
            forall|i1: int, i2: int|
                0 <= i1 < i2 < marked@.len() ==> marked@[i1] < marked@[i2],
            forall|i: int|
                0 <= i < marked@.len() ==> (#[trigger] marked@[i]) < k && nodes@[marked@[i] as int]
                    == 0,
            forall|kk: int|
                0 <= kk < k && nodes@[kk] == 0 ==> exists|i: int|
                    0 <= i < marked@.len() && #[trigger] marked@[i] == kk,
            marked_ints(marked@) =~= zeros_upto(nodes@, k as int),
        decreases nodes@.len() - k,
    {
        let v = nodes[k];
        let ghost pre = marked@;
        if v == 0 {
            marked.push(k);
            done = false;
        } else if v != -1 {
            done = false;
        }
        proof {
            assert(marked_ints(marked@) =~= zeros_upto(nodes@, k + 1));
        }
        proof {
            assert forall|kk: int| 0 <= kk < k + 1 && nodes@[kk] == 0 implies exists|i: int|
                0 <= i < marked@.len() && #[trigger] marked@[i] == kk by {
                if kk == k {
                    assert(marked@[marked@.len() - 1] == kk);
                } else {
                    let i = choose|i: int| 0 <= i < pre.len() && #[trigger] pre[i] == kk;
                    assert(marked@[i] == kk);
                }
            }
        }
        k = k + 1;
    }
    done
}

/// Emits the frontier: appends each marked gate to the output (input order
/// preserved) and lowers the in-degree of every gate it feeds.
fn sweep_nodes(marked: &Vec<usize>, nodes: &mut Vec<i64>, from: &Vec<Gate>, to: &mut Vec<Gate>)
    requires
        wf_gates(views(from@)),
        sort_inv(views(from@), old(nodes)@, views(old(to)@)),
        forall|i1: int, i2: int|
            0 <= i1 < i2 < marked@.len() ==> marked@[i1] < marked@[i2],
        forall|i: int|
            0 <= i < marked@.len() ==> (#[trigger] marked@[i]) < old(nodes)@.len() && old(
                nodes,
            )@[marked@[i] as int] == 0,
    ensures
        sort_inv(views(from@), final(nodes)@, views(final(to)@)),
        final(to)@.len() == old(to)@.len() + marked@.len(),
        views(final(to)@) =~~= views(old(to)@) + Seq::new(
            marked@.len(),
            |i: int| views(from@)[marked@[i] as int],
        ),
        emitted_of(final(nodes)@) =~= mark_wave(emitted_of(old(nodes)@), marked_ints(marked@)),
{
    let ghost gs = views(from@);
    let ghost e_start = emitted_of(nodes@);
    let n = from.len();
    let mut idx: usize = 0;
    while idx < marked.len()
        invariant
            wf_gates(gs),
            gs == views(from@),
            n == from@.len(),
            nodes@.len() == n,
            sort_inv(gs, nodes@, views(to@)),
            forall|i1: int, i2: int|
                0 <= i1 < i2 < marked@.len() ==> marked@[i1] < marked@[i2],
            forall|i: int|
                0 <= i < marked@.len() ==> (#[trigger] marked@[i]) < n,
            0 <= idx <= marked@.len(),
            forall|i: int|
                idx <= i < marked@.len() ==> nodes@[#[trigger] marked@[i] as int] == 0,
            to@.len() == old(to)@.len() + idx,
            e_start == emitted_of(old(nodes)@),
            views(to@) =~~= views(old(to)@) + Seq::new(
                idx as nat,
                |i: int| gs[marked@[i] as int],
            ),
            emitted_of(nodes@) =~= mark_wave(e_start, marked_ints(marked@).take(idx as int)),
        decreases marked@.len() - idx,
    {
        let m = marked[idx];
        let ghost e0 = emitted_of(nodes@);
        let ghost d_m = (m + 1) as u64;
        proof {
            assert(nodes@[m as int] == 0);
            assert(!e0[m as int]);
            assert(indeg_full(gs, e0, d_m) == 0);
        }
        proof {
            assert forall|i: int| idx <= i < marked@.len() implies !e0[
                #[trigger] marked@[i] as int] && indeg_full(gs, e0, (marked@[i] + 1) as u64)
                == 0 by {
                let k2 = marked@[i] as int;
                assert(nodes@[k2] == 0);
                assert(!e0[k2]);
            }
        }
        let wcount = from[m].len();
        let ghost ws = gs[m as int].wires;
        let mut j: usize = 0;
        while j < wcount
            invariant
                wf_gates(gs),
                gs == views(from@),
                n == from@.len(),
                nodes@.len() == n,
                0 <= idx < marked@.len(),
                m == marked@[idx as int],
                m < n,
                ws == gs[m as int].wires,
                wcount == ws.len(),
                0 <= j <= wcount,
                e0.len() == n,
                !e0[m as int],
                d_m == (m + 1) as u64,
                indeg_full(gs, e0, d_m) == 0,
                emitted_of(nodes@) =~= e0,
                forall|k: int|
                    0 <= k < n && !e0[k] ==> #[trigger] nodes@[k] + cnt_to(
                        ws.take(j as int),
                        (k + 1) as u64,
                    ) == indeg_full(gs, e0, (k + 1) as u64),
                forall|k: int| 0 <= k < n && e0[k] ==> #[trigger] nodes@[k] == -1,
                sorted_matches(gs, views(to@), e0),
                to@.len() == count_true(e0),
                forall|i: int| idx <= i < marked@.len() ==> !e0[#[trigger] marked@[i] as int],
                forall|i: int|
                    idx <= i < marked@.len() ==> indeg_full(
                        gs,
                        e0,
                        (#[trigger] marked@[i] + 1) as u64,
                    ) == 0,
            decreases wcount - j,
        {
            let wire = from[m].wires[j];
            proof {
                assert(wire == ws[j as int]);
                assert(wire_target_ok(ws[j as int], n as int));
            }
            if !wire.is_output() {
                let t = wire.destination().as_index();
                let ghost d = (t + 1) as u64;
                proof {
                    lemma_cnt_to_take(ws, d, j as int);
                    lemma_cnt_to_take_le(ws, d, j + 1);
                    lemma_indeg_contrib(gs, e0, d, m as int, n as int);
                    // the wire's target is still pending: a wire into an
                    // emitted gate would contradict `sorted_matches`
                    if e0[t as int] {
                        let i = choose|i: int|
                            0 <= i < views(to@).len() && (#[trigger] views(to@)[i]).id.val() - 1
                                == t;
                        assert(views(to@)[i].id == ID::Gate(d)) by {
                            assert(views(to@)[i] =~= gs[t as int]);
                        }
                        assert(feeds(gs[m as int], views(to@)[i]));
                        assert(false);
                    }
                    assert forall|t2: int| 0 <= t2 < n && t2 != t implies #[trigger] cnt_to(
                        ws.take(j + 1),
                        (t2 + 1) as u64,
                    ) == cnt_to(ws.take(j as int), (t2 + 1) as u64) by {
                        lemma_cnt_to_take(ws, (t2 + 1) as u64, j as int);
                    }
                }
                let cur = nodes[t];
                nodes[t] = cur - 1;
                proof {
                    assert(emitted_of(nodes@) =~= e0);
                }
            } else {
                proof {
                    assert forall|t2: int| 0 <= t2 < n implies #[trigger] cnt_to(
                        ws.take(j + 1),
                        (t2 + 1) as u64,
                    ) == cnt_to(ws.take(j as int), (t2 + 1) as u64) by {
                        lemma_cnt_to_take(ws, (t2 + 1) as u64, j as int);
                    }
                }
            }
            j = j + 1;
        }
        proof {
            assert(ws.take(ws.len() as int) =~= ws);
            // the frontier gate has no self-loop, so its own count is zero
            lemma_indeg_contrib(gs, e0, d_m, m as int, n as int);
            lemma_cnt_to_pos(ws, d_m);
            assert(nodes@[m as int] == 0);
        }
        let gate_copy = from[m].clone();
        let ghost prev = views(to@);
        let ghost new_entry = gate_copy@;
        to.push(gate_copy);
        nodes[m] = -1;
        proof {
            let e1 = emitted_of(nodes@);
            assert(e1 =~= e0.update(m as int, true));
            lemma_count_true_update(e0, m as int);
            let svs = views(to@);
            assert(svs.len() == prev.len() + 1);
            assert forall|i: int| 0 <= i < prev.len() implies #[trigger] svs[i] == prev[i] by {
                assert(svs[i] == to@[i]@);
            }
            assert(svs[prev.len() as int] == new_entry);
            assert(new_entry =~= gs[m as int]);
            assert(gs[m as int].id == ID::Gate(d_m));
            assert(svs[prev.len() as int].id.val() == m + 1);
            // in-degrees of the still-pending gates drop by m's wires
            assert forall|k: int| 0 <= k < n && !e1[k] implies #[trigger] nodes@[k] == indeg_full(
                gs,
                e1,
                (k + 1) as u64,
            ) by {
                lemma_indeg_update(gs, e0, (k + 1) as u64, m as int, n as int);
            }
            // every sorted entry keeps its properties under the larger
            // emitted set; the new entry's properties come from the
            // frontier condition
            assert forall|i1: int, i2: int| 0 <= i1 < i2 < svs.len() implies (
            #[trigger] svs[i1]).id != (#[trigger] svs[i2]).id by {
                assert(svs[i1] == prev[i1]);
                if i2 == svs.len() - 1 {
                    assert(e0[prev[i1].id.val() - 1]);
                    assert(!e0[m as int]);
                } else {
                    assert(svs[i2] == prev[i2]);
                }
            }
            assert forall|k: int, i: int|
                0 <= k < n && !e1[k] && 0 <= i < svs.len() implies !feeds(
                #[trigger] gs[k],
                #[trigger] svs[i],
            ) by {
                if i == svs.len() - 1 {
                    if feeds(gs[k], svs[i]) {
                        assert(svs[i].id == ID::Gate(d_m));
                        lemma_cnt_to_pos(gs[k].wires, d_m);
                        lemma_indeg_contrib(gs, e0, d_m, k, n as int);
                        assert(false);
                    }
                } else {
                    assert(svs[i] == prev[i]);
                    assert(!feeds(gs[k], prev[i]));
                }
            }
            assert(topo_ordered(svs)) by {
                assert forall|i1: int, i2: int|
                    0 <= i1 < svs.len() && 0 <= i2 < svs.len() && feeds(
                        #[trigger] svs[i1],
                        #[trigger] svs[i2],
                    ) implies i1 < i2 by {
                    if i1 == svs.len() - 1 {
                        if i2 == svs.len() - 1 {
                            // a self-loop would give the frontier gate a
                            // positive in-degree
                            assert(svs[i2].id == ID::Gate(d_m));
                            assert(feeds(gs[m as int], svs[i2]));
                            lemma_cnt_to_pos(gs[m as int].wires, d_m);
                            lemma_indeg_contrib(gs, e0, d_m, m as int, n as int);
                            assert(false);
                        } else {
                            assert(svs[i2] == prev[i2]);
                            assert(!e0[m as int]);
                            assert(!feeds(gs[m as int], prev[i2]));
                            assert(false);
                        }
                    } else {
                        assert(svs[i1] == prev[i1]);
                        if i2 < svs.len() - 1 {
                            assert(svs[i2] == prev[i2]);
                        }
                    }
                }
            }
            assert(views(to@) =~~= views(old(to)@) + Seq::new(
                (idx + 1) as nat,
                |i: int| gs[marked@[i] as int],
            )) by {
                assert(svs[prev.len() as int] =~= gs[m as int]);
            }
            lemma_mark_wave_take(e_start, marked_ints(marked@), idx as int);
            assert(marked_ints(marked@).take(idx as int + 1).drop_last() =~= marked_ints(
                marked@,
            ).take(idx as int));
            assert(e1 =~= mark_wave(e_start, marked_ints(marked@).take(idx as int + 1)));
            assert forall|k: int|
                0 <= k < n && e1[k] implies exists|i: int|
                    0 <= i < svs.len() && (#[trigger] svs[i]).id.val() - 1 == k by {
                if k == m as int {
                    assert(svs[svs.len() - 1].id.val() - 1 == k);
                } else {
                    assert(e0[k]);
                    let i = choose|i: int|
                        0 <= i < prev.len() && (#[trigger] prev[i]).id.val() - 1 == k;
                    assert(svs[i] == prev[i]);
                    assert(svs[i].id.val() - 1 == k);
                }
            }
            // the rest of the frontier is untouched: no frontier gate feeds
            // another, their in-degrees being zero
            assert forall|i: int| idx + 1 <= i < marked@.len() implies nodes@[
                #[trigger] marked@[i] as int] == 0 by {
                let k2 = marked@[i] as int;
                assert(marked@[idx as int] < marked@[i]);
                assert(!e0[k2]);
                assert(!e1[k2]);
                assert(indeg_full(gs, e0, (k2 + 1) as u64) == 0);
                lemma_indeg_update(gs, e0, (k2 + 1) as u64, m as int, n as int);
                assert(indeg_full(gs, e1, (k2 + 1) as u64) == 0);
            }
        }
        idx = idx + 1;
    }
    proof {
        assert(marked_ints(marked@).take(marked@.len() as int) =~= marked_ints(marked@));
    }
}

/// If every pending gate still waits on another pending gate, the pending
/// part of the graph holds a cycle: no topological ordering exists.
proof fn first_pending(gates: Seq<GateSpec>, emitted: Seq<bool>, ord: Seq<GateSpec>, i: int) -> (p:
    int)
    requires
        wf_gates(gates),
        emitted.len() == gates.len(),
        is_permutation(gates, ord),
        0 <= i <= ord.len(),
        exists|q: int| i <= q < ord.len() && !emitted[(#[trigger] ord[q]).id.val() - 1],
        forall|q: int| 0 <= q < i ==> emitted[(#[trigger] ord[q]).id.val() - 1],
    ensures
        i <= p < ord.len(),
        !emitted[ord[p].id.val() - 1],
        forall|q: int| 0 <= q < p ==> emitted[(#[trigger] ord[q]).id.val() - 1],
    decreases ord.len() - i,
{
    if i < ord.len() && !emitted[ord[i].id.val() - 1] {
        i
    } else {
        let q0 = choose|q: int| i <= q < ord.len() && !emitted[(#[trigger] ord[q]).id.val() - 1];
        assert(q0 != i);
        first_pending(gates, emitted, ord, i + 1)
    }
}

proof fn lemma_unsortable(gates: Seq<GateSpec>, nodes: Seq<i64>, sorted: Seq<GateSpec>)
    requires
        wf_gates(gates),
        sort_inv(gates, nodes, sorted),
        forall|k: int| 0 <= k < nodes.len() ==> #[trigger] nodes[k] != 0,
        exists|k: int| 0 <= k < nodes.len() && #[trigger] nodes[k] != -1,
    ensures
        !sortable(gates),
{
    let emitted = emitted_of(nodes);
    if sortable(gates) {
        let ord = choose|ord: Seq<GateSpec>| is_topo_sort(gates, ord);
        let k0 = choose|k: int| 0 <= k < nodes.len() && #[trigger] nodes[k] != -1;
        assert(!emitted[k0]);
        // the pending gate k0 appears somewhere in the claimed ordering
        assert(gates[k0].id == ID::Gate((k0 + 1) as u64));
        let i0 = choose|i: int| 0 <= i < ord.len() && (#[trigger] ord[i]).id == gates[k0].id;
        assert(ord[i0].id.val() - 1 == k0);
        let p = first_pending(gates, emitted, ord, 0);
        let mpos = ord[p].id.val() - 1;
        assert(ord[p] =~= gates[mpos]);
        assert(!emitted[mpos]);
        assert(nodes[mpos] == indeg_full(gates, emitted, (mpos + 1) as u64));
        assert(nodes[mpos] != 0 && nodes[mpos] != -1);
        lemma_indeg_pos(gates, emitted, (mpos + 1) as u64, gates.len() as int);
        let k = choose|k: int|
            0 <= k < gates.len() && !emitted[k] && cnt_to(#[trigger] gates[k].wires, (mpos
                + 1) as u64) > 0;
        lemma_cnt_to_pos(gates[k].wires, (mpos + 1) as u64);
        assert(ord[p].id == ID::Gate((mpos + 1) as u64)) by {
            assert(gates[mpos].id == ID::Gate((mpos + 1) as u64));
        }
        assert(feeds(gates[k], ord[p]));
        // that feeding gate also appears in the ordering, before p by the
        // topological property, yet it is pending, against p's minimality
        let q = choose|i: int| 0 <= i < ord.len() && (#[trigger] ord[i]).id == gates[k].id;
        assert(ord[q].id.val() - 1 == k);
        assert(ord[q] =~= gates[k]);
        assert(ord[q].wires == gates[k].wires);
        assert(feeds(ord[q], ord[p]));
        assert(q < p);
        assert(emitted[ord[q].id.val() - 1]);
        assert(false);
    }
}

/// Decides whether a parsed gate list is fit for the sorter: identifiers
/// dense and 1-based, wire targets in range, and the total wire count
/// within the in-degree array's reach.
pub fn check_gates(gates: &Vec<Gate>) -> (b: bool)
    ensures
        b == (wf_gates(views(gates@)) && total_wires(views(gates@)) <= 0x7fff_ffff_ffff_ffff),
{
    let ghost gs = views(gates@);
    let n = gates.len();
    let mut sum: u64 = 0;
    let mut k: usize = 0;
    while k < n
        invariant
            gs == views(gates@),
            n == gates@.len(),
            0 <= k <= n,
            sum == sum_wires(gs, k as int),
            sum <= 0x7fff_ffff_ffff_ffff,
            forall|t: int| 0 <= t < k ==> (#[trigger] gs[t]).id == ID::Gate((t + 1) as u64),
            forall|t: int, j: int|
                0 <= t < k && 0 <= j < gs[t].wires.len() ==> wire_target_ok(
                    #[trigger] gs[t].wires[j],
                    n as int,
                ),
        decreases n - k,
    {
        let ok_id = match gates[k].id() {
            ID::Gate(v) => v == (k + 1) as u64,
            _ => false,
        };
        if !ok_id {
            return false;
        }
        let wcount = gates[k].len();
        let ghost ws = gs[k as int].wires;
        let mut j: usize = 0;
        while j < wcount
            invariant
                gs == views(gates@),
                n == gates@.len(),
                0 <= k < n,
                ws == gs[k as int].wires,
                wcount == ws.len(),
                0 <= j <= wcount,
                forall|t: int| 0 <= t < j ==> wire_target_ok(#[trigger] ws[t], n as int),
            decreases wcount - j,
        {
            let w = gates[k].wires[j];
            let ok_wire = match w.destination() {
                ID::Gate(g) => 1 <= g && g <= n as u64,
                ID::Output(_) => true,
                ID::Input(_) => false,
            };
            if !ok_wire {
                proof {
                    assert(!wire_target_ok(gs[k as int].wires[j as int], n as int));
                }
                return false;
            }
            j = j + 1;
        }
        match sum.checked_add(wcount as u64) {
            Some(s) => {
                if s > 0x7fff_ffff_ffff_ffff {
                    proof {
                        lemma_sum_wires_mono(gs, k + 1, n as int);
                    }
                    return false;
                }
                sum = s;
            },
            None => {
                proof {
                    lemma_sum_wires_mono(gs, k + 1, n as int);
                }
                return false;
            },
        }
        k = k + 1;
    }
    true
}

/// Sorts a gate list into a topological evaluation order: the result is
/// a permutation in which every gate stands strictly before each gate its
/// wires feed — and exactly the level-synchronous wave order, each wave
/// keeping the gates' relative input order, so equal inputs give equal
/// outputs. Fails exactly on the lists that admit no such order — the
/// cyclic ones — returning no partial order.
pub fn sort_gates(gates: &Vec<Gate>) -> (r: Result<Vec<Gate>, Error>)
    requires
        wf_gates(views(gates@)),
        total_wires(views(gates@)) <= 0x7fff_ffff_ffff_ffff,
    ensures
        r is Ok ==> is_topo_sort(views(gates@), views(r->Ok_0@)),
        r is Ok ==> views(r->Ok_0@) =~~= kahn_order(views(gates@)),
        r is Ok <==> sortable(views(gates@)),
{
    let ghost gs = views(gates@);
    let mut nodes = new_nodes(gates);
    let mut sorted: Vec<Gate> = Vec::new();
    let mut marked: Vec<usize> = Vec::new();
    let ghost mut fuel_left: nat = gates@.len() as nat;
    proof {
        let e = emitted_of(nodes@);
        assert(e =~= Seq::new(gates@.len(), |x: int| false));
        lemma_count_true_none(e);
        assert(views(sorted@) =~= Seq::<GateSpec>::empty());
        assert(views(sorted@) + waves(gs, e, fuel_left) =~~= kahn_order(gs));
    }
    loop
        invariant_except_break
            wf_gates(gs),
            gs == views(gates@),
            sort_inv(gs, nodes@, views(sorted@)),
            sorted@.len() <= gates@.len(),
            views(sorted@) + waves(gs, emitted_of(nodes@), fuel_left) =~~= kahn_order(gs),
            fuel_left + views(sorted@).len() >= gs.len(),
        ensures
            sort_inv(gs, nodes@, views(sorted@)),
            gs == views(gates@),
            forall|k: int| 0 <= k < nodes@.len() ==> #[trigger] nodes@[k] == -1,
            views(sorted@) =~~= kahn_order(gs),
        decreases gates@.len() - sorted@.len(),
    {
        let done = mark_nodes(&mut marked, &nodes);
        if done {
            proof {
                let e = emitted_of(nodes@);
                lemma_frontier_all_emitted(gs, e, gs.len() as int);
                assert(waves(gs, e, fuel_left) =~= Seq::<GateSpec>::empty());
                assert(views(sorted@) =~~= kahn_order(gs));
            }
            break;
        }
        if marked.is_empty() {
            proof {
                lemma_unsortable(gs, nodes@, views(sorted@));
            }
            return Err(Error::new());
        }
        let ghost e_pre = emitted_of(nodes@);
        let ghost sorted_pre = views(sorted@);
        proof {
            // the marking pass collected exactly the frontier of the
            // pending graph
            lemma_zeros_are_frontier(gs, nodes@, gs.len() as int);
            assert(marked_ints(marked@) =~= frontier(gs, e_pre));
            assert(marked_ints(marked@).len() >= 1);
            // a wave remains, so a unit of fuel does too
            let k0 = choose|k: int| 0 <= k < nodes@.len() && #[trigger] nodes@[k] != -1;
            lemma_count_true_lt(e_pre, k0);
            assert(fuel_left >= 1);
            assert(waves(gs, e_pre, fuel_left) =~~= Seq::new(
                frontier(gs, e_pre).len(),
                |x: int| gs[frontier(gs, e_pre)[x]],
            ) + waves(gs, mark_wave(e_pre, frontier(gs, e_pre)), (fuel_left - 1) as nat));
        }
        sweep_nodes(&marked, &mut nodes, gates, &mut sorted);
        proof {
            lemma_count_true_le(emitted_of(nodes@));
            assert(Seq::new(marked@.len(), |i: int| gs[marked@[i] as int]) =~~= Seq::new(
                frontier(gs, e_pre).len(),
                |x: int| gs[frontier(gs, e_pre)[x]],
            ));
            assert(emitted_of(nodes@) =~= mark_wave(e_pre, frontier(gs, e_pre)));
            fuel_left = (fuel_left - 1) as nat;
            assert(views(sorted@) + waves(gs, emitted_of(nodes@), fuel_left) =~~= kahn_order(gs));
        }
    }
    proof {
        let e = emitted_of(nodes@);
        assert(forall|k: int| 0 <= k < e.len() ==> #[trigger] e[k]);
        lemma_count_true_all(e);
        let svs = views(sorted@);
        assert forall|k: int| 0 <= k < gs.len() implies exists|i: int|
            0 <= i < svs.len() && (#[trigger] svs[i]).id == (#[trigger] gs[k]).id by {
            let i = choose|i: int| 0 <= i < svs.len() && (#[trigger] svs[i]).id.val() - 1 == k;
            assert(svs[i] =~= gs[k]);
        }
        assert(is_topo_sort(gs, svs));
    }
    Ok(sorted)
}

} // verus!
