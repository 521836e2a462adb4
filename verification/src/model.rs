//! The mathematical model of the topology and of one synchronous round.
//!
//! Every executable structure has a view into this model, and every contract
//! of the engine is stated over it: `wm_wf` is the topology invariant,
//! `relax_entry` the meaning of one table entry's relaxation, `commit` the
//! meaning of one committed round, `apply_ops` the meaning of a mutation
//! batch, and `run_spec` the meaning of running to convergence.

use vstd::prelude::*;

use crate::cost::CostM;
use crate::cost::EntryM;
use crate::cost::cm_add;
use crate::cost::cm_lt;
use crate::cost::em_cost;
use crate::cost::to_entry;

verus! {

/// Model of one node: display name, distance vector (one entry per
/// destination), neighbors as (index, weight) pairs in ascending index
/// order, and the flag marking it for relaxation in the next round.
#[verifier::ext_equal]
pub struct NodeM {
    pub name: Seq<char>,
    pub dv: Seq<EntryM>,
    pub nbrs: Seq<(int, int)>,
    pub has_updates: bool,
}

/// Model of a topology snapshot. `bound` is the weight type's largest
/// representable value, at which cost additions saturate.
#[verifier::ext_equal]
pub struct WorldM {
    pub nodes: Seq<NodeM>,
    pub generation: int,
    pub bound: int,
}

/// Neighbor lists are strictly ascending by neighbor index.
pub open spec fn nbrs_sorted(s: Seq<(int, int)>) -> bool {
    forall|j: int, k: int| 0 <= j < k < s.len() ==> (#[trigger] s[j]).0 < (#[trigger] s[k]).0
}

/// The weight recorded for neighbor `b` in adjacency list `s`, if any.
pub open spec fn nbr_lookup(s: Seq<(int, int)>, b: int) -> Option<int>
    decreases s.len(),
{
    if s.len() == 0 {
        None
    } else if s[0].0 == b {
        Some(s[0].1)
    } else {
        nbr_lookup(s.skip(1), b)
    }
}

/// There is an edge from `a` to `b` in `w`'s adjacency lists.
pub open spec fn has_edge(w: WorldM, a: int, b: int) -> bool {
    nbr_lookup(w.nodes[a].nbrs, b) is Some
}

/// A single table entry is well formed: `SameNode` only on the diagonal,
/// finite weights non-negative, via-neighbors in range.
pub open spec fn entry_wf(e: EntryM, n: int, d: int, i: int) -> bool {
    match e {
        EntryM::SameNode => d == i,
        EntryM::Infinity => true,
        EntryM::DirectDistance(x) => x >= 0,
        EntryM::Distance(x, via) => x >= 0 && 0 <= via < n,
    }
}

/// A single adjacency entry of node `i` is well formed: in range, no loop
/// edge, non-negative weight.
pub open spec fn nbr_wf(e: (int, int), n: int, i: int) -> bool {
    &&& 0 <= e.0 < n
    &&& e.0 != i
    &&& e.1 >= 0
}

/// Node `i` of `w` is well formed; in particular its self-entry is
/// `SameNode` and each of its edges is recorded symmetrically, with the
/// same weight, by the node at its other end.
pub open spec fn node_wf(w: WorldM, i: int) -> bool {
    let n = w.nodes.len() as int;
    let nd = w.nodes[i];
    &&& nd.dv.len() == n
    &&& nd.dv[i] == EntryM::SameNode
    &&& forall|d: int| 0 <= d < n ==> entry_wf(#[trigger] nd.dv[d], n, d, i)
    &&& nbrs_sorted(nd.nbrs)
    &&& forall|k: int| 0 <= k < nd.nbrs.len() ==> nbr_wf(#[trigger] nd.nbrs[k], n, i)
    &&& forall|k: int|
        0 <= k < nd.nbrs.len() ==> nbr_lookup(w.nodes[(#[trigger] nd.nbrs[k]).0].nbrs, i) == Some(
            nd.nbrs[k].1,
        )
}

/// The topology invariant.
pub open spec fn wm_wf(w: WorldM) -> bool {
    &&& w.bound >= 0
    &&& w.generation >= 0
    &&& forall|i: int| 0 <= i < w.nodes.len() ==> #[trigger] node_wf(w, i)
}

/// The cost that node `m` advertises for destination `d`: its own frozen
/// pre-round table entry.
pub open spec fn adv_cost(w: WorldM, m: int, d: int) -> CostM {
    em_cost(w.nodes[m].dv[d])
}

/// The cost of the `k`-th candidate considered when node `nidx` relaxes
/// destination `d`: the direct edge if the `k`-th neighbor is `d` itself,
/// otherwise the edge weight plus that neighbor's advertised cost.
pub open spec fn cand_cost(w: WorldM, nidx: int, d: int, k: int) -> CostM {
    let e = w.nodes[nidx].nbrs[k];
    if e.0 == d {
        CostM::Value(e.1)
    } else {
        cm_add(CostM::Value(e.1), adv_cost(w, e.0, d), w.bound)
    }
}

/// All candidate costs for `(nidx, d)`, in ascending neighbor order.
pub open spec fn cand_costs(w: WorldM, nidx: int, d: int) -> Seq<CostM> {
    Seq::new(w.nodes[nidx].nbrs.len(), |k: int| cand_cost(w, nidx, d, k))
}

/// The index of the minimum of a candidate list; on ties the
/// first-enumerated candidate wins.
pub open spec fn min_idx(s: Seq<CostM>) -> int
    decreases s.len(),
{
    if s.len() <= 1 {
        0
    } else {
        let b = min_idx(s.drop_last());
        if cm_lt(s[s.len() - 1], s[b]) {
            s.len() - 1
        } else {
            b
        }
    }
}

/// The entry node `nidx` computes for destination `d` in one relaxation:
/// itself on the diagonal, otherwise the winning candidate's summed cost,
/// written as a direct-edge entry when the winner is the direct edge.
pub open spec fn relax_entry(w: WorldM, nidx: int, d: int) -> EntryM {
    if d == nidx {
        EntryM::SameNode
    } else if w.nodes[nidx].nbrs.len() == 0 {
        EntryM::Infinity
    } else {
        let k = min_idx(cand_costs(w, nidx, d));
        let m = w.nodes[nidx].nbrs[k].0;
        to_entry(cand_cost(w, nidx, d, k), m, m == d)
    }
}

/// The whole vector node `nidx` computes in one relaxation.
pub open spec fn relax_dv(w: WorldM, nidx: int) -> Seq<EntryM> {
    Seq::new(w.nodes.len(), |d: int| relax_entry(w, nidx, d))
}

/// Relaxing `(nidx, d)` changes the entry's cost. Via-neighbor differences
/// alone do not count.
pub open spec fn entry_changes(w: WorldM, nidx: int, d: int) -> bool {
    em_cost(relax_entry(w, nidx, d)) != em_cost(w.nodes[nidx].dv[d])
}

/// Relaxing node `nidx` changes at least one entry's cost.
pub open spec fn node_changes(w: WorldM, nidx: int) -> bool {
    exists|d: int| 0 <= d < w.nodes.len() && #[trigger] entry_changes(w, nidx, d)
}

/// Node `nidx` is relaxed this round and its vector's cost changes.
pub open spec fn is_changed(w: WorldM, nidx: int) -> bool {
    w.nodes[nidx].has_updates && node_changes(w, nidx)
}

/// A full round over `w` produces no cost change: the fixed point.
pub open spec fn round_stable(w: WorldM) -> bool {
    forall|i: int| 0 <= i < w.nodes.len() ==> !#[trigger] is_changed(w, i)
}

/// Node `i` is pending in the round after this one: some neighbor of `i`
/// changed this round.
pub open spec fn next_pending(w: WorldM, i: int) -> bool {
    exists|k: int|
        0 <= k < w.nodes[i].nbrs.len() && is_changed(w, (#[trigger] w.nodes[i].nbrs[k]).0)
}

/// The world committed after one changed round: every pending node's vector
/// replaced by its relaxation, the pending set replaced by the neighbors of
/// the changed nodes, and the generation advanced.
pub open spec fn commit(w: WorldM) -> WorldM {
    WorldM {
        nodes: Seq::new(
            w.nodes.len(),
            |i: int|
                NodeM {
                    name: w.nodes[i].name,
                    nbrs: w.nodes[i].nbrs,
                    dv: if w.nodes[i].has_updates {
                        relax_dv(w, i)
                    } else {
                        w.nodes[i].dv
                    },
                    has_updates: next_pending(w, i),
                },
        ),
        generation: w.generation + 1,
        bound: w.bound,
    }
}

/// Running to convergence with `fuel` rounds allowed: a stable world is
/// returned at once with its generation advanced; otherwise a round is
/// committed and the loop continues.
pub open spec fn run_spec(w: WorldM, fuel: nat) -> Option<WorldM>
    decreases fuel,
{
    if round_stable(w) {
        Some(WorldM { nodes: w.nodes, generation: w.generation + 1, bound: w.bound })
    } else if fuel == 0 {
        None
    } else {
        run_spec(commit(w), (fuel - 1) as nat)
    }
}

/// An adjacency list with the weight of neighbor `m` set to `wt`, inserted
/// at its sorted position if absent.
pub open spec fn upsert_nbr(s: Seq<(int, int)>, m: int, wt: int) -> Seq<(int, int)>
    decreases s.len(),
{
    if s.len() == 0 {
        seq![(m, wt)]
    } else if s[0].0 == m {
        seq![(m, wt)] + s.subrange(1, s.len() as int)
    } else if s[0].0 > m {
        seq![(m, wt)] + s
    } else {
        seq![s[0]] + upsert_nbr(s.subrange(1, s.len() as int), m, wt)
    }
}

/// A node with the edge to `other` recorded at weight `wt` and its own
/// entry for `other` seeded as an acknowledgement of the new weight.
/// When the edge is already recorded at exactly this weight the vector is
/// left alone: reapplying an operation with an identical weight is a
/// no-op on vectors.
pub open spec fn seed_node(nd: NodeM, other: int, wt: int) -> NodeM {
    NodeM {
        name: nd.name,
        nbrs: upsert_nbr(nd.nbrs, other, wt),
        dv: if nbr_lookup(nd.nbrs, other) == Some(wt) {
            nd.dv
        } else {
            nd.dv.update(other, EntryM::Distance(wt, other))
        },
        has_updates: nd.has_updates,
    }
}

/// One weight-change operation applied symmetrically to both endpoints.
pub open spec fn seed_one(w: WorldM, a: int, b: int, wt: int) -> WorldM {
    WorldM {
        nodes: w.nodes.update(a, seed_node(w.nodes[a], b, wt)).update(
            b,
            seed_node(w.nodes[b], a, wt),
        ),
        generation: w.generation,
        bound: w.bound,
    }
}

/// The first `k` operations of the batch applied in order.
pub open spec fn apply_upto(w: WorldM, ops: Seq<(int, int, int)>, k: int) -> WorldM
    decreases k,
{
    if k <= 0 {
        w
    } else {
        let w1 = apply_upto(w, ops, k - 1);
        seed_one(w1, ops[k - 1].0, ops[k - 1].1, ops[k - 1].2)
    }
}

/// `i` is an endpoint of some operation of the batch.
pub open spec fn is_endpoint(ops: Seq<(int, int, int)>, i: int) -> bool {
    exists|k: int| 0 <= k < ops.len() && ((#[trigger] ops[k]).0 == i || ops[k].1 == i)
}

/// `i` is marked pending after the batch: in the updated topology it
/// neighbors an endpoint of some operation.
pub open spec fn pending_after(w1: WorldM, ops: Seq<(int, int, int)>, i: int) -> bool {
    exists|k: int|
        0 <= k < w1.nodes[i].nbrs.len() && is_endpoint(ops, (#[trigger] w1.nodes[i].nbrs[k]).0)
}

/// A whole mutation batch: every operation applied in order, then every
/// neighbor of an endpoint marked pending (and every other node unmarked).
/// The generation counter does not advance; mutation and relaxation are
/// separate phases.
pub open spec fn apply_ops(w: WorldM, ops: Seq<(int, int, int)>) -> WorldM {
    let w1 = apply_upto(w, ops, ops.len() as int);
    WorldM {
        nodes: Seq::new(
            w1.nodes.len(),
            |i: int|
                NodeM {
                    name: w1.nodes[i].name,
                    nbrs: w1.nodes[i].nbrs,
                    dv: w1.nodes[i].dv,
                    has_updates: pending_after(w1, ops, i),
                },
        ),
        generation: w1.generation,
        bound: w1.bound,
    }
}

/// An operation the engine accepts: two distinct registered endpoints and a
/// non-negative weight.
pub open spec fn valid_op(n: int, op: (int, int, int)) -> bool {
    &&& 0 <= op.0 < n
    &&& 0 <= op.1 < n
    &&& op.0 != op.1
    &&& op.2 >= 0
}

/// The vector a node starts with: unreachable everywhere but its own entry.
pub open spec fn fresh_dv(n: int, i: int) -> Seq<EntryM> {
    Seq::new(
        n as nat,
        |d: int|
            if d == i {
                EntryM::SameNode
            } else {
                EntryM::Infinity
            },
    )
}

/// A newly constructed world: stable indices, fresh vectors, no edges, no
/// pending nodes, generation zero.
pub open spec fn fresh_world(names: Seq<Seq<char>>, bound: int) -> WorldM {
    WorldM {
        nodes: Seq::new(
            names.len(),
            |i: int|
                NodeM {
                    name: names[i],
                    dv: fresh_dv(names.len() as int, i),
                    nbrs: Seq::empty(),
                    has_updates: false,
                },
        ),
        generation: 0,
        bound: bound,
    }
}

/// Model of one term of a candidate: the label of a direct edge cost
/// `C(source, target)` or of an advertised distance `d_source(target)`.
pub enum ElemM {
    DirectDistance(int, int),
    DistanceVector(int, int),
}

/// Model of one candidate of an explanation line: its term labels, the
/// terms' costs, the neighbor it goes through, and whether it is the
/// direct-edge candidate.
#[verifier::ext_equal]
pub struct TupleM {
    pub description: Seq<ElemM>,
    pub result: Seq<CostM>,
    pub through: int,
    pub direct: bool,
}

/// Model of one explanation line: destination, source, and every candidate
/// considered, in ascending neighbor order.
#[verifier::ext_equal]
pub struct FormulaM {
    pub target: int,
    pub source: int,
    pub members: Seq<TupleM>,
}

/// The sum of a candidate's terms, left to right from `Zero`.
pub open spec fn csum(s: Seq<CostM>, m: int) -> CostM
    decreases s.len(),
{
    if s.len() == 0 {
        CostM::Zero
    } else {
        cm_add(csum(s.drop_last(), m), s.last(), m)
    }
}

/// The candidate recorded for the `k`-th neighbor when `nidx` relaxes `d`:
/// one term for the direct edge, two (edge plus advertised distance) for an
/// indirect candidate.
pub open spec fn cand_tuple(w: WorldM, nidx: int, d: int, k: int) -> TupleM {
    let e = w.nodes[nidx].nbrs[k];
    if e.0 == d {
        TupleM {
            description: seq![ElemM::DirectDistance(e.0, nidx)],
            result: seq![CostM::Value(e.1)],
            through: e.0,
            direct: true,
        }
    } else {
        TupleM {
            description: seq![ElemM::DirectDistance(e.0, nidx), ElemM::DistanceVector(d, e.0)],
            result: seq![CostM::Value(e.1), adv_cost(w, e.0, d)],
            through: e.0,
            direct: false,
        }
    }
}

/// The explanation line recorded when `nidx` relaxes destination `d`.
pub open spec fn formula_m(w: WorldM, nidx: int, d: int) -> FormulaM {
    FormulaM {
        target: d,
        source: nidx,
        members: Seq::new(w.nodes[nidx].nbrs.len(), |k: int| cand_tuple(w, nidx, d, k)),
    }
}

/// The `j`-th non-self destination of node `i`, in ascending order.
pub open spec fn dest_of(i: int, j: int) -> int {
    if j < i {
        j
    } else {
        j + 1
    }
}

/// The explanation lines a node contributes to the round: one per non-self
/// destination if it is relaxed, none otherwise.
pub open spec fn node_formulas(w: WorldM, i: int) -> Seq<FormulaM> {
    if w.nodes[i].has_updates {
        Seq::new((w.nodes.len() - 1) as nat, |j: int| formula_m(w, i, dest_of(i, j)))
    } else {
        Seq::empty()
    }
}

/// The round's explanation lines of the first `i` nodes, in node order.
pub open spec fn trace_upto(w: WorldM, i: int) -> Seq<FormulaM>
    decreases i,
{
    if i <= 0 {
        Seq::empty()
    } else {
        trace_upto(w, i - 1) + node_formulas(w, i - 1)
    }
}

/// All explanation lines of one round.
pub open spec fn trace_of(w: WorldM) -> Seq<FormulaM> {
    trace_upto(w, w.nodes.len() as int)
}

} // verus!

verus! {

/// Every candidate's summed cost in an explanation line, in order.
pub open spec fn formula_sums(f: FormulaM, m: int) -> Seq<CostM> {
    Seq::new(f.members.len(), |k: int| csum(f.members[k].result, m))
}

/// A candidate whose term costs are all non-negative (or infinite).
pub open spec fn tuple_nonneg(t: TupleM) -> bool {
    forall|j: int| 0 <= j < t.result.len() ==> crate::cost::cm_nonneg(#[trigger] t.result[j])
}

/// The winning index of a non-empty candidate list is in range.
pub proof fn lemma_min_idx_bounds(s: Seq<CostM>)
    requires
        s.len() > 0,
    ensures
        0 <= min_idx(s) < s.len(),
    decreases s.len(),
{
    if s.len() > 1 {
        lemma_min_idx_bounds(s.drop_last());
    }
}

/// The winning candidate's cost is the minimum, and every earlier candidate
/// is strictly worse: first-enumerated wins ties.
pub proof fn lemma_min_idx_min(s: Seq<CostM>)
    requires
        s.len() > 0,
    ensures
        forall|k: int| 0 <= k < s.len() ==> crate::cost::cm_le(s[min_idx(s)], #[trigger] s[k]),
        forall|k: int| 0 <= k < min_idx(s) ==> cm_lt(s[min_idx(s)], #[trigger] s[k]),
    decreases s.len(),
{
    lemma_min_idx_bounds(s);
    if s.len() > 1 {
        let p = s.drop_last();
        let b = min_idx(p);
        let mi = min_idx(s);
        lemma_min_idx_min(p);
        lemma_min_idx_bounds(p);
        assert forall|k: int| 0 <= k < s.len() implies crate::cost::cm_le(s[mi], #[trigger] s[k]) by {
            if k < s.len() - 1 {
                assert(p[k] == s[k]);
                assert(crate::cost::cm_le(p[b], p[k]));
            }
            assert(p[b] == s[b]);
        }
        assert forall|k: int| 0 <= k < mi implies cm_lt(s[mi], #[trigger] s[k]) by {
            if mi == s.len() - 1 {
                assert(cm_lt(s[mi], s[b]));
                if k < mi {
                    assert(p[k] == s[k]);
                    assert(crate::cost::cm_le(p[b], p[k]));
                }
            } else {
                assert(mi == b);
                assert(cm_lt(p[b], p[k]));
            }
        }
    }
}

} // verus!

verus! {

/// The sum of a single term.
pub proof fn lemma_csum_one(c: CostM, m: int)
    ensures
        csum(seq![c], m) == cm_add(CostM::Zero, c, m),
{
    assert(seq![c].drop_last() =~= Seq::<CostM>::empty());
    assert(csum(Seq::<CostM>::empty(), m) == CostM::Zero);
}

/// The sum of two terms, left to right.
pub proof fn lemma_csum_two(c0: CostM, c1: CostM, m: int)
    ensures
        csum(seq![c0, c1], m) == cm_add(cm_add(CostM::Zero, c0, m), c1, m),
{
    lemma_csum_one(c0, m);
    assert(seq![c0, c1].drop_last() =~= seq![c0]);
    assert(seq![c0, c1].last() == c1);
}

} // verus!
