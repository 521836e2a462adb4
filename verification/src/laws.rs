//! Invariants and laws of the engine, proved once and for all over the
//! mathematical model: the self-entry and symmetry invariants, preservation
//! of well-formedness by a committed round, monotonicity of costs across
//! rounds, the immediate stability of an already-stable world, completeness
//! of the explanation trace, and — over the standard lifecycle of a fresh
//! world and one mutation batch — the soundness of every table entry, the
//! speed at which tables meet their routes, and termination of convergence
//! within the classical bound of V-1 rounds for V nodes.

use vstd::prelude::*;

use crate::cost::CostM;
use crate::cost::EntryM;
use crate::cost::cm_le;
use crate::cost::cm_nonneg;
use crate::cost::em_cost;
use crate::model::WorldM;
use crate::model::cand_cost;
use crate::model::cand_costs;
use crate::model::commit;
use crate::model::entry_wf;
use crate::model::has_edge;
use crate::model::lemma_min_idx_bounds;
use crate::model::lemma_min_idx_min;
use crate::model::min_idx;
use crate::model::nbr_lookup;
use crate::model::nbr_wf;
use crate::model::node_wf;
use crate::model::relax_entry;
use crate::model::round_stable;
use crate::model::run_spec;
use crate::model::wm_wf;

verus! {

/// Every node of a well-formed world holds the zero-cost `SameNode` entry
/// for itself, in every round: every constructor and transition of the
/// engine yields a well-formed world.
pub proof fn lemma_self_entry(w: WorldM, n: int)
    requires
        wm_wf(w),
        0 <= n < w.nodes.len(),
    ensures
        w.nodes[n].dv[n] == EntryM::SameNode,
        em_cost(w.nodes[n].dv[n]) == CostM::Zero,
{
    assert(node_wf(w, n));
}

/// Every recorded edge of a well-formed world is symmetric: the node at
/// the other end records the same edge with the same weight.
pub proof fn lemma_edge_symmetric(w: WorldM, a: int, b: int)
    requires
        wm_wf(w),
        0 <= a < w.nodes.len(),
        has_edge(w, a, b),
    ensures
        0 <= b < w.nodes.len(),
        has_edge(w, b, a),
        nbr_lookup(w.nodes[b].nbrs, a) == nbr_lookup(w.nodes[a].nbrs, b),
{
    assert(node_wf(w, a));
    let s = w.nodes[a].nbrs;
    lemma_lookup_index(s, b);
    let k = choose|k: int| 0 <= k < s.len() && s[k].0 == b && nbr_lookup(s, b) == Some(s[k].1);
    assert(nbr_wf(s[k], w.nodes.len() as int, a));
    assert(nbr_lookup(w.nodes[b].nbrs, a) == Some(s[k].1));
}

/// A successful lookup names an actual entry of the adjacency list.
pub proof fn lemma_lookup_index(s: Seq<(int, int)>, b: int)
    requires
        nbr_lookup(s, b) is Some,
    ensures
        exists|k: int|
            0 <= k < s.len() && (#[trigger] s[k]).0 == b && nbr_lookup(s, b) == Some(s[k].1),
    decreases s.len(),
{
    if s.len() > 0 && s[0].0 != b {
        lemma_lookup_index(s.skip(1), b);
        let k1 = choose|k: int|
            0 <= k < s.skip(1).len() && (#[trigger] s.skip(1)[k]).0 == b && nbr_lookup(
                s.skip(1),
                b,
            ) == Some(s.skip(1)[k].1);
        assert(s[k1 + 1] == s.skip(1)[k1]);
    }
}

/// A relaxed entry is well formed, and its cost is never negative.
pub proof fn lemma_relax_entry_wf(w: WorldM, i: int, d: int)
    requires
        wm_wf(w),
        0 <= i < w.nodes.len(),
        0 <= d < w.nodes.len(),
    ensures
        entry_wf(relax_entry(w, i, d), w.nodes.len() as int, d, i),
        cm_nonneg(em_cost(relax_entry(w, i, d))),
{
    let n = w.nodes.len() as int;
    assert(node_wf(w, i));
    if d != i && w.nodes[i].nbrs.len() > 0 {
        lemma_min_idx_bounds(cand_costs(w, i, d));
        let k = min_idx(cand_costs(w, i, d));
        let e = w.nodes[i].nbrs[k];
        assert(nbr_wf(e, n, i));
        assert(node_wf(w, e.0));
        assert(entry_wf(w.nodes[e.0].dv[d], n, d, e.0));
    }
}

/// One committed round preserves the topology invariant.
pub proof fn lemma_commit_wf(w: WorldM)
    requires
        wm_wf(w),
    ensures
        wm_wf(commit(w)),
{
    let n = w.nodes.len() as int;
    let w2 = commit(w);
    assert forall|i: int| 0 <= i < n implies node_wf(w2, i) by {
        assert(node_wf(w, i));
        if w.nodes[i].has_updates {
            assert forall|d: int| 0 <= d < n implies entry_wf(
                #[trigger] w2.nodes[i].dv[d],
                n,
                d,
                i,
            ) by {
                lemma_relax_entry_wf(w, i, d);
            }
        }
        assert forall|k: int| 0 <= k < w2.nodes[i].nbrs.len() implies nbr_lookup(
            w2.nodes[(#[trigger] w2.nodes[i].nbrs[k]).0].nbrs,
            i,
        ) == Some(w2.nodes[i].nbrs[k].1) by {
            let e = w.nodes[i].nbrs[k];
            assert(nbr_wf(e, n, i));
            assert(w2.nodes[e.0].nbrs == w.nodes[e.0].nbrs);
            assert(nbr_lookup(w.nodes[e.0].nbrs, i) == Some(e.1));
        }
    }
}

} // verus!

// ---------------------------------------------------------------------------
// Idempotence of convergence and completeness of the explanation trace.
// ---------------------------------------------------------------------------

verus! {

use crate::model::csum;
use crate::model::formula_m;
use crate::model::formula_sums;
use crate::model::lemma_csum_one;
use crate::model::lemma_csum_two;

/// Invoking convergence on an already-stable world yields zero further
/// rounds: whatever the bound, it returns at once, with only the
/// generation advanced.
pub proof fn lemma_stable_idempotent(w: WorldM, fuel: nat)
    requires
        round_stable(w),
    ensures
        run_spec(w, fuel) == Some(
            WorldM { nodes: w.nodes, generation: w.generation + 1, bound: w.bound },
        ),
{
}

/// The summed costs of an explanation line's candidates are exactly the
/// candidate costs of the relaxation it records.
pub proof fn lemma_formula_sums(w: WorldM, n: int, d: int)
    requires
        wm_wf(w),
        0 <= n < w.nodes.len(),
        0 <= d < w.nodes.len(),
        d != n,
    ensures
        formula_sums(formula_m(w, n, d), w.bound) == cand_costs(w, n, d),
{
    let f = formula_m(w, n, d);
    assert forall|t: int| 0 <= t < f.members.len() implies #[trigger] formula_sums(f, w.bound)[t]
        == cand_costs(w, n, d)[t] by {
        let tu = crate::model::cand_tuple(w, n, d, t);
        if tu.direct {
            lemma_csum_one(tu.result[0], w.bound);
            assert(tu.result =~= seq![tu.result[0]]);
        } else {
            lemma_csum_two(tu.result[0], tu.result[1], w.bound);
            assert(tu.result =~= seq![tu.result[0], tu.result[1]]);
        }
    }
    assert(formula_sums(f, w.bound) =~= cand_costs(w, n, d));
}

/// Explanation completeness: the line recorded for a relaxed entry lists
/// exactly one candidate per neighbor, in ascending neighbor order — the
/// direct-edge candidate occupying its neighbor's position with one term,
/// every other candidate with two — and the winning candidate's summed
/// cost equals the new entry's cost.
pub proof fn lemma_trace_complete(w: WorldM, n: int, d: int)
    requires
        wm_wf(w),
        0 <= n < w.nodes.len(),
        0 <= d < w.nodes.len(),
        d != n,
        w.nodes[n].nbrs.len() > 0,
    ensures
        ({
            let f = formula_m(w, n, d);
            let win = min_idx(formula_sums(f, w.bound));
            &&& f.target == d
            &&& f.source == n
            &&& f.members.len() == w.nodes[n].nbrs.len()
            &&& forall|k: int|
                0 <= k < f.members.len() ==> (#[trigger] f.members[k]).through == w.nodes[n].nbrs[k].0
            &&& forall|k: int|
                0 <= k < f.members.len() ==> ((#[trigger] f.members[k]).direct <==> w.nodes[n].nbrs[k].0
                    == d)
            &&& forall|k: int|
                0 <= k < f.members.len() ==> (#[trigger] f.members[k]).result.len() == (
                if w.nodes[n].nbrs[k].0 == d {
                    1int
                } else {
                    2int
                })
            &&& 0 <= win < f.members.len()
            &&& em_cost(relax_entry(w, n, d)) == csum(f.members[win].result, w.bound)
        }),
{
    let f = formula_m(w, n, d);
    lemma_formula_sums(w, n, d);
    lemma_min_idx_bounds(cand_costs(w, n, d));
    let win = min_idx(formula_sums(f, w.bound));
    assert(formula_sums(f, w.bound)[win] == csum(f.members[win].result, w.bound));
}

} // verus!

// ---------------------------------------------------------------------------
// Monotonicity: across a committed round, no entry's cost increases.
// ---------------------------------------------------------------------------

verus! {

use crate::cost::DVValue;
use crate::cost::Weight;
use crate::cost::cm_add;
use crate::cost::to_entry;
use crate::model::adv_cost;

/// A cost the weight type can represent.
pub open spec fn cm_bounded(c: CostM, m: int) -> bool {
    match c {
        CostM::Value(x) => x <= m,
        _ => true,
    }
}

/// Every table entry's cost and every edge weight fits the weight type.
pub open spec fn bounded(w: WorldM) -> bool {
    &&& forall|i: int, d: int|
        0 <= i < w.nodes.len() && 0 <= d < w.nodes[i].dv.len() ==> cm_bounded(
            em_cost(#[trigger] w.nodes[i].dv[d]),
            w.bound,
        )
    &&& forall|i: int, k: int|
        0 <= i < w.nodes.len() && 0 <= k < w.nodes[i].nbrs.len() ==> (
        #[trigger] w.nodes[i].nbrs[k]).1 <= w.bound
}

/// Every vector is at or below what one more relaxation would compute:
/// the invariant under which costs only move downward.
pub open spec fn dominated(w: WorldM) -> bool {
    forall|i: int, d: int|
        0 <= i < w.nodes.len() && 0 <= d < w.nodes.len() ==> cm_le(
            em_cost(#[trigger] relax_entry(w, i, d)),
            em_cost(w.nodes[i].dv[d]),
        )
}

/// Any world the library hands out is bounded: every stored weight is a
/// value of the weight type.
pub proof fn lemma_world_bounded<W: Weight>(w: &crate::world::World<W>)
    ensures
        bounded(w@),
{
    assert forall|i: int, d: int|
        0 <= i < w@.nodes.len() && 0 <= d < w@.nodes[i].dv.len() implies cm_bounded(
        em_cost(#[trigger] w@.nodes[i].dv[d]),
        w@.bound,
    ) by {
        let e = w.nodes@[i].dv@[d];
        assert(w@.nodes[i].dv[d] == e@);
        match e {
            DVValue::Distance(x, _) => x.lemma_wv_bound(),
            DVValue::DirectDistance(x) => x.lemma_wv_bound(),
            _ => {},
        }
    }
    assert forall|i: int, k: int|
        0 <= i < w@.nodes.len() && 0 <= k < w@.nodes[i].nbrs.len() implies (
    #[trigger] w@.nodes[i].nbrs[k]).1 <= w@.bound by {
        let nb = w.nodes@[i].neighbors@[k];
        assert(w@.nodes[i].nbrs[k] == nb@);
        nb.direct_cost.lemma_wv_bound();
    }
}

/// The cost order is transitive.
pub proof fn lemma_cm_le_trans(a: CostM, b: CostM, c: CostM)
    requires
        cm_le(a, b),
        cm_le(b, c),
    ensures
        cm_le(a, c),
{
}

/// Writing a cost into an entry and reading it back gives the cost.
pub proof fn lemma_em_to_entry(c: CostM, through: int, direct: bool)
    ensures
        em_cost(to_entry(c, through, direct)) == c,
{
}

/// Adding a fixed, bounded, non-negative edge weight preserves the order
/// of non-negative costs.
proof fn lemma_cm_add_mono(x: int, b1: CostM, b2: CostM, m: int)
    requires
        0 <= x <= m,
        cm_le(b1, b2),
        cm_nonneg(b2),
    ensures
        cm_le(cm_add(CostM::Value(x), b1, m), cm_add(CostM::Value(x), b2, m)),
{
}

/// A relaxed entry's cost fits the weight type.
proof fn lemma_relax_bounded(w: WorldM, i: int, d: int)
    requires
        wm_wf(w),
        bounded(w),
        0 <= i < w.nodes.len(),
        0 <= d < w.nodes.len(),
    ensures
        cm_bounded(em_cost(relax_entry(w, i, d)), w.bound),
{
    assert(node_wf(w, i));
    if d != i && w.nodes[i].nbrs.len() > 0 {
        lemma_min_idx_bounds(cand_costs(w, i, d));
        let k = min_idx(cand_costs(w, i, d));
        let e = w.nodes[i].nbrs[k];
        assert(nbr_wf(e, w.nodes.len() as int, i));
        assert(e.1 <= w.bound);
        lemma_em_to_entry(cand_cost(w, i, d, k), e.0, e.0 == d);
    }
}

/// Relaxation is monotone in the advertised tables: with the same
/// topology and pointwise lower-or-equal vectors, every relaxed entry is
/// lower or equal.
proof fn lemma_relax_mono(w1: WorldM, w2: WorldM, i: int, d: int)
    requires
        wm_wf(w1),
        wm_wf(w2),
        bounded(w1),
        w2.nodes.len() == w1.nodes.len(),
        w2.bound == w1.bound,
        forall|j: int|
            0 <= j < w1.nodes.len() ==> (#[trigger] w2.nodes[j]).nbrs == w1.nodes[j].nbrs,
        forall|j: int, dd: int|
            0 <= j < w1.nodes.len() && 0 <= dd < w1.nodes.len() ==> cm_le(
                em_cost(#[trigger] w2.nodes[j].dv[dd]),
                em_cost(w1.nodes[j].dv[dd]),
            ),
        0 <= i < w1.nodes.len(),
        0 <= d < w1.nodes.len(),
    ensures
        cm_le(em_cost(relax_entry(w2, i, d)), em_cost(relax_entry(w1, i, d))),
{
    let n = w1.nodes.len() as int;
    assert(node_wf(w1, i));
    if d != i && w1.nodes[i].nbrs.len() > 0 {
        let c1 = cand_costs(w1, i, d);
        let c2 = cand_costs(w2, i, d);
        assert forall|k: int| 0 <= k < c1.len() implies cm_le(#[trigger] c2[k], c1[k]) by {
            let e = w1.nodes[i].nbrs[k];
            assert(nbr_wf(e, n, i));
            assert(e.1 <= w1.bound);
            if e.0 != d {
                assert(node_wf(w1, e.0));
                assert(entry_wf(w1.nodes[e.0].dv[d], n, d, e.0));
                assert(cm_le(em_cost(w2.nodes[e.0].dv[d]), em_cost(w1.nodes[e.0].dv[d])));
                lemma_cm_add_mono(e.1, adv_cost(w2, e.0, d), adv_cost(w1, e.0, d), w1.bound);
            }
        }
        let k1 = min_idx(c1);
        let k2 = min_idx(c2);
        lemma_min_idx_bounds(c1);
        lemma_min_idx_bounds(c2);
        lemma_min_idx_min(c2);
        assert(cm_le(c2[k2], c2[k1]));
        lemma_cm_le_trans(c2[k2], c2[k1], c1[k1]);
        lemma_em_to_entry(cand_cost(w1, i, d, k1), w1.nodes[i].nbrs[k1].0, w1.nodes[i].nbrs[k1].0 == d);
        lemma_em_to_entry(cand_cost(w2, i, d, k2), w2.nodes[i].nbrs[k2].0, w2.nodes[i].nbrs[k2].0 == d);
    }
}

/// Across one committed round no entry's cost increases, and the
/// invariants that make it so are themselves preserved, so costs are
/// non-increasing across every following round as well.
pub proof fn lemma_round_nonincreasing(w: WorldM)
    requires
        wm_wf(w),
        bounded(w),
        dominated(w),
    ensures
        forall|i: int, d: int|
            0 <= i < w.nodes.len() && 0 <= d < w.nodes.len() ==> cm_le(
                em_cost(#[trigger] commit(w).nodes[i].dv[d]),
                em_cost(w.nodes[i].dv[d]),
            ),
        wm_wf(commit(w)),
        bounded(commit(w)),
        dominated(commit(w)),
{
    lemma_commit_wf(w);
    let w2 = commit(w);
    let n = w.nodes.len() as int;
    assert forall|i: int, d: int| 0 <= i < n && 0 <= d < n implies cm_le(
        em_cost(#[trigger] w2.nodes[i].dv[d]),
        em_cost(w.nodes[i].dv[d]),
    ) by {
        assert(node_wf(w, i));
        if w.nodes[i].has_updates {
            assert(w2.nodes[i].dv[d] == relax_entry(w, i, d));
        }
    }
    assert forall|i: int, d: int| 0 <= i < n && 0 <= d < w2.nodes[i].dv.len() implies cm_bounded(
        em_cost(#[trigger] w2.nodes[i].dv[d]),
        w2.bound,
    ) by {
        assert(node_wf(w, i));
        if w.nodes[i].has_updates {
            lemma_relax_bounded(w, i, d);
        }
    }
    assert forall|i: int, d: int| 0 <= i < n && 0 <= d < n implies cm_le(
        em_cost(#[trigger] relax_entry(w2, i, d)),
        em_cost(w2.nodes[i].dv[d]),
    ) by {
        assert(node_wf(w, i));
        lemma_relax_mono(w, w2, i, d);
        if w.nodes[i].has_updates {
            assert(w2.nodes[i].dv[d] == relax_entry(w, i, d));
        } else {
            assert(w2.nodes[i].dv[d] == w.nodes[i].dv[d]);
            lemma_cm_le_trans(
                em_cost(relax_entry(w2, i, d)),
                em_cost(relax_entry(w, i, d)),
                em_cost(w.nodes[i].dv[d]),
            );
        }
    }
}

} // verus!

// ---------------------------------------------------------------------------
// The standard lifecycle establishes the monotonicity invariant: after a
// fresh construction and one mutation batch, costs only move downward.
// ---------------------------------------------------------------------------

verus! {

use crate::model::apply_ops;
use crate::model::apply_upto;
use crate::model::fresh_dv;
use crate::model::fresh_world;
use crate::model::seed_one;
use crate::model::valid_op;

/// Off the diagonal, every entry is untouched (`Infinity`) or the seed
/// acknowledging its destination at the edge's currently recorded weight.
pub open spec fn seeded(w: WorldM) -> bool {
    forall|i: int, d: int|
        0 <= i < w.nodes.len() && 0 <= d < w.nodes.len() && d != i ==> match #[trigger] w.nodes[i].dv[d] {
            EntryM::Infinity => true,
            EntryM::Distance(x, via) => via == d && nbr_lookup(w.nodes[i].nbrs, d) == Some(x),
            _ => false,
        }
}

/// A freshly constructed world is well formed.
pub proof fn lemma_fresh_world_wf(names: Seq<Seq<char>>, bound: int)
    requires
        bound >= 0,
    ensures
        wm_wf(fresh_world(names, bound)),
{
    let w = fresh_world(names, bound);
    assert forall|i: int| 0 <= i < w.nodes.len() implies node_wf(w, i) by {
        assert(w.nodes[i].dv == fresh_dv(names.len() as int, i));
    }
}

/// One symmetric weight change keeps every off-diagonal entry seeded.
proof fn lemma_seed_one_seeded(w: WorldM, a: int, b: int, wt: int)
    requires
        wm_wf(w),
        valid_op(w.nodes.len() as int, (a, b, wt)),
        seeded(w),
    ensures
        seeded(seed_one(w, a, b, wt)),
{
    let n = w.nodes.len() as int;
    let w2 = seed_one(w, a, b, wt);
    assert(node_wf(w, a));
    assert(node_wf(w, b));
    assert forall|i: int, d: int| 0 <= i < n && 0 <= d < n && d != i implies match #[trigger] w2.nodes[i].dv[d] {
        EntryM::Infinity => true,
        EntryM::Distance(x, via) => via == d && nbr_lookup(w2.nodes[i].nbrs, d) == Some(x),
        _ => false,
    } by {
        if i == a {
            crate::world::lemma_upsert_lookup(w.nodes[a].nbrs, b, wt, d);
            if d != b {
                assert(w2.nodes[i].dv[d] == w.nodes[i].dv[d]);
            }
        } else if i == b {
            crate::world::lemma_upsert_lookup(w.nodes[b].nbrs, a, wt, d);
            if d != a {
                assert(w2.nodes[i].dv[d] == w.nodes[i].dv[d]);
            }
        } else {
            assert(w2.nodes[i] == w.nodes[i]);
        }
    }
}

/// Every prefix of a valid batch keeps every off-diagonal entry seeded.
proof fn lemma_apply_upto_seeded(w: WorldM, ops: Seq<(int, int, int)>, k: int)
    requires
        wm_wf(w),
        seeded(w),
        0 <= k <= ops.len(),
        forall|t: int| 0 <= t < ops.len() ==> valid_op(w.nodes.len() as int, #[trigger] ops[t]),
    ensures
        seeded(apply_upto(w, ops, k)),
    decreases k,
{
    if k > 0 {
        lemma_apply_upto_seeded(w, ops, k - 1);
        crate::world::lemma_apply_upto_props(w, ops, k - 1);
        lemma_seed_one_seeded(apply_upto(w, ops, k - 1), ops[k - 1].0, ops[k - 1].1, ops[k - 1].2);
    }
}

/// In a well-formed, seeded world every vector already dominates its own
/// relaxation: each seed sits on a recorded direct edge, which the
/// relaxation offers as a candidate.
proof fn lemma_seeded_dominated(w: WorldM)
    requires
        wm_wf(w),
        seeded(w),
    ensures
        dominated(w),
{
    let n = w.nodes.len() as int;
    assert forall|i: int, d: int| 0 <= i < n && 0 <= d < n implies cm_le(
        em_cost(#[trigger] relax_entry(w, i, d)),
        em_cost(w.nodes[i].dv[d]),
    ) by {
        assert(node_wf(w, i));
        if d != i {
            match w.nodes[i].dv[d] {
                EntryM::Infinity => {},
                EntryM::Distance(x, via) => {
                    lemma_lookup_index(w.nodes[i].nbrs, d);
                    let k0 = choose|k: int|
                        0 <= k < w.nodes[i].nbrs.len() && (#[trigger] w.nodes[i].nbrs[k]).0 == d
                            && nbr_lookup(w.nodes[i].nbrs, d) == Some(w.nodes[i].nbrs[k].1);
                    assert(cand_costs(w, i, d)[k0] == CostM::Value(x));
                    lemma_min_idx_min(cand_costs(w, i, d));
                    lemma_min_idx_bounds(cand_costs(w, i, d));
                    let km = min_idx(cand_costs(w, i, d));
                    lemma_em_to_entry(
                        cand_cost(w, i, d, km),
                        w.nodes[i].nbrs[km].0,
                        w.nodes[i].nbrs[km].0 == d,
                    );
                },
                _ => {},
            }
        }
    }
}

/// After constructing a world and applying any single valid mutation
/// batch, the monotonicity invariant holds: from there on, every round's
/// costs are non-increasing (`lemma_round_nonincreasing`).
pub proof fn lemma_fresh_apply_dominated(
    names: Seq<Seq<char>>,
    bound: int,
    ops: Seq<(int, int, int)>,
)
    requires
        bound >= 0,
        forall|t: int| 0 <= t < ops.len() ==> valid_op(names.len() as int, #[trigger] ops[t]),
    ensures
        wm_wf(apply_ops(fresh_world(names, bound), ops)),
        dominated(apply_ops(fresh_world(names, bound), ops)),
{
    let w0 = fresh_world(names, bound);
    lemma_fresh_world_wf(names, bound);
    assert forall|i: int, d: int|
        0 <= i < w0.nodes.len() && 0 <= d < w0.nodes.len() && d != i implies match #[trigger] w0.nodes[i].dv[d] {
        EntryM::Infinity => true,
        EntryM::Distance(x, via) => via == d && nbr_lookup(w0.nodes[i].nbrs, d) == Some(x),
        _ => false,
    } by {
        assert(w0.nodes[i].dv[d] == fresh_dv(names.len() as int, i)[d]);
    }
    let w1 = apply_upto(w0, ops, ops.len() as int);
    lemma_apply_upto_seeded(w0, ops, ops.len() as int);
    crate::world::lemma_apply_upto_props(w0, ops, ops.len() as int);
    let w2 = apply_ops(w0, ops);
    assert forall|ii: int| 0 <= ii < w2.nodes.len() implies node_wf(w2, ii) by {
        assert(node_wf(w1, ii));
        assert(w2.nodes[ii].dv == w1.nodes[ii].dv);
        assert(w2.nodes[ii].nbrs == w1.nodes[ii].nbrs);
        assert(forall|k: int|
            0 <= k < w2.nodes[ii].nbrs.len() ==> w2.nodes[(#[trigger] w2.nodes[ii].nbrs[k]).0].nbrs
                == w1.nodes[w2.nodes[ii].nbrs[k].0].nbrs);
    }
    assert forall|i: int, d: int|
        0 <= i < w2.nodes.len() && 0 <= d < w2.nodes.len() && d != i implies match #[trigger] w2.nodes[i].dv[d] {
        EntryM::Infinity => true,
        EntryM::Distance(x, via) => via == d && nbr_lookup(w2.nodes[i].nbrs, d) == Some(x),
        _ => false,
    } by {
        assert(w2.nodes[i].dv[d] == w1.nodes[i].dv[d]);
        assert(w2.nodes[i].nbrs == w1.nodes[i].nbrs);
    }
    lemma_seeded_dominated(w2);
}

} // verus!

verus! {

/// Relaxation reads only the nodes and the bound: two worlds that agree
/// on them relax identically.
proof fn lemma_relax_same_nodes(w1: WorldM, w2: WorldM, i: int, d: int)
    requires
        w2.nodes == w1.nodes,
        w2.bound == w1.bound,
    ensures
        relax_entry(w2, i, d) == relax_entry(w1, i, d),
{
    assert(cand_costs(w2, i, d) =~= cand_costs(w1, i, d));
}

/// Whenever convergence completes, what it returns is a genuine fixed
/// point: one further round would change no cost.
pub proof fn lemma_run_spec_stable(w: WorldM, fuel: nat)
    ensures
        match run_spec(w, fuel) {
            Some(w2) => round_stable(w2),
            None => true,
        },
    decreases fuel,
{
    if round_stable(w) {
        let w2 = WorldM { nodes: w.nodes, generation: w.generation + 1, bound: w.bound };
        assert forall|i: int| 0 <= i < w2.nodes.len() implies !#[trigger] crate::model::is_changed(
            w2,
            i,
        ) by {
            assert(!crate::model::is_changed(w, i));
            assert forall|d: int|
                0 <= d < w2.nodes.len() implies !#[trigger] crate::model::entry_changes(
                w2,
                i,
                d,
            ) == !crate::model::entry_changes(w, i, d) by {
                lemma_relax_same_nodes(w, w2, i, d);
            }
        }
    } else if fuel > 0 {
        lemma_run_spec_stable(commit(w), (fuel - 1) as nat);
    }
}

} // verus!

verus! {

/// The cost algebra is a commutative monoid under addition: `Zero` is the
/// identity, and for non-negative costs addition is commutative and
/// associative (saturation keeps it so).
pub proof fn lemma_cost_monoid(a: CostM, b: CostM, c: CostM, m: int)
    requires
        m >= 0,
        cm_nonneg(a),
        cm_nonneg(b),
        cm_nonneg(c),
    ensures
        cm_add(a, b, m) == cm_add(b, a, m),
        cm_add(cm_add(a, b, m), c, m) == cm_add(a, cm_add(b, c, m), m),
        cm_add(CostM::Zero, a, m) == a,
        cm_add(a, CostM::Zero, m) == a,
{
}

} // verus!

// ---------------------------------------------------------------------------
// Convergence speed: after k committed rounds, every entry is at or below
// the cost of any route of at most k+1 edges.
// ---------------------------------------------------------------------------

verus! {

use crate::model::is_changed;
use crate::model::is_endpoint;
use crate::model::nbrs_sorted;
use crate::model::next_pending;

/// The world after `k` committed rounds.
pub open spec fn after_rounds(w: WorldM, k: nat) -> WorldM
    decreases k,
{
    if k == 0 {
        w
    } else {
        commit(after_rounds(w, (k - 1) as nat))
    }
}

/// `path` steps along recorded edges of `w`.
pub open spec fn walk_linked(w: WorldM, path: Seq<int>) -> bool {
    &&& forall|t: int| 0 <= t < path.len() ==> 0 <= #[trigger] path[t] < w.nodes.len()
    &&& forall|t: int|
        0 <= t < path.len() - 1 ==> nbr_lookup(
            w.nodes[#[trigger] path[t]].nbrs,
            path[t + 1],
        ) is Some
}

/// Every node that is not pending already sits at its own relaxation,
/// cost for cost: relaxing it again would change nothing.
pub open spec fn np_settled(w: WorldM) -> bool {
    forall|n: int, d: int|
        0 <= n < w.nodes.len() && 0 <= d < w.nodes.len() && !w.nodes[n].has_updates ==> em_cost(
            #[trigger] relax_entry(w, n, d),
        ) == em_cost(w.nodes[n].dv[d])
}

/// Every recorded edge is acknowledged in its endpoint's vector: the
/// entry for the edge's other end carries the edge's current weight.
pub open spec fn edge_seeded(w: WorldM) -> bool {
    forall|n: int, d: int|
        0 <= n < w.nodes.len() && 0 <= d < w.nodes.len() && d != n && (#[trigger] nbr_lookup(
            w.nodes[n].nbrs,
            d,
        )) is Some ==> w.nodes[n].dv[d] == EntryM::Distance(
            nbr_lookup(w.nodes[n].nbrs, d)->Some_0,
            d,
        )
}

/// A committed round keeps every cost and weight within the weight type.
proof fn lemma_commit_bounded(w: WorldM)
    requires
        wm_wf(w),
        bounded(w),
    ensures
        bounded(commit(w)),
{
    let n = w.nodes.len() as int;
    let w2 = commit(w);
    assert forall|i: int, d: int| 0 <= i < n && 0 <= d < w2.nodes[i].dv.len() implies cm_bounded(
        em_cost(#[trigger] w2.nodes[i].dv[d]),
        w2.bound,
    ) by {
        assert(node_wf(w, i));
        if w.nodes[i].has_updates {
            lemma_relax_bounded(w, i, d);
        }
    }
}

} // verus!

verus! {

/// Relaxation reads only the topology and the advertised costs: with the
/// same neighbors and cost-equal advertisements, it computes the same
/// entry.
proof fn lemma_relax_congruence(w1: WorldM, w2: WorldM, n: int, d: int)
    requires
        w2.nodes.len() == w1.nodes.len(),
        w2.bound == w1.bound,
        0 <= n < w1.nodes.len(),
        0 <= d < w1.nodes.len(),
        w2.nodes[n].nbrs == w1.nodes[n].nbrs,
        forall|j: int|
            0 <= j < w1.nodes[n].nbrs.len() ==> em_cost(
                w2.nodes[(#[trigger] w1.nodes[n].nbrs[j]).0].dv[d],
            ) == em_cost(w1.nodes[w1.nodes[n].nbrs[j].0].dv[d]),
    ensures
        relax_entry(w2, n, d) == relax_entry(w1, n, d),
{
    assert(cand_costs(w2, n, d) =~= cand_costs(w1, n, d));
    if d != n && w1.nodes[n].nbrs.len() > 0 {
        lemma_min_idx_bounds(cand_costs(w1, n, d));
        let k = min_idx(cand_costs(w1, n, d));
        assert(cand_cost(w2, n, d, k) == cand_costs(w2, n, d)[k]);
        assert(cand_cost(w1, n, d, k) == cand_costs(w1, n, d)[k]);
    }
}

/// With every unrelaxed node already settled, a committed round leaves
/// every node — relaxed or not — at the cost a full relaxation of the old
/// world would give: the pending optimization loses nothing.
proof fn lemma_commit_full_relax(w: WorldM)
    requires
        wm_wf(w),
        np_settled(w),
    ensures
        forall|n: int, d: int|
            0 <= n < w.nodes.len() && 0 <= d < w.nodes.len() ==> em_cost(
                #[trigger] commit(w).nodes[n].dv[d],
            ) == em_cost(relax_entry(w, n, d)),
{
    let w2 = commit(w);
    assert forall|n: int, d: int| 0 <= n < w.nodes.len() && 0 <= d < w.nodes.len() implies em_cost(
        #[trigger] w2.nodes[n].dv[d],
    ) == em_cost(relax_entry(w, n, d)) by {
        if w.nodes[n].has_updates {
            assert(w2.nodes[n].dv[d] == relax_entry(w, n, d));
        } else {
            assert(w2.nodes[n].dv[d] == w.nodes[n].dv[d]);
        }
    }
}

/// One committed round keeps every unrelaxed node settled.
proof fn lemma_np_preserved(w: WorldM)
    requires
        wm_wf(w),
        np_settled(w),
    ensures
        np_settled(commit(w)),
{
    let n = w.nodes.len() as int;
    let w2 = commit(w);
    lemma_commit_full_relax(w);
    assert forall|i: int, d: int|
        0 <= i < n && 0 <= d < n && !w2.nodes[i].has_updates implies em_cost(
        #[trigger] relax_entry(w2, i, d),
    ) == em_cost(w2.nodes[i].dv[d]) by {
        assert(node_wf(w, i));
        // no neighbor of i changed this round, so every advertisement i
        // reads kept its cost
        assert(!next_pending(w, i));
        assert forall|j: int| 0 <= j < w.nodes[i].nbrs.len() implies em_cost(
            w2.nodes[(#[trigger] w.nodes[i].nbrs[j]).0].dv[d],
        ) == em_cost(w.nodes[w.nodes[i].nbrs[j].0].dv[d]) by {
            let m = w.nodes[i].nbrs[j].0;
            assert(nbr_wf(w.nodes[i].nbrs[j], n, i));
            assert(!is_changed(w, m));
            if w.nodes[m].has_updates {
                assert(w2.nodes[m].dv[d] == relax_entry(w, m, d));
                assert(!crate::model::node_changes(w, m));
                assert(!crate::model::entry_changes(w, m, d));
            } else {
                assert(w2.nodes[m].dv[d] == w.nodes[m].dv[d]);
            }
        }
        lemma_relax_congruence(w, w2, i, d);
        // i itself was either relaxed to its own (settled) relaxation, or
        // kept its (settled) vector
        assert(em_cost(w2.nodes[i].dv[d]) == em_cost(relax_entry(w, i, d)));
    }
}

} // verus!

verus! {

/// Committed rounds preserve the topology, the invariants, and the
/// settledness of unrelaxed nodes.
proof fn lemma_after_rounds_props(w: WorldM, k: nat)
    requires
        wm_wf(w),
        bounded(w),
        np_settled(w),
    ensures
        wm_wf(after_rounds(w, k)),
        bounded(after_rounds(w, k)),
        np_settled(after_rounds(w, k)),
        after_rounds(w, k).nodes.len() == w.nodes.len(),
        after_rounds(w, k).bound == w.bound,
        forall|i: int|
            0 <= i < w.nodes.len() ==> (#[trigger] after_rounds(w, k).nodes[i]).nbrs
                == w.nodes[i].nbrs,
    decreases k,
{
    if k > 0 {
        lemma_after_rounds_props(w, (k - 1) as nat);
        let wp = after_rounds(w, (k - 1) as nat);
        lemma_commit_wf(wp);
        lemma_commit_bounded(wp);
        lemma_np_preserved(wp);
    }
}

/// The speed of convergence, from any well-formed, bounded world whose
/// unrelaxed nodes are settled and whose edges are acknowledged: after `k`
/// committed rounds, an entry's cost is at most the saturated weight of
/// any walk of at most `k + 1` edges from its node to its destination.
pub proof fn lemma_rounds_meet_walks(w: WorldM, k: nat, path: Seq<int>)
    requires
        wm_wf(w),
        bounded(w),
        np_settled(w),
        edge_seeded(w),
        walk_linked(w, path),
        1 <= path.len() <= k + 2,
    ensures
        cm_le(
            em_cost(after_rounds(w, k).nodes[path[0]].dv[path.last()]),
            CostM::Value(walk_weight_sat(w, path)),
        ),
    decreases k,
{
    let wk = after_rounds(w, k);
    let n = path[0];
    let d = path.last();
    lemma_after_rounds_props(w, k);
    assert(node_wf(wk, n));
    lemma_sws_bounds(w, path);
    if n == d {
        assert(wk.nodes[n].dv[n] == EntryM::SameNode);
    } else {
        let m = path[1];
        let x = nbr_lookup(w.nodes[n].nbrs, m)->Some_0;
        lemma_lookup_index(w.nodes[n].nbrs, m);
        let j = choose|j: int|
            0 <= j < w.nodes[n].nbrs.len() && (#[trigger] w.nodes[n].nbrs[j]).0 == m
                && nbr_lookup(w.nodes[n].nbrs, m) == Some(w.nodes[n].nbrs[j].1);
        assert(node_wf(w, n));
        assert(nbr_wf(w.nodes[n].nbrs[j], w.nodes.len() as int, n));
        assert(w.nodes[n].nbrs[j].1 <= w.bound);
        let tail = path.skip(1);
        assert(walk_linked(w, tail)) by {
            assert(forall|t: int| 0 <= t < tail.len() ==> tail[t] == path[t + 1]);
        }
        assert(walk_weight_sat(w, path) == sat_at(x + walk_weight_sat(w, tail), w.bound));
        lemma_sws_bounds(w, tail);
        if k == 0 {
            // a single edge: its acknowledgement is already in the vector
            assert(path.len() == 2);
            assert(m == d);
            assert(w.nodes[n].dv[d] == EntryM::Distance(x, d));
            assert(tail.len() == 1);
            assert(walk_weight_sat(w, tail) == 0);
        } else {
            let wp = after_rounds(w, (k - 1) as nat);
            assert(wk == commit(wp));
            lemma_after_rounds_props(w, (k - 1) as nat);
            lemma_rounds_meet_walks(w, (k - 1) as nat, tail);
            assert(tail[0] == m && tail.last() == d);
            lemma_commit_full_relax(wp);
            assert(em_cost(wk.nodes[n].dv[d]) == em_cost(relax_entry(wp, n, d)));
            // the walk's first edge is one of n's candidates
            assert(wp.nodes[n].nbrs == w.nodes[n].nbrs);
            let cands = cand_costs(wp, n, d);
            assert(cands[j] == cand_cost(wp, n, d, j));
            let target = CostM::Value(walk_weight_sat(w, path));
            assert(cm_le(cand_cost(wp, n, d, j), target)) by {
                if m == d {
                    assert(cand_cost(wp, n, d, j) == CostM::Value(x));
                } else {
                    assert(cand_cost(wp, n, d, j) == cm_add(
                        CostM::Value(x),
                        adv_cost(wp, m, d),
                        wp.bound,
                    ));
                    assert(cm_le(
                        em_cost(wp.nodes[m].dv[d]),
                        CostM::Value(walk_weight_sat(w, tail)),
                    ));
                    lemma_cm_add_mono(
                        x,
                        adv_cost(wp, m, d),
                        CostM::Value(walk_weight_sat(w, tail)),
                        wp.bound,
                    );
                }
            }
            // the relaxation takes the minimum over all candidates
            assert(w.nodes[n].nbrs.len() > 0);
            lemma_min_idx_bounds(cands);
            lemma_min_idx_min(cands);
            let win = min_idx(cands);
            lemma_em_to_entry(
                cand_cost(wp, n, d, win),
                wp.nodes[n].nbrs[win].0,
                wp.nodes[n].nbrs[win].0 == d,
            );
            assert(em_cost(relax_entry(wp, n, d)) == cands[win]);
            assert(cm_le(cands[win], cands[j]));
            lemma_cm_le_trans(cands[win], cands[j], target);
        }
    }
}

} // verus!

verus! {

/// Through every prefix of a valid batch on a fresh world: edges are
/// acknowledged, costs and weights stay within the weight type, every
/// recorded neighbor is an endpoint of the batch, untouched nodes keep
/// their fresh state, and both ends of every applied operation keep an
/// adjacency entry.
proof fn lemma_fresh_apply_state(
    names: Seq<Seq<char>>,
    bound: int,
    ops: Seq<(int, int, int)>,
    k: int,
)
    requires
        bound >= 0,
        0 <= k <= ops.len(),
        forall|t: int| 0 <= t < ops.len() ==> valid_op(names.len() as int, #[trigger] ops[t]),
        forall|t: int| 0 <= t < ops.len() ==> (#[trigger] ops[t]).2 <= bound,
    ensures
        ({
            let wk = apply_upto(fresh_world(names, bound), ops, k);
            &&& edge_seeded(wk)
            &&& bounded(wk)
            &&& forall|i: int, j: int|
                0 <= i < wk.nodes.len() && 0 <= j < wk.nodes[i].nbrs.len() ==> is_endpoint(
                    ops,
                    (#[trigger] wk.nodes[i].nbrs[j]).0,
                )
            &&& forall|i: int|
                0 <= i < wk.nodes.len() && !is_endpoint(ops, i) ==> (
                #[trigger] wk.nodes[i]).nbrs.len() == 0 && wk.nodes[i].dv == fresh_dv(
                    names.len() as int,
                    i,
                )
            &&& forall|t: int|
                0 <= t < k ==> nbr_lookup(
                    wk.nodes[(#[trigger] ops[t]).0].nbrs,
                    ops[t].1,
                ) is Some && nbr_lookup(wk.nodes[ops[t].1].nbrs, ops[t].0) is Some
        }),
    decreases k,
{
    let w0 = fresh_world(names, bound);
    lemma_fresh_world_wf(names, bound);
    let n = names.len() as int;
    if k == 0 {
        assert forall|i: int|
            0 <= i < w0.nodes.len() && !is_endpoint(ops, i) implies (
        #[trigger] w0.nodes[i]).nbrs.len() == 0 && w0.nodes[i].dv == fresh_dv(n, i) by {}
    } else {
        lemma_fresh_apply_state(names, bound, ops, k - 1);
        crate::world::lemma_apply_upto_props(w0, ops, k - 1);
        let wp = apply_upto(w0, ops, k - 1);
        let wk = apply_upto(w0, ops, k);
        let a = ops[k - 1].0;
        let b = ops[k - 1].1;
        let wt = ops[k - 1].2;
        assert(wk == crate::model::seed_one(wp, a, b, wt));
        assert(node_wf(wp, a));
        assert(node_wf(wp, b));
        let sa = wp.nodes[a].nbrs;
        let sb = wp.nodes[b].nbrs;
        assert forall|x: int| true implies nbr_lookup(crate::model::upsert_nbr(sa, b, wt), x) == (
        if x == b {
            Some(wt)
        } else {
            nbr_lookup(sa, x)
        }) by {
            crate::world::lemma_upsert_lookup(sa, b, wt, x);
        }
        assert forall|x: int| true implies nbr_lookup(crate::model::upsert_nbr(sb, a, wt), x) == (
        if x == a {
            Some(wt)
        } else {
            nbr_lookup(sb, x)
        }) by {
            crate::world::lemma_upsert_lookup(sb, a, wt, x);
        }
        crate::world::lemma_upsert_elems(sa, b, wt);
        crate::world::lemma_upsert_elems(sb, a, wt);
        // edge acknowledgement
        assert forall|i: int, d: int|
            0 <= i < n && 0 <= d < n && d != i && (#[trigger] nbr_lookup(
                wk.nodes[i].nbrs,
                d,
            )) is Some implies wk.nodes[i].dv[d] == EntryM::Distance(
            nbr_lookup(wk.nodes[i].nbrs, d)->Some_0,
            d,
        ) by {
            if i == a {
                if d != b {
                    assert(wk.nodes[i].dv[d] == wp.nodes[i].dv[d]);
                    assert(nbr_lookup(wp.nodes[i].nbrs, d) is Some);
                }
            } else if i == b {
                if d != a {
                    assert(wk.nodes[i].dv[d] == wp.nodes[i].dv[d]);
                    assert(nbr_lookup(wp.nodes[i].nbrs, d) is Some);
                }
            } else {
                assert(wk.nodes[i] == wp.nodes[i]);
                assert(nbr_lookup(wp.nodes[i].nbrs, d) is Some);
            }
        }
        // costs and weights stay bounded
        assert forall|i: int, d: int|
            0 <= i < n && 0 <= d < wk.nodes[i].dv.len() implies cm_bounded(
            em_cost(#[trigger] wk.nodes[i].dv[d]),
            wk.bound,
        ) by {
            if i == a && d == b {
            } else if i == b && d == a {
            } else if i == a || i == b {
                assert(wk.nodes[i].dv[d] == wp.nodes[i].dv[d]);
            } else {
                assert(wk.nodes[i] == wp.nodes[i]);
            }
        }
        assert forall|i: int, j: int|
            0 <= i < n && 0 <= j < wk.nodes[i].nbrs.len() implies (
        #[trigger] wk.nodes[i].nbrs[j]).1 <= wk.bound && is_endpoint(
            ops,
            wk.nodes[i].nbrs[j].0,
        ) by {
            if i == a || i == b {
                let other = if i == a {
                    b
                } else {
                    a
                };
                let s = if i == a {
                    sa
                } else {
                    sb
                };
                let e = wk.nodes[i].nbrs[j];
                if e == (other, wt) {
                    assert(is_endpoint(ops, other));
                } else {
                    let j1 = choose|t: int|
                        0 <= t < s.len() && (#[trigger] s[t]) == e && s[t].0 != other;
                    assert(wp.nodes[i].nbrs[j1] == e);
                }
            } else {
                assert(wk.nodes[i] == wp.nodes[i]);
            }
        }
        // untouched nodes stay fresh
        assert forall|i: int|
            0 <= i < n && !is_endpoint(ops, i) implies (#[trigger] wk.nodes[i]).nbrs.len() == 0
            && wk.nodes[i].dv == fresh_dv(n, i) by {
            assert(is_endpoint(ops, a));
            assert(is_endpoint(ops, b));
            assert(wk.nodes[i] == wp.nodes[i]);
        }
        // both ends of every applied operation keep an adjacency entry
        assert forall|t: int| 0 <= t < k implies nbr_lookup(
            wk.nodes[(#[trigger] ops[t]).0].nbrs,
            ops[t].1,
        ) is Some && nbr_lookup(wk.nodes[ops[t].1].nbrs, ops[t].0) is Some by {
            if t < k - 1 {
                assert(nbr_lookup(wp.nodes[ops[t].0].nbrs, ops[t].1) is Some);
                assert(nbr_lookup(wp.nodes[ops[t].1].nbrs, ops[t].0) is Some);
            }
        }
    }
}


} // verus!

verus! {

/// After constructing a world and applying one valid batch whose weights
/// the weight type can represent, every hypothesis of the convergence
/// laws holds: the world is well formed and bounded, every unrelaxed node
/// is settled, and every edge is acknowledged.
pub proof fn lemma_fresh_apply_ready(names: Seq<Seq<char>>, bound: int, ops: Seq<(int, int, int)>)
    requires
        bound >= 0,
        forall|t: int| 0 <= t < ops.len() ==> valid_op(names.len() as int, #[trigger] ops[t]),
        forall|t: int| 0 <= t < ops.len() ==> (#[trigger] ops[t]).2 <= bound,
    ensures
        ({
            let w0 = apply_ops(fresh_world(names, bound), ops);
            &&& wm_wf(w0)
            &&& bounded(w0)
            &&& np_settled(w0)
            &&& edge_seeded(w0)
        }),
{
    let n = names.len() as int;
    lemma_fresh_world_wf(names, bound);
    crate::world::lemma_apply_upto_props(fresh_world(names, bound), ops, ops.len() as int);
    lemma_fresh_apply_dominated(names, bound, ops);
    lemma_fresh_apply_state(names, bound, ops, ops.len() as int);
    let w1 = apply_upto(fresh_world(names, bound), ops, ops.len() as int);
    let w0 = apply_ops(fresh_world(names, bound), ops);
    assert(forall|i: int| 0 <= i < n ==> (#[trigger] w0.nodes[i]).dv == w1.nodes[i].dv);
    assert(forall|i: int| 0 <= i < n ==> (#[trigger] w0.nodes[i]).nbrs == w1.nodes[i].nbrs);
    assert forall|i: int, d: int|
        0 <= i < n && 0 <= d < n && d != i && (#[trigger] nbr_lookup(
            w0.nodes[i].nbrs,
            d,
        )) is Some implies w0.nodes[i].dv[d] == EntryM::Distance(
        nbr_lookup(w0.nodes[i].nbrs, d)->Some_0,
        d,
    ) by {
        assert(nbr_lookup(w1.nodes[i].nbrs, d) is Some);
    }
    assert forall|i: int, d: int|
        0 <= i < n && 0 <= d < w0.nodes[i].dv.len() implies cm_bounded(
        em_cost(#[trigger] w0.nodes[i].dv[d]),
        w0.bound,
    ) by {
        assert(cm_bounded(em_cost(w1.nodes[i].dv[d]), w1.bound));
    }
    assert forall|i: int, d: int|
        0 <= i < n && 0 <= d < n && !w0.nodes[i].has_updates implies em_cost(
        #[trigger] relax_entry(w0, i, d),
    ) == em_cost(w0.nodes[i].dv[d]) by {
        assert(!crate::model::pending_after(w1, ops, i));
        if w0.nodes[i].nbrs.len() > 0 {
            assert(is_endpoint(ops, w1.nodes[i].nbrs[0].0));
            assert(false);
        }
        if is_endpoint(ops, i) {
            let t = choose|t: int|
                0 <= t < ops.len() && ((#[trigger] ops[t]).0 == i || ops[t].1 == i);
            assert(nbr_lookup(w1.nodes[i].nbrs, if ops[t].0 == i {
                ops[t].1
            } else {
                ops[t].0
            }) is Some);
            assert(false);
        }
        assert(w0.nodes[i].dv == fresh_dv(n, i));
    }
}

/// Convergence speed over the standard lifecycle: construct a world,
/// apply one valid batch, run rounds. After `k` committed rounds, every
/// entry's cost is at most the saturated weight of any recorded walk of
/// at most `k + 1` edges from its node to its destination: each table
/// reaches every route's cost as soon as the route's length allows.
pub proof fn lemma_fresh_apply_rounds_meet_walks(
    names: Seq<Seq<char>>,
    bound: int,
    ops: Seq<(int, int, int)>,
    k: nat,
    path: Seq<int>,
)
    requires
        bound >= 0,
        forall|t: int| 0 <= t < ops.len() ==> valid_op(names.len() as int, #[trigger] ops[t]),
        forall|t: int| 0 <= t < ops.len() ==> (#[trigger] ops[t]).2 <= bound,
        walk_linked(apply_ops(fresh_world(names, bound), ops), path),
        1 <= path.len() <= k + 2,
    ensures
        ({
            let w0 = apply_ops(fresh_world(names, bound), ops);
            cm_le(
                em_cost(after_rounds(w0, k).nodes[path[0]].dv[path.last()]),
                CostM::Value(walk_weight_sat(w0, path)),
            )
        }),
{
    lemma_fresh_apply_ready(names, bound, ops);
    lemma_rounds_meet_walks(apply_ops(fresh_world(names, bound), ops), k, path);
}

} // verus!

// ---------------------------------------------------------------------------
// Soundness of the tables: every finite entry is the (saturated) weight of
// an actual recorded walk — no table ever claims a route that is not there.
// ---------------------------------------------------------------------------

verus! {

use crate::cost::sat_at;

/// The weight sum along `path` as the engine accumulates it: each edge
/// added in front of the already-saturated rest, saturating again.
pub open spec fn walk_weight_sat(w: WorldM, path: Seq<int>) -> int
    decreases path.len(),
{
    if path.len() <= 1 {
        0
    } else {
        sat_at(
            nbr_lookup(w.nodes[path[0]].nbrs, path[1])->Some_0 + walk_weight_sat(w, path.skip(1)),
            w.bound,
        )
    }
}

/// The entry of `n` for `d` is accounted for: unreachable, the node
/// itself, or the saturated weight of an actual recorded walk.
pub open spec fn entry_witnessed(w: WorldM, n: int, d: int) -> bool {
    match em_cost(w.nodes[n].dv[d]) {
        CostM::Infinity => true,
        CostM::Zero => true,
        CostM::Value(c) => exists|path: Seq<int>|
            #[trigger] walk_linked(w, path) && path.len() >= 2 && path[0] == n && path.last() == d
                && c == walk_weight_sat(w, path),
    }
}

/// Every entry of every node is accounted for.
pub open spec fn witnessed(w: WorldM) -> bool {
    forall|n: int, d: int|
        0 <= n < w.nodes.len() && 0 <= d < w.nodes.len() ==> #[trigger] entry_witnessed(w, n, d)
}

/// In a sorted adjacency list, looking an entry's own index up finds it.
proof fn lemma_lookup_of_sorted_index(s: Seq<(int, int)>, j: int)
    requires
        nbrs_sorted(s),
        0 <= j < s.len(),
    ensures
        nbr_lookup(s, s[j].0) == Some(s[j].1),
    decreases s.len(),
{
    if j > 0 {
        assert(s[0].0 < s[j].0);
        assert(nbrs_sorted(s.skip(1)));
        lemma_lookup_of_sorted_index(s.skip(1), j - 1);
        assert(s.skip(1)[j - 1] == s[j]);
    }
}

/// Walks read only the topology: two worlds with the same adjacency
/// lists and bound carry the same walks at the same weights.
proof fn lemma_walk_congruence(w1: WorldM, w2: WorldM, path: Seq<int>)
    requires
        w2.nodes.len() == w1.nodes.len(),
        w2.bound == w1.bound,
        forall|i: int|
            0 <= i < w1.nodes.len() ==> (#[trigger] w2.nodes[i]).nbrs == w1.nodes[i].nbrs,
    ensures
        walk_linked(w2, path) == walk_linked(w1, path),
        walk_linked(w1, path) ==> walk_weight_sat(w2, path) == walk_weight_sat(w1, path),
    decreases path.len(),
{
    if path.len() > 1 {
        lemma_walk_congruence(w1, w2, path.skip(1));
        if walk_linked(w1, path) {
            assert(walk_linked(w1, path.skip(1))) by {
                assert(forall|t: int|
                    0 <= t < path.skip(1).len() ==> path.skip(1)[t] == path[t + 1]);
            }
        }
        if walk_linked(w2, path) {
            assert(walk_linked(w2, path.skip(1))) by {
                assert(forall|t: int|
                    0 <= t < path.skip(1).len() ==> path.skip(1)[t] == path[t + 1]);
            }
        }
    }
}

} // verus!

verus! {

/// A world whose off-diagonal entries are all seeds or unreachable has
/// every entry accounted for: each seed is a one-edge walk.
#[verifier::rlimit(60)]
proof fn lemma_seeded_witnessed(w: WorldM)
    requires
        wm_wf(w),
        bounded(w),
        seeded(w),
    ensures
        witnessed(w),
{
    let n = w.nodes.len() as int;
    assert forall|i: int, d: int| 0 <= i < n && 0 <= d < n implies #[trigger] entry_witnessed(
        w,
        i,
        d,
    ) by {
        assert(node_wf(w, i));
        if d != i {
            match w.nodes[i].dv[d] {
                EntryM::Distance(x, via) => {
                    let p = seq![i, d];
                    assert(p.skip(1) =~= seq![d]);
                    assert(walk_linked(w, p));
                    assert(x <= w.bound) by {
                        assert(cm_bounded(em_cost(w.nodes[i].dv[d]), w.bound));
                    }
                    assert(walk_weight_sat(w, p.skip(1)) == 0);
                    assert(walk_weight_sat(w, p) == sat_at(x + 0, w.bound));
                    assert(walk_weight_sat(w, p) == x);
                    assert(p.last() == d);
                },
                _ => {},
            }
        }
    }
}

/// A committed round keeps every entry accounted for: a relaxed entry's
/// winning candidate extends a neighbor's witnessing walk by one edge.
#[verifier::rlimit(60)]
proof fn lemma_commit_witnessed(w: WorldM)
    requires
        wm_wf(w),
        bounded(w),
        witnessed(w),
    ensures
        witnessed(commit(w)),
{
    let n = w.nodes.len() as int;
    let w2 = commit(w);
    assert forall|i: int, d: int| 0 <= i < n && 0 <= d < n implies #[trigger] entry_witnessed(
        w2,
        i,
        d,
    ) by {
        assert(node_wf(w, i));
        if w.nodes[i].has_updates && d != i && w.nodes[i].nbrs.len() > 0 {
            assert(w2.nodes[i].dv[d] == relax_entry(w, i, d));
            let cands = cand_costs(w, i, d);
            lemma_min_idx_bounds(cands);
            let win = min_idx(cands);
            let e = w.nodes[i].nbrs[win];
            assert(nbr_wf(e, n, i));
            lemma_em_to_entry(cand_cost(w, i, d, win), e.0, e.0 == d);
            lemma_lookup_of_sorted_index(w.nodes[i].nbrs, win);
            match cand_cost(w, i, d, win) {
                CostM::Value(c) => {
                    if e.0 == d {
                        // the direct-edge candidate is a one-edge walk
                        let p = seq![i, d];
                        assert(p.skip(1) =~= seq![d]);
                        assert(walk_linked(w, p));
                        assert(c == e.1);
                        assert(e.1 <= w.bound);
                        assert(walk_weight_sat(w, p.skip(1)) == 0);
                        assert(walk_weight_sat(w, p) == sat_at(e.1 + 0, w.bound));
                        assert(walk_weight_sat(w, p) == c);
                        assert(walk_linked(w2, p) && walk_weight_sat(w2, p)
                            == walk_weight_sat(w, p)) by {
                            lemma_walk_congruence(w, w2, p);
                        }
                        assert(entry_witnessed(w2, i, d));
                    } else {
                        // an indirect candidate extends the neighbor's walk
                        let m = e.0;
                        assert(entry_witnessed(w, m, d));
                        match em_cost(w.nodes[m].dv[d]) {
                            CostM::Infinity => {
                                assert(false);
                            },
                            CostM::Zero => {
                                // only the self-entry costs zero, and the
                                // neighbor is not the destination here
                                assert(node_wf(w, m));
                                assert(crate::model::entry_wf(w.nodes[m].dv[d], n, d, m));
                                assert(false);
                            },
                            CostM::Value(c2) => {
                                let p2 = choose|path: Seq<int>|
                                    #[trigger] walk_linked(w, path) && path.len() >= 2 && path[0]
                                        == m && path.last() == d && c2 == walk_weight_sat(w, path);
                                let p = seq![i] + p2;
                                assert(p.skip(1) =~= p2);
                                assert(p[0] == i && p.last() == d && p.len() >= 2);
                                assert(walk_linked(w, p)) by {
                                    assert(forall|t: int|
                                        1 <= t < p.len() ==> p[t] == p2[t - 1]);
                                    assert(p[1] == m);
                                }
                                assert(walk_weight_sat(w, p) == sat_at(e.1 + c2, w.bound));
                                assert(c == sat_at(e.1 + c2, w.bound));
                                assert(walk_linked(w2, p) && walk_weight_sat(w2, p)
                                    == walk_weight_sat(w, p)) by {
                                    lemma_walk_congruence(w, w2, p);
                                }
                                assert(entry_witnessed(w2, i, d));
                            },
                        }
                    }
                },
                _ => {},
            }
        } else {
            // an unrelaxed entry keeps its witness; the diagonal and the
            // no-neighbor case cost `Zero` or `Infinity`
            if w.nodes[i].has_updates {
                assert(w2.nodes[i].dv[d] == relax_entry(w, i, d));
            } else {
                assert(w2.nodes[i].dv[d] == w.nodes[i].dv[d]);
                assert(entry_witnessed(w, i, d));
                match em_cost(w.nodes[i].dv[d]) {
                    CostM::Value(c) => {
                        let p2 = choose|path: Seq<int>|
                            #[trigger] walk_linked(w, path) && path.len() >= 2 && path[0] == i
                                && path.last() == d && c == walk_weight_sat(w, path);
                        assert(walk_linked(w2, p2) && walk_weight_sat(w2, p2) == walk_weight_sat(
                            w,
                            p2,
                        )) by {
                            lemma_walk_congruence(w, w2, p2);
                        }
                        assert(entry_witnessed(w2, i, d));
                    },
                    _ => {},
                }
            }
        }
    }
}

} // verus!

verus! {

/// Soundness of the tables over the standard lifecycle: construct a
/// world, apply one valid batch, run any number of committed rounds. No
/// table ever claims a route that is not there: every finite entry's cost
/// is the saturated weight of an actual recorded walk from its node to
/// its destination.
pub proof fn lemma_fresh_apply_entries_witnessed(
    names: Seq<Seq<char>>,
    bound: int,
    ops: Seq<(int, int, int)>,
    k: nat,
)
    requires
        bound >= 0,
        forall|t: int| 0 <= t < ops.len() ==> valid_op(names.len() as int, #[trigger] ops[t]),
        forall|t: int| 0 <= t < ops.len() ==> (#[trigger] ops[t]).2 <= bound,
    ensures
        witnessed(after_rounds(apply_ops(fresh_world(names, bound), ops), k)),
    decreases k,
{
    let w0 = apply_ops(fresh_world(names, bound), ops);
    lemma_fresh_apply_ready(names, bound, ops);
    if k == 0 {
        lemma_fresh_world_wf(names, bound);
        crate::world::lemma_apply_upto_props(fresh_world(names, bound), ops, ops.len() as int);
        let wf0 = fresh_world(names, bound);
        assert forall|i: int, d: int|
            0 <= i < wf0.nodes.len() && 0 <= d < wf0.nodes.len() && d != i implies match #[trigger] wf0.nodes[i].dv[d] {
            EntryM::Infinity => true,
            EntryM::Distance(x, via) => via == d && nbr_lookup(wf0.nodes[i].nbrs, d) == Some(x),
            _ => false,
        } by {
            assert(wf0.nodes[i].dv[d] == fresh_dv(names.len() as int, i)[d]);
        }
        lemma_apply_upto_seeded(wf0, ops, ops.len() as int);
        let w1 = apply_upto(wf0, ops, ops.len() as int);
        assert forall|i: int, d: int|
            0 <= i < w0.nodes.len() && 0 <= d < w0.nodes.len() && d != i implies match #[trigger] w0.nodes[i].dv[d] {
            EntryM::Infinity => true,
            EntryM::Distance(x, via) => via == d && nbr_lookup(w0.nodes[i].nbrs, d) == Some(x),
            _ => false,
        } by {
            assert(w0.nodes[i].dv[d] == w1.nodes[i].dv[d]);
            assert(w0.nodes[i].nbrs == w1.nodes[i].nbrs);
        }
        lemma_seeded_witnessed(w0);
    } else {
        lemma_fresh_apply_entries_witnessed(names, bound, ops, (k - 1) as nat);
        lemma_after_rounds_props(w0, (k - 1) as nat);
        lemma_commit_witnessed(after_rounds(w0, (k - 1) as nat));
    }
}

} // verus!

verus! {

/// A walk's saturated weight is non-negative and within the weight type.
proof fn lemma_sws_bounds(w: WorldM, path: Seq<int>)
    requires
        wm_wf(w),
        walk_linked(w, path),
    ensures
        0 <= walk_weight_sat(w, path) <= w.bound,
    decreases path.len(),
{
    if path.len() > 1 {
        let s0 = w.nodes[path[0]].nbrs;
        lemma_lookup_index(s0, path[1]);
        let j = choose|j: int|
            0 <= j < s0.len() && (#[trigger] s0[j]).0 == path[1] && nbr_lookup(s0, path[1])
                == Some(s0[j].1);
        assert(node_wf(w, path[0]));
        assert(nbr_wf(s0[j], w.nodes.len() as int, path[0]));
        assert(walk_linked(w, path.skip(1))) by {
            assert(forall|t: int|
                0 <= t < path.skip(1).len() ==> path.skip(1)[t] == path[t + 1]);
        }
        lemma_sws_bounds(w, path.skip(1));
    }
}

} // verus!

verus! {

use vstd::seq_lib::*;
use vstd::set_lib::lemma_len_subset;
use vstd::set_lib::lemma_int_range;
use vstd::set_lib::set_int_range;

/// Pigeonhole: more entries than values forces a repeat.
proof fn lemma_seq_repeat(s: Seq<int>, v: int)
    requires
        v >= 0,
        s.len() > v,
        forall|t: int| 0 <= t < s.len() ==> 0 <= #[trigger] s[t] < v,
    ensures
        exists|i: int, j: int| 0 <= i < j < s.len() && s[i] == s[j],
{
    if !(exists|i: int, j: int| 0 <= i < j < s.len() && s[i] == s[j]) {
        assert(s.no_duplicates()) by {
            assert forall|i: int, j: int|
                0 <= i < s.len() && 0 <= j < s.len() && i != j implies s[i] != s[j] by {
                if s[i] == s[j] {
                    if i < j {
                        assert(0 <= i < j < s.len() && s[i] == s[j]);
                    } else {
                        assert(0 <= j < i < s.len() && s[j] == s[i]);
                    }
                }
            }
        }
        s.unique_seq_to_set();
        lemma_int_range(0, v);
        assert(s.to_set().subset_of(set_int_range(0, v))) by {
            assert forall|x: int| s.to_set().contains(x) implies set_int_range(0, v).contains(
                x,
            ) by {
                let t = choose|t: int| 0 <= t < s.len() && s[t] == x;
            }
        }
        lemma_len_subset(s.to_set(), set_int_range(0, v));
        assert(false);
    }
}

/// Dropping a walk's first `i` steps keeps it linked and does not raise
/// its saturated weight.
proof fn lemma_sws_suffix(w: WorldM, path: Seq<int>, i: int)
    requires
        wm_wf(w),
        walk_linked(w, path),
        0 <= i < path.len(),
    ensures
        walk_linked(w, path.skip(i)),
        walk_weight_sat(w, path.skip(i)) <= walk_weight_sat(w, path),
    decreases i,
{
    if i == 0 {
        assert(path.skip(0) =~= path);
    } else {
        let tail = path.skip(1);
        assert(walk_linked(w, tail)) by {
            assert(forall|t: int| 0 <= t < tail.len() ==> tail[t] == path[t + 1]);
        }
        lemma_sws_suffix(w, tail, i - 1);
        assert(path.skip(i) =~= tail.skip(i - 1));
        // one more saturated edge in front can only raise the weight
        let s0 = w.nodes[path[0]].nbrs;
        lemma_lookup_index(s0, path[1]);
        let j = choose|j: int|
            0 <= j < s0.len() && (#[trigger] s0[j]).0 == path[1] && nbr_lookup(s0, path[1])
                == Some(s0[j].1);
        assert(node_wf(w, path[0]));
        assert(nbr_wf(s0[j], w.nodes.len() as int, path[0]));
        lemma_sws_bounds(w, tail);
        assert(walk_weight_sat(w, tail) <= walk_weight_sat(w, path));
    }
}

/// Cutting the piece between two visits of the same node keeps a walk
/// linked, keeps its ends, shortens it, and does not raise its saturated
/// weight.
proof fn lemma_sws_splice(w: WorldM, path: Seq<int>, i: int, j: int)
    requires
        wm_wf(w),
        walk_linked(w, path),
        0 <= i < j < path.len(),
        path[i] == path[j],
    ensures
        ({
            let q = path.take(i) + path.skip(j);
            &&& walk_linked(w, q)
            &&& q.len() == path.len() - (j - i)
            &&& q[0] == path[0]
            &&& q.last() == path.last()
            &&& walk_weight_sat(w, q) <= walk_weight_sat(w, path)
        }),
    decreases i,
{
    let q = path.take(i) + path.skip(j);
    if i == 0 {
        assert(q =~= path.skip(j));
        lemma_sws_suffix(w, path, j);
    } else {
        let tail = path.skip(1);
        assert(walk_linked(w, tail)) by {
            assert(forall|t: int| 0 <= t < tail.len() ==> tail[t] == path[t + 1]);
        }
        lemma_sws_splice(w, tail, i - 1, j - 1);
        let q1 = tail.take(i - 1) + tail.skip(j - 1);
        assert(q =~= seq![path[0]] + q1);
        assert(q.skip(1) =~= q1);
        assert(q[1] == q1[0]);
        assert(q1[0] == tail[i - 1] || q1[0] == tail[j - 1] || true);
        // the first edge of q is the first edge of path
        assert(q[0] == path[0]);
        assert(q[1] == path[1]) by {
            if i - 1 > 0 {
                assert(q1[0] == tail.take(i - 1)[0]);
                assert(tail.take(i - 1)[0] == tail[0]);
            } else {
                assert(q1 =~= tail.skip(j - 1));
                assert(q1[0] == tail[j - 1]);
                assert(tail[j - 1] == path[j]);
                assert(path[j] == path[i]);
                assert(path[i] == path[1]);
            }
        }
        assert(walk_linked(w, q)) by {
            assert(forall|t: int| 1 <= t < q.len() ==> q[t] == q1[t - 1]);
        }
        // saturated weights: same first edge, lower rest
        let s0 = w.nodes[path[0]].nbrs;
        lemma_lookup_index(s0, path[1]);
        let jj = choose|t: int|
            0 <= t < s0.len() && (#[trigger] s0[t]).0 == path[1] && nbr_lookup(s0, path[1])
                == Some(s0[t].1);
        assert(node_wf(w, path[0]));
        assert(nbr_wf(s0[jj], w.nodes.len() as int, path[0]));
        lemma_sws_bounds(w, q1);
        lemma_sws_bounds(w, tail);
        assert(walk_weight_sat(w, q) == sat_at(
            nbr_lookup(s0, path[1])->Some_0 + walk_weight_sat(w, q1),
            w.bound,
        ));
        assert(walk_weight_sat(w, path) == sat_at(
            nbr_lookup(s0, path[1])->Some_0 + walk_weight_sat(w, tail),
            w.bound,
        ));
    }
}

/// Every walk is matched, end to end, by one visiting at most as many
/// nodes as the world has, at no greater saturated weight.
proof fn lemma_walk_shorten(w: WorldM, path: Seq<int>)
    requires
        wm_wf(w),
        walk_linked(w, path),
        path.len() >= 1,
    ensures
        exists|q: Seq<int>|
            #[trigger] walk_linked(w, q) && 1 <= q.len() <= w.nodes.len() && q[0] == path[0]
                && q.last() == path.last() && walk_weight_sat(w, q) <= walk_weight_sat(w, path),
    decreases path.len(),
{
    let v = w.nodes.len() as int;
    if path.len() <= v {
        assert(walk_linked(w, path) && 1 <= path.len() <= w.nodes.len() && path[0] == path[0]
            && path.last() == path.last() && walk_weight_sat(w, path) <= walk_weight_sat(w, path));
    } else {
        lemma_seq_repeat(path, v);
        let (i, j) = choose|i: int, j: int| 0 <= i < j < path.len() && path[i] == path[j];
        lemma_sws_splice(w, path, i, j);
        let q1 = path.take(i) + path.skip(j);
        lemma_walk_shorten(w, q1);
        let q = choose|q: Seq<int>|
            #[trigger] walk_linked(w, q) && 1 <= q.len() <= w.nodes.len() && q[0] == q1[0]
                && q.last() == q1.last() && walk_weight_sat(w, q) <= walk_weight_sat(w, q1);
        assert(walk_linked(w, q) && 1 <= q.len() <= w.nodes.len() && q[0] == path[0] && q.last()
            == path.last() && walk_weight_sat(w, q) <= walk_weight_sat(w, path));
    }
}

} // verus!

verus! {

/// Committed rounds keep costs moving downward.
proof fn lemma_after_rounds_dominated(w: WorldM, k: nat)
    requires
        wm_wf(w),
        bounded(w),
        dominated(w),
    ensures
        dominated(after_rounds(w, k)),
    decreases k,
{
    if k > 0 {
        lemma_after_rounds_dominated(w, (k - 1) as nat);
        let wp = after_rounds(w, (k - 1) as nat);
        assert(wm_wf(wp) && bounded(wp)) by {
            lemma_after_rounds_dominated_props(w, (k - 1) as nat);
        }
        lemma_round_nonincreasing(wp);
    }
}

/// The invariants the monotonicity law carries along.
proof fn lemma_after_rounds_dominated_props(w: WorldM, k: nat)
    requires
        wm_wf(w),
        bounded(w),
        dominated(w),
    ensures
        wm_wf(after_rounds(w, k)),
        bounded(after_rounds(w, k)),
        dominated(after_rounds(w, k)),
    decreases k,
{
    if k > 0 {
        lemma_after_rounds_dominated_props(w, (k - 1) as nat);
        lemma_round_nonincreasing(after_rounds(w, (k - 1) as nat));
    }
}

/// Termination of convergence, within the classical bound: from the
/// standard lifecycle — construct a world of V nodes, apply one valid
/// batch — the world reached after max(V-2, 0) committed rounds is
/// stable: one further round changes no cost, so convergence completes
/// within at most V-1 rounds.
#[verifier::rlimit(80)]
pub proof fn lemma_fresh_apply_stable(names: Seq<Seq<char>>, bound: int, ops: Seq<(int, int, int)>)
    requires
        bound >= 0,
        forall|t: int| 0 <= t < ops.len() ==> valid_op(names.len() as int, #[trigger] ops[t]),
        forall|t: int| 0 <= t < ops.len() ==> (#[trigger] ops[t]).2 <= bound,
    ensures
        ({
            let w0 = apply_ops(fresh_world(names, bound), ops);
            let v = w0.nodes.len() as int;
            round_stable(
                after_rounds(
                    w0,
                    (if v >= 2 {
                        v - 2
                    } else {
                        0
                    }) as nat,
                ),
            )
        }),
{
    let w0 = apply_ops(fresh_world(names, bound), ops);
    let v = w0.nodes.len() as int;
    let k = (if v >= 2 {
        v - 2
    } else {
        0
    }) as nat;
    lemma_fresh_apply_ready(names, bound, ops);
    lemma_fresh_apply_dominated(names, bound, ops);
    lemma_after_rounds_props(w0, k);
    lemma_after_rounds_dominated(w0, k);
    lemma_fresh_apply_entries_witnessed(names, bound, ops, k);
    let wk = after_rounds(w0, k);
    assert forall|n: int| 0 <= n < wk.nodes.len() implies !is_changed(wk, n) by {
        if wk.nodes[n].has_updates {
            assert forall|d: int|
                0 <= d < wk.nodes.len() implies !crate::model::entry_changes(wk, n, d) by {
                assert(node_wf(wk, n));
                assert(cm_le(em_cost(relax_entry(wk, n, d)), em_cost(wk.nodes[n].dv[d])));
                if d == n {
                } else if wk.nodes[n].nbrs.len() == 0 {
                    assert(relax_entry(wk, n, d) == EntryM::Infinity);
                    assert(em_cost(wk.nodes[n].dv[d]) == CostM::Infinity);
                } else {
                    assert(v >= 2);
                    let cands = cand_costs(wk, n, d);
                    lemma_min_idx_bounds(cands);
                    let win = min_idx(cands);
                    let e = wk.nodes[n].nbrs[win];
                    assert(nbr_wf(e, v, n));
                    lemma_em_to_entry(cand_cost(wk, n, d, win), e.0, e.0 == d);
                    assert(em_cost(relax_entry(wk, n, d)) == cands[win]);
                    lemma_lookup_of_sorted_index(wk.nodes[n].nbrs, win);
                    let m = e.0;
                    let wt = e.1;
                    assert(wt <= wk.bound) by {
                        assert(bounded(wk));
                    }
                    assert(wt >= 0);
                    if m == d {
                        // the winning candidate is the direct edge: a
                        // one-edge walk already bounds the entry
                        let p = seq![n, d];
                        assert(p.skip(1) =~= seq![d]);
                        assert(walk_linked(wk, p));
                        assert(walk_weight_sat(wk, p.skip(1)) == 0);
                        assert(walk_weight_sat(wk, p) == sat_at(wt + 0, wk.bound));
                        assert(walk_weight_sat(wk, p) == wt);
                        lemma_walk_congruence(w0, wk, p);
                        assert(p.len() <= k + 2);
                        lemma_rounds_meet_walks(w0, k, p);
                        assert(cm_le(em_cost(wk.nodes[n].dv[d]), cands[win]));
                    } else {
                        match adv_cost(wk, m, d) {
                            CostM::Infinity => {
                                assert(cands[win] == CostM::Infinity);
                                assert(cm_le(em_cost(wk.nodes[n].dv[d]), cands[win]));
                            },
                            CostM::Zero => {
                                assert(node_wf(wk, m));
                                assert(crate::model::entry_wf(wk.nodes[m].dv[d], v, d, m));
                                assert(false);
                            },
                            CostM::Value(c2) => {
                                assert(entry_witnessed(wk, m, d));
                                let p2 = choose|path: Seq<int>|
                                    #[trigger] walk_linked(wk, path) && path.len() >= 2 && path[0]
                                        == m && path.last() == d && c2 == walk_weight_sat(
                                        wk,
                                        path,
                                    );
                                let p = seq![n] + p2;
                                assert(p.skip(1) =~= p2);
                                assert(p[0] == n && p[1] == m && p.last() == d);
                                assert(walk_linked(wk, p)) by {
                                    assert(forall|t: int| 1 <= t < p.len() ==> p[t] == p2[t - 1]);
                                }
                                assert(walk_weight_sat(wk, p) == sat_at(wt + c2, wk.bound));
                                assert(cands[win] == CostM::Value(sat_at(wt + c2, wk.bound)));
                                lemma_walk_shorten(wk, p);
                                let q = choose|q: Seq<int>|
                                    #[trigger] walk_linked(wk, q) && 1 <= q.len() <= wk.nodes.len()
                                        && q[0] == p[0] && q.last() == p.last()
                                        && walk_weight_sat(wk, q) <= walk_weight_sat(wk, p);
                                lemma_walk_congruence(w0, wk, q);
                                assert(q.len() <= k + 2);
                                lemma_rounds_meet_walks(w0, k, q);
                                assert(cm_le(
                                    em_cost(wk.nodes[n].dv[d]),
                                    CostM::Value(walk_weight_sat(wk, q)),
                                ));
                                assert(cm_le(em_cost(wk.nodes[n].dv[d]), cands[win]));
                            },
                        }
                    }
                    assert(em_cost(relax_entry(wk, n, d)) == em_cost(wk.nodes[n].dv[d]));
                }
            }
        }
    }
}

} // verus!

verus! {

/// Rounds compose: a round committed first is one more round after.
proof fn lemma_after_rounds_shift(w: WorldM, j: nat)
    ensures
        after_rounds(commit(w), j) == after_rounds(w, (j + 1) as nat),
    decreases j,
{
    if j == 0 {
        assert(after_rounds(commit(w), 0) == commit(w));
        assert(after_rounds(w, 1) == commit(after_rounds(w, 0)));
    } else {
        lemma_after_rounds_shift(w, (j - 1) as nat);
        assert(after_rounds(commit(w), j) == commit(after_rounds(commit(w), (j - 1) as nat)));
        assert(after_rounds(w, (j + 1) as nat) == commit(after_rounds(w, j)));
    }
}

/// A world that is stable after `k` rounds converges under any round
/// budget of at least `k`.
proof fn lemma_stable_by_round_runs(w: WorldM, k: nat, fuel: nat)
    requires
        round_stable(after_rounds(w, k)),
        fuel >= k,
    ensures
        run_spec(w, fuel) is Some,
    decreases k,
{
    if !round_stable(w) {
        assert(k != 0);
        lemma_after_rounds_shift(w, (k - 1) as nat);
        lemma_stable_by_round_runs(commit(w), (k - 1) as nat, (fuel - 1) as nat);
    }
}

/// Termination: for V nodes and non-negative weights, convergence from
/// the standard lifecycle — construct, apply one valid batch, run —
/// completes within at most V-1 rounds: any budget of at least
/// max(V-2, 0) changed rounds suffices.
pub proof fn lemma_fresh_apply_converges(
    names: Seq<Seq<char>>,
    bound: int,
    ops: Seq<(int, int, int)>,
    fuel: nat,
)
    requires
        bound >= 0,
        forall|t: int| 0 <= t < ops.len() ==> valid_op(names.len() as int, #[trigger] ops[t]),
        forall|t: int| 0 <= t < ops.len() ==> (#[trigger] ops[t]).2 <= bound,
        fuel + 2 >= names.len(),
    ensures
        run_spec(apply_ops(fresh_world(names, bound), ops), fuel) is Some,
{
    let w0 = apply_ops(fresh_world(names, bound), ops);
    lemma_fresh_world_wf(names, bound);
    crate::world::lemma_apply_upto_props(fresh_world(names, bound), ops, ops.len() as int);
    assert(w0.nodes.len() == names.len());
    lemma_fresh_apply_stable(names, bound, ops);
    let v = w0.nodes.len() as int;
    let k = (if v >= 2 {
        v - 2
    } else {
        0
    }) as nat;
    lemma_stable_by_round_runs(w0, k, fuel);
}

} // verus!

verus! {

use crate::model::seed_node;
use crate::model::upsert_nbr;

/// An adjacency list that already records `m` at weight `wt` is unchanged
/// by the upsert.
proof fn lemma_upsert_identical(s: Seq<(int, int)>, m: int, wt: int)
    requires
        nbrs_sorted(s),
        nbr_lookup(s, m) == Some(wt),
    ensures
        upsert_nbr(s, m, wt) == s,
    decreases s.len(),
{
    if s.len() == 0 {
        assert(false);
    } else if s[0].0 == m {
        assert(s[0].1 == wt);
        assert(upsert_nbr(s, m, wt) =~= s);
    } else if s[0].0 > m {
        assert forall|j: int| 0 <= j < s.len() implies (#[trigger] s[j]).0 != m by {
            if j > 0 {
                assert(s[0].0 < s[j].0);
            }
        }
        crate::world::lemma_lookup_scan(s, m, s.len() as int);
        assert(false);
    } else {
        let s1 = s.subrange(1, s.len() as int);
        assert(nbrs_sorted(s1));
        assert(nbr_lookup(s1, m) == Some(wt)) by {
            assert(s.skip(1) =~= s1);
        }
        lemma_upsert_identical(s1, m, wt);
        assert(upsert_nbr(s, m, wt) =~= s);
    }
}

/// Every prefix of an identical-weight batch leaves every node untouched.
proof fn lemma_reapply_upto(w: WorldM, ops: Seq<(int, int, int)>, k: int)
    requires
        wm_wf(w),
        0 <= k <= ops.len(),
        forall|t: int| 0 <= t < ops.len() ==> valid_op(w.nodes.len() as int, #[trigger] ops[t]),
        forall|t: int|
            0 <= t < ops.len() ==> nbr_lookup(
                w.nodes[(#[trigger] ops[t]).0].nbrs,
                ops[t].1,
            ) == Some(ops[t].2),
    ensures
        apply_upto(w, ops, k).nodes == w.nodes,
    decreases k,
{
    if k > 0 {
        lemma_reapply_upto(w, ops, k - 1);
        let wp = apply_upto(w, ops, k - 1);
        let a = ops[k - 1].0;
        let b = ops[k - 1].1;
        let wt = ops[k - 1].2;
        assert(valid_op(w.nodes.len() as int, ops[k - 1]));
        assert(node_wf(w, a));
        assert(node_wf(w, b));
        // the reverse lookup carries the same weight, by symmetry
        lemma_lookup_index(w.nodes[a].nbrs, b);
        let j = choose|j: int|
            0 <= j < w.nodes[a].nbrs.len() && (#[trigger] w.nodes[a].nbrs[j]).0 == b
                && nbr_lookup(w.nodes[a].nbrs, b) == Some(w.nodes[a].nbrs[j].1);
        assert(w.nodes[a].nbrs[j].1 == wt);
        assert(nbr_lookup(w.nodes[b].nbrs, a) == Some(wt));
        lemma_upsert_identical(w.nodes[a].nbrs, b, wt);
        lemma_upsert_identical(w.nodes[b].nbrs, a, wt);
        assert(seed_node(wp.nodes[a], b, wt) =~= wp.nodes[a]);
        assert(seed_node(wp.nodes[b], a, wt) =~= wp.nodes[b]);
        assert(seed_one(wp, a, b, wt).nodes =~= wp.nodes);
    }
}

/// Reapplying operations whose weights are already recorded is a no-op on
/// vectors and on the edge relation: every node keeps its exact vector
/// and adjacency list; only the pending marks are recomputed.
pub proof fn lemma_reapply_identical_no_op(w: WorldM, ops: Seq<(int, int, int)>)
    requires
        wm_wf(w),
        forall|t: int| 0 <= t < ops.len() ==> valid_op(w.nodes.len() as int, #[trigger] ops[t]),
        forall|t: int|
            0 <= t < ops.len() ==> nbr_lookup(
                w.nodes[(#[trigger] ops[t]).0].nbrs,
                ops[t].1,
            ) == Some(ops[t].2),
    ensures
        forall|i: int|
            0 <= i < w.nodes.len() ==> (#[trigger] apply_ops(w, ops).nodes[i]).dv
                == w.nodes[i].dv,
        forall|i: int|
            0 <= i < w.nodes.len() ==> (#[trigger] apply_ops(w, ops).nodes[i]).nbrs
                == w.nodes[i].nbrs,
        apply_ops(w, ops).generation == w.generation,
{
    lemma_reapply_upto(w, ops, ops.len() as int);
    crate::world::lemma_apply_upto_props(w, ops, ops.len() as int);
}

} // verus!
