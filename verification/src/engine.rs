//! The relaxation engine and the convergence loop.
//!
//! `run_simulation` computes one synchronous round: every pending node
//! relaxes every destination against the frozen pre-round snapshot of its
//! neighbors' vectors, and one explanation line is recorded per relaxed,
//! non-self destination. `run_until_stable` repeats rounds until a round
//! changes no cost, within an explicit bound on the number of rounds.

use vstd::prelude::*;

use crate::cost::DVValue;
use crate::cost::Weight;
use crate::laws::lemma_commit_wf;
use crate::model::WorldM;
use crate::model::cand_costs;
use crate::model::cand_tuple;
use crate::model::commit;
use crate::model::dest_of;
use crate::model::entry_changes;
use crate::model::formula_m;
use crate::model::formula_sums;
use crate::model::is_changed;
use crate::model::lemma_min_idx_bounds;
use crate::model::nbr_wf;
use crate::model::node_changes;
use crate::model::node_formulas;
use crate::model::node_wf;
use crate::model::relax_dv;
use crate::model::relax_entry;
use crate::model::round_stable;
use crate::model::run_spec;
use crate::model::trace_of;
use crate::model::trace_upto;
use crate::repr::HtmlFormula;
use crate::repr::formula_nonneg;
use crate::repr::formulas_view;
use crate::world::Node;
use crate::world::World;
use crate::world::copy_dv;
use crate::world::copy_neighbors;
use crate::world::dv_view;

verus! {

/// The outcome of one synchronous round: a new world whose generation
/// advanced because at least one node's vector cost changed, or no change
/// at all — the fixed point.
pub enum NewState<W: Weight> {
    Changed(World<W>),
    NotChanged,
}

impl<W: Weight> World<W> {
    /// One node's full relaxation: its recomputed vector, one explanation
    /// line per non-self destination, and whether any entry's cost changed.
    fn relax_node(&self, i: usize) -> (res: (Vec<DVValue<W>>, Vec<HtmlFormula<W>>, bool))
        requires
            self.wf(),
            i < self.nodes@.len(),
        ensures
            dv_view(res.0@) == relax_dv(self@, i as int),
            formulas_view(res.1@) == Seq::new(
                (self.nodes@.len() - 1) as nat,
                |j: int| formula_m(self@, i as int, dest_of(i as int, j)),
            ),
            res.2 == node_changes(self@, i as int),
    {
        let n = self.nodes.len();
        let mut new_dv: Vec<DVValue<W>> = Vec::new();
        let mut formulas: Vec<HtmlFormula<W>> = Vec::new();
        let mut changed: bool = false;
        let mut d: usize = 0;
        proof {
            assert(node_wf(self@, i as int));
        }
        while d < n
            invariant
                d <= n,
                n == self.nodes@.len(),
                i < n,
                self.wf(),
                new_dv@.len() == d,
                forall|j: int| 0 <= j < d ==> #[trigger] new_dv@[j]@ == relax_entry(self@, i as int, j),
                formulas@.len() == (if d <= i { d as int } else { d - 1 }),
                forall|j: int|
                    0 <= j < formulas@.len() ==> #[trigger] formulas@[j]@ == formula_m(
                        self@,
                        i as int,
                        dest_of(i as int, j),
                    ),
                changed == exists|dd: int|
                    0 <= dd < d && #[trigger] entry_changes(self@, i as int, dd),
            decreases n - d,
        {
            if d == i {
                new_dv.push(DVValue::SameNode);
                proof {
                    assert(node_wf(self@, i as int));
                    assert(self@.nodes[i as int].dv[d as int] == crate::cost::EntryM::SameNode);
                    assert(!entry_changes(self@, i as int, d as int));
                    assert forall|dd: int|
                        0 <= dd < d + 1 && #[trigger] entry_changes(self@, i as int, dd) implies (
                    exists|t: int| 0 <= t < d && #[trigger] entry_changes(self@, i as int, t)) by {
                        assert(dd != d as int);
                    }
                }
            } else {
                let mut formula = HtmlFormula::new(d, i);
                let mut k: usize = 0;
                while k < self.nodes[i].neighbors.len()
                    invariant
                        k <= self.nodes@[i as int].neighbors@.len(),
                        i < n,
                        d < n,
                        d != i,
                        n == self.nodes@.len(),
                        self.wf(),
                        formula@.target == d as int,
                        formula@.source == i as int,
                        formula@.members.len() == k,
                        forall|t: int|
                            0 <= t < k ==> #[trigger] formula@.members[t] == cand_tuple(
                                self@,
                                i as int,
                                d as int,
                                t,
                            ),
                    decreases self.nodes@[i as int].neighbors@.len() - k,
                {
                    proof {
                        assert(node_wf(self@, i as int));
                        assert(nbr_wf(
                            self@.nodes[i as int].nbrs[k as int],
                            n as int,
                            i as int,
                        ));
                        assert(self@.nodes[i as int].nbrs[k as int] == self.nodes@[i as int].neighbors@[k as int]@);
                    }
                    let nb_index = self.nodes[i].neighbors[k].index;
                    let nb_cost = self.nodes[i].neighbors[k].direct_cost.wdup();
                    if nb_index == d {
                        formula.add_direct(nb_index, i, nb_cost);
                    } else {
                        proof {
                            assert(node_wf(self@, nb_index as int));
                        }
                        let adv = self.nodes[nb_index].dv[d].cost();
                        proof {
                            assert(adv@ == crate::model::adv_cost(self@, nb_index as int, d as int));
                        }
                        formula.add_indirect(nb_index, i, nb_cost, d, nb_index, adv);
                    }
                    proof {
                        assert(formula@.members.last() == cand_tuple(
                            self@,
                            i as int,
                            d as int,
                            k as int,
                        ));
                    }
                    k += 1;
                }
                let v: DVValue<W> = if self.nodes[i].neighbors.len() == 0 {
                    DVValue::Infinity
                } else {
                    proof {
                        assert forall|t: int| 0 <= t < formula@.members.len() implies
                            crate::model::tuple_nonneg(#[trigger] formula@.members[t]) by {
                            assert(formula@.members[t] == cand_tuple(self@, i as int, d as int, t));
                            assert(node_wf(self@, i as int));
                            assert(nbr_wf(self@.nodes[i as int].nbrs[t], n as int, i as int));
                            let m = self@.nodes[i as int].nbrs[t].0;
                            assert(node_wf(self@, m));
                            assert(crate::model::entry_wf(
                                self@.nodes[m].dv[d as int],
                                n as int,
                                d as int,
                                m,
                            ));
                        }
                        assert(formula_nonneg(formula@));
                        W::lemma_max_wv();
                        assert forall|t: int| 0 <= t < formula@.members.len() implies
                            #[trigger] formula_sums(formula@, W::max_wv())[t] == cand_costs(
                            self@,
                            i as int,
                            d as int,
                        )[t] by {
                            let tu = cand_tuple(self@, i as int, d as int, t);
                            if tu.direct {
                                crate::model::lemma_csum_one(tu.result[0], W::max_wv());
                                assert(tu.result =~= seq![tu.result[0]]);
                            } else {
                                crate::model::lemma_csum_two(
                                    tu.result[0],
                                    tu.result[1],
                                    W::max_wv(),
                                );
                                assert(tu.result =~= seq![tu.result[0], tu.result[1]]);
                            }
                        }
                        assert(formula_sums(formula@, W::max_wv()) =~= cand_costs(
                            self@,
                            i as int,
                            d as int,
                        ));
                        lemma_min_idx_bounds(cand_costs(self@, i as int, d as int));
                    }
                    formula.min_vector()
                };
                proof {
                    assert(v@ == relax_entry(self@, i as int, d as int));
                }
                proof {
                    assert(node_wf(self@, i as int));
                    assert(self.nodes@[i as int].dv@[d as int]@ == self@.nodes[i as int].dv[d as int]);
                }
                let ch = !v.cost_eq(&self.nodes[i].dv[d]);
                proof {
                    assert(ch == entry_changes(self@, i as int, d as int));
                    if ch {
                        assert(exists|t: int|
                            0 <= t < d + 1 && #[trigger] entry_changes(self@, i as int, t));
                    } else {
                        assert forall|dd: int|
                            0 <= dd < d + 1 && #[trigger] entry_changes(self@, i as int, dd) implies (
                        exists|t: int| 0 <= t < d && #[trigger] entry_changes(self@, i as int, t)) by {
                            assert(dd != d as int);
                        }
                    }
                }
                if ch {
                    changed = true;
                }
                new_dv.push(v);
                formulas.push(formula);
                proof {
                    assert(dest_of(i as int, formulas@.len() - 1) == d as int);
                }
            }
            d += 1;
        }
        proof {
            assert(dv_view(new_dv@) =~= relax_dv(self@, i as int));
            assert(formulas_view(formulas@) =~= Seq::new(
                (self.nodes@.len() - 1) as nat,
                |j: int| formula_m(self@, i as int, dest_of(i as int, j)),
            ));
            assert(changed == node_changes(self@, i as int));
        }
        (new_dv, formulas, changed)
    }
}

} // verus!

verus! {

impl<W: Weight> World<W> {
    /// One synchronous round over every pending node. Every relaxation
    /// reads only `self`, the frozen pre-round snapshot, so the round is
    /// order-independent. Returns the round's outcome — the committed new
    /// world, or no change — together with the changed-node set (one flag
    /// per node) and the round's explanation lines.
    pub fn run_simulation(&self) -> (res: (NewState<W>, Vec<bool>, Vec<HtmlFormula<W>>))
        requires
            self.wf(),
            self@.generation < u32::MAX as int,
        ensures
            res.1@.len() == self@.nodes.len(),
            forall|j: int| 0 <= j < self@.nodes.len() ==> #[trigger] res.1@[j] == is_changed(self@, j),
            formulas_view(res.2@) == trace_of(self@),
            (res.0 is NotChanged <==> round_stable(self@)),
            match res.0 {
                NewState::Changed(w2) => w2@ == commit(self@) && w2.wf(),
                NewState::NotChanged => true,
            },
    {
        let n = self.nodes.len();
        let mut new_dvs: Vec<Vec<DVValue<W>>> = Vec::new();
        let mut changed_flags: Vec<bool> = Vec::new();
        let mut trace: Vec<HtmlFormula<W>> = Vec::new();
        let mut any_changed: bool = false;
        let mut i: usize = 0;
        while i < n
            invariant
                i <= n,
                n == self.nodes@.len(),
                self.wf(),
                self@.generation < u32::MAX as int,
                new_dvs@.len() == i,
                changed_flags@.len() == i,
                forall|j: int|
                    0 <= j < i ==> dv_view((#[trigger] new_dvs@[j])@) == (if self@.nodes[j].has_updates {
                        relax_dv(self@, j)
                    } else {
                        self@.nodes[j].dv
                    }),
                forall|j: int| 0 <= j < i ==> #[trigger] changed_flags@[j] == is_changed(self@, j),
                any_changed == exists|j: int| 0 <= j < i && #[trigger] is_changed(self@, j),
                formulas_view(trace@) == trace_upto(self@, i as int),
            decreases n - i,
        {
            if self.nodes[i].has_updates {
                let (dv, mut formulas, ch) = self.relax_node(i);
                proof {
                    assert(self@.nodes[i as int].has_updates);
                    assert(formulas_view(formulas@) == node_formulas(self@, i as int));
                    assert(formulas_view(trace@ + formulas@) =~= trace_upto(self@, i as int)
                        + node_formulas(self@, i as int));
                    if ch {
                        assert(is_changed(self@, i as int));
                        assert(exists|j: int| 0 <= j < i + 1 && #[trigger] is_changed(self@, j));
                    } else {
                        assert forall|j: int|
                            0 <= j < i + 1 && #[trigger] is_changed(self@, j) implies (exists|
                            t: int,
                        | 0 <= t < i && #[trigger] is_changed(self@, t)) by {
                            assert(j != i as int);
                        }
                    }
                }
                trace.append(&mut formulas);
                new_dvs.push(dv);
                changed_flags.push(ch);
                if ch {
                    any_changed = true;
                }
            } else {
                let dv = copy_dv(&self.nodes[i].dv);
                proof {
                    assert(dv_view(self.nodes@[i as int].dv@) =~= self@.nodes[i as int].dv);
                    assert(!is_changed(self@, i as int));
                    assert(node_formulas(self@, i as int) =~= Seq::<crate::model::FormulaM>::empty());
                    assert(formulas_view(trace@) =~= trace_upto(self@, i as int) + node_formulas(
                        self@,
                        i as int,
                    ));
                    assert forall|j: int|
                        0 <= j < i + 1 && #[trigger] is_changed(self@, j) implies (exists|t: int|
                        0 <= t < i && #[trigger] is_changed(self@, t)) by {
                        assert(j != i as int);
                    }
                }
                new_dvs.push(dv);
                changed_flags.push(false);
            }
            i += 1;
        }
        if !any_changed {
            proof {
                assert(round_stable(self@));
            }
            return (NewState::NotChanged, changed_flags, trace);
        }
        let mut new_nodes: Vec<Node<W>> = Vec::new();
        let mut i2: usize = 0;
        while i2 < n
            invariant
                i2 <= n,
                n == self.nodes@.len(),
                self.wf(),
                self@.generation < u32::MAX as int,
                new_dvs@.len() == n,
                changed_flags@.len() == n,
                forall|j: int|
                    0 <= j < n ==> dv_view((#[trigger] new_dvs@[j])@) == (if self@.nodes[j].has_updates {
                        relax_dv(self@, j)
                    } else {
                        self@.nodes[j].dv
                    }),
                forall|j: int| 0 <= j < n ==> #[trigger] changed_flags@[j] == is_changed(self@, j),
                new_nodes@.len() == i2,
                forall|j: int|
                    0 <= j < i2 ==> {
                        let nd = #[trigger] new_nodes@[j];
                        &&& nd.index == j
                        &&& nd@ == commit(self@).nodes[j]
                    },
            decreases n - i2,
        {
            proof {
                assert(node_wf(self@, i2 as int));
            }
            let mut pend: bool = false;
            let mut q: usize = 0;
            while q < self.nodes[i2].neighbors.len()
                invariant
                    q <= self.nodes@[i2 as int].neighbors@.len(),
                    i2 < n,
                    n == self.nodes@.len(),
                    self.wf(),
                    changed_flags@.len() == n,
                    forall|j: int|
                        0 <= j < n ==> #[trigger] changed_flags@[j] == is_changed(self@, j),
                    pend == exists|t: int|
                        0 <= t < q && is_changed(
                            self@,
                            (#[trigger] self@.nodes[i2 as int].nbrs[t]).0,
                        ),
                decreases self.nodes@[i2 as int].neighbors@.len() - q,
            {
                proof {
                    assert(node_wf(self@, i2 as int));
                    assert(nbr_wf(self@.nodes[i2 as int].nbrs[q as int], n as int, i2 as int));
                    assert(self@.nodes[i2 as int].nbrs[q as int] == self.nodes@[i2 as int].neighbors@[q as int]@);
                }
                let m = self.nodes[i2].neighbors[q].index;
                if changed_flags[m] {
                    pend = true;
                    proof {
                        assert(is_changed(self@, (self@.nodes[i2 as int].nbrs[q as int]).0));
                    }
                } else {
                    proof {
                        assert forall|t: int|
                            0 <= t < q + 1 && is_changed(
                                self@,
                                (#[trigger] self@.nodes[i2 as int].nbrs[t]).0,
                            ) implies pend by {
                            if t == q as int {
                                assert(false);
                            }
                        }
                    }
                }
                q += 1;
            }
            proof {
                assert(pend == crate::model::next_pending(self@, i2 as int));
            }
            let dv = copy_dv(&new_dvs[i2]);
            let nbrs = copy_neighbors(&self.nodes[i2].neighbors);
            new_nodes.push(
                Node {
                    name: self.nodes[i2].name.clone(),
                    dv,
                    neighbors: nbrs,
                    index: i2,
                    has_updates: pend,
                },
            );
            proof {
                assert(new_nodes@[i2 as int]@ =~~= commit(self@).nodes[i2 as int]);
            }
            i2 += 1;
        }
        let w2 = World { nodes: new_nodes, generation: self.generation + 1 };
        proof {
            assert(w2@ =~~= commit(self@));
            lemma_commit_wf(self@);
            assert(exists|j: int| 0 <= j < n && #[trigger] is_changed(self@, j));
            assert(!round_stable(self@));
        }
        (NewState::Changed(w2), changed_flags, trace)
    }
}

/// Runs rounds until one changes no cost, allowing at most `max_rounds`
/// changed rounds; the stable world is returned with its generation
/// advanced once more for the final, unchanged round. `None` means the
/// bound was reached first.
pub fn run_until_stable<W: Weight>(world: World<W>, max_rounds: usize) -> (r: Option<World<W>>)
    requires
        world.wf(),
        world@.generation + max_rounds + 1 <= u32::MAX as int,
    ensures
        match r {
            Some(w2) => run_spec(world@, max_rounds as nat) == Some(w2@) && w2.wf(),
            None => run_spec(world@, max_rounds as nat) is None,
        },
{
    let mut cur = world;
    let mut fuel: usize = max_rounds;
    loop
        invariant
            cur.wf(),
            cur@.generation + fuel + 1 <= u32::MAX as int,
            run_spec(cur@, fuel as nat) == run_spec(world@, max_rounds as nat),
        decreases fuel,
    {
        let (state, _changed, _formulas) = cur.run_simulation();
        match state {
            NewState::NotChanged => {
                let r = World { nodes: cur.nodes, generation: cur.generation + 1 };
                proof {
                    assert(r@ =~~= WorldM {
                        nodes: cur@.nodes,
                        generation: cur@.generation + 1,
                        bound: cur@.bound,
                    });
                    assert forall|ii: int| 0 <= ii < r@.nodes.len() implies node_wf(r@, ii) by {
                        assert(node_wf(cur@, ii));
                    }
                }
                return Some(r);
            },
            NewState::Changed(w2) => {
                if fuel == 0 {
                    return None;
                }
                fuel = fuel - 1;
                cur = w2;
            },
        }
    }
}

} // verus!
