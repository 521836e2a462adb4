//! The explanation trace: for every relaxed table entry, the candidates
//! that were considered, each with its term breakdown and summed cost, and
//! the winning candidate.
//!
//! This is renderer-agnostic structured data; formatting it (as HTML, text
//! or anything else) is strictly a caller's concern.

use vstd::prelude::*;

use crate::cost::Cost;
use crate::cost::CostM;
use crate::cost::DVValue;
use crate::cost::Weight;
use crate::cost::cm_nonneg;
use crate::cost::to_entry;
use crate::model::ElemM;
use crate::model::FormulaM;
use crate::model::TupleM;
use crate::model::csum;
use crate::model::formula_sums;
use crate::model::lemma_min_idx_bounds;
use crate::model::min_idx;
use crate::model::tuple_nonneg;

verus! {

/// One term of a candidate, by what it denotes: the cost of the direct
/// edge from `source` to `target`, or the distance `source` advertises for
/// `target`. Rendering these labels is a caller's concern.
#[derive(Clone, Copy, Debug, PartialEq, Eq, Structural)]
pub enum DistanceCalculationElement {
    DirectDistance(usize, usize),
    DistanceVector(usize, usize),
}

impl View for DistanceCalculationElement {
    type V = ElemM;

    open spec fn view(&self) -> ElemM {
        match self {
            DistanceCalculationElement::DirectDistance(t, s) => ElemM::DirectDistance(
                *t as int,
                *s as int,
            ),
            DistanceCalculationElement::DistanceVector(t, s) => ElemM::DistanceVector(
                *t as int,
                *s as int,
            ),
        }
    }
}

/// The term labels a sequence of elements stands for.
pub open spec fn elems_view(s: Seq<DistanceCalculationElement>) -> Seq<ElemM> {
    Seq::new(s.len(), |k: int| s[k]@)
}

/// The term costs a sequence of costs stands for.
pub open spec fn costs_view<W: Weight>(s: Seq<Cost<W>>) -> Seq<CostM> {
    Seq::new(s.len(), |k: int| s[k]@)
}

/// One candidate of an explanation line: its term labels, the terms'
/// costs, the neighbor the candidate goes through, and whether it is the
/// direct-edge candidate.
pub struct DistanceCalculationTuple<W: Weight> {
    pub description: Vec<DistanceCalculationElement>,
    pub result: Vec<Cost<W>>,
    pub through: usize,
    pub direct: bool,
}

impl<W: Weight> View for DistanceCalculationTuple<W> {
    type V = TupleM;

    open spec fn view(&self) -> TupleM {
        TupleM {
            description: elems_view(self.description@),
            result: costs_view(self.result@),
            through: self.through as int,
            direct: self.direct,
        }
    }
}

impl<W: Weight> DistanceCalculationTuple<W> {
    /// The candidate's summed cost, left to right from `Zero`.
    pub fn sum(&self) -> (r: Cost<W>)
        requires
            tuple_nonneg(self@),
        ensures
            r@ == csum(self@.result, W::max_wv()),
            cm_nonneg(r@),
    {
        proof {
            W::lemma_max_wv();
        }
        let mut sum: Cost<W> = Cost::Zero;
        let mut k: usize = 0;
        while k < self.result.len()
            invariant
                k <= self.result@.len(),
                tuple_nonneg(self@),
                W::max_wv() >= 0,
                sum@ == csum(self@.result.take(k as int), W::max_wv()),
                cm_nonneg(sum@),
            decreases self.result@.len() - k,
        {
            proof {
                assert(cm_nonneg(self@.result[k as int]));
            }
            sum = sum.plus(&self.result[k]);
            proof {
                let t = self@.result.take(k as int + 1);
                assert(t.drop_last() =~= self@.result.take(k as int));
                assert(t.last() == self@.result[k as int]);
            }
            k += 1;
        }
        proof {
            assert(self@.result.take(self.result@.len() as int) =~= self@.result);
        }
        sum
    }

    /// The candidate written back as a table entry: its summed cost,
    /// through its neighbor, direct if it was the direct-edge candidate.
    pub fn sum_dv(&self) -> (r: DVValue<W>)
        requires
            tuple_nonneg(self@),
        ensures
            r@ == to_entry(csum(self@.result, W::max_wv()), self@.through, self@.direct),
    {
        self.sum().to_dv_value(self.through, self.direct)
    }
}

/// One explanation line: the destination being relaxed, the node relaxing
/// it, and every candidate considered, in ascending neighbor order (a
/// direct-edge candidate occupies its neighbor's position).
pub struct HtmlFormula<W: Weight> {
    pub target: usize,
    pub source: usize,
    pub members: Vec<DistanceCalculationTuple<W>>,
}

impl<W: Weight> View for HtmlFormula<W> {
    type V = FormulaM;

    open spec fn view(&self) -> FormulaM {
        FormulaM {
            target: self.target as int,
            source: self.source as int,
            members: Seq::new(self.members@.len(), |k: int| self.members@[k]@),
        }
    }
}

/// The explanation lines a sequence of formulas stands for.
pub open spec fn formulas_view<W: Weight>(s: Seq<HtmlFormula<W>>) -> Seq<FormulaM> {
    Seq::new(s.len(), |k: int| s[k]@)
}

/// Every candidate of the line has non-negative (or infinite) term costs.
pub open spec fn formula_nonneg(f: FormulaM) -> bool {
    forall|k: int| 0 <= k < f.members.len() ==> tuple_nonneg(#[trigger] f.members[k])
}

impl<W: Weight> HtmlFormula<W> {
    /// An empty line for destination `target` relaxed by `source`.
    pub fn new(target: usize, source: usize) -> (r: Self)
        ensures
            r@.target == target as int,
            r@.source == source as int,
            r@.members == Seq::<TupleM>::empty(),
    {
        let r = HtmlFormula { target, source, members: Vec::new() };
        proof {
            assert(r@.members =~= Seq::<TupleM>::empty());
        }
        r
    }

    /// Appends one candidate.
    pub fn add(&mut self, tuple: DistanceCalculationTuple<W>)
        ensures
            final(self)@.target == old(self)@.target,
            final(self)@.source == old(self)@.source,
            final(self)@.members == old(self)@.members.push(tuple@),
    {
        self.members.push(tuple);
        proof {
            assert(final(self)@.members =~= old(self)@.members.push(tuple@));
        }
    }

    /// Appends the candidate that goes through the direct edge from
    /// `direct_src` to `direct_target` at weight `direct_cost`: one term.
    pub fn add_direct(&mut self, direct_target: usize, direct_src: usize, direct_cost: W)
        ensures
            final(self)@.target == old(self)@.target,
            final(self)@.source == old(self)@.source,
            final(self)@.members == old(self)@.members.push(
                TupleM {
                    description: seq![ElemM::DirectDistance(direct_target as int, direct_src as int)],
                    result: seq![CostM::Value(direct_cost.wv())],
                    through: direct_target as int,
                    direct: true,
                },
            ),
    {
        let tuple = DistanceCalculationTuple {
            description: vec![DistanceCalculationElement::DirectDistance(direct_target, direct_src)],
            result: vec![Cost::Value(direct_cost)],
            through: direct_target,
            direct: true,
        };
        proof {
            assert(tuple@.description =~= seq![
                ElemM::DirectDistance(direct_target as int, direct_src as int),
            ]);
            assert(tuple@.result =~= seq![CostM::Value(direct_cost.wv())]);
        }
        self.add(tuple);
    }

    /// Appends the candidate that goes through neighbor `direct_target`:
    /// two terms, the direct edge to the neighbor and the distance the
    /// neighbor advertises for the destination.
    pub fn add_indirect(
        &mut self,
        direct_target: usize,
        direct_src: usize,
        direct_cost: W,
        distance_target: usize,
        distance_src: usize,
        distance_cost: Cost<W>,
    )
        ensures
            final(self)@.target == old(self)@.target,
            final(self)@.source == old(self)@.source,
            final(self)@.members == old(self)@.members.push(
                TupleM {
                    description: seq![
                        ElemM::DirectDistance(direct_target as int, direct_src as int),
                        ElemM::DistanceVector(distance_target as int, distance_src as int),
                    ],
                    result: seq![CostM::Value(direct_cost.wv()), distance_cost@],
                    through: direct_target as int,
                    direct: false,
                },
            ),
    {
        let tuple = DistanceCalculationTuple {
            description: vec![
                DistanceCalculationElement::DirectDistance(direct_target, direct_src),
                DistanceCalculationElement::DistanceVector(distance_target, distance_src),
            ],
            result: vec![Cost::Value(direct_cost), distance_cost],
            through: direct_target,
            direct: false,
        };
        proof {
            assert(tuple@.description =~= seq![
                ElemM::DirectDistance(direct_target as int, direct_src as int),
                ElemM::DistanceVector(distance_target as int, distance_src as int),
            ]);
            assert(tuple@.result =~= seq![
                CostM::Value(direct_cost.wv()),
                tuple.result@[1]@,
            ]);
        }
        self.add(tuple);
    }

    /// The destination this line explains.
    pub fn get_target(&self) -> (r: usize)
        ensures
            r as int == self@.target,
    {
        self.target
    }

    /// The node that relaxed it.
    pub fn get_source(&self) -> (r: usize)
        ensures
            r as int == self@.source,
    {
        self.source
    }

    /// The candidates considered, in enumeration order.
    pub fn get_members(&self) -> (r: &Vec<DistanceCalculationTuple<W>>)
        ensures
            Seq::new(r@.len(), |k: int| r@[k]@) == self@.members,
    {
        &self.members
    }

    /// The index of the winning candidate: minimum summed cost, the
    /// first-enumerated on ties.
    pub fn min_index(&self) -> (r: usize)
        requires
            self@.members.len() > 0,
            formula_nonneg(self@),
        ensures
            r as int == min_idx(formula_sums(self@, W::max_wv())),
            r < self@.members.len(),
    {
        let ghost sums = formula_sums(self@, W::max_wv());
        let mut best: usize = 0;
        proof {
            assert(tuple_nonneg(self@.members[0]));
            assert(self@.members[0] == self.members@[0]@);
        }
        let mut best_cost: Cost<W> = self.members[0].sum();
        let mut k: usize = 1;
        proof {
            assert(sums.take(1).drop_last() =~= Seq::<CostM>::empty());
            assert(sums.take(1)[0] == sums[0]);
        }
        while k < self.members.len()
            invariant
                1 <= k <= self.members@.len(),
                sums == formula_sums(self@, W::max_wv()),
                formula_nonneg(self@),
                best < k,
                best as int == min_idx(sums.take(k as int)),
                best_cost@ == sums[best as int],
            decreases self.members@.len() - k,
        {
            proof {
                assert(tuple_nonneg(self@.members[k as int]));
                assert(self@.members[k as int] == self.members@[k as int]@);
            }
            let c = self.members[k].sum();
            proof {
                let t = sums.take(k as int + 1);
                assert(t.drop_last() =~= sums.take(k as int));
                assert(t.last() == sums[k as int]);
                lemma_min_idx_bounds(sums.take(k as int));
            }
            if c.lt(&best_cost) {
                best = k;
                best_cost = c;
            }
            k += 1;
        }
        proof {
            assert(sums.take(self.members@.len() as int) =~= sums);
        }
        best
    }

    /// The winning candidate written back as a table entry.
    pub fn min_vector(&self) -> (r: DVValue<W>)
        requires
            self@.members.len() > 0,
            formula_nonneg(self@),
        ensures
            ({
                let k = min_idx(formula_sums(self@, W::max_wv()));
                r@ == to_entry(
                    csum(self@.members[k].result, W::max_wv()),
                    self@.members[k].through,
                    self@.members[k].direct,
                )
            }),
    {
        let k = self.min_index();
        proof {
            assert(tuple_nonneg(self@.members[k as int]));
            assert(self@.members[k as int] == self.members@[k as int]@);
        }
        self.members[k].sum_dv()
    }

    /// The winning candidate's summed cost.
    pub fn min_cost(&self) -> (r: Cost<W>)
        requires
            self@.members.len() > 0,
            formula_nonneg(self@),
        ensures
            r@ == formula_sums(self@, W::max_wv())[min_idx(formula_sums(self@, W::max_wv()))],
    {
        let k = self.min_index();
        proof {
            assert(tuple_nonneg(self@.members[k as int]));
            assert(self@.members[k as int] == self.members@[k as int]@);
        }
        self.members[k].sum()
    }
}

} // verus!
