//! The cost algebra: a totally ordered, additive cost value over
//! {zero, finite value, infinity}, generic in the underlying weight type,
//! and the distance-vector entry type built on top of it.

use vstd::prelude::*;

verus! {

/// Sum of two already-summed weight values, saturated at the weight type's
/// largest representable value `m`.
pub open spec fn sat_at(s: int, m: int) -> int {
    if s <= m {
        s
    } else {
        m
    }
}

/// The mathematical model of a `Cost`: zero, a finite value, or infinity.
pub enum CostM {
    Zero,
    Value(int),
    Infinity,
}

/// Total order on cost models: `Zero < Value(x) < Infinity`, and two
/// `Value`s compare by their numeric value.
pub open spec fn cm_le(a: CostM, b: CostM) -> bool {
    match (a, b) {
        (CostM::Zero, _) => true,
        (CostM::Value(_), CostM::Zero) => false,
        (CostM::Value(x), CostM::Value(y)) => x <= y,
        (CostM::Value(_), CostM::Infinity) => true,
        (CostM::Infinity, CostM::Infinity) => true,
        (CostM::Infinity, _) => false,
    }
}

/// Strict version of the cost order.
pub open spec fn cm_lt(a: CostM, b: CostM) -> bool {
    !cm_le(b, a)
}

/// A finite cost model carries a non-negative value.
pub open spec fn cm_nonneg(a: CostM) -> bool {
    match a {
        CostM::Value(x) => x >= 0,
        _ => true,
    }
}

/// Cost addition: `Infinity` absorbs, `Zero` is the identity, and two finite
/// values add, saturated at the weight type's bound `m`.
pub open spec fn cm_add(a: CostM, b: CostM, m: int) -> CostM {
    match (a, b) {
        (CostM::Infinity, _) => CostM::Infinity,
        (_, CostM::Infinity) => CostM::Infinity,
        (CostM::Zero, _) => b,
        (_, CostM::Zero) => a,
        (CostM::Value(x), CostM::Value(y)) => CostM::Value(sat_at(x + y, m)),
    }
}

/// The requirements on an edge-weight representation: a value it can always
/// report (`wv`), a total order and an additive identity agreeing with that
/// value, and addition, saturated at the type's largest representable value.
///
/// The engine never relies on one concrete numeric width; any type proving
/// these obligations can carry the weights.
pub trait Weight: Sized {
    /// The weight's numeric value.
    spec fn wv(&self) -> int;

    /// The largest value the type can represent; additions saturate here.
    spec fn max_wv() -> int;

    proof fn lemma_max_wv()
        ensures
            Self::max_wv() >= 0,
    ;

    /// No value exceeds the type's largest representable value.
    proof fn lemma_wv_bound(&self)
        ensures
            self.wv() <= Self::max_wv(),
    ;

    /// The additive identity.
    fn wzero() -> (r: Self)
        ensures
            r.wv() == 0,
    ;

    /// A copy with the same value.
    fn wdup(&self) -> (r: Self)
        ensures
            r.wv() == self.wv(),
    ;

    /// The total order, by value.
    fn wle(&self, other: &Self) -> (r: bool)
        ensures
            r == (self.wv() <= other.wv()),
    ;

    /// Addition of non-negative weights, saturated at `max_wv`.
    fn wadd(&self, other: &Self) -> (r: Self)
        requires
            self.wv() >= 0,
            other.wv() >= 0,
        ensures
            r.wv() == sat_at(self.wv() + other.wv(), Self::max_wv()),
    ;
}

impl Weight for u32 {
    open spec fn wv(&self) -> int {
        *self as int
    }

    open spec fn max_wv() -> int {
        u32::MAX as int
    }

    proof fn lemma_max_wv() {
    }

    proof fn lemma_wv_bound(&self) {
    }

    fn wzero() -> (r: Self) {
        0
    }

    fn wdup(&self) -> (r: Self) {
        *self
    }

    fn wle(&self, other: &Self) -> (r: bool) {
        *self <= *other
    }

    fn wadd(&self, other: &Self) -> (r: Self) {
        if *self <= u32::MAX - *other {
            *self + *other
        } else {
            u32::MAX
        }
    }
}

impl Weight for u64 {
    open spec fn wv(&self) -> int {
        *self as int
    }

    open spec fn max_wv() -> int {
        u64::MAX as int
    }

    proof fn lemma_max_wv() {
    }

    proof fn lemma_wv_bound(&self) {
    }

    fn wzero() -> (r: Self) {
        0
    }

    fn wdup(&self) -> (r: Self) {
        *self
    }

    fn wle(&self, other: &Self) -> (r: bool) {
        *self <= *other
    }

    fn wadd(&self, other: &Self) -> (r: Self) {
        if *self <= u64::MAX - *other {
            *self + *other
        } else {
            u64::MAX
        }
    }
}

/// A path cost: no cost at all (the node itself), a finite accumulated
/// weight, or infinity, the canonical "no known path" sentinel.
pub enum Cost<W: Weight> {
    Zero,
    Value(W),
    Infinity,
}

impl<W: Weight> View for Cost<W> {
    type V = CostM;

    open spec fn view(&self) -> CostM {
        match self {
            Cost::Zero => CostM::Zero,
            Cost::Value(w) => CostM::Value(w.wv()),
            Cost::Infinity => CostM::Infinity,
        }
    }
}

/// The mathematical model of a distance-vector entry; `em_cost` reads off
/// the cost it stands for.
pub enum EntryM {
    Infinity,
    Distance(int, int),
    DirectDistance(int),
    SameNode,
}

/// The cost of a distance-vector entry: reaching oneself costs `Zero`, an
/// unreachable destination costs `Infinity`, any path entry its weight.
pub open spec fn em_cost(e: EntryM) -> CostM {
    match e {
        EntryM::Infinity => CostM::Infinity,
        EntryM::Distance(w, _) => CostM::Value(w),
        EntryM::DirectDistance(w) => CostM::Value(w),
        EntryM::SameNode => CostM::Zero,
    }
}

/// How a cost is written back into a table entry: `Zero` marks the node
/// itself, a finite cost becomes a direct-edge entry or a via-neighbor entry,
/// and `Infinity` stays unreachable.
pub open spec fn to_entry(c: CostM, through: int, direct: bool) -> EntryM {
    match c {
        CostM::Zero => EntryM::SameNode,
        CostM::Value(x) => if direct {
            EntryM::DirectDistance(x)
        } else {
            EntryM::Distance(x, through)
        },
        CostM::Infinity => EntryM::Infinity,
    }
}

/// One entry of a node's distance vector: the destination is unreachable,
/// reachable through a neighbor at an accumulated weight, reachable over a
/// direct edge, or is the node itself.
pub enum DVValue<W: Weight> {
    Infinity,
    Distance(W, usize),
    DirectDistance(W),
    SameNode,
}

impl<W: Weight> View for DVValue<W> {
    type V = EntryM;

    open spec fn view(&self) -> EntryM {
        match self {
            DVValue::Infinity => EntryM::Infinity,
            DVValue::Distance(w, via) => EntryM::Distance(w.wv(), *via as int),
            DVValue::DirectDistance(w) => EntryM::DirectDistance(w.wv()),
            DVValue::SameNode => EntryM::SameNode,
        }
    }
}

impl<W: Weight> Cost<W> {
    /// A copy with the same model.
    pub fn dup(&self) -> (r: Self)
        ensures
            r@ == self@,
    {
        match self {
            Cost::Zero => Cost::Zero,
            Cost::Value(w) => Cost::Value(w.wdup()),
            Cost::Infinity => Cost::Infinity,
        }
    }

    /// Cost addition: `Infinity` absorbs, `Zero` is the identity, finite
    /// values add (saturated at the weight type's bound).
    pub fn plus(&self, rhs: &Self) -> (r: Self)
        requires
            cm_nonneg(self@),
            cm_nonneg(rhs@),
        ensures
            r@ == cm_add(self@, rhs@, W::max_wv()),
    {
        match self {
            Cost::Infinity => Cost::Infinity,
            Cost::Zero => rhs.dup(),
            Cost::Value(w) => match rhs {
                Cost::Infinity => Cost::Infinity,
                Cost::Zero => Cost::Value(w.wdup()),
                Cost::Value(w2) => Cost::Value(w.wadd(w2)),
            },
        }
    }

    /// The total order on costs: `Zero < Value(w) < Infinity`.
    pub fn le(&self, other: &Self) -> (r: bool)
        ensures
            r == cm_le(self@, other@),
    {
        match self {
            Cost::Zero => true,
            Cost::Value(w) => match other {
                Cost::Zero => false,
                Cost::Value(w2) => w.wle(w2),
                Cost::Infinity => true,
            },
            Cost::Infinity => match other {
                Cost::Infinity => true,
                _ => false,
            },
        }
    }

    /// Strict order on costs.
    pub fn lt(&self, other: &Self) -> (r: bool)
        ensures
            r == cm_lt(self@, other@),
    {
        !other.le(self)
    }

    /// Equality of cost models; note that `Zero` and `Value(0)` differ.
    pub fn cost_eq(&self, other: &Self) -> (r: bool)
        ensures
            r == (self@ == other@),
    {
        self.le(other) && other.le(self)
    }

    /// Writes a cost back into a table entry: a finite cost becomes a
    /// direct-edge entry or a via-neighbor entry through `through`.
    pub fn to_dv_value(&self, through: usize, direct: bool) -> (r: DVValue<W>)
        ensures
            r@ == to_entry(self@, through as int, direct),
    {
        match self {
            Cost::Infinity => DVValue::Infinity,
            Cost::Zero => DVValue::SameNode,
            Cost::Value(w) => if direct {
                DVValue::DirectDistance(w.wdup())
            } else {
                DVValue::Distance(w.wdup(), through)
            },
        }
    }
}

impl<W: Weight> DVValue<W> {
    /// A copy with the same model.
    pub fn dup(&self) -> (r: Self)
        ensures
            r@ == self@,
    {
        match self {
            DVValue::Infinity => DVValue::Infinity,
            DVValue::Distance(w, via) => DVValue::Distance(w.wdup(), *via),
            DVValue::DirectDistance(w) => DVValue::DirectDistance(w.wdup()),
            DVValue::SameNode => DVValue::SameNode,
        }
    }

    /// The cost this entry advertises.
    pub fn cost(&self) -> (r: Cost<W>)
        ensures
            r@ == em_cost(self@),
    {
        match self {
            DVValue::Infinity => Cost::Infinity,
            DVValue::Distance(w, _) => Cost::Value(w.wdup()),
            DVValue::DirectDistance(w) => Cost::Value(w.wdup()),
            DVValue::SameNode => Cost::Zero,
        }
    }

    /// Change-detection equality: cost-only, so two entries with equal cost
    /// but different via-neighbors are equal.
    pub fn cost_eq(&self, other: &Self) -> (r: bool)
        ensures
            r == (em_cost(self@) == em_cost(other@)),
    {
        self.cost().cost_eq(&other.cost())
    }
}

} // verus!
