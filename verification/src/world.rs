//! The immutable topology snapshot: node registry, symmetric edge-weight
//! relation, per-node distance vectors and pending flags.
//!
//! A `World` is never mutated in place: construction, mutation batches and
//! committed rounds each produce a new value, so a round's relaxation always
//! reads the frozen pre-round snapshot of every neighbor.

use vstd::prelude::*;

use crate::cost::DVValue;
use crate::cost::EntryM;
use crate::cost::Weight;
use crate::model::NodeM;
use crate::model::WorldM;
use crate::model::fresh_world;
use crate::model::wm_wf;

verus! {

/// One recorded edge of a node: the neighbor's stable index and the edge's
/// weight.
pub struct Neighbor<W: Weight> {
    pub index: usize,
    pub direct_cost: W,
}

impl<W: Weight> View for Neighbor<W> {
    type V = (int, int);

    open spec fn view(&self) -> (int, int) {
        (self.index as int, self.direct_cost.wv())
    }
}

/// A registered node: display name, current distance vector (one entry per
/// destination), outgoing edges in ascending neighbor order, stable index,
/// and the flag marking it for relaxation in the next round.
pub struct Node<W: Weight> {
    pub name: String,
    pub dv: Vec<DVValue<W>>,
    pub neighbors: Vec<Neighbor<W>>,
    pub index: usize,
    pub has_updates: bool,
}

/// The distance vector a sequence of entries stands for.
pub open spec fn dv_view<W: Weight>(s: Seq<DVValue<W>>) -> Seq<EntryM> {
    Seq::new(s.len(), |d: int| s[d]@)
}

/// The adjacency list a sequence of neighbors stands for.
pub open spec fn nbrs_view<W: Weight>(s: Seq<Neighbor<W>>) -> Seq<(int, int)> {
    Seq::new(s.len(), |k: int| s[k]@)
}

impl<W: Weight> View for Node<W> {
    type V = NodeM;

    open spec fn view(&self) -> NodeM {
        NodeM {
            name: self.name@,
            dv: dv_view(self.dv@),
            nbrs: nbrs_view(self.neighbors@),
            has_updates: self.has_updates,
        }
    }
}

/// An immutable topology snapshot.
pub struct World<W: Weight> {
    pub nodes: Vec<Node<W>>,
    pub generation: u32,
}

impl<W: Weight> View for World<W> {
    type V = WorldM;

    open spec fn view(&self) -> WorldM {
        WorldM {
            nodes: Seq::new(self.nodes@.len(), |i: int| self.nodes@[i]@),
            generation: self.generation as int,
            bound: W::max_wv(),
        }
    }
}

/// An edge weight change, identified by the two endpoint indices and the
/// new weight; resolved from names before construction.
pub enum Operation<W: Weight> {
    ChangeWeight(usize, usize, W),
}

impl<W: Weight> View for Operation<W> {
    type V = (int, int, int);

    open spec fn view(&self) -> (int, int, int) {
        match self {
            Operation::ChangeWeight(a, b, wt) => (*a as int, *b as int, wt.wv()),
        }
    }
}

/// The batch of index triples a sequence of operations stands for.
pub open spec fn ops_view<W: Weight>(s: Seq<Operation<W>>) -> Seq<(int, int, int)> {
    Seq::new(s.len(), |k: int| s[k]@)
}

/// Why an edge operation was rejected: an endpoint name is not registered,
/// or the weight is disallowed.
#[derive(Clone, Copy, Debug, PartialEq, Eq, Structural)]
pub enum WorldError {
    NotFound,
    InvalidWeight,
}

/// The sequence of character sequences a list of names stands for.
pub open spec fn names_view(s: Seq<String>) -> Seq<Seq<char>> {
    Seq::new(s.len(), |i: int| s[i]@)
}

/// Some registered node carries name `nm`.
pub open spec fn has_name(w: WorldM, nm: Seq<char>) -> bool {
    exists|i: int| 0 <= i < w.nodes.len() && (#[trigger] w.nodes[i]).name == nm
}

/// The first registered index carrying name `nm`.
pub open spec fn first_ix(w: WorldM, nm: Seq<char>) -> int {
    choose|i: int|
        0 <= i < w.nodes.len() && (#[trigger] w.nodes[i]).name == nm && (forall|j: int|
            0 <= j < i ==> w.nodes[j].name != nm)
}

/// A copy of a distance vector with the entry for destination `node_b`
/// replaced by a via-neighbor acknowledgement of weight `new_w`.
pub fn modify_dv<W: Weight>(original: &Vec<DVValue<W>>, node_b: usize, new_w: &W) -> (r: Vec<
    DVValue<W>,
>)
    requires
        node_b < original@.len(),
    ensures
        dv_view(r@) == dv_view(original@).update(
            node_b as int,
            EntryM::Distance(new_w.wv(), node_b as int),
        ),
{
    let mut new_dv: Vec<DVValue<W>> = Vec::new();
    let mut index: usize = 0;
    while index < original.len()
        invariant
            index <= original@.len(),
            node_b < original@.len(),
            new_dv@.len() == index,
            forall|j: int|
                0 <= j < index ==> #[trigger] new_dv@[j]@ == (if j == node_b {
                    EntryM::Distance(new_w.wv(), node_b as int)
                } else {
                    original@[j]@
                }),
        decreases original@.len() - index,
    {
        if index == node_b {
            new_dv.push(DVValue::Distance(new_w.wdup(), node_b));
        } else {
            new_dv.push(original[index].dup());
        }
        index += 1;
    }
    proof {
        assert(dv_view(new_dv@) =~= dv_view(original@).update(
            node_b as int,
            EntryM::Distance(new_w.wv(), node_b as int),
        ));
    }
    new_dv
}

/// A copy of a distance vector, entry by entry.
pub fn copy_dv<W: Weight>(v: &Vec<DVValue<W>>) -> (r: Vec<DVValue<W>>)
    ensures
        dv_view(r@) == dv_view(v@),
{
    let mut r: Vec<DVValue<W>> = Vec::new();
    let mut index: usize = 0;
    while index < v.len()
        invariant
            index <= v@.len(),
            r@.len() == index,
            forall|j: int| 0 <= j < index ==> #[trigger] r@[j]@ == v@[j]@,
        decreases v@.len() - index,
    {
        r.push(v[index].dup());
        index += 1;
    }
    proof {
        assert(dv_view(r@) =~= dv_view(v@));
    }
    r
}

/// A copy of an adjacency list, edge by edge.
pub fn copy_neighbors<W: Weight>(v: &Vec<Neighbor<W>>) -> (r: Vec<Neighbor<W>>)
    ensures
        nbrs_view(r@) == nbrs_view(v@),
{
    let mut r: Vec<Neighbor<W>> = Vec::new();
    let mut index: usize = 0;
    while index < v.len()
        invariant
            index <= v@.len(),
            r@.len() == index,
            forall|j: int| 0 <= j < index ==> #[trigger] r@[j]@ == v@[j]@,
        decreases v@.len() - index,
    {
        r.push(Neighbor { index: v[index].index, direct_cost: v[index].direct_cost.wdup() });
        index += 1;
    }
    proof {
        assert(nbrs_view(r@) =~= nbrs_view(v@));
    }
    r
}

impl<W: Weight> World<W> {
    /// The topology invariant, plus the stability of every node's index.
    pub open spec fn wf(&self) -> bool {
        &&& wm_wf(self@)
        &&& forall|i: int| 0 <= i < self.nodes@.len() ==> (#[trigger] self.nodes@[i]).index == i
    }

    /// Builds a world of `node_names.len()` nodes with stable indices, every
    /// vector unreachable except the self-entry, no edges, and nothing
    /// pending.
    pub fn new(node_names: Vec<String>) -> (r: World<W>)
        ensures
            r@ == fresh_world(names_view(node_names@), W::max_wv()),
            r.wf(),
    {
        let size = node_names.len();
        let mut nodes: Vec<Node<W>> = Vec::new();
        let mut index: usize = 0;
        while index < size
            invariant
                index <= size,
                size == node_names@.len(),
                nodes@.len() == index,
                forall|j: int|
                    0 <= j < index ==> {
                        let nd = #[trigger] nodes@[j];
                        &&& nd.index == j
                        &&& nd.name@ == node_names@[j]@
                        &&& nd.has_updates == false
                        &&& nd.neighbors@.len() == 0
                        &&& dv_view(nd.dv@) =~= crate::model::fresh_dv(size as int, j)
                    },
            decreases size - index,
        {
            let mut dv: Vec<DVValue<W>> = Vec::new();
            let mut d: usize = 0;
            while d < size
                invariant
                    d <= size,
                    index < size,
                    dv@.len() == d,
                    forall|j: int|
                        0 <= j < d ==> #[trigger] dv@[j]@ == (if j == index {
                            EntryM::SameNode
                        } else {
                            EntryM::Infinity
                        }),
                decreases size - d,
            {
                if d == index {
                    dv.push(DVValue::SameNode);
                } else {
                    dv.push(DVValue::Infinity);
                }
                d += 1;
            }
            proof {
                assert(dv_view(dv@) =~= crate::model::fresh_dv(size as int, index as int));
            }
            nodes.push(
                Node {
                    name: node_names[index].clone(),
                    dv,
                    neighbors: Vec::new(),
                    index,
                    has_updates: false,
                },
            );
            index += 1;
        }
        let r = World { nodes, generation: 0 };
        proof {
            W::lemma_max_wv();
            assert(r@ =~~= fresh_world(names_view(node_names@), W::max_wv()));
            assert forall|i: int| 0 <= i < r@.nodes.len() implies crate::model::node_wf(
                r@,
                i,
            ) by {
                assert(r@.nodes[i].dv =~= crate::model::fresh_dv(r@.nodes.len() as int, i));
            }
        }
        r
    }

    /// The first registered node carrying `name`, if any.
    pub fn find_node(&self, name: &String) -> (r: Option<usize>)
        ensures
            match r {
                Some(i) => i < self.nodes@.len() && self@.nodes[i as int].name == name@ && (forall|
                    j: int,
                |
                    0 <= j < i ==> self@.nodes[j].name != name@),
                None => !has_name(self@, name@),
            },
    {
        let mut index: usize = 0;
        while index < self.nodes.len()
            invariant
                index <= self.nodes@.len(),
                forall|j: int| 0 <= j < index ==> self@.nodes[j].name != name@,
        decreases self.nodes@.len() - index,
        {
            if self.nodes[index].name == *name {
                return Some(index);
            }
            index += 1;
        }
        None
    }

    /// All registered display names, in index order.
    pub fn node_names(&self) -> (r: Vec<String>)
        ensures
            r@.len() == self@.nodes.len(),
            forall|i: int| 0 <= i < r@.len() ==> (#[trigger] r@[i])@ == self@.nodes[i].name,
    {
        let mut names: Vec<String> = Vec::new();
        let mut index: usize = 0;
        while index < self.nodes.len()
            invariant
                index <= self.nodes@.len(),
                names@.len() == index,
                forall|j: int| 0 <= j < index ==> (#[trigger] names@[j])@ == self@.nodes[j].name,
            decreases self.nodes@.len() - index,
        {
            names.push(self.nodes[index].name.clone());
            index += 1;
        }
        names
    }

    /// Resolves an edge-weight change from names to indices, validating it
    /// before any mutation: both names must be registered and the weight
    /// non-negative. The world itself is untouched.
    pub fn add_interface(&self, node_a: &String, node_b: &String, weight: W) -> (r: Result<
        Operation<W>,
        WorldError,
    >)
        ensures
            r is Ok <==> has_name(self@, node_a@) && has_name(self@, node_b@) && weight.wv() >= 0,
            match r {
                Ok(op) => op@ == (first_ix(self@, node_a@), first_ix(self@, node_b@), weight.wv()),
                Err(e) => {
                    &&& (e == WorldError::NotFound <==> !(has_name(self@, node_a@) && has_name(
                        self@,
                        node_b@,
                    )))
                    &&& (e == WorldError::InvalidWeight <==> has_name(self@, node_a@) && has_name(
                        self@,
                        node_b@,
                    ) && weight.wv() < 0)
                },
            },
    {
        let ia = match self.find_node(node_a) {
            Some(i) => i,
            None => {
                return Err(WorldError::NotFound);
            },
        };
        let ib = match self.find_node(node_b) {
            Some(i) => i,
            None => {
                return Err(WorldError::NotFound);
            },
        };
        let zero = W::wzero();
        if !zero.wle(&weight) {
            return Err(WorldError::InvalidWeight);
        }
        proof {
            lemma_first_ix_agrees(self@, node_a@, ia as int);
            lemma_first_ix_agrees(self@, node_b@, ib as int);
        }
        Ok(Operation::ChangeWeight(ia, ib, weight))
    }
}

/// An index that matches a name and is preceded by no match is the first
/// matching index.
proof fn lemma_first_ix_agrees(w: WorldM, nm: Seq<char>, i: int)
    requires
        0 <= i < w.nodes.len(),
        w.nodes[i].name == nm,
        forall|j: int| 0 <= j < i ==> w.nodes[j].name != nm,
    ensures
        has_name(w, nm),
        first_ix(w, nm) == i,
{
    assert(has_name(w, nm));
    let c = first_ix(w, nm);
    assert(0 <= c < w.nodes.len() && w.nodes[c].name == nm && (forall|j: int|
        0 <= j < c ==> w.nodes[j].name != nm)) by {
        assert(0 <= i < w.nodes.len() && w.nodes[i].name == nm && (forall|j: int|
            0 <= j < i ==> w.nodes[j].name != nm));
    }
    if c < i {
        assert(w.nodes[c].name != nm);
        assert(false);
    }
    if i < c {
        assert(w.nodes[i].name != nm);
        assert(false);
    }
}

} // verus!

// ---------------------------------------------------------------------------
// Applying a mutation batch.
// ---------------------------------------------------------------------------

verus! {

use crate::model::apply_ops;
use crate::model::apply_upto;
use crate::model::is_endpoint;
use crate::model::nbr_lookup;
use crate::model::nbr_wf;
use crate::model::nbrs_sorted;
use crate::model::node_wf;
use crate::model::pending_after;
use crate::model::seed_one;
use crate::model::upsert_nbr;
use crate::model::valid_op;

/// `upsert_nbr` in closed form: with `p` the first position whose neighbor
/// index is not below `m`, the result is the prefix before `p`, then
/// `(m, wt)`, then the rest (the old entry for `m` dropped if present).
proof fn lemma_upsert_closed(s: Seq<(int, int)>, m: int, wt: int, p: int)
    requires
        0 <= p <= s.len(),
        forall|j: int| 0 <= j < p ==> (#[trigger] s[j]).0 < m,
        p < s.len() ==> s[p].0 >= m,
    ensures
        upsert_nbr(s, m, wt) == (if p < s.len() && s[p].0 == m {
            s.take(p) + seq![(m, wt)] + s.skip(p + 1)
        } else {
            s.take(p) + seq![(m, wt)] + s.skip(p)
        }),
    decreases s.len(),
{
    if s.len() == 0 {
        assert(upsert_nbr(s, m, wt) =~= s.take(p) + seq![(m, wt)] + s.skip(p));
    } else if p == 0 {
        if s[0].0 == m {
            assert(upsert_nbr(s, m, wt) =~= s.take(0) + seq![(m, wt)] + s.skip(1));
        } else {
            assert(upsert_nbr(s, m, wt) =~= s.take(0) + seq![(m, wt)] + s.skip(0));
        }
    } else {
        let s1 = s.subrange(1, s.len() as int);
        assert(forall|j: int| 0 <= j < p - 1 ==> (#[trigger] s1[j]).0 < m);
        lemma_upsert_closed(s1, m, wt, p - 1);
        assert(s[0].0 < m);
        if p < s.len() && s[p].0 == m {
            assert(s1[p - 1].0 == m);
            assert(upsert_nbr(s, m, wt) =~= s.take(p) + seq![(m, wt)] + s.skip(p + 1)) by {
                assert(upsert_nbr(s, m, wt) == seq![s[0]] + upsert_nbr(s1, m, wt));
                assert(upsert_nbr(s1, m, wt) == s1.take(p - 1) + seq![(m, wt)] + s1.skip(p));
            }
        } else {
            assert(upsert_nbr(s, m, wt) =~= s.take(p) + seq![(m, wt)] + s.skip(p)) by {
                assert(upsert_nbr(s, m, wt) == seq![s[0]] + upsert_nbr(s1, m, wt));
                assert(upsert_nbr(s1, m, wt) == s1.take(p - 1) + seq![(m, wt)] + s1.skip(p - 1));
            }
        }
    }
}

/// Looking a neighbor up after an upsert: the upserted index now maps to
/// the new weight, every other index is untouched.
pub(crate) proof fn lemma_upsert_lookup(s: Seq<(int, int)>, m: int, wt: int, x: int)
    ensures
        nbr_lookup(upsert_nbr(s, m, wt), x) == (if x == m {
            Some(wt)
        } else {
            nbr_lookup(s, x)
        }),
    decreases s.len(),
{
    if s.len() == 0 {
        let u = upsert_nbr(s, m, wt);
        assert(u == seq![(m, wt)]);
        assert(u.skip(1) =~= Seq::<(int, int)>::empty());
        assert(nbr_lookup(u.skip(1), x) is None);
        assert(nbr_lookup(u, x) == (if x == m {
            Some(wt)
        } else {
            nbr_lookup(s, x)
        }));
    } else if s[0].0 == m {
        let u = upsert_nbr(s, m, wt);
        assert(u == seq![(m, wt)] + s.subrange(1, s.len() as int));
        assert(u.skip(1) =~= s.subrange(1, s.len() as int));
        assert(s.skip(1) =~= s.subrange(1, s.len() as int));
        assert(nbr_lookup(u, x) == (if x == m {
            Some(wt)
        } else {
            nbr_lookup(s, x)
        }));
    } else if s[0].0 > m {
        let u = upsert_nbr(s, m, wt);
        assert(u == seq![(m, wt)] + s);
        assert(u.skip(1) =~= s);
        assert(nbr_lookup(u, x) == (if x == m {
            Some(wt)
        } else {
            nbr_lookup(s, x)
        }));
    } else {
        let s1 = s.subrange(1, s.len() as int);
        lemma_upsert_lookup(s1, m, wt, x);
        let u = upsert_nbr(s, m, wt);
        assert(u == seq![s[0]] + upsert_nbr(s1, m, wt));
        assert(u.skip(1) =~= upsert_nbr(s1, m, wt));
        assert(s.skip(1) =~= s1);
        assert(u.len() > 0 && u[0] == s[0]);
        assert(nbr_lookup(u, x) == (if x == m {
            Some(wt)
        } else {
            nbr_lookup(s, x)
        }));
    }
}

/// Every entry of an upsert result on a sorted list is the upserted pair
/// or an old entry for a different neighbor.
pub(crate) proof fn lemma_upsert_elems(s: Seq<(int, int)>, m: int, wt: int)
    requires
        nbrs_sorted(s),
    ensures
        forall|k: int|
            0 <= k < upsert_nbr(s, m, wt).len() ==> (#[trigger] upsert_nbr(s, m, wt)[k]) == (
            m,
            wt,
            ) || exists|j: int| 0 <= j < s.len() && (#[trigger] s[j]) == upsert_nbr(s, m, wt)[k]
                && s[j].0 != m,
    decreases s.len(),
{
    let u = upsert_nbr(s, m, wt);
    if s.len() == 0 {
    } else if s[0].0 == m {
        assert forall|k: int| 0 <= k < u.len() && u[k] != (m, wt) implies exists|j: int|
            0 <= j < s.len() && (#[trigger] s[j]) == u[k] && s[j].0 != m by {
            assert(u[k] == s.subrange(1, s.len() as int)[k - 1]);
            assert(s[k] == u[k]);
            assert(s[0].0 < s[k].0);
        }
    } else if s[0].0 > m {
        assert forall|k: int| 0 <= k < u.len() && u[k] != (m, wt) implies exists|j: int|
            0 <= j < s.len() && (#[trigger] s[j]) == u[k] && s[j].0 != m by {
            assert(u[k] == s[k - 1]);
            if k > 1 {
                assert(s[0].0 < s[k - 1].0);
            }
        }
    } else {
        let s1 = s.subrange(1, s.len() as int);
        assert(nbrs_sorted(s1));
        lemma_upsert_elems(s1, m, wt);
        assert forall|k: int| 0 <= k < u.len() && u[k] != (m, wt) implies exists|j: int|
            0 <= j < s.len() && (#[trigger] s[j]) == u[k] && s[j].0 != m by {
            if k == 0 {
                assert(s[0] == u[0]);
            } else {
                assert(u[k] == upsert_nbr(s1, m, wt)[k - 1]);
                let j1 = choose|j: int|
                    0 <= j < s1.len() && (#[trigger] s1[j]) == u[k] && s1[j].0 != m;
                assert(s[j1 + 1] == u[k]);
            }
        }
    }
}

} // verus!

verus! {

/// Upserting into a sorted adjacency list keeps it sorted.
proof fn lemma_upsert_sorted(s: Seq<(int, int)>, m: int, wt: int)
    requires
        nbrs_sorted(s),
    ensures
        nbrs_sorted(upsert_nbr(s, m, wt)),
    decreases s.len(),
{
    let u = upsert_nbr(s, m, wt);
    if s.len() == 0 {
        assert(nbrs_sorted(u));
    } else if s[0].0 == m {
        assert forall|j: int, k: int| 0 <= j < k < u.len() implies (#[trigger] u[j]).0 < (
        #[trigger] u[k]).0 by {
            assert(u[k] == s[k]);
            if j > 0 {
                assert(u[j] == s[j]);
            }
        }
    } else if s[0].0 > m {
        assert forall|j: int, k: int| 0 <= j < k < u.len() implies (#[trigger] u[j]).0 < (
        #[trigger] u[k]).0 by {
            assert(u[k] == s[k - 1]);
            if j > 0 {
                assert(u[j] == s[j - 1]);
            } else {
                if k > 1 {
                    assert(s[0].0 < s[k - 1].0);
                }
            }
        }
    } else {
        let s1 = s.subrange(1, s.len() as int);
        assert(nbrs_sorted(s1));
        lemma_upsert_sorted(s1, m, wt);
        lemma_upsert_elems(s1, m, wt);
        let u1 = upsert_nbr(s1, m, wt);
        assert(u == seq![s[0]] + u1);
        assert forall|j: int, k: int| 0 <= j < k < u.len() implies (#[trigger] u[j]).0 < (
        #[trigger] u[k]).0 by {
            assert(u[k] == u1[k - 1]);
            if j > 0 {
                assert(u[j] == u1[j - 1]);
            } else {
                assert(u[0] == s[0]);
                if u1[k - 1] == (m, wt) {
                    assert(s[0].0 < m);
                } else {
                    let j1 = choose|t: int|
                        0 <= t < s1.len() && (#[trigger] s1[t]) == u1[k - 1] && s1[t].0 != m;
                    assert(s[j1 + 1] == u1[k - 1]);
                    assert(s[0].0 < s[j1 + 1].0);
                }
            }
        }
    }
}

/// One symmetric weight change preserves the topology invariant and leaves
/// every node's name, pending flag and vector length alone.
proof fn lemma_seed_one_wf(w: WorldM, a: int, b: int, wt: int)
    requires
        wm_wf(w),
        valid_op(w.nodes.len() as int, (a, b, wt)),
    ensures
        wm_wf(seed_one(w, a, b, wt)),
        seed_one(w, a, b, wt).nodes.len() == w.nodes.len(),
        seed_one(w, a, b, wt).generation == w.generation,
        seed_one(w, a, b, wt).bound == w.bound,
        forall|i: int|
            0 <= i < w.nodes.len() ==> {
                let nd = #[trigger] seed_one(w, a, b, wt).nodes[i];
                &&& nd.name == w.nodes[i].name
                &&& nd.has_updates == w.nodes[i].has_updates
                &&& nd.dv.len() == w.nodes[i].dv.len()
            },
{
    let n = w.nodes.len() as int;
    let w2 = seed_one(w, a, b, wt);
    assert(node_wf(w, a));
    assert(node_wf(w, b));
    lemma_upsert_sorted(w.nodes[a].nbrs, b, wt);
    lemma_upsert_sorted(w.nodes[b].nbrs, a, wt);
    lemma_upsert_elems(w.nodes[a].nbrs, b, wt);
    lemma_upsert_elems(w.nodes[b].nbrs, a, wt);
    assert forall|i: int| 0 <= i < n implies node_wf(w2, i) by {
        assert(node_wf(w, i));
        let nd = w2.nodes[i];
        let old_nbrs = w.nodes[i].nbrs;
        // the distance vector stays well formed
        assert(nd.dv.len() == n);
        assert(nd.dv[i] == EntryM::SameNode);
        assert(forall|d: int|
            0 <= d < n ==> crate::model::entry_wf(#[trigger] nd.dv[d], n, d, i));
        // each adjacency entry stays well formed and symmetric
        assert forall|k: int| 0 <= k < nd.nbrs.len() implies nbr_wf(#[trigger] nd.nbrs[k], n, i)
            && nbr_lookup(w2.nodes[nd.nbrs[k].0].nbrs, i) == Some(nd.nbrs[k].1) by {
            let e = nd.nbrs[k];
            if i == a {
                if e == (b, wt) {
                    lemma_upsert_lookup(w.nodes[b].nbrs, a, wt, a);
                } else {
                    let j1 = choose|t: int|
                        0 <= t < old_nbrs.len() && (#[trigger] old_nbrs[t]) == e && old_nbrs[t].0
                            != b;
                    assert(nbr_wf(old_nbrs[j1], n, a));
                    assert(nbr_lookup(w.nodes[e.0].nbrs, a) == Some(e.1));
                    if e.0 == b {
                        assert(false);
                    }
                    assert(w2.nodes[e.0].nbrs == w.nodes[e.0].nbrs);
                }
            } else if i == b {
                if e == (a, wt) {
                    lemma_upsert_lookup(w.nodes[a].nbrs, b, wt, b);
                } else {
                    let j1 = choose|t: int|
                        0 <= t < old_nbrs.len() && (#[trigger] old_nbrs[t]) == e && old_nbrs[t].0
                            != a;
                    assert(nbr_wf(old_nbrs[j1], n, b));
                    assert(nbr_lookup(w.nodes[e.0].nbrs, b) == Some(e.1));
                    if e.0 == a {
                        assert(false);
                    }
                    assert(w2.nodes[e.0].nbrs == w.nodes[e.0].nbrs);
                }
            } else {
                assert(nd.nbrs == old_nbrs);
                assert(nbr_wf(e, n, i));
                assert(nbr_lookup(w.nodes[e.0].nbrs, i) == Some(e.1));
                if e.0 == a {
                    lemma_upsert_lookup(w.nodes[a].nbrs, b, wt, i);
                } else if e.0 == b {
                    lemma_upsert_lookup(w.nodes[b].nbrs, a, wt, i);
                } else {
                    assert(w2.nodes[e.0].nbrs == w.nodes[e.0].nbrs);
                }
            }
        }
    }
}

/// Applying a prefix of a valid batch preserves the topology invariant and
/// leaves every node's count, name, pending flag and vector length alone.
pub(crate) proof fn lemma_apply_upto_props(w: WorldM, ops: Seq<(int, int, int)>, k: int)
    requires
        wm_wf(w),
        0 <= k <= ops.len(),
        forall|t: int| 0 <= t < ops.len() ==> valid_op(w.nodes.len() as int, #[trigger] ops[t]),
    ensures
        wm_wf(apply_upto(w, ops, k)),
        apply_upto(w, ops, k).nodes.len() == w.nodes.len(),
        apply_upto(w, ops, k).generation == w.generation,
        apply_upto(w, ops, k).bound == w.bound,
        forall|i: int|
            0 <= i < w.nodes.len() ==> {
                let nd = #[trigger] apply_upto(w, ops, k).nodes[i];
                &&& nd.name == w.nodes[i].name
                &&& nd.has_updates == w.nodes[i].has_updates
                &&& nd.dv.len() == w.nodes[i].dv.len()
            },
    decreases k,
{
    if k > 0 {
        lemma_apply_upto_props(w, ops, k - 1);
        lemma_seed_one_wf(apply_upto(w, ops, k - 1), ops[k - 1].0, ops[k - 1].1, ops[k - 1].2);
    }
}

} // verus!

verus! {

/// Scanning an adjacency list from the front matches the recursive
/// lookup: the first hit is the lookup's answer, no hit means none.
pub(crate) proof fn lemma_lookup_scan(s: Seq<(int, int)>, m: int, p: int)
    requires
        0 <= p <= s.len(),
        forall|j: int| 0 <= j < p ==> (#[trigger] s[j]).0 != m,
    ensures
        p < s.len() && s[p].0 == m ==> nbr_lookup(s, m) == Some(s[p].1),
        p == s.len() ==> nbr_lookup(s, m) is None,
    decreases s.len(),
{
    if s.len() > 0 && p > 0 {
        assert(s[0].0 != m);
        let s1 = s.skip(1);
        assert(forall|j: int| 0 <= j < p - 1 ==> (#[trigger] s1[j]).0 != m);
        lemma_lookup_scan(s1, m, p - 1);
        if p < s.len() && s[p].0 == m {
            assert(s1[p - 1] == s[p]);
        }
    }
}

/// Whether the adjacency list already records neighbor `m` at exactly
/// weight `wt`.
fn weight_recorded<W: Weight>(nbrs: &Vec<Neighbor<W>>, m: usize, wt: &W) -> (r: bool)
    ensures
        r == (nbr_lookup(nbrs_view(nbrs@), m as int) == Some(wt.wv())),
{
    let ghost s = nbrs_view(nbrs@);
    let mut p: usize = 0;
    while p < nbrs.len()
        invariant
            p <= nbrs@.len(),
            s == nbrs_view(nbrs@),
            forall|j: int| 0 <= j < p ==> (#[trigger] s[j]).0 != m as int,
        decreases nbrs@.len() - p,
    {
        if nbrs[p].index == m {
            proof {
                lemma_lookup_scan(s, m as int, p as int);
            }
            return nbrs[p].direct_cost.wle(wt) && wt.wle(&nbrs[p].direct_cost);
        }
        p += 1;
    }
    proof {
        lemma_lookup_scan(s, m as int, p as int);
    }
    false
}

/// A copy of an adjacency list with the edge to `m` set to weight `wt`,
/// inserted at its sorted position if absent.
fn upsert_exec<W: Weight>(nbrs: &Vec<Neighbor<W>>, m: usize, wt: &W) -> (r: Vec<Neighbor<W>>)
    ensures
        nbrs_view(r@) == upsert_nbr(nbrs_view(nbrs@), m as int, wt.wv()),
{
    let ghost s = nbrs_view(nbrs@);
    let mut r: Vec<Neighbor<W>> = Vec::new();
    let mut p: usize = 0;
    while p < nbrs.len() && nbrs[p].index < m
        invariant
            p <= nbrs@.len(),
            s == nbrs_view(nbrs@),
            r@.len() == p,
            forall|j: int| 0 <= j < p ==> #[trigger] r@[j]@ == s[j],
            forall|j: int| 0 <= j < p ==> (#[trigger] s[j]).0 < m as int,
        decreases nbrs@.len() - p,
    {
        r.push(Neighbor { index: nbrs[p].index, direct_cost: nbrs[p].direct_cost.wdup() });
        p += 1;
    }
    let found: bool = p < nbrs.len() && nbrs[p].index == m;
    r.push(Neighbor { index: m, direct_cost: wt.wdup() });
    let start: usize = if found {
        p + 1
    } else {
        p
    };
    let mut q: usize = start;
    while q < nbrs.len()
        invariant
            start <= q <= nbrs@.len(),
            p < start ==> p < nbrs@.len(),
            s == nbrs_view(nbrs@),
            r@.len() == p + 1 + q - start,
            forall|j: int| 0 <= j < p ==> #[trigger] r@[j]@ == s[j],
            r@[p as int]@ == (m as int, wt.wv()),
            forall|j: int|
                p < j < r@.len() ==> #[trigger] r@[j]@ == s[j - p - 1 + start],
        decreases nbrs@.len() - q,
    {
        r.push(Neighbor { index: nbrs[q].index, direct_cost: nbrs[q].direct_cost.wdup() });
        q += 1;
    }
    proof {
        lemma_upsert_closed(s, m as int, wt.wv(), p as int);
        if found {
            assert(nbrs_view(r@) =~= s.take(p as int) + seq![(m as int, wt.wv())] + s.skip(
                p as int + 1,
            ));
        } else {
            assert(nbrs_view(r@) =~= s.take(p as int) + seq![(m as int, wt.wv())] + s.skip(
                p as int,
            ));
        }
    }
    r
}

/// Whether `i` is an endpoint of some operation of the batch.
fn is_endpoint_exec<W: Weight>(operations: &Vec<Operation<W>>, i: usize) -> (r: bool)
    ensures
        r == is_endpoint(ops_view(operations@), i as int),
{
    let ghost ops = ops_view(operations@);
    let mut k: usize = 0;
    while k < operations.len()
        invariant
            k <= operations@.len(),
            ops == ops_view(operations@),
            forall|t: int|
                0 <= t < k ==> !((#[trigger] ops[t]).0 == i as int || ops[t].1 == i as int),
        decreases operations@.len() - k,
    {
        match &operations[k] {
            Operation::ChangeWeight(a, b, _) => {
                if *a == i || *b == i {
                    proof {
                        assert(ops[k as int].0 == i as int || ops[k as int].1 == i as int);
                    }
                    return true;
                }
            },
        }
        k += 1;
    }
    false
}

impl<W: Weight> World<W> {
    /// Applies a batch of resolved edge-weight changes: for each operation,
    /// symmetrically updates the edge relation, seeds both endpoints' own
    /// vector entries at the destination of the other endpoint with a
    /// via-neighbor acknowledgement of the new weight — unless the edge is
    /// already recorded at exactly that weight, in which case reapplying
    /// the operation is a no-op on vectors — and finally marks every
    /// neighbor of an endpoint as pending. The generation counter does not
    /// advance: mutation and relaxation are separate phases.
    pub fn apply_operations(&self, operations: Vec<Operation<W>>) -> (r: World<W>)
        requires
            self.wf(),
            forall|k: int|
                0 <= k < operations@.len() ==> valid_op(
                    self@.nodes.len() as int,
                    (#[trigger] operations@[k])@,
                ),
        ensures
            r@ == apply_ops(self@, ops_view(operations@)),
            r.wf(),
    {
        let ghost ops = ops_view(operations@);
        let ghost w1 = apply_upto(self@, ops, ops.len() as int);
        proof {
            assert(forall|t: int|
                0 <= t < ops.len() ==> valid_op(self@.nodes.len() as int, #[trigger] ops[t]));
            lemma_apply_upto_props(self@, ops, ops.len() as int);
        }
        let n = self.nodes.len();
        let mut new_nodes: Vec<Node<W>> = Vec::new();
        let mut i: usize = 0;
        while i < n
            invariant
                i <= n,
                n == self.nodes@.len(),
                self.wf(),
                forall|k: int|
                    0 <= k < operations@.len() ==> valid_op(
                        self@.nodes.len() as int,
                        (#[trigger] operations@[k])@,
                    ),
                ops == ops_view(operations@),
                w1 == apply_upto(self@, ops, ops.len() as int),
                new_nodes@.len() == i,
                forall|j: int|
                    0 <= j < i ==> {
                        let nd = #[trigger] new_nodes@[j];
                        &&& nd.index == j
                        &&& nd.name@ == w1.nodes[j].name
                        &&& dv_view(nd.dv@) == w1.nodes[j].dv
                        &&& nbrs_view(nd.neighbors@) == w1.nodes[j].nbrs
                        &&& nd.has_updates == pending_after(w1, ops, j)
                    },
            decreases n - i,
        {
            let mut nbrs = copy_neighbors(&self.nodes[i].neighbors);
            let mut dv = copy_dv(&self.nodes[i].dv);
            proof {
                assert(crate::model::node_wf(self@, i as int));
                assert(nbrs_view(nbrs@) == apply_upto(self@, ops, 0).nodes[i as int].nbrs);
                assert(dv_view(dv@) == apply_upto(self@, ops, 0).nodes[i as int].dv);
            }
            let mut k: usize = 0;
            while k < operations.len()
                invariant
                    k <= operations@.len(),
                    i < n,
                    n == self.nodes@.len(),
                    self.wf(),
                    forall|t: int|
                        0 <= t < operations@.len() ==> valid_op(
                            self@.nodes.len() as int,
                            (#[trigger] operations@[t])@,
                        ),
                    ops == ops_view(operations@),
                    nbrs_view(nbrs@) == apply_upto(self@, ops, k as int).nodes[i as int].nbrs,
                    dv_view(dv@) == apply_upto(self@, ops, k as int).nodes[i as int].dv,
                    dv@.len() == n,
                decreases operations@.len() - k,
            {
                proof {
                    lemma_apply_upto_props(self@, ops, k as int);
                    assert(crate::model::node_wf(self@, i as int));
                }
                let ghost wk = apply_upto(self@, ops, k as int);
                let ghost wk1 = apply_upto(self@, ops, k as int + 1);
                proof {
                    assert(wk1 == crate::model::seed_one(
                        wk,
                        ops[k as int].0,
                        ops[k as int].1,
                        ops[k as int].2,
                    ));
                }
                match &operations[k] {
                    Operation::ChangeWeight(a, b, new_w) => {
                        proof {
                            assert(ops[k as int] == (*a as int, *b as int, new_w.wv()));
                        }
                        if *a == i {
                            let same = weight_recorded(&nbrs, *b, new_w);
                            nbrs = upsert_exec(&nbrs, *b, new_w);
                            if !same {
                                dv = modify_dv(&dv, *b, new_w);
                            }
                        } else if *b == i {
                            let same = weight_recorded(&nbrs, *a, new_w);
                            nbrs = upsert_exec(&nbrs, *a, new_w);
                            if !same {
                                dv = modify_dv(&dv, *a, new_w);
                            }
                        }
                    },
                }
                proof {
                    lemma_apply_upto_props(self@, ops, k as int + 1);
                    assert(dv_view(dv@) == wk1.nodes[i as int].dv);
                    assert(wk1.nodes[i as int].dv.len() == self@.nodes[i as int].dv.len());
                    assert(dv@.len() == dv_view(dv@).len());
                }
                k += 1;
            }
            let mut pend: bool = false;
            let mut q: usize = 0;
            while q < nbrs.len()
                invariant
                    q <= nbrs@.len(),
                    ops == ops_view(operations@),
                    pend == exists|t: int|
                        0 <= t < q && is_endpoint(ops, (#[trigger] nbrs_view(nbrs@)[t]).0),
                decreases nbrs@.len() - q,
            {
                if is_endpoint_exec(&operations, nbrs[q].index) {
                    pend = true;
                    proof {
                        assert(is_endpoint(ops, (nbrs_view(nbrs@)[q as int]).0));
                    }
                }
                q += 1;
            }
            proof {
                assert(pend == pending_after(w1, ops, i as int));
            }
            new_nodes.push(
                Node {
                    name: self.nodes[i].name.clone(),
                    dv,
                    neighbors: nbrs,
                    index: i,
                    has_updates: pend,
                },
            );
            proof {
                lemma_apply_upto_props(self@, ops, ops.len() as int);
                assert(new_nodes@[i as int].name@ == w1.nodes[i as int].name);
            }
            i += 1;
        }
        let r = World { nodes: new_nodes, generation: self.generation };
        proof {
            assert(r@ =~~= apply_ops(self@, ops));
            let w2 = apply_ops(self@, ops);
            assert forall|ii: int| 0 <= ii < w2.nodes.len() implies node_wf(w2, ii) by {
                assert(node_wf(w1, ii));
                assert(w2.nodes[ii].dv == w1.nodes[ii].dv);
                assert(w2.nodes[ii].nbrs == w1.nodes[ii].nbrs);
                assert(forall|k: int|
                    0 <= k < w2.nodes[ii].nbrs.len() ==> w2.nodes[(#[trigger] w2.nodes[ii].nbrs[k]).0].nbrs
                        == w1.nodes[w2.nodes[ii].nbrs[k].0].nbrs);
            }
        }
        r
    }
}

} // verus!
