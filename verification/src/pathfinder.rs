//! The pathing of the search, with a memory of the questions it has answered.

use crate::fx::{id_map_get, pair_map_get, pair_map_insert, share};
use crate::graph::Graph;
use crate::lists::lemma_map_multiset;
use crate::mix::{lemma_xor_order, lemma_xor_push, mixed, splitmix64, xor_all};
use crate::node_index::{known, NodeIndex};
use crate::order::{lemma_ascending_unique, list_ids, listing};
use crate::paths::{lemma_known_nodes, lemma_routes, routes, Query};
use crate::sweep::{explore, names, PathResult};
use rustc_hash::{FxHashMap, FxHashSet};
use std::rc::Rc;
use vstd::prelude::*;

verus! {

/// A question and its answer: the frontier and the banned nodes, as far as the
/// tree holds them, and the weight of a banned node.
pub struct Answered {
    pub frontier: Vec<i32>,
    pub excluded: Vec<i32>,
    pub detour: i64,
    pub paths: Rc<PathResult>,
}

impl Answered {
    pub open spec fn query(&self) -> Query {
        Query {
            frontier: self.frontier@.to_set(),
            excluded: self.excluded@.to_set(),
            detour: self.detour as nat,
        }
    }

    pub open spec fn right(&self, g: Graph, idx: &NodeIndex) -> bool {
        &&& self.detour >= 1
        &&& self.paths.holds(idx)
        &&& self.paths.routes@.answer(g, self.query())
    }
}

/// Answers where the tree can be walked to. A question that was asked before is
/// answered from memory.
pub struct Pathfinder {
    pub idx: NodeIndex,
    /// What was answered, by the signatures of the frontier and of the banned
    /// nodes. An entry counts only for the question that it was made for.
    pub memo: FxHashMap<(u64, u64), Answered>,
    /// The tree that the numbering was made for.
    pub graph: Ghost<Graph>,
}

/// A signature of a set of indices: their hashes combined, with the number of
/// them folded in.
pub open spec fn set_signature(indices: Seq<u32>) -> u64 {
    xor_all(indices.map_values(|i: u32| mixed(i as u64))).wrapping_mul(
        0x0100_0000_0100_0001,
    ).wrapping_add(indices.len() as u64)
}

/// The order of the indices does not change their signature.
pub proof fn lemma_signature_order(a: Seq<u32>, b: Seq<u32>)
    requires
        a.to_multiset() == b.to_multiset(),
    ensures
        set_signature(a) == set_signature(b),
{
    broadcast use vstd::seq_lib::group_to_multiset_ensures;

    assert(a.len() == a.to_multiset().len());
    assert(b.len() == b.to_multiset().len());
    let f = |i: u32| mixed(i as u64);
    lemma_map_multiset(a, b, f);
    lemma_xor_order(a.map_values(f), b.map_values(f));
}

/// Whether two lists hold the same ids in the same order.
fn same_ids(a: &Vec<i32>, b: &Vec<i32>) -> (same: bool)
    ensures
        same == (a@ == b@),
{
    if a.len() != b.len() {
        return false;
    }
    let mut i: usize = 0;
    while i < a.len()
        invariant
            i <= a@.len(),
            a@.len() == b@.len(),
            forall|j: int| 0 <= j < i ==> a@[j] == b@[j],
        decreases a@.len() - i,
    {
        if a[i] != b[i] {
            return false;
        }
        i = i + 1;
    }
    assert(a@ =~= b@);
    true
}

impl Pathfinder {
    pub open spec fn wf(&self) -> bool {
        &&& self.graph@.searchable()
        &&& self.idx.indexes(self.graph@)
        &&& forall|key: (u64, u64)| #[trigger]
            self.memo@.contains_key(key) ==> self.memo@[key].right(self.graph@, &self.idx)
    }

    /// The nodes of the tree among some ids, in ascending order.
    pub open spec fn nodes_of(&self, ids: Set<i32>) -> Seq<i32> {
        known(self.graph@, listing(ids))
    }

    /// The signature under which some ids are kept.
    pub open spec fn slot(&self, ids: Set<i32>) -> u64 {
        set_signature(self.nodes_of(ids).map_values(|id: i32| self.idx.index_of@[id]))
    }

    /// What is kept under the signatures of a question.
    pub open spec fn kept(&self, frontier: Set<i32>, excluded: Set<i32>) -> Answered {
        self.memo@[(self.slot(frontier), self.slot(excluded))]
    }

    /// Whether the answer to a question is kept.
    pub open spec fn remembers(
        &self,
        frontier: Set<i32>,
        excluded: Set<i32>,
        detour: i64,
    ) -> bool {
        &&& self.memo@.contains_key((self.slot(frontier), self.slot(excluded)))
        &&& self.kept(frontier, excluded).frontier@ == self.nodes_of(frontier)
        &&& self.kept(frontier, excluded).excluded@ == self.nodes_of(excluded)
        &&& self.kept(frontier, excluded).detour == detour
    }

    /// A pathfinder for a tree, with nothing answered yet.
    pub fn new(g: &Graph) -> (pf: Pathfinder)
        requires
            g.searchable(),
        ensures
            pf.wf(),
            pf.graph@ == *g,
            pf.memo@ == Map::<(u64, u64), Answered>::empty(),
    {
        Pathfinder { idx: NodeIndex::build(g), memo: FxHashMap::default(), graph: Ghost(*g) }
    }

    /// A signature of a set of indices that does not depend on their order.
    pub fn signature(indices: &Vec<u32>) -> (sig: u64)
        ensures
            sig == set_signature(indices@),
    {
        let mut sig: u64 = 0;
        let mut k: usize = 0;
        assert(indices@.take(0).map_values(|i: u32| mixed(i as u64)) =~= Seq::empty());
        while k < indices.len()
            invariant
                k <= indices@.len(),
                sig == xor_all(indices@.take(k as int).map_values(|i: u32| mixed(i as u64))),
            decreases indices@.len() - k,
        {
            proof {
                let before = indices@.take(k as int).map_values(|i: u32| mixed(i as u64));
                lemma_xor_push(before, mixed(indices@[k as int] as u64));
                assert(indices@.take(k + 1).map_values(|i: u32| mixed(i as u64)) =~= before.push(
                    mixed(indices@[k as int] as u64),
                ));
            }
            sig = sig ^ splitmix64(indices[k] as u64);
            k = k + 1;
        }
        assert(indices@.take(k as int) =~= indices@);
        sig.wrapping_mul(0x0100_0000_0100_0001).wrapping_add(indices.len() as u64)
    }

    /// The nodes of the tree among `ids`, with their indices.
    fn translate(&self, ids: &Vec<i32>) -> (both: (Vec<i32>, Vec<u32>))
        requires
            self.wf(),
        ensures
            both.0@ == known(self.graph@, ids@),
            both.1@ == both.0@.map_values(|id: i32| self.idx.index_of@[id]),
            names(&self.idx, both.1@) == both.0@,
            forall|k: int|
                0 <= k < both.1@.len() ==> (#[trigger] both.1@[k]) < self.idx.id_of@.len(),
    {
        let mut found: Vec<i32> = Vec::new();
        let mut indices: Vec<u32> = Vec::new();
        let mut k: usize = 0;
        proof {
            reveal(Seq::filter);
            assert(ids@.take(0) =~= Seq::empty());
        }
        while k < ids.len()
            invariant
                k <= ids@.len(),
                self.wf(),
                found@ =~= known(self.graph@, ids@.take(k as int)),
                names(&self.idx, indices@) =~= found@,
                indices@ =~= found@.map_values(|id: i32| self.idx.index_of@[id]),
                forall|j: int|
                    0 <= j < indices@.len() ==> (#[trigger] indices@[j]) < self.idx.id_of@.len(),
            decreases ids@.len() - k,
        {
            let id: i32 = ids[k];
            proof {
                reveal(Seq::filter);
                assert(ids@.take(k + 1).drop_last() =~= ids@.take(k as int));
            }
            let ghost before = indices@;
            match id_map_get(&self.idx.index_of, id) {
                Some(i) => {
                    proof {
                        self.idx.lemma_number(self.graph@, id);
                    }
                    found.push(id);
                    indices.push(*i);
                    assert(names(&self.idx, indices@) =~= names(&self.idx, before).push(id));
                },
                None => {},
            }
            k = k + 1;
        }
        assert(ids@.take(k as int) =~= ids@);
        (found, indices)
    }

    /// What was kept for this very question.
    fn recall(
        &self,
        key: (u64, u64),
        from: &Vec<i32>,
        bans: &Vec<i32>,
        detour: i64,
    ) -> (kept: Option<Rc<PathResult>>)
        requires
            self.wf(),
        ensures
            match kept {
                Some(paths) => {
                    &&& self.memo@.contains_key(key)
                    &&& self.memo@[key].frontier@ == from@
                    &&& self.memo@[key].excluded@ == bans@
                    &&& self.memo@[key].detour == detour
                    &&& paths == self.memo@[key].paths
                    &&& paths.holds(&self.idx)
                    &&& paths.routes@.answer(
                        self.graph@,
                        Query {
                            frontier: from@.to_set(),
                            excluded: bans@.to_set(),
                            detour: detour as nat,
                        },
                    )
                },
                None => !(self.memo@.contains_key(key) && self.memo@[key].frontier@ == from@
                    && self.memo@[key].excluded@ == bans@ && self.memo@[key].detour == detour),
            },
    {
        match pair_map_get(&self.memo, key) {
            Some(kept) => {
                if kept.detour == detour && same_ids(&kept.frontier, from) && same_ids(
                    &kept.excluded,
                    bans,
                ) {
                    assert(kept.frontier@ =~= from@);
                    assert(kept.excluded@ =~= bans@);
                    assert(kept.right(self.graph@, &self.idx));
                    Some(share(&kept.paths))
                } else {
                    None
                }
            },
            None => None,
        }
    }

    proof fn lemma_known_set(g: Graph, ids: Seq<i32>, set: Set<i32>, v: i32)
        requires
            ids.to_set() == set,
            g.ty@.contains_key(v),
        ensures
            known(g, ids).to_set().contains(v) <==> set.contains(v),
    {
        broadcast use vstd::seq_lib::group_filter_ensures;

        let holds = |id: i32| g.ty@.contains_key(id);
        if set.contains(v) {
            assert(ids.to_set().contains(v));
            let i = choose|i: int| 0 <= i < ids.len() && ids[i] == v;
            assert(holds(ids[i]));
            assert(ids.filter(holds).contains(v));
        }
        if known(g, ids).to_set().contains(v) {
            assert(ids.filter(holds).contains(v));
            ids.lemma_filter_contains_rev(holds, v);
            assert(ids.to_set().contains(v));
        }
    }

    /// The shortest routes from the nodes of `id_set`. The nodes of `excluded` can
    /// be stepped on, at a weight of `detour`. A question that was asked before
    /// is answered with the result kept from then.
    pub fn paths_from_set(
        &mut self,
        id_set: &FxHashSet<i32>,
        excluded: &FxHashSet<i32>,
        detour: i64,
    ) -> (paths: Rc<PathResult>)
        requires
            old(self).wf(),
            detour >= 1,
        ensures
            final(self).wf(),
            final(self).graph == old(self).graph,
            final(self).idx == old(self).idx,
            paths.holds(&final(self).idx),
            ({
                let q = Query { frontier: id_set@, excluded: excluded@, detour: detour as nat };
                &&& paths.routes@.answer(final(self).graph@, q)
                &&& paths.routes@ == routes(final(self).graph@, q)
            }),
            final(self).remembers(id_set@, excluded@, detour),
            paths == final(self).kept(id_set@, excluded@).paths,
            old(self).remembers(id_set@, excluded@, detour) ==> final(self).memo@ == old(
                self,
            ).memo@,
    {
        let ghost g = self.graph@;
        let ghost q = Query { frontier: id_set@, excluded: excluded@, detour: detour as nat };
        let id_list: Vec<i32> = list_ids(id_set);
        let ban_list: Vec<i32> = list_ids(excluded);
        let (from, frontier_idx) = self.translate(&id_list);
        let (bans, excluded_idx) = self.translate(&ban_list);
        let ghost asked = Query {
            frontier: from@.to_set(),
            excluded: bans@.to_set(),
            detour: detour as nat,
        };
        proof {
            assert forall|v: i32| g.ty@.contains_key(v) implies (asked.frontier.contains(v)
                <==> q.frontier.contains(v)) by {
                Self::lemma_known_set(g, id_list@, id_set@, v);
            }
            assert forall|v: i32| g.ty@.contains_key(v) implies (asked.excluded.contains(v)
                <==> q.excluded.contains(v)) by {
                Self::lemma_known_set(g, ban_list@, excluded@, v);
            }
        }
        let key: (u64, u64) = (Self::signature(&frontier_idx), Self::signature(&excluded_idx));
        match self.recall(key, &from, &bans, detour) {
            Some(paths) => {
                proof {
                    lemma_known_nodes(g, asked, q, paths.routes@);
                    lemma_routes(g, q, paths.routes@);
                }
                return paths;
            },
            None => {},
        }
        let paths: Rc<PathResult> = Rc::new(
            explore(&self.idx, &frontier_idx, &excluded_idx, detour, Ghost(g)),
        );
        proof {
            lemma_known_nodes(g, asked, q, paths.routes@);
            lemma_routes(g, q, paths.routes@);
        }
        let ghost memo0 = self.memo@;
        pair_map_insert(
            &mut self.memo,
            key,
            Answered { frontier: from, excluded: bans, detour, paths: share(&paths) },
        );
        proof {
            assert forall|k: (u64, u64)| #[trigger]
                self.memo@.contains_key(k) implies self.memo@[k].right(g, &self.idx) by {
                if k != key {
                    assert(memo0.contains_key(k));
                }
            }
        }
        paths
    }
}

/// What was asked before never changes an answer: two pathfinders for the same
/// tree, whatever each of them remembers, answer a question with the same arrays.
pub proof fn lemma_memory_changes_no_answer(
    one: Pathfinder,
    other: Pathfinder,
    q: Query,
    a: PathResult,
    b: PathResult,
)
    requires
        one.wf(),
        other.wf(),
        one.graph@ == other.graph@,
        a.holds(&one.idx),
        a.routes@ == routes(one.graph@, q),
        b.holds(&other.idx),
        b.routes@ == routes(other.graph@, q),
    ensures
        a.pdist@ == b.pdist@,
        a.prev@ == b.prev@,
        a.in_frontier@ == b.in_frontier@,
        a.reached@ == b.reached@,
{
    let ids = one.idx.id_of@;
    lemma_ascending_unique(ids, other.idx.id_of@);
    assert(ids == other.idx.id_of@);
    assert forall|i: int| 0 <= i < ids.len() implies a.pdist@[i] == b.pdist@[i] && a.prev@[i]
        == b.prev@[i] && a.in_frontier@[i] == b.in_frontier@[i] by {
        assert(a.says(&one.idx, i)) by {
            assert(one.idx.id_of@[i] == ids[i]);
        }
        assert(b.says(&other.idx, i)) by {
            assert(other.idx.id_of@[i] == ids[i]);
        }
        if a.routes@.prev.contains_key(ids[i]) {
            one.idx.lemma_id_order(one.graph@, a.prev@[i] as int, b.prev@[i] as int);
            one.idx.lemma_id_order(one.graph@, b.prev@[i] as int, a.prev@[i] as int);
        }
    }
    assert forall|k: int| 0 <= k < a.reached@.len() implies a.reached@[k] == b.reached@[k] by {
        assert(ids[a.reached@[k] as int] == ids[b.reached@[k] as int]);
        one.idx.lemma_id_order(one.graph@, a.reached@[k] as int, b.reached@[k] as int);
        one.idx.lemma_id_order(one.graph@, b.reached@[k] as int, a.reached@[k] as int);
    }
}

} // verus!
