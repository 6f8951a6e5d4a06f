//! A dense numbering of the tree, so that pathing works on flat arrays.

use crate::fx::{id_map_get, id_map_insert};
use crate::graph::Graph;
use crate::order::{ascending, into_ascending};
use rustc_hash::FxHashMap;
use vstd::prelude::*;

verus! {

broadcast use vstd::std_specs::hash::group_hash_axioms;

/// A dense numbering of the nodes, in ascending order of their ids, with the
/// links as one flat list.
pub struct NodeIndex {
    /// The id of each index.
    pub id_of: Vec<i32>,
    /// The index of each id.
    pub index_of: FxHashMap<i32, u32>,
    /// The neighbours of index `i` are `adj[adj_off[i]..adj_off[i + 1]]`.
    pub adj: Vec<u32>,
    pub adj_off: Vec<usize>,
    /// Whether each index is a node that can be walked to for its own sake.
    pub is_target: Vec<bool>,
    /// The index of the class start.
    pub start: u32,
}

/// The ids that nodes of the tree have, out of a list of ids.
pub open spec fn known(g: Graph, ids: Seq<i32>) -> Seq<i32> {
    ids.filter(|id: i32| g.ty@.contains_key(id))
}

impl NodeIndex {
    /// The numbering of the nodes, without their links.
    pub open spec fn numbers(id_of: Seq<i32>, index_of: Map<i32, u32>, g: Graph) -> bool {
        &&& id_of.len() <= u32::MAX
        &&& ascending(id_of)
        &&& id_of.to_set() == g.ty@.dom()
        &&& index_of.dom() == g.ty@.dom()
        &&& forall|i: int| 0 <= i < id_of.len() ==> index_of[#[trigger] id_of[i]] == i
    }

    /// The row of index `i` in the flat list of neighbours.
    pub open spec fn row(adj: Seq<u32>, adj_off: Seq<usize>, i: int) -> Seq<u32> {
        adj.subrange(adj_off[i] as int, adj_off[i + 1] as int)
    }

    /// Whether a row holds the indices of the known neighbours of a node, in order.
    pub open spec fn row_fits(id_of: Seq<i32>, row: Seq<u32>, g: Graph, id: i32) -> bool {
        &&& forall|k: int| 0 <= k < row.len() ==> (#[trigger] row[k]) < id_of.len()
        &&& row.map_values(|v: u32| id_of[v as int]) == known(g, g.links_from(id))
    }

    /// Whether this is the numbering of `g`.
    pub open spec fn indexes(&self, g: Graph) -> bool {
        let n = self.id_of@.len();
        &&& NodeIndex::numbers(self.id_of@, self.index_of@, g)
        &&& self.adj_off@.len() == n + 1
        &&& forall|i: int|
            0 <= i < n ==> #[trigger] self.adj_off@[i] <= self.adj_off@[i + 1]
                <= self.adj@.len()
        &&& forall|i: int|
            0 <= i < n ==> NodeIndex::row_fits(
                self.id_of@,
                NodeIndex::row(self.adj@, self.adj_off@, i),
                g,
                #[trigger] self.id_of@[i],
            )
        &&& self.is_target@.len() == n
        &&& forall|i: int| 0 <= i < n ==> self.is_target@[i] == g.target(#[trigger] self.id_of@[i])
        &&& self.start < n
        &&& self.id_of@[self.start as int] == g.start
    }

    /// Numbers the nodes of a tree. A link to an id that the tree does not hold
    /// is left out.
    pub fn build(g: &Graph) -> (idx: NodeIndex)
        requires
            g.searchable(),
        ensures
            idx.indexes(*g),
    {
        let mut ids: Vec<i32> = Vec::new();
        for id in it: g.ty.keys()
            invariant
                it.seq().unref().to_set() == g.ty@.dom(),
                it.seq().unref().no_duplicates(),
                ids@ =~= it.seq().unref().take(it.index() as int),
                it.index() == it.seq().len() ==> ids@ =~= it.seq().unref(),
        {
            ids.push(*id);
        }
        assert(ids@.no_duplicates());
        assert(ids@.to_set() =~= g.ty@.dom());
        let ids: Vec<i32> = into_ascending(ids);
        NodeIndex::build_from(g, ids)
    }

    fn build_from(g: &Graph, ids: Vec<i32>) -> (idx: NodeIndex)
        requires
            g.searchable(),
            ascending(ids@),
            ids@.to_set() == g.ty@.dom(),
        ensures
            idx.indexes(*g),
    {
        let n: usize = ids.len();
        let mut index_of: FxHashMap<i32, u32> = FxHashMap::default();
        proof {
            assert(ids@.no_duplicates());
            ids@.unique_seq_to_set();
        }
        let mut i: usize = 0;
        while i < n
            invariant
                n == ids@.len(),
                n <= u32::MAX,
                i <= n,
                ids@.no_duplicates(),
                forall|id: i32| #[trigger]
                    index_of@.contains_key(id) <==> ids@.take(i as int).contains(id),
                forall|j: int| 0 <= j < i ==> index_of@[#[trigger] ids@[j]] == j,
            decreases n - i,
        {
            id_map_insert(&mut index_of, ids[i], i as u32);
            proof {
                assert(ids@.take(i + 1) =~= ids@.take(i as int).push(ids@[i as int]));
                assert forall|id: i32| #[trigger]
                    index_of@.contains_key(id) <==> ids@.take(i + 1).contains(id) by {
                    if ids@.take(i as int).contains(id) {
                        let j = choose|j: int| 0 <= j < i && ids@.take(i as int)[j] == id;
                        assert(ids@.take(i + 1)[j] == id);
                    }
                    if id == ids@[i as int] {
                        assert(ids@.take(i + 1)[i as int] == id);
                    }
                    if ids@.take(i + 1).contains(id) && id != ids@[i as int] {
                        let next = ids@.take(i + 1);
                        let j = choose|j: int| 0 <= j < next.len() && next[j] == id;
                        assert(ids@.take(i as int)[j] == id);
                    }
                }
            }
            i = i + 1;
        }
        assert(ids@.take(n as int) =~= ids@);
        assert(index_of@.dom() =~= g.ty@.dom()) by {
            assert forall|id: i32| index_of@.dom().contains(id) <==> g.ty@.dom().contains(id) by {
                assert(index_of@.contains_key(id) <==> ids@.contains(id));
                assert(ids@.to_set().contains(id) <==> ids@.contains(id));
            }
        }
        let mut adj_off: Vec<usize> = Vec::with_capacity(n);
        let mut adj: Vec<u32> = Vec::new();
        let mut is_target: Vec<bool> = Vec::with_capacity(n);
        adj_off.push(0);
        let mut i: usize = 0;
        while i < n
            invariant
                n == ids@.len(),
                i <= n,
                NodeIndex::numbers(ids@, index_of@, *g),
                adj_off@.len() == i + 1,
                adj_off@[i as int] == adj@.len(),
                forall|j: int|
                    0 <= j < i ==> #[trigger] adj_off@[j] <= adj_off@[j + 1] <= adj@.len(),
                forall|j: int|
                    0 <= j < i ==> NodeIndex::row_fits(
                        ids@,
                        NodeIndex::row(adj@, adj_off@, j),
                        *g,
                        #[trigger] ids@[j],
                    ),
                is_target@.len() == i,
                forall|j: int| 0 <= j < i ==> is_target@[j] == g.target(#[trigger] ids@[j]),
            decreases n - i,
        {
            let id: i32 = ids[i];
            let ghost adj0 = adj@;
            let ghost off0 = adj_off@;
            match g.links.get(&id) {
                Some(links) => {
                    NodeIndex::push_row(g, &ids, &index_of, links, &mut adj);
                    assert(NodeIndex::row_fits(
                        ids@,
                        adj@.subrange(adj0.len() as int, adj@.len() as int),
                        *g,
                        id,
                    ));
                },
                None => {
                    proof {
                        reveal(Seq::filter);
                        assert(adj@.subrange(adj0.len() as int, adj@.len() as int)
                            =~= Seq::empty());
                        assert(Seq::<u32>::empty().map_values(|v: u32| ids@[v as int]) =~= known(
                            *g,
                            Seq::empty(),
                        ));
                        assert(NodeIndex::row_fits(ids@, Seq::empty(), *g, id));
                    }
                },
            }
            adj_off.push(adj.len());
            is_target.push(g.is_target(id));
            proof {
                let row = adj@.subrange(adj0.len() as int, adj@.len() as int);
                assert(NodeIndex::row_fits(ids@, row, *g, id));
                assert(NodeIndex::row(adj@, adj_off@, i as int) =~= row);
                assert forall|j: int| 0 <= j < i + 1 implies NodeIndex::row_fits(
                    ids@,
                    NodeIndex::row(adj@, adj_off@, j),
                    *g,
                    #[trigger] ids@[j],
                ) by {
                    if j < i {
                        assert(off0[j] <= off0[j + 1] <= adj0.len());
                        assert(adj_off@[j] == off0[j] && adj_off@[j + 1] == off0[j + 1]);
                        assert(NodeIndex::row(adj@, adj_off@, j) =~= NodeIndex::row(adj0, off0, j));
                    }
                }
                assert forall|j: int| 0 <= j < i + 1 implies #[trigger] adj_off@[j] <= adj_off@[j
                    + 1] <= adj@.len() by {
                    if j < i {
                        assert(off0[j] <= off0[j + 1] <= adj0.len());
                    }
                }
            }
            i = i + 1;
        }
        let start: u32 = match id_map_get(&index_of, g.start) {
            Some(s) => *s,
            None => {
                assert(false);
                0
            },
        };
        proof {
            assert(ids@.to_set().contains(g.start));
            assert(ids@.contains(g.start));
            let k = choose|k: int| 0 <= k < ids@.len() && ids@[k] == g.start;
            assert(index_of@[ids@[k]] == k);
        }
        NodeIndex { id_of: ids, index_of, adj, adj_off, is_target, start }
    }

    /// Appends the indices of the known nodes among `links`.
    fn push_row(
        g: &Graph,
        ids: &Vec<i32>,
        index_of: &FxHashMap<i32, u32>,
        links: &Vec<i32>,
        adj: &mut Vec<u32>,
    )
        requires
            NodeIndex::numbers(ids@, index_of@, *g),
        ensures
            ({
                let row = final(adj)@.subrange(old(adj)@.len() as int, final(adj)@.len() as int);
                &&& final(adj)@.len() >= old(adj)@.len()
                &&& final(adj)@ == old(adj)@ + row
                &&& forall|k: int| 0 <= k < row.len() ==> (#[trigger] row[k]) < ids@.len()
                &&& row.map_values(|v: u32| ids@[v as int]) == known(*g, links@)
            }),
    {
        let ghost adj0 = adj@;
        let mut row: Ghost<Seq<u32>> = Ghost(Seq::empty());
        let mut k: usize = 0;
        proof {
            reveal(Seq::filter);
            assert(links@.take(0) =~= Seq::empty());
            assert(row@.map_values(|v: u32| ids@[v as int]) =~= known(*g, links@.take(0)));
        }
        while k < links.len()
            invariant
                k <= links@.len(),
                NodeIndex::numbers(ids@, index_of@, *g),
                adj@ == adj0 + row@,
                forall|j: int| 0 <= j < row@.len() ==> (#[trigger] row@[j]) < ids@.len(),
                row@.map_values(|v: u32| ids@[v as int]) == known(*g, links@.take(k as int)),
            decreases links@.len() - k,
        {
            let nid: i32 = links[k];
            let ghost row0 = row@;
            proof {
                reveal(Seq::filter);
                assert(links@.take(k + 1).drop_last() =~= links@.take(k as int));
                assert(links@.take(k + 1).last() == nid);
            }
            match id_map_get(index_of, nid) {
                Some(v) => {
                    adj.push(*v);
                    proof {
                        assert(ids@.to_set().contains(nid));
                        assert(ids@.contains(nid));
                        let i = choose|i: int| 0 <= i < ids@.len() && ids@[i] == nid;
                        assert(index_of@[ids@[i]] == i);
                        row@ = row0.push(*v);
                        assert(adj@ =~= adj0 + row@);
                        assert(row@.map_values(|v: u32| ids@[v as int]) =~= row0.map_values(
                            |v: u32| ids@[v as int],
                        ).push(nid));
                    }
                },
                None => {},
            }
            k = k + 1;
        }
        proof {
            assert(links@.take(links@.len() as int) =~= links@);
            assert(adj@.subrange(adj0.len() as int, adj@.len() as int) =~= row@);
        }
    }

    /// The number of nodes.
    pub fn len(&self) -> (n: usize)
        ensures
            n == self.id_of@.len(),
    {
        self.id_of.len()
    }
}

impl NodeIndex {
    /// Whether the row of `u` holds `v`.
    pub open spec fn link(&self, u: int, v: int) -> bool {
        exists|k: int|
            self.adj_off@[u] <= k < self.adj_off@[u + 1] && #[trigger] self.adj@[k] == v
    }

    pub proof fn lemma_link(&self, g: Graph, u: int, v: int)
        requires
            self.indexes(g),
            0 <= u < self.id_of@.len(),
            0 <= v < self.id_of@.len(),
        ensures
            self.link(u, v) <==> g.edge(self.id_of@[u], self.id_of@[v]),
    {
        let a = self.id_of@[u];
        let b = self.id_of@[v];
        let row = NodeIndex::row(self.adj@, self.adj_off@, u);
        assert(NodeIndex::row_fits(self.id_of@, row, g, a));
        let lo = self.adj_off@[u];
        assert(self.adj_off@[u] <= self.adj_off@[u + 1] <= self.adj@.len());
        let names = row.map_values(|v: u32| self.id_of@[v as int]);
        let links = g.links_from(a);
        let holds = |id: i32| g.ty@.contains_key(id);
        broadcast use vstd::seq_lib::group_filter_ensures;

        if self.link(u, v) {
            let k = choose|k: int|
                self.adj_off@[u] <= k < self.adj_off@[u + 1] && #[trigger] self.adj@[k] == v;
            assert(row[k - lo] == v);
            assert(names[k - lo] == b);
            assert(links.filter(holds)[k - lo] == b);
            assert(holds(b));
            links.lemma_filter_contains_rev(holds, b);
        }
        if g.edge(a, b) {
            let i = choose|i: int| 0 <= i < links.len() && links[i] == b;
            assert(holds(links[i]));
            assert(links.filter(holds).contains(b));
            let k = choose|k: int| 0 <= k < names.len() && names[k] == b;
            assert(row[k] < self.id_of@.len());
            assert(self.id_of@[row[k] as int] == self.id_of@[v]);
            assert(row[k] == v);
            assert(self.adj@[lo + k] == v);
        }
    }
}

impl NodeIndex {
    /// The index of a node.
    pub open spec fn number(&self, id: i32) -> int {
        self.index_of@[id] as int
    }

    pub proof fn lemma_number(&self, g: Graph, id: i32)
        requires
            self.indexes(g),
            g.ty@.contains_key(id),
        ensures
            0 <= self.number(id) < self.id_of@.len(),
            self.id_of@[self.number(id)] == id,
    {
        assert(self.id_of@.to_set().contains(id));
        assert(self.id_of@.contains(id));
        let i = choose|i: int| 0 <= i < self.id_of@.len() && self.id_of@[i] == id;
        assert(self.index_of@[self.id_of@[i]] == i);
    }

    pub proof fn lemma_named(&self, g: Graph, i: int)
        requires
            self.indexes(g),
            0 <= i < self.id_of@.len(),
        ensures
            g.ty@.contains_key(self.id_of@[i]),
            self.number(self.id_of@[i]) == i,
    {
        assert(self.id_of@.contains(self.id_of@[i]));
        assert(self.id_of@.to_set().contains(self.id_of@[i]));
    }

    pub proof fn lemma_id_order(&self, g: Graph, i: int, j: int)
        requires
            self.indexes(g),
            0 <= i < self.id_of@.len(),
            0 <= j < self.id_of@.len(),
        ensures
            i < j <==> self.id_of@[i] < self.id_of@[j],
    {
        if i < j {
            assert(self.id_of@[i] < self.id_of@[j]);
        } else if j < i {
            assert(self.id_of@[j] < self.id_of@[i]);
        }
    }
}

} // verus!
