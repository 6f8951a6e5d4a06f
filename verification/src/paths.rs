//! What the pathing computes: the shortest routes from a set of allocated nodes
//! to every node that can be walked to.

use crate::graph::Graph;
use vstd::prelude::*;

verus! {

/// The routes from a frontier: for each reached node the weight of its route,
/// the node before it, the number of new nodes on the route, and all reached
/// nodes in the order in which they are reached.
#[verifier::ext_equal]
pub struct Routes {
    pub weight: Map<i32, nat>,
    pub prev: Map<i32, i32>,
    pub hops: Map<i32, nat>,
    pub order: Seq<i32>,
}

/// What a walk starts from and what it pays: the nodes at hand, the nodes that
/// are banned as targets, and the weight of stepping on a banned one.
pub struct Query {
    pub frontier: Set<i32>,
    pub excluded: Set<i32>,
    pub detour: nat,
}

impl Query {
    /// The weight of stepping on a node.
    pub open spec fn toll(self, v: i32) -> nat {
        if self.excluded.contains(v) {
            self.detour
        } else {
            1
        }
    }

    /// Whether `v` is a node of the tree at which a route starts.
    pub open spec fn source(self, g: Graph, v: i32) -> bool {
        self.frontier.contains(v) && g.ty@.contains_key(v)
    }

    /// Whether a route may step on `v`.
    pub open spec fn passable(self, g: Graph, v: i32) -> bool {
        self.source(g, v) || g.target(v) || v == g.start
    }
}

/// Order by weight, then by id.
pub open spec fn nearer(a: (nat, i32), b: (nat, i32)) -> bool {
    a.0 < b.0 || (a.0 == b.0 && a.1 < b.1)
}

impl Routes {
    pub open spec fn reaches(self, v: i32) -> bool {
        self.weight.contains_key(v)
    }

    /// The place of a node in the order of reaching.
    pub open spec fn place(self, v: i32) -> (nat, i32) {
        (self.weight[v], v)
    }

    /// Whether a reached node hangs on the nearest reached node that leads to it.
    pub open spec fn hangs_well(self, g: Graph, q: Query, v: i32) -> bool {
        let u = self.prev[v];
        &&& self.prev.contains_key(v)
        &&& self.reaches(u)
        &&& g.edge(u, v)
        &&& self.weight[v] == self.weight[u] + q.toll(v)
        &&& self.hops[v] == self.hops[u] + 1
        &&& forall|w: i32| #[trigger]
            self.reaches(w) && g.edge(w, v) ==> w == u || nearer(self.place(u), self.place(w))
    }

    /// Whether these are the shortest routes that `q` asks for: sources weigh
    /// nothing, every other reached node hangs on the nearest node that leads to
    /// it, and nothing that can be stepped on from a reached node is left out.
    pub open spec fn answer(self, g: Graph, q: Query) -> bool {
        &&& self.hops.dom() == self.weight.dom()
        &&& self.order.to_set() == self.weight.dom()
        &&& forall|v: i32| #[trigger]
            q.source(g, v) ==> self.reaches(v) && self.weight[v] == 0 && self.hops[v] == 0
                && !self.prev.contains_key(v)
        &&& forall|v: i32| #[trigger] self.prev.contains_key(v) ==> self.reaches(v)
        &&& forall|v: i32| #[trigger]
            self.reaches(v) && !q.source(g, v) ==> q.passable(g, v) && self.hangs_well(g, q, v)
        &&& forall|u: i32, v: i32| #[trigger]
            g.edge(u, v) && self.reaches(u) && q.passable(g, v) ==> self.reaches(v)
        &&& forall|i: int, j: int|
            0 <= i < j < self.order.len() ==> nearer(
                self.place(#[trigger] self.order[i]),
                self.place(#[trigger] self.order[j]),
            )
    }

    /// The new nodes on the route to `v`, from `v` back to the last one before
    /// the frontier.
    pub open spec fn path(self, v: i32) -> Seq<i32>
        decreases self.hops[v],
    {
        if self.prev.contains_key(v) && self.hops[self.prev[v]] < self.hops[v] {
            seq![v] + self.path(self.prev[v])
        } else {
            Seq::empty()
        }
    }
}

/// The shortest routes that `q` asks for. There is one answer.
pub open spec fn routes(g: Graph, q: Query) -> Routes {
    choose|r: Routes| r.answer(g, q)
}

proof fn lemma_no_heavier(g: Graph, q: Query, a: Routes, b: Routes, v: i32)
    requires
        q.detour >= 1,
        a.answer(g, q),
        b.answer(g, q),
        a.reaches(v),
    ensures
        b.reaches(v),
        b.weight[v] <= a.weight[v],
    decreases a.weight[v],
{
    if !q.source(g, v) {
        let u = a.prev[v];
        assert(a.hangs_well(g, q, v));
        lemma_no_heavier(g, q, a, b, u);
        assert(g.edge(u, v) && b.reaches(u));
        assert(b.reaches(v));
        assert(b.hangs_well(g, q, v));
    }
}

proof fn lemma_same_hops(g: Graph, q: Query, a: Routes, b: Routes, v: i32)
    requires
        q.detour >= 1,
        a.answer(g, q),
        b.answer(g, q),
        a.weight == b.weight,
        a.prev == b.prev,
        a.reaches(v),
    ensures
        b.hops[v] == a.hops[v],
    decreases a.weight[v],
{
    if !q.source(g, v) {
        assert(a.hangs_well(g, q, v));
        assert(b.reaches(v));
        assert(b.hangs_well(g, q, v));
        lemma_same_hops(g, q, a, b, a.prev[v]);
    }
}

proof fn lemma_same_order(a: Seq<i32>, b: Seq<i32>, weight: Map<i32, nat>)
    requires
        a.to_set() == b.to_set(),
        forall|i: int, j: int|
            0 <= i < j < a.len() ==> nearer(
                (weight[#[trigger] a[i]], a[i]),
                (weight[#[trigger] a[j]], a[j]),
            ),
        forall|i: int, j: int|
            0 <= i < j < b.len() ==> nearer(
                (weight[#[trigger] b[i]], b[i]),
                (weight[#[trigger] b[j]], b[j]),
            ),
    ensures
        a == b,
    decreases a.len(),
{
    if a.len() == 0 {
        if b.len() > 0 {
            assert(b.to_set().contains(b[0]));
            assert(a.contains(b[0]));
        }
        assert(a =~= b);
    } else if b.len() == 0 {
        assert(a.to_set().contains(a[0]));
        assert(b.contains(a[0]));
    } else {
        let x = a.last();
        let y = b.last();
        assert(a.to_set().contains(x));
        assert(b.contains(x));
        assert(b.to_set().contains(y));
        assert(a.contains(y));
        assert(x == y) by {
            let i = choose|i: int| 0 <= i < b.len() && b[i] == x;
            let j = choose|j: int| 0 <= j < a.len() && a[j] == y;
            if x != y {
                assert(nearer((weight[b[i]], b[i]), (weight[b[b.len() - 1]], b[b.len() - 1])));
                assert(nearer((weight[a[j]], a[j]), (weight[a[a.len() - 1]], a[a.len() - 1])));
            }
        }
        let a1 = a.drop_last();
        let b1 = b.drop_last();
        assert forall|z: i32| a1.to_set().contains(z) <==> b1.to_set().contains(z) by {
            if a1.contains(z) {
                let i = choose|i: int| 0 <= i < a1.len() && a1[i] == z;
                assert(a[i] == z && z != x);
                assert(a.to_set().contains(z));
                assert(b.contains(z));
                let k = choose|k: int| 0 <= k < b.len() && b[k] == z;
                assert(b1[k] == z);
            }
            if b1.contains(z) {
                let i = choose|i: int| 0 <= i < b1.len() && b1[i] == z;
                assert(b[i] == z && z != y);
                assert(b.to_set().contains(z));
                assert(a.contains(z));
                let k = choose|k: int| 0 <= k < a.len() && a[k] == z;
                assert(a1[k] == z);
            }
        }
        assert(a1.to_set() =~= b1.to_set());
        lemma_same_order(a1, b1, weight);
        assert(a =~= a1.push(x));
        assert(b =~= b1.push(y));
    }
}

/// A question has one answer at most.
pub proof fn lemma_one_answer(g: Graph, q: Query, a: Routes, b: Routes)
    requires
        q.detour >= 1,
        a.answer(g, q),
        b.answer(g, q),
    ensures
        a == b,
{
    assert forall|v: i32| a.reaches(v) <==> b.reaches(v) by {
        if a.reaches(v) {
            lemma_no_heavier(g, q, a, b, v);
        }
        if b.reaches(v) {
            lemma_no_heavier(g, q, b, a, v);
        }
    }
    assert forall|v: i32| a.reaches(v) implies a.weight[v] == b.weight[v] by {
        lemma_no_heavier(g, q, a, b, v);
        lemma_no_heavier(g, q, b, a, v);
    }
    assert(a.weight.dom() =~= b.weight.dom()) by {
        assert forall|v: i32| a.weight.dom().contains(v) <==> b.weight.dom().contains(v) by {
            assert(a.reaches(v) <==> b.reaches(v));
        }
    }
    assert forall|v: i32| a.weight.contains_key(v) implies a.weight[v] == b.weight[v] by {
        assert(a.reaches(v));
    }
    assert(a.weight =~= b.weight);
    assert forall|v: i32| a.prev.contains_key(v) <==> b.prev.contains_key(v) by {
        if a.prev.contains_key(v) {
            assert(a.reaches(v));
            assert(b.reaches(v));
            assert(!q.source(g, v));
            assert(b.hangs_well(g, q, v));
        }
        if b.prev.contains_key(v) {
            assert(b.reaches(v));
            assert(a.reaches(v));
            assert(!q.source(g, v));
            assert(a.hangs_well(g, q, v));
        }
    }
    assert(a.prev.dom() =~= b.prev.dom());
    assert forall|v: i32| a.prev.contains_key(v) implies a.prev[v] == b.prev[v] by {
        assert(a.reaches(v) && b.reaches(v));
        assert(!q.source(g, v));
        assert(a.hangs_well(g, q, v));
        assert(b.hangs_well(g, q, v));
        let x = a.prev[v];
        let y = b.prev[v];
        assert(a.reaches(y) && g.edge(y, v));
        assert(b.reaches(x) && g.edge(x, v));
    }
    assert(a.prev =~= b.prev);
    assert forall|v: i32| a.hops.contains_key(v) implies a.hops[v] == b.hops[v] by {
        assert(a.weight.dom().contains(v));
        assert(a.reaches(v));
        lemma_same_hops(g, q, a, b, v);
    }
    assert(a.hops =~= b.hops);
    lemma_same_order(a.order, b.order, a.weight);
}

pub proof fn lemma_routes(g: Graph, q: Query, r: Routes)
    requires
        q.detour >= 1,
        r.answer(g, q),
    ensures
        routes(g, q) == r,
{
    lemma_one_answer(g, q, routes(g, q), r);
}

/// Only the nodes of the tree count, in the frontier and among the banned ones.
pub proof fn lemma_known_nodes(g: Graph, p: Query, q: Query, r: Routes)
    requires
        r.answer(g, p),
        p.detour == q.detour,
        forall|v: i32|
            g.ty@.contains_key(v) ==> (p.frontier.contains(v) <==> q.frontier.contains(v)),
        forall|v: i32|
            g.ty@.contains_key(v) ==> (p.excluded.contains(v) <==> q.excluded.contains(v)),
        g.ty@.contains_key(g.start),
    ensures
        r.answer(g, q),
{
    assert forall|v: i32| p.source(g, v) <==> q.source(g, v) by {}
    assert forall|v: i32| #[trigger] r.reaches(v) && !q.source(g, v) implies q.passable(g, v)
        && r.hangs_well(g, q, v) by {
        assert(p.passable(g, v) && r.hangs_well(g, p, v));
        assert(g.ty@.contains_key(v));
    }
    assert forall|u: i32, v: i32| #[trigger] g.edge(u, v) && r.reaches(u) && q.passable(
        g,
        v,
    ) implies r.reaches(v) by {
        assert(p.passable(g, v));
    }
}

/// What a walk over the tree weighs: the tolls of all nodes but the first.
pub open spec fn walk_weight(q: Query, walk: Seq<i32>) -> nat
    decreases walk.len(),
{
    if walk.len() <= 1 {
        0
    } else {
        walk_weight(q, walk.drop_last()) + q.toll(walk.last())
    }
}

/// Whether `walk` starts at a source and steps along links onto passable nodes.
pub open spec fn walkable(g: Graph, q: Query, walk: Seq<i32>) -> bool {
    &&& walk.len() > 0
    &&& q.source(g, walk[0])
    &&& forall|i: int|
        0 < i < walk.len() ==> g.edge(walk[i - 1], #[trigger] walk[i]) && q.passable(g, walk[i])
}

/// Routes are shortest: where a walk leads, a route leads too, and it weighs no
/// more than the walk.
pub proof fn lemma_routes_are_shortest(g: Graph, q: Query, r: Routes, walk: Seq<i32>)
    requires
        q.detour >= 1,
        r.answer(g, q),
        walkable(g, q, walk),
    ensures
        r.reaches(walk.last()),
        r.weight[walk.last()] <= walk_weight(q, walk),
    decreases walk.len(),
{
    if walk.len() > 1 {
        let w = walk.drop_last();
        let v = walk.last();
        assert forall|i: int| 0 < i < w.len() implies g.edge(w[i - 1], #[trigger] w[i])
            && q.passable(g, w[i]) by {
            assert(w[i] == walk[i] && w[i - 1] == walk[i - 1]);
        }
        lemma_routes_are_shortest(g, q, r, w);
        assert(g.edge(walk[walk.len() - 2], walk[walk.len() - 1]));
        assert(r.reaches(v));
        if !q.source(g, v) {
            assert(r.hangs_well(g, q, v));
            assert(r.reaches(w.last()) && g.edge(w.last(), v));
        }
    }
}

/// The route to a node that is no source steps along links from a source to it:
/// each node on it is new, it is as long as `hops` says, and it holds no node
/// twice.
pub proof fn lemma_path(g: Graph, q: Query, r: Routes, v: i32)
    requires
        q.detour >= 1,
        r.answer(g, q),
        r.reaches(v),
    ensures
        r.path(v).len() == r.hops[v],
        q.source(g, v) <==> r.path(v).len() == 0,
        !q.source(g, v) ==> r.path(v)[0] == v && q.source(g, r.prev[r.path(v).last()]),
        forall|i: int|
            0 <= i < r.path(v).len() ==> {
                let x = #[trigger] r.path(v)[i];
                &&& r.reaches(x)
                &&& !q.source(g, x)
                &&& r.hops[x] == r.hops[v] - i
                &&& (i + 1 < r.path(v).len() ==> r.prev[x] == r.path(v)[i + 1])
            },
        r.path(v).no_duplicates(),
    decreases r.weight[v],
{
    if q.source(g, v) {
        assert(!r.prev.contains_key(v));
    } else {
        assert(r.hangs_well(g, q, v));
        let u = r.prev[v];
        lemma_path(g, q, r, u);
        let p = r.path(u);
        assert(r.path(v) =~= seq![v] + p);
        assert forall|i: int| 0 <= i < r.path(v).len() implies ({
            let x = #[trigger] r.path(v)[i];
            &&& r.reaches(x)
            &&& !q.source(g, x)
            &&& r.hops[x] == r.hops[v] - i
            &&& (i + 1 < r.path(v).len() ==> r.prev[x] == r.path(v)[i + 1])
        }) by {
            if i > 0 {
                assert(r.path(v)[i] == p[i - 1]);
            }
        }
        if p.len() > 0 {
            assert(r.path(v).last() == p.last());
        }
    }
}

/// Bans wall nothing off: what can be walked to does not depend on what is banned,
/// nor on what stepping on it weighs.
pub proof fn lemma_bans_wall_nothing_off(
    g: Graph,
    p: Query,
    q: Query,
    a: Routes,
    b: Routes,
    v: i32,
)
    requires
        p.frontier == q.frontier,
        p.detour >= 1,
        a.answer(g, p),
        b.answer(g, q),
        a.reaches(v),
    ensures
        b.reaches(v),
    decreases a.weight[v],
{
    if p.source(g, v) {
        assert(q.source(g, v));
    } else {
        assert(a.hangs_well(g, p, v));
        let u = a.prev[v];
        lemma_bans_wall_nothing_off(g, p, q, a, b, u);
        assert(p.passable(g, v));
        assert(q.source(g, v) <==> p.source(g, v));
        assert(g.edge(u, v) && b.reaches(u) && q.passable(g, v));
    }
}

/// What routes tell. Where they start they weigh nothing. Every other node that is
/// reached can be chosen or is the class start; it is reached over a link from a reached
/// node, with one node more, and with a weight of one more, or of the detour where it is
/// banned. Of all reached nodes that lead to it that one weighs least, and has the least
/// id where there are several. The nodes are reached in the order of their weights, and
/// of their ids where these are equal, and nothing that can be walked to is left out.
pub proof fn lemma_what_routes_tell(g: Graph, q: Query, r: Routes, v: i32, w: i32)
    requires
        r.answer(g, q),
    ensures
        q.frontier.contains(v) && g.ty@.contains_key(v) ==> r.weight.contains_key(v)
            && r.weight[v] == 0 && r.hops[v] == 0 && !r.prev.contains_key(v),
        r.weight.contains_key(v) && !(q.frontier.contains(v) && g.ty@.contains_key(v)) ==> {
            let u = r.prev[v];
            &&& g.target(v) || v == g.start
            &&& r.prev.contains_key(v)
            &&& r.weight.contains_key(u)
            &&& g.links_from(u).contains(v)
            &&& q.excluded.contains(v) ==> r.weight[v] == r.weight[u] + q.detour
            &&& !q.excluded.contains(v) ==> r.weight[v] == r.weight[u] + 1
            &&& r.hops[v] == r.hops[u] + 1
            &&& r.weight.contains_key(w) && g.edge(w, v) ==> r.weight[u] < r.weight[w] || (
            r.weight[u] == r.weight[w] && u <= w)
        },
        r.weight.contains_key(w) && g.edge(w, v) && g.target(v) ==> r.weight.contains_key(v),
        r.order.contains(v) <==> r.weight.contains_key(v),
        forall|i: int, j: int|
            0 <= i < j < r.order.len() ==> {
                let a = #[trigger] r.order[i];
                let b = #[trigger] r.order[j];
                r.weight[a] < r.weight[b] || (r.weight[a] == r.weight[b] && a < b)
            },
{
    assert(q.frontier.contains(v) && g.ty@.contains_key(v) <==> q.source(g, v));
    assert(r.order.to_set().contains(v) <==> r.order.contains(v));
    if r.weight.contains_key(v) && !q.source(g, v) {
        assert(r.reaches(v));
        assert(r.hangs_well(g, q, v));
        if r.weight.contains_key(w) && g.edge(w, v) {
            assert(r.reaches(w));
        }
    }
    if r.weight.contains_key(w) && g.edge(w, v) && g.target(v) {
        assert(r.reaches(w) && q.passable(g, v));
    }
    assert forall|i: int, j: int| 0 <= i < j < r.order.len() implies {
        let a = #[trigger] r.order[i];
        let b = #[trigger] r.order[j];
        r.weight[a] < r.weight[b] || (r.weight[a] == r.weight[b] && a < b)
    } by {
        assert(nearer(r.place(r.order[i]), r.place(r.order[j])));
    }
}

} // verus!
