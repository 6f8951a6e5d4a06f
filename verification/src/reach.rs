//! Every question for routes has an answer: the routes of least weight.

use crate::graph::Graph;
use crate::paths::{
    lemma_routes, nearer, routes, walk_weight, walkable, Query, Routes,
};
use vstd::prelude::*;

verus! {

/// Whether some walk to `v` weighs `w`.
spec fn weighs(g: Graph, q: Query, v: i32, w: nat) -> bool {
    exists|walk: Seq<i32>| #[trigger]
        walkable(g, q, walk) && walk.last() == v && walk_weight(q, walk) == w
}

spec fn reachable(g: Graph, q: Query, v: i32) -> bool {
    exists|w: nat| #[trigger] weighs(g, q, v, w)
}

/// Whether the lightest walk to `v` weighs `w`.
spec fn lightest(g: Graph, q: Query, v: i32, w: nat) -> bool {
    weighs(g, q, v, w) && forall|x: nat| #[trigger] weighs(g, q, v, x) ==> w <= x
}

spec fn least(g: Graph, q: Query, v: i32) -> nat {
    choose|w: nat| lightest(g, q, v, w)
}

proof fn lemma_lightest(g: Graph, q: Query, v: i32, w: nat)
    requires
        weighs(g, q, v, w),
    ensures
        exists|x: nat| lightest(g, q, v, x),
    decreases w,
{
    if !lightest(g, q, v, w) {
        let x = choose|x: nat| #[trigger] weighs(g, q, v, x) && x < w;
        lemma_lightest(g, q, v, x);
    }
}

proof fn lemma_least(g: Graph, q: Query, v: i32)
    requires
        reachable(g, q, v),
    ensures
        lightest(g, q, v, least(g, q, v)),
{
    let w = choose|w: nat| #[trigger] weighs(g, q, v, w);
    lemma_lightest(g, q, v, w);
}

/// A source is reached at no weight.
proof fn lemma_source(g: Graph, q: Query, v: i32)
    requires
        q.source(g, v),
    ensures
        reachable(g, q, v),
        least(g, q, v) == 0,
{
    let walk = seq![v];
    assert(walkable(g, q, walk));
    assert(walk_weight(q, walk) == 0);
    assert(weighs(g, q, v, 0));
    lemma_least(g, q, v);
}

/// A step from a reached node reaches the next.
proof fn lemma_step(g: Graph, q: Query, u: i32, v: i32)
    requires
        reachable(g, q, u),
        g.edge(u, v),
        q.passable(g, v),
    ensures
        reachable(g, q, v),
        least(g, q, v) <= least(g, q, u) + q.toll(v),
{
    lemma_least(g, q, u);
    let walk = choose|walk: Seq<i32>| #[trigger]
        walkable(g, q, walk) && walk.last() == u && walk_weight(q, walk) == least(g, q, u);
    let more = walk.push(v);
    assert(more.drop_last() =~= walk);
    assert forall|i: int| 0 < i < more.len() implies g.edge(more[i - 1], #[trigger] more[i])
        && q.passable(g, more[i]) by {
        if i < walk.len() {
            assert(more[i] == walk[i] && more[i - 1] == walk[i - 1]);
        } else {
            assert(more[i - 1] == walk.last());
        }
    }
    assert(walkable(g, q, more));
    assert(weighs(g, q, v, least(g, q, u) + q.toll(v)));
    lemma_least(g, q, v);
}

/// A reached node that is no source is reached by a step from another.
proof fn lemma_stepped(g: Graph, q: Query, v: i32) -> (u: i32)
    requires
        reachable(g, q, v),
        !q.source(g, v),
    ensures
        reachable(g, q, u),
        g.edge(u, v),
        q.passable(g, v),
        least(g, q, v) == least(g, q, u) + q.toll(v),
{
    lemma_least(g, q, v);
    let walk = choose|walk: Seq<i32>| #[trigger]
        walkable(g, q, walk) && walk.last() == v && walk_weight(q, walk) == least(g, q, v);
    assert(walk.len() > 1);
    let short = walk.drop_last();
    let u = short.last();
    assert forall|i: int| 0 < i < short.len() implies g.edge(short[i - 1], #[trigger] short[i])
        && q.passable(g, short[i]) by {
        assert(short[i] == walk[i] && short[i - 1] == walk[i - 1]);
    }
    assert(walkable(g, q, short));
    assert(g.edge(walk[walk.len() - 2], walk[walk.len() - 1]));
    assert(weighs(g, q, u, walk_weight(q, short)));
    lemma_least(g, q, u);
    lemma_step(g, q, u, v);
    u
}

/// Whether `u` is the nearest reached node that leads to `v`.
spec fn nearest_before(g: Graph, q: Query, u: i32, v: i32) -> bool {
    &&& reachable(g, q, u)
    &&& g.edge(u, v)
    &&& forall|w: i32| #[trigger]
        reachable(g, q, w) && g.edge(w, v) ==> w == u || nearer(
            (least(g, q, u), u),
            (least(g, q, w), w),
        )
}

spec fn before(g: Graph, q: Query, v: i32) -> i32 {
    choose|u: i32| nearest_before(g, q, u, v)
}

proof fn lemma_nearest(g: Graph, q: Query, u: i32, v: i32)
    requires
        reachable(g, q, u),
        g.edge(u, v),
    ensures
        exists|x: i32| nearest_before(g, q, x, v),
    decreases least(g, q, u), u - i32::MIN,
{
    if !nearest_before(g, q, u, v) {
        let w = choose|w: i32| #[trigger]
            reachable(g, q, w) && g.edge(w, v) && w != u && !nearer(
                (least(g, q, u), u),
                (least(g, q, w), w),
            );
        lemma_nearest(g, q, w, v);
    }
}

proof fn lemma_before(g: Graph, q: Query, v: i32)
    requires
        q.detour >= 1,
        reachable(g, q, v),
        !q.source(g, v),
    ensures
        nearest_before(g, q, before(g, q, v), v),
        q.passable(g, v),
        least(g, q, v) == least(g, q, before(g, q, v)) + q.toll(v),
{
    let u = lemma_stepped(g, q, v);
    lemma_nearest(g, q, u, v);
    let x = before(g, q, v);
    lemma_step(g, q, x, v);
    assert(reachable(g, q, u) && g.edge(u, v));
}

/// The number of steps to a reached node.
spec fn hop_count(g: Graph, q: Query, v: i32) -> nat
    decreases least(g, q, v),
{
    if q.source(g, v) || least(g, q, before(g, q, v)) >= least(g, q, v) {
        0
    } else {
        hop_count(g, q, before(g, q, v)) + 1
    }
}

/// Whether `s` lists nodes from the nearest to the farthest.
spec fn by_place(s: Seq<i32>, weight: Map<i32, nat>) -> bool {
    forall|i: int, j: int|
        0 <= i < j < s.len() ==> nearer(
            (weight[#[trigger] s[i]], s[i]),
            (weight[#[trigger] s[j]], s[j]),
        )
}

proof fn lemma_farthest(set: Set<i32>, weight: Map<i32, nat>) -> (x: i32)
    requires
        set.finite(),
        set.len() > 0,
    ensures
        set.contains(x),
        forall|y: i32| #[trigger]
            set.contains(y) ==> y == x || nearer((weight[y], y), (weight[x], x)),
    decreases set.len(),
{
    let a = set.choose();
    assert(set.contains(a));
    let rest = set.remove(a);
    if rest.len() == 0 {
        assert forall|y: i32| #[trigger] set.contains(y) implies y == a || nearer(
            (weight[y], y),
            (weight[a], a),
        ) by {
            if y != a {
                assert(rest.contains(y));
            }
        }
        a
    } else {
        let b = lemma_farthest(rest, weight);
        let x = if nearer((weight[b], b), (weight[a], a)) {
            a
        } else {
            b
        };
        assert forall|y: i32| #[trigger] set.contains(y) implies y == x || nearer(
            (weight[y], y),
            (weight[x], x),
        ) by {
            if y != a {
                assert(rest.contains(y));
            }
        }
        x
    }
}

proof fn lemma_by_place(set: Set<i32>, weight: Map<i32, nat>) -> (s: Seq<i32>)
    requires
        set.finite(),
    ensures
        by_place(s, weight),
        s.to_set() == set,
    decreases set.len(),
{
    if set.len() == 0 {
        let s = Seq::<i32>::empty();
        assert(s.to_set() =~= set);
        s
    } else {
        let x = lemma_farthest(set, weight);
        let s = lemma_by_place(set.remove(x), weight);
        let t = s.push(x);
        assert forall|i: int, j: int| 0 <= i < j < t.len() implies nearer(
            (weight[#[trigger] t[i]], t[i]),
            (weight[#[trigger] t[j]], t[j]),
        ) by {
            if j == s.len() {
                assert(s.contains(s[i]));
                assert(s.to_set().contains(s[i]));
                assert(set.contains(s[i]));
                assert(s[i] != x);
            }
        }
        assert(t.to_set() =~= set) by {
            assert forall|y: i32| t.to_set().contains(y) <==> set.contains(y) by {
                if set.contains(y) && y != x {
                    assert(s.to_set().contains(y));
                    let j = choose|j: int| 0 <= j < s.len() && s[j] == y;
                    assert(t[j] == y);
                }
                assert(t[s.len() as int] == x);
                if t.contains(y) && y != x {
                    let j = choose|j: int| 0 <= j < t.len() && t[j] == y;
                    assert(s[j] == y);
                    assert(s.to_set().contains(y));
                }
            }
        }
        t
    }
}

/// A tree has finitely many nodes.
proof fn lemma_finitely_many(g: Graph)
    ensures
        g.ty@.dom().finite(),
{
    broadcast use vstd::std_specs::hash::group_hash_axioms;

}

/// Every question has an answer, where stepping on a node weighs something.
pub proof fn lemma_routes_exist(g: Graph, q: Query)
    requires
        g.ty@.contains_key(g.start),
        q.detour >= 1,
    ensures
        routes(g, q).answer(g, q),
{
    lemma_finitely_many(g);
    let there = |v: i32| reachable(g, q, v);
    let weight = Map::new(there, |v: i32| least(g, q, v));
    assert(weight.dom().subset_of(g.ty@.dom())) by {
        assert forall|v: i32| weight.dom().contains(v) implies g.ty@.dom().contains(v) by {
            assert(reachable(g, q, v));
            if !q.source(g, v) {
                lemma_before(g, q, v);
            }
        }
    }
    vstd::set_lib::lemma_len_subset(weight.dom(), g.ty@.dom());
    let order = lemma_by_place(weight.dom(), weight);
    let r = Routes {
        weight,
        prev: Map::new(
            |v: i32| reachable(g, q, v) && !q.source(g, v),
            |v: i32| before(g, q, v),
        ),
        hops: Map::new(there, |v: i32| hop_count(g, q, v)),
        order,
    };
    assert(r.hops.dom() =~= r.weight.dom());
    assert forall|v: i32| #[trigger] q.source(g, v) implies r.reaches(v) && r.weight[v] == 0
        && r.hops[v] == 0 && !r.prev.contains_key(v) by {
        lemma_source(g, q, v);
    }
    assert forall|v: i32| #[trigger] r.reaches(v) && !q.source(g, v) implies q.passable(g, v)
        && r.hangs_well(g, q, v) by {
        lemma_before(g, q, v);
        let u = before(g, q, v);
        assert(r.reaches(u));
        assert forall|w: i32| #[trigger] r.reaches(w) && g.edge(w, v) implies w == u || nearer(
            r.place(u),
            r.place(w),
        ) by {
            assert(reachable(g, q, w));
        }
    }
    assert forall|u: i32, v: i32| #[trigger] g.edge(u, v) && r.reaches(u) && q.passable(
        g,
        v,
    ) implies r.reaches(v) by {
        lemma_step(g, q, u, v);
    }
    assert forall|i: int, j: int| 0 <= i < j < r.order.len() implies nearer(
        r.place(#[trigger] r.order[i]),
        r.place(#[trigger] r.order[j]),
    ) by {}
    assert(r.answer(g, q));
    lemma_routes(g, q, r);
}

} // verus!
