//! What every allocation keeps: it holds the class start, hangs together, has no
//! other node that cannot be chosen, and stays within its points.

use crate::course::{best_first, grown, known_plan, scored_plans, Course};
use crate::expand::lemma_kept_among;
use crate::graph::Graph;
use crate::lists::{lemma_distinct, lemma_filter_distinct};
use crate::order::{
    ascending, lemma_listing, lemma_listing_exists, lemma_sorted_among, lemma_sorted_distinct,
};
use crate::paths::{lemma_path, routes, Query, Routes};
use crate::plan::{lemma_selected_among, Plan};
use crate::reach::lemma_routes_exist;
use crate::scorer::Oracle;
use vstd::prelude::*;

verus! {

/// Whether `walk` leads from the class start to `v` along links, over nodes of
/// `ids` only.
pub open spec fn leads(g: Graph, ids: Seq<i32>, walk: Seq<i32>, v: i32) -> bool {
    &&& walk.len() > 0
    &&& walk[0] == g.start
    &&& walk.last() == v
    &&& forall|i: int| 0 <= i < walk.len() ==> ids.contains(#[trigger] walk[i])
    &&& forall|i: int| 0 < i < walk.len() ==> g.edge(walk[i - 1], #[trigger] walk[i])
}

/// Whether every node of `ids` is linked to the class start within `ids`.
pub open spec fn connected(g: Graph, ids: Seq<i32>) -> bool {
    forall|v: i32| #[trigger] ids.contains(v) ==> exists|walk: Seq<i32>| leads(g, ids, walk, v)
}

/// Whether `ids` is an allocation of at most `points` points: the class start and
/// nodes that are linked to it, in ascending order, each of them one that can be
/// chosen.
pub open spec fn allocation(g: Graph, ids: Seq<i32>, points: nat) -> bool {
    &&& ascending(ids)
    &&& ids.contains(g.start)
    &&& connected(g, ids)
    &&& forall|v: i32| #[trigger] ids.contains(v) && v != g.start ==> g.target(v)
    &&& ids.len() <= points + 1
}

/// Whether every plan of a list is an allocation.
pub open spec fn allocations(g: Graph, all: Seq<Plan>, points: nat) -> bool {
    forall|i: int| 0 <= i < all.len() ==> allocation(g, (#[trigger] all[i]).ids, points)
}

/// The nodes of a grown allocation, and how many they are at most.
pub proof fn lemma_grown(ids: Seq<i32>, add: Seq<i32>)
    ensures
        ascending(grown(ids, add)),
        forall|x: i32| #[trigger]
            grown(ids, add).contains(x) <==> ids.contains(x) || add.contains(x),
        grown(ids, add).len() <= ids.len() + add.len(),
{
    let set = ids.to_set().union(add.to_set());
    vstd::seq_lib::seq_to_set_is_finite(ids);
    vstd::seq_lib::seq_to_set_is_finite(add);
    let s = lemma_listing_exists(set);
    lemma_listing(s, set);
    vstd::set_lib::lemma_len_union(ids.to_set(), add.to_set());
    ids.lemma_cardinality_of_set();
    add.lemma_cardinality_of_set();
    assert forall|x: i32| #[trigger] grown(ids, add).contains(x) <==> ids.contains(x)
        || add.contains(x) by {
        assert(s.to_set().contains(x) <==> s.contains(x));
        assert(ids.to_set().contains(x) <==> ids.contains(x));
        assert(add.to_set().contains(x) <==> add.contains(x));
    }
}

/// The class start alone is an allocation.
pub proof fn lemma_bare_start(g: Graph, points: nat)
    ensures
        allocation(g, seq![g.start], points),
{
    let ids = seq![g.start];
    assert(ids[0] == g.start);
    assert forall|v: i32| #[trigger] ids.contains(v) implies exists|walk: Seq<i32>|
        leads(g, ids, walk, v) by {
        assert(leads(g, ids, ids, v));
    }
}

proof fn lemma_more_room(g: Graph, ids: Seq<i32>, more: Seq<i32>, walk: Seq<i32>, v: i32)
    requires
        leads(g, ids, walk, v),
        forall|x: i32| ids.contains(x) ==> more.contains(x),
    ensures
        leads(g, more, walk, v),
{
    assert forall|i: int| 0 <= i < walk.len() implies more.contains(#[trigger] walk[i]) by {
        assert(ids.contains(walk[i]));
    }
}

proof fn lemma_one_step(g: Graph, ids: Seq<i32>, walk: Seq<i32>, u: i32, v: i32)
    requires
        leads(g, ids, walk, u),
        g.edge(u, v),
        ids.contains(v),
    ensures
        leads(g, ids, walk.push(v), v),
{
    let more = walk.push(v);
    assert forall|i: int| 0 <= i < more.len() implies ids.contains(#[trigger] more[i]) by {
        if i < walk.len() {
            assert(more[i] == walk[i]);
        }
    }
    assert forall|i: int| 0 < i < more.len() implies g.edge(more[i - 1], #[trigger] more[i]) by {
        if i < walk.len() {
            assert(more[i] == walk[i] && more[i - 1] == walk[i - 1]);
        } else {
            assert(more[i - 1] == walk.last());
        }
    }
}

/// An adjacent node can be added.
proof fn lemma_step_added(g: Graph, ids: Seq<i32>, u: i32, v: i32, points: nat)
    requires
        allocation(g, ids, points),
        ids.contains(u),
        g.edge(u, v),
        g.target(v),
        ids.len() <= points,
    ensures
        allocation(g, grown(ids, seq![v]), points),
{
    let more = grown(ids, seq![v]);
    lemma_grown(ids, seq![v]);
    assert(seq![v].contains(v)) by {
        assert(seq![v][0] == v);
    }
    assert forall|x: i32| #[trigger] more.contains(x) implies exists|walk: Seq<i32>|
        leads(g, more, walk, x) by {
        if ids.contains(x) {
            let walk = choose|walk: Seq<i32>| leads(g, ids, walk, x);
            lemma_more_room(g, ids, more, walk, x);
        } else {
            assert(x == v);
            let walk = choose|walk: Seq<i32>| leads(g, ids, walk, u);
            lemma_more_room(g, ids, more, walk, u);
            lemma_one_step(g, more, walk, u, v);
        }
    }
}

/// Each node on a route is linked to the class start, by way of the route.
#[verifier::spinoff_prover]
proof fn lemma_on_route(g: Graph, q: Query, r: Routes, ids: Seq<i32>, t: i32, i: int)
    requires
        q.detour >= 1,
        r.answer(g, q),
        q.frontier == ids.to_set(),
        connected(g, ids),
        r.reaches(t),
        0 <= i < r.path(t).len(),
    ensures
        exists|walk: Seq<i32>| leads(g, grown(ids, r.path(t)), walk, r.path(t)[i]),
    decreases r.path(t).len() - i,
{
    let path = r.path(t);
    let more = grown(ids, path);
    let x = path[i];
    lemma_path(g, q, r, t);
    lemma_grown(ids, path);
    assert(r.reaches(x) && !q.source(g, x));
    assert(r.hangs_well(g, q, x));
    let u = r.prev[x];
    assert(path.contains(x));
    assert(more.contains(x));
    if i + 1 < path.len() {
        assert(u == path[i + 1]);
        lemma_on_route(g, q, r, ids, t, i + 1);
        let walk = choose|walk: Seq<i32>| leads(g, more, walk, u);
        lemma_one_step(g, more, walk, u, x);
    } else {
        assert(x == path.last());
        assert(q.source(g, u));
        assert(ids.to_set().contains(u));
        assert(ids.contains(u));
        let walk = choose|walk: Seq<i32>| leads(g, ids, walk, u);
        lemma_more_room(g, ids, more, walk, u);
        lemma_one_step(g, more, walk, u, x);
    }
}

/// The route to a node can be added.
proof fn lemma_route_added(g: Graph, q: Query, r: Routes, ids: Seq<i32>, t: i32, points: nat)
    requires
        q.detour >= 1,
        r.answer(g, q),
        q.frontier == ids.to_set(),
        allocation(g, ids, points),
        r.reaches(t),
        ids.len() - 1 + r.path(t).len() <= points,
    ensures
        allocation(g, grown(ids, r.path(t)), points),
{
    let path = r.path(t);
    let more = grown(ids, path);
    lemma_grown(ids, path);
    assert forall|x: i32| #[trigger] more.contains(x) implies exists|walk: Seq<i32>|
        leads(g, more, walk, x) by {
        if ids.contains(x) {
            let walk = choose|walk: Seq<i32>| leads(g, ids, walk, x);
            lemma_more_room(g, ids, more, walk, x);
        } else {
            assert(path.contains(x));
            let i = choose|i: int| 0 <= i < path.len() && path[i] == x;
            lemma_on_route(g, q, r, ids, t, i);
        }
    }
    assert forall|x: i32| #[trigger] more.contains(x) && x != g.start implies g.target(x) by {
        if !ids.contains(x) {
            let i = choose|i: int| 0 <= i < path.len() && path[i] == x;
            lemma_path(g, q, r, t);
            assert(r.reaches(path[i]) && !q.source(g, path[i]));
            assert(q.passable(g, x));
        }
    }
}

/// The members of a flattened list are the members of its lists.
proof fn lemma_flatten_member<T>(rows: Seq<Seq<T>>, x: T) -> (i: int)
    requires
        rows.flatten().contains(x),
    ensures
        0 <= i < rows.len(),
        rows[i].contains(x),
    decreases rows.len(),
{
    let k = choose|k: int| 0 <= k < rows.flatten().len() && rows.flatten()[k] == x;
    if rows.len() == 0 {
        0
    } else if k < rows.first().len() {
        assert(rows.flatten() == rows.first() + rows.drop_first().flatten());
        assert(rows[0][k] == x);
        0
    } else {
        assert(rows.flatten() == rows.first() + rows.drop_first().flatten());
        let rest = rows.drop_first();
        assert(rest.flatten()[k - rows.first().len()] == x);
        let j = lemma_flatten_member(rest, x);
        assert(rows[j + 1] == rest[j]);
        j + 1
    }
}

/// What an allocation leads to is an allocation.
pub proof fn lemma_extension(c: Course, g: Graph, ids: Seq<i32>, x: Seq<i32>)
    requires
        c.pass.detour >= 1,
        g.ty@.contains_key(g.start),
        allocation(g, ids, c.pass.cap_points as nat),
        c.extensions(g, ids).contains(x),
    ensures
        allocation(g, x, c.pass.cap_points as nat),
{
    broadcast use vstd::seq_lib::group_filter_ensures;

    let points = c.pass.cap_points as nat;
    if ids.len() - 1 >= points {
        assert(x == ids);
    } else {
        let q = c.query(ids.to_set());
        let r = routes(g, q);
        lemma_routes_exist(g, q);
        let ok = |add: Seq<i32>| c.affordable(ids, add);
        let moves = c.moves(g, ids);
        let kept = moves.filter(ok);
        let k = choose|k: int| 0 <= k < c.extensions(g, ids).len() && c.extensions(g, ids)[k] == x;
        let add = kept[k];
        assert(x == grown(ids, add));
        assert(ok(kept[k]));
        assert(kept.contains(add));
        moves.lemma_filter_contains_rev(ok, add);
        let m = choose|m: int| 0 <= m < moves.len() && moves[m] == add;
        let singles = c.singles(g, ids, ids);
        if m < singles.len() {
            assert(singles.contains(add)) by {
                assert(singles[m] == add);
            }
            lemma_single_step(c, g, ids, add);
            let (u, v) = choose|u: i32, v: i32|
                ids.contains(u) && #[trigger] g.edge(u, v) && add == seq![v];
            assert(add[0] == v);
            lemma_step_added(g, ids, u, v, points);
        } else {
            let jumps = c.jumps(g, ids, r, r.order);
            let targets = c.kept_jumps(g, jumps);
            let t = targets[m - singles.len()];
            assert(add == r.path(t));
            lemma_kept_among(c, g, jumps, targets, m - singles.len());
            let fit = |t: i32| c.jumpable(g, ids, r, t);
            r.order.lemma_filter_contains_rev(fit, t);
            assert(r.order.to_set().contains(t));
            lemma_route_added(g, q, r, ids, t, points);
        }
    }
}

/// A single step is one to a neighbour that may be chosen and is not allocated.
pub proof fn lemma_single_step(c: Course, g: Graph, ids: Seq<i32>, add: Seq<i32>)
    requires
        c.singles(g, ids, ids).contains(add),
    ensures
        exists|u: i32, v: i32| ids.contains(u) && #[trigger] g.edge(u, v) && add == seq![v],
        add.len() == 1,
        c.targetable(g, add[0]),
        !ids.contains(add[0]),
{
    broadcast use vstd::seq_lib::group_filter_ensures;

    let row = |id: i32| c.steps(g, ids, g.links_from(id));
    let rows = ids.map_values(row);
    let i = lemma_flatten_member(rows, add);
    let u = ids[i];
    assert(rows[i] == c.steps(g, ids, g.links_from(u)));
    let links = g.links_from(u);
    let fit = |v: i32| !ids.contains(v) && c.targetable(g, v);
    let steps = c.steps(g, ids, links);
    let k = choose|k: int| 0 <= k < steps.len() && steps[k] == add;
    let v = links.filter(fit)[k];
    assert(add == seq![v]);
    assert(fit(links.filter(fit)[k]));
    assert(links.filter(fit).contains(v));
    links.lemma_filter_contains_rev(fit, v);
    assert(g.edge(u, v));
    assert(ids.contains(u));
}

proof fn lemma_scored(g: Graph, o: Oracle, sets: Seq<Seq<i32>>, points: nat)
    requires
        forall|i: int| 0 <= i < sets.len() ==> allocation(g, #[trigger] sets[i], points),
    ensures
        allocations(g, scored_plans(o, sets), points),
{
    let f = |ids: Seq<i32>| known_plan(o, ids);
    let ok = |p: Plan| p.scored.score.finite();
    let all = sets.map_values(f);
    let kept = all.filter(ok);
    assert forall|i: int| 0 <= i < kept.len() implies allocation(
        g,
        (#[trigger] kept[i]).ids,
        points,
    ) by {
        assert(kept.contains(kept[i]));
        all.lemma_filter_contains_rev(ok, kept[i]);
        let j = choose|j: int| 0 <= j < all.len() && all[j] == kept[i];
        assert(allocation(g, sets[j], points));
    }
}

/// One step keeps allocations allocations.
pub proof fn lemma_next_sound(c: Course, g: Graph, o: Oracle, beam: Seq<Plan>)
    requires
        c.pass.detour >= 1,
        g.ty@.contains_key(g.start),
        allocations(g, beam, c.pass.cap_points as nat),
    ensures
        allocations(g, c.next(g, o, beam), c.pass.cap_points as nat),
        forall|x: Seq<i32>| #[trigger]
            c.candidates(g, beam).contains(x) ==> allocation(g, x, c.pass.cap_points as nat),
{
    let points = c.pass.cap_points as nat;
    let all = c.proposals(g, beam);
    let cands = c.candidates(g, beam);
    lemma_distinct(all);
    assert forall|x: Seq<i32>| #[trigger] cands.contains(x) implies allocation(g, x, points) by {
        assert(all.contains(x));
        let row = |p: Plan| c.extensions(g, p.ids);
        let rows = beam.map_values(row);
        let i = lemma_flatten_member(rows, x);
        assert(rows[i] == c.extensions(g, beam[i].ids));
        assert(allocation(g, beam[i].ids, points));
        lemma_extension(c, g, beam[i].ids, x);
    }
    assert forall|i: int| 0 <= i < cands.len() implies allocation(
        g,
        #[trigger] cands[i],
        points,
    ) by {
        assert(cands.contains(cands[i]));
    }
    lemma_scored(g, o, cands, points);
    let scored = scored_plans(o, cands);
    let next = c.next(g, o, beam);
    assert forall|i: int| 0 <= i < next.len() implies allocation(
        g,
        (#[trigger] next[i]).ids,
        points,
    ) by {
        assert(next.contains(next[i]));
        lemma_next_among(c, g, o, beam, next[i]);
        if beam.contains(next[i]) {
            let j = choose|j: int| 0 <= j < beam.len() && beam[j] == next[i];
            assert(allocation(g, beam[j].ids, points));
        } else {
            let j = choose|j: int| 0 <= j < scored.len() && scored[j] == next[i];
            assert(allocation(g, scored[j].ids, points));
        }
    }
}

/// A step keeps the beam, or it chooses from the candidates that have a score.
proof fn lemma_next_among(c: Course, g: Graph, o: Oracle, beam: Seq<Plan>, p: Plan)
    requires
        c.next(g, o, beam).contains(p),
    ensures
        beam.contains(p) || scored_plans(o, c.candidates(g, beam)).contains(p),
{
    let scored = scored_plans(o, c.candidates(g, beam));
    if scored.len() > 0 {
        let sorted = best_first(scored);
        lemma_selected_among(
            sorted,
            c.pass.beam_width as nat,
            c.pass.pareto_extra as nat,
            p,
        );
        let k = choose|k: int| 0 <= k < sorted.len() && sorted[k] == p;
        lemma_sorted_among(scored, |p: Plan| p.scored.score.standing(), k);
    }
}

/// What has a score is known as it was scored.
proof fn lemma_scored_known(o: Oracle, sets: Seq<Seq<i32>>, p: Plan)
    requires
        scored_plans(o, sets).contains(p),
    ensures
        sets.contains(p.ids),
        p == known_plan(o, p.ids),
        p.scored.score.finite(),
{
    broadcast use vstd::seq_lib::group_filter_ensures;

    let f = |ids: Seq<i32>| known_plan(o, ids);
    let ok = |p: Plan| p.scored.score.finite();
    let all = sets.map_values(f);
    let i = choose|i: int| 0 <= i < all.filter(ok).len() && all.filter(ok)[i] == p;
    assert(ok(all.filter(ok)[i]));
    all.lemma_filter_contains_rev(ok, p);
    let j = choose|j: int| 0 <= j < all.len() && all[j] == p;
    assert(all[j] == known_plan(o, sets[j]));
    assert(sets[j] == p.ids);
}

/// Every allocation of the beam is known as it was scored, it is among those whose
/// scores were asked for, and none but the class start is there without a score.
pub proof fn lemma_beam_is_scored(c: Course, g: Graph, o: Oracle, n: nat, p: Plan)
    requires
        c.beam_after(g, o, n).contains(p),
    ensures
        p == known_plan(o, p.ids),
        c.asked_after(g, o, n).contains(p.ids),
        p.ids == seq![g.start] || p.scored.score.finite(),
    decreases n,
{
    if n == 0 {
        let scored = scored_plans(o, c.anchored(g));
        let beam = c.first_beam(g, o);
        let i = choose|i: int| 0 <= i < beam.len() && beam[i] == p;
        if i > 0 {
            assert(scored[i - 1] == p);
            lemma_scored_known(o, c.anchored(g), p);
            assert(c.anchored(g).to_set().contains(p.ids));
        }
    } else {
        let beam = c.beam_after(g, o, (n - 1) as nat);
        lemma_next_among(c, g, o, beam, p);
        if beam.contains(p) {
            lemma_beam_is_scored(c, g, o, (n - 1) as nat, p);
        } else {
            lemma_scored_known(o, c.candidates(g, beam), p);
            assert(c.candidates(g, beam).to_set().contains(p.ids));
        }
    }
}

/// No node is reached twice.
pub proof fn lemma_order_distinct(g: Graph, q: Query, r: Routes)
    requires
        r.answer(g, q),
    ensures
        r.order.no_duplicates(),
{
    assert forall|i: int, j: int|
        0 <= i < r.order.len() && 0 <= j < r.order.len() && i != j implies r.order[i]
        != r.order[j] by {
        if i < j {
            assert(crate::paths::nearer(r.place(r.order[i]), r.place(r.order[j])));
        } else {
            assert(crate::paths::nearer(r.place(r.order[j]), r.place(r.order[i])));
        }
    }
}

/// What is known of a chosen anchor.
pub proof fn lemma_chosen(c: Course, g: Graph, q: Query, r: Routes)
    requires
        r.answer(g, q),
    ensures
        c.chosen(g, r).no_duplicates(),
        forall|k: int|
            0 <= k < c.chosen(g, r).len() ==> {
                &&& r.reaches(#[trigger] c.chosen(g, r)[k])
                &&& c.anchorable(g, r, c.chosen(g, r)[k])
            },
{
    broadcast use vstd::seq_lib::group_filter_ensures;

    let ok = |t: i32| c.anchorable(g, r, t);
    let key = |t: i32| c.worth(t).standing();
    let found = c.anchors(g, r, r.order);
    let sorted = c.by_power(found);
    let chosen = c.chosen(g, r);
    lemma_order_distinct(g, q, r);
    lemma_filter_distinct(r.order, ok);
    lemma_sorted_distinct(found, key);
    assert forall|k: int| 0 <= k < chosen.len() implies {
        &&& r.reaches(#[trigger] chosen[k])
        &&& c.anchorable(g, r, chosen[k])
    } by {
        let t = chosen[k];
        let at = c.pass.anchor_offset + k;
        assert(sorted[at] == t);
        lemma_sorted_among(found, key, at);
        assert(found.contains(t));
        r.order.lemma_filter_contains_rev(ok, t);
        assert(r.order.to_set().contains(t));
        let j = choose|j: int| 0 <= j < found.len() && found[j] == t;
        assert(ok(found[j]));
    }
    assert forall|i: int, j: int|
        0 <= i < chosen.len() && 0 <= j < chosen.len() && i != j implies chosen[i]
        != chosen[j] by {
        assert(chosen[i] == sorted[c.pass.anchor_offset + i]);
        assert(chosen[j] == sorted[c.pass.anchor_offset + j]);
    }
}

/// The anchored allocations are allocations.
pub proof fn lemma_anchored_sound(c: Course, g: Graph)
    requires
        c.pass.detour >= 1,
        g.ty@.contains_key(g.start),
    ensures
        forall|i: int|
            0 <= i < c.anchored(g).len() ==> allocation(
                g,
                #[trigger] c.anchored(g)[i],
                c.pass.cap_points as nat,
            ),
{
    let points = c.pass.cap_points as nat;
    let q = c.query(set![g.start]);
    let r = routes(g, q);
    lemma_routes_exist(g, q);
    lemma_chosen(c, g, q, r);
    lemma_bare_start(g, points);
    let ids = seq![g.start];
    assert(ids.to_set() =~= set![g.start]) by {
        assert(ids[0] == g.start);
    }
    assert forall|i: int| 0 <= i < c.anchored(g).len() implies allocation(
        g,
        #[trigger] c.anchored(g)[i],
        points,
    ) by {
        let t = c.chosen(g, r)[i];
        assert(c.anchored(g)[i] == grown(ids, r.path(t)));
        assert(c.anchorable(g, r, t));
        lemma_path(g, q, r, t);
        lemma_route_added(g, q, r, ids, t, points);
    }
}

/// Whatever the scores, every allocation of the beam holds the class start, hangs
/// together, has only nodes that can be chosen besides and stays within the points,
/// and so does all that the pass asks the scores of.
pub proof fn lemma_beam_sound(c: Course, g: Graph, o: Oracle, n: nat)
    requires
        c.pass.detour >= 1,
        g.ty@.contains_key(g.start),
    ensures
        allocations(g, c.beam_after(g, o, n), c.pass.cap_points as nat),
        forall|x: Seq<i32>| #[trigger]
            c.asked_after(g, o, n).contains(x) ==> allocation(g, x, c.pass.cap_points as nat),
    decreases n,
{
    let points = c.pass.cap_points as nat;
    if n == 0 {
        lemma_bare_start(g, points);
        lemma_anchored_sound(c, g);
        lemma_scored(g, o, c.anchored(g), points);
    } else {
        let m = (n - 1) as nat;
        lemma_beam_sound(c, g, o, m);
        lemma_next_sound(c, g, o, c.beam_after(g, o, m));
        assert forall|x: Seq<i32>| #[trigger]
            c.asked_after(g, o, n).contains(x) implies allocation(g, x, points) by {
            if !c.asked_after(g, o, m).contains(x) {
                let cands = c.candidates(g, c.beam_after(g, o, m));
                assert(cands.to_set().contains(x));
                assert(cands.contains(x));
            }
        }
    }
}

} // verus!
