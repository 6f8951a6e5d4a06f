//! What a pass may do: which moves an allocation has, what a step of the beam keeps,
//! and where a pass ends.

use crate::course::{best_first, grown, known_plan, scored_plans, Course, Pass};
use crate::expand::lemma_kept_among;
use crate::graph::Graph;
use crate::lists::{at_most_first, lemma_distinct, lemma_filter_distinct};
use crate::order::{lemma_sorted, lemma_sorted_among, lemma_sorted_distinct, lemma_sorted_len};
use crate::paths::{lemma_path, routes, Query, Routes};
use crate::plan::{apart, lemma_selection, selected, Plan};
use crate::reach::lemma_routes_exist;
use crate::scorer::Oracle;
use crate::soundness::{lemma_beam_sound, lemma_chosen, lemma_grown, lemma_single_step};
use vstd::prelude::*;

verus! {

/// What the type codes of an export mean: 1 is a normal node, 2 a notable and 3 a
/// keystone. All of them can be chosen, the last two can be jumped to.
pub proof fn lemma_type_codes(g: Graph, v: i32)
    ensures
        g.target(v) <==> g.ty@.contains_key(v) && 1 <= g.ty@[v] <= 3,
        g.notable(v) <==> g.ty@.contains_key(v) && 2 <= g.ty@[v] <= 3,
        g.keystone(v) <==> g.ty@.contains_key(v) && g.ty@[v] == 3,
{
}

/// What every move of an allocation is: a walk of new nodes that ends at a node which
/// may be chosen, from an allocated neighbour of its first node. A walk of more than one
/// node leads to a notable or a keystone, is no longer than a jump may be, and can be
/// paid for. The end of the walk stands first.
#[verifier::spinoff_prover]
pub proof fn lemma_moves_are_walks(c: Course, g: Graph, ids: Seq<i32>, add: Seq<i32>)
    requires
        c.pass.detour >= 1,
        g.ty@.contains_key(g.start),
        c.moves(g, ids).contains(add),
    ensures
        add.len() >= 1,
        add.no_duplicates(),
        add.len() > 1 ==> add.len() <= c.pass.max_jump,
        add.len() > 1 ==> ids.len() - 1 + add.len() <= c.pass.cap_points,
        add.len() > 1 ==> g.notable(add[0]),
        g.target(add[0]),
        !c.excluded.contains(add[0]),
        forall|i: int| 0 <= i < add.len() ==> !ids.contains(#[trigger] add[i]),
        forall|i: int| 0 < i < add.len() ==> g.edge(#[trigger] add[i], add[i - 1]),
        exists|u: i32| ids.contains(u) && #[trigger] g.edge(u, add.last()),
{
    broadcast use vstd::seq_lib::group_filter_ensures;

    let q = c.query(ids.to_set());
    let r = routes(g, q);
    lemma_routes_exist(g, q);
    let singles = c.singles(g, ids, ids);
    let moves = c.moves(g, ids);
    let m = choose|m: int| 0 <= m < moves.len() && moves[m] == add;
    if m < singles.len() {
        assert(singles[m] == add);
        assert(singles.contains(add));
        lemma_single_step(c, g, ids, add);
        let (u, v) = choose|u: i32, v: i32|
            ids.contains(u) && #[trigger] g.edge(u, v) && add == seq![v];
        assert(add.last() == v);
    } else {
        let jumps = c.jumps(g, ids, r, r.order);
        let targets = c.kept_jumps(g, jumps);
        let t = targets[m - singles.len()];
        assert(add == r.path(t));
        lemma_kept_among(c, g, jumps, targets, m - singles.len());
        let fit = |t: i32| c.jumpable(g, ids, r, t);
        let j = choose|j: int| 0 <= j < jumps.len() && jumps[j] == t;
        assert(fit(r.order.filter(fit)[j]));
        r.order.lemma_filter_contains_rev(fit, t);
        assert(r.order.to_set().contains(t));
        lemma_path(g, q, r, t);
        assert forall|i: int| 0 <= i < add.len() implies !ids.contains(#[trigger] add[i])
            && r.hangs_well(g, q, add[i]) by {
            assert(r.reaches(r.path(t)[i]) && !q.source(g, r.path(t)[i]));
            assert(q.passable(g, add[i]));
            if ids.contains(add[i]) {
                assert(ids.to_set().contains(add[i]));
            }
        }
        assert forall|i: int| 0 < i < add.len() implies g.edge(#[trigger] add[i], add[i - 1]) by {
            assert(r.hangs_well(g, q, add[i - 1]));
            assert(r.prev[r.path(t)[i - 1]] == r.path(t)[i]);
        }
        let u = r.prev[add.last()];
        assert(r.hangs_well(g, q, add[add.len() - 1]));
        assert(q.source(g, u));
        assert(ids.to_set().contains(u));
        assert(g.edge(u, add.last()));
    }
}

/// A list of lists holds what its lists hold.
proof fn lemma_flatten_holds<T>(rows: Seq<Seq<T>>, i: int, x: T)
    requires
        0 <= i < rows.len(),
        rows[i].contains(x),
    ensures
        rows.flatten().contains(x),
    decreases rows.len(),
{
    let all = rows.flatten();
    let rest = rows.drop_first();
    assert(all == rows.first() + rest.flatten());
    if i == 0 {
        let k = choose|k: int| 0 <= k < rows[0].len() && rows[0][k] == x;
        assert(all[k] == x);
    } else {
        assert(rest[i - 1] == rows[i]);
        lemma_flatten_holds(rest, i - 1, x);
        let k = choose|k: int| 0 <= k < rest.flatten().len() && rest.flatten()[k] == x;
        assert(all[rows.first().len() + k] == x);
    }
}

/// Every node that may be chosen and is linked to an allocated one can be added.
pub proof fn lemma_every_neighbour_is_a_move(c: Course, g: Graph, ids: Seq<i32>, u: i32, v: i32)
    requires
        ids.contains(u),
        g.links_from(u).contains(v),
        !ids.contains(v),
        g.target(v),
        !c.excluded.contains(v),
    ensures
        c.moves(g, ids).contains(seq![v]),
{
    broadcast use vstd::seq_lib::group_filter_ensures;

    let row = |id: i32| c.steps(g, ids, g.links_from(id));
    let rows = ids.map_values(row);
    let i = choose|i: int| 0 <= i < ids.len() && ids[i] == u;
    let links = g.links_from(u);
    let fit = |v: i32| !ids.contains(v) && c.targetable(g, v);
    let j = choose|j: int| 0 <= j < links.len() && links[j] == v;
    assert(fit(links[j]));
    assert(links.filter(fit).contains(v));
    let k = choose|k: int| 0 <= k < links.filter(fit).len() && links.filter(fit)[k] == v;
    let steps = c.steps(g, ids, links);
    assert(steps[k] == seq![v]);
    assert(rows[i] == steps);
    assert(rows[i].contains(seq![v]));
    lemma_flatten_holds(rows, i, seq![v]);
    let singles = c.singles(g, ids, ids);
    assert(singles == rows.flatten());
    let m = choose|m: int| 0 <= m < singles.len() && singles[m] == seq![v];
    assert(c.moves(g, ids)[m] == seq![v]);
}

/// Where the jumps are not capped, every notable and keystone that may be chosen can be
/// jumped to, if the route to it has two nodes at least, no more than a jump may have,
/// and can be paid for.
pub proof fn lemma_every_far_notable_is_a_move(c: Course, g: Graph, ids: Seq<i32>, t: i32)
    requires
        c.pass.detour >= 1,
        g.ty@.contains_key(g.start),
        ({
            let r = routes(g, c.query(ids.to_set()));
            &&& r.reaches(t)
            &&& 2 <= r.hops[t] <= c.pass.max_jump
            &&& ids.len() - 1 + r.hops[t] <= c.pass.cap_points
            &&& c.pass.max_jump_cand == 0 || r.order.len() <= c.pass.max_jump_cand || g.keystone(t)
        }),
        !ids.contains(t),
        g.notable(t),
        !c.excluded.contains(t),
    ensures
        c.moves(g, ids).contains(routes(g, c.query(ids.to_set())).path(t)),
{
    broadcast use vstd::seq_lib::group_filter_ensures;

    let q = c.query(ids.to_set());
    let r = routes(g, q);
    lemma_routes_exist(g, q);
    let fit = |t: i32| c.jumpable(g, ids, r, t);
    assert(r.order.to_set().contains(t));
    let i = choose|i: int| 0 <= i < r.order.len() && r.order[i] == t;
    assert(fit(r.order[i]));
    let jumps = c.jumps(g, ids, r, r.order);
    assert(jumps.contains(t));
    r.order.lemma_filter_len(fit);
    let kept = c.kept_jumps(g, jumps);
    assert(kept.contains(t)) by {
        if c.pass.max_jump_cand > 0 && jumps.len() > c.pass.max_jump_cand {
            let is = |t: i32| g.keystone(t);
            let stones = jumps.filter(is);
            let j = choose|j: int| 0 <= j < jumps.len() && jumps[j] == t;
            assert(is(jumps[j]));
            assert(stones.contains(t));
            let k = choose|k: int| 0 <= k < stones.len() && stones[k] == t;
            assert(kept[k] == t);
        }
    }
    let k = choose|k: int| 0 <= k < kept.len() && kept[k] == t;
    let singles = c.singles(g, ids, ids);
    assert(c.moves(g, ids)[singles.len() + k] == r.path(t));
}

proof fn lemma_none_pass(s: Seq<i32>, pred: spec_fn(i32) -> bool)
    requires
        forall|i: int| 0 <= i < s.len() ==> !pred(#[trigger] s[i]),
    ensures
        s.filter(pred).len() == 0,
    decreases s.len(),
{
    reveal(Seq::filter);
    if s.len() > 0 {
        let rest = s.drop_last();
        assert forall|i: int| 0 <= i < rest.len() implies !pred(#[trigger] rest[i]) by {
            assert(rest[i] == s[i]);
        }
        assert(!pred(s[s.len() - 1]));
        lemma_none_pass(rest, pred);
    }
}

proof fn lemma_all_pass(s: Seq<i32>, pred: spec_fn(i32) -> bool)
    requires
        forall|i: int| 0 <= i < s.len() ==> pred(#[trigger] s[i]),
    ensures
        s.filter(pred).len() == s.len(),
    decreases s.len(),
{
    reveal(Seq::filter);
    if s.len() > 0 {
        let rest = s.drop_last();
        assert forall|i: int| 0 <= i < rest.len() implies pred(#[trigger] rest[i]) by {
            assert(rest[i] == s[i]);
        }
        assert(pred(s[s.len() - 1]));
        lemma_all_pass(rest, pred);
    }
}

/// A cap on the jumps leaves all targets where they are no more than it, and otherwise
/// as many that are no keystones as it says, or all of these where they are fewer.
pub proof fn lemma_cap_counts(c: Course, g: Graph, targets: Seq<i32>)
    ensures
        c.pass.max_jump_cand == 0 || targets.len() <= c.pass.max_jump_cand ==> c.kept_jumps(
            g,
            targets,
        ) == targets,
        ({
            let kept = c.kept_jumps(g, targets).filter(|t: i32| !g.keystone(t)).len();
            let all = targets.filter(|t: i32| !g.keystone(t)).len();
            c.pass.max_jump_cand > 0 && targets.len() > c.pass.max_jump_cand ==> kept == (if all
                <= c.pass.max_jump_cand {
                all as int
            } else {
                c.pass.max_jump_cand as int
            })
        }),
        forall|i: int|
            0 <= i < c.kept_jumps(g, targets).len() ==> targets.contains(
                #[trigger] c.kept_jumps(g, targets)[i],
            ),
{
    broadcast use vstd::seq_lib::group_filter_ensures;

    let is = |t: i32| g.keystone(t);
    let not = |t: i32| !g.keystone(t);
    let key = |t: i32| c.worth(t).standing();
    let kept = c.kept_jumps(g, targets);
    assert forall|i: int| 0 <= i < kept.len() implies targets.contains(#[trigger] kept[i]) by {
        lemma_kept_among(c, g, targets, kept, i);
    }
    if c.pass.max_jump_cand > 0 && targets.len() > c.pass.max_jump_cand {
        let stones = targets.filter(is);
        let rest = targets.filter(not);
        let first = at_most_first(c.by_power(rest), c.pass.max_jump_cand as nat);
        lemma_sorted_len(rest, key);
        assert(kept == stones + first);
        assert forall|i: int| 0 <= i < stones.len() implies !not(#[trigger] stones[i]) by {
            assert(is(targets.filter(is)[i]));
        }
        assert forall|i: int| 0 <= i < first.len() implies not(#[trigger] first[i]) by {
            lemma_sorted_among(rest, key, i);
            let j = choose|j: int| 0 <= j < rest.len() && rest[j] == first[i];
            assert(not(targets.filter(not)[j]));
        }
        lemma_none_pass(stones, not);
        lemma_all_pass(first, not);
        Seq::filter_distributes_over_add(stones, first, not);
        assert(kept.filter(not).len() == first.len());
    }
}

/// What a beam leads to: an allocation that has spent all points stays, and any other
/// one becomes the nodes that it has and those of a move, where that can be paid for.
/// Nothing is proposed twice, and nothing is left out.
#[verifier::spinoff_prover]
pub proof fn lemma_candidates(c: Course, g: Graph, beam: Seq<Plan>, x: Seq<i32>)
    ensures
        c.candidates(g, beam).no_duplicates(),
        c.candidates(g, beam).contains(x) <==> exists|i: int|
            0 <= i < beam.len() && {
                let ids = (#[trigger] beam[i]).ids;
                if ids.len() > c.pass.cap_points {
                    x == ids
                } else {
                    exists|add: Seq<i32>| #[trigger]
                        c.moves(g, ids).contains(add) && add.len() > 0 && ids.len() + add.len()
                            <= c.pass.cap_points + 1 && x == grown(ids, add)
                }
            },
{
    broadcast use vstd::seq_lib::group_filter_ensures;

    let f = |p: Plan| c.extensions(g, p.ids);
    let rows = beam.map_values(f);
    let all = c.proposals(g, beam);
    assert(all == rows.flatten());
    lemma_distinct(all);
    if c.candidates(g, beam).contains(x) {
        assert(all.contains(x));
        let i = lemma_flatten_from(rows, x);
        let ids = beam[i].ids;
        assert(rows[i] == c.extensions(g, ids));
        if ids.len() <= c.pass.cap_points {
            let ok = |add: Seq<i32>| c.affordable(ids, add);
            let kept = c.moves(g, ids).filter(ok);
            let k = choose|k: int| 0 <= k < rows[i].len() && rows[i][k] == x;
            assert(x == grown(ids, kept[k]));
            assert(ok(kept[k]));
            assert(kept.contains(kept[k]));
            c.moves(g, ids).lemma_filter_contains_rev(ok, kept[k]);
            assert(c.moves(g, ids).contains(kept[k]));
        } else {
            let k = choose|k: int| 0 <= k < rows[i].len() && rows[i][k] == x;
            assert(seq![ids][k] == ids);
        }
        assert(beam[i].ids == ids);
    }
    assert forall|i: int|
        0 <= i < beam.len() && {
            let ids = (#[trigger] beam[i]).ids;
            if ids.len() > c.pass.cap_points {
                x == ids
            } else {
                exists|add: Seq<i32>| #[trigger]
                    c.moves(g, ids).contains(add) && add.len() > 0 && ids.len() + add.len()
                        <= c.pass.cap_points + 1 && x == grown(ids, add)
            }
        } implies c.candidates(g, beam).contains(x) by {
        let ids = beam[i].ids;
        assert(rows[i] == c.extensions(g, ids));
        if ids.len() > c.pass.cap_points {
            assert(rows[i][0] == x);
        } else {
            let add = choose|add: Seq<i32>| #[trigger]
                c.moves(g, ids).contains(add) && add.len() > 0 && ids.len() + add.len()
                    <= c.pass.cap_points + 1 && x == grown(ids, add);
            let ok = |add: Seq<i32>| c.affordable(ids, add);
            let moves = c.moves(g, ids);
            let kept = moves.filter(ok);
            let m = choose|m: int| 0 <= m < moves.len() && moves[m] == add;
            assert(ok(moves[m]));
            assert(kept.contains(add));
            let k = choose|k: int| 0 <= k < kept.len() && kept[k] == add;
            assert(rows[i][k] == x);
        }
        lemma_flatten_holds(rows, i, x);
        assert(all.contains(x));
    }
}

/// What a list of lists holds, one of its lists holds.
proof fn lemma_flatten_from<T>(rows: Seq<Seq<T>>, x: T) -> (i: int)
    requires
        rows.flatten().contains(x),
    ensures
        0 <= i < rows.len(),
        rows[i].contains(x),
    decreases rows.len(),
{
    let k = choose|k: int| 0 <= k < rows.flatten().len() && rows.flatten()[k] == x;
    if rows.len() == 0 {
        0
    } else {
        let rest = rows.drop_first();
        assert(rows.flatten() == rows.first() + rest.flatten());
        if k < rows.first().len() {
            assert(rows[0][k] == x);
            0
        } else {
            assert(rest.flatten()[k - rows.first().len()] == x);
            let j = lemma_flatten_from(rest, x);
            assert(rows[j + 1] == rest[j]);
            j + 1
        }
    }
}

/// Of different sets, those with a finite score, each with what is known of it.
proof fn lemma_scored_plans(o: Oracle, sets: Seq<Seq<i32>>)
    requires
        sets.no_duplicates(),
    ensures
        apart(scored_plans(o, sets)),
        scored_plans(o, sets).no_duplicates(),
        forall|p: Plan| #[trigger]
            scored_plans(o, sets).contains(p) <==> sets.contains(p.ids) && p.scored == o(p.ids)
                && o(p.ids).score.finite(),
{
    broadcast use vstd::seq_lib::group_filter_ensures;

    let f = |ids: Seq<i32>| known_plan(o, ids);
    let ok = |p: Plan| p.scored.score.finite();
    let all = sets.map_values(f);
    let kept = all.filter(ok);
    assert(all.no_duplicates()) by {
        assert forall|i: int, j: int|
            0 <= i < all.len() && 0 <= j < all.len() && i != j implies all[i] != all[j] by {
            assert(sets[i] != sets[j]);
        }
    }
    lemma_filter_distinct(all, ok);
    assert forall|p: Plan| #[trigger] kept.contains(p) <==> sets.contains(p.ids) && p.scored == o(
        p.ids,
    ) && o(p.ids).score.finite() by {
        if kept.contains(p) {
            all.lemma_filter_contains_rev(ok, p);
            let i = choose|i: int| 0 <= i < all.len() && all[i] == p;
            assert(sets[i] == p.ids);
            let j = choose|j: int| 0 <= j < kept.len() && kept[j] == p;
            assert(ok(kept[j]));
        }
        if sets.contains(p.ids) && p.scored == o(p.ids) && o(p.ids).score.finite() {
            let i = choose|i: int| 0 <= i < sets.len() && sets[i] == p.ids;
            assert(all[i] == p);
            assert(ok(all[i]));
        }
    }
    assert forall|i: int, j: int| 0 <= i < j < kept.len() implies (#[trigger] kept[i]).ids != (
    #[trigger] kept[j]).ids by {
        assert(kept.contains(kept[i]) && kept.contains(kept[j]));
        assert(kept[i] != kept[j]);
    }
}

/// Allocations from the best to the worst: the same ones, and none before a better one.
proof fn lemma_best_first(all: Seq<Plan>)
    requires
        apart(all),
        forall|i: int| 0 <= i < all.len() ==> (#[trigger] all[i]).scored.score.finite(),
    ensures
        best_first(all).len() == all.len(),
        apart(best_first(all)),
        forall|p: Plan| #[trigger] best_first(all).contains(p) <==> all.contains(p),
        forall|i: int, j: int|
            0 <= i < j < all.len() ==> (#[trigger] best_first(all)[j]).scored.score.at_most(
                (#[trigger] best_first(all)[i]).scored.score,
            ),
{
    let key = |p: Plan| p.scored.score.standing();
    let s = best_first(all);
    lemma_sorted(all, key);
    lemma_sorted_len(all, key);
    assert(all.no_duplicates()) by {
        assert forall|i: int, j: int|
            0 <= i < all.len() && 0 <= j < all.len() && i != j implies all[i] != all[j] by {
            if i < j {
                assert(all[i].ids != all[j].ids);
            } else {
                assert(all[j].ids != all[i].ids);
            }
        }
    }
    lemma_sorted_distinct(all, key);
    assert forall|p: Plan| #[trigger] s.contains(p) implies all.contains(p) by {
        let k = choose|k: int| 0 <= k < s.len() && s[k] == p;
        lemma_sorted_among(all, key, k);
    }
    assert forall|i: int, j: int| 0 <= i < j < s.len() implies (#[trigger] s[i]).ids != (
    #[trigger] s[j]).ids by {
        assert(s.contains(s[i]) && s.contains(s[j]));
        assert(s[i] != s[j]);
        let a = choose|a: int| 0 <= a < all.len() && all[a] == s[i];
        let b = choose|b: int| 0 <= b < all.len() && all[b] == s[j];
        if a < b {
            assert(all[a].ids != all[b].ids);
        } else {
            assert(all[b].ids != all[a].ids);
        }
    }
    assert forall|i: int, j: int| 0 <= i < j < all.len() implies (
    #[trigger] s[j]).scored.score.at_most((#[trigger] s[i]).scored.score) by {
        assert(s.contains(s[i]) && s.contains(s[j]));
        assert(all.contains(s[i]) && all.contains(s[j]));
        assert(key(s[i]) >= key(s[j]));
    }
}

/// What one step keeps. Where no candidate has a finite score the beam stays. Otherwise
/// every member of the next beam is a candidate with a finite score; as many as the
/// width says, or all of them, are such that nothing left out scores better; and what is
/// left out found no room or is beaten on both axes by one that stays.
#[verifier::spinoff_prover]
pub proof fn lemma_step_keeps_the_best(
    c: Course,
    g: Graph,
    o: Oracle,
    beam: Seq<Plan>,
    x: Seq<i32>,
)
    requires
        c.candidates(g, beam).contains(x),
        o(x).score.finite(),
    ensures
        ({
            let next = c.next(g, o, beam);
            let width = c.pass.beam_width as nat;
            let extra = c.pass.pareto_extra as nat;
            let p = Plan { ids: x, scored: o(x) };
            &&& next.len() <= width + extra
            &&& width + extra > 0 ==> next.len() > 0
            &&& forall|i: int|
                0 <= i < next.len() ==> {
                    &&& c.candidates(g, beam).contains((#[trigger] next[i]).ids)
                    &&& next[i].scored == o(next[i].ids)
                    &&& next[i].scored.score.finite()
                }
            &&& !next.contains(p) ==> width <= next.len()
            &&& !next.contains(p) ==> forall|i: int|
                0 <= i < width ==> p.scored.score.at_most((#[trigger] next[i]).scored.score)
            &&& width + extra > 0 ==> p.scored.score.at_most(next[0].scored.score)
            &&& !next.contains(p) ==> {
                ||| next.len() == width + extra
                ||| exists|j: int| 0 <= j < next.len() && {
                    let a = (#[trigger] next[j]).scored;
                    p.scored.dps.at_most(a.dps) && p.scored.ehp.at_most(a.ehp) && (
                    p.scored.dps.below(a.dps) || p.scored.ehp.below(a.ehp))
                }
            }
        }),
{
    let cands = c.candidates(g, beam);
    let scored = scored_plans(o, cands);
    let sorted = best_first(scored);
    let next = c.next(g, o, beam);
    let width = c.pass.beam_width as nat;
    let extra = c.pass.pareto_extra as nat;
    let p = Plan { ids: x, scored: o(x) };
    lemma_distinct(c.proposals(g, beam));
    lemma_scored_plans(o, cands);
    assert(scored.contains(p));
    assert forall|i: int| 0 <= i < scored.len() implies (
    #[trigger] scored[i]).scored.score.finite() by {
        assert(scored.contains(scored[i]));
    }
    lemma_best_first(scored);
    lemma_selection(sorted, width, extra);
    assert(next == selected(sorted, width, extra));
    assert(sorted.contains(p));
    let k = choose|k: int| 0 <= k < sorted.len() && sorted[k] == p;
    assert forall|i: int| 0 <= i < next.len() implies {
        &&& cands.contains((#[trigger] next[i]).ids)
        &&& next[i].scored == o(next[i].ids)
        &&& next[i].scored.score.finite()
    } by {
        assert(sorted.contains(next[i]));
        assert(scored.contains(next[i]));
    }
    if !next.contains(p) {
        if k < width {
            assert(next[k] == sorted[k]);
        }
        assert(width <= k);
        assert forall|i: int| 0 <= i < width implies p.scored.score.at_most(
            (#[trigger] next[i]).scored.score,
        ) by {
            assert(next[i] == sorted[i]);
            assert(sorted[k].scored.score.at_most(sorted[i].scored.score));
        }
        assert(!next.contains(sorted[k]));
    }
    if width + extra > 0 {
        crate::plan::lemma_best_is_kept(sorted, width, extra);
        assert(next[0] == sorted[0]);
        if k > 0 {
            assert(sorted[k].scored.score.at_most(sorted[0].scored.score));
        }
    }
}

/// Where no candidate has a finite score, the beam stays as it is.
pub proof fn lemma_stuck_beam_stays(c: Course, g: Graph, o: Oracle, beam: Seq<Plan>)
    requires
        forall|x: Seq<i32>| #[trigger]
            c.candidates(g, beam).contains(x) ==> !o(x).score.finite(),
    ensures
        c.next(g, o, beam) == beam,
{
    let cands = c.candidates(g, beam);
    lemma_distinct(c.proposals(g, beam));
    lemma_scored_plans(o, cands);
    let scored = scored_plans(o, cands);
    if scored.len() > 0 {
        assert(scored.contains(scored[0]));
        assert(cands.contains(scored[0].ids));
    }
}

/// A node that is new makes an allocation longer.
proof fn lemma_grows(ids: Seq<i32>, add: Seq<i32>)
    requires
        crate::order::ascending(ids),
        add.len() > 0,
        !ids.contains(add[0]),
    ensures
        grown(ids, add).len() >= ids.len() + 1,
{
    let more = grown(ids, add);
    let x = add[0];
    lemma_grown(ids, add);
    assert(add.contains(x));
    assert(more.no_duplicates() && ids.no_duplicates());
    more.unique_seq_to_set();
    ids.unique_seq_to_set();
    let least = ids.to_set().insert(x);
    assert(least.subset_of(more.to_set())) by {
        assert forall|v: i32| least.contains(v) implies more.to_set().contains(v) by {
            assert(ids.to_set().contains(v) <==> ids.contains(v));
            assert(more.contains(v));
        }
    }
    vstd::seq_lib::seq_to_set_is_finite(more);
    vstd::seq_lib::seq_to_set_is_finite(ids);
    assert(!ids.to_set().contains(x));
    vstd::set_lib::lemma_len_subset(least, more.to_set());
}

/// Whether nothing that a beam leads to has a finite score.
pub open spec fn stuck(c: Course, g: Graph, o: Oracle, beam: Seq<Plan>) -> bool {
    forall|x: Seq<i32>| #[trigger] c.candidates(g, beam).contains(x) ==> !o(x).score.finite()
}

proof fn lemma_steps_spend(c: Course, g: Graph, o: Oracle, n: nat)
    requires
        c.pass.detour >= 1,
        g.ty@.contains_key(g.start),
        n <= c.pass.cap_points,
    ensures
        stuck(c, g, o, c.beam_after(g, o, n)) || forall|i: int|
            0 <= i < c.beam_after(g, o, n).len() ==> (#[trigger] c.beam_after(
                g,
                o,
                n,
            )[i]).ids.len() >= n + 1,
    decreases n,
{
    let beam = c.beam_after(g, o, n);
    lemma_beam_sound(c, g, o, n);
    if n == 0 {
        assert forall|i: int| 0 <= i < beam.len() implies (#[trigger] beam[i]).ids.len() >= 1 by {
            assert(beam[i].ids.contains(g.start));
        }
    } else {
        let m = (n - 1) as nat;
        let before = c.beam_after(g, o, m);
        lemma_steps_spend(c, g, o, m);
        lemma_beam_sound(c, g, o, m);
        if stuck(c, g, o, before) {
            lemma_stuck_beam_stays(c, g, o, before);
        } else {
            let x = choose|x: Seq<i32>| #[trigger]
                c.candidates(g, before).contains(x) && o(x).score.finite();
            lemma_step_keeps_the_best(c, g, o, before, x);
            assert forall|i: int| 0 <= i < beam.len() implies (#[trigger] beam[i]).ids.len() >= n
                + 1 by {
                let y = beam[i].ids;
                assert(c.candidates(g, before).contains(y));
                lemma_candidates(c, g, before, y);
                let k = choose|k: int|
                    0 <= k < before.len() && {
                        let ids = (#[trigger] before[k]).ids;
                        if ids.len() > c.pass.cap_points {
                            y == ids
                        } else {
                            exists|add: Seq<i32>| #[trigger]
                                c.moves(g, ids).contains(add) && add.len() > 0 && ids.len()
                                    + add.len() <= c.pass.cap_points + 1 && y == grown(ids, add)
                        }
                    };
                let ids = before[k].ids;
                assert(crate::soundness::allocation(g, ids, c.pass.cap_points as nat));
                if ids.len() <= c.pass.cap_points {
                    let add = choose|add: Seq<i32>| #[trigger]
                        c.moves(g, ids).contains(add) && add.len() > 0 && ids.len() + add.len()
                            <= c.pass.cap_points + 1 && y == grown(ids, add);
                    lemma_moves_are_walks(c, g, ids, add);
                    lemma_grows(ids, add);
                }
            }
        }
    }
}

/// A pass goes to the end: every allocation of its last beam has spent all points, or
/// nothing that the beam leads to has a finite score.
pub proof fn lemma_pass_goes_to_the_end(c: Course, g: Graph, o: Oracle, i: int)
    requires
        c.pass.detour >= 1,
        g.ty@.contains_key(g.start),
        0 <= i < c.beam_after(g, o, c.pass.cap_points as nat).len(),
    ensures
        ({
            let beam = c.beam_after(g, o, c.pass.cap_points as nat);
            beam[i].ids.len() == c.pass.cap_points + 1 || forall|x: Seq<i32>| #[trigger]
                c.candidates(g, beam).contains(x) ==> !o(x).score.finite()
        }),
{
    let n = c.pass.cap_points as nat;
    let beam = c.beam_after(g, o, n);
    lemma_steps_spend(c, g, o, n);
    lemma_beam_sound(c, g, o, n);
    assert(crate::soundness::allocation(g, beam[i].ids, n));
}

/// The outcome of a pass scores no worse than any allocation of its last beam, where a
/// step was made; its score is what is known of its nodes.
pub proof fn lemma_outcome_is_the_best(c: Course, g: Graph, o: Oracle, n: nat, x: Seq<i32>)
    requires
        c.pass.cap_points == n + 1,
        c.pass.beam_width + c.pass.pareto_extra > 0,
        c.candidates(g, c.beam_after(g, o, n)).contains(x),
        o(x).score.finite(),
    ensures
        o(x).score.at_most(c.outcome(g, o).scored.score),
        c.candidates(g, c.beam_after(g, o, n)).contains(c.outcome(g, o).ids),
        c.outcome(g, o).scored == o(c.outcome(g, o).ids),
{
    let beam = c.beam_after(g, o, n);
    lemma_step_keeps_the_best(c, g, o, beam, x);
    assert(c.outcome(g, o) == c.next(g, o, beam)[0]);
}

/// Passes that differ only in which anchors they take rank the anchors alike.
proof fn lemma_same_ranking(c: Course, d: Course, g: Graph, r: Routes)
    requires
        d.power == c.power,
        d.excluded == c.excluded,
        d.pass.cap_points == c.pass.cap_points,
    ensures
        d.by_power(d.anchors(g, r, r.order)) == c.by_power(c.anchors(g, r, r.order)),
{
    let ok = |t: i32| c.anchorable(g, r, t);
    let ok2 = |t: i32| d.anchorable(g, r, t);
    let key = |t: i32| c.worth(t).standing();
    let key2 = |t: i32| d.worth(t).standing();
    assert(ok =~= ok2);
    assert(key =~= key2);
}

/// The most powerful anchors come first.
proof fn lemma_ranked_anchor(c: Course, g: Graph, q: Query, r: Routes, t: i32) -> (a: int)
    requires
        r.answer(g, q),
        r.reaches(t),
        c.anchorable(g, r, t),
    ensures
        ({
            let sorted = c.by_power(c.anchors(g, r, r.order));
            &&& 0 <= a < sorted.len()
            &&& sorted[a] == t
            &&& forall|i: int| 0 <= i <= a ==> c.worth(t).standing() <= c.worth(
                #[trigger] sorted[i],
            ).standing()
        }),
{
    broadcast use vstd::seq_lib::group_filter_ensures;

    let ok = |t: i32| c.anchorable(g, r, t);
    let key = |t: i32| c.worth(t).standing();
    let found = c.anchors(g, r, r.order);
    let sorted = c.by_power(found);
    assert(r.order.to_set().contains(t));
    let i = choose|i: int| 0 <= i < r.order.len() && r.order[i] == t;
    assert(ok(r.order[i]));
    assert(found.contains(t));
    lemma_sorted(found, key);
    let a = choose|a: int| 0 <= a < sorted.len() && sorted[a] == t;
    assert forall|i: int| 0 <= i <= a implies c.worth(t).standing() <= c.worth(
        #[trigger] sorted[i],
    ).standing() by {
        assert(key(sorted[i]) >= key(sorted[a]));
    }
    a
}

/// The anchors of a pass. Each can be walked to from the class start with the points at
/// hand, may be chosen, and has a finite power. No target of the same kind with more
/// power is left out, but for those that a pass with as many anchors as are passed over
/// takes first.
#[verifier::spinoff_prover]
pub proof fn lemma_anchors_are_the_most_powerful(c: Course, g: Graph, t: i32, u: i32)
    requires
        c.pass.detour >= 1,
        g.ty@.contains_key(g.start),
        c.chosen(g, routes(g, c.query(set![g.start]))).contains(u),
    ensures
        ({
            let r = routes(g, c.query(set![g.start]));
            let first = Course {
                pass: Pass {
                    anchor_offset: 0,
                    seed_anchors: c.pass.anchor_offset,
                    ..c.pass
                },
                ..c
            };
            &&& r.reaches(u)
            &&& 1 <= r.hops[u] <= c.pass.cap_points
            &&& u != g.start
            &&& g.target(u)
            &&& !c.excluded.contains(u)
            &&& c.power.contains_key(u) && c.power[u].finite()
            &&& c.chosen(g, r).len() <= c.pass.seed_anchors
            &&& {
                &&& r.reaches(t)
                &&& 1 <= r.hops[t] <= c.pass.cap_points
                &&& t != g.start
                &&& g.target(t)
                &&& !c.excluded.contains(t)
                &&& c.power.contains_key(t)
                &&& c.power[t].finite()
            } ==> c.chosen(g, r).contains(t) || first.chosen(g, r).contains(t) || (
            c.power[t].at_most(c.power[u]) && c.chosen(g, r).len() == c.pass.seed_anchors)
        }),
{
    let q = c.query(set![g.start]);
    let r = routes(g, q);
    lemma_routes_exist(g, q);
    lemma_chosen(c, g, q, r);
    let chosen = c.chosen(g, r);
    let k = choose|k: int| 0 <= k < chosen.len() && chosen[k] == u;
    assert(c.anchorable(g, r, chosen[k]));
    let off = c.pass.anchor_offset as int;
    let sorted = c.by_power(c.anchors(g, r, r.order));
    assert(sorted[off + k] == u);
    if r.reaches(t) && 1 <= r.hops[t] <= c.pass.cap_points && t != g.start && g.target(t)
        && !c.excluded.contains(t) && c.power.contains_key(t) && c.power[t].finite() {
        let a = lemma_ranked_anchor(c, g, q, r, t);
        let first = Course {
            pass: Pass { anchor_offset: 0, seed_anchors: c.pass.anchor_offset, ..c.pass },
            ..c
        };
        if a < off {
            lemma_same_ranking(c, first, g, r);
            assert(first.chosen(g, r)[a] == t);
        } else if a < off + c.pass.seed_anchors {
            assert(chosen[a - off] == t);
        } else {
            assert(c.worth(t).standing() <= c.worth(sorted[off + k]).standing());
        }
    }
}

/// An anchored allocation is the class start and the route to its anchor.
pub proof fn lemma_anchored_allocations(c: Course, g: Graph, i: int, x: i32)
    requires
        0 <= i < c.chosen(g, routes(g, c.query(set![g.start]))).len(),
    ensures
        ({
            let r = routes(g, c.query(set![g.start]));
            let t = c.chosen(g, r)[i];
            &&& c.anchored(g).len() == c.chosen(g, r).len()
            &&& crate::order::ascending(c.anchored(g)[i])
            &&& c.anchored(g)[i].contains(x) <==> x == g.start || r.path(t).contains(x)
        }),
{
    let r = routes(g, c.query(set![g.start]));
    let t = c.chosen(g, r)[i];
    let ids = seq![g.start];
    lemma_grown(ids, r.path(t));
    assert(c.anchored(g)[i] == grown(ids, r.path(t)));
    assert(ids.contains(x) <==> x == g.start) by {
        assert(ids[0] == g.start);
    }
}

/// The first beam is the class start, followed by the anchored allocations that have a
/// finite score.
pub proof fn lemma_first_beam(c: Course, g: Graph, o: Oracle, p: Plan)
    requires
        c.pass.detour >= 1,
        g.ty@.contains_key(g.start),
    ensures
        c.beam_after(g, o, 0).len() > 0,
        c.beam_after(g, o, 0)[0].ids == seq![g.start],
        c.beam_after(g, o, 0)[0].scored == o(seq![g.start]),
        c.beam_after(g, o, 0).drop_first().contains(p) <==> c.anchored(g).contains(p.ids)
            && p.scored == o(p.ids) && o(p.ids).score.finite(),
{
    let q = c.query(set![g.start]);
    let r = routes(g, q);
    lemma_routes_exist(g, q);
    crate::pass::lemma_anchored_distinct(c, g, q, r);
    lemma_scored_plans(o, c.anchored(g));
    assert(c.beam_after(g, o, 0).drop_first() =~= scored_plans(o, c.anchored(g)));
}

} // verus!
