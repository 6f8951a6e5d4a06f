//! The power of the notables and keystones: what each gains over the class start,
//! with the route to it, per point spent. It ranks far targets by their value.

use crate::course::grown;
use crate::double::Double;
use crate::expand::{Draft, PowerSeed};
use crate::fx::{id_map_insert, scored_sets, Memo, Scored};
use crate::graph::Graph;
use crate::lists::{lemma_contains_push, lemma_filter_distinct};
use crate::node_index::NodeIndex;
use crate::order::ascending;
use crate::pass::{lemma_routes_differ, start_only};
use crate::pathfinder::Pathfinder;
use crate::paths::{lemma_path, routes, Query, Routes};
use crate::reach::lemma_routes_exist;
use crate::scorer::{
    agrees, answered, copy_ids, counted, deep, dutiful, learned, recall, score_all, Oracle,
};
use crate::soundness::lemma_order_distinct;
use crate::sweep::PathResult;
use rustc_hash::{FxHashMap, FxHashSet};
use vstd::prelude::*;

verus! {

/// The question for the routes from the class start, with nothing banned.
pub open spec fn seed_query(g: Graph, detour: i64) -> Query {
    Query { frontier: set![g.start], excluded: Set::empty(), detour: detour as nat }
}

/// The targets that are measured, in the order of `order`.
pub open spec fn seed_targets(g: Graph, r: Routes, order: Seq<i32>) -> Seq<i32> {
    order.filter(|t: i32| r.hops[t] >= 1 && t != g.start && g.notable(t))
}

/// The allocation that measures a target: the class start and the route to it.
pub open spec fn seed_set(g: Graph, r: Routes, t: i32) -> Seq<i32> {
    grown(seq![g.start], r.path(t))
}

/// The allocations that measure some targets.
pub open spec fn seed_sets(g: Graph, r: Routes, targets: Seq<i32>) -> Seq<Seq<i32>> {
    targets.map_values(|t: i32| seed_set(g, r, t))
}

/// What a target gains per point.
pub open spec fn gain_per_point(g: Graph, o: Oracle, r: Routes, base: Scored, t: i32) -> Double {
    g.judged(o(seed_set(g, r, t))).difference(g.judged(base)).quotient(
        Double::of_int(r.hops[t] as int),
    )
}

/// The power of some targets. One whose score is not finite has none.
pub open spec fn power_of(
    g: Graph,
    o: Oracle,
    r: Routes,
    base: Scored,
    targets: Seq<i32>,
) -> Map<i32, Double> {
    Map::new(
        |t: i32| targets.contains(t) && g.judged(o(seed_set(g, r, t))).finite(),
        |t: i32| gain_per_point(g, o, r, base, t),
    )
}

/// The power of all targets over what `base` says of the class start.
pub open spec fn power_over(g: Graph, o: Oracle, base: Scored, detour: i64) -> Map<i32, Double> {
    let r = routes(g, seed_query(g, detour));
    power_of(g, o, r, base, seed_targets(g, r, r.order))
}

/// The power of all targets.
pub open spec fn seed_power(g: Graph, o: Oracle, detour: i64) -> Map<i32, Double> {
    power_over(g, o, o(seq![g.start]), detour)
}

/// The allocations that measure all targets.
pub open spec fn seed_batch(g: Graph, detour: i64) -> Seq<Seq<i32>> {
    let r = routes(g, seed_query(g, detour));
    seed_sets(g, r, seed_targets(g, r, r.order))
}

/// The allocations whose scores the seed asks for, besides the class start.
pub open spec fn seed_asked(g: Graph, detour: i64) -> Set<Seq<i32>> {
    seed_batch(g, detour).to_set()
}

/// A target that is measured.
struct Probe {
    id: i32,
    ids: Vec<i32>,
    cost: i64,
}

/// Whether the probes measure the targets.
spec fn probing(g: Graph, r: Routes, probes: Seq<Probe>, targets: Seq<i32>) -> bool {
    &&& probes.len() == targets.len()
    &&& forall|i: int|
        0 <= i < probes.len() ==> {
            &&& (#[trigger] probes[i]).id == targets[i]
            &&& probes[i].ids@ == seed_set(g, r, targets[i])
            &&& probes[i].cost == r.hops[targets[i]]
        }
}

/// Distinct ids are no more than there are ids.
proof fn lemma_id_count(s: Seq<i32>)
    requires
        s.no_duplicates(),
    ensures
        s.len() <= 0x1_0000_0000,
{
    let all = vstd::set_lib::set_int_range(i32::MIN as int, i32::MAX + 1);
    vstd::set_lib::lemma_int_range(i32::MIN as int, i32::MAX + 1);
    let wide = s.map_values(|x: i32| x as int);
    assert(wide.no_duplicates());
    wide.unique_seq_to_set();
    assert(wide.to_set().subset_of(all));
    vstd::set_lib::lemma_len_subset(wide.to_set(), all);
}

/// What one more node adds to the targets that are measured.
proof fn lemma_one_more_target(g: Graph, r: Routes, k: int)
    requires
        0 <= k < r.order.len(),
    ensures
        seed_targets(g, r, r.order.take(k + 1)) == ({
            let t = r.order[k];
            let done = seed_targets(g, r, r.order.take(k));
            if r.hops[t] >= 1 && t != g.start && g.notable(t) {
                done.push(t)
            } else {
                done
            }
        }),
{
    reveal(Seq::filter);
    assert(r.order.take(k + 1).drop_last() =~= r.order.take(k));
}

/// The targets that are measured, with their allocations.
#[verifier::spinoff_prover]
fn probes(
    g: &Graph,
    idx: &NodeIndex,
    paths: &PathResult,
    start: &Draft,
    Ghost(q): Ghost<Query>,
) -> (out: Vec<Probe>)
    requires
        q.detour >= 1,
        paths.holds(idx),
        paths.routes@.answer(*g, q),
        start.set@ == set![g.start],
    ensures
        probing(
            *g,
            paths.routes@,
            out@,
            seed_targets(*g, paths.routes@, paths.routes@.order),
        ),
{
    let ghost r = paths.routes@;
    let mut out: Vec<Probe> = Vec::new();
    let mut k: usize = 0;
    assert(seed_targets(*g, r, r.order.take(0)) =~= Seq::empty()) by {
        reveal(Seq::filter);
        assert(r.order.take(0) =~= Seq::empty());
    }
    assert(seq![g.start].to_set() =~= set![g.start]) by {
        assert(seq![g.start][0] == g.start);
    }
    while k < paths.reached.len()
        invariant
            k <= paths.reached@.len(),
            q.detour >= 1,
            paths.holds(idx),
            r == paths.routes@,
            r.answer(*g, q),
            start.set@ == set![g.start],
            seq![g.start].to_set() == set![g.start],
            probing(*g, r, out@, seed_targets(*g, r, r.order.take(k as int))),
        decreases paths.reached@.len() - k,
    {
        let ridx: u32 = paths.reached[k];
        let tid: i32 = idx.id_of[ridx as usize];
        let d: usize = paths.pdist[ridx as usize];
        proof {
            lemma_one_more_target(*g, r, k as int);
            assert(paths.says(idx, ridx as int));
            assert(r.order.contains(r.order[k as int]));
            assert(r.order.to_set().contains(tid));
            assert(r.reaches(tid));
            lemma_path(*g, q, r, tid);
            lemma_id_count(r.path(tid));
        }
        if d >= 1 && tid != g.start && g.is_notable(tid) {
            let path = paths.path_to(idx, ridx);
            let draft = Draft::grow(&start.set, &path);
            let ghost before = out@;
            out.push(Probe { id: tid, ids: draft.ids, cost: d as i64 });
            proof {
                assert(forall|i: int| 0 <= i < before.len() ==> out@[i] == before[i]);
            }
        }
        k = k + 1;
    }
    assert(r.order.take(k as int) =~= r.order);
    out
}

proof fn lemma_seed_sets_distinct(g: Graph, q: Query, r: Routes, targets: Seq<i32>)
    requires
        q.detour >= 1,
        q.frontier == set![g.start],
        r.answer(g, q),
        targets == seed_targets(g, r, r.order),
    ensures
        seed_sets(g, r, targets).no_duplicates(),
        targets.no_duplicates(),
{
    broadcast use vstd::seq_lib::group_filter_ensures;

    let fit = |t: i32| r.hops[t] >= 1 && t != g.start && g.notable(t);
    lemma_order_distinct(g, q, r);
    lemma_filter_distinct(r.order, fit);
    let sets = seed_sets(g, r, targets);
    assert forall|i: int, j: int|
        0 <= i < sets.len() && 0 <= j < sets.len() && i != j implies sets[i] != sets[j] by {
        let a = targets[i];
        let b = targets[j];
        assert(fit(targets[i]) && fit(targets[j]));
        assert(targets.contains(a) && targets.contains(b));
        r.order.lemma_filter_contains_rev(fit, a);
        r.order.lemma_filter_contains_rev(fit, b);
        assert(r.order.to_set().contains(a) && r.order.to_set().contains(b));
        assert(!seq![g.start].contains(a) && !seq![g.start].contains(b));
        if sets[i] == sets[j] {
            lemma_routes_differ(g, q, r, seq![g.start], a, b);
        }
    }
}

/// What one more target adds to the power of those before it.
proof fn lemma_power_step(
    g: Graph,
    o: Oracle,
    r: Routes,
    base: Scored,
    done: Seq<i32>,
    t: i32,
    before: Map<i32, Double>,
)
    requires
        before == power_of(g, o, r, base, done),
    ensures
        power_of(g, o, r, base, done.push(t)) == (if g.judged(
            o(seed_set(g, r, t)),
        ).finite() {
            before.insert(t, gain_per_point(g, o, r, base, t))
        } else {
            before
        }),
{
    let after = power_of(g, o, r, base, done.push(t));
    assert forall|x: i32| #[trigger] done.push(t).contains(x) <==> done.contains(x) || x == t by {
        lemma_contains_push(done, t, x);
    }
    if g.judged(o(seed_set(g, r, t))).finite() {
        assert(after =~= before.insert(t, gain_per_point(g, o, r, base, t)));
    } else {
        assert(after =~= before);
    }
}

/// What the measured targets gain per point, from a table that holds their
/// allocations.
fn gains(
    g: &Graph,
    base: Scored,
    found: &Vec<Probe>,
    memo: &Memo,
    Ghost(r): Ghost<Routes>,
    Ghost(targets): Ghost<Seq<i32>>,
) -> (ppp: FxHashMap<i32, Double>)
    requires
        probing(*g, r, found@, targets),
        seed_sets(*g, r, targets).to_set().subset_of(scored_sets(*memo).dom()),
    ensures
        forall|o: Oracle| #[trigger]
            agrees(*g, o, scored_sets(*memo)) ==> ppp@ == power_of(*g, o, r, base, targets),
{
    let ghost table = scored_sets(*memo);
    let base_judged = g.penalized_score(base.score, base.dps, base.ehp);
    let mut ppp: FxHashMap<i32, Double> = FxHashMap::default();
    let mut i: usize = 0;
    proof {
        assert forall|o: Oracle| #[trigger] agrees(*g, o, table) implies ppp@ =~= power_of(
            *g,
            o,
            r,
            base,
            targets.take(0),
        ) by {}
    }
    while i < found.len()
        invariant
            i <= found@.len(),
            probing(*g, r, found@, targets),
            table == scored_sets(*memo),
            base_judged == g.judged(base),
            seed_sets(*g, r, targets).to_set().subset_of(table.dom()),
            forall|o: Oracle| #[trigger]
                agrees(*g, o, table) ==> ppp@ =~= power_of(
                    *g,
                    o,
                    r,
                    base,
                    targets.take(i as int),
                ),
        decreases found@.len() - i,
    {
        let ghost t = targets[i as int];
        let ghost set = seed_set(*g, r, t);
        proof {
            let sets = seed_sets(*g, r, targets);
            assert(sets[i as int] == set);
            assert(sets.to_set().contains(set));
            assert(table.dom().contains(set));
            assert(found@[i as int].ids@ == set);
        }
        let s = recall(g, memo, &found[i].ids);
        let judged = g.penalized_score(s.score, s.dps, s.ehp);
        let ghost before = ppp@;
        if judged.is_finite() {
            let gain = judged.minus(base_judged).over(Double::from_int(found[i].cost));
            id_map_insert(&mut ppp, found[i].id, gain);
        }
        proof {
            let next = targets.take(i + 1);
            let done = targets.take(i as int);
            assert(next =~= done.push(t));
            assert forall|o: Oracle| #[trigger] agrees(*g, o, table) implies ppp@ =~= power_of(
                *g,
                o,
                r,
                base,
                next,
            ) by {
                assert(table.contains_key(set));
                assert(o(set) == s);
                lemma_power_step(*g, o, r, base, done, t, before);
            }
        }
        i = i + 1;
    }
    assert(targets.take(i as int) =~= targets);
    ppp
}

/// Measures every notable and keystone that can be walked to, in one batch.
/// `base` is what is known of the class start.
#[verifier::spinoff_prover]
pub fn compute_seed<F: FnMut(&[Vec<i32>]) -> Vec<Scored>>(
    g: &Graph,
    base: Scored,
    detour: i64,
    pf: &mut Pathfinder,
    memo: &mut Memo,
    evals: &mut usize,
    score: &mut F,
) -> (seed: PowerSeed)
    requires
        dutiful(*old(score), scored_sets(*old(memo)), seed_asked(*g, detour)),
        old(pf).wf(),
        old(pf).graph@ == *g,
        detour >= 1,
    ensures
        *final(score) == *old(score),
        final(pf).wf(),
        final(pf).graph@ == *g,
        learned(
            *old(score),
            *g,
            scored_sets(*old(memo)),
            scored_sets(*final(memo)),
            seed_asked(*g, detour),
        ),
        answered(
            *old(score),
            *g,
            scored_sets(*old(memo)),
            scored_sets(*final(memo)),
            seed_batch(*g, detour),
        ),
        forall|o: Oracle| #[trigger]
            agrees(*g, o, scored_sets(*final(memo))) ==> seed.ppp@ == power_over(
                *g,
                o,
                base,
                detour,
            ),
        counted(
            *old(evals),
            *final(evals),
            scored_sets(*old(memo)),
            scored_sets(*final(memo)),
        ),
{
    let none: FxHashSet<i32> = FxHashSet::default();
    let start = start_only(g);
    let paths = pf.paths_from_set(&start.set, &none, detour);
    let ghost q = seed_query(*g, detour);
    let ghost r = paths.routes@;
    assert(none@ =~= Set::empty());
    let found = probes(g, &pf.idx, &paths, &start, Ghost(q));
    let ghost targets = seed_targets(*g, r, r.order);
    let mut sets: Vec<Vec<i32>> = Vec::with_capacity(found.len());
    let mut i: usize = 0;
    while i < found.len()
        invariant
            i <= found@.len(),
            sets@.len() == i,
            probing(*g, r, found@, targets),
            forall|j: int| 0 <= j < i ==> (#[trigger] sets@[j])@ == seed_set(*g, r, targets[j]),
        decreases found@.len() - i,
    {
        sets.push(copy_ids(&found[i].ids));
        i = i + 1;
    }
    proof {
        assert(deep(sets@) =~= seed_sets(*g, r, targets));
        lemma_seed_sets_distinct(*g, q, r, targets);
    }
    score_all(g, &sets, memo, evals, score);
    let ppp = gains(g, base, &found, memo, Ghost(r), Ghost(targets));
    PowerSeed { ppp }
}

/// What the power of a target is: what the class start with the route to it gains over
/// the class start, by the penalized score, per point of that route. Every notable and
/// keystone that can be walked to has one, unless its score is not finite.
pub proof fn lemma_power_of_a_target(
    g: Graph,
    o: Oracle,
    base: Scored,
    detour: i64,
    t: i32,
    ids: Seq<i32>,
)
    requires
        detour >= 1,
        g.ty@.contains_key(g.start),
        ({
            let r = routes(
                g,
                Query {
                    frontier: set![g.start],
                    excluded: Set::empty(),
                    detour: detour as nat,
                },
            );
            &&& ascending(ids)
            &&& ids.to_set() == set![g.start].union(r.path(t).to_set())
        }),
    ensures
        ({
            let r = routes(
                g,
                Query {
                    frontier: set![g.start],
                    excluded: Set::empty(),
                    detour: detour as nat,
                },
            );
            let power = power_over(g, o, base, detour);
            let with_it = g.penalized(o(ids).score, o(ids).dps, o(ids).ehp);
            let without_it = g.penalized(base.score, base.dps, base.ehp);
            &&& power.contains_key(t) <==> r.reaches(t) && r.hops[t] >= 1 && t != g.start
                && g.notable(t) && with_it.finite()
            &&& power.contains_key(t) ==> power[t] == with_it.difference(without_it).quotient(
                Double::of_int(r.hops[t] as int),
            )
        }),
{
    broadcast use vstd::seq_lib::group_filter_ensures;

    let q = seed_query(g, detour);
    let r = routes(g, q);
    lemma_routes_exist(g, q);
    let fit = |t: i32| r.hops[t] >= 1 && t != g.start && g.notable(t);
    let targets = seed_targets(g, r, r.order);
    assert(targets.contains(t) <==> r.reaches(t) && fit(t)) by {
        assert(r.order.to_set().contains(t) <==> r.order.contains(t));
        if targets.contains(t) {
            r.order.lemma_filter_contains_rev(fit, t);
            let i = choose|i: int| 0 <= i < targets.len() && targets[i] == t;
            assert(fit(r.order.filter(fit)[i]));
        }
        if r.reaches(t) && fit(t) {
            let i = choose|i: int| 0 <= i < r.order.len() && r.order[i] == t;
            assert(fit(r.order[i]));
        }
    }
    let start = seq![g.start];
    assert(start.to_set() =~= set![g.start]) by {
        assert(start[0] == g.start);
    }
    crate::order::lemma_listing(ids, start.to_set().union(r.path(t).to_set()));
    assert(seed_set(g, r, t) == ids);
}

/// A search measures power against the bare class start: a target gains what the start
/// with the route to it scores over what the start alone scores.
pub proof fn lemma_power_is_over_the_bare_start(
    g: Graph,
    o: Oracle,
    detour: i64,
    t: i32,
    ids: Seq<i32>,
)
    requires
        detour >= 1,
        g.ty@.contains_key(g.start),
        seed_power(g, o, detour).contains_key(t),
        ({
            let r = routes(
                g,
                Query {
                    frontier: set![g.start],
                    excluded: Set::empty(),
                    detour: detour as nat,
                },
            );
            &&& ascending(ids)
            &&& ids.to_set() == set![g.start].union(r.path(t).to_set())
        }),
    ensures
        ({
            let bare = o(seq![g.start]);
            let s = o(ids);
            seed_power(g, o, detour)[t] == g.penalized(s.score, s.dps, s.ehp).difference(
                g.penalized(bare.score, bare.dps, bare.ehp),
            ).quotient(Double::of_int(ids.len() - 1))
        }),
{
    let q = seed_query(g, detour);
    let r = routes(g, q);
    let bare = o(seq![g.start]);
    lemma_power_of_a_target(g, o, bare, detour, t, ids);
    lemma_routes_exist(g, q);
    lemma_path(g, q, r, t);
    let path = r.path(t);
    assert(!path.contains(g.start)) by {
        assert(q.source(g, g.start));
    }
    path.unique_seq_to_set();
    lemma_ascending_len(ids);
    assert(ids.to_set() =~= path.to_set().insert(g.start));
}

/// An ascending list has as many members as it is long.
proof fn lemma_ascending_len(ids: Seq<i32>)
    requires
        ascending(ids),
    ensures
        ids.to_set().len() == ids.len(),
{
    assert(ids.no_duplicates());
    ids.unique_seq_to_set();
}

} // verus!
