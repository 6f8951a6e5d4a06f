//! One pass of the beam: from the class start to an allocation that spends the
//! points.

use crate::course::{
    best_first, grown, known_plan, lemma_asked_grows, lemma_settled_beam, scored_plans, Course,
    Pass,
};
use crate::expand::{course, draft_ids, expand_beam, rank_targets, Draft, PowerSeed};
use crate::fx::{id_set_insert, scored_sets, Memo, Scored};
use crate::graph::Graph;
use crate::lists::lemma_distinct;
use crate::order::{lemma_sorted_len, rank_descending, ranking};
use crate::pathfinder::Pathfinder;
use crate::paths::{lemma_path, routes, Query, Routes};
use crate::plan::{all_wf, lemma_best_is_kept, plans, select_beam, Plan, State};
use crate::soundness::{lemma_beam_sound, lemma_chosen, lemma_grown};
use crate::scorer::{
    agrees, answered, batched, copy_ids, counted, deep, dutiful, extends, learned,
    lemma_agrees_before, lemma_agrees_extended, lemma_batched_idle, lemma_batched_once,
    lemma_batched_push, lemma_learned_twice, lemma_reading, lemma_still_dutiful, reading, recall,
    score_all, score_or_memo, Oracle,
};
use crate::sweep::{names, PathResult};
use crate::node_index::NodeIndex;
use rustc_hash::FxHashSet;
use vstd::prelude::*;

verus! {

/// Scores the drafts that are not known yet, in one batch, and gives back those
/// that have a score.
pub(crate) fn rate<F: FnMut(&[Vec<i32>]) -> Vec<Scored>>(
    g: &Graph,
    drafts: Vec<Draft>,
    memo: &mut Memo,
    evals: &mut usize,
    score: &mut F,
) -> (states: Vec<State>)
    requires
        dutiful(*old(score), scored_sets(*old(memo)), draft_ids(drafts@).to_set()),
        draft_ids(drafts@).no_duplicates(),
        forall|i: int| 0 <= i < drafts@.len() ==> (#[trigger] drafts@[i]).wf(),
    ensures
        *final(score) == *old(score),
        learned(
            *old(score),
            *g,
            scored_sets(*old(memo)),
            scored_sets(*final(memo)),
            draft_ids(drafts@).to_set(),
        ),
        answered(
            *old(score),
            *g,
            scored_sets(*old(memo)),
            scored_sets(*final(memo)),
            draft_ids(drafts@),
        ),
        all_wf(states@),
        forall|o: Oracle| #[trigger]
            agrees(*g, o, scored_sets(*final(memo))) ==> plans(states@) == scored_plans(
                o,
                draft_ids(drafts@),
            ),
        counted(
            *old(evals),
            *final(evals),
            scored_sets(*old(memo)),
            scored_sets(*final(memo)),
        ),
{
    let ghost all = draft_ids(drafts@);
    let mut sets: Vec<Vec<i32>> = Vec::with_capacity(drafts.len());
    let mut i: usize = 0;
    while i < drafts.len()
        invariant
            i <= drafts@.len(),
            sets@.len() == i,
            all == draft_ids(drafts@),
            forall|j: int| 0 <= j < i ==> (#[trigger] sets@[j])@ == all[j],
        decreases drafts@.len() - i,
    {
        sets.push(copy_ids(&drafts[i].ids));
        i = i + 1;
    }
    assert(deep(sets@) =~= all);
    score_all(g, &sets, memo, evals, score);
    let ghost table = scored_sets(*memo);
    proof {
        assert forall|j: int| 0 <= j < all.len() implies table.contains_key(#[trigger] all[j]) by {
            assert(all.to_set().contains(all[j]));
            assert(table.dom().contains(all[j]));
        }
    }
    let mut states: Vec<State> = Vec::new();
    let mut rest: Vec<Draft> = drafts;
    let mut i: usize = 0;
    proof {
        reveal(Seq::filter);
        assert(all.take(0) =~= Seq::empty());
        assert forall|o: Oracle| #[trigger] agrees(*g, o, table) implies plans(states@)
            == scored_plans(o, all.take(0)) by {
            assert(plans(states@) =~= scored_plans(o, all.take(0)));
        }
    }
    while i < rest.len()
        invariant
            i <= rest@.len(),
            all == draft_ids(rest@),
            table == scored_sets(*memo),
            all_wf(states@),
            forall|j: int| 0 <= j < rest@.len() ==> (#[trigger] rest@[j]).wf(),
            forall|j: int| 0 <= j < all.len() ==> table.contains_key(#[trigger] all[j]),
            forall|o: Oracle| #[trigger]
                agrees(*g, o, table) ==> plans(states@) == scored_plans(o, all.take(i as int)),
        decreases rest@.len() - i,
    {
        let d = &rest[i];
        assert(all[i as int] == d.ids@);
        let scored = recall(g, memo, &d.ids);
        let ghost before = plans(states@);
        let ghost p = Plan { ids: d.ids@, scored };
        if scored.score.is_finite() {
            let st = State::new(copy_ids(&d.ids), crate::fx::id_set_clone(&d.set), scored);
            states.push(st);
            assert(plans(states@) =~= before.push(p));
        }
        proof {
            reveal(Seq::filter);
            assert forall|o: Oracle| #[trigger] agrees(*g, o, table) implies plans(states@)
                == scored_plans(o, all.take(i + 1)) by {
                let f = |ids: Seq<i32>| known_plan(o, ids);
                assert(known_plan(o, all[i as int]) == p);
                assert(all.take(i + 1).map_values(f).drop_last() =~= all.take(i as int).map_values(
                    f,
                ));
                assert(all.take(i + 1).map_values(f).last() == p);
                assert(before == scored_plans(o, all.take(i as int)));
            }
        }
        i = i + 1;
    }
    assert(all.take(i as int) =~= all);
    states
}

/// States from the best score to the worst.
fn sort_states(states: &Vec<State>) -> (out: Vec<State>)
    requires
        all_wf(states@),
    ensures
        all_wf(out@),
        plans(out@) == best_first(plans(states@)),
{
    let ghost key = |p: Plan| p.scored.score.standing();
    let mut keys: Vec<i64> = Vec::with_capacity(states.len());
    let mut i: usize = 0;
    while i < states.len()
        invariant
            i <= states@.len(),
            keys@.len() == i,
            key == (|p: Plan| p.scored.score.standing()),
            forall|k: int| 0 <= k < i ==> (#[trigger] keys@[k]) > i64::MIN,
            forall|k: int| 0 <= k < i ==> (#[trigger] keys@[k]) == key(plans(states@)[k]),
        decreases states@.len() - i,
    {
        keys.push(states[i].score.seat());
        assert(plans(states@)[i as int] == states@[i as int]@);
        i = i + 1;
    }
    let p: Vec<usize> = rank_descending(&keys);
    proof {
        assert(keys@.map_values(|k: i64| k as int) =~= plans(states@).map_values(key));
    }
    let mut out: Vec<State> = Vec::with_capacity(states.len());
    let mut i: usize = 0;
    while i < p.len()
        invariant
            i <= p@.len(),
            out@.len() == i,
            p@.len() == states@.len(),
            all_wf(states@),
            all_wf(out@),
            forall|k: int| 0 <= k < p@.len() ==> 0 <= #[trigger] p@[k] < states@.len(),
            forall|k: int| 0 <= k < i ==> (#[trigger] out@[k])@ == states@[p@[k] as int]@,
        decreases p@.len() - i,
    {
        out.push(states[p[i]].copy());
        i = i + 1;
    }
    proof {
        let order = p@.map_values(|i: usize| i as int);
        let items = plans(states@);
        assert(order == ranking(items.map_values(key)));
        assert(plans(out@) =~= order.map_values(|i: int| items[i]));
    }
    out
}

/// The indices of the targets that can anchor an allocation.
fn anchor_targets(
    g: &Graph,
    pass: &Pass,
    seed: &PowerSeed,
    excluded: &FxHashSet<i32>,
    idx: &NodeIndex,
    paths: &PathResult,
    Ghost(c): Ghost<Course>,
) -> (out: Vec<u32>)
    requires
        c == course(*pass, *seed, *excluded),
        paths.holds(idx),
        paths.routes@.order.to_set() == paths.routes@.weight.dom(),
    ensures
        names(idx, out@) == c.anchors(*g, paths.routes@, paths.routes@.order),
        forall|k: int| 0 <= k < out@.len() ==> (#[trigger] out@[k]) < idx.id_of@.len(),
{
    let ghost r = paths.routes@;
    let mut out: Vec<u32> = Vec::new();
    let mut k: usize = 0;
    proof {
        reveal(Seq::filter);
        assert(r.order.take(0) =~= Seq::empty());
        assert(names(idx, out@) =~= c.anchors(*g, r, r.order.take(0)));
    }
    while k < paths.reached.len()
        invariant
            k <= paths.reached@.len(),
            r == paths.routes@,
            c == course(*pass, *seed, *excluded),
            paths.holds(idx),
            r.order.to_set() == r.weight.dom(),
            names(idx, out@) == c.anchors(*g, r, r.order.take(k as int)),
            forall|j: int| 0 <= j < out@.len() ==> (#[trigger] out@[j]) < idx.id_of@.len(),
        decreases paths.reached@.len() - k,
    {
        let ridx: u32 = paths.reached[k];
        let tid: i32 = idx.id_of[ridx as usize];
        let d: usize = paths.pdist[ridx as usize];
        let ghost before = out@;
        proof {
            reveal(Seq::filter);
            assert(r.order.take(k + 1).drop_last() =~= r.order.take(k as int));
            assert(r.order.take(k + 1).last() == tid);
            assert(paths.says(idx, ridx as int));
            assert(r.order.contains(r.order[k as int]));
            assert(r.order.to_set().contains(tid));
            assert(r.reaches(tid));
        }
        if d >= 1 && d <= pass.cap_points && tid != g.start && g.is_target(tid)
            && !crate::fx::id_set_contains(excluded, tid) && seed.power(tid).is_finite() {
            assert(c.anchorable(*g, r, tid));
            out.push(ridx);
            assert(names(idx, out@) =~= names(idx, before).push(tid));
        } else {
            assert(!c.anchorable(*g, r, tid));
        }
        k = k + 1;
    }
    assert(r.order.take(k as int) =~= r.order);
    out
}

/// Routes to different nodes lead to different allocations.
pub proof fn lemma_routes_differ(g: Graph, q: Query, r: Routes, ids: Seq<i32>, a: i32, b: i32)
    requires
        q.detour >= 1,
        r.answer(g, q),
        r.reaches(a),
        r.reaches(b),
        !ids.contains(a),
        !ids.contains(b),
        !q.source(g, a),
        !q.source(g, b),
        grown(ids, r.path(a)) == grown(ids, r.path(b)),
    ensures
        a == b,
{
    lemma_path(g, q, r, a);
    lemma_path(g, q, r, b);
    lemma_grown(ids, r.path(a));
    lemma_grown(ids, r.path(b));
    assert(r.path(a).contains(a)) by {
        assert(r.path(a)[0] == a);
    }
    assert(r.path(b).contains(b)) by {
        assert(r.path(b)[0] == b);
    }
    assert(grown(ids, r.path(a)).contains(a));
    assert(grown(ids, r.path(b)).contains(a));
    assert(grown(ids, r.path(b)).contains(b));
    assert(grown(ids, r.path(a)).contains(b));
    let i = choose|i: int| 0 <= i < r.path(b).len() && r.path(b)[i] == a;
    let j = choose|j: int| 0 <= j < r.path(a).len() && r.path(a)[j] == b;
    assert(r.hops[a] == r.hops[b] - i);
    assert(r.hops[b] == r.hops[a] - j);
}

/// No two anchored allocations are the same.
pub proof fn lemma_anchored_distinct(c: Course, g: Graph, q: Query, r: Routes)
    requires
        q == c.query(set![g.start]),
        q.detour >= 1,
        r == routes(g, q),
        r.answer(g, q),
    ensures
        c.anchored(g).no_duplicates(),
{
    let all = c.anchored(g);
    let chosen = c.chosen(g, r);
    lemma_chosen(c, g, q, r);
    assert forall|i: int, j: int|
        0 <= i < all.len() && 0 <= j < all.len() && i != j implies all[i] != all[j] by {
        let a = chosen[i];
        let b = chosen[j];
        assert(c.anchorable(g, r, a) && c.anchorable(g, r, b));
        assert(!seq![g.start].contains(a) && !seq![g.start].contains(b));
        if all[i] == all[j] {
            lemma_routes_differ(g, q, r, seq![g.start], a, b);
        }
    }
}

/// The class start alone.
pub(crate) fn start_only(g: &Graph) -> (d: Draft)
    ensures
        d.wf(),
        d.ids@ == seq![g.start],
        d.set@ == set![g.start],
{
    let mut set: FxHashSet<i32> = FxHashSet::default();
    id_set_insert(&mut set, g.start);
    let mut ids: Vec<i32> = Vec::new();
    ids.push(g.start);
    proof {
        assert(ids@ =~= seq![g.start]);
        assert(set@ =~= set![g.start]);
        assert(ids@.to_set() =~= set![g.start]) by {
            assert(ids@[0] == g.start);
        }
    }
    Draft { ids, set }
}

/// The class start with the route to each of the chosen targets.
fn anchor_routes(
    g: &Graph,
    pass: &Pass,
    idx: &NodeIndex,
    paths: &PathResult,
    start: &Draft,
    ranked: &Vec<u32>,
    Ghost(c): Ghost<Course>,
) -> (drafts: Vec<Draft>)
    requires
        c.pass == *pass,
        paths.holds(idx),
        start.wf(),
        start.ids@ == seq![g.start],
        start.set@ == set![g.start],
        names(idx, ranked@) == c.by_power(
            c.anchors(*g, paths.routes@, paths.routes@.order),
        ),
        forall|k: int| 0 <= k < ranked@.len() ==> (#[trigger] ranked@[k]) < idx.id_of@.len(),
        forall|k: int|
            0 <= k < c.chosen(*g, paths.routes@).len() ==> paths.routes@.reaches(
                #[trigger] c.chosen(*g, paths.routes@)[k],
            ),
    ensures
        draft_ids(drafts@) == c.chosen(*g, paths.routes@).map_values(
            |t: i32| grown(seq![g.start], paths.routes@.path(t)),
        ),
        forall|i: int| 0 <= i < drafts@.len() ==> (#[trigger] drafts@[i]).wf(),
{
    let ghost r = paths.routes@;
    let ghost ids = names(idx, ranked@);
    let ghost chosen = c.chosen(*g, r);
    let ghost make = |t: i32| grown(seq![g.start], r.path(t));
    let mut drafts: Vec<Draft> = Vec::new();
    let mut k: usize = 0;
    let offset: usize = pass.anchor_offset;
    assert(draft_ids(drafts@) =~= chosen.take(0).map_values(make));
    while k < pass.seed_anchors && offset < ranked.len() && k < ranked.len() - offset
        invariant
            k <= pass.seed_anchors,
            offset <= ranked@.len() ==> k <= ranked@.len() - offset,
            offset > ranked@.len() ==> k == 0,
            offset == pass.anchor_offset,
            c.pass == *pass,
            paths.holds(idx),
            r == paths.routes@,
            ids == names(idx, ranked@),
            ids == c.by_power(c.anchors(*g, r, r.order)),
            chosen == c.chosen(*g, r),
            make == (|t: i32| grown(seq![g.start], r.path(t))),
            start.wf(),
            start.ids@ == seq![g.start],
            start.set@ == set![g.start],
            forall|j: int| 0 <= j < ranked@.len() ==> (#[trigger] ranked@[j]) < idx.id_of@.len(),
            forall|j: int| 0 <= j < chosen.len() ==> r.reaches(#[trigger] chosen[j]),
            draft_ids(drafts@) == chosen.take(k as int).map_values(make),
            forall|j: int| 0 <= j < drafts@.len() ==> (#[trigger] drafts@[j]).wf(),
        decreases ranked@.len() - k,
    {
        let ridx: u32 = ranked[offset + k];
        let ghost t = chosen[k as int];
        assert(ids[offset + k] == t);
        assert(idx.id_of@[ridx as int] == t);
        let path = paths.path_to(idx, ridx);
        let d = Draft::grow(&start.set, &path);
        let ghost before = drafts@;
        drafts.push(d);
        proof {
            assert(d.ids@ == make(t));
            assert(draft_ids(drafts@) =~= draft_ids(before).push(make(t)));
            assert(chosen.take(k + 1).map_values(make) =~= chosen.take(k as int).map_values(
                make,
            ).push(make(t)));
        }
        k = k + 1;
    }
    assert(chosen.take(k as int) =~= chosen);
    drafts
}

/// The anchored allocations of a pass.
fn anchor_drafts(
    g: &Graph,
    pass: &Pass,
    seed: &PowerSeed,
    excluded: &FxHashSet<i32>,
    pf: &mut Pathfinder,
    start: &Draft,
) -> (drafts: Vec<Draft>)
    requires
        old(pf).wf(),
        old(pf).graph@ == *g,
        pass.detour >= 1,
        start.wf(),
        start.ids@ == seq![g.start],
        start.set@ == set![g.start],
    ensures
        final(pf).wf(),
        final(pf).graph@ == *g,
        draft_ids(drafts@) == course(*pass, *seed, *excluded).anchored(*g),
        draft_ids(drafts@).no_duplicates(),
        forall|i: int| 0 <= i < drafts@.len() ==> (#[trigger] drafts@[i]).wf(),
{
    let ghost c = course(*pass, *seed, *excluded);
    let paths = pf.paths_from_set(&start.set, excluded, pass.detour);
    let ghost q = c.query(set![g.start]);
    let ghost r = paths.routes@;
    let found = anchor_targets(g, pass, seed, excluded, &pf.idx, &paths, Ghost(c));
    let ranked = rank_targets(seed, &pf.idx, &found, Ghost(c));
    proof {
        lemma_chosen(c, *g, q, r);
    }
    let drafts = anchor_routes(g, pass, &pf.idx, &paths, start, &ranked, Ghost(c));
    proof {
        lemma_anchored_distinct(c, *g, q, r);
    }
    drafts
}

/// What a pass has done after `n` steps: the beam, and what the table has learned.
spec fn on_course<F: FnMut(&[Vec<i32>]) -> Vec<Scored>>(
    f: F,
    c: Course,
    g: Graph,
    before: Map<Seq<i32>, Scored>,
    now: Map<Seq<i32>, Scored>,
    beam: Seq<Plan>,
    n: nat,
) -> bool {
    forall|o: Oracle| #[trigger]
        agrees(g, o, now) ==> {
            &&& beam == c.beam_after(g, o, n)
            &&& learned(f, g, before, now, c.asked_after(g, o, n))
            &&& batched(f, g, before, now, c.batches_after(g, o, n))
        }
}

/// Steps that change nothing ask for nothing more.
proof fn lemma_settled_batches<F: FnMut(&[Vec<i32>]) -> Vec<Scored>>(
    f: F,
    c: Course,
    g: Graph,
    o: Oracle,
    before: Map<Seq<i32>, Scored>,
    now: Map<Seq<i32>, Scored>,
    n: nat,
    m: nat,
)
    requires
        c.next(g, o, c.beam_after(g, o, n)) == c.beam_after(g, o, n),
        c.candidates(g, c.beam_after(g, o, n)).to_set().subset_of(now.dom()),
        batched(f, g, before, now, c.batches_after(g, o, n + 1)),
        m > n,
    ensures
        batched(f, g, before, now, c.batches_after(g, o, m)),
    decreases m,
{
    if m > n + 1 {
        let k = (m - 1) as nat;
        lemma_settled_batches(f, c, g, o, before, now, n, k);
        lemma_settled_beam(c, g, o, n, k);
        lemma_batched_idle(
            f,
            g,
            before,
            now,
            c.batches_after(g, o, k),
            c.candidates(g, c.beam_after(g, o, k)),
        );
    }
}

/// What a step asks for may be asked for by the pass.
proof fn lemma_step_due<F: FnMut(&[Vec<i32>]) -> Vec<Scored>>(
    f: F,
    c: Course,
    g: Graph,
    before: Map<Seq<i32>, Scored>,
    now: Map<Seq<i32>, Scored>,
    sets: Set<Seq<i32>>,
    n: nat,
)
    requires
        dutiful(f, before, c.due(g, before)),
        extends(now, before),
        sets.subset_of(c.asked_after(g, reading(g, now), n)),
        n <= c.pass.cap_points,
    ensures
        dutiful(f, now, sets),
{
    let o = reading(g, now);
    lemma_reading(g, now);
    lemma_agrees_extended(g, o, before, now);
    lemma_asked_grows(c, g, o, n, c.pass.cap_points as nat);
    assert forall|ids: Seq<i32>| #[trigger]
        sets.contains(ids) && !now.contains_key(ids) implies c.due(g, before).contains(ids) by {
        assert(c.asked(g, o).contains(ids));
        assert(agrees(g, o, before));
    }
    lemma_still_dutiful(f, before, c.due(g, before), now, sets);
}

/// The beam before the first step.
fn begin<F: FnMut(&[Vec<i32>]) -> Vec<Scored>>(
    g: &Graph,
    pass: &Pass,
    seed: &PowerSeed,
    excluded: &FxHashSet<i32>,
    pf: &mut Pathfinder,
    memo: &mut Memo,
    evals: &mut usize,
    score: &mut F,
) -> (beam: Vec<State>)
    requires
        dutiful(
            *old(score),
            scored_sets(*old(memo)),
            set![seq![g.start]].union(course(*pass, *seed, *excluded).anchored(*g).to_set()),
        ),
        old(pf).wf(),
        old(pf).graph@ == *g,
        pass.detour >= 1,
    ensures
        *final(score) == *old(score),
        final(pf).wf(),
        final(pf).graph@ == *g,
        all_wf(beam@),
        on_course(
            *old(score),
            course(*pass, *seed, *excluded),
            *g,
            scored_sets(*old(memo)),
            scored_sets(*final(memo)),
            plans(beam@),
            0,
        ),
        counted(
            *old(evals),
            *final(evals),
            scored_sets(*old(memo)),
            scored_sets(*final(memo)),
        ),
{
    let ghost c = course(*pass, *seed, *excluded);
    let ghost table0 = scored_sets(*memo);
    let ghost early = set![seq![g.start]].union(c.anchored(*g).to_set());
    let start = start_only(g);
    proof {
        lemma_still_dutiful(*score, table0, early, table0, set![seq![g.start]]);
    }
    let base = score_or_memo(g, &start.ids, memo, evals, score);
    let ghost table1 = scored_sets(*memo);
    let drafts: Vec<Draft> = anchor_drafts(g, pass, seed, excluded, pf, &start);
    let ghost anchored = draft_ids(drafts@);
    proof {
        lemma_still_dutiful(*score, table0, early, table1, anchored.to_set());
    }
    let mut rated = rate(g, drafts, memo, evals, score);
    let ghost table2 = scored_sets(*memo);
    let first = State::new(start.ids, start.set, base);
    let mut beam: Vec<State> = Vec::new();
    beam.push(first);
    beam.append(&mut rated);
    proof {
        lemma_learned_twice(
            *old(score),
            *g,
            table0,
            table1,
            table2,
            set![seq![g.start]],
            anchored.to_set(),
        );
        let lone = seq![seq![g.start]];
        assert(lone.to_set() =~= set![seq![g.start]]) by {
            assert(lone[0] == seq![g.start]);
        }
        lemma_batched_once(*old(score), *g, table0, table1, lone);
        lemma_batched_push(*old(score), *g, table0, table1, table2, seq![lone], anchored);
        assert(seq![lone].push(anchored) =~= seq![lone, anchored]);
        assert forall|o: Oracle| #[trigger] agrees(*g, o, table2) implies plans(beam@)
            == c.beam_after(*g, o, 0) && learned(
            *old(score),
            *g,
            table0,
            table2,
            c.asked_after(*g, o, 0),
        ) && batched(*old(score), *g, table0, table2, c.batches_after(*g, o, 0)) by {
            lemma_agrees_before(*old(score), *g, o, table1, table2, anchored.to_set());
            assert(table1.dom().contains(seq![g.start]));
            assert(table1.contains_key(seq![g.start]));
            assert(first@ == known_plan(o, seq![g.start]));
            assert(plans(beam@) =~= c.first_beam(*g, o));
        }
    }
    beam
}

/// One pass of the beam: grows allocations from the class start, by adjacent
/// nodes and by jumps to notables and keystones, up to the points that may be
/// spent, and gives back the best one. The banned nodes are not chosen, but a
/// route may lead over them.
///
/// A set is scored only where the table does not hold it, the sets of each step in
/// one batch; what was scored is in the table afterwards.
pub fn run_beam<F: FnMut(&[Vec<i32>]) -> Vec<Scored>>(
    g: &Graph,
    pass: &Pass,
    seed: &PowerSeed,
    excluded: &FxHashSet<i32>,
    pf: &mut Pathfinder,
    memo: &mut Memo,
    evals: &mut usize,
    score: &mut F,
) -> (best: State)
    requires
        dutiful(
            *old(score),
            scored_sets(*old(memo)),
            course(*pass, *seed, *excluded).due(*g, scored_sets(*old(memo))),
        ),
        old(pf).wf(),
        old(pf).graph@ == *g,
        pass.detour >= 1,
        pass.beam_width + pass.pareto_extra > 0,
    ensures
        *final(score) == *old(score),
        final(pf).wf(),
        final(pf).graph@ == *g,
        best.wf(),
        forall|o: Oracle| #[trigger]
            agrees(*g, o, scored_sets(*final(memo))) ==> {
                &&& best@ == course(*pass, *seed, *excluded).outcome(*g, o)
                &&& learned(
                    *old(score),
                    *g,
                    scored_sets(*old(memo)),
                    scored_sets(*final(memo)),
                    course(*pass, *seed, *excluded).asked(*g, o),
                )
                &&& batched(
                    *old(score),
                    *g,
                    scored_sets(*old(memo)),
                    scored_sets(*final(memo)),
                    course(*pass, *seed, *excluded).batches(*g, o),
                )
            },
        counted(
            *old(evals),
            *final(evals),
            scored_sets(*old(memo)),
            scored_sets(*final(memo)),
        ),
{
    let ghost c = course(*pass, *seed, *excluded);
    let ghost table0 = scored_sets(*memo);
    let ghost cap = pass.cap_points as nat;
    proof {
        lemma_step_due(
            *score,
            c,
            *g,
            table0,
            table0,
            c.asked_after(*g, reading(*g, table0), 0),
            0,
        );
    }
    let mut beam = begin(g, pass, seed, excluded, pf, memo, evals, score);
    proof {
        let o = reading(*g, scored_sets(*memo));
        lemma_reading(*g, scored_sets(*memo));
        assert(plans(beam@) == c.beam_after(*g, o, 0));
        assert(plans(beam@).len() == beam@.len());
    }
    let mut step: usize = 0;
    let mut moving: bool = true;
    while moving && step < pass.cap_points
        invariant
            dutiful(*old(score), table0, c.due(*g, table0)),
            *score == *old(score),
            c == course(*pass, *seed, *excluded),
            cap == pass.cap_points,
            pass.detour >= 1,
            pass.beam_width + pass.pareto_extra > 0,
            step <= cap,
            pf.wf(),
            pf.graph@ == *g,
            all_wf(beam@),
            beam@.len() > 0,
            counted(*old(evals), *evals, table0, scored_sets(*memo)),
            on_course(*old(score), c, *g, table0, scored_sets(*memo), plans(beam@), step as nat),
            !moving ==> step < cap ==> on_course(
                *old(score),
                c,
                *g,
                table0,
                scored_sets(*memo),
                plans(beam@),
                cap,
            ),
        decreases pass.cap_points - step, (if moving { 1int } else { 0int }),
    {
        let ghost table1 = scored_sets(*memo);
        let ghost beam0 = plans(beam@);
        proof {
            lemma_reading(*g, table1);
            let o = reading(*g, table1);
            assert(beam0 == c.beam_after(*g, o, step as nat));
            lemma_beam_sound(c, *g, o, step as nat);
            assert forall|i: int| 0 <= i < beam@.len() implies (#[trigger] beam@[i]).ids@.len()
                >= 1 by {
                assert(beam0[i] == beam@[i]@);
                assert(beam0[i].ids.contains(g.start));
            }
        }
        let drafts = expand_beam(g, pass, seed, excluded, pf, &beam);
        let ghost cands = draft_ids(drafts@);
        proof {
            lemma_distinct(c.proposals(*g, beam0));
            let o = reading(*g, table1);
            assert(agrees(*g, o, table1));
            assert(learned(*old(score), *g, table0, table1, c.asked_after(*g, o, step as nat)));
            assert(c.asked_after(*g, o, step as nat + 1) == c.asked_after(
                *g,
                o,
                step as nat,
            ).union(cands.to_set()));
            lemma_step_due(
                *score,
                c,
                *g,
                table0,
                table1,
                cands.to_set(),
                step as nat + 1,
            );
        }
        let rated = rate(g, drafts, memo, evals, score);
        let ghost table2 = scored_sets(*memo);
        proof {
            assert forall|o: Oracle| #[trigger] agrees(*g, o, table2) implies agrees(*g, o, table1)
                && beam0 == c.beam_after(*g, o, step as nat) && learned(
                *old(score),
                *g,
                table0,
                table2,
                c.asked_after(*g, o, step as nat + 1),
            ) && batched(
                *old(score),
                *g,
                table0,
                table2,
                c.batches_after(*g, o, step as nat + 1),
            ) && plans(rated@) == scored_plans(o, c.candidates(*g, beam0)) by {
                lemma_agrees_before(*old(score), *g, o, table1, table2, cands.to_set());
                assert(agrees(*g, o, table1));
                lemma_learned_twice(
                    *old(score),
                    *g,
                    table0,
                    table1,
                    table2,
                    c.asked_after(*g, o, step as nat),
                    cands.to_set(),
                );
                lemma_batched_push(
                    *old(score),
                    *g,
                    table0,
                    table1,
                    table2,
                    c.batches_after(*g, o, step as nat),
                    cands,
                );
            }
        }
        if rated.len() == 0 {
            moving = false;
            proof {
                assert forall|o: Oracle| #[trigger] agrees(*g, o, table2) implies plans(beam@)
                    == c.beam_after(*g, o, cap) && learned(
                    *old(score),
                    *g,
                    table0,
                    table2,
                    c.asked_after(*g, o, cap),
                ) && batched(*old(score), *g, table0, table2, c.batches_after(*g, o, cap)) by {
                    assert(plans(rated@).len() == 0);
                    lemma_settled_beam(c, *g, o, step as nat, cap);
                    lemma_settled_batches(
                        *old(score),
                        c,
                        *g,
                        o,
                        table0,
                        table2,
                        step as nat,
                        cap,
                    );
                }
                assert forall|o: Oracle| #[trigger] agrees(*g, o, table2) implies plans(beam@)
                    == c.beam_after(*g, o, step as nat + 1) && learned(
                    *old(score),
                    *g,
                    table0,
                    table2,
                    c.asked_after(*g, o, step as nat + 1),
                ) by {
                    assert(plans(rated@).len() == 0);
                    lemma_settled_beam(c, *g, o, step as nat, step as nat + 1);
                }
            }
        } else {
            let sorted = sort_states(&rated);
            let ghost ranked = plans(sorted@);
            beam = select_beam(sorted, pass.beam_width, pass.pareto_extra);
            proof {
                assert(ranked.len() > 0) by {
                    lemma_sorted_len(plans(rated@), |p: Plan| p.scored.score.standing());
                    assert(plans(rated@).len() == rated@.len());
                }
                lemma_best_is_kept(ranked, pass.beam_width as nat, pass.pareto_extra as nat);
                assert(plans(beam@).len() == beam@.len());
                assert forall|o: Oracle| #[trigger] agrees(*g, o, table2) implies plans(beam@)
                    == c.beam_after(*g, o, step as nat + 1) by {
                    assert(plans(rated@) == scored_plans(o, c.candidates(*g, beam0)));
                    assert(plans(rated@).len() == rated@.len());
                }
            }
        }
        step = step + 1;
    }
    proof {
        lemma_reading(*g, scored_sets(*memo));
        assert(on_course(*old(score), c, *g, table0, scored_sets(*memo), plans(beam@), cap));
        assert(plans(beam@)[0] == beam@[0]@);
    }
    beam.swap_remove(0)
}

} // verus!
