//! What holds of the search as a whole.

use crate::beam::concluded;
use crate::cache::{remembered, revived};
use crate::course::{best_first, known_plan, scored_plans, Course};
use crate::diet::{judged_plan, weaker, weakest, Diet, Regime};
use crate::double::{lemma_sum_no_less, Double, ONE_MILLIONTH_BITS};
use crate::expand::lemma_kept_among;
use crate::fx::Scored;
use crate::graph::Graph;
use crate::lists::{at_most_first, lemma_filter_distinct};
use crate::margin::{leaf, lemma_without, marginal_of, marginals, notables, without, Marginal};
use crate::order::{lemma_sorted, lemma_sorted_distinct, lemma_sorted_len};
use crate::params::BeamParams;
use crate::paths::{lemma_path, routes};
use crate::plan::{lemma_best_is_kept, Plan};
use crate::reach::lemma_routes_exist;
use crate::scorer::{
    agrees, askable, dutiful, earned, learned, lemma_agrees_before, reading, Oracle,
};
use crate::seed::seed_power;
use crate::soundness::{
    allocation, connected, leads, lemma_beam_is_scored, lemma_beam_sound, lemma_order_distinct,
    lemma_single_step,
};
use vstd::prelude::*;

verus! {

/// A beam is never empty.
pub proof fn lemma_beam_nonempty(c: Course, g: Graph, o: Oracle, n: nat)
    requires
        c.pass.beam_width + c.pass.pareto_extra > 0,
    ensures
        c.beam_after(g, o, n).len() > 0,
    decreases n,
{
    if n > 0 {
        let beam = c.beam_after(g, o, (n - 1) as nat);
        lemma_beam_nonempty(c, g, o, (n - 1) as nat);
        let scored = scored_plans(o, c.candidates(g, beam));
        if scored.len() > 0 {
            lemma_sorted_len(scored, |p: Plan| p.scored.score.standing());
            lemma_best_is_kept(
                best_first(scored),
                c.pass.beam_width as nat,
                c.pass.pareto_extra as nat,
            );
        }
    }
}

/// What a pass gives back holds the class start, hangs together, has only nodes that
/// can be chosen besides and stays within the points.
pub proof fn lemma_pass_sound(c: Course, g: Graph, o: Oracle)
    requires
        c.pass.detour >= 1,
        c.pass.beam_width + c.pass.pareto_extra > 0,
        g.ty@.contains_key(g.start),
    ensures
        allocation(g, c.outcome(g, o).ids, c.pass.cap_points as nat),
{
    let n = c.pass.cap_points as nat;
    lemma_beam_nonempty(c, g, o, n);
    lemma_beam_sound(c, g, o, n);
    let beam = c.beam_after(g, o, n);
    assert(allocation(g, beam[0].ids, n));
}

proof fn lemma_diet_sound(r: Regime, g: Graph, o: Oracle, power: Map<i32, Double>, n: nat)
    requires
        r.pass.detour >= 1,
        r.pass.beam_width + r.pass.pareto_extra > 0,
        g.ty@.contains_key(g.start),
    ensures
        allocation(g, r.diet_after(g, o, power, n).best.ids, r.pass.cap_points as nat),
    decreases n,
{
    if n == 0 {
        lemma_pass_sound(r.course(power, Set::empty()), g, o);
    } else {
        let d = r.diet_after(g, o, power, (n - 1) as nat);
        lemma_diet_sound(r, g, o, power, (n - 1) as nat);
        if r.hungry(d) {
            let marg = marginals(g, o, d.best);
            lemma_pass_sound(
                r.course(power, d.banned.union(d.dead_leaves(g, marg).to_set())),
                g,
                o,
            );
            lemma_pass_sound(
                r.course(power, d.banned.insert(weakest(d.suspects(marg)).id)),
                g,
                o,
            );
        }
    }
}

proof fn lemma_restart_sound(
    p: BeamParams,
    g: Graph,
    o: Oracle,
    power: Map<i32, Double>,
    k: nat,
)
    requires
        p.wf(),
        g.ty@.contains_key(g.start),
    ensures
        allocation(g, p.best_after(g, o, power, k).ids, p.points(g) as nat),
    decreases k,
{
    let r = p.regime(g, k);
    lemma_diet_sound(r, g, o, power, r.max_rounds as nat);
    if k > 0 {
        lemma_restart_sound(p, g, o, power, (k - 1) as nat);
    }
}

/// Whatever the scores, what the search finds is the class start with nodes that
/// are linked to it within what was found, in ascending order, and it spends no
/// more points than it may.
pub proof fn lemma_search_finds_an_allocation(p: BeamParams, g: Graph, o: Oracle)
    requires
        p.wf(),
        g.ty@.contains_key(g.start),
    ensures
        allocation(g, p.found(g, o).ids, p.points(g) as nat),
{
    lemma_restart_sound(p, g, o, seed_power(g, o, p.detour), p.reruns());
}

/// Adding a hair gives no less, so what beats a number by more than a hair is
/// greater.
proof fn lemma_beyond_a_hair(a: Double, b: Double)
    requires
        a.sum(Double { bits: ONE_MILLIONTH_BITS }).below(b),
    ensures
        a.below(b),
{
    let hair = Double { bits: ONE_MILLIONTH_BITS };
    assert(!a.nan());
    assert(hair.finite() && !hair.negative());
    lemma_sum_no_less(a, hair);
}

pub proof fn lemma_restarts_climb(
    p: BeamParams,
    g: Graph,
    o: Oracle,
    power: Map<i32, Double>,
    j: nat,
    k: nat,
)
    requires
        j <= k,
    ensures
        p.best_after(g, o, power, k) == p.best_after(g, o, power, j) || p.best_after(
            g,
            o,
            power,
            j,
        ).scored.score.below(p.best_after(g, o, power, k).scored.score),
    decreases k,
{
    if j < k {
        lemma_restarts_climb(p, g, o, power, j, (k - 1) as nat);
        let best = p.best_after(g, o, power, (k - 1) as nat);
        let now = p.regime(g, k).outcome(g, o, power);
        if best.scored.score.sum(Double { bits: ONE_MILLIONTH_BITS }).below(now.scored.score) {
            lemma_beyond_a_hair(best.scored.score, now.scored.score);
        }
    }
}

/// More restarts never give a worse result: with the same scores, a search with
/// more restarts finds the same allocation or one with a greater score.
pub proof fn lemma_restarts_never_worsen(p: BeamParams, more: BeamParams, g: Graph, o: Oracle)
    requires
        p.restarts <= more.restarts,
        more == (BeamParams { restarts: more.restarts, ..p }),
    ensures
        more.found(g, o) == p.found(g, o) || p.found(g, o).scored.score.below(
            more.found(g, o).scored.score,
        ),
{
    let power = seed_power(g, o, p.detour);
    lemma_same_bands(p, more, g, o, power, p.reruns());
    lemma_restarts_climb(more, g, o, power, p.reruns(), more.reruns());
}

proof fn lemma_same_bands(
    p: BeamParams,
    q: BeamParams,
    g: Graph,
    o: Oracle,
    power: Map<i32, Double>,
    k: nat,
)
    requires
        q == (BeamParams { restarts: q.restarts, ..p }),
    ensures
        p.best_after(g, o, power, k) == q.best_after(g, o, power, k),
    decreases k,
{
    assert(p.regime(g, k) == q.regime(g, k));
    if k > 0 {
        lemma_same_bands(p, q, g, o, power, (k - 1) as nat);
    }
}

/// Only the axes of a table count where the tree carries its weights: two tables
/// with the same finite axes give the same answers, whatever growth scores they
/// hold.
pub proof fn lemma_growth_scores_are_derived(g: Graph, s: Scored, t: Scored)
    requires
        g.trailer(),
        s.dps == t.dps,
        s.ehp == t.ehp,
        s.dps.finite(),
        s.ehp.finite(),
    ensures
        g.settled(s) == g.settled(t),
        g.settled(s).score == g.growth(s.dps, s.ehp),
        g.settled(g.settled(s)) == g.settled(s),
{
}

/// A second search over the table that a first one left finds the same and asks
/// for nothing, whoever would answer.
pub proof fn lemma_second_search<
    F: FnMut(&[Vec<i32>]) -> Vec<Scored>,
    H: FnMut(&[Vec<i32>]) -> Vec<Scored>,
>(
    f: F,
    h: H,
    g: Graph,
    p: BeamParams,
    before: Map<Seq<i32>, Scored>,
    left: Map<Seq<i32>, Scored>,
    after: Map<Seq<i32>, Scored>,
    first: Plan,
    second: Plan,
)
    requires
        concluded(f, g, p, before, left, first),
        concluded(h, g, p, left, after, second),
    ensures
        second == first,
        after == left,
{
    let o = reading(g, after);
    assert(agrees(g, o, after));
    lemma_agrees_before(h, g, o, left, after, p.asked(g, o));
    assert(agrees(g, o, left));
    assert(learned(f, g, before, left, p.asked(g, o)));
    assert(after =~= left);
}

/// A second search over the table that a first one left never turns to its scorer:
/// there is no batch that may be handed to one, so that a search can be given any,
/// even one that can never be called.
pub proof fn lemma_second_search_needs_no_scorer<
    F: FnMut(&[Vec<i32>]) -> Vec<Scored>,
    H: FnMut(&[Vec<i32>]) -> Vec<Scored>,
>(
    f: F,
    h: H,
    g: Graph,
    p: BeamParams,
    before: Map<Seq<i32>, Scored>,
    left: Map<Seq<i32>, Scored>,
    first: Plan,
)
    requires
        concluded(f, g, p, before, left, first),
    ensures
        forall|sets: Seq<Seq<i32>>| !#[trigger] askable(left, p.due(g, left), sets),
        dutiful(h, left, p.due(g, left)),
{
    assert forall|sets: Seq<Seq<i32>>| !#[trigger] askable(left, p.due(g, left), sets) by {
        if askable(left, p.due(g, left), sets) {
            let ids = sets[0];
            assert(p.due(g, left).contains(ids));
            let o = choose|o: Oracle| #[trigger] agrees(g, o, left) && p.asked(g, o).contains(ids);
            assert(learned(f, g, before, left, p.asked(g, o)));
            assert(left.dom().contains(ids));
        }
    }
}

/// Whether a scorer answers for each set what `worth` says, in whatever batch.
pub open spec fn answers<F: FnMut(&[Vec<i32>]) -> Vec<Scored>>(
    f: F,
    worth: spec_fn(Seq<i32>) -> Scored,
) -> bool {
    forall|sets: &[Vec<i32>], reply: Vec<Scored>, i: int| #[trigger]
        call_ensures(f, (sets,), reply) && 0 <= i < sets@.len() ==> reply@[i] == worth(
            (#[trigger] sets@[i])@,
        )
}

/// Where the scorer answers for each set alone, it decides the search, whatever the
/// table held before, as long as that was right: a warm start changes no result.
pub proof fn lemma_warm_start_changes_nothing<F: FnMut(&[Vec<i32>]) -> Vec<Scored>>(
    f: F,
    worth: spec_fn(Seq<i32>) -> Scored,
    g: Graph,
    p: BeamParams,
    before: Map<Seq<i32>, Scored>,
    after: Map<Seq<i32>, Scored>,
    found: Plan,
)
    requires
        concluded(f, g, p, before, after, found),
        answers(f, worth),
        agrees(g, |ids: Seq<i32>| g.settled(worth(ids)), before),
    ensures
        found == p.found(g, |ids: Seq<i32>| g.settled(worth(ids))),
{
    let o = |ids: Seq<i32>| g.settled(worth(ids));
    let seen = reading(g, after);
    assert(agrees(g, seen, after));
    assert(learned(f, g, before, after, p.asked(g, seen)));
    assert forall|ids: Seq<i32>| #[trigger] after.contains_key(ids) implies o(ids) == g.settled(
        after[ids],
    ) by {
        if !before.contains_key(ids) {
            assert(earned(f, g, ids, after[ids]));
            let (sets, reply, i) = choose|sets: &[Vec<i32>], reply: Vec<Scored>, i: int| #[trigger]
                call_ensures(f, (sets,), reply) && 0 <= i < sets@.len() && #[trigger] sets@[i]@
                    == ids && after[ids] == g.settled(reply@[i]);
            assert(reply@[i] == worth(sets@[i]@));
        }
    }
    assert(agrees(g, o, after));
}

/// A table that went through a cache tells of each node set what it told before,
/// where the tree carries its weights, though the cache may have been written under
/// other weights.
pub proof fn lemma_cache_is_faithful(g: Graph, o: Oracle, table: Map<Seq<i32>, Scored>)
    requires
        g.trailer(),
        agrees(g, o, table),
    ensures
        agrees(g, o, remembered(g, table)),
{
    reveal(revived);
    assert forall|ids: Seq<i32>| #[trigger] remembered(g, table).contains_key(ids) implies o(ids)
        == g.settled(remembered(g, table)[ids]) by {
        assert(table.contains_key(ids));
    }
}

/// The members of the marginals are told apart by their ids.
proof fn lemma_one_margin(g: Graph, o: Oracle, best: Plan, a: Marginal, b: Marginal)
    requires
        marginals(g, o, best).contains(a),
        marginals(g, o, best).contains(b),
        a.id == b.id,
    ensures
        a == b,
{
    let all = marginals(g, o, best);
    let i = choose|i: int| 0 <= i < all.len() && all[i] == a;
    let j = choose|j: int| 0 <= j < all.len() && all[j] == b;
    assert(all[i] == marginal_of(g, o, best, notables(g, best.ids)[i]));
    assert(all[j] == marginal_of(g, o, best, notables(g, best.ids)[j]));
}

/// The weakest of some nodes is one of them.
pub proof fn lemma_weakest_among(all: Seq<Marginal>)
    requires
        all.len() > 0,
    ensures
        all.contains(weakest(all)),
    decreases all.len(),
{
    let f = |a: Marginal, b: Marginal| weaker(a, b);
    let rest = all.drop_last();
    if rest.len() == 0 {
        assert(rest.fold_left(all[0], f) == all[0]);
        assert(weakest(all) == all[0]);
    } else {
        lemma_weakest_among(rest);
        assert(rest[0] == all[0]);
        assert(weakest(all) == weaker(weakest(rest), all.last()));
        let i = choose|i: int| 0 <= i < rest.len() && rest[i] == weakest(rest);
        assert(all[i] == weakest(rest));
        assert(all[all.len() - 1] == all.last());
    }
}

/// A node without which an axis collapses is never banned.
pub proof fn lemma_enablers_stay(
    r: Regime,
    g: Graph,
    o: Oracle,
    power: Map<i32, Double>,
    d: Diet,
    m: Marginal,
)
    requires
        marginals(g, o, d.best).contains(m),
        m.is_enabler,
        !d.banned.contains(m.id),
    ensures
        !r.round(g, o, power, d).banned.contains(m.id),
{
    broadcast use vstd::seq_lib::group_filter_ensures;

    let marg = marginals(g, o, d.best);
    let dead = |x: Marginal| d.dead(g, x);
    let drop = |x: Marginal| d.droppable(x);
    let leaves = d.dead_leaves(g, marg);
    let suspects = d.suspects(marg);
    if leaves.to_set().contains(m.id) {
        let i = choose|i: int| 0 <= i < leaves.len() && leaves[i] == m.id;
        let x = marg.filter(dead)[i];
        assert(dead(marg.filter(dead)[i]));
        assert(marg.filter(dead).contains(x));
        marg.lemma_filter_contains_rev(dead, x);
        lemma_one_margin(g, o, d.best, m, x);
    }
    if suspects.len() > 0 && weakest(suspects).id == m.id {
        lemma_weakest_among(suspects);
        let x = weakest(suspects);
        let i = choose|i: int| 0 <= i < suspects.len() && suspects[i] == x;
        assert(drop(marg.filter(drop)[i]));
        marg.lemma_filter_contains_rev(drop, x);
        lemma_one_margin(g, o, d.best, m, x);
    }
}

/// A round never unbans a node.
pub proof fn lemma_bans_last(
    r: Regime,
    g: Graph,
    o: Oracle,
    power: Map<i32, Double>,
    d: Diet,
)
    ensures
        d.banned.subset_of(r.round(g, o, power, d).banned),
{
}

/// The class start is never a leaf.
pub proof fn lemma_start_is_no_leaf(g: Graph, nodes: Set<i32>)
    ensures
        !leaf(g, nodes, g.start),
{
}

/// A ban of a single node is kept only where the result is better.
pub proof fn lemma_ban_is_earned(
    r: Regime,
    g: Graph,
    o: Oracle,
    power: Map<i32, Double>,
    d: Diet,
)
    requires
        d.dead_leaves(g, marginals(g, o, d.best)).len() == 0,
    ensures
        r.round(g, o, power, d).banned == d.banned || d.best.scored.score.below(
            r.round(g, o, power, d).best.scored.score,
        ),
{
    let suspects = d.suspects(marginals(g, o, d.best));
    if suspects.len() > 0 {
        let banned = d.banned.insert(weakest(suspects).id);
        let t = r.trial(g, o, power, banned);
        if d.best.scored.score.sum(Double { bits: ONE_MILLIONTH_BITS }).below(t.scored.score) {
            lemma_beyond_a_hair(d.best.scored.score, t.scored.score);
        }
    }
}

/// Bans are soft: a banned node is never what an allocation is extended for, be
/// it by a step or by a jump, though the route of a jump may lead over it.
pub proof fn lemma_bans_are_soft(c: Course, g: Graph, ids: Seq<i32>, add: Seq<i32>)
    requires
        c.pass.detour >= 1,
        g.ty@.contains_key(g.start),
        c.moves(g, ids).contains(add),
    ensures
        add.len() > 0,
        !c.excluded.contains(add[0]),
        g.target(add[0]),
        !ids.contains(add[0]),
{
    broadcast use vstd::seq_lib::group_filter_ensures;

    let q = c.query(ids.to_set());
    let r = routes(g, q);
    lemma_routes_exist(g, q);
    let singles = c.singles(g, ids, ids);
    let moves = c.moves(g, ids);
    let m = choose|m: int| 0 <= m < moves.len() && moves[m] == add;
    if m < singles.len() {
        assert(singles[m] == add);
        assert(singles.contains(add));
        lemma_single_step(c, g, ids, add);
    } else {
        let jumps = c.jumps(g, ids, r, r.order);
        let targets = c.kept_jumps(g, jumps);
        let t = targets[m - singles.len()];
        assert(add == r.path(t));
        lemma_kept_among(c, g, jumps, targets, m - singles.len());
        let fit = |t: i32| c.jumpable(g, ids, r, t);
        let j = choose|j: int| 0 <= j < jumps.len() && jumps[j] == t;
        assert(fit(r.order.filter(fit)[j]));
        r.order.lemma_filter_contains_rev(fit, t);
        assert(r.order.to_set().contains(t));
        lemma_path(g, q, r, t);
        assert(r.hops[t] >= 2);
        assert(r.path(t)[0] == t);
    }
}

/// Whether an allocation carries the penalized score of what is known of it.
pub open spec fn judged_rightly(g: Graph, o: Oracle, p: Plan) -> bool {
    p == judged_plan(g, known_plan(o, p.ids))
}

proof fn lemma_trial_is_scored(
    r: Regime,
    g: Graph,
    o: Oracle,
    power: Map<i32, Double>,
    banned: Set<i32>,
)
    requires
        r.pass.beam_width + r.pass.pareto_extra > 0,
    ensures
        judged_rightly(g, o, r.trial(g, o, power, banned)),
        r.course(power, banned).asked(g, o).contains(r.trial(g, o, power, banned).ids),
{
    let c = r.course(power, banned);
    let n = c.pass.cap_points as nat;
    let beam = c.beam_after(g, o, n);
    lemma_beam_nonempty(c, g, o, n);
    assert(beam.contains(beam[0]));
    lemma_beam_is_scored(c, g, o, n, beam[0]);
}

proof fn lemma_diet_is_scored(r: Regime, g: Graph, o: Oracle, power: Map<i32, Double>, n: nat)
    requires
        r.pass.beam_width + r.pass.pareto_extra > 0,
    ensures
        judged_rightly(g, o, r.diet_after(g, o, power, n).best),
        r.diet_asked_after(g, o, power, n).contains(r.diet_after(g, o, power, n).best.ids),
    decreases n,
{
    if n == 0 {
        lemma_trial_is_scored(r, g, o, power, Set::empty());
    } else {
        let d = r.diet_after(g, o, power, (n - 1) as nat);
        lemma_diet_is_scored(r, g, o, power, (n - 1) as nat);
        if r.hungry(d) {
            let marg = marginals(g, o, d.best);
            lemma_trial_is_scored(
                r,
                g,
                o,
                power,
                d.banned.union(d.dead_leaves(g, marg).to_set()),
            );
            lemma_trial_is_scored(
                r,
                g,
                o,
                power,
                d.banned.insert(weakest(d.suspects(marg)).id),
            );
        }
    }
}

proof fn lemma_restart_is_scored(
    p: BeamParams,
    g: Graph,
    o: Oracle,
    power: Map<i32, Double>,
    k: nat,
)
    ensures
        judged_rightly(g, o, p.best_after(g, o, power, k)),
        p.asked_after(g, o, power, k).contains(p.best_after(g, o, power, k).ids),
    decreases k,
{
    let r = p.regime(g, k);
    lemma_diet_is_scored(r, g, o, power, r.max_rounds as nat);
    if k > 0 {
        lemma_restart_is_scored(p, g, o, power, (k - 1) as nat);
    }
}

/// What the search finds was scored, and it carries the penalized score of what the
/// scorer said of it.
pub proof fn lemma_result_is_scored(p: BeamParams, g: Graph, o: Oracle)
    ensures
        judged_rightly(g, o, p.found(g, o)),
        p.asked(g, o).contains(p.found(g, o).ids),
{
    lemma_restart_is_scored(p, g, o, seed_power(g, o, p.detour), p.reruns());
}

/// Leaves that contribute nothing are shed for good, but what grows without them is
/// taken only where it is not worse by more than a hair.
pub proof fn lemma_reclaim_keeps_up(
    r: Regime,
    g: Graph,
    o: Oracle,
    power: Map<i32, Double>,
    d: Diet,
)
    requires
        d.dead_leaves(g, marginals(g, o, d.best)).len() > 0,
    ensures
        d.dead_leaves(g, marginals(g, o, d.best)).to_set().subset_of(
            r.round(g, o, power, d).banned,
        ),
        r.round(g, o, power, d).best == d.best || d.best.scored.score.difference(
            Double { bits: ONE_MILLIONTH_BITS },
        ).at_most(r.round(g, o, power, d).best.scored.score),
{
}

/// Where the jumps are capped, every keystone stays, and no notable that stays has
/// less power than one that does not.
pub proof fn lemma_cap_keeps_the_powerful(c: Course, g: Graph, targets: Seq<i32>, t: i32, u: i32)
    requires
        targets.contains(t),
        c.kept_jumps(g, targets).contains(u),
    ensures
        g.keystone(t) ==> c.kept_jumps(g, targets).contains(t),
        !c.kept_jumps(g, targets).contains(t) && !g.keystone(u) ==> c.worth(t).standing()
            <= c.worth(u).standing(),
{
    broadcast use vstd::seq_lib::group_filter_ensures;

    let is = |t: i32| g.keystone(t);
    let not = |t: i32| !g.keystone(t);
    let key = |t: i32| c.worth(t).standing();
    let kept = c.kept_jumps(g, targets);
    if c.pass.max_jump_cand > 0 && targets.len() > c.pass.max_jump_cand {
        let stones = targets.filter(is);
        let rest = targets.filter(not);
        let sorted = c.by_power(rest);
        let first = at_most_first(sorted, c.pass.max_jump_cand as nat);
        let i = choose|i: int| 0 <= i < targets.len() && targets[i] == t;
        lemma_sorted(rest, key);
        if g.keystone(t) {
            assert(is(targets[i]));
            assert(stones.contains(t));
            let j = choose|j: int| 0 <= j < stones.len() && stones[j] == t;
            assert(kept[j] == t);
        } else if !kept.contains(t) && !g.keystone(u) {
            assert(not(targets[i]));
            assert(rest.contains(t));
            assert(sorted.contains(t));
            let a = choose|a: int| 0 <= a < sorted.len() && sorted[a] == t;
            if a < first.len() {
                assert(kept[stones.len() + a] == t);
            }
            let b = choose|b: int| 0 <= b < kept.len() && kept[b] == u;
            if b < stones.len() {
                assert(is(targets.filter(is)[b]));
            }
            assert(sorted[b - stones.len()] == u);
        }
    }
}

/// Each restart starts from other anchors than the searches before it.
pub proof fn lemma_bands_are_apart(
    p: BeamParams,
    g: Graph,
    power: Map<i32, Double>,
    banned: Set<i32>,
    j: nat,
    k: nat,
    t: i32,
)
    requires
        p.wf(),
        g.ty@.contains_key(g.start),
        j < k,
        k * p.seed_anchors <= usize::MAX,
    ensures
        ({
            let c = p.regime(g, j).course(power, banned);
            let d = p.regime(g, k).course(power, banned);
            let r = routes(g, c.query(set![g.start]));
            !(c.chosen(g, r).contains(t) && d.chosen(g, r).contains(t))
        }),
{
    let c = p.regime(g, j).course(power, banned);
    let d = p.regime(g, k).course(power, banned);
    let q = c.query(set![g.start]);
    let r = routes(g, q);
    let n = p.seed_anchors as nat;
    assert(j * n + n <= k * n) by (nonlinear_arith)
        requires
            j + 1 <= k,
    ;
    lemma_routes_exist(g, q);
    let ok = |t: i32| c.anchorable(g, r, t);
    let found = c.anchors(g, r, r.order);
    assert(d.anchors(g, r, r.order) =~= found) by {
        let other = |t: i32| d.anchorable(g, r, t);
        assert(ok =~= other);
    }
    let sorted = c.by_power(found);
    assert(d.by_power(found) == sorted) by {
        let a = |t: i32| c.worth(t).standing();
        let b = |t: i32| d.worth(t).standing();
        assert(a =~= b);
    }
    lemma_order_distinct(g, q, r);
    lemma_filter_distinct(r.order, ok);
    lemma_sorted_distinct(found, |t: i32| c.worth(t).standing());
    if c.chosen(g, r).contains(t) && d.chosen(g, r).contains(t) {
        let a = choose|a: int| 0 <= a < c.chosen(g, r).len() && c.chosen(g, r)[a] == t;
        let b = choose|b: int| 0 <= b < d.chosen(g, r).len() && d.chosen(g, r)[b] == t;
        assert(sorted[c.pass.anchor_offset + a] == t);
        assert(sorted[d.pass.anchor_offset + b] == t);
    }
}

/// Whether every link of a node of the tree is listed at both of its ends.
pub open spec fn two_way(g: Graph) -> bool {
    forall|u: i32, v: i32| #[trigger] g.edge(u, v) && g.ty@.contains_key(u) ==> g.edge(v, u)
}

/// A leaf has no second allocated neighbour.
proof fn lemma_one_neighbour(g: Graph, ids: Seq<i32>, id: i32, a: i32, b: i32)
    requires
        leaf(g, ids.to_set(), id),
        g.edge(id, a),
        g.edge(id, b),
        ids.contains(a),
        ids.contains(b),
    ensures
        a == b,
{
    broadcast use vstd::seq_lib::group_filter_ensures;

    let held = |n: i32| ids.to_set().contains(n);
    let links = g.links_from(id);
    let near = links.filter(held);
    let i = choose|i: int| 0 <= i < links.len() && links[i] == a;
    let j = choose|j: int| 0 <= j < links.len() && links[j] == b;
    assert(held(links[i]) && held(links[j]));
    assert(near.contains(a) && near.contains(b));
    assert(near.len() <= 1);
}

/// A walk over an allocation leads to its end without a leaf, too.
proof fn lemma_walk_around(g: Graph, ids: Seq<i32>, id: i32, walk: Seq<i32>, v: i32)
    requires
        two_way(g),
        g.ty@.contains_key(g.start),
        leaf(g, ids.to_set(), id),
        leads(g, ids, walk, v),
        v != id,
    ensures
        exists|w: Seq<i32>| leads(g, without(ids, id), w, v),
    decreases walk.len(),
{
    let rest = without(ids, id);
    if !walk.contains(id) {
        assert(leads(g, rest, walk, v)) by {
            assert forall|k: int| 0 <= k < walk.len() implies rest.contains(#[trigger] walk[k]) by {
                assert(walk.contains(walk[k]));
                lemma_without(ids, id, walk[k]);
            }
        }
    } else {
        let i = choose|i: int| 0 <= i < walk.len() && walk[i] == id;
        assert(0 < i < walk.len() - 1);
        let a = walk[i - 1];
        let b = walk[i + 1];
        assert(g.edge(walk[i - 1], walk[i]));
        assert(g.edge(walk[i + 1 - 1], walk[i + 1]));
        assert(g.ty@.contains_key(a)) by {
            if i > 1 {
                assert(g.edge(walk[i - 1 - 1], walk[i - 1]));
            }
        }
        assert(g.edge(id, a));
        lemma_one_neighbour(g, ids, id, a, b);
        let short = walk.take(i) + walk.skip(i + 2);
        assert(leads(g, ids, short, v)) by {
            assert forall|k: int| 0 <= k < short.len() implies ids.contains(
                #[trigger] short[k],
            ) by {
                if k < i {
                    assert(short[k] == walk[k]);
                } else {
                    assert(short[k] == walk[k + 2]);
                }
            }
            assert forall|k: int| 0 < k < short.len() implies g.edge(
                short[k - 1],
                #[trigger] short[k],
            ) by {
                if k < i {
                    assert(short[k] == walk[k] && short[k - 1] == walk[k - 1]);
                } else {
                    assert(short[k] == walk[k + 2]);
                    assert(g.edge(walk[k + 2 - 1], walk[k + 2]));
                    if k > i {
                        assert(short[k - 1] == walk[k + 1]);
                    }
                }
            }
            if i + 2 == walk.len() {
                assert(short.last() == walk[i - 1]);
            } else {
                assert(short.last() == walk[walk.len() - 1]);
            }
        }
        lemma_walk_around(g, ids, id, short, v);
    }
}

/// Dropping a leaf strands nothing: what is left of an allocation without a leaf
/// still hangs together. The links must be listed at both ends.
pub proof fn lemma_leaf_strands_nothing(g: Graph, ids: Seq<i32>, id: i32)
    requires
        two_way(g),
        g.ty@.contains_key(g.start),
        connected(g, ids),
        leaf(g, ids.to_set(), id),
    ensures
        connected(g, without(ids, id)),
{
    let rest = without(ids, id);
    assert forall|v: i32| #[trigger] rest.contains(v) implies exists|w: Seq<i32>|
        leads(g, rest, w, v) by {
        lemma_without(ids, id, v);
        let walk = choose|walk: Seq<i32>| leads(g, ids, walk, v);
        lemma_walk_around(g, ids, id, walk, v);
    }
}

} // verus!
