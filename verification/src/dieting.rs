//! What a diet and the restarts are for: which node is banned, when a ban stays, and
//! which of the converged allocations wins.

use crate::course::Course;
use crate::diet::{weaker, weakest, Diet, Regime};
use crate::double::{
    lemma_difference_falls, lemma_difference_itself, lemma_offset_climbs, lemma_sum_climbs,
    lemma_sum_no_less, Double, INFINITY_BITS, ONE_MILLIONTH_BITS, ONE_PERCENT_BITS, ZERO_BITS,
};
use crate::graph::Graph;
use crate::laws::{lemma_restarts_climb, lemma_result_is_scored, lemma_weakest_among};
use crate::margin::{
    collapses, leaf, lemma_without, marginal_of, marginals, notables, without, Marginal,
};
use crate::order::{ascending, lemma_ascending_unique};
use crate::params::BeamParams;
use crate::plan::Plan;
use crate::scorer::Oracle;
use crate::seed::seed_power;
use crate::turns::lemma_filter_keeps;
use vstd::prelude::*;

verus! {

/// Leaving a node out keeps the order of the others.
proof fn lemma_without_ascending(ids: Seq<i32>, id: i32)
    requires
        ascending(ids),
    ensures
        ascending(without(ids, id)),
    decreases ids.len(),
{
    reveal(Seq::filter);
    if ids.len() > 0 {
        let rest = ids.drop_last();
        let x = ids.last();
        assert(ascending(rest));
        lemma_without_ascending(rest, id);
        let kept = without(rest, id);
        if x != id {
            let more = kept.push(x);
            assert(without(ids, id) == more);
            assert forall|i: int, j: int| 0 <= i < j < more.len() implies #[trigger] more[i]
                < #[trigger] more[j] by {
                if j == kept.len() {
                    assert(kept.contains(kept[i]));
                    lemma_without(rest, id, kept[i]);
                    let k = choose|k: int| 0 <= k < rest.len() && rest[k] == kept[i];
                    assert(ids[k] < ids[ids.len() - 1]);
                }
            }
        }
    }
}

/// What is left without a node is told by its members.
proof fn lemma_rest(ids: Seq<i32>, id: i32, rest: Seq<i32>)
    requires
        ascending(ids),
        ascending(rest),
        rest.to_set() == ids.to_set().remove(id),
    ensures
        without(ids, id) == rest,
{
    lemma_without_ascending(ids, id);
    let w = without(ids, id);
    assert(w.to_set() =~= rest.to_set()) by {
        assert forall|x: i32| w.to_set().contains(x) <==> rest.to_set().contains(x) by {
            lemma_without(ids, id, x);
            assert(ids.to_set().contains(x) <==> ids.contains(x));
        }
    }
    lemma_ascending_unique(w, rest);
}

/// What a node contributes: the score of the allocation less the penalized score of the
/// rest, or more than any number where the rest has no finite score. It is an enabler
/// where the rest has no finite score, or less than a hundredth of an axis.
#[verifier::spinoff_prover]
pub proof fn lemma_contribution(g: Graph, o: Oracle, best: Plan, id: i32, rest: Seq<i32>)
    requires
        ascending(best.ids),
        ascending(rest),
        rest.to_set() == best.ids.to_set().remove(id),
    ensures
        ({
            let m = marginal_of(g, o, best, id);
            let left = o(rest);
            let score = g.penalized(left.score, left.dps, left.ehp);
            let zero = Double { bits: ZERO_BITS };
            let percent = Double { bits: ONE_PERCENT_BITS };
            &&& m.id == id
            &&& score.finite() ==> m.marginal == best.scored.score.difference(score)
            &&& !score.finite() ==> m.marginal.infinite() && !m.marginal.negative()
            &&& m.is_enabler <==> {
                ||| !score.finite()
                ||| zero.below(best.scored.dps) && left.dps.below(
                    percent.product(best.scored.dps),
                )
                ||| zero.below(best.scored.ehp) && left.ehp.below(
                    percent.product(best.scored.ehp),
                )
            }
        }),
{
    lemma_rest(best.ids, id, rest);
    let left = o(rest);
    let score = g.judged(left);
    let m = marginal_of(g, o, best, id);
    let a = collapses(best.scored.dps, left.dps);
    let b = collapses(best.scored.ehp, left.ehp);
    lemma_collapse(best.scored.dps, left.dps);
    lemma_collapse(best.scored.ehp, left.ehp);
    assert(m.id == id);
    assert(m.is_enabler == (!score.finite() || a || b));
    if score.finite() {
        assert(m.marginal == best.scored.score.difference(score));
    } else {
        assert(m.marginal == (Double { bits: INFINITY_BITS }));
        crate::double::lemma_constants();
    }
}

/// An axis collapses where it was positive and falls below a hundredth.
proof fn lemma_collapse(was: Double, now: Double)
    ensures
        collapses(was, now) <==> (Double { bits: ZERO_BITS }).below(was) && now.below(
            (Double { bits: ONE_PERCENT_BITS }).product(was),
        ),
{
}

/// What a node contributes to what has a finite score without it.
#[verifier::spinoff_prover]
proof fn lemma_finite_contribution(g: Graph, o: Oracle, best: Plan, id: i32, rest: Seq<i32>)
    requires
        ascending(best.ids),
        ascending(rest),
        rest.to_set() == best.ids.to_set().remove(id),
        g.judged(o(rest)).finite(),
    ensures
        marginal_of(g, o, best, id).marginal == best.scored.score.difference(g.judged(o(rest))),
{
    lemma_rest(best.ids, id, rest);
}

/// A node whose loss leaves more contributes less, and one whose loss changes nothing
/// contributes nothing.
#[verifier::spinoff_prover]
#[verifier::rlimit(60)]
pub proof fn lemma_missed_less_contributes_less(
    g: Graph,
    o: Oracle,
    best: Plan,
    a: i32,
    b: i32,
    rest_a: Seq<i32>,
    rest_b: Seq<i32>,
)
    requires
        ascending(best.ids),
        ascending(rest_a),
        ascending(rest_b),
        rest_a.to_set() == best.ids.to_set().remove(a),
        rest_b.to_set() == best.ids.to_set().remove(b),
        best.scored.score.finite(),
        g.judged(o(rest_a)).finite(),
        g.judged(o(rest_b)).finite(),
        g.judged(o(rest_a)).at_most(g.judged(o(rest_b))),
    ensures
        marginal_of(g, o, best, b).marginal.at_most(marginal_of(g, o, best, a).marginal),
        g.judged(o(rest_a)) == best.scored.score ==> marginal_of(g, o, best, a).marginal.zero(),
{
    lemma_finite_contribution(g, o, best, a, rest_a);
    lemma_finite_contribution(g, o, best, b, rest_b);
    let x = g.judged(o(rest_a));
    let y = g.judged(o(rest_b));
    let s = best.scored.score;
    lemma_difference_falls(s, x, y);
    lemma_difference_itself(s);
}

/// The nodes that are measured: each notable and keystone of the allocation.
pub proof fn lemma_measured(g: Graph, o: Oracle, best: Plan, m: Marginal)
    ensures
        marginals(g, o, best).contains(m) <==> best.ids.contains(m.id) && g.notable(m.id) && m
            == marginal_of(g, o, best, m.id),
{
    broadcast use vstd::seq_lib::group_filter_ensures;

    let fit = |id: i32| g.notable(id);
    let nodes = notables(g, best.ids);
    let all = marginals(g, o, best);
    if all.contains(m) {
        let i = choose|i: int| 0 <= i < all.len() && all[i] == m;
        assert(all[i] == marginal_of(g, o, best, nodes[i]));
        assert(fit(best.ids.filter(fit)[i]));
        assert(nodes.contains(nodes[i]));
        best.ids.lemma_filter_contains_rev(fit, nodes[i]);
    }
    if best.ids.contains(m.id) && g.notable(m.id) && m == marginal_of(g, o, best, m.id) {
        let k = choose|k: int| 0 <= k < best.ids.len() && best.ids[k] == m.id;
        assert(fit(best.ids[k]));
        assert(nodes.contains(m.id));
        let i = choose|i: int| 0 <= i < nodes.len() && nodes[i] == m.id;
        assert(all[i] == m);
    }
}

/// Nothing among some nodes contributes less than the weakest.
proof fn lemma_weakest_least(all: Seq<Marginal>, k: int)
    requires
        0 <= k < all.len(),
    ensures
        weakest(all).marginal.standing() <= all[k].marginal.standing(),
    decreases all.len(),
{
    let f = |a: Marginal, b: Marginal| weaker(a, b);
    let rest = all.drop_last();
    if rest.len() == 0 {
        assert(rest.fold_left(all[0], f) == all[0]);
        assert(weakest(all) == weaker(all[0], all.last()));
    } else {
        assert(rest[0] == all[0]);
        assert(weakest(all) == weaker(weakest(rest), all.last()));
        if k < rest.len() {
            lemma_weakest_least(rest, k);
            assert(rest[k] == all[k]);
        }
    }
}

/// Which nodes may be banned next.
proof fn lemma_suspects(g: Graph, o: Oracle, d: Diet, m: Marginal)
    ensures
        d.suspects(marginals(g, o, d.best)).contains(m) <==> {
            &&& d.best.ids.contains(m.id)
            &&& g.notable(m.id)
            &&& m == marginal_of(g, o, d.best, m.id)
            &&& !m.is_enabler
            &&& !d.banned.contains(m.id)
            &&& !d.tried.contains(m.id)
        },
{
    broadcast use vstd::seq_lib::group_filter_ensures;

    let drop = |x: Marginal| d.droppable(x);
    let marg = marginals(g, o, d.best);
    let suspects = d.suspects(marg);
    lemma_measured(g, o, d.best, m);
    if suspects.contains(m) {
        marg.lemma_filter_contains_rev(drop, m);
        let i = choose|i: int| 0 <= i < suspects.len() && suspects[i] == m;
        assert(drop(marg.filter(drop)[i]));
    }
    if marg.contains(m) && d.droppable(m) {
        let i = choose|i: int| 0 <= i < marg.len() && marg[i] == m;
        assert(drop(marg[i]));
    }
}

/// Which leaves are shed.
proof fn lemma_shed(g: Graph, o: Oracle, d: Diet, id: i32)
    ensures
        d.dead_leaves(g, marginals(g, o, d.best)).contains(id) <==> {
            let m = marginal_of(g, o, d.best, id);
            &&& d.best.ids.contains(id)
            &&& g.notable(id)
            &&& !m.is_enabler
            &&& !d.banned.contains(id)
            &&& !d.tried.contains(id)
            &&& m.marginal.at_most(Double { bits: ONE_MILLIONTH_BITS })
            &&& leaf(g, d.best.ids.to_set(), id)
        },
{
    broadcast use vstd::seq_lib::group_filter_ensures;

    let dead = |x: Marginal| d.dead(g, x);
    let marg = marginals(g, o, d.best);
    let kept = marg.filter(dead);
    let leaves = d.dead_leaves(g, marg);
    let m = marginal_of(g, o, d.best, id);
    if leaves.contains(id) {
        let i = choose|i: int| 0 <= i < leaves.len() && leaves[i] == id;
        let x = kept[i];
        assert(dead(marg.filter(dead)[i]));
        assert(kept.contains(x));
        marg.lemma_filter_contains_rev(dead, x);
        lemma_measured(g, o, d.best, x);
        assert(x == m);
    }
    lemma_measured(g, o, d.best, m);
    if d.best.ids.contains(id) && g.notable(id) && d.dead(g, m) {
        let i = choose|i: int| 0 <= i < marg.len() && marg[i] == m;
        assert(dead(marg[i]));
        assert(kept.contains(m));
        let k = choose|k: int| 0 <= k < kept.len() && kept[k] == m;
        assert(leaves[k] == id);
    }
}

/// A round of the diet without wasted leaves bans one node: a notable or keystone of the
/// allocation that is no enabler, neither banned nor tried before, and of these one that
/// contributes least. Where what grows without it is better by more than a hair it is
/// taken and the ban stays, and every node may be tried again; otherwise the ban is
/// lifted, the node counts as tried, and patience shrinks.
pub proof fn lemma_least_contributor_is_banned(
    r: Regime,
    g: Graph,
    o: Oracle,
    power: Map<i32, Double>,
    d: Diet,
    open: i32,
) -> (v: i32)
    requires
        forall|id: i32| #[trigger]
            d.best.ids.contains(id) && g.notable(id) && !marginal_of(g, o, d.best, id).is_enabler
                && !d.banned.contains(id) && !d.tried.contains(id) ==> !(marginal_of(
                g,
                o,
                d.best,
                id,
            ).marginal.at_most(Double { bits: ONE_MILLIONTH_BITS }) && leaf(
                g,
                d.best.ids.to_set(),
                id,
            )),
        d.best.ids.contains(open),
        g.notable(open),
        !marginal_of(g, o, d.best, open).is_enabler,
        !d.banned.contains(open),
        !d.tried.contains(open),
    ensures
        d.best.ids.contains(v),
        g.notable(v),
        !marginal_of(g, o, d.best, v).is_enabler,
        !d.banned.contains(v),
        !d.tried.contains(v),
        forall|id: i32| #[trigger]
            d.best.ids.contains(id) && g.notable(id) && !marginal_of(g, o, d.best, id).is_enabler
                && !d.banned.contains(id) && !d.tried.contains(id) ==> marginal_of(
                g,
                o,
                d.best,
                v,
            ).marginal.standing() <= marginal_of(g, o, d.best, id).marginal.standing(),
        ({
            let next = r.round(g, o, power, d);
            let grown = r.trial(g, o, power, d.banned.insert(v));
            let better = d.best.scored.score.sum(Double { bits: ONE_MILLIONTH_BITS }).below(
                grown.scored.score,
            );
            &&& next.done == d.done
            &&& better ==> next.best == grown && next.banned == d.banned.insert(v)
                && next.tried.is_empty() && next.patience == 0
            &&& !better ==> next.best == d.best && next.banned == d.banned && next.tried
                == d.tried.insert(v) && next.patience == d.patience + 1
        }),
{
    let marg = marginals(g, o, d.best);
    let suspects = d.suspects(marg);
    let leaves = d.dead_leaves(g, marg);
    if leaves.len() > 0 {
        assert(leaves.contains(leaves[0]));
        lemma_shed(g, o, d, leaves[0]);
    }
    let m = marginal_of(g, o, d.best, open);
    lemma_suspects(g, o, d, m);
    assert(suspects.contains(m));
    let w = weakest(suspects);
    lemma_weakest_among(suspects);
    lemma_suspects(g, o, d, w);
    assert forall|id: i32| #[trigger]
        d.best.ids.contains(id) && g.notable(id) && !marginal_of(g, o, d.best, id).is_enabler
            && !d.banned.contains(id) && !d.tried.contains(id) implies marginal_of(
        g,
        o,
        d.best,
        w.id,
    ).marginal.standing() <= marginal_of(g, o, d.best, id).marginal.standing() by {
        let x = marginal_of(g, o, d.best, id);
        lemma_suspects(g, o, d, x);
        let k = choose|k: int| 0 <= k < suspects.len() && suspects[k] == x;
        lemma_weakest_least(suspects, k);
    }
    w.id
}

/// A round with wasted leaves bans all of them, and nothing else, for good: the leaves
/// that could be banned and contribute no more than a hair. What grows without them is
/// taken unless it is worse by more than a hair. Patience is not touched.
pub proof fn lemma_wasted_leaves_are_shed(
    r: Regime,
    g: Graph,
    o: Oracle,
    power: Map<i32, Double>,
    d: Diet,
    wasted: Set<i32>,
)
    requires
        forall|id: i32| #[trigger]
            wasted.contains(id) <==> {
                let m = marginal_of(g, o, d.best, id);
                &&& d.best.ids.contains(id)
                &&& g.notable(id)
                &&& !m.is_enabler
                &&& !d.banned.contains(id)
                &&& !d.tried.contains(id)
                &&& m.marginal.at_most(Double { bits: ONE_MILLIONTH_BITS })
                &&& leaf(g, d.best.ids.to_set(), id)
            },
        exists|id: i32| wasted.contains(id),
    ensures
        ({
            let next = r.round(g, o, power, d);
            let grown = r.trial(g, o, power, d.banned.union(wasted));
            let kept_up = d.best.scored.score.difference(
                Double { bits: ONE_MILLIONTH_BITS },
            ).at_most(grown.scored.score);
            &&& next.banned == d.banned.union(wasted)
            &&& next.patience == d.patience
            &&& next.done == d.done
            &&& kept_up ==> next.best == grown && next.tried.is_empty()
            &&& !kept_up ==> next.best == d.best && next.tried == d.tried
        }),
{
    let marg = marginals(g, o, d.best);
    let leaves = d.dead_leaves(g, marg);
    assert(leaves.to_set() =~= wasted) by {
        assert forall|id: i32| leaves.to_set().contains(id) <==> wasted.contains(id) by {
            lemma_shed(g, o, d, id);
            assert(leaves.to_set().contains(id) <==> leaves.contains(id));
        }
    }
    let id = choose|id: i32| wasted.contains(id);
    assert(leaves.to_set().contains(id));
    assert(leaves.contains(id));
}

/// Where nothing is left to ban, the diet is over and nothing else changes.
pub proof fn lemma_nothing_left_to_ban(
    r: Regime,
    g: Graph,
    o: Oracle,
    power: Map<i32, Double>,
    d: Diet,
)
    requires
        forall|id: i32| #[trigger]
            d.best.ids.contains(id) && g.notable(id) ==> marginal_of(g, o, d.best, id).is_enabler
                || d.banned.contains(id) || d.tried.contains(id),
    ensures
        r.round(g, o, power, d) == (Diet { done: true, ..d }),
{
    let marg = marginals(g, o, d.best);
    let leaves = d.dead_leaves(g, marg);
    let suspects = d.suspects(marg);
    if leaves.len() > 0 {
        assert(leaves.contains(leaves[0]));
        lemma_shed(g, o, d, leaves[0]);
    }
    if suspects.len() > 0 {
        assert(suspects.contains(suspects[0]));
        lemma_suspects(g, o, d, suspects[0]);
    }
}

/// What a trial is: the outcome of a pass with the nodes banned, by its penalized score.
pub proof fn lemma_trial(
    r: Regime,
    g: Graph,
    o: Oracle,
    power: Map<i32, Double>,
    banned: Set<i32>,
)
    ensures
        ({
            let grown = (Course { pass: r.pass, power, excluded: banned }).outcome(g, o);
            let t = r.trial(g, o, power, banned);
            &&& t.ids == grown.ids
            &&& t.scored.dps == grown.scored.dps
            &&& t.scored.ehp == grown.scored.ehp
            &&& t.scored.score == g.penalized(
                grown.scored.score,
                grown.scored.dps,
                grown.scored.ehp,
            )
        }),
{
}

/// How a diet goes on. It starts from a pass with nothing banned. A round is made as long
/// as there is something left to ban and patience is not used up, and no more rounds than
/// there may be. Each round leaves the allocation as it was or takes one that is not
/// worse by more than a hair.
pub proof fn lemma_diet_goes_on(
    r: Regime,
    g: Graph,
    o: Oracle,
    power: Map<i32, Double>,
    n: nat,
)
    ensures
        ({
            let first = r.diet_after(g, o, power, 0);
            &&& first.best == r.trial(g, o, power, Set::empty())
            &&& first.banned.is_empty()
            &&& first.tried.is_empty()
            &&& first.patience == 0
            &&& !first.done
        }),
        ({
            let d = r.diet_after(g, o, power, n);
            let next = r.diet_after(g, o, power, n + 1);
            &&& !d.done && d.patience < r.patience_max ==> next == r.round(g, o, power, d)
            &&& d.done || d.patience >= r.patience_max ==> next == d
            &&& next.best == d.best || d.best.scored.score.difference(
                Double { bits: ONE_MILLIONTH_BITS },
            ).at_most(next.best.scored.score)
        }),
        r.outcome(g, o, power) == r.diet_after(g, o, power, r.max_rounds as nat).best,
{
    let d = r.diet_after(g, o, power, n);
    let marg = marginals(g, o, d.best);
    let leaves = d.dead_leaves(g, marg);
    let suspects = d.suspects(marg);
    let hair = Double { bits: ONE_MILLIONTH_BITS };
    if r.hungry(d) && leaves.len() == 0 && suspects.len() > 0 {
        let t = r.trial(g, o, power, d.banned.insert(weakest(suspects).id));
        let s = d.best.scored.score;
        if s.sum(hair).below(t.scored.score) {
            lemma_hair_less(s, t.scored.score);
        }
    }
}

/// What beats a number with a hair more is no less than the number with a hair less.
proof fn lemma_hair_less(a: Double, b: Double)
    requires
        a.sum(Double { bits: ONE_MILLIONTH_BITS }).below(b),
    ensures
        a.difference(Double { bits: ONE_MILLIONTH_BITS }).at_most(b),
{
    let hair = Double { bits: ONE_MILLIONTH_BITS };
    assert(!a.nan());
    assert(hair.finite() && hair.rank() >= 0);
    assert(hair.negated().finite() && hair.negated().at_most(hair));
    crate::double::lemma_finite_sum_is_number(a, hair);
    crate::double::lemma_finite_sum_is_number(a, hair.negated());
    lemma_sum_climbs(a, a, hair.negated(), hair);
}

/// After a restart, its own result does not beat the best one by more than a hair.
proof fn lemma_band_is_met(
    p: BeamParams,
    g: Graph,
    o: Oracle,
    power: Map<i32, Double>,
    k: nat,
)
    requires
        p.regime(g, k).outcome(g, o, power).scored.score.finite(),
    ensures
        !p.best_after(g, o, power, k).scored.score.sum(
            Double { bits: ONE_MILLIONTH_BITS },
        ).below(p.regime(g, k).outcome(g, o, power).scored.score),
{
    let now = p.regime(g, k).outcome(g, o, power);
    let hair = Double { bits: ONE_MILLIONTH_BITS };
    assert(hair.finite() && hair.value() >= 0);
    lemma_sum_no_less(now.scored.score, hair);
}

/// The best after some restarts is the result of one of them.
proof fn lemma_best_is_a_band(
    p: BeamParams,
    g: Graph,
    o: Oracle,
    power: Map<i32, Double>,
    k: nat,
) -> (j: nat)
    ensures
        j <= k,
        p.best_after(g, o, power, k) == p.regime(g, j).outcome(g, o, power),
    decreases k,
{
    if k == 0 {
        0
    } else {
        let best = p.best_after(g, o, power, (k - 1) as nat);
        let now = p.regime(g, k).outcome(g, o, power);
        if best.scored.score.sum(Double { bits: ONE_MILLIONTH_BITS }).below(now.scored.score) {
            k
        } else {
            lemma_best_is_a_band(p, g, o, power, (k - 1) as nat)
        }
    }
}

/// The best converged allocation wins: no pass with its diet, of the first search or of
/// any restart, ends with a score that beats what is found by more than a hair, and what
/// is found is the end of one of them. There are as many restarts as asked for, and none
/// where there are no anchors. The scores are finite.
pub proof fn lemma_best_restart_wins(p: BeamParams, g: Graph, o: Oracle, k: nat) -> (j: nat)
    requires
        k <= (if p.seed_anchors > 0 {
            p.restarts as nat
        } else {
            0
        }),
        forall|i: nat|
            i <= p.restarts ==> (#[trigger] p.regime(g, i)).outcome(
                g,
                o,
                seed_power(g, o, p.detour),
            ).scored.score.finite(),
    ensures
        !p.found(g, o).scored.score.sum(Double { bits: ONE_MILLIONTH_BITS }).below(
            p.regime(g, k).outcome(g, o, seed_power(g, o, p.detour)).scored.score,
        ),
        j <= p.restarts,
        p.seed_anchors == 0 ==> j == 0,
        p.found(g, o) == p.regime(g, j).outcome(g, o, seed_power(g, o, p.detour)),
{
    let power = seed_power(g, o, p.detour);
    let hair = Double { bits: ONE_MILLIONTH_BITS };
    let last = p.reruns();
    let found = p.best_after(g, o, power, last);
    let then = p.best_after(g, o, power, k);
    assert(p.regime(g, k).outcome(g, o, power).scored.score.finite());
    lemma_band_is_met(p, g, o, power, k);
    lemma_restarts_climb(p, g, o, power, k, last);
    if then != found {
        assert(hair.finite());
        lemma_offset_climbs(then.scored.score, found.scored.score, hair);
    }
    lemma_best_is_a_band(p, g, o, power, last)
}

/// What the tunables of a search mean for its passes and diets: the points are those
/// asked for or else the budget of the build, the number of allocations kept for their
/// axes is the one asked for or else half the width and four at least, and restart
/// number `k` passes over as many anchors as the searches before it took.
pub proof fn lemma_tunables(p: BeamParams, g: Graph, k: nat)
    ensures
        ({
            let r = p.regime(g, k);
            &&& p.cap_points > 0 ==> r.pass.cap_points == p.cap_points
            &&& p.cap_points == 0 ==> r.pass.cap_points == g.budget
            &&& r.pass.beam_width == p.beam_width
            &&& r.pass.max_jump == p.max_jump
            &&& r.pass.max_jump_cand == p.max_jump_cand
            &&& r.pass.seed_anchors == p.seed_anchors
            &&& r.pass.detour == p.detour
            &&& p.pareto_extra > 0 ==> r.pass.pareto_extra == p.pareto_extra
            &&& p.pareto_extra == 0 && p.beam_width >= 8 ==> r.pass.pareto_extra == p.beam_width
                / 2
            &&& p.pareto_extra == 0 && p.beam_width < 8 ==> r.pass.pareto_extra == 4
            &&& k * p.seed_anchors <= usize::MAX ==> r.pass.anchor_offset == k * p.seed_anchors
            &&& r.patience_max == p.patience_max
            &&& r.max_rounds == p.max_rounds
        }),
{
}

/// What is found carries what is known of its nodes: both axes, and as its score the
/// penalized score.
pub proof fn lemma_found_is_judged(p: BeamParams, g: Graph, o: Oracle)
    ensures
        ({
            let f = p.found(g, o);
            let s = o(f.ids);
            &&& f.scored.dps == s.dps
            &&& f.scored.ehp == s.ehp
            &&& f.scored.score == g.penalized(s.score, s.dps, s.ehp)
        }),
{
    lemma_result_is_scored(p, g, o);
}

/// A leaf is a node, not the class start, whose links lead to an allocated node in exactly
/// one place.
pub proof fn lemma_leaf_has_one_neighbour(g: Graph, nodes: Set<i32>, id: i32)
    ensures
        leaf(g, nodes, id) <==> id != g.start && exists|i: int|
            0 <= i < g.links_from(id).len() && nodes.contains(#[trigger] g.links_from(id)[i])
                && forall|j: int|
                0 <= j < g.links_from(id).len() && nodes.contains(#[trigger] g.links_from(id)[j])
                    ==> j == i,
{
    let held = |n: i32| nodes.contains(n);
    let s = g.links_from(id);
    if s.filter(held).len() == 1 {
        let i = lemma_one_member_has_a_place(s, held);
        assert(nodes.contains(s[i]));
        assert forall|j: int| 0 <= j < s.len() && nodes.contains(#[trigger] s[j]) implies j
            == i by {
            assert(held(s[j]));
        }
    }
    assert forall|i: int|
        0 <= i < s.len() && nodes.contains(#[trigger] s[i]) && (forall|j: int|
            0 <= j < s.len() && nodes.contains(#[trigger] s[j]) ==> j == i) implies s.filter(
        held,
    ).len() == 1 by {
        lemma_sole_place_counts(s, held, i);
    }
}

proof fn lemma_no_place(s: Seq<i32>, held: spec_fn(i32) -> bool)
    ensures
        s.filter(held).len() == 0 <==> forall|j: int| 0 <= j < s.len() ==> !held(#[trigger] s[j]),
    decreases s.len(),
{
    reveal(Seq::filter);
    if s.len() > 0 {
        let rest = s.drop_last();
        lemma_no_place(rest, held);
        if s.filter(held).len() == 0 {
            assert forall|j: int| 0 <= j < s.len() implies !held(#[trigger] s[j]) by {
                if j < rest.len() {
                    assert(!held(rest[j]));
                }
            }
        }
        if forall|j: int| 0 <= j < s.len() ==> !held(#[trigger] s[j]) {
            assert forall|j: int| 0 <= j < rest.len() implies !held(#[trigger] rest[j]) by {
                assert(!held(s[j]));
            }
            assert(!held(s[s.len() - 1]));
        }
    }
}

/// Whether `i` is the one place that passes.
spec fn sole_place(s: Seq<i32>, held: spec_fn(i32) -> bool, i: int) -> bool {
    &&& 0 <= i < s.len()
    &&& held(s[i])
    &&& forall|j: int| 0 <= j < s.len() && held(#[trigger] s[j]) ==> j == i
}

/// One place that passes leaves one member.
proof fn lemma_sole_place_counts(s: Seq<i32>, held: spec_fn(i32) -> bool, i: int)
    requires
        sole_place(s, held, i),
    ensures
        s.filter(held).len() == 1,
    decreases s.len(),
{
    reveal(Seq::filter);
    let rest = s.drop_last();
    if i == s.len() - 1 {
        assert forall|j: int| 0 <= j < rest.len() implies !held(#[trigger] rest[j]) by {
            assert(rest[j] == s[j]);
        }
        lemma_no_place(rest, held);
    } else {
        assert(sole_place(rest, held, i)) by {
            assert(rest[i] == s[i]);
            assert forall|j: int| 0 <= j < rest.len() && held(#[trigger] rest[j]) implies j
                == i by {
                assert(rest[j] == s[j]);
            }
        }
        lemma_sole_place_counts(rest, held, i);
        if held(s[s.len() - 1]) {
            assert(s.len() - 1 == i);
        }
    }
}

/// One member comes from one place that passes.
proof fn lemma_one_member_has_a_place(s: Seq<i32>, held: spec_fn(i32) -> bool) -> (i: int)
    requires
        s.filter(held).len() == 1,
    ensures
        sole_place(s, held, i),
    decreases s.len(),
{
    reveal(Seq::filter);
    let rest = s.drop_last();
    if held(s.last()) {
        lemma_no_place(rest, held);
        assert forall|j: int| 0 <= j < s.len() && held(#[trigger] s[j]) implies j == s.len()
            - 1 by {
            if j < rest.len() {
                assert(!held(rest[j]));
            }
        }
        s.len() - 1
    } else {
        let i = lemma_one_member_has_a_place(rest, held);
        assert(rest[i] == s[i]);
        assert forall|j: int| 0 <= j < s.len() && held(#[trigger] s[j]) implies j == i by {
            if j < rest.len() {
                assert(held(rest[j]));
            }
        }
        i
    }
}

/// Where some nodes contribute the same and none contributes less, the first of them is
/// the weakest.
proof fn lemma_weakest_is_first(all: Seq<Marginal>) -> (i: int)
    requires
        all.len() > 0,
    ensures
        0 <= i < all.len(),
        all[i] == weakest(all),
        forall|k: int|
            0 <= k < i ==> all[i].marginal.standing() < (#[trigger] all[k]).marginal.standing(),
    decreases all.len(),
{
    let f = |a: Marginal, b: Marginal| weaker(a, b);
    let rest = all.drop_last();
    if rest.len() == 0 {
        assert(rest.fold_left(all[0], f) == all[0]);
        assert(weakest(all) == weaker(all[0], all.last()));
        0
    } else {
        assert(rest[0] == all[0]);
        assert(weakest(all) == weaker(weakest(rest), all.last()));
        let i = lemma_weakest_is_first(rest);
        if weakest(all) == weakest(rest) {
            assert forall|k: int| 0 <= k < i implies all[i].marginal.standing() < (
            #[trigger] all[k]).marginal.standing() by {
                assert(rest[k] == all[k]);
            }
            i
        } else {
            let last = all.len() - 1;
            assert forall|k: int| 0 <= k < last implies all[last].marginal.standing() < (
            #[trigger] all[k]).marginal.standing() by {
                lemma_weakest_least(rest, k);
                assert(rest[k] == all[k]);
            }
            last
        }
    }
}

/// Of the nodes that could be banned and contribute least, the one with the smallest id
/// is banned or tried: where a round touches neither leaves nor another node with that
/// contribution, what it bans or marks as tried is no larger.
pub proof fn lemma_ties_go_to_the_smallest_id(
    r: Regime,
    g: Graph,
    o: Oracle,
    power: Map<i32, Double>,
    d: Diet,
    v: i32,
    id: i32,
)
    requires
        ascending(d.best.ids),
        d.dead_leaves(g, marginals(g, o, d.best)).len() == 0,
        !d.banned.contains(v) && !d.tried.contains(v),
        r.round(g, o, power, d).banned.contains(v) || r.round(g, o, power, d).tried.contains(v),
        d.best.ids.contains(id),
        g.notable(id),
        !marginal_of(g, o, d.best, id).is_enabler,
        !d.banned.contains(id),
        !d.tried.contains(id),
        marginal_of(g, o, d.best, v).marginal == marginal_of(g, o, d.best, id).marginal,
    ensures
        v <= id,
{
    let marg = marginals(g, o, d.best);
    let drop = |m: Marginal| d.droppable(m);
    let suspects = d.suspects(marg);
    let m = marginal_of(g, o, d.best, id);
    lemma_suspects(g, o, d, m);
    let i = lemma_weakest_is_first(suspects);
    let w = suspects[i];
    lemma_suspects(g, o, d, w);
    assert(w.id == v);
    let k = choose|k: int| 0 <= k < suspects.len() && suspects[k] == m;
    if k < i {
        assert(w.marginal.standing() < suspects[k].marginal.standing());
    } else if i < k {
        let before = |a: i32, b: i32| a < b;
        let fit = |x: i32| g.notable(x);
        let nodes = notables(g, d.best.ids);
        lemma_filter_keeps(d.best.ids, before, fit);
        assert(nodes == d.best.ids.filter(fit));
        let ahead = |a: Marginal, b: Marginal| a.id < b.id;
        assert forall|x: int, y: int| 0 <= x < y < marg.len() implies ahead(
            #[trigger] marg[x],
            #[trigger] marg[y],
        ) by {
            assert(before(nodes[x], nodes[y]));
        }
        lemma_filter_keeps(marg, ahead, drop);
        assert(ahead(suspects[i], suspects[k]));
    }
}

/// A restart that is not better than the first search by more than a hair changes
/// nothing.
pub proof fn lemma_a_hair_changes_nothing(p: BeamParams, g: Graph, o: Oracle)
    requires
        forall|k: nat|
            1 <= k <= p.restarts ==> !p.regime(g, 0).outcome(
                g,
                o,
                seed_power(g, o, p.detour),
            ).scored.score.sum(Double { bits: ONE_MILLIONTH_BITS }).below(
                (#[trigger] p.regime(g, k)).outcome(
                    g,
                    o,
                    seed_power(g, o, p.detour),
                ).scored.score,
            ),
    ensures
        p.found(g, o) == p.regime(g, 0).outcome(g, o, seed_power(g, o, p.detour)),
{
    lemma_first_stays(p, g, o, p.reruns());
}

proof fn lemma_first_stays(p: BeamParams, g: Graph, o: Oracle, n: nat)
    requires
        n <= p.restarts,
        forall|k: nat|
            1 <= k <= p.restarts ==> !p.regime(g, 0).outcome(
                g,
                o,
                seed_power(g, o, p.detour),
            ).scored.score.sum(Double { bits: ONE_MILLIONTH_BITS }).below(
                (#[trigger] p.regime(g, k)).outcome(
                    g,
                    o,
                    seed_power(g, o, p.detour),
                ).scored.score,
            ),
    ensures
        p.best_after(g, o, seed_power(g, o, p.detour), n) == p.regime(g, 0).outcome(
            g,
            o,
            seed_power(g, o, p.detour),
        ),
    decreases n,
{
    if n > 0 {
        lemma_first_stays(p, g, o, (n - 1) as nat);
        assert(1 <= n <= p.restarts);
        let now = p.regime(g, n);
    }
}

} // verus!
