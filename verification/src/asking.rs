//! What a search asks its scorer, and in which order.

use crate::course::Course;
use crate::diet::{weakest, Diet, Regime};
use crate::double::Double;
use crate::fx::Scored;
use crate::graph::Graph;
use crate::margin::{left_out, marginals, notables, without};
use crate::params::BeamParams;
use crate::scorer::{answered, deep, Oracle};
use crate::seed::{seed_batch, seed_power};
use vstd::prelude::*;

verus! {

/// Whether a node set is in one of some batches.
spec fn asked_in(batches: Seq<Seq<Seq<i32>>>, ids: Seq<i32>) -> bool {
    exists|k: int| 0 <= k < batches.len() && (#[trigger] batches[k]).contains(ids)
}

/// Batches one after the other hold what either holds.
proof fn lemma_asked_in_both(a: Seq<Seq<Seq<i32>>>, b: Seq<Seq<Seq<i32>>>, ids: Seq<i32>)
    ensures
        asked_in(a + b, ids) <==> asked_in(a, ids) || asked_in(b, ids),
{
    let both = a + b;
    if asked_in(a, ids) {
        let k = choose|k: int| 0 <= k < a.len() && (#[trigger] a[k]).contains(ids);
        assert(both[k] == a[k]);
    }
    if asked_in(b, ids) {
        let k = choose|k: int| 0 <= k < b.len() && (#[trigger] b[k]).contains(ids);
        assert(both[k + a.len()] == b[k]);
    }
    if asked_in(both, ids) {
        let k = choose|k: int| 0 <= k < both.len() && (#[trigger] both[k]).contains(ids);
        if k < a.len() {
            assert(a[k] == both[k]);
        } else {
            assert(b[k - a.len()] == both[k]);
        }
    }
}

/// One batch holds what is in it.
proof fn lemma_asked_in_one(batch: Seq<Seq<i32>>, ids: Seq<i32>)
    ensures
        asked_in(seq![batch], ids) <==> batch.contains(ids),
{
    let one = seq![batch];
    assert(one[0] == batch);
}

/// A pass asks for the bare start, then for its anchors, then once for the candidates of
/// every step, and for nothing else.
pub proof fn lemma_pass_asks(c: Course, g: Graph, o: Oracle, n: nat, ids: Seq<i32>)
    ensures
        ({
            let batches = c.batches_after(g, o, n);
            &&& batches.len() == n + 2
            &&& batches[0] == seq![seq![g.start]]
            &&& batches[1] == c.anchored(g)
            &&& forall|i: int|
                0 <= i < n ==> #[trigger] batches[i + 2] == c.candidates(
                    g,
                    c.beam_after(g, o, i as nat),
                )
            &&& c.asked_after(g, o, n).contains(ids) <==> exists|k: int|
                0 <= k < batches.len() && (#[trigger] batches[k]).contains(ids)
        }),
    decreases n,
{
    let batches = c.batches_after(g, o, n);
    if n == 0 {
        let start = seq![seq![g.start]];
        lemma_asked_in_one(start, ids);
        lemma_asked_in_one(c.anchored(g), ids);
        lemma_asked_in_both(seq![start], seq![c.anchored(g)], ids);
        assert(batches =~= seq![start] + seq![c.anchored(g)]);
        assert(start[0] == seq![g.start]);
        assert(start.contains(ids) <==> ids == seq![g.start]);
    } else {
        let before = (n - 1) as nat;
        lemma_pass_asks(c, g, o, before, ids);
        let last = c.candidates(g, c.beam_after(g, o, before));
        lemma_asked_in_one(last, ids);
        lemma_asked_in_both(c.batches_after(g, o, before), seq![last], ids);
        assert(batches =~= c.batches_after(g, o, before) + seq![last]);
        assert forall|i: int| 0 <= i < n implies #[trigger] batches[i + 2] == c.candidates(
            g,
            c.beam_after(g, o, i as nat),
        ) by {
            if i < before {
                assert(batches[i + 2] == c.batches_after(g, o, before)[i + 2]);
            }
        }
    }
    assert(asked_in(batches, ids) <==> c.asked_after(g, o, n).contains(ids));
}

/// A round asks first for the allocation without each of its notables and keystones, and
/// then for what its pass asks for.
pub proof fn lemma_round_asks(
    r: Regime,
    g: Graph,
    o: Oracle,
    power: Map<i32, Double>,
    d: Diet,
    ids: Seq<i32>,
)
    ensures
        ({
            let batches = r.round_batches(g, o, power, d);
            &&& batches.len() >= 1
            &&& batches[0].contains(ids) <==> exists|id: i32|
                #[trigger] d.best.ids.contains(id) && g.notable(id) && ids == without(
                    d.best.ids,
                    id,
                )
            &&& r.round_asked(g, o, power, d).contains(ids) <==> exists|k: int|
                0 <= k < batches.len() && (#[trigger] batches[k]).contains(ids)
        }),
{
    let batches = r.round_batches(g, o, power, d);
    let first = left_out(d.best.ids, notables(g, d.best.ids));
    lemma_left_out(g, d.best.ids, ids);
    lemma_asked_in_one(first, ids);
    let marg = marginals(g, o, d.best);
    let leaves = d.dead_leaves(g, marg);
    let suspects = d.suspects(marg);
    let n = r.pass.cap_points as nat;
    if leaves.len() > 0 {
        let c = r.course(power, d.banned.union(leaves.to_set()));
        lemma_pass_asks(c, g, o, n, ids);
        lemma_asked_in_both(seq![first], c.batches(g, o), ids);
    } else if suspects.len() > 0 {
        let c = r.course(power, d.banned.insert(weakest(suspects).id));
        lemma_pass_asks(c, g, o, n, ids);
        lemma_asked_in_both(seq![first], c.batches(g, o), ids);
    }
    assert(asked_in(batches, ids) <==> r.round_asked(g, o, power, d).contains(ids));
}

/// What is left of an allocation without each of its notables and keystones.
proof fn lemma_left_out(g: Graph, from: Seq<i32>, ids: Seq<i32>)
    ensures
        left_out(from, notables(g, from)).contains(ids) <==> exists|id: i32|
            #[trigger] from.contains(id) && g.notable(id) && ids == without(from, id),
{
    let fit = |id: i32| g.notable(id);
    let nodes = notables(g, from);
    assert(nodes == from.filter(fit));
    let all = left_out(from, nodes);
    if all.contains(ids) {
        let i = choose|i: int| 0 <= i < all.len() && all[i] == ids;
        let id = nodes[i];
        assert(nodes.contains(id));
        from.lemma_filter_contains_rev(fit, id);
        from.lemma_filter_pred(fit, i);
        assert(from.contains(id) && g.notable(id));
        assert(all[i] == without(from, id));
    }
    if exists|id: i32|
        #[trigger] from.contains(id) && g.notable(id) && ids == without(from, id) {
        let id = choose|id: i32|
            #[trigger] from.contains(id) && g.notable(id) && ids == without(from, id);
        let at = choose|at: int| 0 <= at < from.len() && from[at] == id;
        from.lemma_filter_contains(fit, at);
        assert(nodes.contains(id));
        let i = choose|i: int| 0 <= i < nodes.len() && nodes[i] == id;
        assert(all[i] == without(from, id));
        assert(all[i] == ids);
    }
}

/// A diet asks for what its first pass asks for, and then for what its rounds do.
proof fn lemma_diet_asks(
    r: Regime,
    g: Graph,
    o: Oracle,
    power: Map<i32, Double>,
    n: nat,
    ids: Seq<i32>,
)
    ensures
        asked_in(r.diet_batches_after(g, o, power, n), ids) <==> r.diet_asked_after(
            g,
            o,
            power,
            n,
        ).contains(ids),
    decreases n,
{
    if n == 0 {
        lemma_pass_asks(
            r.course(power, Set::empty()),
            g,
            o,
            r.pass.cap_points as nat,
            ids,
        );
    } else {
        let before = (n - 1) as nat;
        let d = r.diet_after(g, o, power, before);
        lemma_diet_asks(r, g, o, power, before, ids);
        lemma_round_asks(r, g, o, power, d, ids);
        lemma_asked_in_both(
            r.diet_batches_after(g, o, power, before),
            r.round_batches(g, o, power, d),
            ids,
        );
    }
}

/// The restarts ask one after the other.
proof fn lemma_restarts_ask(
    p: BeamParams,
    g: Graph,
    o: Oracle,
    power: Map<i32, Double>,
    k: nat,
    ids: Seq<i32>,
)
    ensures
        asked_in(p.batches_after(g, o, power, k), ids) <==> p.asked_after(
            g,
            o,
            power,
            k,
        ).contains(ids),
    decreases k,
{
    let now = p.regime(g, k);
    lemma_diet_asks(now, g, o, power, now.max_rounds as nat, ids);
    if k > 0 {
        let before = (k - 1) as nat;
        lemma_restarts_ask(p, g, o, power, before, ids);
        lemma_asked_in_both(
            p.batches_after(g, o, power, before),
            now.batches(g, o, power),
            ids,
        );
    }
}

/// A search asks for the bare start, then for all single walks that its measure of power
/// needs at once, and what it asks for in all is what its batches hold.
pub proof fn lemma_search_asks(p: BeamParams, g: Graph, o: Oracle, ids: Seq<i32>)
    ensures
        ({
            let batches = p.batches(g, o);
            &&& batches.len() >= 2
            &&& batches[0] == seq![seq![g.start]]
            &&& batches[1] == seed_batch(g, p.detour)
            &&& p.asked(g, o).contains(ids) <==> exists|k: int|
                0 <= k < batches.len() && (#[trigger] batches[k]).contains(ids)
        }),
{
    let batches = p.batches(g, o);
    let power = seed_power(g, o, p.detour);
    let start = seq![seq![g.start]];
    let seeds = seed_batch(g, p.detour);
    let rest = p.batches_after(g, o, power, p.reruns());
    lemma_restarts_ask(p, g, o, power, p.reruns(), ids);
    lemma_asked_in_one(start, ids);
    lemma_asked_in_one(seeds, ids);
    lemma_asked_in_both(seq![start], seq![seeds], ids);
    assert(seq![start] + seq![seeds] =~= seq![start, seeds]);
    lemma_asked_in_both(seq![start, seeds], rest, ids);
    assert(start[0] == seq![g.start]);
    assert(start.contains(ids) <==> ids == seq![g.start]);
    assert(asked_in(batches, ids) <==> p.asked(g, o).contains(ids));
}

/// Nothing is lost of a list whose items are all kept, and nothing is kept of one whose
/// items are all dropped.
proof fn lemma_all_or_none<T>(s: Seq<T>, keep: spec_fn(T) -> bool)
    ensures
        (forall|i: int| 0 <= i < s.len() ==> keep(#[trigger] s[i])) ==> s.filter(keep) == s,
        (forall|i: int| 0 <= i < s.len() ==> !keep(#[trigger] s[i])) ==> s.filter(keep).len() == 0,
    decreases s.len(),
{
    reveal(Seq::filter);
    if s.len() > 0 {
        let rest = s.drop_last();
        lemma_all_or_none(rest, keep);
        assert(forall|i: int| 0 <= i < rest.len() ==> #[trigger] rest[i] == s[i]);
        assert(s[s.len() - 1] == s.last());
        if keep(s.last()) {
            assert(rest.push(s.last()) =~= s);
        }
    } else {
        assert(s.filter(keep) =~= s);
    }
}

/// Node sets of which none is known are asked for in one batch, in their order, and each
/// is known by the reply in its place from there on; node sets that are all known are
/// not asked for.
pub proof fn lemma_new_sets_are_asked_for<F: FnMut(&[Vec<i32>]) -> Vec<Scored>>(
    f: F,
    g: Graph,
    before: Map<Seq<i32>, Scored>,
    after: Map<Seq<i32>, Scored>,
    sets: Seq<Seq<i32>>,
)
    requires
        answered(f, g, before, after, sets),
    ensures
        sets.len() > 0 && (forall|i: int|
            0 <= i < sets.len() ==> !before.contains_key(#[trigger] sets[i])) ==> exists|
            batch: &[Vec<i32>],
            reply: Vec<Scored>,
        |
            {
                &&& #[trigger] call_ensures(f, (batch,), reply)
                &&& batch@.len() == sets.len()
                &&& forall|i: int|
                    0 <= i < sets.len() ==> (#[trigger] batch@[i])@ == sets[i] && after[sets[i]]
                        == g.settled(reply@[i])
            },
        (forall|i: int| 0 <= i < sets.len() ==> before.contains_key(#[trigger] sets[i])) ==> after
            == before,
{
    let keep = |ids: Seq<i32>| !before.contains_key(ids);
    lemma_all_or_none(sets, keep);
    let fresh = sets.filter(keep);
    if sets.len() > 0 && (forall|i: int|
        0 <= i < sets.len() ==> !before.contains_key(#[trigger] sets[i])) {
        assert(fresh == sets);
        let (batch, reply) = choose|batch: &[Vec<i32>], reply: Vec<Scored>|
            {
                &&& #[trigger] call_ensures(f, (batch,), reply)
                &&& deep(batch@) == fresh
                &&& forall|i: int|
                    0 <= i < fresh.len() ==> after[#[trigger] fresh[i]] == g.settled(reply@[i])
            };
        assert forall|i: int| 0 <= i < sets.len() implies (#[trigger] batch@[i])@ == sets[i]
            && after[sets[i]] == g.settled(reply@[i]) by {
            assert(deep(batch@)[i] == batch@[i]@);
            assert(after[fresh[i]] == g.settled(reply@[i]));
        }
    }
}

} // verus!
