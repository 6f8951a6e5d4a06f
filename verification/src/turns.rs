//! What comes first stays first: the order in which moves are tried, candidates are
//! listed and plans are scored, which settles what wins where the scores do not.

use crate::course::{known_plan, scored_plans, Course};
use crate::expand::lemma_kept_among;
use crate::graph::Graph;
use crate::lists::distinct;
use crate::paths::{lemma_path, routes};
use crate::plan::Plan;
use crate::reach::lemma_routes_exist;
use crate::scorer::Oracle;
use vstd::prelude::*;

verus! {

/// Sorting out keeps the order.
pub proof fn lemma_filter_keeps<T>(
    s: Seq<T>,
    before: spec_fn(T, T) -> bool,
    keep: spec_fn(T) -> bool,
)
    requires
        forall|i: int, j: int|
            0 <= i < j < s.len() ==> before(#[trigger] s[i], #[trigger] s[j]),
    ensures
        forall|i: int, j: int|
            0 <= i < j < s.filter(keep).len() ==> before(
                #[trigger] s.filter(keep)[i],
                #[trigger] s.filter(keep)[j],
            ),
    decreases s.len(),
{
    reveal(Seq::filter);
    if s.len() > 0 {
        let rest = s.drop_last();
        let x = s.last();
        assert forall|i: int, j: int| 0 <= i < j < rest.len() implies before(
            #[trigger] rest[i],
            #[trigger] rest[j],
        ) by {
            assert(before(s[i], s[j]));
        }
        lemma_filter_keeps(rest, before, keep);
        let kept = rest.filter(keep);
        let all = s.filter(keep);
        if keep(x) {
            assert(all == kept.push(x));
            assert forall|i: int, j: int| 0 <= i < j < all.len() implies before(
                #[trigger] all[i],
                #[trigger] all[j],
            ) by {
                if j == kept.len() {
                    assert(kept.contains(kept[i]));
                    rest.lemma_filter_contains_rev(keep, kept[i]);
                    let k = choose|k: int| 0 <= k < rest.len() && rest[k] == kept[i];
                    assert(s[k] == kept[i]);
                    assert(before(s[k], s[s.len() - 1]));
                } else {
                    assert(before(kept[i], kept[j]));
                }
            }
        }
    }
}

/// What is kept of the first items stands before what is kept of the others.
proof fn lemma_filter_in_turn<T>(s: Seq<T>, keep: spec_fn(T) -> bool, k: int)
    requires
        0 <= k <= s.len(),
    ensures
        s.take(k).filter(keep).is_prefix_of(s.filter(keep)),
{
    Seq::filter_distributes_over_add(s.take(k), s.skip(k), keep);
    assert(s.take(k) + s.skip(k) =~= s);
    assert(s.take(k).filter(keep).is_prefix_of(s.take(k).filter(keep) + s.skip(k).filter(keep)));
}

/// Lists one after the other are laid out one after the other.
proof fn lemma_flatten_both<T>(a: Seq<Seq<T>>, b: Seq<Seq<T>>)
    ensures
        (a + b).flatten() == a.flatten() + b.flatten(),
    decreases a.len(),
{
    if a.len() == 0 {
        assert(a + b =~= b);
        assert(a.flatten() + b.flatten() =~= b.flatten());
    } else {
        lemma_flatten_both(a.drop_first(), b);
        assert((a + b).drop_first() =~= a.drop_first() + b);
        assert((a + b).flatten() =~= a.first() + (a.drop_first() + b).flatten());
        assert(a.flatten() =~= a.first() + a.drop_first().flatten());
        assert((a + b).flatten() =~= a.flatten() + b.flatten());
    }
}

/// Of equal items the first is listed, in its place: what comes later moves nothing.
pub proof fn lemma_distinct_in_turn<T>(s: Seq<T>, k: int)
    requires
        0 <= k <= s.len(),
    ensures
        distinct(s.take(k)).is_prefix_of(distinct(s)),
    decreases s.len(),
{
    if k == s.len() {
        assert(s.take(k) =~= s);
    } else {
        lemma_distinct_in_turn(s.drop_last(), k);
        assert(s.drop_last().take(k) =~= s.take(k));
        let a = distinct(s.take(k));
        let b = distinct(s.drop_last());
        assert(a.is_prefix_of(b));
        assert(b.is_prefix_of(distinct(s)));
        assert(a =~= distinct(s).take(a.len() as int));
    }
}

/// The allocations of a beam propose in turn, best first, and what was proposed before
/// is not proposed again.
pub proof fn lemma_candidates_in_turn(c: Course, g: Graph, beam: Seq<Plan>, k: int)
    requires
        0 <= k <= beam.len(),
    ensures
        c.candidates(g, beam.take(k)).is_prefix_of(c.candidates(g, beam)),
{
    let f = |p: Plan| c.extensions(g, p.ids);
    let first = beam.take(k).map_values(f);
    let rest = beam.skip(k).map_values(f);
    assert(beam.map_values(f) =~= first + rest);
    lemma_flatten_both(first, rest);
    let all = c.proposals(g, beam);
    let some = c.proposals(g, beam.take(k));
    assert(all == some + rest.flatten());
    assert(all.take(some.len() as int) =~= some);
    lemma_distinct_in_turn(all, some.len() as int);
}

/// The neighbours of an allocation are tried in the order of its nodes, and those of one
/// node in the order of its links.
pub proof fn lemma_neighbours_in_turn(
    c: Course,
    g: Graph,
    ids: Seq<i32>,
    from: Seq<i32>,
    links: Seq<i32>,
    k: int,
)
    ensures
        0 <= k <= from.len() ==> c.singles(g, ids, from.take(k)).is_prefix_of(
            c.singles(g, ids, from),
        ),
        0 <= k <= links.len() ==> c.steps(g, ids, links.take(k)).is_prefix_of(
            c.steps(g, ids, links),
        ),
{
    if 0 <= k <= from.len() {
        let f = |id: i32| c.steps(g, ids, g.links_from(id));
        let first = from.take(k).map_values(f);
        let rest = from.skip(k).map_values(f);
        assert(from.map_values(f) =~= first + rest);
        lemma_flatten_both(first, rest);
        let some = c.singles(g, ids, from.take(k));
        assert(some.is_prefix_of(some + rest.flatten()));
    }
    if 0 <= k <= links.len() {
        let keep = |v: i32| !ids.contains(v) && c.targetable(g, v);
        lemma_filter_in_turn(links, keep, k);
        let a = links.take(k).filter(keep);
        let b = links.filter(keep);
        let some = c.steps(g, ids, links.take(k));
        let all = c.steps(g, ids, links);
        assert(some =~= all.take(some.len() as int)) by {
            assert forall|i: int| 0 <= i < some.len() implies some[i] == all[i] by {
                assert(a[i] == b[i]);
            }
        }
    }
}

/// A move that can be paid for comes before those that are tried after it.
pub proof fn lemma_additions_in_turn(
    c: Course,
    ids: Seq<i32>,
    additions: Seq<Seq<i32>>,
    k: int,
)
    requires
        0 <= k <= additions.len(),
    ensures
        c.reached_by(ids, additions.take(k)).is_prefix_of(c.reached_by(ids, additions)),
{
    let keep = |add: Seq<i32>| c.affordable(ids, add);
    lemma_filter_in_turn(additions, keep, k);
    let a = additions.take(k).filter(keep);
    let b = additions.filter(keep);
    let some = c.reached_by(ids, additions.take(k));
    let all = c.reached_by(ids, additions);
    assert(some =~= all.take(some.len() as int)) by {
        assert forall|i: int| 0 <= i < some.len() implies some[i] == all[i] by {
            assert(a[i] == b[i]);
        }
    }
}

/// Scored plans keep the order in which their node sets were proposed.
pub proof fn lemma_scores_in_turn(o: Oracle, sets: Seq<Seq<i32>>, k: int)
    requires
        0 <= k <= sets.len(),
    ensures
        scored_plans(o, sets.take(k)).is_prefix_of(scored_plans(o, sets)),
{
    let f = |ids: Seq<i32>| known_plan(o, ids);
    let keep = |p: Plan| p.scored.score.finite();
    let all = sets.map_values(f);
    assert(all.take(k) =~= sets.take(k).map_values(f));
    lemma_filter_in_turn(all, keep, k);
}

/// Every step to a neighbour has one node.
proof fn lemma_steps_are_short(c: Course, g: Graph, ids: Seq<i32>, from: Seq<i32>)
    ensures
        forall|i: int|
            0 <= i < c.singles(g, ids, from).len() ==> (#[trigger] c.singles(
                g,
                ids,
                from,
            )[i]).len() == 1,
    decreases from.len(),
{
    let f = |id: i32| c.steps(g, ids, g.links_from(id));
    let lists = from.map_values(f);
    if from.len() > 0 {
        let rest = from.drop_first();
        lemma_steps_are_short(c, g, ids, rest);
        assert(lists.drop_first() =~= rest.map_values(f));
        let first = c.steps(g, ids, g.links_from(from[0]));
        assert(lists.first() == first);
        assert(c.singles(g, ids, from) == first + c.singles(g, ids, rest));
    }
}

/// The neighbours of an allocation are tried before the jumps, and the jumps, where they
/// are not too many, from the nearest on, of two that are equally near the one with the
/// smaller id first.
pub proof fn lemma_moves_in_turn(c: Course, g: Graph, ids: Seq<i32>, i: int, j: int)
    requires
        c.pass.detour >= 1,
        g.ty@.contains_key(g.start),
        0 <= i < j < c.moves(g, ids).len(),
    ensures
        c.moves(g, ids)[j].len() == 1 ==> c.moves(g, ids)[i].len() == 1,
        c.moves(g, ids)[i].len() > 1 && c.pass.max_jump_cand == 0 ==> {
            let r = routes(g, c.query(ids.to_set()));
            let a = c.moves(g, ids)[i][0];
            let b = c.moves(g, ids)[j][0];
            r.weight[a] < r.weight[b] || (r.weight[a] == r.weight[b] && a < b)
        },
{
    broadcast use vstd::seq_lib::group_filter_ensures;

    let q = c.query(ids.to_set());
    let r = routes(g, q);
    lemma_routes_exist(g, q);
    lemma_steps_are_short(c, g, ids, ids);
    let singles = c.singles(g, ids, ids);
    let n: int = singles.len() as int;
    let fit = |t: i32| c.jumpable(g, ids, r, t);
    let found = c.jumps(g, ids, r, r.order);
    let kept = c.kept_jumps(g, found);
    let moves = c.moves(g, ids);
    if i < n {
        assert(moves[i] == singles[i]);
    } else {
        assert(moves[i] == r.path(kept[i - n]));
        assert(moves[j] == r.path(kept[j - n]));
        lemma_far(c, g, ids, i - n);
        lemma_far(c, g, ids, j - n);
        if c.pass.max_jump_cand == 0 {
            let before = |a: i32, b: i32|
                r.weight[a] < r.weight[b] || (r.weight[a] == r.weight[b] && a < b);
            lemma_filter_keeps(r.order, before, fit);
            assert(kept == r.order.filter(fit));
            assert(before(kept[i - n], kept[j - n]));
        }
    }
}

/// A jump has two nodes or more, and its target stands first.
proof fn lemma_far(c: Course, g: Graph, ids: Seq<i32>, k: int)
    requires
        c.pass.detour >= 1,
        g.ty@.contains_key(g.start),
        ({
            let r = routes(g, c.query(ids.to_set()));
            0 <= k < c.kept_jumps(g, c.jumps(g, ids, r, r.order)).len()
        }),
    ensures
        ({
            let r = routes(g, c.query(ids.to_set()));
            let t = c.kept_jumps(g, c.jumps(g, ids, r, r.order))[k];
            r.path(t).len() >= 2 && r.path(t)[0] == t
        }),
{
    let q = c.query(ids.to_set());
    let r = routes(g, q);
    lemma_routes_exist(g, q);
    let fit = |t: i32| c.jumpable(g, ids, r, t);
    let found = c.jumps(g, ids, r, r.order);
    let kept = c.kept_jumps(g, found);
    lemma_kept_among(c, g, found, kept, k);
    let t = kept[k];
    let at = choose|at: int| 0 <= at < found.len() && found[at] == t;
    r.order.lemma_filter_pred(fit, at);
    r.order.lemma_filter_contains_rev(fit, t);
    assert(r.order.to_set().contains(t));
    lemma_path(g, q, r, t);
}

} // verus!
