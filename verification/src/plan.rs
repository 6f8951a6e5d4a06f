//! Allocations with their scores, and the choice of those that the beam keeps.

use crate::double::Double;
use crate::fx::{id_set_clone, listed_sets, seen_contains, seen_insert, seen_new, Scored};
use crate::lists::lemma_contains_push;
use crate::order::ascending;
use crate::scorer::copy_ids;
use rustc_hash::FxHashSet;
use vstd::prelude::*;

verus! {

/// An allocation: its nodes, the class start among them, in ascending order, and
/// what is known of it.
#[verifier::ext_equal]
pub struct Plan {
    pub ids: Seq<i32>,
    pub scored: Scored,
}

/// A member of the beam: the allocated nodes as a list and as a set, with their
/// score.
pub struct State {
    pub ids: Vec<i32>,
    pub set: FxHashSet<i32>,
    pub score: Double,
    pub dps: Double,
    pub ehp: Double,
}

impl View for State {
    type V = Plan;

    open spec fn view(&self) -> Plan {
        Plan {
            ids: self.ids@,
            scored: Scored { score: self.score, dps: self.dps, ehp: self.ehp },
        }
    }
}

impl State {
    /// The list is ascending and holds the same nodes as the set.
    pub open spec fn wf(&self) -> bool {
        ascending(self.ids@) && self.set@ == self.ids@.to_set()
    }

    /// A state with a list of nodes, the same nodes as a set, and their score.
    pub fn new(ids: Vec<i32>, set: FxHashSet<i32>, scored: Scored) -> (s: State)
        requires
            ascending(ids@),
            set@ == ids@.to_set(),
        ensures
            s.wf(),
            s@ == (Plan { ids: ids@, scored }),
    {
        State { ids, set, score: scored.score, dps: scored.dps, ehp: scored.ehp }
    }

    /// A second state with the same content.
    pub fn copy(&self) -> (s: State)
        ensures
            s@ == self@,
            self.wf() ==> s.wf(),
    {
        State {
            ids: copy_ids(&self.ids),
            set: id_set_clone(&self.set),
            score: self.score,
            dps: self.dps,
            ehp: self.ehp,
        }
    }
}

/// The allocations of a list of states.
pub open spec fn plans(states: Seq<State>) -> Seq<Plan> {
    states.map_values(|s: State| s@)
}

/// Whether every state of a list is well formed.
pub open spec fn all_wf(states: Seq<State>) -> bool {
    forall|i: int| 0 <= i < states.len() ==> (#[trigger] states[i]).wf()
}

/// Whether a list holds an allocation of these nodes.
pub open spec fn listed(kept: Seq<Plan>, ids: Seq<i32>) -> bool {
    exists|i: int| 0 <= i < kept.len() && (#[trigger] kept[i]).ids == ids
}

/// Whether `k` is no worse than `p` on both axes and better on one.
pub open spec fn beats(k: Plan, p: Plan) -> bool {
    &&& p.scored.dps.at_most(k.scored.dps)
    &&& p.scored.ehp.at_most(k.scored.ehp)
    &&& (p.scored.dps.below(k.scored.dps) || p.scored.ehp.below(k.scored.ehp))
}

pub open spec fn dominated(kept: Seq<Plan>, p: Plan) -> bool {
    exists|i: int| 0 <= i < kept.len() && beats(#[trigger] kept[i], p)
}

/// Keeps `p` where there is room and its nodes are not kept yet.
pub open spec fn keep_new(kept: Seq<Plan>, p: Plan, room: nat) -> Seq<Plan> {
    if kept.len() >= room || listed(kept, p.ids) {
        kept
    } else {
        kept.push(p)
    }
}

/// Keeps `p` where there is room, its nodes are not kept yet, and nothing kept
/// beats it.
pub open spec fn keep_front(kept: Seq<Plan>, p: Plan, room: nat) -> Seq<Plan> {
    if kept.len() >= room || listed(kept, p.ids) || dominated(kept, p) {
        kept
    } else {
        kept.push(p)
    }
}

/// The first `width` allocations that differ.
pub open spec fn top(sorted: Seq<Plan>, width: nat) -> Seq<Plan> {
    sorted.fold_left(Seq::empty(), |kept: Seq<Plan>, p: Plan| keep_new(kept, p, width))
}

/// The first `width` allocations that differ, then up to `extra` more that
/// nothing kept beats on both axes.
pub open spec fn selected(sorted: Seq<Plan>, width: nat, extra: nat) -> Seq<Plan> {
    let first = top(sorted, width);
    sorted.fold_left(
        first,
        |kept: Seq<Plan>, p: Plan| keep_front(kept, p, first.len() + extra),
    )
}

proof fn lemma_listed_push(kept: Seq<Plan>, p: Plan, ids: Seq<i32>)
    ensures
        listed(kept.push(p), ids) <==> listed(kept, ids) || p.ids == ids,
{
    let more = kept.push(p);
    if listed(kept, ids) {
        let i = choose|i: int| 0 <= i < kept.len() && (#[trigger] kept[i]).ids == ids;
        assert(more[i].ids == ids);
    }
    if p.ids == ids {
        assert(more[kept.len() as int].ids == ids);
    }
    if listed(more, ids) {
        let i = choose|i: int| 0 <= i < more.len() && (#[trigger] more[i]).ids == ids;
        if i < kept.len() {
            assert(kept[i].ids == ids);
        }
    }
}

/// Whether a state of the list beats `st` on both axes.
fn is_dominated(kept: &Vec<State>, st: &State) -> (b: bool)
    ensures
        b == dominated(plans(kept@), st@),
{
    let mut i: usize = 0;
    while i < kept.len()
        invariant
            i <= kept@.len(),
            forall|j: int| 0 <= j < i ==> !beats(#[trigger] plans(kept@)[j], st@),
        decreases kept@.len() - i,
    {
        let k = &kept[i];
        assert(plans(kept@)[i as int] == k@);
        if st.dps.le(k.dps) && st.ehp.le(k.ehp) && (st.dps.lt(k.dps) || st.ehp.lt(k.ehp)) {
            return true;
        }
        i = i + 1;
    }
    false
}

/// Chooses the states that stay: the first `width` of a list sorted by score, and
/// up to `extra` states behind them that no chosen state beats on both axes, so
/// that a branch which is strong on one axis survives a narrow beam. No two
/// chosen states have the same nodes.
pub fn select_beam(sorted: Vec<State>, width: usize, extra: usize) -> (out: Vec<State>)
    requires
        all_wf(sorted@),
    ensures
        plans(out@) == selected(plans(sorted@), width as nat, extra as nat),
        all_wf(out@),
{
    let ghost all = plans(sorted@);
    let ghost new = |kept: Seq<Plan>, p: Plan| keep_new(kept, p, width as nat);
    let mut out: Vec<State> = Vec::new();
    let mut seen: FxHashSet<Vec<i32>> = seen_new();
    let mut i: usize = 0;
    assert(plans(out@) =~= Seq::empty());
    while i < sorted.len()
        invariant
            i <= sorted@.len(),
            all == plans(sorted@),
            new == (|kept: Seq<Plan>, p: Plan| keep_new(kept, p, width as nat)),
            all_wf(sorted@),
            all_wf(out@),
            plans(out@) == all.take(i as int).fold_left(Seq::empty(), new),
            out@.len() <= width,
            forall|ids: Seq<i32>| #[trigger]
                listed_sets(seen).contains(ids) <==> listed(plans(out@), ids),
        decreases sorted@.len() - i,
    {
        let st = &sorted[i];
        let ghost before = out@;
        let ghost seen0 = listed_sets(seen);
        proof {
            assert(all.take(i + 1).drop_last() =~= all.take(i as int));
            assert(all.take(i + 1).last() == st@);
        }
        if out.len() < width && seen_insert(&mut seen, copy_ids(&st.ids)) {
            out.push(st.copy());
            proof {
                assert(plans(out@) =~= plans(before).push(st@));
                assert forall|ids: Seq<i32>| #[trigger]
                    listed_sets(seen).contains(ids) <==> listed(plans(out@), ids) by {
                    lemma_listed_push(plans(before), st@, ids);
                    assert(seen0.contains(ids) <==> listed(plans(before), ids));
                }
            }
        } else {
            proof {
                assert forall|ids: Seq<i32>| #[trigger]
                    listed_sets(seen).contains(ids) <==> listed(plans(out@), ids) by {
                    assert(seen0.contains(ids) <==> listed(plans(before), ids));
                }
            }
        }
        i = i + 1;
    }
    assert(all.take(i as int) =~= all);
    let ghost first = plans(out@);
    let ghost front = |kept: Seq<Plan>, p: Plan| keep_front(kept, p, first.len() + extra as nat);
    let mut added: usize = 0;
    let mut i: usize = 0;
    while i < sorted.len()
        invariant
            i <= sorted@.len(),
            all == plans(sorted@),
            front == (|kept: Seq<Plan>, p: Plan| keep_front(kept, p, first.len() + extra as nat)),
            all_wf(sorted@),
            all_wf(out@),
            plans(out@) == all.take(i as int).fold_left(first, front),
            out@.len() == first.len() + added,
            added <= extra,
            forall|ids: Seq<i32>| #[trigger]
                listed_sets(seen).contains(ids) <==> listed(plans(out@), ids),
        decreases sorted@.len() - i,
    {
        let st = &sorted[i];
        let ghost before = out@;
        let ghost seen0 = listed_sets(seen);
        proof {
            assert(all.take(i + 1).drop_last() =~= all.take(i as int));
            assert(all.take(i + 1).last() == st@);
        }
        if added < extra && !seen_contains(&seen, &st.ids) && !is_dominated(&out, st) {
            seen_insert(&mut seen, copy_ids(&st.ids));
            out.push(st.copy());
            added = added + 1;
            proof {
                assert(plans(out@) =~= plans(before).push(st@));
                assert forall|ids: Seq<i32>| #[trigger]
                    listed_sets(seen).contains(ids) <==> listed(plans(out@), ids) by {
                    lemma_listed_push(plans(before), st@, ids);
                    assert(seen0.contains(ids) <==> listed(plans(before), ids));
                }
            }
        }
        i = i + 1;
    }
    assert(all.take(i as int) =~= all);
    out
}

proof fn lemma_top_first(sorted: Seq<Plan>, width: nat)
    requires
        sorted.len() > 0,
        width > 0,
    ensures
        top(sorted, width).len() > 0,
        top(sorted, width)[0] == sorted[0],
    decreases sorted.len(),
{
    let rest = sorted.drop_last();
    assert(top(sorted, width) == keep_new(top(rest, width), sorted.last(), width));
    if rest.len() > 0 {
        lemma_top_first(rest, width);
    } else {
        assert(top(rest, width) =~= Seq::empty());
    }
}

proof fn lemma_front_first(sorted: Seq<Plan>, first: Seq<Plan>, room: nat)
    requires
        sorted.len() > 0,
        room > 0,
    ensures
        ({
            let kept = sorted.fold_left(
                first,
                |kept: Seq<Plan>, p: Plan| keep_front(kept, p, room),
            );
            &&& kept.len() > 0
            &&& kept[0] == (if first.len() > 0 {
                first[0]
            } else {
                sorted[0]
            })
        }),
    decreases sorted.len(),
{
    let f = |kept: Seq<Plan>, p: Plan| keep_front(kept, p, room);
    let rest = sorted.drop_last();
    assert(sorted.fold_left(first, f) == keep_front(
        rest.fold_left(first, f),
        sorted.last(),
        room,
    ));
    if rest.len() > 0 {
        lemma_front_first(rest, first, room);
    } else {
        assert(rest.fold_left(first, f) == first);
    }
}

/// The best allocation is always kept, and it stays in front.
pub proof fn lemma_best_is_kept(sorted: Seq<Plan>, width: nat, extra: nat)
    requires
        sorted.len() > 0,
        width + extra > 0,
    ensures
        selected(sorted, width, extra).len() > 0,
        selected(sorted, width, extra)[0] == sorted[0],
{
    let first = top(sorted, width);
    if width > 0 {
        lemma_top_first(sorted, width);
    } else {
        lemma_top_bound(sorted, width);
    }
    lemma_front_first(sorted, first, first.len() + extra);
}

proof fn lemma_top_bound(sorted: Seq<Plan>, width: nat)
    ensures
        top(sorted, width).len() <= width,
        apart(top(sorted, width)),
    decreases sorted.len(),
{
    if sorted.len() > 0 {
        let rest = sorted.drop_last();
        lemma_top_bound(rest, width);
        lemma_apart_push(top(rest, width), sorted.last());
        assert(top(sorted, width) == keep_new(top(rest, width), sorted.last(), width));
    }
}

/// Whether no two allocations of a list have the same nodes.
pub open spec fn apart(kept: Seq<Plan>) -> bool {
    forall|i: int, j: int|
        0 <= i < j < kept.len() ==> (#[trigger] kept[i]).ids != (#[trigger] kept[j]).ids
}

proof fn lemma_apart_push(kept: Seq<Plan>, p: Plan)
    requires
        apart(kept),
    ensures
        !listed(kept, p.ids) ==> apart(kept.push(p)),
{
    let more = kept.push(p);
    if !listed(kept, p.ids) {
        assert forall|i: int, j: int| 0 <= i < j < more.len() implies (#[trigger] more[i]).ids != (
        #[trigger] more[j]).ids by {
            assert(more[i] == kept[i]);
            if j < kept.len() {
                assert(more[j] == kept[j]);
            } else {
                assert(kept[i].ids != p.ids);
            }
        }
    }
}

proof fn lemma_front_bound(sorted: Seq<Plan>, first: Seq<Plan>, room: nat)
    requires
        apart(first),
        first.len() <= room,
    ensures
        ({
            let kept = sorted.fold_left(
                first,
                |kept: Seq<Plan>, p: Plan| keep_front(kept, p, room),
            );
            kept.len() <= room && apart(kept)
        }),
    decreases sorted.len(),
{
    let f = |kept: Seq<Plan>, p: Plan| keep_front(kept, p, room);
    if sorted.len() > 0 {
        let rest = sorted.drop_last();
        lemma_front_bound(rest, first, room);
        lemma_apart_push(rest.fold_left(first, f), sorted.last());
        assert(sorted.fold_left(first, f) == keep_front(
            rest.fold_left(first, f),
            sorted.last(),
            room,
        ));
    }
}

/// A selection holds at most `width` and `extra` allocations together, and no two
/// with the same nodes.
pub proof fn lemma_selection_bound(sorted: Seq<Plan>, width: nat, extra: nat)
    ensures
        selected(sorted, width, extra).len() <= width + extra,
        apart(selected(sorted, width, extra)),
{
    let first = top(sorted, width);
    lemma_top_bound(sorted, width);
    lemma_front_bound(sorted, first, first.len() + extra);
}

proof fn lemma_top_among(sorted: Seq<Plan>, width: nat)
    ensures
        forall|p: Plan| #[trigger] top(sorted, width).contains(p) ==> sorted.contains(p),
    decreases sorted.len(),
{
    if sorted.len() > 0 {
        let rest = sorted.drop_last();
        lemma_top_among(rest, width);
        assert(top(sorted, width) == keep_new(top(rest, width), sorted.last(), width));
        assert forall|p: Plan| #[trigger] top(sorted, width).contains(p) implies sorted.contains(
            p,
        ) by {
            lemma_contains_push(top(rest, width), sorted.last(), p);
            lemma_contains_push(rest, sorted.last(), p);
            assert(rest.push(sorted.last()) =~= sorted);
            assert(top(rest, width).contains(p) ==> rest.contains(p));
        }
    }
}

proof fn lemma_front_among(sorted: Seq<Plan>, first: Seq<Plan>, room: nat, p: Plan)
    requires
        sorted.fold_left(
            first,
            |kept: Seq<Plan>, p: Plan| keep_front(kept, p, room),
        ).contains(p),
    ensures
        first.contains(p) || sorted.contains(p),
    decreases sorted.len(),
{
    let f = |kept: Seq<Plan>, p: Plan| keep_front(kept, p, room);
    if sorted.len() > 0 {
        let rest = sorted.drop_last();
        let kept = rest.fold_left(first, f);
        assert(sorted.fold_left(first, f) == keep_front(kept, sorted.last(), room));
        lemma_contains_push(kept, sorted.last(), p);
        lemma_contains_push(rest, sorted.last(), p);
        assert(rest.push(sorted.last()) =~= sorted);
        if kept.contains(p) {
            lemma_front_among(rest, first, room, p);
        }
    }
}

/// What is selected comes from the list.
pub proof fn lemma_selected_among(sorted: Seq<Plan>, width: nat, extra: nat, p: Plan)
    requires
        selected(sorted, width, extra).contains(p),
    ensures
        sorted.contains(p),
{
    let first = top(sorted, width);
    lemma_top_among(sorted, width);
    lemma_front_among(sorted, first, first.len() + extra, p);
}

proof fn lemma_front_unbeaten(sorted: Seq<Plan>, first: Seq<Plan>, room: nat)
    ensures
        ({
            let kept = sorted.fold_left(
                first,
                |kept: Seq<Plan>, p: Plan| keep_front(kept, p, room),
            );
            &&& kept.len() >= first.len()
            &&& forall|i: int, j: int|
                first.len() <= i < kept.len() && 0 <= j < i ==> !beats(
                    #[trigger] kept[j],
                    #[trigger] kept[i],
                )
        }),
    decreases sorted.len(),
{
    let f = |kept: Seq<Plan>, p: Plan| keep_front(kept, p, room);
    if sorted.len() > 0 {
        let rest = sorted.drop_last();
        let kept = rest.fold_left(first, f);
        let more = sorted.fold_left(first, f);
        lemma_front_unbeaten(rest, first, room);
        assert(more == keep_front(kept, sorted.last(), room));
        assert forall|i: int, j: int| first.len() <= i < more.len() && 0 <= j < i implies !beats(
            #[trigger] more[j],
            #[trigger] more[i],
        ) by {
            if i < kept.len() {
                assert(more[i] == kept[i] && more[j] == kept[j]);
            } else {
                assert(more[j] == kept[j]);
            }
        }
    }
}

/// What is kept besides the best by score is beaten by nothing that was kept
/// before it.
pub proof fn lemma_extras_are_unbeaten(sorted: Seq<Plan>, width: nat, extra: nat, i: int, j: int)
    requires
        top(sorted, width).len() <= i < selected(sorted, width, extra).len(),
        0 <= j < i,
    ensures
        !beats(selected(sorted, width, extra)[j], selected(sorted, width, extra)[i]),
{
    let first = top(sorted, width);
    lemma_front_unbeaten(sorted, first, first.len() + extra);
}

/// The first of a list without repetitions are its first.
proof fn lemma_top_of_apart(sorted: Seq<Plan>, width: nat)
    requires
        apart(sorted),
    ensures
        top(sorted, width) == (if sorted.len() <= width {
            sorted
        } else {
            sorted.take(width as int)
        }),
    decreases sorted.len(),
{
    if sorted.len() > 0 {
        let rest = sorted.drop_last();
        assert(apart(rest)) by {
            assert forall|i: int, j: int| 0 <= i < j < rest.len() implies (
            #[trigger] rest[i]).ids != (#[trigger] rest[j]).ids by {
                assert(sorted[i].ids != sorted[j].ids);
            }
        }
        lemma_top_of_apart(rest, width);
        let kept = top(rest, width);
        assert(top(sorted, width) == keep_new(kept, sorted.last(), width));
        if rest.len() < width {
            assert(kept == rest);
            if listed(kept, sorted.last().ids) {
                let i = choose|i: int|
                    0 <= i < kept.len() && (#[trigger] kept[i]).ids == sorted.last().ids;
                assert(sorted[i].ids != sorted[sorted.len() - 1].ids);
            }
            assert(kept.push(sorted.last()) =~= sorted);
        } else {
            assert(kept =~= rest.take(width as int));
            assert(rest.take(width as int) =~= sorted.take(width as int));
        }
    }
}

/// What is left out found no room, or is beaten, or its nodes are there already.
proof fn lemma_front_left_out(sorted: Seq<Plan>, first: Seq<Plan>, room: nat, k: int)
    requires
        0 <= k < sorted.len(),
    ensures
        ({
            let kept = sorted.fold_left(
                first,
                |kept: Seq<Plan>, p: Plan| keep_front(kept, p, room),
            );
            kept.len() >= room || listed(kept, sorted[k].ids) || dominated(kept, sorted[k])
        }),
    decreases sorted.len(),
{
    let f = |kept: Seq<Plan>, p: Plan| keep_front(kept, p, room);
    let rest = sorted.drop_last();
    let kept = rest.fold_left(first, f);
    let more = sorted.fold_left(first, f);
    assert(more == keep_front(kept, sorted.last(), room));
    if k < rest.len() {
        lemma_front_left_out(rest, first, room, k);
        let p = sorted[k];
        assert(p == rest[k]);
        if listed(kept, p.ids) {
            let i = choose|i: int| 0 <= i < kept.len() && (#[trigger] kept[i]).ids == p.ids;
            assert(more[i].ids == p.ids);
        }
        if dominated(kept, p) {
            let i = choose|i: int| 0 <= i < kept.len() && beats(#[trigger] kept[i], p);
            assert(beats(more[i], p));
        }
    } else if more.len() > kept.len() {
        assert(more[kept.len() as int].ids == sorted[k].ids);
    }
}

proof fn lemma_front_prefix(sorted: Seq<Plan>, first: Seq<Plan>, room: nat)
    ensures
        ({
            let kept = sorted.fold_left(
                first,
                |kept: Seq<Plan>, p: Plan| keep_front(kept, p, room),
            );
            kept.len() >= first.len() && kept.take(first.len() as int) == first
        }),
    decreases sorted.len(),
{
    let f = |kept: Seq<Plan>, p: Plan| keep_front(kept, p, room);
    if sorted.len() > 0 {
        let rest = sorted.drop_last();
        lemma_front_prefix(rest, first, room);
        let kept = rest.fold_left(first, f);
        let more = sorted.fold_left(first, f);
        assert(more == keep_front(kept, sorted.last(), room));
        assert(more.take(first.len() as int) =~= kept.take(first.len() as int));
    } else {
        assert(first.take(first.len() as int) =~= first);
    }
}

/// What a selection is, out of different allocations. The best `width` by score stay,
/// in their order. Behind them stand up to `extra` more, none of which is beaten by one
/// before it, that is, no better on either axis and worse on one. What is left out
/// found no room, or is beaten by one that stays.
pub proof fn lemma_selection(sorted: Seq<Plan>, width: nat, extra: nat)
    requires
        apart(sorted),
    ensures
        ({
            let out = selected(sorted, width, extra);
            let w = if sorted.len() < width {
                sorted.len()
            } else {
                width
            };
            &&& w <= out.len() <= w + extra
            &&& forall|i: int| 0 <= i < w ==> #[trigger] out[i] == sorted[i]
            &&& forall|i: int| 0 <= i < out.len() ==> sorted.contains(#[trigger] out[i])
            &&& forall|i: int, j: int|
                w <= i < out.len() && 0 <= j < i ==> !{
                    let a = (#[trigger] out[j]).scored;
                    let b = (#[trigger] out[i]).scored;
                    b.dps.at_most(a.dps) && b.ehp.at_most(a.ehp) && (b.dps.below(a.dps)
                        || b.ehp.below(a.ehp))
                }
            &&& forall|k: int|
                0 <= k < sorted.len() && !out.contains(#[trigger] sorted[k]) ==> {
                    ||| out.len() == w + extra
                    ||| exists|j: int| 0 <= j < out.len() && {
                        let a = (#[trigger] out[j]).scored;
                        let b = sorted[k].scored;
                        b.dps.at_most(a.dps) && b.ehp.at_most(a.ehp) && (b.dps.below(a.dps)
                            || b.ehp.below(a.ehp))
                    }
                }
        }),
{
    let first = top(sorted, width);
    let out = selected(sorted, width, extra);
    let room = first.len() + extra;
    lemma_top_of_apart(sorted, width);
    lemma_top_bound(sorted, width);
    lemma_front_prefix(sorted, first, room);
    lemma_front_bound(sorted, first, room);
    lemma_front_unbeaten(sorted, first, room);
    assert forall|i: int| 0 <= i < first.len() implies #[trigger] out[i] == sorted[i] by {
        assert(out.take(first.len() as int)[i] == first[i]);
    }
    assert forall|i: int| 0 <= i < out.len() implies sorted.contains(#[trigger] out[i]) by {
        assert(out.contains(out[i]));
        lemma_selected_among(sorted, width, extra, out[i]);
    }
    assert forall|i: int, j: int| first.len() <= i < out.len() && 0 <= j < i implies !{
        let a = (#[trigger] out[j]).scored;
        let b = (#[trigger] out[i]).scored;
        b.dps.at_most(a.dps) && b.ehp.at_most(a.ehp) && (b.dps.below(a.dps)
            || b.ehp.below(a.ehp))
    } by {
        assert(!beats(out[j], out[i]));
    }
    assert forall|k: int| 0 <= k < sorted.len() && !out.contains(#[trigger] sorted[k]) implies {
        ||| out.len() == first.len() + extra
        ||| exists|j: int| 0 <= j < out.len() && {
            let a = (#[trigger] out[j]).scored;
            let b = sorted[k].scored;
            b.dps.at_most(a.dps) && b.ehp.at_most(a.ehp) && (b.dps.below(a.dps)
                || b.ehp.below(a.ehp))
        }
    } by {
        lemma_front_left_out(sorted, first, room, k);
        if listed(out, sorted[k].ids) {
            let i = choose|i: int| 0 <= i < out.len() && (#[trigger] out[i]).ids == sorted[k].ids;
            assert(sorted.contains(out[i]));
            let m = choose|m: int| 0 <= m < sorted.len() && sorted[m] == out[i];
            if m < k {
                assert(sorted[m].ids != sorted[k].ids);
            } else if k < m {
                assert(sorted[k].ids != sorted[m].ids);
            }
            assert(out[i] == sorted[k]);
        }
        if dominated(out, sorted[k]) {
            let j = choose|j: int| 0 <= j < out.len() && beats(#[trigger] out[j], sorted[k]);
            assert(out[j].scored == out[j].scored);
        }
    }
}

} // verus!
