//! The search's one contact with the scoring engine: a function that scores a
//! batch of node sets. What it has answered is kept in a table, and it is never
//! asked for a set that the table holds.

use crate::count::{add_capped, capped};
use crate::fx::{memo_get, memo_insert, memo_len, scored_sets, Memo, Scored};
use crate::graph::Graph;
use crate::lists::lemma_filter_distinct;
use vstd::prelude::*;

verus! {

/// Whether a batch may be handed to a scorer where the sets in `due` are asked for:
/// it is not empty, its sets differ, all of them are due, and the table holds none
/// of them.
pub open spec fn askable(
    table: Map<Seq<i32>, Scored>,
    due: Set<Seq<i32>>,
    sets: Seq<Seq<i32>>,
) -> bool {
    &&& sets.len() > 0
    &&& sets.no_duplicates()
    &&& forall|i: int|
        0 <= i < sets.len() ==> due.contains(#[trigger] sets[i]) && !table.contains_key(sets[i])
}

/// What is asked of a scorer, where the table is known and the sets in `due` are
/// asked for: it takes any batch that may be handed to it, and it answers for each
/// set of the batch, in order. Of other batches nothing is asked, so none of them is
/// ever handed to it.
pub open spec fn dutiful<F: FnMut(&[Vec<i32>]) -> Vec<Scored>>(
    f: F,
    table: Map<Seq<i32>, Scored>,
    due: Set<Seq<i32>>,
) -> bool {
    &&& forall|sets: &[Vec<i32>]|
        askable(table, due, deep(sets@)) ==> #[trigger] call_requires(f, (sets,))
    &&& forall|sets: &[Vec<i32>], reply: Vec<Scored>| #[trigger]
        call_ensures(f, (sets,), reply) && askable(table, due, deep(sets@)) ==> reply@.len()
            >= sets@.len()
}

/// Whether a table holds all that another one holds.
pub open spec fn extends(after: Map<Seq<i32>, Scored>, before: Map<Seq<i32>, Scored>) -> bool {
    forall|ids: Seq<i32>| #[trigger]
        before.contains_key(ids) ==> after.contains_key(ids) && after[ids] == before[ids]
}

/// An oracle that agrees with a table agrees with what that table extends.
pub proof fn lemma_agrees_extended(
    g: Graph,
    o: Oracle,
    before: Map<Seq<i32>, Scored>,
    after: Map<Seq<i32>, Scored>,
)
    requires
        extends(after, before),
        agrees(g, o, after),
    ensures
        agrees(g, o, before),
{
    assert forall|ids: Seq<i32>| #[trigger] before.contains_key(ids) implies o(ids) == g.settled(
        before[ids],
    ) by {
        assert(after.contains_key(ids));
    }
}

/// The oracle that reads a table agrees with it.
pub proof fn lemma_reading(g: Graph, table: Map<Seq<i32>, Scored>)
    ensures
        agrees(g, reading(g, table), table),
{
}

/// A scorer stays dutiful while the table grows, if nothing new is due.
pub proof fn lemma_still_dutiful<F: FnMut(&[Vec<i32>]) -> Vec<Scored>>(
    f: F,
    before: Map<Seq<i32>, Scored>,
    was_due: Set<Seq<i32>>,
    after: Map<Seq<i32>, Scored>,
    due: Set<Seq<i32>>,
)
    requires
        dutiful(f, before, was_due),
        extends(after, before),
        forall|ids: Seq<i32>| #[trigger]
            due.contains(ids) && !after.contains_key(ids) ==> was_due.contains(ids),
    ensures
        dutiful(f, after, due),
{
    assert forall|sets: Seq<Seq<i32>>| askable(after, due, sets) implies #[trigger] askable(
        before,
        was_due,
        sets,
    ) by {
        assert forall|i: int| 0 <= i < sets.len() implies was_due.contains(#[trigger] sets[i])
            && !before.contains_key(sets[i]) by {
            assert(due.contains(sets[i]));
            assert(before.contains_key(sets[i]) ==> after.contains_key(sets[i]));
        }
    }
}

/// Whether `s` is what the scorer may answer for the set `ids` in some batch,
/// settled under the weights of the tree.
pub open spec fn earned<F: FnMut(&[Vec<i32>]) -> Vec<Scored>>(
    f: F,
    g: Graph,
    ids: Seq<i32>,
    s: Scored,
) -> bool {
    exists|sets: &[Vec<i32>], reply: Vec<Scored>, i: int| #[trigger]
        call_ensures(f, (sets,), reply) && 0 <= i < sets@.len() && #[trigger] sets@[i]@ == ids && s
            == g.settled(reply@[i])
}

/// Whether a table has grown by what the scorer answered for the sets in
/// `asked`: it holds all that it held, and an entry for each set asked for.
pub open spec fn learned<F: FnMut(&[Vec<i32>]) -> Vec<Scored>>(
    f: F,
    g: Graph,
    before: Map<Seq<i32>, Scored>,
    after: Map<Seq<i32>, Scored>,
    asked: Set<Seq<i32>>,
) -> bool {
    &&& after.dom() == before.dom().union(asked)
    &&& forall|ids: Seq<i32>| #[trigger]
        before.contains_key(ids) ==> after.contains_key(ids) && after[ids] == before[ids]
    &&& forall|ids: Seq<i32>| #[trigger]
        after.contains_key(ids) && !before.contains_key(ids) ==> earned(f, g, ids, after[ids])
}

/// Whether a table has grown by one batch: the sets that it did not hold were
/// handed to the scorer together, in order, and what came back was entered. How
/// often the batch was handed over before is not said: it leaves no mark on the
/// table.
pub open spec fn answered<F: FnMut(&[Vec<i32>]) -> Vec<Scored>>(
    f: F,
    g: Graph,
    before: Map<Seq<i32>, Scored>,
    after: Map<Seq<i32>, Scored>,
    sets: Seq<Seq<i32>>,
) -> bool {
    let fresh = sets.filter(|ids: Seq<i32>| !before.contains_key(ids));
    if fresh.len() == 0 {
        after == before
    } else {
        exists|batch: &[Vec<i32>], reply: Vec<Scored>|
            {
                &&& #[trigger] call_ensures(f, (batch,), reply)
                &&& deep(batch@) == fresh
                &&& forall|i: int|
                    0 <= i < fresh.len() ==> after[#[trigger] fresh[i]] == g.settled(reply@[i])
            }
    }
}

/// Whether a table has grown by some batches, one after the other.
pub open spec fn batched<F: FnMut(&[Vec<i32>]) -> Vec<Scored>>(
    f: F,
    g: Graph,
    before: Map<Seq<i32>, Scored>,
    after: Map<Seq<i32>, Scored>,
    batches: Seq<Seq<Seq<i32>>>,
) -> bool
    decreases batches.len(),
{
    if batches.len() == 0 {
        after == before
    } else {
        exists|mid: Map<Seq<i32>, Scored>|
            {
                &&& batched(f, g, before, mid, batches.drop_last())
                &&& #[trigger] learned(f, g, mid, after, batches.last().to_set())
                &&& answered(f, g, mid, after, batches.last())
            }
    }
}

/// Whether a counter has gone up by the number of sets that a table has gained, as
/// far as it can count.
pub open spec fn counted(
    was: usize,
    now: usize,
    before: Map<Seq<i32>, Scored>,
    after: Map<Seq<i32>, Scored>,
) -> bool {
    &&& before.dom().len() <= after.dom().len()
    &&& now == capped((was + after.dom().len() - before.dom().len()) as nat)
}

/// What is known of every node set.
pub type Oracle = spec_fn(Seq<i32>) -> Scored;

/// Whether an oracle says of each set in the table what the table says, settled
/// under the weights of the tree.
pub open spec fn agrees(g: Graph, o: Oracle, table: Map<Seq<i32>, Scored>) -> bool {
    forall|ids: Seq<i32>| #[trigger] table.contains_key(ids) ==> o(ids) == g.settled(table[ids])
}

/// The oracle that a table gives.
pub open spec fn reading(g: Graph, table: Map<Seq<i32>, Scored>) -> Oracle {
    |ids: Seq<i32>| g.settled(table[ids])
}

pub proof fn lemma_learned_twice<F: FnMut(&[Vec<i32>]) -> Vec<Scored>>(
    f: F,
    g: Graph,
    a: Map<Seq<i32>, Scored>,
    b: Map<Seq<i32>, Scored>,
    c: Map<Seq<i32>, Scored>,
    first: Set<Seq<i32>>,
    second: Set<Seq<i32>>,
)
    requires
        learned(f, g, a, b, first),
        learned(f, g, b, c, second),
    ensures
        learned(f, g, a, c, first.union(second)),
{
    assert(c.dom() =~= a.dom().union(first.union(second)));
    assert forall|ids: Seq<i32>| #[trigger] a.contains_key(ids) implies c.contains_key(ids)
        && c[ids] == a[ids] by {
        assert(b.contains_key(ids));
    }
    assert forall|ids: Seq<i32>| #[trigger]
        c.contains_key(ids) && !a.contains_key(ids) implies earned(f, g, ids, c[ids]) by {
        if b.contains_key(ids) {
            assert(earned(f, g, ids, b[ids]));
        }
    }
}

/// One more batch.
pub proof fn lemma_batched_push<F: FnMut(&[Vec<i32>]) -> Vec<Scored>>(
    f: F,
    g: Graph,
    a: Map<Seq<i32>, Scored>,
    b: Map<Seq<i32>, Scored>,
    c: Map<Seq<i32>, Scored>,
    batches: Seq<Seq<Seq<i32>>>,
    sets: Seq<Seq<i32>>,
)
    requires
        batched(f, g, a, b, batches),
        learned(f, g, b, c, sets.to_set()),
        answered(f, g, b, c, sets),
    ensures
        batched(f, g, a, c, batches.push(sets)),
{
    let more = batches.push(sets);
    assert(more.drop_last() =~= batches);
    assert(more.last() == sets);
    assert(learned(f, g, b, c, more.last().to_set()));
}

/// One batch alone.
pub proof fn lemma_batched_once<F: FnMut(&[Vec<i32>]) -> Vec<Scored>>(
    f: F,
    g: Graph,
    a: Map<Seq<i32>, Scored>,
    b: Map<Seq<i32>, Scored>,
    sets: Seq<Seq<i32>>,
)
    requires
        learned(f, g, a, b, sets.to_set()),
        answered(f, g, a, b, sets),
    ensures
        batched(f, g, a, b, seq![sets]),
{
    let none = Seq::<Seq<Seq<i32>>>::empty();
    assert(batched(f, g, a, a, none));
    lemma_batched_push(f, g, a, a, b, none, sets);
    assert(none.push(sets) =~= seq![sets]);
}

/// Batches that follow others.
pub proof fn lemma_batched_twice<F: FnMut(&[Vec<i32>]) -> Vec<Scored>>(
    f: F,
    g: Graph,
    a: Map<Seq<i32>, Scored>,
    b: Map<Seq<i32>, Scored>,
    c: Map<Seq<i32>, Scored>,
    first: Seq<Seq<Seq<i32>>>,
    second: Seq<Seq<Seq<i32>>>,
)
    requires
        batched(f, g, a, b, first),
        batched(f, g, b, c, second),
    ensures
        batched(f, g, a, c, first + second),
    decreases second.len(),
{
    if second.len() == 0 {
        assert(first + second =~= first);
    } else {
        let mid = choose|mid: Map<Seq<i32>, Scored>|
            {
                &&& batched(f, g, b, mid, second.drop_last())
                &&& #[trigger] learned(f, g, mid, c, second.last().to_set())
                &&& answered(f, g, mid, c, second.last())
            };
        lemma_batched_twice(f, g, a, b, mid, first, second.drop_last());
        lemma_batched_push(f, g, a, mid, c, first + second.drop_last(), second.last());
        assert((first + second.drop_last()).push(second.last()) =~= first + second);
    }
}

/// A batch of which the table holds every set changes nothing.
pub proof fn lemma_batched_idle<F: FnMut(&[Vec<i32>]) -> Vec<Scored>>(
    f: F,
    g: Graph,
    a: Map<Seq<i32>, Scored>,
    b: Map<Seq<i32>, Scored>,
    batches: Seq<Seq<Seq<i32>>>,
    sets: Seq<Seq<i32>>,
)
    requires
        batched(f, g, a, b, batches),
        sets.to_set().subset_of(b.dom()),
    ensures
        batched(f, g, a, b, batches.push(sets)),
{
    let unknown = |ids: Seq<i32>| !b.contains_key(ids);
    assert(b.dom() =~= b.dom().union(sets.to_set()));
    let fresh = sets.filter(unknown);
    assert(fresh.len() == 0) by {
        broadcast use vstd::seq_lib::group_filter_ensures;

        if fresh.len() > 0 {
            assert(unknown(fresh[0]));
            assert(fresh.contains(fresh[0]));
            sets.lemma_filter_contains_rev(unknown, fresh[0]);
            assert(sets.to_set().contains(fresh[0]));
        }
    }
    assert(learned(f, g, b, b, sets.to_set()));
    assert(answered(f, g, b, b, sets));
    lemma_batched_push(f, g, a, b, b, batches, sets);
}

/// An oracle that agrees with a table agrees with what the table was before it grew.
pub proof fn lemma_agrees_before<F: FnMut(&[Vec<i32>]) -> Vec<Scored>>(
    f: F,
    g: Graph,
    o: Oracle,
    before: Map<Seq<i32>, Scored>,
    after: Map<Seq<i32>, Scored>,
    asked: Set<Seq<i32>>,
)
    requires
        learned(f, g, before, after, asked),
        agrees(g, o, after),
    ensures
        agrees(g, o, before),
{
    assert forall|ids: Seq<i32>| #[trigger] before.contains_key(ids) implies o(ids) == g.settled(
        before[ids],
    ) by {
        assert(after.contains_key(ids));
    }
}

/// The node sets of a list.
pub open spec fn deep(sets: Seq<Vec<i32>>) -> Seq<Seq<i32>> {
    sets.map_values(|v: Vec<i32>| v@)
}

/// Copies a list of ids.
pub fn copy_ids(ids: &Vec<i32>) -> (copy: Vec<i32>)
    ensures
        copy@ == ids@,
{
    let copy = ids.clone();
    assert(copy@ =~= ids@);
    copy
}

/// What the table says of a set that it holds.
pub fn recall(g: &Graph, memo: &Memo, ids: &Vec<i32>) -> (s: Scored)
    requires
        scored_sets(*memo).contains_key(ids@),
    ensures
        s == g.settled(scored_sets(*memo)[ids@]),
{
    match memo_get(memo, ids) {
        Some(s) => g.settle(s),
        None => {
            assert(false);
            Scored { score: g.w_dps, dps: g.w_dps, ehp: g.w_ehp }
        },
    }
}

/// The sets that the table does not hold, in order.
fn unknown_sets(sets: &Vec<Vec<i32>>, memo: &Memo) -> (fresh: Vec<Vec<i32>>)
    ensures
        deep(fresh@) == deep(sets@).filter(|ids: Seq<i32>| !scored_sets(*memo).contains_key(ids)),
{
    let ghost unknown = |ids: Seq<i32>| !scored_sets(*memo).contains_key(ids);
    let mut fresh: Vec<Vec<i32>> = Vec::new();
    let mut i: usize = 0;
    proof {
        reveal(Seq::filter);
        assert(deep(sets@.take(0)) =~= Seq::empty());
        assert(deep(fresh@) =~= deep(sets@.take(0)).filter(unknown));
    }
    while i < sets.len()
        invariant
            i <= sets@.len(),
            unknown == (|ids: Seq<i32>| !scored_sets(*memo).contains_key(ids)),
            deep(fresh@) == deep(sets@.take(i as int)).filter(unknown),
        decreases sets@.len() - i,
    {
        let ghost before = fresh@;
        proof {
            reveal(Seq::filter);
            assert(deep(sets@.take(i + 1)).drop_last() =~= deep(sets@.take(i as int)));
            assert(deep(sets@.take(i + 1)).last() == sets@[i as int]@);
        }
        match memo_get(memo, &sets[i]) {
            Some(_) => {},
            None => {
                let copy = copy_ids(&sets[i]);
                fresh.push(copy);
                assert(deep(fresh@) =~= deep(before).push(sets@[i as int]@));
            },
        }
        i = i + 1;
    }
    assert(sets@.take(i as int) =~= sets@);
    fresh
}

/// Scores those of the sets that the table does not hold, in one batch, and
/// enters what came back.
pub fn score_all<F: FnMut(&[Vec<i32>]) -> Vec<Scored>>(
    g: &Graph,
    sets: &Vec<Vec<i32>>,
    memo: &mut Memo,
    evals: &mut usize,
    score: &mut F,
)
    requires
        dutiful(*old(score), scored_sets(*old(memo)), deep(sets@).to_set()),
        deep(sets@).no_duplicates(),
    ensures
        *final(score) == *old(score),
        learned(
            *old(score),
            *g,
            scored_sets(*old(memo)),
            scored_sets(*final(memo)),
            deep(sets@).to_set(),
        ),
        answered(*old(score), *g, scored_sets(*old(memo)), scored_sets(*final(memo)), deep(sets@)),
        counted(
            *old(evals),
            *final(evals),
            scored_sets(*old(memo)),
            scored_sets(*final(memo)),
        ),
{
    let ghost table0 = scored_sets(*memo);
    let fresh = unknown_sets(sets, memo);
    proof {
        lemma_unknown(deep(sets@), table0, deep(fresh@));
    }
    if fresh.len() == 0 {
        assert(table0.dom() =~= table0.dom().union(deep(sets@).to_set()));
        return ;
    }
    // A table has finitely many entries, no more than `usize` counts.
    let _known: usize = memo_len(memo);
    let batch: &[Vec<i32>] = fresh.as_slice();
    assert(askable(table0, deep(sets@).to_set(), deep(batch@)));
    let ghost f = *score;
    let reply = score(batch);
    assert(call_ensures(f, (batch,), reply));
    let mut i: usize = 0;
    assert(table0.dom() =~= table0.dom().union(deep(fresh@).take(0).to_set()));
    while i < fresh.len()
        invariant
            i <= fresh@.len(),
            batch@ == fresh@,
            f == *old(score),
            call_ensures(f, (batch,), reply),
            reply@.len() >= fresh@.len(),
            deep(fresh@).no_duplicates(),
            forall|j: int|
                0 <= j < fresh@.len() ==> !table0.contains_key(#[trigger] deep(fresh@)[j]),
            learned(
                f,
                *g,
                table0,
                scored_sets(*memo),
                deep(fresh@).take(i as int).to_set(),
            ),
            forall|j: int|
                0 <= j < i ==> scored_sets(*memo)[#[trigger] deep(fresh@)[j]] == g.settled(
                    reply@[j],
                ),
            scored_sets(*memo).dom().finite(),
            scored_sets(*memo).dom().len() == table0.dom().len() + i,
        decreases fresh@.len() - i,
    {
        let ghost before = scored_sets(*memo);
        let ghost ids = fresh@[i as int]@;
        let key = copy_ids(&fresh[i]);
        let value = g.settle(reply[i]);
        memo_insert(memo, key, value);
        proof {
            assert(deep(fresh@)[i as int] == ids);
            assert(!table0.contains_key(ids));
            let done = deep(fresh@).take(i as int);
            let next = deep(fresh@).take(i + 1);
            assert(next =~= done.push(ids));
            assert(!before.contains_key(ids)) by {
                if before.contains_key(ids) {
                    assert(done.to_set().contains(ids));
                    assert(done.contains(ids));
                    let j = choose|j: int| 0 <= j < done.len() && done[j] == ids;
                    assert(deep(fresh@)[j] == deep(fresh@)[i as int]);
                }
            }
            assert(earned(*old(score), *g, ids, value)) by {
                assert(batch@[i as int]@ == ids);
            }
            assert(next.to_set() =~= done.to_set().insert(ids)) by {
                assert forall|x: Seq<i32>| next.to_set().contains(x) <==> done.to_set().insert(
                    ids,
                ).contains(x) by {
                    if done.contains(x) {
                        let j = choose|j: int| 0 <= j < done.len() && done[j] == x;
                        assert(next[j] == x);
                    }
                    if next.contains(x) && x != ids {
                        let j = choose|j: int| 0 <= j < next.len() && next[j] == x;
                        assert(done[j] == x);
                    }
                    assert(next[i as int] == ids);
                }
            }
            assert(scored_sets(*memo).dom() =~= before.dom().insert(ids));
            assert(scored_sets(*memo).dom() =~= table0.dom().union(next.to_set()));
            assert forall|k: Seq<i32>| #[trigger] table0.contains_key(k) implies scored_sets(
                *memo,
            ).contains_key(k) && scored_sets(*memo)[k] == table0[k] by {
                assert(before.contains_key(k));
            }
            assert forall|k: Seq<i32>| #[trigger]
                scored_sets(*memo).contains_key(k) && !table0.contains_key(k) implies earned(
                *old(score),
                *g,
                k,
                scored_sets(*memo)[k],
            ) by {
                if k != ids {
                    assert(before.contains_key(k));
                }
            }
        }
        i = i + 1;
    }
    *evals = add_capped(*evals, fresh.len());
    proof {
        assert(deep(fresh@).take(i as int) =~= deep(fresh@));
        assert(scored_sets(*memo).dom() =~= table0.dom().union(deep(sets@).to_set()));
    }
}

proof fn lemma_unknown(sets: Seq<Seq<i32>>, table: Map<Seq<i32>, Scored>, fresh: Seq<Seq<i32>>)
    requires
        sets.no_duplicates(),
        fresh == sets.filter(|ids: Seq<i32>| !table.contains_key(ids)),
    ensures
        fresh.no_duplicates(),
        forall|j: int|
            0 <= j < fresh.len() ==> !table.contains_key(#[trigger] fresh[j])
                && sets.to_set().contains(fresh[j]),
        table.dom().union(fresh.to_set()) =~= table.dom().union(sets.to_set()),
{
    broadcast use vstd::seq_lib::group_filter_ensures;

    let unknown = |ids: Seq<i32>| !table.contains_key(ids);
    lemma_filter_distinct(sets, unknown);
    assert forall|j: int| 0 <= j < fresh.len() implies !table.contains_key(#[trigger] fresh[j])
        && sets.to_set().contains(fresh[j]) by {
        assert(unknown(fresh[j]));
        assert(fresh.contains(fresh[j]));
        sets.lemma_filter_contains_rev(unknown, fresh[j]);
    }
    assert forall|x: Seq<i32>| table.dom().union(fresh.to_set()).contains(x)
        <==> table.dom().union(sets.to_set()).contains(x) by {
        if fresh.contains(x) {
            sets.lemma_filter_contains_rev(unknown, x);
        }
        if sets.contains(x) && !table.contains_key(x) {
            let i = choose|i: int| 0 <= i < sets.len() && sets[i] == x;
            assert(unknown(sets[i]));
            assert(fresh.contains(x));
        }
    }
}

/// What is known of one set, scored if the table does not hold it yet.
pub fn score_or_memo<F: FnMut(&[Vec<i32>]) -> Vec<Scored>>(
    g: &Graph,
    ids: &Vec<i32>,
    memo: &mut Memo,
    evals: &mut usize,
    score: &mut F,
) -> (s: Scored)
    requires
        dutiful(*old(score), scored_sets(*old(memo)), set![ids@]),
    ensures
        *final(score) == *old(score),
        learned(
            *old(score),
            *g,
            scored_sets(*old(memo)),
            scored_sets(*final(memo)),
            set![ids@],
        ),
        answered(
            *old(score),
            *g,
            scored_sets(*old(memo)),
            scored_sets(*final(memo)),
            seq![ids@],
        ),
        s == g.settled(scored_sets(*final(memo))[ids@]),
        counted(
            *old(evals),
            *final(evals),
            scored_sets(*old(memo)),
            scored_sets(*final(memo)),
        ),
{
    let mut one: Vec<Vec<i32>> = Vec::new();
    one.push(copy_ids(ids));
    proof {
        assert(deep(one@) =~= seq![ids@]);
        assert(deep(one@).no_duplicates());
        assert(deep(one@).to_set() =~= set![ids@]) by {
            assert(deep(one@)[0] == ids@);
        }
    }
    score_all(g, &one, memo, evals, score);
    proof {
        assert(scored_sets(*memo).dom().contains(ids@));
    }
    recall(g, memo, ids)
}

} // verus!
