//! What each notable contributes to an allocation.

use crate::double::{Double, INFINITY_BITS, ONE_PERCENT_BITS, ZERO_BITS};
use crate::fx::{id_set_contains, scored_sets, Memo, Scored};
use crate::graph::Graph;
use crate::lists::{lemma_contains_push, lemma_filter_distinct};
use crate::order::ascending;
use crate::plan::{Plan, State};
use crate::scorer::{agrees, answered, counted, deep, dutiful, learned, recall, score_all, Oracle};
use rustc_hash::FxHashSet;
use vstd::prelude::*;

verus! {

broadcast use vstd::std_specs::hash::group_hash_axioms;

/// What a node contributes to an allocation, and whether the allocation
/// collapses without it.
#[derive(Clone, Copy, Debug, PartialEq, Eq, Structural)]
pub struct Marginal {
    pub id: i32,
    pub marginal: Double,
    pub is_enabler: bool,
}

/// An allocation without one node.
pub open spec fn without(ids: Seq<i32>, id: i32) -> Seq<i32> {
    ids.filter(|x: i32| x != id)
}

/// The notables and keystones among some nodes.
pub open spec fn notables(g: Graph, ids: Seq<i32>) -> Seq<i32> {
    ids.filter(|id: i32| g.notable(id))
}

/// An allocation without one of some nodes, for each of them.
pub open spec fn left_out(ids: Seq<i32>, nodes: Seq<i32>) -> Seq<Seq<i32>> {
    nodes.map_values(|id: i32| without(ids, id))
}

/// Whether an axis falls below a hundredth of what it was.
pub open spec fn collapses(was: Double, now: Double) -> bool {
    (Double { bits: ZERO_BITS }).below(was) && now.below(
        (Double { bits: ONE_PERCENT_BITS }).product(was),
    )
}

/// What a node contributes to the allocation `best`, whose score is penalized.
pub open spec fn marginal_of(g: Graph, o: Oracle, best: Plan, id: i32) -> Marginal {
    let rest = o(without(best.ids, id));
    let judged = g.judged(rest);
    Marginal {
        id,
        marginal: if judged.finite() {
            best.scored.score.difference(judged)
        } else {
            Double { bits: INFINITY_BITS }
        },
        is_enabler: !judged.finite() || collapses(best.scored.dps, rest.dps) || collapses(
            best.scored.ehp,
            rest.ehp,
        ),
    }
}

/// What each of some nodes contributes.
pub open spec fn marginals_of(g: Graph, o: Oracle, best: Plan, nodes: Seq<i32>) -> Seq<Marginal> {
    nodes.map_values(|id: i32| marginal_of(g, o, best, id))
}

/// What each notable and keystone of an allocation contributes.
pub open spec fn marginals(g: Graph, o: Oracle, best: Plan) -> Seq<Marginal> {
    marginals_of(g, o, best, notables(g, best.ids))
}

/// The allocations whose scores the marginals ask for.
pub open spec fn margin_asked(g: Graph, ids: Seq<i32>) -> Set<Seq<i32>> {
    left_out(ids, notables(g, ids)).to_set()
}

/// Whether a node ends a branch of an allocation: it is not the class start, and
/// exactly one of its links leads to an allocated node.
pub open spec fn leaf(g: Graph, nodes: Set<i32>, id: i32) -> bool {
    id != g.start && g.links_from(id).filter(|n: i32| nodes.contains(n)).len() == 1
}

/// Whether `id` is a leaf of the allocated nodes `set`. Dropping a leaf strands
/// nothing; a node with two allocated neighbours may be on the main path, and
/// one with none hangs on nothing. The class start is never a leaf.
pub fn is_alloc_leaf(g: &Graph, set: &FxHashSet<i32>, id: i32) -> (b: bool)
    ensures
        b == leaf(*g, set@, id),
{
    if id == g.start {
        return false;
    }
    let ghost held = |n: i32| set@.contains(n);
    let mut count: usize = 0;
    match g.links.get(&id) {
        Some(adj) => {
            let mut k: usize = 0;
            proof {
                reveal(Seq::filter);
                assert(adj@.take(0) =~= Seq::empty());
            }
            while k < adj.len()
                invariant
                    k <= adj@.len(),
                    held == (|n: i32| set@.contains(n)),
                    count == adj@.take(k as int).filter(held).len(),
                    count <= k,
                decreases adj@.len() - k,
            {
                proof {
                    reveal(Seq::filter);
                    assert(adj@.take(k + 1).drop_last() =~= adj@.take(k as int));
                    assert(adj@.take(k + 1).last() == adj@[k as int]);
                }
                if id_set_contains(set, adj[k]) {
                    count = count + 1;
                }
                k = k + 1;
            }
            assert(adj@.take(k as int) =~= adj@);
        },
        None => {
            proof {
                reveal(Seq::filter);
                assert(g.links_from(id).filter(held) =~= Seq::empty());
            }
        },
    }
    count == 1
}

/// Copies an allocation without one node.
fn copy_without(ids: &Vec<i32>, id: i32) -> (rest: Vec<i32>)
    ensures
        rest@ == without(ids@, id),
{
    let mut rest: Vec<i32> = Vec::with_capacity(ids.len());
    let mut k: usize = 0;
    proof {
        reveal(Seq::filter);
        assert(ids@.take(0) =~= Seq::empty());
    }
    while k < ids.len()
        invariant
            k <= ids@.len(),
            rest@ == without(ids@.take(k as int), id),
        decreases ids@.len() - k,
    {
        proof {
            reveal(Seq::filter);
            assert(ids@.take(k + 1).drop_last() =~= ids@.take(k as int));
            assert(ids@.take(k + 1).last() == ids@[k as int]);
        }
        if ids[k] != id {
            rest.push(ids[k]);
        }
        k = k + 1;
    }
    assert(ids@.take(k as int) =~= ids@);
    rest
}

/// The notables and keystones among some nodes.
fn copy_notables(g: &Graph, ids: &Vec<i32>) -> (nodes: Vec<i32>)
    ensures
        nodes@ == notables(*g, ids@),
{
    let ghost fit = |id: i32| g.notable(id);
    let mut nodes: Vec<i32> = Vec::new();
    let mut k: usize = 0;
    proof {
        reveal(Seq::filter);
        assert(ids@.take(0) =~= Seq::empty());
    }
    while k < ids.len()
        invariant
            k <= ids@.len(),
            fit == (|id: i32| g.notable(id)),
            nodes@ == ids@.take(k as int).filter(fit),
        decreases ids@.len() - k,
    {
        proof {
            reveal(Seq::filter);
            assert(ids@.take(k + 1).drop_last() =~= ids@.take(k as int));
            assert(ids@.take(k + 1).last() == ids@[k as int]);
        }
        if g.is_notable(ids[k]) {
            nodes.push(ids[k]);
        }
        k = k + 1;
    }
    assert(ids@.take(k as int) =~= ids@);
    nodes
}

/// The nodes of an allocation without one node.
pub proof fn lemma_without(ids: Seq<i32>, id: i32, x: i32)
    ensures
        without(ids, id).contains(x) <==> ids.contains(x) && x != id,
    decreases ids.len(),
{
    reveal(Seq::filter);
    if ids.len() > 0 {
        let rest = ids.drop_last();
        lemma_without(rest, id, x);
        assert(ids =~= rest.push(ids.last()));
        lemma_contains_push(rest, ids.last(), x);
        lemma_contains_push(without(rest, id), ids.last(), x);
    }
}

proof fn lemma_left_out_distinct(g: Graph, ids: Seq<i32>)
    requires
        ascending(ids),
    ensures
        left_out(ids, notables(g, ids)).no_duplicates(),
{
    broadcast use vstd::seq_lib::group_filter_ensures;

    let fit = |id: i32| g.notable(id);
    let nodes = notables(g, ids);
    assert(ids.no_duplicates());
    lemma_filter_distinct(ids, fit);
    let sets = left_out(ids, nodes);
    assert forall|i: int, j: int|
        0 <= i < sets.len() && 0 <= j < sets.len() && i != j implies sets[i] != sets[j] by {
        let a = nodes[i];
        let b = nodes[j];
        assert(nodes.contains(a));
        ids.lemma_filter_contains_rev(fit, a);
        lemma_without(ids, a, a);
        lemma_without(ids, b, a);
        assert(sets[i] == without(ids, a) && sets[j] == without(ids, b));
    }
}

/// Whether an axis falls below a hundredth of what it was.
fn has_collapsed(was: Double, now: Double) -> (b: bool)
    ensures
        b == collapses(was, now),
{
    Double::from_bits(ZERO_BITS).lt(was) && now.lt(
        Double::from_bits(ONE_PERCENT_BITS).times(was),
    )
}

/// Measures what each notable and keystone of `best` contributes: its score, less
/// the score without the node. The allocations without one node are scored in one
/// batch. `best` carries its penalized score.
pub fn analyze_marginals<F: FnMut(&[Vec<i32>]) -> Vec<Scored>>(
    g: &Graph,
    best: &State,
    memo: &mut Memo,
    evals: &mut usize,
    score: &mut F,
) -> (marg: Vec<Marginal>)
    requires
        dutiful(*old(score), scored_sets(*old(memo)), margin_asked(*g, best.ids@)),
        best.wf(),
    ensures
        *final(score) == *old(score),
        learned(
            *old(score),
            *g,
            scored_sets(*old(memo)),
            scored_sets(*final(memo)),
            margin_asked(*g, best.ids@),
        ),
        answered(
            *old(score),
            *g,
            scored_sets(*old(memo)),
            scored_sets(*final(memo)),
            left_out(best.ids@, notables(*g, best.ids@)),
        ),
        forall|o: Oracle| #[trigger]
            agrees(*g, o, scored_sets(*final(memo))) ==> marg@ == marginals(*g, o, best@),
        counted(
            *old(evals),
            *final(evals),
            scored_sets(*old(memo)),
            scored_sets(*final(memo)),
        ),
{
    let nodes = copy_notables(g, &best.ids);
    let ghost ids = best.ids@;
    let mut sets: Vec<Vec<i32>> = Vec::with_capacity(nodes.len());
    let mut i: usize = 0;
    while i < nodes.len()
        invariant
            i <= nodes@.len(),
            sets@.len() == i,
            ids == best.ids@,
            forall|j: int| 0 <= j < i ==> (#[trigger] sets@[j])@ == without(ids, nodes@[j]),
        decreases nodes@.len() - i,
    {
        sets.push(copy_without(&best.ids, nodes[i]));
        i = i + 1;
    }
    proof {
        assert(deep(sets@) =~= left_out(ids, nodes@));
        lemma_left_out_distinct(*g, ids);
    }
    score_all(g, &sets, memo, evals, score);
    let ghost table = scored_sets(*memo);
    let mut marg: Vec<Marginal> = Vec::with_capacity(nodes.len());
    let mut i: usize = 0;
    while i < nodes.len()
        invariant
            i <= nodes@.len(),
            ids == best.ids@,
            table == scored_sets(*memo),
            marg@.len() == i,
            sets@.len() == nodes@.len(),
            deep(sets@) == left_out(ids, nodes@),
            table.dom() == scored_sets(*old(memo)).dom().union(deep(sets@).to_set()),
            forall|o: Oracle| #[trigger]
                agrees(*g, o, table) ==> forall|j: int|
                    0 <= j < i ==> #[trigger] marg@[j] == marginal_of(*g, o, best@, nodes@[j]),
        decreases nodes@.len() - i,
    {
        let ghost set = without(ids, nodes@[i as int]);
        proof {
            assert(deep(sets@)[i as int] == set);
            assert(deep(sets@).to_set().contains(set));
            assert(table.dom().contains(set));
            assert(sets@[i as int]@ == deep(sets@)[i as int]);
        }
        let rest = recall(g, memo, &sets[i]);
        let judged = g.penalized_score(rest.score, rest.dps, rest.ehp);
        let counts = judged.is_finite();
        let marginal = if counts {
            best.score.minus(judged)
        } else {
            Double::from_bits(INFINITY_BITS)
        };
        let is_enabler = !counts || has_collapsed(best.dps, rest.dps) || has_collapsed(
            best.ehp,
            rest.ehp,
        );
        let ghost before = marg@;
        let m = Marginal { id: nodes[i], marginal, is_enabler };
        marg.push(m);
        proof {
            assert forall|o: Oracle| #[trigger] agrees(*g, o, table) implies forall|j: int|
                0 <= j < i + 1 ==> #[trigger] marg@[j] == marginal_of(*g, o, best@, nodes@[j]) by {
                assert(table.contains_key(set));
                assert(o(set) == rest);
                assert(m == marginal_of(*g, o, best@, nodes@[i as int]));
                assert forall|j: int| 0 <= j < i + 1 implies #[trigger] marg@[j] == marginal_of(
                    *g,
                    o,
                    best@,
                    nodes@[j],
                ) by {
                    if j < i {
                        assert(marg@[j] == before[j]);
                    }
                }
            }
        }
        i = i + 1;
    }
    proof {
        assert forall|o: Oracle| #[trigger] agrees(*g, o, table) implies marg@ == marginals(
            *g,
            o,
            best@,
        ) by {
            assert(marg@ =~= marginals(*g, o, best@));
        }
    }
    marg
}

} // verus!
