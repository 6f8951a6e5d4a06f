//! The whole search: the power seed, a pass with its diet, and restarts from
//! other anchors.

use crate::count::{add_capped, capped, times_capped};
use crate::diet::run_full;
use crate::double::{Double, ONE_MILLIONTH_BITS};
use crate::expand::PowerSeed;
use crate::fx::{memo_entries, memo_len, memo_new, scored_sets, Memo, Scored};
use crate::graph::Graph;
use crate::laws::lemma_search_finds_an_allocation;
use crate::params::BeamParams;
use crate::pass::start_only;
use crate::pathfinder::Pathfinder;
use crate::plan::{Plan, State};
use crate::scorer::{
    agrees, batched, counted, dutiful, extends, learned, lemma_agrees_before,
    lemma_agrees_extended, lemma_batched_once, lemma_batched_push, lemma_batched_twice,
    lemma_learned_twice, lemma_reading, lemma_still_dutiful, reading, score_or_memo, Oracle,
};
use crate::seed::{compute_seed, seed_asked, seed_batch, seed_power};
use crate::soundness::allocation;
use vstd::prelude::*;

verus! {

/// What a search has found: the nodes of the best allocation, the class start
/// among them, in ascending order, with its penalized score and its axes.
pub struct BeamResult {
    pub ids: Vec<i32>,
    pub score: Double,
    pub dps: Double,
    pub ehp: Double,
    /// How many node sets were handed to the scorer.
    pub evals: usize,
    /// How many node sets the table holds at the end.
    pub memo_entries: usize,
    /// Roughly how many bytes the table takes at the end.
    pub memo_bytes_est: usize,
}

impl View for BeamResult {
    type V = Plan;

    open spec fn view(&self) -> Plan {
        Plan {
            ids: self.ids@,
            scored: Scored { score: self.score, dps: self.dps, ehp: self.ehp },
        }
    }
}

impl BeamParams {
    /// How many restarts there are; without anchors there is nothing to vary.
    pub open spec fn reruns(self) -> nat {
        if self.seed_anchors > 0 {
            self.restarts as nat
        } else {
            0
        }
    }

    /// The best allocation after restart number `k`. A restart wins only where it
    /// is better by more than a hair.
    pub open spec fn best_after(
        self,
        g: Graph,
        o: Oracle,
        power: Map<i32, Double>,
        k: nat,
    ) -> Plan
        decreases k,
    {
        let now = self.regime(g, k).outcome(g, o, power);
        if k == 0 {
            now
        } else {
            let best = self.best_after(g, o, power, (k - 1) as nat);
            if best.scored.score.sum(Double { bits: ONE_MILLIONTH_BITS }).below(
                now.scored.score,
            ) {
                now
            } else {
                best
            }
        }
    }

    /// The node sets whose scores the search asks for up to restart number `k`,
    /// besides those of the seed.
    pub open spec fn asked_after(
        self,
        g: Graph,
        o: Oracle,
        power: Map<i32, Double>,
        k: nat,
    ) -> Set<Seq<i32>>
        decreases k,
    {
        let now = self.regime(g, k).asked(g, o, power);
        if k == 0 {
            now
        } else {
            self.asked_after(g, o, power, (k - 1) as nat).union(now)
        }
    }

    /// The node sets whose scores it may ask for, as far as a table tells.
    pub open spec fn rerun_due(
        self,
        g: Graph,
        table: Map<Seq<i32>, Scored>,
        power: Map<i32, Double>,
    ) -> Set<Seq<i32>> {
        Set::new(
            |ids: Seq<i32>|
                exists|o: Oracle| #[trigger]
                    agrees(g, o, table) && self.asked_after(g, o, power, self.reruns()).contains(
                        ids,
                    ),
        )
    }

    /// The batches in which it asks for them.
    pub open spec fn batches_after(
        self,
        g: Graph,
        o: Oracle,
        power: Map<i32, Double>,
        k: nat,
    ) -> Seq<Seq<Seq<i32>>>
        decreases k,
    {
        let now = self.regime(g, k).batches(g, o, power);
        if k == 0 {
            now
        } else {
            self.batches_after(g, o, power, (k - 1) as nat) + now
        }
    }

    /// What the search finds, where `o` tells what is known of every node set.
    pub open spec fn found(self, g: Graph, o: Oracle) -> Plan {
        self.best_after(g, o, seed_power(g, o, self.detour), self.reruns())
    }

    /// The node sets whose scores the search asks for.
    pub open spec fn asked(self, g: Graph, o: Oracle) -> Set<Seq<i32>> {
        set![seq![g.start]].union(seed_asked(g, self.detour)).union(
            self.asked_after(g, o, seed_power(g, o, self.detour), self.reruns()),
        )
    }

    /// The node sets whose scores the search may ask for, as far as a table tells.
    pub open spec fn due(self, g: Graph, table: Map<Seq<i32>, Scored>) -> Set<Seq<i32>> {
        Set::new(
            |ids: Seq<i32>|
                exists|o: Oracle| #[trigger] agrees(g, o, table) && self.asked(g, o).contains(ids),
        )
    }

    /// The batches in which the search asks for them: the class start, the seed, and
    /// what each pass and each round of the diet asks for.
    pub open spec fn batches(self, g: Graph, o: Oracle) -> Seq<Seq<Seq<i32>>> {
        seq![seq![seq![g.start]], seed_batch(g, self.detour)] + self.batches_after(
            g,
            o,
            seed_power(g, o, self.detour),
            self.reruns(),
        )
    }
}

/// What a search has come to that found `found` and turned the table `before` into
/// `after`. Whatever tells of each node set what `after` tells of it decides the
/// search: what it finds, which node sets it asks for, and in which batches. What
/// was asked for and not known was learned from the scorer, the unknown sets of each
/// batch in one call; the rest of the table stays as it was.
pub open spec fn concluded<F: FnMut(&[Vec<i32>]) -> Vec<Scored>>(
    f: F,
    g: Graph,
    p: BeamParams,
    before: Map<Seq<i32>, Scored>,
    after: Map<Seq<i32>, Scored>,
    found: Plan,
) -> bool {
    forall|o: Oracle| #[trigger]
        agrees(g, o, after) ==> {
            &&& found == p.found(g, o)
            &&& learned(f, g, before, after, p.asked(g, o))
            &&& batched(f, g, before, after, p.batches(g, o))
        }
}

/// The bytes that the ids of some node sets take.
pub open spec fn key_bytes(keys: Seq<Seq<i32>>) -> nat
    decreases keys.len(),
{
    if keys.len() == 0 {
        0
    } else {
        key_bytes(keys.drop_last()) + 4 * keys.last().len()
    }
}

/// Whether `keys` lists the node sets of a table, each once.
pub open spec fn lists_keys(keys: Seq<Seq<i32>>, table: Map<Seq<i32>, Scored>) -> bool {
    keys.no_duplicates() && keys.to_set() == table.dom()
}

proof fn lemma_key_bytes_remove(keys: Seq<Seq<i32>>, i: int)
    requires
        0 <= i < keys.len(),
    ensures
        key_bytes(keys) == key_bytes(keys.remove(i)) + 4 * keys[i].len(),
    decreases keys.len(),
{
    if i == keys.len() - 1 {
        assert(keys.remove(i) =~= keys.drop_last());
    } else {
        let short = keys.drop_last();
        lemma_key_bytes_remove(short, i);
        assert(keys.remove(i).drop_last() =~= short.remove(i));
        assert(keys.remove(i).last() == keys.last());
    }
}

/// The order in which the node sets are counted does not matter.
proof fn lemma_key_bytes_order(a: Seq<Seq<i32>>, b: Seq<Seq<i32>>)
    requires
        a.no_duplicates(),
        b.no_duplicates(),
        a.to_set() == b.to_set(),
    ensures
        key_bytes(a) == key_bytes(b),
        a.len() == b.len(),
    decreases a.len(),
{
    a.unique_seq_to_set();
    b.unique_seq_to_set();
    if a.len() > 0 {
        let x = a.last();
        assert(a.to_set().contains(x));
        assert(b.contains(x));
        let i = choose|i: int| 0 <= i < b.len() && b[i] == x;
        let short = a.drop_last();
        let rest = b.remove(i);
        lemma_key_bytes_remove(b, i);
        assert(rest.no_duplicates()) by {
            assert forall|j: int, k: int|
                0 <= j < rest.len() && 0 <= k < rest.len() && j != k implies rest[j]
                != rest[k] by {
                let bj = if j < i { j } else { j + 1 };
                let bk = if k < i { k } else { k + 1 };
                assert(rest[j] == b[bj] && rest[k] == b[bk]);
            }
        }
        assert(short.to_set() =~= rest.to_set()) by {
            assert forall|y: Seq<i32>| short.to_set().contains(y) <==> rest.to_set().contains(
                y,
            ) by {
                if short.contains(y) {
                    let j = choose|j: int| 0 <= j < short.len() && short[j] == y;
                    assert(a[j] == y && a[a.len() - 1] == x);
                    assert(a.to_set().contains(y));
                    assert(b.contains(y));
                    let k = choose|k: int| 0 <= k < b.len() && b[k] == y;
                    let rk = if k < i { k } else { k - 1 };
                    assert(rest[rk] == y);
                }
                if rest.contains(y) {
                    let k = choose|k: int| 0 <= k < rest.len() && rest[k] == y;
                    let bk = if k < i { k } else { k + 1 };
                    assert(b[bk] == y && bk != i);
                    assert(b.to_set().contains(y));
                    assert(a.contains(y));
                    let j = choose|j: int| 0 <= j < a.len() && a[j] == y;
                    assert(short[j] == y);
                }
            }
        }
        lemma_key_bytes_order(short, rest);
    }
}

/// Roughly how many bytes a table takes: the ids of its node sets, and for each
/// entry three numbers and some overhead.
fn estimate_bytes(memo: &Memo, entries: usize) -> (bytes: usize)
    requires
        entries == scored_sets(*memo).dom().len(),
    ensures
        forall|keys: Seq<Seq<i32>>| #[trigger]
            lists_keys(keys, scored_sets(*memo)) ==> bytes == capped(
                key_bytes(keys) + 56 * keys.len(),
            ),
{
    let all = memo_entries(memo);
    let ghost keys = Seq::new(all@.len(), |i: int| all@[i].0@);
    let mut total: usize = 0;
    let mut k: usize = 0;
    assert(keys.take(0) =~= Seq::empty());
    while k < all.len()
        invariant
            k <= all@.len(),
            keys == Seq::new(all@.len(), |i: int| all@[i].0@),
            total == capped(key_bytes(keys.take(k as int))),
        decreases all@.len() - k,
    {
        let part: usize = times_capped(all[k].0.len(), 4);
        proof {
            assert(keys.take(k + 1).drop_last() =~= keys.take(k as int));
            assert(keys.take(k + 1).last() == all@[k as int].0@);
        }
        total = add_capped(total, part);
        k = k + 1;
    }
    let bytes: usize = add_capped(total, times_capped(entries, 56));
    proof {
        assert(keys.take(k as int) =~= keys);
        let table = scored_sets(*memo);
        assert(keys.no_duplicates()) by {
            assert forall|i: int, j: int|
                0 <= i < keys.len() && 0 <= j < keys.len() && i != j implies keys[i] != keys[j] by {
                if i < j {
                    assert(all@[i].0@ != all@[j].0@);
                } else {
                    assert(all@[j].0@ != all@[i].0@);
                }
            }
        }
        assert(keys.to_set() =~= table.dom()) by {
            assert forall|x: Seq<i32>| keys.to_set().contains(x) <==> table.dom().contains(x) by {
                if keys.contains(x) {
                    let i = choose|i: int| 0 <= i < keys.len() && keys[i] == x;
                    assert(table.contains_key(all@[i].0@));
                }
                if table.dom().contains(x) {
                    assert(table.contains_key(x));
                    let i = choose|i: int|
                        0 <= i < all@.len() && (#[trigger] all@[i]).0@ == x;
                    assert(keys[i] == x);
                }
            }
        }
        keys.unique_seq_to_set();
        assert forall|other: Seq<Seq<i32>>| #[trigger] lists_keys(other, table) implies bytes
            == capped(key_bytes(other) + 56 * other.len()) by {
            lemma_key_bytes_order(keys, other);
        }
    }
    bytes
}

/// More restarts ask for no fewer node sets.
proof fn lemma_reruns_ask_more(
    p: BeamParams,
    g: Graph,
    o: Oracle,
    power: Map<i32, Double>,
    n: nat,
    m: nat,
)
    requires
        n <= m,
    ensures
        p.asked_after(g, o, power, n).subset_of(p.asked_after(g, o, power, m)),
    decreases m,
{
    if n < m {
        lemma_reruns_ask_more(p, g, o, power, n, (m - 1) as nat);
    }
}

/// What restart number `k` asks for may be asked for by the search.
proof fn lemma_rerun_due<F: FnMut(&[Vec<i32>]) -> Vec<Scored>>(
    f: F,
    p: BeamParams,
    g: Graph,
    power: Map<i32, Double>,
    before: Map<Seq<i32>, Scored>,
    now: Map<Seq<i32>, Scored>,
    k: nat,
)
    requires
        dutiful(f, before, p.rerun_due(g, before, power)),
        extends(now, before),
        k <= p.reruns(),
    ensures
        dutiful(f, now, p.regime(g, k).due(g, now, power)),
{
    let r = p.regime(g, k);
    assert forall|ids: Seq<i32>| #[trigger]
        r.due(g, now, power).contains(ids) && !now.contains_key(ids) implies p.rerun_due(
        g,
        before,
        power,
    ).contains(ids) by {
        let o = choose|o: Oracle| #[trigger]
            agrees(g, o, now) && r.asked(g, o, power).contains(ids);
        lemma_agrees_extended(g, o, before, now);
        assert(p.asked_after(g, o, power, k).contains(ids));
        lemma_reruns_ask_more(p, g, o, power, k, p.reruns());
    }
    lemma_still_dutiful(f, before, p.rerun_due(g, before, power), now, r.due(g, now, power));
}

/// The class start and the seed may be asked for by the search.
proof fn lemma_opening_due<F: FnMut(&[Vec<i32>]) -> Vec<Scored>>(
    f: F,
    p: BeamParams,
    g: Graph,
    before: Map<Seq<i32>, Scored>,
    now: Map<Seq<i32>, Scored>,
    sets: Set<Seq<i32>>,
)
    requires
        dutiful(f, before, p.due(g, before)),
        extends(now, before),
        sets.subset_of(set![seq![g.start]].union(seed_asked(g, p.detour))),
    ensures
        dutiful(f, now, sets),
{
    let o = reading(g, before);
    lemma_reading(g, before);
    assert forall|ids: Seq<i32>| #[trigger]
        sets.contains(ids) && !now.contains_key(ids) implies p.due(g, before).contains(ids) by {
        assert(p.asked(g, o).contains(ids));
        assert(agrees(g, o, before));
    }
    lemma_still_dutiful(f, before, p.due(g, before), now, sets);
}

/// What the passes and diets ask for may be asked for by the search.
proof fn lemma_reruns_due<F: FnMut(&[Vec<i32>]) -> Vec<Scored>>(
    f: F,
    p: BeamParams,
    g: Graph,
    before: Map<Seq<i32>, Scored>,
    now: Map<Seq<i32>, Scored>,
    power: Map<i32, Double>,
)
    requires
        dutiful(f, before, p.due(g, before)),
        extends(now, before),
        forall|o: Oracle| #[trigger]
            agrees(g, o, now) ==> power == seed_power(g, o, p.detour),
    ensures
        dutiful(f, now, p.rerun_due(g, now, power)),
{
    assert forall|ids: Seq<i32>| #[trigger]
        p.rerun_due(g, now, power).contains(ids) && !now.contains_key(ids) implies p.due(
        g,
        before,
    ).contains(ids) by {
        let o = choose|o: Oracle| #[trigger]
            agrees(g, o, now) && p.asked_after(g, o, power, p.reruns()).contains(ids);
        lemma_agrees_extended(g, o, before, now);
        assert(p.asked(g, o).contains(ids));
    }
    lemma_still_dutiful(f, before, p.due(g, before), now, p.rerun_due(g, now, power));
}

/// A pass with its diet for each band of anchors, the best of which wins.
fn run_all<F: FnMut(&[Vec<i32>]) -> Vec<Scored>>(
    g: &Graph,
    params: &BeamParams,
    seed: &PowerSeed,
    pf: &mut Pathfinder,
    memo: &mut Memo,
    evals: &mut usize,
    score: &mut F,
) -> (best: State)
    requires
        dutiful(
            *old(score),
            scored_sets(*old(memo)),
            params.rerun_due(*g, scored_sets(*old(memo)), seed.ppp@),
        ),
        old(pf).wf(),
        old(pf).graph@ == *g,
        params.wf(),
    ensures
        *final(score) == *old(score),
        best.wf(),
        forall|o: Oracle| #[trigger]
            agrees(*g, o, scored_sets(*final(memo))) ==> {
                &&& best@ == params.best_after(*g, o, seed.ppp@, params.reruns())
                &&& learned(
                    *old(score),
                    *g,
                    scored_sets(*old(memo)),
                    scored_sets(*final(memo)),
                    params.asked_after(*g, o, seed.ppp@, params.reruns()),
                )
                &&& batched(
                    *old(score),
                    *g,
                    scored_sets(*old(memo)),
                    scored_sets(*final(memo)),
                    params.batches_after(*g, o, seed.ppp@, params.reruns()),
                )
            },
        counted(
            *old(evals),
            *final(evals),
            scored_sets(*old(memo)),
            scored_sets(*final(memo)),
        ),
{
    let ghost table0 = scored_sets(*memo);
    let ghost power = seed.ppp@;
    let slack = Double::from_bits(ONE_MILLIONTH_BITS);
    let reruns: usize = if params.seed_anchors > 0 {
        params.restarts
    } else {
        0
    };
    let regime = params.regime_of(g, 0);
    proof {
        lemma_rerun_due(*score, *params, *g, power, table0, table0, 0);
    }
    let mut best = run_full(g, &regime, seed, pf, memo, evals, score);
    let mut k: usize = 0;
    while k < reruns
        invariant
            dutiful(*old(score), table0, params.rerun_due(*g, table0, power)),
            reruns == params.reruns(),
            *score == *old(score),
            power == seed.ppp@,
            params.wf(),
            k <= reruns,
            pf.wf(),
            pf.graph@ == *g,
            best.wf(),
            slack == (Double { bits: ONE_MILLIONTH_BITS }),
            counted(*old(evals), *evals, table0, scored_sets(*memo)),
            forall|o: Oracle| #[trigger]
                agrees(*g, o, scored_sets(*memo)) ==> {
                    &&& best@ == params.best_after(*g, o, power, k as nat)
                    &&& learned(
                        *old(score),
                        *g,
                        table0,
                        scored_sets(*memo),
                        params.asked_after(*g, o, power, k as nat),
                    )
                    &&& batched(
                        *old(score),
                        *g,
                        table0,
                        scored_sets(*memo),
                        params.batches_after(*g, o, power, k as nat),
                    )
                },
        decreases reruns - k,
    {
        let ghost table1 = scored_sets(*memo);
        let regime = params.regime_of(g, k + 1);
        proof {
            let o = reading(*g, table1);
            lemma_reading(*g, table1);
            assert(learned(
                *old(score),
                *g,
                table0,
                table1,
                params.asked_after(*g, o, power, k as nat),
            ));
            lemma_rerun_due(*score, *params, *g, power, table0, table1, k as nat + 1);
        }
        let cand = run_full(g, &regime, seed, pf, memo, evals, score);
        let ghost table2 = scored_sets(*memo);
        let ghost cand0 = cand@;
        if best.score.plus(slack).lt(cand.score) {
            best = cand;
        }
        proof {
            assert forall|o: Oracle| #[trigger] agrees(*g, o, table2) implies {
                &&& best@ == params.best_after(*g, o, power, k as nat + 1)
                &&& learned(
                    *old(score),
                    *g,
                    table0,
                    table2,
                    params.asked_after(*g, o, power, k as nat + 1),
                )
                &&& batched(
                    *old(score),
                    *g,
                    table0,
                    table2,
                    params.batches_after(*g, o, power, k as nat + 1),
                )
            } by {
                let more = regime.asked(*g, o, power);
                lemma_agrees_before(*old(score), *g, o, table1, table2, more);
                assert(agrees(*g, o, table1));
                assert(cand0 == regime.outcome(*g, o, power));
                lemma_learned_twice(
                    *old(score),
                    *g,
                    table0,
                    table1,
                    table2,
                    params.asked_after(*g, o, power, k as nat),
                    more,
                );
                lemma_batched_twice(
                    *old(score),
                    *g,
                    table0,
                    table1,
                    table2,
                    params.batches_after(*g, o, power, k as nat),
                    regime.batches(*g, o, power),
                );
            }
        }
        k = k + 1;
    }
    best
}

/// Runs the search with a table of the caller's: one that holds what was scored
/// for the same build before makes the search start warm, and afterwards the table
/// holds what was scored for this search.
///
/// What the table says of the axes counts; the growth score is derived from them
/// whenever the tree carries its weights, so that a table made under other weights
/// stays good.
pub fn optimize_with_memo<F: FnMut(&[Vec<i32>]) -> Vec<Scored>>(
    graph: &Graph,
    params: &BeamParams,
    memo: &mut Memo,
    mut score: F,
) -> (result: BeamResult)
    requires
        dutiful(score, scored_sets(*old(memo)), params.due(*graph, scored_sets(*old(memo)))),
        graph.searchable(),
        params.wf(),
    ensures
        concluded(
            score,
            *graph,
            *params,
            scored_sets(*old(memo)),
            scored_sets(*final(memo)),
            result@,
        ),
        allocation(*graph, result.ids@, params.points(*graph) as nat),
        result.evals == scored_sets(*final(memo)).dom().len() - scored_sets(
            *old(memo),
        ).dom().len(),
        result.memo_entries == scored_sets(*final(memo)).dom().len(),
        forall|keys: Seq<Seq<i32>>| #[trigger]
            lists_keys(keys, scored_sets(*final(memo))) ==> result.memo_bytes_est == capped(
                key_bytes(keys) + 56 * keys.len(),
            ),
{
    let ghost f = score;
    let ghost g = *graph;
    let ghost table0 = scored_sets(*memo);
    let ghost start_asked = set![seq![graph.start]];
    let mut evals: usize = 0;
    let mut pf = Pathfinder::new(graph);
    let start = start_only(graph);
    proof {
        lemma_opening_due(f, *params, g, table0, table0, start_asked);
    }
    let base = score_or_memo(graph, &start.ids, memo, &mut evals, &mut score);
    let ghost table1 = scored_sets(*memo);
    proof {
        lemma_opening_due(f, *params, g, table0, table1, seed_asked(g, params.detour));
    }
    let seed = compute_seed(
        graph,
        base,
        params.detour,
        &mut pf,
        memo,
        &mut evals,
        &mut score,
    );
    let ghost table2 = scored_sets(*memo);
    proof {
        assert forall|o: Oracle| #[trigger] agrees(g, o, table2) implies seed.ppp@ == seed_power(
            g,
            o,
            params.detour,
        ) by {
            lemma_agrees_before(f, g, o, table1, table2, seed_asked(g, params.detour));
            assert(table1.dom().contains(seq![graph.start]));
            assert(table1.contains_key(seq![graph.start]));
            assert(o(seq![graph.start]) == base);
        }
        assert(extends(table2, table0)) by {
            assert forall|ids: Seq<i32>| #[trigger] table0.contains_key(ids) implies (
            table2.contains_key(ids) && table2[ids] == table0[ids]) by {
                assert(table1.contains_key(ids));
            }
        }
        lemma_reruns_due(f, *params, g, table0, table2, seed.ppp@);
    }
    let best = run_all(graph, params, &seed, &mut pf, memo, &mut evals, &mut score);
    let ghost table3 = scored_sets(*memo);
    proof {
        let early = start_asked.union(seed_asked(g, params.detour));
        lemma_learned_twice(
            f,
            g,
            table0,
            table1,
            table2,
            start_asked,
            seed_asked(g, params.detour),
        );
        let lone = seq![seq![g.start]];
        assert(lone.to_set() =~= start_asked) by {
            assert(lone[0] == seq![g.start]);
        }
        let probes = seed_batch(g, params.detour);
        lemma_batched_once(f, g, table0, table1, lone);
        lemma_batched_push(f, g, table0, table1, table2, seq![lone], probes);
        assert(seq![lone].push(probes) =~= seq![lone, probes]);
        assert forall|o: Oracle| #[trigger] agrees(g, o, table3) implies {
            &&& best@ == params.found(g, o)
            &&& learned(f, g, table0, table3, params.asked(g, o))
            &&& batched(f, g, table0, table3, params.batches(g, o))
        } by {
            let late = params.asked_after(g, o, seed.ppp@, params.reruns());
            lemma_agrees_before(f, g, o, table2, table3, late);
            lemma_agrees_before(
                f,
                g,
                o,
                table1,
                table2,
                seed_asked(g, params.detour),
            );
            assert(table1.dom().contains(seq![graph.start]));
            assert(table1.contains_key(seq![graph.start]));
            assert(o(seq![graph.start]) == base);
            assert(agrees(g, o, table2));
            assert(seed.ppp@ == seed_power(g, o, params.detour));
            lemma_learned_twice(f, g, table0, table2, table3, early, late);
            lemma_batched_twice(
                f,
                g,
                table0,
                table2,
                table3,
                seq![lone, probes],
                params.batches_after(g, o, seed.ppp@, params.reruns()),
            );
        }
        let o = reading(g, table3);
        assert(agrees(g, o, table3));
        lemma_search_finds_an_allocation(*params, g, o);
    }
    let entries: usize = memo_len(memo);
    let bytes: usize = estimate_bytes(memo, entries);
    BeamResult {
        ids: best.ids,
        score: best.score,
        dps: best.dps,
        ehp: best.ehp,
        evals,
        memo_entries: entries,
        memo_bytes_est: bytes,
    }
}

/// Runs the search with a table of its own, which it begins with nothing in.
pub fn optimize<F: FnMut(&[Vec<i32>]) -> Vec<Scored>>(
    graph: &Graph,
    params: &BeamParams,
    score: F,
) -> (result: BeamResult)
    requires
        dutiful(score, Map::empty(), params.due(*graph, Map::empty())),
        graph.searchable(),
        params.wf(),
    ensures
        exists|table: Map<Seq<i32>, Scored>|
            {
                &&& #[trigger] concluded(score, *graph, *params, Map::empty(), table, result@)
                &&& result.evals == table.dom().len()
                &&& result.memo_entries == table.dom().len()
                &&& forall|keys: Seq<Seq<i32>>| #[trigger]
                    lists_keys(keys, table) ==> result.memo_bytes_est == capped(
                        key_bytes(keys) + 56 * keys.len(),
                    )
            },
        allocation(*graph, result.ids@, params.points(*graph) as nat),
{
    let ghost f = score;
    let mut memo: Memo = memo_new();
    proof {
        assert(scored_sets(memo) =~= Map::empty());
    }
    let result = optimize_with_memo(graph, params, &mut memo, score);
    proof {
        assert(concluded(
            f,
            *graph,
            *params,
            Map::empty(),
            scored_sets(memo),
            result@,
        ));
    }
    result
}

/// Every node of every kept set takes four bytes.
pub proof fn lemma_key_bytes(keys: Seq<Seq<i32>>, more: Seq<Seq<i32>>, ids: Seq<i32>)
    ensures
        key_bytes(seq![ids]) == 4 * ids.len(),
        key_bytes(keys + more) == key_bytes(keys) + key_bytes(more),
    decreases more.len(),
{
    let one = seq![ids];
    assert(one.drop_last() =~= Seq::empty());
    assert(one.last() == ids);
    assert(key_bytes(one.drop_last()) == 0);
    if more.len() == 0 {
        assert(keys + more =~= keys);
    } else {
        lemma_key_bytes(keys, more.drop_last(), ids);
        assert((keys + more).drop_last() =~= keys + more.drop_last());
    }
}

} // verus!
