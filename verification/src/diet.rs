//! The elimination diet: bans what contributes nothing or least to the best
//! allocation, grows the allocation again, and keeps what came out where it is
//! better.

use crate::course::{Course, Pass};
use crate::double::{Double, ONE_MILLIONTH_BITS};
use crate::expand::{course, PowerSeed};
use crate::fx::{id_set_clone, id_set_contains, id_set_insert, scored_sets, Memo, Scored};
use crate::graph::Graph;
use crate::lists::lemma_contains_push;
use crate::margin::{
    analyze_marginals, is_alloc_leaf, leaf, left_out, margin_asked, marginals, notables, Marginal,
};
use crate::pass::run_beam;
use crate::pathfinder::Pathfinder;
use crate::plan::{Plan, State};
use crate::scorer::{
    agrees, batched, counted, dutiful, extends, learned, lemma_agrees_before,
    lemma_agrees_extended, lemma_batched_once, lemma_batched_twice, lemma_learned_twice,
    lemma_reading, lemma_still_dutiful, reading, Oracle,
};
use rustc_hash::FxHashSet;
use vstd::prelude::*;

verus! {

/// A pass, and how long the diet behind it goes on.
#[derive(Clone, Copy, Debug, PartialEq, Eq)]
pub struct Regime {
    pub pass: Pass,
    /// After how many bans in a row that did not help the diet ends.
    pub patience_max: usize,
    /// After how many rounds the diet ends in any case.
    pub max_rounds: usize,
}

/// How far a diet has come: the best allocation with its penalized score, the
/// nodes that are banned, those that were tried since the last improvement, how
/// many tries did not help, and whether nothing is left to try.
#[verifier::ext_equal]
pub struct Diet {
    pub best: Plan,
    pub banned: Set<i32>,
    pub tried: Set<i32>,
    pub patience: nat,
    pub done: bool,
}

/// An allocation with its penalized score.
pub open spec fn judged_plan(g: Graph, p: Plan) -> Plan {
    Plan {
        ids: p.ids,
        scored: Scored { score: g.judged(p.scored), dps: p.scored.dps, ehp: p.scored.ehp },
    }
}

impl Diet {
    /// Whether a node may be banned next.
    pub open spec fn droppable(self, m: Marginal) -> bool {
        !m.is_enabler && !self.banned.contains(m.id) && !self.tried.contains(m.id)
    }

    /// Whether a node is a leaf that contributes nothing.
    pub open spec fn dead(self, g: Graph, m: Marginal) -> bool {
        &&& self.droppable(m)
        &&& m.marginal.at_most(Double { bits: ONE_MILLIONTH_BITS })
        &&& leaf(g, self.best.ids.to_set(), m.id)
    }

    /// The leaves that contribute nothing.
    pub open spec fn dead_leaves(self, g: Graph, marg: Seq<Marginal>) -> Seq<i32> {
        marg.filter(|m: Marginal| self.dead(g, m)).map_values(|m: Marginal| m.id)
    }

    /// The nodes that may be banned next.
    pub open spec fn suspects(self, marg: Seq<Marginal>) -> Seq<Marginal> {
        marg.filter(|m: Marginal| self.droppable(m))
    }
}

/// Which of two nodes contributes less; the first where they are equal.
pub open spec fn weaker(a: Marginal, b: Marginal) -> Marginal {
    if b.marginal.standing() < a.marginal.standing() {
        b
    } else {
        a
    }
}

/// The first of the nodes that contribute least.
pub open spec fn weakest(all: Seq<Marginal>) -> Marginal {
    all.fold_left(all[0], |a: Marginal, b: Marginal| weaker(a, b))
}

impl Regime {
    /// The course of a pass with some nodes banned.
    pub open spec fn course(self, power: Map<i32, Double>, banned: Set<i32>) -> Course {
        Course { pass: self.pass, power, excluded: banned }
    }

    /// The best allocation of a pass with some nodes banned, with its penalized
    /// score.
    pub open spec fn trial(
        self,
        g: Graph,
        o: Oracle,
        power: Map<i32, Double>,
        banned: Set<i32>,
    ) -> Plan {
        judged_plan(g, self.course(power, banned).outcome(g, o))
    }

    /// The diet before its first round: the outcome of a pass with nothing banned.
    pub open spec fn opening(self, g: Graph, o: Oracle, power: Map<i32, Double>) -> Diet {
        Diet {
            best: self.trial(g, o, power, Set::empty()),
            banned: Set::empty(),
            tried: Set::empty(),
            patience: 0,
            done: false,
        }
    }

    /// One round. Where there are leaves that contribute nothing, they are banned
    /// together for good, and what grows without them is taken unless it is worse.
    /// Otherwise the node that contributes least is banned, and the ban stays
    /// only where what grows without the node is better.
    pub open spec fn round(
        self,
        g: Graph,
        o: Oracle,
        power: Map<i32, Double>,
        d: Diet,
    ) -> Diet {
        let slack = Double { bits: ONE_MILLIONTH_BITS };
        let marg = marginals(g, o, d.best);
        let leaves = d.dead_leaves(g, marg);
        let suspects = d.suspects(marg);
        if leaves.len() > 0 {
            let banned = d.banned.union(leaves.to_set());
            let r = self.trial(g, o, power, banned);
            if d.best.scored.score.difference(slack).at_most(r.scored.score) {
                Diet { best: r, banned, tried: Set::empty(), ..d }
            } else {
                Diet { banned, ..d }
            }
        } else if suspects.len() == 0 {
            Diet { done: true, ..d }
        } else {
            let victim = weakest(suspects).id;
            let banned = d.banned.insert(victim);
            let r = self.trial(g, o, power, banned);
            if d.best.scored.score.sum(slack).below(r.scored.score) {
                Diet { best: r, banned, tried: Set::empty(), patience: 0, ..d }
            } else {
                Diet { tried: d.tried.insert(victim), patience: d.patience + 1, ..d }
            }
        }
    }

    /// The allocations whose scores one round asks for.
    pub open spec fn round_asked(
        self,
        g: Graph,
        o: Oracle,
        power: Map<i32, Double>,
        d: Diet,
    ) -> Set<Seq<i32>> {
        let marg = marginals(g, o, d.best);
        let leaves = d.dead_leaves(g, marg);
        let suspects = d.suspects(marg);
        let asked = margin_asked(g, d.best.ids);
        if leaves.len() > 0 {
            asked.union(self.course(power, d.banned.union(leaves.to_set())).asked(g, o))
        } else if suspects.len() == 0 {
            asked
        } else {
            asked.union(
                self.course(power, d.banned.insert(weakest(suspects).id)).asked(g, o),
            )
        }
    }

    /// The allocations whose scores one round may ask for, as far as a table tells.
    pub open spec fn round_due(
        self,
        g: Graph,
        table: Map<Seq<i32>, Scored>,
        power: Map<i32, Double>,
        d: Diet,
    ) -> Set<Seq<i32>> {
        Set::new(
            |ids: Seq<i32>|
                exists|o: Oracle| #[trigger]
                    agrees(g, o, table) && self.round_asked(g, o, power, d).contains(ids),
        )
    }

    /// The batches in which one round asks for them: the allocations without one
    /// node, and what the pass that follows asks for.
    pub open spec fn round_batches(
        self,
        g: Graph,
        o: Oracle,
        power: Map<i32, Double>,
        d: Diet,
    ) -> Seq<Seq<Seq<i32>>> {
        let marg = marginals(g, o, d.best);
        let leaves = d.dead_leaves(g, marg);
        let suspects = d.suspects(marg);
        let first = seq![left_out(d.best.ids, notables(g, d.best.ids))];
        if leaves.len() > 0 {
            first + self.course(power, d.banned.union(leaves.to_set())).batches(g, o)
        } else if suspects.len() == 0 {
            first
        } else {
            first + self.course(power, d.banned.insert(weakest(suspects).id)).batches(g, o)
        }
    }

    /// Whether the diet goes on.
    pub open spec fn hungry(self, d: Diet) -> bool {
        !d.done && d.patience < self.patience_max
    }

    /// The diet after at most `n` rounds.
    pub open spec fn diet_after(
        self,
        g: Graph,
        o: Oracle,
        power: Map<i32, Double>,
        n: nat,
    ) -> Diet
        decreases n,
    {
        if n == 0 {
            self.opening(g, o, power)
        } else {
            let d = self.diet_after(g, o, power, (n - 1) as nat);
            if self.hungry(d) {
                self.round(g, o, power, d)
            } else {
                d
            }
        }
    }

    /// The allocations whose scores the diet asks for in `n` rounds.
    pub open spec fn diet_asked_after(
        self,
        g: Graph,
        o: Oracle,
        power: Map<i32, Double>,
        n: nat,
    ) -> Set<Seq<i32>>
        decreases n,
    {
        if n == 0 {
            self.course(power, Set::empty()).asked(g, o)
        } else {
            let d = self.diet_after(g, o, power, (n - 1) as nat);
            let asked = self.diet_asked_after(g, o, power, (n - 1) as nat);
            if self.hungry(d) {
                asked.union(self.round_asked(g, o, power, d))
            } else {
                asked
            }
        }
    }

    /// The batches in which the diet asks for them.
    pub open spec fn diet_batches_after(
        self,
        g: Graph,
        o: Oracle,
        power: Map<i32, Double>,
        n: nat,
    ) -> Seq<Seq<Seq<i32>>>
        decreases n,
    {
        if n == 0 {
            self.course(power, Set::empty()).batches(g, o)
        } else {
            let d = self.diet_after(g, o, power, (n - 1) as nat);
            let batches = self.diet_batches_after(g, o, power, (n - 1) as nat);
            if self.hungry(d) {
                batches + self.round_batches(g, o, power, d)
            } else {
                batches
            }
        }
    }

    /// The best allocation of the whole diet.
    pub open spec fn outcome(self, g: Graph, o: Oracle, power: Map<i32, Double>) -> Plan {
        self.diet_after(g, o, power, self.max_rounds as nat).best
    }

    /// The allocations whose scores the whole diet asks for.
    pub open spec fn asked(self, g: Graph, o: Oracle, power: Map<i32, Double>) -> Set<Seq<i32>> {
        self.diet_asked_after(g, o, power, self.max_rounds as nat)
    }

    /// The allocations whose scores the whole diet may ask for, as far as a table
    /// tells.
    pub open spec fn due(
        self,
        g: Graph,
        table: Map<Seq<i32>, Scored>,
        power: Map<i32, Double>,
    ) -> Set<Seq<i32>> {
        Set::new(
            |ids: Seq<i32>|
                exists|o: Oracle| #[trigger]
                    agrees(g, o, table) && self.asked(g, o, power).contains(ids),
        )
    }

    /// The batches in which the whole diet asks for them.
    pub open spec fn batches(
        self,
        g: Graph,
        o: Oracle,
        power: Map<i32, Double>,
    ) -> Seq<Seq<Seq<i32>>> {
        self.diet_batches_after(g, o, power, self.max_rounds as nat)
    }
}

/// A diet that has ended stays as it is.
proof fn lemma_ended(r: Regime, g: Graph, o: Oracle, power: Map<i32, Double>, n: nat, m: nat)
    requires
        !r.hungry(r.diet_after(g, o, power, n)),
        n <= m,
    ensures
        r.diet_after(g, o, power, m) == r.diet_after(g, o, power, n),
        r.diet_asked_after(g, o, power, m) == r.diet_asked_after(g, o, power, n),
        r.diet_batches_after(g, o, power, m) == r.diet_batches_after(g, o, power, n),
    decreases m,
{
    if n < m {
        lemma_ended(r, g, o, power, n, (m - 1) as nat);
    }
}

/// More rounds ask for no fewer allocations.
proof fn lemma_diet_asked_grows(
    r: Regime,
    g: Graph,
    o: Oracle,
    power: Map<i32, Double>,
    n: nat,
    m: nat,
)
    requires
        n <= m,
    ensures
        r.diet_asked_after(g, o, power, n).subset_of(r.diet_asked_after(g, o, power, m)),
    decreases m,
{
    if n < m {
        lemma_diet_asked_grows(r, g, o, power, n, (m - 1) as nat);
    }
}

/// What the first pass asks for may be asked for by the diet.
proof fn lemma_first_due<F: FnMut(&[Vec<i32>]) -> Vec<Scored>>(
    f: F,
    r: Regime,
    g: Graph,
    power: Map<i32, Double>,
    table: Map<Seq<i32>, Scored>,
)
    requires
        dutiful(f, table, r.due(g, table, power)),
    ensures
        dutiful(f, table, r.course(power, Set::empty()).due(g, table)),
{
    let c = r.course(power, Set::empty());
    assert forall|ids: Seq<i32>| #[trigger]
        c.due(g, table).contains(ids) && !table.contains_key(ids) implies r.due(
        g,
        table,
        power,
    ).contains(ids) by {
        let o = choose|o: Oracle| #[trigger] agrees(g, o, table) && c.asked(g, o).contains(ids);
        lemma_diet_asked_grows(r, g, o, power, 0, r.max_rounds as nat);
        assert(r.asked(g, o, power).contains(ids));
    }
    lemma_still_dutiful(f, table, r.due(g, table, power), table, c.due(g, table));
}

/// What a round asks for may be asked for by the diet.
proof fn lemma_round_due<F: FnMut(&[Vec<i32>]) -> Vec<Scored>>(
    f: F,
    r: Regime,
    g: Graph,
    power: Map<i32, Double>,
    before: Map<Seq<i32>, Scored>,
    now: Map<Seq<i32>, Scored>,
    d: Diet,
    n: nat,
)
    requires
        dutiful(f, before, r.due(g, before, power)),
        extends(now, before),
        forall|o: Oracle| #[trigger]
            agrees(g, o, now) ==> d == r.diet_after(g, o, power, n),
        r.hungry(d),
        n < r.max_rounds,
    ensures
        dutiful(f, now, r.round_due(g, now, power, d)),
{
    assert forall|ids: Seq<i32>| #[trigger]
        r.round_due(g, now, power, d).contains(ids) && !now.contains_key(ids) implies r.due(
        g,
        before,
        power,
    ).contains(ids) by {
        let o = choose|o: Oracle| #[trigger]
            agrees(g, o, now) && r.round_asked(g, o, power, d).contains(ids);
        lemma_agrees_extended(g, o, before, now);
        assert(r.diet_asked_after(g, o, power, n + 1).contains(ids));
        lemma_diet_asked_grows(r, g, o, power, n + 1, r.max_rounds as nat);
        assert(r.asked(g, o, power).contains(ids));
    }
    lemma_still_dutiful(
        f,
        before,
        r.due(g, before, power),
        now,
        r.round_due(g, now, power, d),
    );
}

/// The marginals that a round asks for may be asked for by it.
proof fn lemma_margin_due<F: FnMut(&[Vec<i32>]) -> Vec<Scored>>(
    f: F,
    r: Regime,
    g: Graph,
    power: Map<i32, Double>,
    table: Map<Seq<i32>, Scored>,
    d: Diet,
)
    requires
        dutiful(f, table, r.round_due(g, table, power, d)),
    ensures
        dutiful(f, table, margin_asked(g, d.best.ids)),
{
    let o = reading(g, table);
    lemma_reading(g, table);
    assert forall|ids: Seq<i32>| #[trigger]
        margin_asked(g, d.best.ids).contains(ids) && !table.contains_key(ids) implies r.round_due(
        g,
        table,
        power,
        d,
    ).contains(ids) by {
        assert(r.round_asked(g, o, power, d).contains(ids));
        assert(agrees(g, o, table));
    }
    lemma_still_dutiful(
        f,
        table,
        r.round_due(g, table, power, d),
        table,
        margin_asked(g, d.best.ids),
    );
}

/// What the pass of a round asks for may be asked for by the round.
proof fn lemma_trial_due<F: FnMut(&[Vec<i32>]) -> Vec<Scored>>(
    f: F,
    r: Regime,
    g: Graph,
    power: Map<i32, Double>,
    before: Map<Seq<i32>, Scored>,
    now: Map<Seq<i32>, Scored>,
    d: Diet,
    banned: Set<i32>,
)
    requires
        dutiful(f, before, r.round_due(g, before, power, d)),
        extends(now, before),
        forall|o: Oracle| #[trigger]
            agrees(g, o, now) ==> r.course(power, banned).asked(g, o).subset_of(
                r.round_asked(g, o, power, d),
            ),
    ensures
        dutiful(f, now, r.course(power, banned).due(g, now)),
{
    let c = r.course(power, banned);
    assert forall|ids: Seq<i32>| #[trigger]
        c.due(g, now).contains(ids) && !now.contains_key(ids) implies r.round_due(
        g,
        before,
        power,
        d,
    ).contains(ids) by {
        let o = choose|o: Oracle| #[trigger] agrees(g, o, now) && c.asked(g, o).contains(ids);
        lemma_agrees_extended(g, o, before, now);
        assert(r.round_asked(g, o, power, d).contains(ids));
    }
    lemma_still_dutiful(f, before, r.round_due(g, before, power, d), now, c.due(g, now));
}

/// A diet under way.
struct Progress {
    best: State,
    banned: FxHashSet<i32>,
    tried: FxHashSet<i32>,
    patience: usize,
    done: bool,
}

impl View for Progress {
    type V = Diet;

    closed spec fn view(&self) -> Diet {
        Diet {
            best: self.best@,
            banned: self.banned@,
            tried: self.tried@,
            patience: self.patience as nat,
            done: self.done,
        }
    }
}

/// Replaces the growth score of a state by its penalized score.
fn judge(g: &Graph, st: State) -> (judged: State)
    requires
        st.wf(),
    ensures
        judged.wf(),
        judged@ == judged_plan(*g, st@),
{
    let score = g.penalized_score(st.score, st.dps, st.ehp);
    State { ids: st.ids, set: st.set, score, dps: st.dps, ehp: st.ehp }
}

/// The best allocation of a pass with some nodes banned, with its penalized
/// score.
fn try_pass<F: FnMut(&[Vec<i32>]) -> Vec<Scored>>(
    g: &Graph,
    regime: &Regime,
    seed: &PowerSeed,
    banned: &FxHashSet<i32>,
    pf: &mut Pathfinder,
    memo: &mut Memo,
    evals: &mut usize,
    score: &mut F,
) -> (r: State)
    requires
        dutiful(
            *old(score),
            scored_sets(*old(memo)),
            regime.course(seed.ppp@, banned@).due(*g, scored_sets(*old(memo))),
        ),
        old(pf).wf(),
        old(pf).graph@ == *g,
        regime.pass.detour >= 1,
        regime.pass.beam_width + regime.pass.pareto_extra > 0,
    ensures
        *final(score) == *old(score),
        final(pf).wf(),
        final(pf).graph@ == *g,
        r.wf(),
        forall|o: Oracle| #[trigger]
            agrees(*g, o, scored_sets(*final(memo))) ==> {
                &&& r@ == regime.trial(*g, o, seed.ppp@, banned@)
                &&& learned(
                    *old(score),
                    *g,
                    scored_sets(*old(memo)),
                    scored_sets(*final(memo)),
                    regime.course(seed.ppp@, banned@).asked(*g, o),
                )
                &&& batched(
                    *old(score),
                    *g,
                    scored_sets(*old(memo)),
                    scored_sets(*final(memo)),
                    regime.course(seed.ppp@, banned@).batches(*g, o),
                )
            },
        counted(
            *old(evals),
            *final(evals),
            scored_sets(*old(memo)),
            scored_sets(*final(memo)),
        ),
{
    assert(course(regime.pass, *seed, *banned) == regime.course(seed.ppp@, banned@));
    let st = run_beam(g, &regime.pass, seed, banned, pf, memo, evals, score);
    judge(g, st)
}

impl Progress {
    /// Whether a node may be banned next.
    fn is_droppable(&self, m: &Marginal) -> (b: bool)
        ensures
            b == self@.droppable(*m),
    {
        !m.is_enabler && !id_set_contains(&self.banned, m.id) && !id_set_contains(
            &self.tried,
            m.id,
        )
    }

    /// The leaves that contribute nothing.
    fn find_dead_leaves(&self, g: &Graph, marg: &Vec<Marginal>) -> (leaves: Vec<i32>)
        requires
            self.best.wf(),
        ensures
            leaves@ == self@.dead_leaves(*g, marg@),
    {
        let mut leaves: Vec<i32> = Vec::new();
        let mut k: usize = 0;
        proof {
            reveal(Seq::filter);
            assert(marg@.take(0) =~= Seq::empty());
            assert(leaves@ =~= self@.dead_leaves(*g, marg@.take(0)));
        }
        while k < marg.len()
            invariant
                k <= marg@.len(),
                self.best.wf(),
                leaves@ == self@.dead_leaves(*g, marg@.take(k as int)),
            decreases marg@.len() - k,
        {
            let m = &marg[k];
            let ghost done = self@.dead_leaves(*g, marg@.take(k as int));
            proof {
                reveal(Seq::filter);
                assert(marg@.take(k + 1).drop_last() =~= marg@.take(k as int));
                assert(marg@.take(k + 1).last() == *m);
            }
            if self.is_droppable(m) && m.marginal.le(Double::from_bits(ONE_MILLIONTH_BITS))
                && is_alloc_leaf(g, &self.best.set, m.id) {
                assert(self@.dead(*g, *m));
                leaves.push(m.id);
                assert(self@.dead_leaves(*g, marg@.take(k + 1)) =~= done.push(m.id));
            } else {
                assert(!self@.dead(*g, *m));
                assert(self@.dead_leaves(*g, marg@.take(k + 1)) =~= done);
            }
            k = k + 1;
        }
        assert(marg@.take(k as int) =~= marg@);
        leaves
    }

    /// The first of the droppable nodes that contribute least.
    fn find_victim(&self, marg: &Vec<Marginal>) -> (victim: Option<i32>)
        ensures
            match victim {
                Some(id) => {
                    &&& self@.suspects(marg@).len() > 0
                    &&& id == weakest(self@.suspects(marg@)).id
                },
                None => self@.suspects(marg@).len() == 0,
            },
    {
        let mut found: Option<Marginal> = None;
        let mut k: usize = 0;
        let ghost f = |a: Marginal, b: Marginal| weaker(a, b);
        proof {
            reveal(Seq::filter);
            assert(marg@.take(0) =~= Seq::empty());
        }
        while k < marg.len()
            invariant
                k <= marg@.len(),
                f == (|a: Marginal, b: Marginal| weaker(a, b)),
                match found {
                    Some(m) => {
                        &&& self@.suspects(marg@.take(k as int)).len() > 0
                        &&& m == weakest(self@.suspects(marg@.take(k as int)))
                    },
                    None => self@.suspects(marg@.take(k as int)).len() == 0,
                },
            decreases marg@.len() - k,
        {
            let m: Marginal = marg[k];
            let ghost done = self@.suspects(marg@.take(k as int));
            let ghost next = self@.suspects(marg@.take(k + 1));
            proof {
                reveal(Seq::filter);
                assert(marg@.take(k + 1).drop_last() =~= marg@.take(k as int));
                assert(marg@.take(k + 1).last() == m);
            }
            if self.is_droppable(&m) {
                assert(next == done.push(m));
                assert(next.drop_last() =~= done);
                match found {
                    Some(best) => {
                        if m.marginal.seat() < best.marginal.seat() {
                            found = Some(m);
                        }
                        assert(next[0] == done[0]);
                    },
                    None => {
                        found = Some(m);
                        proof {
                            assert(next[0] == m);
                            assert(done.fold_left(next[0], f) == m);
                        }
                    },
                }
            } else {
                assert(next == done);
            }
            k = k + 1;
        }
        assert(marg@.take(k as int) =~= marg@);
        match found {
            Some(m) => Some(m.id),
            None => None,
        }
    }
}

/// A set of ids with more of them.
fn with_ids(set: &FxHashSet<i32>, ids: &Vec<i32>) -> (more: FxHashSet<i32>)
    ensures
        more@ == set@.union(ids@.to_set()),
{
    let mut more = id_set_clone(set);
    let mut k: usize = 0;
    assert(more@ =~= set@.union(ids@.take(0).to_set()));
    while k < ids.len()
        invariant
            k <= ids@.len(),
            more@ == set@.union(ids@.take(k as int).to_set()),
        decreases ids@.len() - k,
    {
        let ghost before = ids@.take(k as int);
        id_set_insert(&mut more, ids[k]);
        proof {
            let next = ids@.take(k + 1);
            let x = ids@[k as int];
            assert(next =~= before.push(x));
            assert forall|y: i32| next.to_set().contains(y) <==> before.to_set().contains(y) || y
                == x by {
                lemma_contains_push(before, x, y);
            }
            assert(more@ =~= set@.union(next.to_set()));
        }
        k = k + 1;
    }
    assert(ids@.take(k as int) =~= ids@);
    more
}

/// One round of the diet.
fn diet_round<F: FnMut(&[Vec<i32>]) -> Vec<Scored>>(
    g: &Graph,
    regime: &Regime,
    seed: &PowerSeed,
    p: Progress,
    pf: &mut Pathfinder,
    memo: &mut Memo,
    evals: &mut usize,
    score: &mut F,
) -> (next: Progress)
    requires
        dutiful(
            *old(score),
            scored_sets(*old(memo)),
            regime.round_due(*g, scored_sets(*old(memo)), seed.ppp@, p@),
        ),
        old(pf).wf(),
        old(pf).graph@ == *g,
        regime.pass.detour >= 1,
        regime.pass.beam_width + regime.pass.pareto_extra > 0,
        p.best.wf(),
        p.patience < regime.patience_max,
    ensures
        *final(score) == *old(score),
        final(pf).wf(),
        final(pf).graph@ == *g,
        next.best.wf(),
        forall|o: Oracle| #[trigger]
            agrees(*g, o, scored_sets(*final(memo))) ==> {
                &&& next@ == regime.round(*g, o, seed.ppp@, p@)
                &&& learned(
                    *old(score),
                    *g,
                    scored_sets(*old(memo)),
                    scored_sets(*final(memo)),
                    regime.round_asked(*g, o, seed.ppp@, p@),
                )
                &&& batched(
                    *old(score),
                    *g,
                    scored_sets(*old(memo)),
                    scored_sets(*final(memo)),
                    regime.round_batches(*g, o, seed.ppp@, p@),
                )
            },
        counted(
            *old(evals),
            *final(evals),
            scored_sets(*old(memo)),
            scored_sets(*final(memo)),
        ),
{
    let ghost table0 = scored_sets(*memo);
    let ghost d = p@;
    let ghost power = seed.ppp@;
    let slack = Double::from_bits(ONE_MILLIONTH_BITS);
    proof {
        lemma_margin_due(*score, *regime, *g, power, table0, d);
    }
    let marg = analyze_marginals(g, &p.best, memo, evals, score);
    let ghost table1 = scored_sets(*memo);
    let ghost asked = left_out(d.best.ids, notables(*g, d.best.ids));
    proof {
        lemma_batched_once(*old(score), *g, table0, table1, asked);
    }
    let leaves = p.find_dead_leaves(g, &marg);
    if leaves.len() > 0 {
        let trial = with_ids(&p.banned, &leaves);
        proof {
            lemma_trial_due(*score, *regime, *g, power, table0, table1, d, trial@);
        }
        let r = try_pass(g, regime, seed, &trial, pf, memo, evals, score);
        let better = p.best.score.minus(slack).le(r.score);
        proof {
            lemma_round_learned(
                *old(score),
                *g,
                *regime,
                power,
                table0,
                table1,
                scored_sets(*memo),
                asked,
                trial@,
            );
        }
        if better {
            Progress {
                best: r,
                banned: trial,
                tried: FxHashSet::default(),
                patience: p.patience,
                done: p.done,
            }
        } else {
            Progress {
                best: p.best,
                banned: trial,
                tried: p.tried,
                patience: p.patience,
                done: p.done,
            }
        }
    } else {
        match p.find_victim(&marg) {
            None => Progress {
                best: p.best,
                banned: p.banned,
                tried: p.tried,
                patience: p.patience,
                done: true,
            },
            Some(victim) => {
                let mut trial = id_set_clone(&p.banned);
                id_set_insert(&mut trial, victim);
                proof {
                    lemma_trial_due(*score, *regime, *g, power, table0, table1, d, trial@);
                }
                let r = try_pass(g, regime, seed, &trial, pf, memo, evals, score);
                let better = p.best.score.plus(slack).lt(r.score);
                proof {
                    lemma_round_learned(
                        *old(score),
                        *g,
                        *regime,
                        power,
                        table0,
                        table1,
                        scored_sets(*memo),
                        asked,
                        trial@,
                    );
                }
                if better {
                    Progress {
                        best: r,
                        banned: trial,
                        tried: FxHashSet::default(),
                        patience: 0,
                        done: p.done,
                    }
                } else {
                    let mut tried = p.tried;
                    id_set_insert(&mut tried, victim);
                    Progress {
                        best: p.best,
                        banned: p.banned,
                        tried,
                        patience: p.patience + 1,
                        done: p.done,
                    }
                }
            },
        }
    }
}

/// What a round has learned when its pass is over.
proof fn lemma_round_learned<F: FnMut(&[Vec<i32>]) -> Vec<Scored>>(
    f: F,
    g: Graph,
    regime: Regime,
    power: Map<i32, Double>,
    table0: Map<Seq<i32>, Scored>,
    table1: Map<Seq<i32>, Scored>,
    table2: Map<Seq<i32>, Scored>,
    asked: Seq<Seq<i32>>,
    banned: Set<i32>,
)
    requires
        learned(f, g, table0, table1, asked.to_set()),
        batched(f, g, table0, table1, seq![asked]),
        forall|o: Oracle| #[trigger]
            agrees(g, o, table2) ==> {
                &&& learned(f, g, table1, table2, regime.course(power, banned).asked(g, o))
                &&& batched(f, g, table1, table2, regime.course(power, banned).batches(g, o))
            },
    ensures
        forall|o: Oracle| #[trigger]
            agrees(g, o, table2) ==> {
                &&& agrees(g, o, table1)
                &&& learned(
                    f,
                    g,
                    table0,
                    table2,
                    asked.to_set().union(regime.course(power, banned).asked(g, o)),
                )
                &&& batched(
                    f,
                    g,
                    table0,
                    table2,
                    seq![asked] + regime.course(power, banned).batches(g, o),
                )
            },
{
    assert forall|o: Oracle| #[trigger] agrees(g, o, table2) implies {
        &&& agrees(g, o, table1)
        &&& learned(
            f,
            g,
            table0,
            table2,
            asked.to_set().union(regime.course(power, banned).asked(g, o)),
        )
        &&& batched(
            f,
            g,
            table0,
            table2,
            seq![asked] + regime.course(power, banned).batches(g, o),
        )
    } by {
        let c = regime.course(power, banned);
        lemma_agrees_before(f, g, o, table1, table2, c.asked(g, o));
        lemma_learned_twice(f, g, table0, table1, table2, asked.to_set(), c.asked(g, o));
        lemma_batched_twice(f, g, table0, table1, table2, seq![asked], c.batches(g, o));
    }
}

/// A pass and the diet behind it, from one band of anchors.
pub fn run_full<F: FnMut(&[Vec<i32>]) -> Vec<Scored>>(
    g: &Graph,
    regime: &Regime,
    seed: &PowerSeed,
    pf: &mut Pathfinder,
    memo: &mut Memo,
    evals: &mut usize,
    score: &mut F,
) -> (best: State)
    requires
        dutiful(
            *old(score),
            scored_sets(*old(memo)),
            regime.due(*g, scored_sets(*old(memo)), seed.ppp@),
        ),
        old(pf).wf(),
        old(pf).graph@ == *g,
        regime.pass.detour >= 1,
        regime.pass.beam_width + regime.pass.pareto_extra > 0,
    ensures
        *final(score) == *old(score),
        final(pf).wf(),
        final(pf).graph@ == *g,
        best.wf(),
        forall|o: Oracle| #[trigger]
            agrees(*g, o, scored_sets(*final(memo))) ==> {
                &&& best@ == regime.outcome(*g, o, seed.ppp@)
                &&& learned(
                    *old(score),
                    *g,
                    scored_sets(*old(memo)),
                    scored_sets(*final(memo)),
                    regime.asked(*g, o, seed.ppp@),
                )
                &&& batched(
                    *old(score),
                    *g,
                    scored_sets(*old(memo)),
                    scored_sets(*final(memo)),
                    regime.batches(*g, o, seed.ppp@),
                )
            },
        counted(
            *old(evals),
            *final(evals),
            scored_sets(*old(memo)),
            scored_sets(*final(memo)),
        ),
{
    let ghost table0 = scored_sets(*memo);
    let ghost power = seed.ppp@;
    let banned: FxHashSet<i32> = FxHashSet::default();
    assert(banned@ =~= Set::empty());
    proof {
        lemma_first_due(*score, *regime, *g, power, table0);
    }
    let first = try_pass(g, regime, seed, &banned, pf, memo, evals, score);
    let mut p = Progress {
        best: first,
        banned,
        tried: FxHashSet::default(),
        patience: 0,
        done: false,
    };
    assert(p.tried@ =~= Set::empty());
    let mut round: usize = 0;
    while round < regime.max_rounds && p.patience < regime.patience_max && !p.done
        invariant
            dutiful(*old(score), table0, regime.due(*g, table0, power)),
            *score == *old(score),
            power == seed.ppp@,
            regime.pass.detour >= 1,
            regime.pass.beam_width + regime.pass.pareto_extra > 0,
            round <= regime.max_rounds,
            pf.wf(),
            pf.graph@ == *g,
            p.best.wf(),
            counted(*old(evals), *evals, table0, scored_sets(*memo)),
            forall|o: Oracle| #[trigger]
                agrees(*g, o, scored_sets(*memo)) ==> {
                    &&& p@ == regime.diet_after(*g, o, power, round as nat)
                    &&& learned(
                        *old(score),
                        *g,
                        table0,
                        scored_sets(*memo),
                        regime.diet_asked_after(*g, o, power, round as nat),
                    )
                    &&& batched(
                        *old(score),
                        *g,
                        table0,
                        scored_sets(*memo),
                        regime.diet_batches_after(*g, o, power, round as nat),
                    )
                },
        decreases regime.max_rounds - round,
    {
        let ghost table1 = scored_sets(*memo);
        let ghost d = p@;
        proof {
            let o = reading(*g, table1);
            lemma_reading(*g, table1);
            assert(learned(
                *old(score),
                *g,
                table0,
                table1,
                regime.diet_asked_after(*g, o, power, round as nat),
            ));
            lemma_round_due(*score, *regime, *g, power, table0, table1, d, round as nat);
        }
        p = diet_round(g, regime, seed, p, pf, memo, evals, score);
        let ghost table2 = scored_sets(*memo);
        proof {
            assert forall|o: Oracle| #[trigger] agrees(*g, o, table2) implies {
                &&& p@ == regime.diet_after(*g, o, power, round as nat + 1)
                &&& learned(
                    *old(score),
                    *g,
                    table0,
                    table2,
                    regime.diet_asked_after(*g, o, power, round as nat + 1),
                )
                &&& batched(
                    *old(score),
                    *g,
                    table0,
                    table2,
                    regime.diet_batches_after(*g, o, power, round as nat + 1),
                )
            } by {
                let more = regime.round_asked(*g, o, power, d);
                lemma_agrees_before(*old(score), *g, o, table1, table2, more);
                assert(agrees(*g, o, table1));
                assert(d == regime.diet_after(*g, o, power, round as nat));
                assert(regime.hungry(d));
                lemma_learned_twice(
                    *old(score),
                    *g,
                    table0,
                    table1,
                    table2,
                    regime.diet_asked_after(*g, o, power, round as nat),
                    more,
                );
                lemma_batched_twice(
                    *old(score),
                    *g,
                    table0,
                    table1,
                    table2,
                    regime.diet_batches_after(*g, o, power, round as nat),
                    regime.round_batches(*g, o, power, d),
                );
            }
        }
        round = round + 1;
    }
    proof {
        let table = scored_sets(*memo);
        assert forall|o: Oracle| #[trigger] agrees(*g, o, table) implies {
            &&& p.best@ == regime.outcome(*g, o, power)
            &&& learned(*old(score), *g, table0, table, regime.asked(*g, o, power))
            &&& batched(*old(score), *g, table0, table, regime.batches(*g, o, power))
        } by {
            let d = regime.diet_after(*g, o, power, round as nat);
            assert(p@ == d);
            if round < regime.max_rounds {
                assert(!regime.hungry(d));
                lemma_ended(*regime, *g, o, power, round as nat, regime.max_rounds as nat);
            }
        }
    }
    p.best
}

} // verus!
