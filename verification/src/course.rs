//! What one pass of the beam computes: from which allocations it starts, how it
//! extends them, and which of them it keeps.

use crate::double::{Double, NEG_INFINITY_BITS};
use crate::fx::Scored;
use crate::graph::Graph;
use crate::lists::{at_most_first, behind, distinct};
use crate::order::{listing, sorted_by_key};
use crate::paths::{routes, Query, Routes};
use crate::plan::{selected, Plan};
use crate::scorer::{agrees, Oracle};
use vstd::prelude::*;

verus! {

/// The tunables of one pass.
#[derive(Clone, Copy, Debug, PartialEq, Eq)]
pub struct Pass {
    /// How many points an allocation may spend.
    pub cap_points: usize,
    /// How many allocations are kept by score.
    pub beam_width: usize,
    /// How many points one jump may spend.
    pub max_jump: usize,
    /// How many more allocations are kept because nothing kept beats them.
    pub pareto_extra: usize,
    /// How many jumps to notables an allocation may make, 0 for any number.
    pub max_jump_cand: usize,
    /// How many anchored allocations the pass starts from besides the class start.
    pub seed_anchors: usize,
    /// How many of the best anchors are passed over.
    pub anchor_offset: usize,
    /// What stepping on a banned node weighs.
    pub detour: i64,
}

/// A pass with what steers it: the power of each target and the banned targets.
pub struct Course {
    pub pass: Pass,
    pub power: Map<i32, Double>,
    pub excluded: Set<i32>,
}

/// The nodes `ids` and `add`, in ascending order.
pub open spec fn grown(ids: Seq<i32>, add: Seq<i32>) -> Seq<i32> {
    listing(ids.to_set().union(add.to_set()))
}

/// An allocation as the oracle knows it.
pub open spec fn known_plan(o: Oracle, ids: Seq<i32>) -> Plan {
    Plan { ids, scored: o(ids) }
}

/// Those of the allocations that have a score.
pub open spec fn scored_plans(o: Oracle, sets: Seq<Seq<i32>>) -> Seq<Plan> {
    sets.map_values(|ids: Seq<i32>| known_plan(o, ids)).filter(
        |p: Plan| p.scored.score.finite(),
    )
}

/// Allocations from the best score to the worst.
pub open spec fn best_first(all: Seq<Plan>) -> Seq<Plan> {
    sorted_by_key(all, |p: Plan| p.scored.score.standing())
}

impl Course {
    /// Whether a node may be chosen for its own sake.
    pub open spec fn targetable(self, g: Graph, v: i32) -> bool {
        g.target(v) && !self.excluded.contains(v)
    }

    /// The question for the routes from some nodes.
    pub open spec fn query(self, nodes: Set<i32>) -> Query {
        Query { frontier: nodes, excluded: self.excluded, detour: self.pass.detour as nat }
    }

    /// The power of a target; one that was not measured ranks below all others.
    pub open spec fn worth(self, id: i32) -> Double {
        if self.power.contains_key(id) {
            self.power[id]
        } else {
            Double { bits: NEG_INFINITY_BITS }
        }
    }

    /// Targets from the most powerful to the least.
    pub open spec fn by_power(self, targets: Seq<i32>) -> Seq<i32> {
        sorted_by_key(targets, |t: i32| self.worth(t).standing())
    }

    /// The steps along `links` to targetable nodes that `ids` does not hold.
    pub open spec fn steps(self, g: Graph, ids: Seq<i32>, links: Seq<i32>) -> Seq<Seq<i32>> {
        links.filter(|v: i32| !ids.contains(v) && self.targetable(g, v)).map_values(
            |v: i32| seq![v],
        )
    }

    /// The steps to adjacent nodes, from each of `from` in turn.
    pub open spec fn singles(self, g: Graph, ids: Seq<i32>, from: Seq<i32>) -> Seq<Seq<i32>> {
        from.map_values(|id: i32| self.steps(g, ids, g.links_from(id))).flatten()
    }

    /// Whether an allocation may jump to `t` over the routes `r`.
    pub open spec fn jumpable(self, g: Graph, ids: Seq<i32>, r: Routes, t: i32) -> bool {
        &&& !ids.contains(t)
        &&& r.hops[t] >= 2
        &&& r.hops[t] <= self.pass.max_jump
        &&& ids.len() - 1 + r.hops[t] <= self.pass.cap_points
        &&& self.targetable(g, t)
        &&& g.notable(t)
    }

    /// The targets that an allocation may jump to.
    pub open spec fn jumps(self, g: Graph, ids: Seq<i32>, r: Routes, order: Seq<i32>) -> Seq<i32> {
        order.filter(|t: i32| self.jumpable(g, ids, r, t))
    }

    /// Where there are too many targets, all keystones and the most powerful of
    /// the others.
    pub open spec fn kept_jumps(self, g: Graph, targets: Seq<i32>) -> Seq<i32> {
        if self.pass.max_jump_cand > 0 && targets.len() > self.pass.max_jump_cand {
            targets.filter(|t: i32| g.keystone(t)) + at_most_first(
                self.by_power(targets.filter(|t: i32| !g.keystone(t))),
                self.pass.max_jump_cand as nat,
            )
        } else {
            targets
        }
    }

    /// What an allocation may add: an adjacent node, or the route to a target.
    pub open spec fn moves(self, g: Graph, ids: Seq<i32>) -> Seq<Seq<i32>> {
        let r = routes(g, self.query(ids.to_set()));
        self.singles(g, ids, ids) + self.kept_jumps(g, self.jumps(g, ids, r, r.order)).map_values(
            |t: i32| r.path(t),
        )
    }

    /// Whether the points allow an allocation to add some nodes.
    pub open spec fn affordable(self, ids: Seq<i32>, add: Seq<i32>) -> bool {
        add.len() > 0 && ids.len() - 1 + add.len() <= self.pass.cap_points
    }

    /// The allocations that some additions lead to.
    pub open spec fn reached_by(
        self,
        ids: Seq<i32>,
        additions: Seq<Seq<i32>>,
    ) -> Seq<Seq<i32>> {
        additions.filter(|add: Seq<i32>| self.affordable(ids, add)).map_values(
            |add: Seq<i32>| grown(ids, add),
        )
    }

    /// What an allocation leads to. One that has spent all points stays as it is.
    pub open spec fn extensions(self, g: Graph, ids: Seq<i32>) -> Seq<Seq<i32>> {
        if ids.len() - 1 >= self.pass.cap_points {
            seq![ids]
        } else {
            self.reached_by(ids, self.moves(g, ids))
        }
    }

    /// What all allocations of a beam lead to, with repetitions.
    pub open spec fn proposals(self, g: Graph, beam: Seq<Plan>) -> Seq<Seq<i32>> {
        beam.map_values(|p: Plan| self.extensions(g, p.ids)).flatten()
    }

    /// What the allocations of a beam lead to, each once.
    pub open spec fn candidates(self, g: Graph, beam: Seq<Plan>) -> Seq<Seq<i32>> {
        distinct(self.proposals(g, beam))
    }

    /// The beam after one step. Where no candidate has a score it stays.
    pub open spec fn next(self, g: Graph, o: Oracle, beam: Seq<Plan>) -> Seq<Plan> {
        let scored = scored_plans(o, self.candidates(g, beam));
        if scored.len() == 0 {
            beam
        } else {
            selected(
                best_first(scored),
                self.pass.beam_width as nat,
                self.pass.pareto_extra as nat,
            )
        }
    }

    /// Whether a target can anchor an allocation.
    pub open spec fn anchorable(self, g: Graph, r: Routes, t: i32) -> bool {
        &&& 1 <= r.hops[t] <= self.pass.cap_points
        &&& t != g.start
        &&& self.targetable(g, t)
        &&& self.worth(t).finite()
    }

    /// The targets that can anchor an allocation, in the order of `order`.
    pub open spec fn anchors(self, g: Graph, r: Routes, order: Seq<i32>) -> Seq<i32> {
        order.filter(|t: i32| self.anchorable(g, r, t))
    }

    /// The chosen anchors: targets in descending order of power, behind those that
    /// are passed over.
    pub open spec fn chosen(self, g: Graph, r: Routes) -> Seq<i32> {
        at_most_first(
            behind(
                self.by_power(self.anchors(g, r, r.order)),
                self.pass.anchor_offset as nat,
            ),
            self.pass.seed_anchors as nat,
        )
    }

    /// The anchored allocations: the class start with the route to one of the
    /// chosen targets.
    pub open spec fn anchored(self, g: Graph) -> Seq<Seq<i32>> {
        let r = routes(g, self.query(set![g.start]));
        self.chosen(g, r).map_values(|t: i32| grown(seq![g.start], r.path(t)))
    }

    /// The beam before the first step: the class start, and the anchored
    /// allocations that have a score.
    pub open spec fn first_beam(self, g: Graph, o: Oracle) -> Seq<Plan> {
        seq![known_plan(o, seq![g.start])] + scored_plans(o, self.anchored(g))
    }

    /// The beam after `n` steps.
    pub open spec fn beam_after(self, g: Graph, o: Oracle, n: nat) -> Seq<Plan>
        decreases n,
    {
        if n == 0 {
            self.first_beam(g, o)
        } else {
            self.next(g, o, self.beam_after(g, o, (n - 1) as nat))
        }
    }

    /// The allocations whose scores are asked for in `n` steps.
    pub open spec fn asked_after(self, g: Graph, o: Oracle, n: nat) -> Set<Seq<i32>>
        decreases n,
    {
        if n == 0 {
            set![seq![g.start]].union(self.anchored(g).to_set())
        } else {
            self.asked_after(g, o, (n - 1) as nat).union(
                self.candidates(g, self.beam_after(g, o, (n - 1) as nat)).to_set(),
            )
        }
    }

    /// The batches in which they are asked for: the class start, the anchored
    /// allocations, and the candidates of each step.
    pub open spec fn batches_after(self, g: Graph, o: Oracle, n: nat) -> Seq<Seq<Seq<i32>>>
        decreases n,
    {
        if n == 0 {
            seq![seq![seq![g.start]], self.anchored(g)]
        } else {
            self.batches_after(g, o, (n - 1) as nat).push(
                self.candidates(g, self.beam_after(g, o, (n - 1) as nat)),
            )
        }
    }

    /// The best allocation of the pass.
    pub open spec fn outcome(self, g: Graph, o: Oracle) -> Plan {
        self.beam_after(g, o, self.pass.cap_points as nat)[0]
    }

    /// The allocations whose scores the pass asks for.
    pub open spec fn asked(self, g: Graph, o: Oracle) -> Set<Seq<i32>> {
        self.asked_after(g, o, self.pass.cap_points as nat)
    }

    /// The allocations whose scores the pass may ask for, as far as a table tells.
    pub open spec fn due(self, g: Graph, table: Map<Seq<i32>, Scored>) -> Set<Seq<i32>> {
        Set::new(
            |ids: Seq<i32>|
                exists|o: Oracle| #[trigger] agrees(g, o, table) && self.asked(g, o).contains(ids),
        )
    }

    /// The batches in which the pass asks for them.
    pub open spec fn batches(self, g: Graph, o: Oracle) -> Seq<Seq<Seq<i32>>> {
        self.batches_after(g, o, self.pass.cap_points as nat)
    }
}

/// A beam that a step does not change stays for good.
pub proof fn lemma_settled_beam(c: Course, g: Graph, o: Oracle, n: nat, m: nat)
    requires
        c.next(g, o, c.beam_after(g, o, n)) == c.beam_after(g, o, n),
        m >= n,
    ensures
        c.beam_after(g, o, m) == c.beam_after(g, o, n),
        m > n ==> c.asked_after(g, o, m) =~= c.asked_after(g, o, n + 1),
    decreases m,
{
    if m > n {
        lemma_settled_beam(c, g, o, n, (m - 1) as nat);
        if m > n + 1 {
            let beam = c.beam_after(g, o, n);
            assert(c.beam_after(g, o, (m - 1) as nat) == beam);
            assert(c.asked_after(g, o, n + 1) == c.asked_after(g, o, n).union(
                c.candidates(g, beam).to_set(),
            ));
        }
    }
}

/// More steps ask for no fewer allocations.
pub proof fn lemma_asked_grows(c: Course, g: Graph, o: Oracle, n: nat, m: nat)
    requires
        n <= m,
    ensures
        c.asked_after(g, o, n).subset_of(c.asked_after(g, o, m)),
    decreases m,
{
    if n < m {
        lemma_asked_grows(c, g, o, n, (m - 1) as nat);
    }
}

} // verus!
