//! The moves of a beam pass: what each allocation can be extended to.

use crate::course::{grown, Course, Pass};
use crate::double::{Double, NEG_INFINITY_BITS};
use crate::fx::{
    id_map_get, id_set_clone, id_set_contains, id_set_insert, listed_sets, seen_insert, seen_new,
};
use crate::graph::Graph;
use crate::lists::{at_most_first, distinct};
use crate::node_index::NodeIndex;
use crate::order::{ascending, lemma_sorted_among, list_ids, rank_descending, ranking};
use crate::pathfinder::Pathfinder;
use crate::paths::{routes, Routes};
use crate::plan::{all_wf, plans, Plan, State};
use crate::scorer::{copy_ids, deep};
use crate::sweep::{names, PathResult};
use rustc_hash::{FxHashMap, FxHashSet};
use vstd::prelude::*;

verus! {

broadcast use vstd::std_specs::hash::group_hash_axioms;

/// The power of the targets: what allocating a target with the route to it gains
/// over the class start, per point spent.
pub struct PowerSeed {
    pub ppp: FxHashMap<i32, Double>,
}

impl PowerSeed {
    /// The power of a target; one that was not measured ranks below all others.
    pub fn power(&self, id: i32) -> (d: Double)
        ensures
            d == (if self.ppp@.contains_key(id) {
                self.ppp@[id]
            } else {
                Double { bits: NEG_INFINITY_BITS }
            }),
    {
        match id_map_get(&self.ppp, id) {
            Some(d) => *d,
            None => Double::from_bits(NEG_INFINITY_BITS),
        }
    }
}

/// The course that a pass takes with this seed and these bans.
pub open spec fn course(pass: Pass, seed: PowerSeed, excluded: FxHashSet<i32>) -> Course {
    Course { pass, power: seed.ppp@, excluded: excluded@ }
}

/// Whether a node may be chosen for its own sake.
fn is_targetable(g: &Graph, excluded: &FxHashSet<i32>, v: i32) -> (b: bool)
    ensures
        b == (g.target(v) && !excluded@.contains(v)),
{
    g.is_target(v) && !id_set_contains(excluded, v)
}

/// Appends the steps along `links`.
fn push_steps(
    g: &Graph,
    st: &State,
    links: &Vec<i32>,
    excluded: &FxHashSet<i32>,
    out: &mut Vec<Vec<i32>>,
    Ghost(c): Ghost<Course>,
)
    requires
        st.wf(),
        c.excluded == excluded@,
    ensures
        deep(final(out)@) == deep(old(out)@) + c.steps(*g, st.ids@, links@),
{
    let ghost out0 = deep(out@);
    let mut k: usize = 0;
    proof {
        reveal(Seq::filter);
        assert(links@.take(0) =~= Seq::empty());
        assert(deep(out@) =~= out0 + c.steps(*g, st.ids@, links@.take(0)));
    }
    while k < links.len()
        invariant
            k <= links@.len(),
            st.wf(),
            c.excluded == excluded@,
            deep(out@) == out0 + c.steps(*g, st.ids@, links@.take(k as int)),
        decreases links@.len() - k,
    {
        let v: i32 = links[k];
        let ghost before = out@;
        let ghost done = c.steps(*g, st.ids@, links@.take(k as int));
        proof {
            reveal(Seq::filter);
            assert(links@.take(k + 1).drop_last() =~= links@.take(k as int));
            assert(links@.take(k + 1).last() == v);
            assert(st.ids@.to_set().contains(v) <==> st.ids@.contains(v));
        }
        if !id_set_contains(&st.set, v) && is_targetable(g, excluded, v) {
            let mut step: Vec<i32> = Vec::new();
            step.push(v);
            out.push(step);
            proof {
                assert(step@ =~= seq![v]);
                assert(c.steps(*g, st.ids@, links@.take(k + 1)) =~= done.push(seq![v]));
                assert(deep(out@) =~= deep(before).push(seq![v]));
                assert(deep(out@) =~= out0 + done.push(seq![v]));
            }
        } else {
            assert(c.steps(*g, st.ids@, links@.take(k + 1)) =~= done);
        }
        k = k + 1;
    }
    assert(links@.take(k as int) =~= links@);
}

/// The steps to adjacent targetable nodes.
fn single_moves(
    g: &Graph,
    st: &State,
    excluded: &FxHashSet<i32>,
    Ghost(c): Ghost<Course>,
) -> (out: Vec<Vec<i32>>)
    requires
        st.wf(),
        c.excluded == excluded@,
    ensures
        deep(out@) == c.singles(*g, st.ids@, st.ids@),
{
    let mut out: Vec<Vec<i32>> = Vec::new();
    let mut i: usize = 0;
    assert(deep(out@) =~= c.singles(*g, st.ids@, st.ids@.take(0)));
    while i < st.ids.len()
        invariant
            i <= st.ids@.len(),
            st.wf(),
            c.excluded == excluded@,
            deep(out@) == c.singles(*g, st.ids@, st.ids@.take(i as int)),
        decreases st.ids@.len() - i,
    {
        let id: i32 = st.ids[i];
        let ghost before = deep(out@);
        match g.links.get(&id) {
            Some(links) => {
                push_steps(g, st, links, excluded, &mut out, Ghost(c));
            },
            None => {
                proof {
                    reveal(Seq::filter);
                    assert(c.steps(*g, st.ids@, g.links_from(id)) =~= Seq::empty());
                    assert(before =~= before + c.steps(*g, st.ids@, g.links_from(id)));
                }
            },
        }
        proof {
            let row = |id: i32| c.steps(*g, st.ids@, g.links_from(id));
            let rows = st.ids@.take(i as int).map_values(row);
            assert(st.ids@.take(i + 1).map_values(row) =~= rows.push(row(id)));
            rows.lemma_flatten_push(row(id));
        }
        i = i + 1;
    }
    assert(st.ids@.take(i as int) =~= st.ids@);
    out
}

/// The indices of the targets that an allocation may jump to.
fn jump_targets(
    g: &Graph,
    pass: &Pass,
    st: &State,
    excluded: &FxHashSet<i32>,
    idx: &NodeIndex,
    paths: &PathResult,
    Ghost(c): Ghost<Course>,
) -> (out: Vec<u32>)
    requires
        st.wf(),
        st.ids@.len() >= 1,
        st.ids@.len() - 1 < pass.cap_points,
        c.pass == *pass,
        c.excluded == excluded@,
        paths.holds(idx),
        paths.routes@.order.to_set() == paths.routes@.weight.dom(),
    ensures
        names(idx, out@) == c.jumps(*g, st.ids@, paths.routes@, paths.routes@.order),
        forall|k: int| 0 <= k < out@.len() ==> (#[trigger] out@[k]) < idx.id_of@.len(),
{
    let ghost r = paths.routes@;
    let points_left: usize = pass.cap_points - (st.ids.len() - 1);
    let mut out: Vec<u32> = Vec::new();
    let mut k: usize = 0;
    proof {
        reveal(Seq::filter);
        assert(r.order.take(0) =~= Seq::empty());
        assert(names(idx, out@) =~= c.jumps(*g, st.ids@, r, r.order.take(0)));
    }
    while k < paths.reached.len()
        invariant
            k <= paths.reached@.len(),
            r == paths.routes@,
            st.wf(),
            st.ids@.len() >= 1,
            points_left == pass.cap_points - (st.ids@.len() - 1),
            c.pass == *pass,
            c.excluded == excluded@,
            paths.holds(idx),
            r.order.to_set() == r.weight.dom(),
            names(idx, out@) == c.jumps(*g, st.ids@, r, r.order.take(k as int)),
            forall|j: int| 0 <= j < out@.len() ==> (#[trigger] out@[j]) < idx.id_of@.len(),
        decreases paths.reached@.len() - k,
    {
        let ridx: u32 = paths.reached[k];
        let tid: i32 = idx.id_of[ridx as usize];
        let d: usize = paths.pdist[ridx as usize];
        let ghost before = out@;
        proof {
            reveal(Seq::filter);
            assert(r.order.take(k + 1).drop_last() =~= r.order.take(k as int));
            assert(r.order.take(k + 1).last() == tid);
            assert(paths.says(idx, ridx as int));
            assert(r.order.contains(r.order[k as int]));
            assert(r.order.to_set().contains(tid));
            assert(r.reaches(tid));
            assert(st.ids@.to_set().contains(tid) <==> st.ids@.contains(tid));
        }
        if !id_set_contains(&st.set, tid) && d >= 2 && d <= pass.max_jump && d <= points_left
            && is_targetable(g, excluded, tid) && g.is_notable(tid) {
            assert(c.jumpable(*g, st.ids@, r, tid));
            out.push(ridx);
            assert(names(idx, out@) =~= names(idx, before).push(tid));
        } else {
            assert(!c.jumpable(*g, st.ids@, r, tid));
        }
        k = k + 1;
    }
    assert(r.order.take(k as int) =~= r.order);
    out
}

/// Targets from the most powerful to the least.
pub(crate) fn rank_targets(
    seed: &PowerSeed,
    idx: &NodeIndex,
    targets: &Vec<u32>,
    Ghost(c): Ghost<Course>,
) -> (out: Vec<u32>)
    requires
        c.power == seed.ppp@,
        forall|k: int| 0 <= k < targets@.len() ==> (#[trigger] targets@[k]) < idx.id_of@.len(),
    ensures
        names(idx, out@) == c.by_power(names(idx, targets@)),
        forall|k: int| 0 <= k < out@.len() ==> (#[trigger] out@[k]) < idx.id_of@.len(),
        out@.len() == targets@.len(),
{
    let ghost key = |t: i32| c.worth(t).standing();
    let mut keys: Vec<i64> = Vec::with_capacity(targets.len());
    let mut i: usize = 0;
    while i < targets.len()
        invariant
            i <= targets@.len(),
            keys@.len() == i,
            c.power == seed.ppp@,
            key == (|t: i32| c.worth(t).standing()),
            forall|k: int| 0 <= k < targets@.len() ==> (#[trigger] targets@[k]) < idx.id_of@.len(),
            forall|k: int| 0 <= k < i ==> (#[trigger] keys@[k]) > i64::MIN,
            forall|k: int| 0 <= k < i ==> (#[trigger] keys@[k]) == key(names(idx, targets@)[k]),
        decreases targets@.len() - i,
    {
        let id: i32 = idx.id_of[targets[i] as usize];
        keys.push(seed.power(id).seat());
        assert(names(idx, targets@)[i as int] == id);
        i = i + 1;
    }
    let p: Vec<usize> = rank_descending(&keys);
    let ghost order = p@.map_values(|i: usize| i as int);
    proof {
        assert(keys@.map_values(|k: i64| k as int) =~= names(idx, targets@).map_values(key));
    }
    let mut out: Vec<u32> = Vec::with_capacity(targets.len());
    let mut i: usize = 0;
    while i < p.len()
        invariant
            i <= p@.len(),
            out@.len() == i,
            p@.len() == targets@.len(),
            forall|k: int| 0 <= k < p@.len() ==> 0 <= #[trigger] p@[k] < targets@.len(),
            forall|k: int| 0 <= k < i ==> #[trigger] out@[k] == targets@[p@[k] as int],
        decreases p@.len() - i,
    {
        out.push(targets[p[i]]);
        i = i + 1;
    }
    proof {
        let items = names(idx, targets@);
        assert(order == ranking(items.map_values(key)));
        assert(names(idx, out@) =~= order.map_values(|i: int| items[i]));
        assert forall|k: int| 0 <= k < out@.len() implies (#[trigger] out@[k])
            < idx.id_of@.len() by {
            assert(targets@[p@[k] as int] < idx.id_of@.len());
        }
    }
    out
}

/// The targets that are keystones, or those that are not.
fn keystones(g: &Graph, idx: &NodeIndex, targets: &Vec<u32>, wanted: bool) -> (out: Vec<u32>)
    requires
        forall|k: int| 0 <= k < targets@.len() ==> (#[trigger] targets@[k]) < idx.id_of@.len(),
    ensures
        names(idx, out@) == names(idx, targets@).filter(|t: i32| g.keystone(t) == wanted),
        forall|k: int| 0 <= k < out@.len() ==> (#[trigger] out@[k]) < idx.id_of@.len(),
{
    let ghost pred = |t: i32| g.keystone(t) == wanted;
    let ghost items = names(idx, targets@);
    let mut out: Vec<u32> = Vec::new();
    let mut i: usize = 0;
    proof {
        reveal(Seq::filter);
        assert(items.take(0) =~= Seq::empty());
        assert(names(idx, out@) =~= items.take(0).filter(pred));
    }
    while i < targets.len()
        invariant
            i <= targets@.len(),
            pred == (|t: i32| g.keystone(t) == wanted),
            items == names(idx, targets@),
            names(idx, out@) == items.take(i as int).filter(pred),
            forall|k: int| 0 <= k < targets@.len() ==> (#[trigger] targets@[k]) < idx.id_of@.len(),
            forall|k: int| 0 <= k < out@.len() ==> (#[trigger] out@[k]) < idx.id_of@.len(),
        decreases targets@.len() - i,
    {
        let t: u32 = targets[i];
        let id: i32 = idx.id_of[t as usize];
        let ghost before = out@;
        proof {
            reveal(Seq::filter);
            assert(items.take(i + 1).drop_last() =~= items.take(i as int));
            assert(items.take(i + 1).last() == id);
        }
        if g.is_keystone(id) == wanted {
            out.push(t);
            assert(names(idx, out@) =~= names(idx, before).push(id));
        }
        i = i + 1;
    }
    assert(items.take(i as int) =~= items);
    out
}

/// Where there are too many targets, all keystones and the most powerful of the
/// others.
fn cap_jumps(
    g: &Graph,
    pass: &Pass,
    seed: &PowerSeed,
    idx: &NodeIndex,
    targets: Vec<u32>,
    Ghost(c): Ghost<Course>,
) -> (out: Vec<u32>)
    requires
        c.pass == *pass,
        c.power == seed.ppp@,
        forall|k: int| 0 <= k < targets@.len() ==> (#[trigger] targets@[k]) < idx.id_of@.len(),
    ensures
        names(idx, out@) == c.kept_jumps(*g, names(idx, targets@)),
        forall|k: int| 0 <= k < out@.len() ==> (#[trigger] out@[k]) < idx.id_of@.len(),
{
    if pass.max_jump_cand > 0 && targets.len() > pass.max_jump_cand {
        let mut out = keystones(g, idx, &targets, true);
        let rest = keystones(g, idx, &targets, false);
        let ranked = rank_targets(seed, idx, &rest, Ghost(c));
        let ghost kept = names(idx, out@);
        let ghost ids = names(idx, ranked@);
        proof {
            let a = |t: i32| g.keystone(t) == true;
            let b = |t: i32| g.keystone(t);
            assert(a =~= b);
            let x = |t: i32| g.keystone(t) == false;
            let y = |t: i32| !g.keystone(t);
            assert(x =~= y);
        }
        let mut k: usize = 0;
        assert(kept =~= kept + ids.take(0));
        while k < ranked.len() && k < pass.max_jump_cand
            invariant
                k <= ranked@.len(),
                k <= pass.max_jump_cand,
                ids == names(idx, ranked@),
                names(idx, out@) == kept + ids.take(k as int),
                forall|j: int|
                    0 <= j < ranked@.len() ==> (#[trigger] ranked@[j]) < idx.id_of@.len(),
                forall|j: int| 0 <= j < out@.len() ==> (#[trigger] out@[j]) < idx.id_of@.len(),
            decreases ranked@.len() - k,
        {
            let ghost before = out@;
            out.push(ranked[k]);
            proof {
                assert(names(idx, out@) =~= names(idx, before).push(ids[k as int]));
                assert(ids.take(k + 1) =~= ids.take(k as int).push(ids[k as int]));
                assert(names(idx, out@) =~= kept + ids.take(k + 1));
            }
            k = k + 1;
        }
        assert(ids.take(k as int) =~= at_most_first(ids, pass.max_jump_cand as nat));
        out
    } else {
        targets
    }
}

/// What an allocation may add: an adjacent node, or the route to a target.
fn all_moves(
    g: &Graph,
    pass: &Pass,
    seed: &PowerSeed,
    excluded: &FxHashSet<i32>,
    pf: &mut Pathfinder,
    st: &State,
) -> (out: Vec<Vec<i32>>)
    requires
        old(pf).wf(),
        old(pf).graph@ == *g,
        pass.detour >= 1,
        st.wf(),
        st.ids@.len() >= 1,
        st.ids@.len() - 1 < pass.cap_points,
    ensures
        final(pf).wf(),
        final(pf).graph@ == *g,
        deep(out@) == course(*pass, *seed, *excluded).moves(*g, st.ids@),
{
    let ghost c = course(*pass, *seed, *excluded);
    let paths = pf.paths_from_set(&st.set, excluded, pass.detour);
    let ghost r = paths.routes@;
    assert(c.query(st.ids@.to_set()) == c.query(st.set@));
    let mut out = single_moves(g, st, excluded, Ghost(c));
    let ghost singles = deep(out@);
    let found = jump_targets(g, pass, st, excluded, &pf.idx, &paths, Ghost(c));
    let kept = cap_jumps(g, pass, seed, &pf.idx, found, Ghost(c));
    let ghost ids = names(&pf.idx, kept@);
    let ghost path = |t: i32| r.path(t);
    assert forall|k: int| 0 <= k < ids.len() implies r.reaches(#[trigger] ids[k]) by {
        lemma_kept_reached(c, *g, st.ids@, r, ids, k);
    }
    let mut k: usize = 0;
    assert(singles =~= singles + ids.take(0).map_values(path));
    while k < kept.len()
        invariant
            k <= kept@.len(),
            pf.wf(),
            paths.holds(&pf.idx),
            r == paths.routes@,
            path == (|t: i32| r.path(t)),
            ids == names(&pf.idx, kept@),
            forall|j: int| 0 <= j < kept@.len() ==> (#[trigger] kept@[j]) < pf.idx.id_of@.len(),
            forall|j: int| 0 <= j < ids.len() ==> r.reaches(#[trigger] ids[j]),
            deep(out@) == singles + ids.take(k as int).map_values(path),
        decreases kept@.len() - k,
    {
        let ghost before = out@;
        assert(ids[k as int] == pf.idx.id_of@[kept@[k as int] as int]);
        let add = paths.path_to(&pf.idx, kept[k]);
        let ghost route = add@;
        out.push(add);
        proof {
            assert(route == path(ids[k as int]));
            assert(deep(out@) =~= deep(before).push(route));
            assert(ids.take(k + 1).map_values(path) =~= ids.take(k as int).map_values(path).push(
                route,
            ));
            assert(deep(out@) =~= singles + ids.take(k + 1).map_values(path));
        }
        k = k + 1;
    }
    assert(ids.take(k as int) =~= ids);
    out
}

proof fn lemma_kept_reached(c: Course, g: Graph, ids: Seq<i32>, r: Routes, kept: Seq<i32>, k: int)
    requires
        r.order.to_set() == r.weight.dom(),
        kept == c.kept_jumps(g, c.jumps(g, ids, r, r.order)),
        0 <= k < kept.len(),
    ensures
        r.reaches(kept[k]),
        c.jumpable(g, ids, r, kept[k]),
{
    broadcast use vstd::seq_lib::group_filter_ensures;

    let ok = |t: i32| c.jumpable(g, ids, r, t);
    let found = r.order.filter(ok);
    let t = kept[k];
    lemma_kept_among(c, g, found, kept, k);
    assert(found.contains(t));
    r.order.lemma_filter_contains_rev(ok, t);
    assert(r.order.to_set().contains(t));
    let j = choose|j: int| 0 <= j < found.len() && found[j] == t;
    assert(ok(found[j]));
}

/// What is kept of the targets is among them.
pub proof fn lemma_kept_among(c: Course, g: Graph, found: Seq<i32>, kept: Seq<i32>, k: int)
    requires
        kept == c.kept_jumps(g, found),
        0 <= k < kept.len(),
    ensures
        found.contains(kept[k]),
{
    if c.pass.max_jump_cand > 0 && found.len() > c.pass.max_jump_cand {
        let is = |t: i32| g.keystone(t);
        let not = |t: i32| !g.keystone(t);
        let stones = found.filter(is);
        let rest = found.filter(not);
        if k < stones.len() {
            assert(stones.contains(kept[k]));
            found.lemma_filter_contains_rev(is, kept[k]);
        } else {
            let sorted = c.by_power(rest);
            let t = kept[k];
            assert(t == sorted[k - stones.len()]);
            lemma_sorted_among(rest, |t: i32| c.worth(t).standing(), k - stones.len());
            found.lemma_filter_contains_rev(not, t);
        }
    }
}

/// An allocation that is proposed, as a list and as a set.
pub struct Draft {
    pub ids: Vec<i32>,
    pub set: FxHashSet<i32>,
}

impl Draft {
    pub open spec fn wf(&self) -> bool {
        ascending(self.ids@) && self.set@ == self.ids@.to_set()
    }

    /// An allocation with more nodes.
    pub fn grow(st_set: &FxHashSet<i32>, add: &Vec<i32>) -> (d: Draft)
        ensures
            d.wf(),
            d.ids@ == listing_union(st_set@, add@),
    {
        let mut set = id_set_clone(st_set);
        let mut i: usize = 0;
        assert(set@ =~= st_set@.union(add@.take(0).to_set()));
        while i < add.len()
            invariant
                i <= add@.len(),
                set@ == st_set@.union(add@.take(i as int).to_set()),
            decreases add@.len() - i,
        {
            let ghost before = add@.take(i as int);
            let ghost x = add@[i as int];
            id_set_insert(&mut set, add[i]);
            proof {
                let next = add@.take(i + 1);
                assert(next =~= before.push(x));
                assert forall|y: i32| next.to_set().contains(y) <==> (before.to_set().contains(y)
                    || y == x) by {
                    if before.contains(y) {
                        let j = choose|j: int| 0 <= j < before.len() && before[j] == y;
                        assert(next[j] == y);
                    }
                    assert(next[i as int] == x);
                    if next.contains(y) && y != x {
                        let j = choose|j: int| 0 <= j < next.len() && next[j] == y;
                        assert(before[j] == y);
                    }
                }
                assert(set@ =~= st_set@.union(next.to_set()));
            }
            i = i + 1;
        }
        assert(add@.take(i as int) =~= add@);
        let ids = list_ids(&set);
        Draft { ids, set }
    }
}

/// The nodes of a set and of a list, in ascending order.
pub open spec fn listing_union(set: Set<i32>, add: Seq<i32>) -> Seq<i32> {
    crate::order::listing(set.union(add.to_set()))
}

pub open spec fn draft_ids(drafts: Seq<Draft>) -> Seq<Seq<i32>> {
    drafts.map_values(|d: Draft| d.ids@)
}

/// Whether the drafts are what is left of the proposals without repetitions.
spec fn gathered(drafts: Seq<Draft>, seen: FxHashSet<Vec<i32>>, done: Seq<Seq<i32>>) -> bool {
    &&& draft_ids(drafts) == distinct(done)
    &&& forall|i: int| 0 <= i < drafts.len() ==> (#[trigger] drafts[i]).wf()
    &&& forall|ids: Seq<i32>| #[trigger] listed_sets(seen).contains(ids) <==> done.contains(ids)
}

/// Takes in a proposal, unless it was made before.
fn propose(
    d: Draft,
    drafts: &mut Vec<Draft>,
    seen: &mut FxHashSet<Vec<i32>>,
    Ghost(done): Ghost<Seq<Seq<i32>>>,
)
    requires
        d.wf(),
        gathered(old(drafts)@, *old(seen), done),
    ensures
        gathered(final(drafts)@, *final(seen), done.push(d.ids@)),
{
    let ghost before = drafts@;
    let ghost seen0 = listed_sets(*seen);
    let ghost next = done.push(d.ids@);
    let ghost ids = d.ids@;
    let fresh = seen_insert(seen, copy_ids(&d.ids));
    proof {
        assert(next.drop_last() =~= done);
        assert forall|x: Seq<i32>| #[trigger]
            listed_sets(*seen).contains(x) <==> next.contains(x) by {
            assert(seen0.contains(x) <==> done.contains(x));
            if done.contains(x) {
                let j = choose|j: int| 0 <= j < done.len() && done[j] == x;
                assert(next[j] == x);
            }
            assert(next[done.len() as int] == ids);
            if next.contains(x) && x != ids {
                let j = choose|j: int| 0 <= j < next.len() && next[j] == x;
                assert(done[j] == x);
            }
        }
    }
    if fresh {
        drafts.push(d);
        assert(draft_ids(drafts@) =~= draft_ids(before).push(ids));
    }
}

/// Proposes all that an allocation leads to.
fn expand_state(
    g: &Graph,
    pass: &Pass,
    seed: &PowerSeed,
    excluded: &FxHashSet<i32>,
    pf: &mut Pathfinder,
    st: &State,
    drafts: &mut Vec<Draft>,
    seen: &mut FxHashSet<Vec<i32>>,
    Ghost(done): Ghost<Seq<Seq<i32>>>,
)
    requires
        old(pf).wf(),
        old(pf).graph@ == *g,
        pass.detour >= 1,
        st.wf(),
        st.ids@.len() >= 1,
        gathered(old(drafts)@, *old(seen), done),
    ensures
        final(pf).wf(),
        final(pf).graph@ == *g,
        gathered(
            final(drafts)@,
            *final(seen),
            done + course(*pass, *seed, *excluded).extensions(*g, st.ids@),
        ),
{
    let ghost c = course(*pass, *seed, *excluded);
    if st.ids.len() - 1 >= pass.cap_points {
        let d = Draft { ids: copy_ids(&st.ids), set: id_set_clone(&st.set) };
        propose(d, drafts, seen, Ghost(done));
        assert(done.push(st.ids@) =~= done + seq![st.ids@]);
        return ;
    }
    let points_left: usize = pass.cap_points - (st.ids.len() - 1);
    let moves = all_moves(g, pass, seed, excluded, pf, st);
    let ghost adds = deep(moves@);
    let mut k: usize = 0;
    proof {
        reveal(Seq::filter);
        assert(adds.take(0) =~= Seq::empty());
        assert(done =~= done + c.reached_by(st.ids@, adds.take(0)));
    }
    while k < moves.len()
        invariant
            k <= moves@.len(),
            st.wf(),
            st.ids@.len() >= 1,
            adds == deep(moves@),
            c == course(*pass, *seed, *excluded),
            points_left == pass.cap_points - (st.ids@.len() - 1),
            pf.wf(),
            pf.graph@ == *g,
            gathered(drafts@, *seen, done + c.reached_by(st.ids@, adds.take(k as int))),
        decreases moves@.len() - k,
    {
        let add = &moves[k];
        let ghost so_far = done + c.reached_by(st.ids@, adds.take(k as int));
        proof {
            reveal(Seq::filter);
            assert(adds.take(k + 1).drop_last() =~= adds.take(k as int));
            assert(adds.take(k + 1).last() == add@);
        }
        if add.len() > 0 && add.len() <= points_left {
            assert(c.affordable(st.ids@, add@));
            let d = Draft::grow(&st.set, add);
            let ghost new_ids = d.ids@;
            propose(d, drafts, seen, Ghost(so_far));
            proof {
                assert(new_ids == grown(st.ids@, add@));
                assert(c.reached_by(st.ids@, adds.take(k + 1)) =~= c.reached_by(
                    st.ids@,
                    adds.take(k as int),
                ).push(new_ids));
                assert(so_far.push(new_ids) =~= done + c.reached_by(st.ids@, adds.take(k + 1)));
            }
        } else {
            assert(!c.affordable(st.ids@, add@));
            assert(c.reached_by(st.ids@, adds.take(k + 1)) =~= c.reached_by(
                st.ids@,
                adds.take(k as int),
            ));
        }
        k = k + 1;
    }
    assert(adds.take(k as int) =~= adds);
}

/// All that the allocations of a beam lead to, each once.
pub(crate) fn expand_beam(
    g: &Graph,
    pass: &Pass,
    seed: &PowerSeed,
    excluded: &FxHashSet<i32>,
    pf: &mut Pathfinder,
    beam: &Vec<State>,
) -> (drafts: Vec<Draft>)
    requires
        old(pf).wf(),
        old(pf).graph@ == *g,
        pass.detour >= 1,
        all_wf(beam@),
        forall|i: int| 0 <= i < beam@.len() ==> (#[trigger] beam@[i]).ids@.len() >= 1,
    ensures
        final(pf).wf(),
        final(pf).graph@ == *g,
        draft_ids(drafts@) == course(*pass, *seed, *excluded).candidates(*g, plans(beam@)),
        forall|i: int| 0 <= i < drafts@.len() ==> (#[trigger] drafts@[i]).wf(),
{
    let ghost c = course(*pass, *seed, *excluded);
    let mut drafts: Vec<Draft> = Vec::new();
    let mut seen: FxHashSet<Vec<i32>> = seen_new();
    let mut i: usize = 0;
    proof {
        assert(c.proposals(*g, plans(beam@).take(0)) =~= Seq::empty());
        assert(draft_ids(drafts@) =~= Seq::empty());
    }
    while i < beam.len()
        invariant
            i <= beam@.len(),
            c == course(*pass, *seed, *excluded),
            pf.wf(),
            pf.graph@ == *g,
            pass.detour >= 1,
            all_wf(beam@),
            forall|j: int| 0 <= j < beam@.len() ==> (#[trigger] beam@[j]).ids@.len() >= 1,
            gathered(drafts@, seen, c.proposals(*g, plans(beam@).take(i as int))),
        decreases beam@.len() - i,
    {
        let ghost done = c.proposals(*g, plans(beam@).take(i as int));
        expand_state(
            g,
            pass,
            seed,
            excluded,
            pf,
            &beam[i],
            &mut drafts,
            &mut seen,
            Ghost(done),
        );
        proof {
            let row = |p: Plan| c.extensions(*g, p.ids);
            let rows = plans(beam@).take(i as int).map_values(row);
            let p = plans(beam@)[i as int];
            assert(plans(beam@).take(i + 1).map_values(row) =~= rows.push(row(p)));
            rows.lemma_flatten_push(row(p));
        }
        i = i + 1;
    }
    assert(plans(beam@).take(i as int) =~= plans(beam@));
    drafts
}

} // verus!
