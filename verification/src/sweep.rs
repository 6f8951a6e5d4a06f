//! The shortest-path search from one frontier.

use crate::graph::Graph;
use crate::heap::MinHeap;
use crate::lists::lemma_contains_push;
use crate::node_index::NodeIndex;
use crate::paths::{nearer, routes, Query, Routes};
use vstd::prelude::*;

verus! {

/// The state of one run of the shortest-path search.
struct Sweep {
    wdist: Vec<u128>,
    pdist: Vec<usize>,
    prev: Vec<u32>,
    in_frontier: Vec<bool>,
    visited: Vec<bool>,
    is_excluded: Vec<bool>,
    reached: Vec<u32>,
    heap: MinHeap,
}

/// Order by weight, then by index.
spec fn sooner(a: (u128, int), b: (u128, int)) -> bool {
    a.0 < b.0 || (a.0 == b.0 && a.1 < b.1)
}

impl Sweep {
    spec fn found(&self, i: int) -> bool {
        self.wdist@[i] != u128::MAX
    }

    spec fn toll(&self, detour: i64, i: int) -> int {
        if self.is_excluded@[i] {
            detour as int
        } else {
            1
        }
    }

    spec fn open(&self, idx: &NodeIndex, i: int) -> bool {
        self.in_frontier@[i] || idx.is_target@[i] || i == idx.start
    }

    spec fn at(&self, i: int) -> (u128, int) {
        (self.wdist@[i], i)
    }

    spec fn sized(&self, n: nat) -> bool {
        &&& self.wdist@.len() == n
        &&& self.pdist@.len() == n
        &&& self.prev@.len() == n
        &&& self.in_frontier@.len() == n
        &&& self.visited@.len() == n
        &&& self.is_excluded@.len() == n
    }

    /// A found node that is no source hangs on the first visited node that
    /// leads to it.
    spec fn hangs(&self, idx: &NodeIndex, detour: i64, i: int) -> bool {
        let p = self.prev@[i] as int;
        &&& p < idx.id_of@.len()
        &&& self.visited@[p]
        &&& idx.link(p, i)
        &&& self.open(idx, i)
        &&& self.wdist@[i] == self.wdist@[p] + self.toll(detour, i)
        &&& self.pdist@[i] == self.pdist@[p] + 1
        &&& forall|u: int|
            0 <= u < idx.id_of@.len() && #[trigger] self.visited@[u] && idx.link(u, i) ==> u == p
                || sooner(self.at(p), self.at(u))
    }

    /// What holds of each node.
    spec fn fits(&self, idx: &NodeIndex, detour: i64) -> bool {
        let n = idx.id_of@.len();
        &&& forall|i: int|
            0 <= i < n && #[trigger] self.in_frontier@[i] ==> self.wdist@[i] == 0
                && self.pdist@[i] == 0 && self.prev@[i] == u32::MAX
        &&& forall|i: int| 0 <= i < n && #[trigger] self.visited@[i] ==> self.found(i)
        &&& forall|i: int|
            0 <= i < n && !(#[trigger] self.found(i)) ==> !self.in_frontier@[i] && self.pdist@[i]
                == usize::MAX && self.prev@[i] == u32::MAX
        &&& forall|i: int|
            0 <= i < n && #[trigger] self.found(i) && !self.in_frontier@[i] ==> self.hangs(
                idx,
                detour,
                i,
            )
        &&& forall|i: int|
            0 <= i < n && #[trigger] self.found(i) ==> self.pdist@[i] <= self.reached@.len()
                && self.wdist@[i] <= self.pdist@[i] * detour
    }

    /// Every neighbour of a visited node that can be stepped on is found, those
    /// of `pending` excepted.
    spec fn closed_but(&self, idx: &NodeIndex, pending: int) -> bool {
        let n = idx.id_of@.len();
        forall|u: int, v: int|
            0 <= u < n && 0 <= v < n && #[trigger] idx.link(u, v) && self.visited@[u] && u
                != pending && self.open(idx, v) ==> self.found(v)
    }

    /// The reached nodes are the visited ones, in order, and all others come later.
    spec fn in_order(&self, idx: &NodeIndex) -> bool {
        let n = idx.id_of@.len();
        &&& forall|a: int|
            0 <= a < self.reached@.len() ==> (#[trigger] self.reached@[a]) < n
                && self.visited@[self.reached@[a] as int]
        &&& forall|i: int|
            0 <= i < n && #[trigger] self.visited@[i] ==> self.reached@.contains(i as u32)
        &&& forall|a: int, b: int|
            0 <= a < b < self.reached@.len() ==> sooner(
                self.at((#[trigger] self.reached@[a]) as int),
                self.at((#[trigger] self.reached@[b]) as int),
            )
        &&& forall|u: int, i: int|
            0 <= u < n && 0 <= i < n && #[trigger] self.visited@[u] && !(
            #[trigger] self.visited@[i]) && self.found(i) ==> sooner(self.at(u), self.at(i))
    }

    /// The heap holds every found node that is not visited, once.
    spec fn queued(&self, idx: &NodeIndex) -> bool {
        forall|w: u128, i: u32| #[trigger]
            self.heap@.count((w, i)) == (if i < idx.id_of@.len() && self.found(i as int)
                && !self.visited@[i as int] && w == self.wdist@[i as int] {
                1nat
            } else {
                0nat
            })
    }

    spec fn sound(&self, idx: &NodeIndex, detour: i64, pending: int) -> bool {
        &&& self.sized(idx.id_of@.len())
        &&& self.heap.wf()
        &&& self.fits(idx, detour)
        &&& self.closed_but(idx, pending)
        &&& self.in_order(idx)
        &&& self.queued(idx)
    }

    /// Sets up the sources and the banned nodes.
    fn begin(
        idx: &NodeIndex,
        frontier: &Vec<u32>,
        excluded: &Vec<u32>,
        detour: i64,
    ) -> (s: Sweep)
        requires
            idx.id_of@.len() <= u32::MAX,
            forall|k: int|
                0 <= k < frontier@.len() ==> (#[trigger] frontier@[k]) < idx.id_of@.len(),
            forall|k: int|
                0 <= k < excluded@.len() ==> (#[trigger] excluded@[k]) < idx.id_of@.len(),
        ensures
            s.sound(idx, detour, -1),
            forall|i: int|
                0 <= i < idx.id_of@.len() ==> #[trigger] s.in_frontier@[i] == frontier@.contains(
                    i as u32,
                ),
            forall|i: int|
                0 <= i < idx.id_of@.len() ==> #[trigger] s.is_excluded@[i] == excluded@.contains(
                    i as u32,
                ),
    {
        let n: usize = idx.len();
        let mut is_excluded: Vec<bool> = vec![false; n];
        let mut k: usize = 0;
        while k < excluded.len()
            invariant
                k <= excluded@.len(),
                is_excluded@.len() == n,
                n <= u32::MAX,
                forall|j: int| 0 <= j < excluded@.len() ==> (#[trigger] excluded@[j]) < n,
                forall|i: int|
                    0 <= i < n ==> #[trigger] is_excluded@[i] == excluded@.take(
                        k as int,
                    ).contains(i as u32),
            decreases excluded@.len() - k,
        {
            let e: usize = excluded[k] as usize;
            let ghost before = is_excluded@;
            is_excluded.set(e, true);
            proof {
                let next = excluded@.take(k + 1);
                assert(next =~= excluded@.take(k as int).push(excluded@[k as int]));
                assert forall|i: int| 0 <= i < n implies #[trigger] is_excluded@[i]
                    == next.contains(i as u32) by {
                    lemma_contains_push(excluded@.take(k as int), excluded@[k as int], i as u32);
                    assert(before[i] == excluded@.take(k as int).contains(i as u32));
                }
            }
            k = k + 1;
        }
        assert(excluded@.take(k as int) =~= excluded@);
        let mut wdist: Vec<u128> = vec![u128::MAX; n];
        let mut pdist: Vec<usize> = vec![usize::MAX; n];
        let mut in_frontier: Vec<bool> = vec![false; n];
        let mut heap = MinHeap::new();
        let mut k: usize = 0;
        while k < frontier.len()
            invariant
                k <= frontier@.len(),
                wdist@.len() == n,
                pdist@.len() == n,
                in_frontier@.len() == n,
                n <= u32::MAX,
                heap.wf(),
                forall|j: int| 0 <= j < frontier@.len() ==> (#[trigger] frontier@[j]) < n,
                forall|i: int|
                    0 <= i < n ==> #[trigger] in_frontier@[i] == frontier@.take(
                        k as int,
                    ).contains(i as u32),
                forall|i: int|
                    0 <= i < n ==> #[trigger] wdist@[i] == (if in_frontier@[i] {
                        0
                    } else {
                        u128::MAX
                    }),
                forall|i: int|
                    0 <= i < n ==> #[trigger] pdist@[i] == (if in_frontier@[i] {
                        0
                    } else {
                        usize::MAX
                    }),
                forall|w: u128, i: u32| #[trigger]
                    heap@.count((w, i)) == (if i < n && in_frontier@[i as int] && w == 0 {
                        1nat
                    } else {
                        0nat
                    }),
            decreases frontier@.len() - k,
        {
            let f: u32 = frontier[k];
            let fu: usize = f as usize;
            let ghost before = in_frontier@;
            let ghost heap0 = heap@;
            if !in_frontier[fu] {
                wdist.set(fu, 0);
                pdist.set(fu, 0);
                in_frontier.set(fu, true);
                heap.push((0, f));
            }
            proof {
                let next = frontier@.take(k + 1);
                assert(next =~= frontier@.take(k as int).push(frontier@[k as int]));
                assert forall|i: int| 0 <= i < n implies #[trigger] in_frontier@[i]
                    == next.contains(i as u32) by {
                    lemma_contains_push(frontier@.take(k as int), frontier@[k as int], i as u32);
                    assert(before[i] == frontier@.take(k as int).contains(i as u32));
                }
                assert forall|w: u128, i: u32| #[trigger]
                    heap@.count((w, i)) == (if i < n && in_frontier@[i as int] && w == 0 {
                        1nat
                    } else {
                        0nat
                    }) by {
                    assert(heap0.count((w, i)) == (if i < n && before[i as int] && w == 0 {
                        1nat
                    } else {
                        0nat
                    }));
                }
            }
            k = k + 1;
        }
        assert(frontier@.take(k as int) =~= frontier@);
        let prev: Vec<u32> = vec![u32::MAX; n];
        let visited: Vec<bool> = vec![false; n];
        Sweep {
            wdist,
            pdist,
            prev,
            in_frontier,
            visited,
            is_excluded,
            reached: Vec::new(),
            heap,
        }
    }
}

/// A list of distinct numbers below `n` holds at most `n` of them.
proof fn lemma_pigeonhole(s: Seq<u32>, n: nat)
    requires
        s.no_duplicates(),
        forall|i: int| 0 <= i < s.len() ==> (#[trigger] s[i]) < n,
    ensures
        s.len() <= n,
{
    s.unique_seq_to_set();
    let all = vstd::set_lib::set_int_range(0, n as int);
    vstd::set_lib::lemma_int_range(0, n as int);
    let wide = s.map_values(|x: u32| x as int);
    assert(wide.no_duplicates());
    wide.unique_seq_to_set();
    assert(wide.to_set().subset_of(all));
    vstd::set_lib::lemma_len_subset(wide.to_set(), all);
}

impl Sweep {
    /// The last visited node comes after all others.
    spec fn latest(&self, idx: &NodeIndex, u: int) -> bool {
        &&& 0 <= u < idx.id_of@.len()
        &&& self.visited@[u]
        &&& self.pdist@[u] < self.reached@.len()
        &&& forall|x: int|
            0 <= x < idx.id_of@.len() && #[trigger] self.visited@[x] ==> x == u || sooner(
                self.at(x),
                self.at(u),
            )
    }

    spec fn same_question(&self, other: &Sweep) -> bool {
        self.in_frontier@ == other.in_frontier@ && self.is_excluded@ == other.is_excluded@
    }

    proof fn lemma_reached_len(&self, idx: &NodeIndex)
        requires
            self.in_order(idx),
        ensures
            self.reached@.len() <= idx.id_of@.len(),
            self.reached@.no_duplicates(),
    {
        assert(self.reached@.no_duplicates()) by {
            assert forall|a: int, b: int|
                0 <= a < self.reached@.len() && 0 <= b < self.reached@.len() && a
                    != b implies self.reached@[a] != self.reached@[b] by {
                if a < b {
                    assert(sooner(
                        self.at(self.reached@[a] as int),
                        self.at(self.reached@[b] as int),
                    ));
                } else {
                    assert(sooner(
                        self.at(self.reached@[b] as int),
                        self.at(self.reached@[a] as int),
                    ));
                }
            }
        }
        lemma_pigeonhole(self.reached@, idx.id_of@.len());
    }

    /// Visits the nearest found node.
    fn advance(&mut self, idx: &NodeIndex, detour: i64) -> (next: Option<u32>)
        requires
            detour >= 1,
            idx.id_of@.len() <= u32::MAX,
            old(self).sound(idx, detour, -1),
        ensures
            final(self).same_question(old(self)),
            match next {
                Some(u) => {
                    &&& final(self).sound(idx, detour, u as int)
                    &&& final(self).latest(idx, u as int)
                    &&& final(self).reached@.len() == old(self).reached@.len() + 1
                },
                None => {
                    &&& final(self).sound(idx, detour, -1)
                    &&& final(self).reached@ == old(self).reached@
                    &&& forall|i: int|
                        0 <= i < idx.id_of@.len() && #[trigger] final(self).found(i)
                            ==> final(self).visited@[i]
                },
            },
    {
        let ghost before = *self;
        match self.heap.pop() {
            None => {
                proof {
                    assert forall|i: int| 0 <= i < idx.id_of@.len() && #[trigger] self.found(
                        i,
                    ) implies self.visited@[i] by {
                        let item = (self.wdist@[i], i as u32);
                        assert(before.heap@.count(item) <= before.heap@.len()) by {
                            if before.heap@.count(item) > 0 {
                                assert(before.heap@.contains(item));
                                assert(before.heap@.remove(item).len() == before.heap@.len() - 1);
                            }
                        }
                    }
                    assert(self.fits(idx, detour)) by {
                        assert forall|i: int| 0 <= i < idx.id_of@.len() && #[trigger] self.found(i)
                            && !self.in_frontier@[i] implies self.hangs(idx, detour, i) by {
                            assert(before.found(i));
                            assert(before.hangs(idx, detour, i));
                        }
                        assert forall|i: int|
                            0 <= i < idx.id_of@.len() && #[trigger] self.found(i) implies
                            self.pdist@[i] <= self.reached@.len() && self.wdist@[i]
                            <= self.pdist@[i] * detour by {
                            assert(before.found(i));
                        }
                        assert forall|i: int|
                            0 <= i < idx.id_of@.len() && !(#[trigger] self.found(i)) implies
                            !self.in_frontier@[i] && self.pdist@[i] == usize::MAX && self.prev@[i]
                            == u32::MAX by {
                            assert(!before.found(i));
                        }
                    }
                    assert(self.closed_but(idx, -1)) by {
                        assert forall|a: int, b: int|
                            0 <= a < idx.id_of@.len() && 0 <= b < idx.id_of@.len()
                                && #[trigger] idx.link(a, b) && self.visited@[a] && self.open(
                                idx,
                                b,
                            ) implies self.found(b) by {
                            assert(before.open(idx, b));
                            assert(before.found(b));
                        }
                    }
                    assert(self.in_order(idx));
                    assert(self.queued(idx));
                    assert(self.sound(idx, detour, -1));
                }
                None
            },
            Some((w, u)) => {
                proof {
                    assert(before.heap@.count((w, u)) > 0);
                    assert(u < idx.id_of@.len() && before.found(u as int)
                        && !before.visited@[u as int] && w == before.wdist@[u as int]);
                }
                self.visited.set(u as usize, true);
                self.reached.push(u);
                proof {
                    before.lemma_reached_len(idx);
                    self.lemma_advance(&before, idx, detour, w, u);
                }
                Some(u)
            },
        }
    }

    proof fn lemma_advance(
        &self,
        before: &Sweep,
        idx: &NodeIndex,
        detour: i64,
        w: u128,
        u: u32,
    )
        requires
            detour >= 1,
            idx.id_of@.len() <= u32::MAX,
            before.sound(idx, detour, -1),
            before.heap@.contains((w, u)),
            u < idx.id_of@.len(),
            before.found(u as int),
            !before.visited@[u as int],
            w == before.wdist@[u as int],
            forall|other: (u128, u32)| #[trigger]
                before.heap@.contains(other) ==> crate::heap::no_later((w, u), other),
            self.heap.wf(),
            self.heap@ == before.heap@.remove((w, u)),
            self.wdist@ == before.wdist@,
            self.pdist@ == before.pdist@,
            self.prev@ == before.prev@,
            self.same_question(before),
            self.visited@ == before.visited@.update(u as int, true),
            self.reached@ == before.reached@.push(u),
        ensures
            self.sound(idx, detour, u as int),
            self.latest(idx, u as int),
    {
        let n = idx.id_of@.len();
        assert forall|x: int| 0 <= x < n && #[trigger] self.visited@[x] implies x == u || sooner(
            self.at(x),
            self.at(u as int),
        ) by {
            if x != u {
                assert(before.visited@[x]);
                assert(!before.visited@[u as int]);
            }
        }
        assert forall|i: int| 0 <= i < n && !(#[trigger] self.visited@[i]) && self.found(
            i,
        ) implies sooner(self.at(u as int), self.at(i)) by {
            assert(!before.visited@[i] && before.found(i));
            let item = (before.wdist@[i], i as u32);
            assert(before.heap@.count(item) == 1);
            assert(before.heap@.contains(item));
        }
        assert(self.in_order(idx)) by {
            assert forall|u1: int, i: int| 0 <= u1 < n && 0 <= i < n && #[trigger] self.visited@[u1]
                && !(#[trigger] self.visited@[i]) && self.found(i) implies sooner(
                self.at(u1),
                self.at(i),
            ) by {
                assert(sooner(self.at(u as int), self.at(i)));
                assert(u1 == u || sooner(self.at(u1), self.at(u as int)));
            }
            assert forall|a: int| 0 <= a < self.reached@.len() implies (#[trigger] self.reached@[a])
                < n && self.visited@[self.reached@[a] as int] by {
                if a < before.reached@.len() {
                    assert(self.reached@[a] == before.reached@[a]);
                }
            }
            assert forall|i: int| 0 <= i < n && #[trigger] self.visited@[i] implies
                self.reached@.contains(i as u32) by {
                lemma_contains_push(before.reached@, u, i as u32);
                if i != u {
                    assert(before.visited@[i]);
                }
            }
            assert forall|a: int, b: int| 0 <= a < b < self.reached@.len() implies sooner(
                self.at((#[trigger] self.reached@[a]) as int),
                self.at((#[trigger] self.reached@[b]) as int),
            ) by {
                assert(self.reached@[a] == before.reached@[a]);
                if b < before.reached@.len() {
                    assert(self.reached@[b] == before.reached@[b]);
                } else {
                    let x = self.reached@[a] as int;
                    assert(before.visited@[x]);
                    assert(self.visited@[x]);
                    assert(x != u);
                }
            }
        }
        assert(self.fits(idx, detour)) by {
            assert forall|i: int| 0 <= i < n && #[trigger] self.found(i)
                && !self.in_frontier@[i] implies self.hangs(idx, detour, i) by {
                assert(before.found(i));
                assert(before.hangs(idx, detour, i));
                let p = self.prev@[i] as int;
                assert(before.visited@[p]);
                assert(self.visited@[p]);
                assert forall|x: int| 0 <= x < n && #[trigger] self.visited@[x] && idx.link(
                    x,
                    i,
                ) implies x == p || sooner(self.at(p), self.at(x)) by {
                    if x == u {
                        assert(self.visited@[p]);
                    } else {
                        assert(before.visited@[x]);
                    }
                }
            }
            assert forall|i: int| 0 <= i < n && #[trigger] self.found(i) implies self.pdist@[i]
                <= self.reached@.len() && self.wdist@[i] <= self.pdist@[i] * detour by {
                assert(before.found(i));
            }
            assert forall|i: int| 0 <= i < n && !(#[trigger] self.found(i)) implies
                !self.in_frontier@[i] && self.pdist@[i] == usize::MAX && self.prev@[i]
                == u32::MAX by {
                assert(!before.found(i));
            }
        }
        assert(self.closed_but(idx, u as int)) by {
            assert forall|a: int, b: int|
                0 <= a < n && 0 <= b < n && #[trigger] idx.link(a, b) && self.visited@[a] && a
                    != u && self.open(idx, b) implies self.found(b) by {
                assert(before.visited@[a]);
                assert(before.open(idx, b));
                assert(before.found(b));
            }
        }
        assert(self.queued(idx)) by {
            assert forall|x: u128, i: u32| #[trigger]
                self.heap@.count((x, i)) == (if i < n && self.found(i as int)
                    && !self.visited@[i as int] && x == self.wdist@[i as int] {
                    1nat
                } else {
                    0nat
                }) by {
                assert(before.heap@.count((x, i)) == (if i < n && before.found(i as int)
                    && !before.visited@[i as int] && x == before.wdist@[i as int] {
                    1nat
                } else {
                    0nat
                }));
            }
        }
        assert(before.found(u as int));
    }
}

proof fn lemma_weight_fits(p: int, n: int, w: int, detour: int)
    requires
        0 <= p <= n <= u32::MAX,
        1 <= detour <= i64::MAX,
        0 <= w <= p * detour,
    ensures
        w + detour < u128::MAX,
        w + detour <= (p + 1) * detour,
        w + 1 <= (p + 1) * detour,
{
    assert((p + 1) * detour == p * detour + detour) by (nonlinear_arith);
    assert(p * detour <= n * detour) by (nonlinear_arith)
        requires
            p <= n,
            1 <= detour,
    ;
    assert(n * detour <= u32::MAX * i64::MAX) by (nonlinear_arith)
        requires
            0 <= n <= u32::MAX,
            1 <= detour <= i64::MAX,
    ;
}

impl Sweep {
    /// Whether the neighbours of `u` are found, as far as position `k` of the flat list.
    spec fn served(&self, idx: &NodeIndex, u: int, k: int) -> bool {
        forall|j: int|
            idx.adj_off@[u] <= j < k && self.open(idx, #[trigger] idx.adj@[j] as int)
                ==> self.found(idx.adj@[j] as int)
    }

    /// Offers the step from `u` to `v`.
    fn offer(&mut self, idx: &NodeIndex, detour: i64, u: u32, v: u32)
        requires
            detour >= 1,
            idx.id_of@.len() <= u32::MAX,
            idx.is_target@.len() == idx.id_of@.len(),
            v < idx.id_of@.len(),
            idx.link(u as int, v as int),
            old(self).sound(idx, detour, u as int),
            old(self).latest(idx, u as int),
        ensures
            final(self).same_question(old(self)),
            final(self).sound(idx, detour, u as int),
            final(self).latest(idx, u as int),
            final(self).reached@ == old(self).reached@,
            final(self).open(idx, v as int) ==> final(self).found(v as int),
            forall|i: int|
                0 <= i < idx.id_of@.len() && #[trigger] old(self).found(i) ==> final(self).found(
                    i,
                ),
    {
        let vu: usize = v as usize;
        if self.visited[vu] {
            assert(self.found(v as int));
            return ;
        }
        if !(self.in_frontier[vu] || idx.is_target[vu] || v == idx.start) {
            return ;
        }
        let w: u128 = self.wdist[u as usize];
        let ghost before = *self;
        proof {
            self.lemma_reached_len(idx);
            assert(self.found(u as int));
            lemma_weight_fits(
                self.pdist@[u as int] as int,
                idx.id_of@.len() as int,
                w as int,
                detour as int,
            );
        }
        let nw: u128 = w + if self.is_excluded[vu] {
            detour as u128
        } else {
            1
        };
        if nw < self.wdist[vu] {
            proof {
                self.lemma_first_offer(idx, detour, u, v, nw);
            }
            self.wdist.set(vu, nw);
            self.pdist.set(vu, self.pdist[u as usize] + 1);
            self.prev.set(vu, u);
            self.heap.push((nw, v));
            proof {
                self.lemma_offer(&before, idx, detour, u, v, nw);
            }
        }
    }

    /// A node that was found before cannot be found nearer.
    proof fn lemma_first_offer(&self, idx: &NodeIndex, detour: i64, u: u32, v: u32, nw: u128)
        requires
            detour >= 1,
            v < idx.id_of@.len(),
            idx.link(u as int, v as int),
            self.sound(idx, detour, u as int),
            self.latest(idx, u as int),
            nw == self.wdist@[u as int] + self.toll(detour, v as int),
            nw < self.wdist@[v as int],
        ensures
            !self.found(v as int),
    {
        if self.found(v as int) {
            if self.in_frontier@[v as int] {
                assert(self.wdist@[v as int] == 0);
            } else {
                assert(self.hangs(idx, detour, v as int));
                let p = self.prev@[v as int] as int;
                assert(self.visited@[p]);
                assert(self.visited@[u as int]);
                assert(p == u || sooner(self.at(p), self.at(u as int)));
            }
        }
    }

    #[verifier::spinoff_prover]
    proof fn lemma_offer(
        &self,
        before: &Sweep,
        idx: &NodeIndex,
        detour: i64,
        u: u32,
        v: u32,
        nw: u128,
    )
        requires
            detour >= 1,
            idx.id_of@.len() <= u32::MAX,
            v < idx.id_of@.len(),
            idx.link(u as int, v as int),
            before.sound(idx, detour, u as int),
            before.latest(idx, u as int),
            before.open(idx, v as int),
            !before.found(v as int),
            nw == before.wdist@[u as int] + before.toll(detour, v as int),
            nw < u128::MAX,
            nw <= (before.pdist@[u as int] + 1) * detour,
            self.heap.wf(),
            self.heap@ == before.heap@.insert((nw, v)),
            self.wdist@ == before.wdist@.update(v as int, nw),
            self.pdist@ == before.pdist@.update(
                v as int,
                (before.pdist@[u as int] + 1) as usize,
            ),
            before.pdist@[u as int] < usize::MAX,
            self.prev@ == before.prev@.update(v as int, u),
            self.same_question(before),
            self.visited@ == before.visited@,
            self.reached@ == before.reached@,
        ensures
            self.sound(idx, detour, u as int),
            self.latest(idx, u as int),
            self.found(v as int),
            forall|i: int|
                0 <= i < idx.id_of@.len() && #[trigger] before.found(i) ==> self.found(i),
    {
        let n = idx.id_of@.len();
        assert(u != v);
        assert forall|x: int| 0 <= x < n && x != v implies self.at(x) == before.at(x) by {}
        assert forall|x: int| 0 <= x < n && x != v implies (#[trigger] self.found(x)
            == before.found(x)) by {}
        assert forall|x: int| 0 <= x < n && #[trigger] self.visited@[x] implies x != v by {
            assert(before.visited@[x]);
            assert(before.found(x));
        }
        assert(self.fits(idx, detour)) by {
            assert forall|i: int| 0 <= i < n && #[trigger] self.found(i)
                && !self.in_frontier@[i] implies self.hangs(idx, detour, i) by {
                if i == v {
                    assert forall|x: int| 0 <= x < n && #[trigger] self.visited@[x] && idx.link(
                        x,
                        i,
                    ) implies x == u || sooner(self.at(u as int), self.at(x)) by {
                        assert(before.visited@[x]);
                        if x != u {
                            assert(before.found(v as int));
                        }
                    }
                } else {
                    assert(before.found(i));
                    assert(before.hangs(idx, detour, i));
                    let p = self.prev@[i] as int;
                    assert(before.visited@[p]);
                    assert(p != v);
                    assert forall|x: int| 0 <= x < n && #[trigger] self.visited@[x] && idx.link(
                        x,
                        i,
                    ) implies x == p || sooner(self.at(p), self.at(x)) by {
                        assert(before.visited@[x]);
                        assert(x != v);
                    }
                }
            }
            assert forall|i: int| 0 <= i < n && #[trigger] self.found(i) implies self.pdist@[i]
                <= self.reached@.len() && self.wdist@[i] <= self.pdist@[i] * detour by {
                if i != v {
                    assert(before.found(i));
                }
            }
            assert forall|i: int| 0 <= i < n && !(#[trigger] self.found(i)) implies
                !self.in_frontier@[i] && self.pdist@[i] == usize::MAX && self.prev@[i]
                == u32::MAX by {
                assert(i != v && !before.found(i));
            }
            assert forall|i: int| 0 <= i < n && #[trigger] self.in_frontier@[i] implies
                self.wdist@[i] == 0 && self.pdist@[i] == 0 && self.prev@[i] == u32::MAX by {
                assert(before.in_frontier@[i]);
                assert(i != v);
            }
        }
        assert(self.closed_but(idx, u as int)) by {
            assert forall|a: int, b: int|
                0 <= a < n && 0 <= b < n && #[trigger] idx.link(a, b) && self.visited@[a] && a
                    != u && self.open(idx, b) implies self.found(b) by {
                assert(before.visited@[a]);
                assert(before.open(idx, b));
                assert(before.found(b));
            }
        }
        assert(self.in_order(idx)) by {
            assert forall|x: int, i: int| 0 <= x < n && 0 <= i < n && #[trigger] self.visited@[x]
                && !(#[trigger] self.visited@[i]) && self.found(i) implies sooner(
                self.at(x),
                self.at(i),
            ) by {
                assert(before.visited@[x] && !before.visited@[i]);
                if i == v {
                    assert(x == u || sooner(before.at(x), before.at(u as int)));
                } else {
                    assert(before.found(i));
                }
            }
            assert forall|a: int, b: int| 0 <= a < b < self.reached@.len() implies sooner(
                self.at((#[trigger] self.reached@[a]) as int),
                self.at((#[trigger] self.reached@[b]) as int),
            ) by {
                assert(before.visited@[before.reached@[a] as int]);
                assert(before.visited@[before.reached@[b] as int]);
                assert(sooner(
                    before.at(before.reached@[a] as int),
                    before.at(before.reached@[b] as int),
                ));
            }
        }
        assert(self.queued(idx)) by {
            assert forall|x: u128, i: u32| #[trigger]
                self.heap@.count((x, i)) == (if i < n && self.found(i as int)
                    && !self.visited@[i as int] && x == self.wdist@[i as int] {
                    1nat
                } else {
                    0nat
                }) by {
                assert(before.heap@.count((x, i)) == (if i < n && before.found(i as int)
                    && !before.visited@[i as int] && x == before.wdist@[i as int] {
                    1nat
                } else {
                    0nat
                }));
            }
        }
    }

    /// Offers every step from `u`, the node just visited.
    fn relax(&mut self, idx: &NodeIndex, detour: i64, u: u32, Ghost(g): Ghost<Graph>)
        requires
            detour >= 1,
            idx.indexes(g),
            old(self).sound(idx, detour, u as int),
            old(self).latest(idx, u as int),
        ensures
            final(self).same_question(old(self)),
            final(self).sound(idx, detour, -1),
            final(self).reached@ == old(self).reached@,
    {
        assert(idx.adj_off@[u as int] <= idx.adj_off@[u + 1] <= idx.adj@.len());
        let hi: usize = idx.adj_off[u as usize + 1];
        let mut k: usize = idx.adj_off[u as usize];
        while k < hi
            invariant
                detour >= 1,
                idx.indexes(g),
                idx.adj_off@[u as int] <= k <= hi,
                hi == idx.adj_off@[u + 1],
                hi <= idx.adj@.len(),
                self.same_question(old(self)),
                self.sound(idx, detour, u as int),
                self.latest(idx, u as int),
                self.reached@ == old(self).reached@,
                self.served(idx, u as int, k as int),
            decreases hi - k,
        {
            let v: u32 = idx.adj[k];
            proof {
                let row = NodeIndex::row(idx.adj@, idx.adj_off@, u as int);
                assert(NodeIndex::row_fits(idx.id_of@, row, g, idx.id_of@[u as int]));
                assert(row[k - idx.adj_off@[u as int]] == v);
                assert(idx.link(u as int, v as int));
            }
            let ghost before = *self;
            self.offer(idx, detour, u, v);
            proof {
                assert forall|j: int| idx.adj_off@[u as int] <= j < k + 1 && self.open(
                    idx,
                    #[trigger] idx.adj@[j] as int,
                ) implies self.found(idx.adj@[j] as int) by {
                    let x = idx.adj@[j] as int;
                    let row = NodeIndex::row(idx.adj@, idx.adj_off@, u as int);
                    assert(NodeIndex::row_fits(idx.id_of@, row, g, idx.id_of@[u as int]));
                    assert(row[j - idx.adj_off@[u as int]] == x);
                    if j < k {
                        assert(before.open(idx, x));
                        assert(before.found(x));
                    }
                }
            }
            k = k + 1;
        }
        proof {
            let n = idx.id_of@.len();
            assert forall|a: int, b: int|
                0 <= a < n && 0 <= b < n && #[trigger] idx.link(a, b) && self.visited@[a] && a
                    != -1 && self.open(idx, b) implies self.found(b) by {
                if a == u {
                    let j = choose|j: int|
                        idx.adj_off@[a] <= j < idx.adj_off@[a + 1] && #[trigger] idx.adj@[j] == b;
                    assert(self.open(idx, idx.adj@[j] as int));
                }
            }
        }
    }

    /// Runs the search to its end.
    fn run(
        idx: &NodeIndex,
        frontier: &Vec<u32>,
        excluded: &Vec<u32>,
        detour: i64,
        Ghost(g): Ghost<Graph>,
    ) -> (s: Sweep)
        requires
            detour >= 1,
            idx.indexes(g),
            forall|k: int|
                0 <= k < frontier@.len() ==> (#[trigger] frontier@[k]) < idx.id_of@.len(),
            forall|k: int|
                0 <= k < excluded@.len() ==> (#[trigger] excluded@[k]) < idx.id_of@.len(),
        ensures
            s.sound(idx, detour, -1),
            forall|i: int| 0 <= i < idx.id_of@.len() && #[trigger] s.found(i) ==> s.visited@[i],
            forall|i: int|
                0 <= i < idx.id_of@.len() ==> #[trigger] s.in_frontier@[i] == frontier@.contains(
                    i as u32,
                ),
            forall|i: int|
                0 <= i < idx.id_of@.len() ==> #[trigger] s.is_excluded@[i] == excluded@.contains(
                    i as u32,
                ),
    {
        let mut s = Sweep::begin(idx, frontier, excluded, detour);
        let ghost first = s;
        let mut more: bool = true;
        while more
            invariant
                detour >= 1,
                idx.indexes(g),
                s.sound(idx, detour, -1),
                s.same_question(&first),
                !more ==> forall|i: int|
                    0 <= i < idx.id_of@.len() && #[trigger] s.found(i) ==> s.visited@[i],
            decreases idx.id_of@.len() - s.reached@.len(), (if more { 1int } else { 0int }),
        {
            match s.advance(idx, detour) {
                Some(u) => {
                    s.relax(idx, detour, u, Ghost(g));
                    proof {
                        s.lemma_reached_len(idx);
                    }
                },
                None => {
                    more = false;
                },
            }
        }
        s
    }
}

impl Sweep {
    /// The routes that a finished search has found.
    spec fn result(&self, g: Graph, idx: &NodeIndex) -> Routes {
        let reached = |id: i32| g.ty@.contains_key(id) && self.found(idx.number(id));
        Routes {
            weight: Map::new(reached, |id: i32| self.wdist@[idx.number(id)] as nat),
            prev: Map::new(
                |id: i32| reached(id) && !self.in_frontier@[idx.number(id)],
                |id: i32| idx.id_of@[self.prev@[idx.number(id)] as int],
            ),
            hops: Map::new(reached, |id: i32| self.pdist@[idx.number(id)] as nat),
            order: self.reached@.map_values(|i: u32| idx.id_of@[i as int]),
        }
    }

    #[verifier::spinoff_prover]
    proof fn lemma_result(&self, g: Graph, idx: &NodeIndex, detour: i64, q: Query)
        requires
            detour >= 1,
            idx.indexes(g),
            self.sound(idx, detour, -1),
            forall|i: int|
                0 <= i < idx.id_of@.len() && #[trigger] self.found(i) ==> self.visited@[i],
            forall|i: int|
                0 <= i < idx.id_of@.len() ==> #[trigger] self.in_frontier@[i]
                    == q.frontier.contains(idx.id_of@[i]),
            forall|i: int|
                0 <= i < idx.id_of@.len() ==> #[trigger] self.is_excluded@[i]
                    == q.excluded.contains(idx.id_of@[i]),
            q.detour == detour,
        ensures
            self.result(g, idx).answer(g, q),
    {
        let r = self.result(g, idx);
        let n = idx.id_of@.len();
        assert forall|v: i32| #[trigger] r.reaches(v) implies {
            let i = idx.number(v);
            &&& 0 <= i < n
            &&& idx.id_of@[i] == v
            &&& self.found(i)
            &&& self.visited@[i]
            &&& r.weight[v] == self.wdist@[i]
            &&& r.hops[v] == self.pdist@[i]
            &&& q.source(g, v) == self.in_frontier@[i]
            &&& g.ty@.contains_key(v)
        } by {
            idx.lemma_number(g, v);
            assert(self.in_frontier@[idx.number(v)] == q.frontier.contains(
                idx.id_of@[idx.number(v)],
            ));
        }
        assert(r.hops.dom() =~= r.weight.dom());
        assert(r.order.to_set() =~= r.weight.dom()) by {
            assert forall|v: i32| r.order.to_set().contains(v) <==> r.weight.dom().contains(v) by {
                if r.order.contains(v) {
                    let a = choose|a: int| 0 <= a < r.order.len() && r.order[a] == v;
                    let i = self.reached@[a] as int;
                    assert(self.visited@[i]);
                    idx.lemma_named(g, i);
                    assert(self.found(i));
                }
                if r.weight.dom().contains(v) {
                    assert(r.reaches(v));
                    let i = idx.number(v);
                    assert(self.visited@[i]);
                    assert(self.reached@.contains(i as u32));
                    let a = choose|a: int|
                        0 <= a < self.reached@.len() && self.reached@[a] == i as u32;
                    assert(r.order[a] == v);
                }
            }
        }
        assert forall|v: i32| #[trigger] q.source(g, v) implies r.reaches(v) && r.weight[v] == 0
            && r.hops[v] == 0 && !r.prev.contains_key(v) by {
            idx.lemma_number(g, v);
            let i = idx.number(v);
            assert(self.in_frontier@[i] == q.frontier.contains(idx.id_of@[i]));
            assert(self.in_frontier@[i]);
        }
        assert forall|v: i32| #[trigger] r.reaches(v) && !q.source(g, v) implies q.passable(g, v)
            && r.hangs_well(g, q, v) by {
            let i = idx.number(v);
            assert(self.hangs(idx, detour, i));
            let p = self.prev@[i] as int;
            let u = idx.id_of@[p];
            assert(idx.is_target@[i] == g.target(idx.id_of@[i]));
            idx.lemma_named(g, p);
            idx.lemma_link(g, p, i);
            assert(self.visited@[p]);
            assert(self.found(p));
            assert(r.reaches(u));
            assert(r.prev[v] == u);
            assert(self.is_excluded@[i] == q.excluded.contains(idx.id_of@[i]));
            assert forall|w: i32| #[trigger] r.reaches(w) && g.edge(w, v) implies w == u || nearer(
                r.place(u),
                r.place(w),
            ) by {
                let j = idx.number(w);
                idx.lemma_link(g, j, i);
                assert(self.visited@[j]);
                idx.lemma_id_order(g, p, j);
            }
            if i == idx.start {
                assert(v == g.start);
            }
        }
        assert forall|u: i32, v: i32| #[trigger] g.edge(u, v) && r.reaches(u) && q.passable(
            g,
            v,
        ) implies r.reaches(v) by {
            let i = idx.number(u);
            idx.lemma_number(g, v);
            let j = idx.number(v);
            idx.lemma_link(g, i, j);
            assert(idx.link(i, j));
            assert(idx.is_target@[j] == g.target(idx.id_of@[j]));
            assert(self.in_frontier@[j] == q.frontier.contains(idx.id_of@[j]));
            if v == g.start {
                idx.lemma_named(g, idx.start as int);
            }
            assert(self.open(idx, j));
        }
        assert forall|a: int, b: int| 0 <= a < b < r.order.len() implies nearer(
            r.place(#[trigger] r.order[a]),
            r.place(#[trigger] r.order[b]),
        ) by {
            let i = self.reached@[a] as int;
            let j = self.reached@[b] as int;
            assert(self.visited@[i] && self.visited@[j]);
            assert(self.found(i) && self.found(j));
            assert(sooner(self.at(i), self.at(j)));
            idx.lemma_named(g, i);
            idx.lemma_named(g, j);
            idx.lemma_id_order(g, i, j);
        }
    }
}

/// The routes from one frontier, by index.
pub struct PathResult {
    /// The number of new nodes on the route to each index, `usize::MAX` where
    /// there is none.
    pub pdist: Vec<usize>,
    /// The index before each index, `u32::MAX` where there is none.
    pub prev: Vec<u32>,
    /// Whether each index is one of those that the routes start from.
    pub in_frontier: Vec<bool>,
    /// The reached indices, nearest first.
    pub reached: Vec<u32>,
    /// The routes.
    pub routes: Ghost<Routes>,
}

impl PathResult {
    /// What the arrays say of index `i`.
    pub open spec fn says(&self, idx: &NodeIndex, i: int) -> bool {
        let r = self.routes@;
        let id = idx.id_of@[i];
        &&& self.pdist@[i] == (if r.reaches(id) {
            r.hops[id] as int
        } else {
            usize::MAX as int
        })
        &&& self.in_frontier@[i] == (r.reaches(id) && !r.prev.contains_key(id))
        &&& if r.prev.contains_key(id) {
            &&& self.prev@[i] < idx.id_of@.len()
            &&& idx.id_of@[self.prev@[i] as int] == r.prev[id]
            &&& r.reaches(id)
            &&& r.reaches(r.prev[id])
            &&& r.hops[r.prev[id]] < r.hops[id]
        } else {
            self.prev@[i] == u32::MAX
        }
    }

    /// Whether the arrays hold the routes, over the numbering `idx`.
    pub open spec fn holds(&self, idx: &NodeIndex) -> bool {
        let n = idx.id_of@.len();
        &&& self.pdist@.len() == n
        &&& self.prev@.len() == n
        &&& self.in_frontier@.len() == n
        &&& n <= u32::MAX
        &&& forall|i: int| #![trigger idx.id_of@[i]] 0 <= i < n ==> self.says(idx, i)
        &&& self.reached@.len() == self.routes@.order.len()
        &&& forall|a: int|
            0 <= a < self.reached@.len() ==> (#[trigger] self.reached@[a]) < n
                && idx.id_of@[self.reached@[a] as int] == self.routes@.order[a]
    }

    /// The ids of the new nodes on the route to index `target`, from the target
    /// back to the frontier. A target that no route leads to stands alone.
    pub fn path_to(&self, idx: &NodeIndex, target: u32) -> (path: Vec<i32>)
        requires
            self.holds(idx),
            target < idx.id_of@.len(),
        ensures
            path@ == (if self.routes@.reaches(idx.id_of@[target as int]) {
                self.routes@.path(idx.id_of@[target as int])
            } else {
                seq![idx.id_of@[target as int]]
            }),
    {
        let ghost r = self.routes@;
        let ghost goal = idx.id_of@[target as int];
        let mut out: Vec<i32> = Vec::new();
        let mut cur: u32 = target;
        assert(self.says(idx, target as int));
        while !self.in_frontier[cur as usize]
            invariant_except_break
                r.reaches(goal) ==> r.reaches(idx.id_of@[cur as int]),
                r.reaches(goal) ==> r.path(goal) =~= out@ + r.path(idx.id_of@[cur as int]),
                !r.reaches(goal) ==> cur == target && out@.len() == 0,
            invariant
                self.holds(idx),
                cur < idx.id_of@.len(),
                r == self.routes@,
                goal == idx.id_of@[target as int],
            ensures
                r.reaches(goal) ==> out@ =~= r.path(goal),
                !r.reaches(goal) ==> out@ =~= seq![goal],
            decreases r.hops[idx.id_of@[cur as int]],
        {
            let ghost id = idx.id_of@[cur as int];
            assert(self.says(idx, cur as int));
            out.push(idx.id_of[cur as usize]);
            let p: u32 = self.prev[cur as usize];
            if p == u32::MAX {
                break ;
            }
            assert(r.prev.contains_key(id));
            assert(r.path(id) =~= seq![id] + r.path(r.prev[id]));
            cur = p;
        }
        proof {
            assert(self.says(idx, cur as int));
        }
        out
    }
}

/// The ids that indices stand for.
pub open spec fn names(idx: &NodeIndex, indices: Seq<u32>) -> Seq<i32> {
    indices.map_values(|i: u32| idx.id_of@[i as int])
}

proof fn lemma_names(g: Graph, idx: &NodeIndex, indices: Seq<u32>, i: int)
    requires
        idx.indexes(g),
        0 <= i < idx.id_of@.len(),
        forall|k: int| 0 <= k < indices.len() ==> (#[trigger] indices[k]) < idx.id_of@.len(),
    ensures
        indices.contains(i as u32) <==> names(idx, indices).to_set().contains(idx.id_of@[i]),
{
    let ids = names(idx, indices);
    if indices.contains(i as u32) {
        let k = choose|k: int| 0 <= k < indices.len() && indices[k] == i as u32;
        assert(ids[k] == idx.id_of@[i]);
    }
    if ids.contains(idx.id_of@[i]) {
        let k = choose|k: int| 0 <= k < ids.len() && ids[k] == idx.id_of@[i];
        idx.lemma_id_order(g, indices[k] as int, i);
        idx.lemma_id_order(g, i, indices[k] as int);
        assert(indices[k] == i as u32);
    }
}

/// The shortest routes from the indices in `frontier`, where stepping on one of
/// the indices in `excluded` weighs `detour` and stepping on any other weighs 1.
pub(crate) fn explore(
    idx: &NodeIndex,
    frontier: &Vec<u32>,
    excluded: &Vec<u32>,
    detour: i64,
    Ghost(g): Ghost<Graph>,
) -> (paths: PathResult)
    requires
        detour >= 1,
        idx.indexes(g),
        forall|k: int| 0 <= k < frontier@.len() ==> (#[trigger] frontier@[k]) < idx.id_of@.len(),
        forall|k: int| 0 <= k < excluded@.len() ==> (#[trigger] excluded@[k]) < idx.id_of@.len(),
    ensures
        paths.holds(idx),
        ({
            let q = Query {
                frontier: names(idx, frontier@).to_set(),
                excluded: names(idx, excluded@).to_set(),
                detour: detour as nat,
            };
            paths.routes@.answer(g, q)
        }),
{
    let s = Sweep::run(idx, frontier, excluded, detour, Ghost(g));
    let ghost q = Query {
        frontier: names(idx, frontier@).to_set(),
        excluded: names(idx, excluded@).to_set(),
        detour: detour as nat,
    };
    let ghost r = s.result(g, idx);
    proof {
        assert forall|i: int| 0 <= i < idx.id_of@.len() implies #[trigger] s.in_frontier@[i]
            == q.frontier.contains(idx.id_of@[i]) by {
            lemma_names(g, idx, frontier@, i);
        }
        assert forall|i: int| 0 <= i < idx.id_of@.len() implies #[trigger] s.is_excluded@[i]
            == q.excluded.contains(idx.id_of@[i]) by {
            lemma_names(g, idx, excluded@, i);
        }
        s.lemma_result(g, idx, detour, q);
    }
    let paths = PathResult {
        pdist: s.pdist,
        prev: s.prev,
        in_frontier: s.in_frontier,
        reached: s.reached,
        routes: Ghost(r),
    };
    proof {
        assert forall|i: int|
            #![trigger idx.id_of@[i]]
            0 <= i < idx.id_of@.len() implies paths.says(idx, i) by {
            let id = idx.id_of@[i];
            idx.lemma_named(g, i);
            assert(r.reaches(id) == s.found(i));
            if r.prev.contains_key(id) {
                assert(s.hangs(idx, detour, i));
                assert(!q.source(g, id)) by {
                    assert(s.in_frontier@[i] == q.frontier.contains(idx.id_of@[i]));
                }
                assert(r.hangs_well(g, q, id));
            } else if s.found(i) {
                assert(s.in_frontier@[i]);
            }
        }
        assert(paths.holds(idx));
    }
    paths
}

} // verus!
