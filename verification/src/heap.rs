//! A binary heap that gives back the least `(weight, index)` pair first.

use vstd::multiset::Multiset;
use vstd::prelude::*;

verus! {

/// Order by weight, then by index.
pub open spec fn no_later(a: (u128, u32), b: (u128, u32)) -> bool {
    a.0 < b.0 || (a.0 == b.0 && a.1 <= b.1)
}

/// Every item comes no earlier than its parent.
pub open spec fn heap_ordered(s: Seq<(u128, u32)>) -> bool {
    forall|i: int| 0 < i < s.len() ==> no_later(s[(i - 1) / 2], #[trigger] s[i])
}

/// A min-heap of `(weight, index)` pairs.
pub struct MinHeap {
    items: Vec<(u128, u32)>,
}

impl View for MinHeap {
    type V = Multiset<(u128, u32)>;

    closed spec fn view(&self) -> Multiset<(u128, u32)> {
        self.items@.to_multiset()
    }
}

proof fn lemma_root_is_least(s: Seq<(u128, u32)>, i: int)
    requires
        heap_ordered(s),
        0 <= i < s.len(),
    ensures
        no_later(s[0], s[i]),
    decreases i,
{
    if i > 0 {
        lemma_root_is_least(s, (i - 1) / 2);
        assert(no_later(s[(i - 1) / 2], s[i]));
    }
}

proof fn lemma_swap_multiset(s: Seq<(u128, u32)>, i: int, j: int)
    requires
        0 <= i < s.len(),
        0 <= j < s.len(),
        i != j,
    ensures
        s.update(i, s[j]).update(j, s[i]).to_multiset() =~= s.to_multiset(),
{
    broadcast use vstd::seq_lib::group_to_multiset_ensures;

    assert(s.to_multiset().contains(s[i]));
    assert(s.update(i, s[j]).to_multiset() =~= s.to_multiset().insert(s[j]).remove(s[i]));
    let t = s.update(i, s[j]);
    assert(t[j] == s[j]);
    assert(t.update(j, s[i]).to_multiset() =~= t.to_multiset().insert(s[i]).remove(s[j]));
}

impl MinHeap {
    /// Whether the items are in heap order.
    pub closed spec fn wf(&self) -> bool {
        heap_ordered(self.items@)
    }

    pub fn new() -> (h: MinHeap)
        ensures
            h.wf(),
            h@ == Multiset::<(u128, u32)>::empty(),
    {
        let h = MinHeap { items: Vec::new() };
        proof {
            broadcast use vstd::seq_lib::group_to_multiset_ensures;

            assert(h.items@.to_multiset().len() == 0);
        }
        h
    }

    /// Adds an item.
    pub fn push(&mut self, item: (u128, u32))
        requires
            old(self).wf(),
        ensures
            final(self).wf(),
            final(self)@ == old(self)@.insert(item),
    {
        self.items.push(item);
        let mut i: usize = self.items.len() - 1;
        proof {
            broadcast use vstd::seq_lib::group_to_multiset_ensures;

            assert(self.items@ == old(self).items@.push(item));
            assert(self.items@.to_multiset() =~= old(self).items@.to_multiset().insert(item));
        }
        let ghost bag = self.items@.to_multiset();
        while i > 0
            invariant_except_break
                i < self.items@.len(),
                self.items@.to_multiset() == bag,
                forall|j: int|
                    0 < j < self.items@.len() && j != i ==> no_later(
                        self.items@[(j - 1) / 2],
                        #[trigger] self.items@[j],
                    ),
                forall|j: int|
                    0 < j < self.items@.len() && (j - 1) / 2 == i && i > 0 ==> no_later(
                        self.items@[(i - 1) / 2],
                        #[trigger] self.items@[j],
                    ),
            ensures
                self.items@.to_multiset() == bag,
                heap_ordered(self.items@),
            decreases i,
        {
            let p: usize = (i - 1) / 2;
            let a: (u128, u32) = self.items[p];
            let b: (u128, u32) = self.items[i];
            if a.0 < b.0 || (a.0 == b.0 && a.1 <= b.1) {
                break;
            }
            let ghost before = self.items@;
            self.items.set(p, b);
            self.items.set(i, a);
            proof {
                lemma_swap_multiset(before, p as int, i as int);
                assert(self.items@ =~= before.update(p as int, before[i as int]).update(
                    i as int,
                    before[p as int],
                ));
                assert(no_later(b, a));
                assert forall|j: int| 0 < j < self.items@.len() && j != p implies no_later(
                    self.items@[(j - 1) / 2],
                    #[trigger] self.items@[j],
                ) by {
                    assert(j == i || no_later(before[(j - 1) / 2], before[j]));
                }
                assert forall|j: int|
                    0 < j < self.items@.len() && (j - 1) / 2 == p && p > 0 implies no_later(
                    self.items@[(p - 1) / 2],
                    #[trigger] self.items@[j],
                ) by {
                    assert(no_later(before[(p - 1) / 2], before[p as int]));
                    assert(j == i || no_later(before[(j - 1) / 2], before[j]));
                }
            }
            i = p;
        }
    }

    /// Takes out the least item.
    pub fn pop(&mut self) -> (least: Option<(u128, u32)>)
        requires
            old(self).wf(),
        ensures
            final(self).wf(),
            match least {
                Some(item) => {
                    &&& old(self)@.contains(item)
                    &&& final(self)@ == old(self)@.remove(item)
                    &&& forall|other: (u128, u32)| #[trigger]
                        old(self)@.contains(other) ==> no_later(item, other)
                },
                None => old(self)@.len() == 0 && final(self)@ == old(self)@,
            },
    {
        broadcast use vstd::seq_lib::group_to_multiset_ensures;

        if self.items.len() == 0 {
            return None;
        }
        let least: (u128, u32) = self.items[0];
        proof {
            assert forall|other: (u128, u32)| #[trigger]
                old(self)@.contains(other) implies no_later(
                least,
                other,
            ) by {
                let k = choose|k: int| 0 <= k < self.items@.len() && self.items@[k] == other;
                lemma_root_is_least(self.items@, k);
            }
            assert(self.items@.to_multiset().contains(self.items@[0]));
        }
        let ghost start = self.items@;
        let last: (u128, u32) = self.items[self.items.len() - 1];
        self.items.pop();
        let n: usize = self.items.len();
        let ghost rest = old(self)@.remove(least);
        proof {
            assert(start == self.items@.push(last));
            assert(start.to_multiset() =~= self.items@.to_multiset().insert(last));
        }
        if n == 0 {
            assert(self.items@.to_multiset() =~= rest);
            return Some(least);
        }
        let ghost short = self.items@;
        self.items.set(0, last);
        proof {
            assert(self.items@.to_multiset() =~= short.to_multiset().insert(last).remove(least));
            assert(self.items@.to_multiset() =~= rest);
            assert forall|j: int| 0 < j < n && (j - 1) / 2 != 0 implies no_later(
                self.items@[(j - 1) / 2],
                #[trigger] self.items@[j],
            ) by {
                assert(no_later(start[(j - 1) / 2], start[j]));
            }
        }
        let mut i: usize = 0;
        loop
            invariant_except_break
                i < n,
                n == self.items@.len(),
                self.items@.to_multiset() == rest,
                forall|j: int|
                    0 < j < n && (j - 1) / 2 != i ==> no_later(
                        self.items@[(j - 1) / 2],
                        #[trigger] self.items@[j],
                    ),
                forall|j: int|
                    0 < j < n && (j - 1) / 2 == i && i > 0 ==> no_later(
                        self.items@[(i - 1) / 2],
                        #[trigger] self.items@[j],
                    ),
            ensures
                self.items@.to_multiset() == rest,
                heap_ordered(self.items@),
            decreases n - i,
        {
            if i >= n / 2 {
                assert(heap_ordered(self.items@));
                break;
            }
            let l: usize = 2 * i + 1;
            let mut c: usize = l;
            if l + 1 < n {
                let x: (u128, u32) = self.items[l + 1];
                let y: (u128, u32) = self.items[l];
                if x.0 < y.0 || (x.0 == y.0 && x.1 <= y.1) {
                    c = l + 1;
                }
            }
            let a: (u128, u32) = self.items[i];
            let b: (u128, u32) = self.items[c];
            assert(forall|j: int|
                0 < j < n && (j - 1) / 2 == i ==> no_later(b, #[trigger] self.items@[j])) by {
                assert forall|j: int| 0 < j < n && (j - 1) / 2 == i implies no_later(
                    b,
                    #[trigger] self.items@[j],
                ) by {
                    assert(j == 2 * i + 1 || j == 2 * i + 2);
                }
            }
            if a.0 < b.0 || (a.0 == b.0 && a.1 <= b.1) {
                assert(heap_ordered(self.items@)) by {
                    assert forall|j: int| 0 < j < n implies no_later(
                        self.items@[(j - 1) / 2],
                        #[trigger] self.items@[j],
                    ) by {
                        if (j - 1) / 2 == i {
                            assert(no_later(b, self.items@[j]));
                        }
                    }
                }
                break;
            }
            let ghost before = self.items@;
            self.items.set(i, b);
            self.items.set(c, a);
            proof {
                lemma_swap_multiset(before, i as int, c as int);
                assert(self.items@ =~= before.update(i as int, before[c as int]).update(
                    c as int,
                    before[i as int],
                ));
                assert((c - 1) / 2 == i);
                assert forall|j: int| 0 < j < n && (j - 1) / 2 != c implies no_later(
                    self.items@[(j - 1) / 2],
                    #[trigger] self.items@[j],
                ) by {
                    if (j - 1) / 2 == i {
                        assert(no_later(b, before[j]));
                        assert(no_later(b, a));
                    } else if j == i {
                        assert(no_later(before[(i - 1) / 2], before[c as int]));
                    } else {
                        assert(no_later(before[(j - 1) / 2], before[j]));
                    }
                }
                assert forall|j: int| 0 < j < n && (j - 1) / 2 == c && c > 0 implies no_later(
                    self.items@[(c - 1) / 2],
                    #[trigger] self.items@[j],
                ) by {
                    assert(no_later(before[(j - 1) / 2], before[j]));
                }
            }
            i = c;
        }
        Some(least)
    }
}

} // verus!
