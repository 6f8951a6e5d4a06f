//! Sorted id lists and stable rankings.

use crate::fx::{id_set_items, sort_ids, sort_pairs};
use rustc_hash::FxHashSet;
use vstd::prelude::*;

verus! {

/// Strictly ascending, so without repetition.
pub open spec fn ascending(s: Seq<i32>) -> bool {
    forall|i: int, j: int| 0 <= i < j < s.len() ==> #[trigger] s[i] < #[trigger] s[j]
}

/// The members of a finite set in ascending order.
pub open spec fn listing(set: Set<i32>) -> Seq<i32> {
    choose|s: Seq<i32>| ascending(s) && s.to_set() == set
}

/// An ascending list is determined by its members.
pub proof fn lemma_ascending_unique(a: Seq<i32>, b: Seq<i32>)
    requires
        ascending(a),
        ascending(b),
        a.to_set() == b.to_set(),
    ensures
        a == b,
{
    lemma_ascending_multiset(a, b);
    lemma_ascending_multiset(b, a);
    assert(a.to_multiset() =~= b.to_multiset());
    let leq = |x: i32, y: i32| x <= y;
    assert(vstd::relations::sorted_by(a, leq)) by {
        assert forall|i: int, j: int| 0 <= i < j < a.len() implies #[trigger] leq(a[i], a[j]) by {
            assert(a[i] < a[j]);
        }
    }
    assert(vstd::relations::sorted_by(b, leq)) by {
        assert forall|i: int, j: int| 0 <= i < j < b.len() implies #[trigger] leq(b[i], b[j]) by {
            assert(b[i] < b[j]);
        }
    }
    vstd::seq_lib::lemma_sorted_unique(a, b, leq);
}

proof fn lemma_ascending_multiset(a: Seq<i32>, b: Seq<i32>)
    requires
        ascending(a),
        ascending(b),
        a.to_set() == b.to_set(),
    ensures
        forall|x: i32| a.to_multiset().count(x) <= b.to_multiset().count(x),
{
    broadcast use vstd::seq_lib::group_to_multiset_ensures;

    assert(a.no_duplicates());
    assert(b.no_duplicates());
    a.lemma_multiset_has_no_duplicates();
    b.lemma_multiset_has_no_duplicates();
    assert forall|x: i32| a.to_multiset().count(x) <= b.to_multiset().count(x) by {
        if a.to_multiset().count(x) > 0 {
            assert(a.contains(x));
            assert(a.to_set().contains(x));
            assert(b.to_set().contains(x));
            assert(b.contains(x));
            assert(b.to_multiset().contains(x));
        }
    }
}

/// The ascending list of a set is its listing.
pub proof fn lemma_listing(s: Seq<i32>, set: Set<i32>)
    requires
        ascending(s),
        s.to_set() == set,
    ensures
        listing(set) == s,
{
    lemma_ascending_unique(listing(set), s);
}

/// Sorts ids that do not repeat.
pub fn into_ascending(ids: Vec<i32>) -> (sorted: Vec<i32>)
    requires
        ids@.no_duplicates(),
    ensures
        ascending(sorted@),
        sorted@.to_set() == ids@.to_set(),
        sorted@.len() == ids@.len(),
        sorted@ == listing(ids@.to_set()),
{
    let mut sorted = ids;
    sort_ids(&mut sorted);
    proof {
        broadcast use vstd::seq_lib::group_to_multiset_ensures;

        ids@.lemma_multiset_has_no_duplicates();
        assert(sorted@.to_multiset() == ids@.to_multiset());
        assert forall|x: i32| sorted@.to_multiset().contains(x) implies sorted@.to_multiset().count(
            x,
        ) == 1 by {
            assert(ids@.to_multiset().contains(x));
        }
        sorted@.lemma_multiset_has_no_duplicates_conv();
        assert forall|i: int, j: int| 0 <= i < j < sorted@.len() implies #[trigger] sorted@[i]
            < #[trigger] sorted@[j] by {}
        assert forall|x: i32| sorted@.to_set().contains(x) <==> ids@.to_set().contains(x) by {
            assert(sorted@.contains(x) <==> sorted@.to_multiset().count(x) > 0);
            assert(ids@.contains(x) <==> ids@.to_multiset().count(x) > 0);
        }
        assert(sorted@.to_set() =~= ids@.to_set());
        assert(sorted@.len() == sorted@.to_multiset().len());
        lemma_listing(sorted@, ids@.to_set());
    }
    sorted
}

/// The ids of a set in ascending order.
pub fn list_ids(set: &FxHashSet<i32>) -> (ids: Vec<i32>)
    ensures
        ascending(ids@),
        ids@.to_set() == set@,
        ids@ == listing(set@),
{
    into_ascending(id_set_items(set))
}

/// Whether `p` lists the positions of `keys` from the highest key to the lowest,
/// positions with equal keys in their own order.
pub open spec fn ranks(keys: Seq<int>, p: Seq<int>) -> bool {
    &&& p.len() == keys.len()
    &&& forall|i: int| 0 <= i < p.len() ==> 0 <= #[trigger] p[i] < keys.len()
    &&& forall|i: int, j: int|
        0 <= i < j < p.len() ==> {
            let a = #[trigger] p[i];
            let b = #[trigger] p[j];
            keys[a] > keys[b] || (keys[a] == keys[b] && a < b)
        }
}

/// The positions of `keys` from the highest key to the lowest, equal keys in
/// their own order.
pub open spec fn ranking(keys: Seq<int>) -> Seq<int> {
    choose|p: Seq<int>| ranks(keys, p)
}

/// The items in descending order of their keys, equal ones in their own order.
pub open spec fn sorted_by_key<T>(items: Seq<T>, key: spec_fn(T) -> int) -> Seq<T> {
    ranking(items.map_values(key)).map_values(|i: int| items[i])
}

/// `i` comes before `j` in the ranking.
spec fn ahead(keys: Seq<int>, i: int, j: int) -> bool {
    keys[i] > keys[j] || (keys[i] == keys[j] && i < j)
}

proof fn lemma_ranks_cover(keys: Seq<int>, p: Seq<int>, k: int)
    requires
        ranks(keys, p),
        0 <= k < keys.len(),
    ensures
        p.contains(k),
{
    assert(p.no_duplicates());
    p.unique_seq_to_set();
    let all = vstd::set_lib::set_int_range(0, keys.len() as int);
    vstd::set_lib::lemma_int_range(0, keys.len() as int);
    assert(p.to_set().subset_of(all));
    vstd::set_lib::lemma_subset_equality(p.to_set(), all);
    assert(p.to_set().contains(k));
}

/// There is one ranking.
pub proof fn lemma_ranks_unique(keys: Seq<int>, p: Seq<int>, q: Seq<int>)
    requires
        ranks(keys, p),
        ranks(keys, q),
    ensures
        p == q,
{
    assert forall|i: int| 0 <= i < p.len() implies p[i] == q[i] by {
        lemma_ranks_agree(keys, p, q, i);
    }
    assert(p =~= q);
}

proof fn lemma_ranks_agree(keys: Seq<int>, p: Seq<int>, q: Seq<int>, i: int)
    requires
        ranks(keys, p),
        ranks(keys, q),
        0 <= i < p.len(),
    ensures
        p[i] == q[i],
    decreases i,
{
    assert forall|j: int| 0 <= j < i implies p[j] == q[j] by {
        lemma_ranks_agree(keys, p, q, j);
    }
    lemma_ranks_cover(keys, q, p[i]);
    lemma_ranks_cover(keys, p, q[i]);
    let a = choose|a: int| 0 <= a < q.len() && q[a] == p[i];
    let b = choose|b: int| 0 <= b < p.len() && p[b] == q[i];
    if a < i {
        assert(p[a] == q[a]);
        assert(ahead(keys, p[a], p[i]));
    }
    if b < i {
        assert(q[b] == p[b]);
        assert(ahead(keys, q[b], q[i]));
    }
    if a > i && b > i {
        assert(ahead(keys, q[i], q[a]));
        assert(ahead(keys, p[i], p[b]));
    }
}

pub proof fn lemma_ranking(keys: Seq<int>, p: Seq<int>)
    requires
        ranks(keys, p),
    ensures
        ranking(keys) == p,
{
    lemma_ranks_unique(keys, ranking(keys), p);
}

/// The positions of `keys` from the highest key to the lowest, equal keys in
/// their own order.
pub fn rank_descending(keys: &Vec<i64>) -> (p: Vec<usize>)
    requires
        forall|i: int| 0 <= i < keys@.len() ==> #[trigger] keys@[i] > i64::MIN,
    ensures
        ranks(keys@.map_values(|k: i64| k as int), p@.map_values(|i: usize| i as int)),
        p@.map_values(|i: usize| i as int) == ranking(keys@.map_values(|k: i64| k as int)),
        p@.len() == keys@.len(),
        forall|i: int| 0 <= i < p@.len() ==> 0 <= #[trigger] p@[i] < keys@.len(),
{
    let mut pairs: Vec<(i64, usize)> = Vec::with_capacity(keys.len());
    let mut i: usize = 0;
    while i < keys.len()
        invariant
            i <= keys@.len(),
            pairs@.len() == i,
            forall|j: int| 0 <= j < keys@.len() ==> #[trigger] keys@[j] > i64::MIN,
            forall|j: int| 0 <= j < i ==> #[trigger] pairs@[j] == ((-keys@[j]) as i64, j as usize),
        decreases keys@.len() - i,
    {
        pairs.push((-keys[i], i));
        i = i + 1;
    }
    let ghost before = pairs@;
    sort_pairs(&mut pairs);
    let mut p: Vec<usize> = Vec::with_capacity(pairs.len());
    proof {
        broadcast use vstd::seq_lib::group_to_multiset_ensures;

        assert(pairs@.to_multiset().len() == before.to_multiset().len());
        assert(pairs@.len() == before.len());
        assert forall|j: int| 0 <= j < pairs@.len() implies ({
            let x = #[trigger] pairs@[j];
            x.1 < keys@.len() && x.0 == -keys@[x.1 as int]
        }) by {
            assert(pairs@.to_multiset().contains(pairs@[j]));
            assert(before.contains(pairs@[j]));
        }
        assert(before.no_duplicates());
        before.lemma_multiset_has_no_duplicates();
        pairs@.lemma_multiset_has_no_duplicates_conv();
    }
    let mut i: usize = 0;
    while i < pairs.len()
        invariant
            i <= pairs@.len(),
            p@.len() == i,
            forall|j: int| 0 <= j < i ==> #[trigger] p@[j] == pairs@[j].1,
        decreases pairs@.len() - i,
    {
        p.push(pairs[i].1);
        i = i + 1;
    }
    proof {
        let ks = keys@.map_values(|k: i64| k as int);
        let q = p@.map_values(|i: usize| i as int);
        assert forall|i: int, j: int| 0 <= i < j < q.len() implies ({
            let a = #[trigger] q[i];
            let b = #[trigger] q[j];
            ks[a] > ks[b] || (ks[a] == ks[b] && a < b)
        }) by {
            let x = pairs@[i];
            let y = pairs@[j];
            assert(x != y);
        }
        assert(ranks(ks, q));
        lemma_ranking(ks, q);
    }
    p
}

/// There is a ranking.
pub proof fn lemma_ranking_exists(keys: Seq<int>) -> (p: Seq<int>)
    ensures
        ranks(keys, p),
        p == ranking(keys),
    decreases keys.len(),
{
    if keys.len() == 0 {
        let p = Seq::<int>::empty();
        assert(ranks(keys, p));
        lemma_ranking(keys, p);
        p
    } else {
        let n = keys.len() - 1;
        let short = keys.drop_last();
        let q = lemma_ranking_exists(short);
        let x = keys.last();
        let at = lemma_place(short, q, x, 0);
        let p = q.insert(at, n);
        assert forall|i: int| 0 <= i < p.len() implies 0 <= #[trigger] p[i] < keys.len() by {
            if i < at {
                assert(p[i] == q[i]);
            } else if i > at {
                assert(p[i] == q[i - 1]);
            }
        }
        assert forall|i: int, j: int| 0 <= i < j < p.len() implies ({
            let a = #[trigger] p[i];
            let b = #[trigger] p[j];
            keys[a] > keys[b] || (keys[a] == keys[b] && a < b)
        }) by {
            let qi = if i < at { i } else { i - 1 };
            let qj = if j < at { j } else { j - 1 };
            if i != at {
                assert(p[i] == q[qi]);
                assert(0 <= q[qi] < short.len());
                assert(keys[p[i]] == short[q[qi]]);
            }
            if j != at {
                assert(p[j] == q[qj]);
                assert(0 <= q[qj] < short.len());
                assert(keys[p[j]] == short[q[qj]]);
            }
        }
        assert(ranks(keys, p));
        lemma_ranking(keys, p);
        p
    }
}

/// Where the last key belongs: behind all keys that are no lower.
proof fn lemma_place(short: Seq<int>, q: Seq<int>, x: int, from: int) -> (at: int)
    requires
        ranks(short, q),
        0 <= from <= q.len(),
        forall|i: int| 0 <= i < from ==> short[#[trigger] q[i]] >= x,
    ensures
        0 <= at <= q.len(),
        forall|i: int| 0 <= i < at ==> short[#[trigger] q[i]] >= x,
        forall|i: int| at <= i < q.len() ==> short[#[trigger] q[i]] < x,
    decreases q.len() - from,
{
    if from < q.len() && short[q[from]] >= x {
        lemma_place(short, q, x, from + 1)
    } else {
        assert forall|i: int| from <= i < q.len() implies short[#[trigger] q[i]] < x by {
            if i > from {
                let a = q[from];
                let b = q[i];
                assert(short[a] > short[b] || (short[a] == short[b] && a < b));
            }
        }
        from
    }
}

/// A sorted list is as long as the list.
pub proof fn lemma_sorted_len<T>(items: Seq<T>, key: spec_fn(T) -> int)
    ensures
        sorted_by_key(items, key).len() == items.len(),
{
    lemma_ranking_exists(items.map_values(key));
}

/// A sorted list holds what the list holds.
pub proof fn lemma_sorted_among<T>(items: Seq<T>, key: spec_fn(T) -> int, k: int)
    requires
        0 <= k < sorted_by_key(items, key).len(),
    ensures
        items.contains(sorted_by_key(items, key)[k]),
        sorted_by_key(items, key).len() == items.len(),
{
    let keys = items.map_values(key);
    let p = lemma_ranking_exists(keys);
    assert(0 <= p[k] < keys.len());
    assert(sorted_by_key(items, key)[k] == items[p[k]]);
}

/// A sorted list holds nothing twice where the list does not.
pub proof fn lemma_sorted_distinct<T>(items: Seq<T>, key: spec_fn(T) -> int)
    requires
        items.no_duplicates(),
    ensures
        sorted_by_key(items, key).no_duplicates(),
{
    let keys = items.map_values(key);
    let p = lemma_ranking_exists(keys);
    let s = sorted_by_key(items, key);
    assert forall|i: int, j: int|
        0 <= i < s.len() && 0 <= j < s.len() && i != j implies s[i] != s[j] by {
        let a = p[i];
        let b = p[j];
        assert(0 <= a < keys.len() && 0 <= b < keys.len());
        if i < j {
            assert(keys[a] > keys[b] || (keys[a] == keys[b] && a < b));
        } else {
            assert(keys[b] > keys[a] || (keys[b] == keys[a] && b < a));
        }
        assert(items[a] != items[b]);
    }
}

/// A finite set of ids that is not empty has a greatest member.
proof fn lemma_greatest(set: Set<i32>) -> (x: i32)
    requires
        set.finite(),
        set.len() > 0,
    ensures
        set.contains(x),
        forall|y: i32| set.contains(y) ==> y <= x,
    decreases set.len(),
{
    let a = set.choose();
    assert(set.contains(a));
    let rest = set.remove(a);
    if rest.len() == 0 {
        assert forall|y: i32| set.contains(y) implies y <= a by {
            if y != a {
                assert(rest.contains(y));
            }
        }
        a
    } else {
        let b = lemma_greatest(rest);
        assert forall|y: i32| set.contains(y) implies y <= (if a > b { a } else { b }) by {
            if y != a {
                assert(rest.contains(y));
            }
        }
        if a > b {
            a
        } else {
            b
        }
    }
}

/// A finite set of ids can be listed in ascending order.
pub proof fn lemma_listing_exists(set: Set<i32>) -> (s: Seq<i32>)
    requires
        set.finite(),
    ensures
        ascending(s),
        s.to_set() == set,
        s.len() == set.len(),
    decreases set.len(),
{
    if set.len() == 0 {
        let s = Seq::<i32>::empty();
        assert(s.to_set() =~= set);
        s
    } else {
        let x = lemma_greatest(set);
        let s = lemma_listing_exists(set.remove(x));
        let t = s.push(x);
        assert forall|i: int, j: int| 0 <= i < j < t.len() implies #[trigger] t[i]
            < #[trigger] t[j] by {
            if j == s.len() {
                assert(s.contains(s[i]));
                assert(s.to_set().contains(s[i]));
                assert(set.remove(x).contains(s[i]));
            }
        }
        assert(t.to_set() =~= set) by {
            assert forall|y: i32| t.to_set().contains(y) <==> set.contains(y) by {
                if set.contains(y) && y != x {
                    assert(s.to_set().contains(y));
                    let j = choose|j: int| 0 <= j < s.len() && s[j] == y;
                    assert(t[j] == y);
                }
                assert(t[s.len() as int] == x);
                if t.contains(y) && y != x {
                    let j = choose|j: int| 0 <= j < t.len() && t[j] == y;
                    assert(s[j] == y);
                    assert(s.to_set().contains(y));
                }
            }
        }
        t
    }
}

/// A list that is sorted by descending keys holds all that the list holds, and no
/// member stands before one with a greater key.
pub proof fn lemma_sorted<T>(items: Seq<T>, key: spec_fn(T) -> int)
    ensures
        forall|x: T| #[trigger] items.contains(x) ==> sorted_by_key(items, key).contains(x),
        forall|i: int, j: int|
            0 <= i <= j < sorted_by_key(items, key).len() ==> key(
                #[trigger] sorted_by_key(items, key)[i],
            ) >= key(#[trigger] sorted_by_key(items, key)[j]),
{
    let keys = items.map_values(key);
    let p = lemma_ranking_exists(keys);
    let s = sorted_by_key(items, key);
    assert forall|x: T| #[trigger] items.contains(x) implies s.contains(x) by {
        let k = choose|k: int| 0 <= k < items.len() && items[k] == x;
        lemma_ranks_cover(keys, p, k);
        let i = choose|i: int| 0 <= i < p.len() && p[i] == k;
        assert(s[i] == x);
    }
    assert forall|i: int, j: int| 0 <= i <= j < s.len() implies key(#[trigger] s[i]) >= key(
        #[trigger] s[j],
    ) by {
        assert(0 <= p[i] < keys.len() && 0 <= p[j] < keys.len());
        if i < j {
            assert(ahead(keys, p[i], p[j]));
        }
    }
}

} // verus!
