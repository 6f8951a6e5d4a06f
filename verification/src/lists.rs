//! Lists: their beginnings, and what is left of them without repetitions.

use vstd::prelude::*;

verus! {

/// The first `n` members of a list, or all of them where there are fewer.
pub open spec fn at_most_first<T>(s: Seq<T>, n: nat) -> Seq<T> {
    if n <= s.len() {
        s.take(n as int)
    } else {
        s
    }
}

/// The list behind its first `n` members.
pub open spec fn behind<T>(s: Seq<T>, n: nat) -> Seq<T> {
    if n <= s.len() {
        s.skip(n as int)
    } else {
        Seq::empty()
    }
}

/// A list without what came earlier in it.
pub open spec fn distinct<T>(s: Seq<T>) -> Seq<T>
    decreases s.len(),
{
    if s.len() == 0 {
        s
    } else {
        let before = distinct(s.drop_last());
        if s.drop_last().contains(s.last()) {
            before
        } else {
            before.push(s.last())
        }
    }
}

/// A list without repetitions holds nothing twice, and the same members.
pub proof fn lemma_distinct<T>(s: Seq<T>)
    ensures
        distinct(s).no_duplicates(),
        forall|x: T| distinct(s).contains(x) <==> s.contains(x),
    decreases s.len(),
{
    if s.len() > 0 {
        let t = s.drop_last();
        let x = s.last();
        lemma_distinct(t);
        let d = distinct(t);
        assert forall|y: T| s.contains(y) <==> t.contains(y) || y == x by {
            if t.contains(y) {
                let j = choose|j: int| 0 <= j < t.len() && t[j] == y;
                assert(s[j] == y);
            }
            if s.contains(y) && y != x {
                let j = choose|j: int| 0 <= j < s.len() && s[j] == y;
                assert(t[j] == y);
            }
            assert(s[s.len() - 1] == x);
        }
        if !t.contains(x) {
            let more = d.push(x);
            assert forall|y: T| more.contains(y) <==> d.contains(y) || y == x by {
                if d.contains(y) {
                    let j = choose|j: int| 0 <= j < d.len() && d[j] == y;
                    assert(more[j] == y);
                }
                if more.contains(y) && y != x {
                    let j = choose|j: int| 0 <= j < more.len() && more[j] == y;
                    assert(d[j] == y);
                }
                assert(more[d.len() as int] == x);
            }
            assert forall|i: int, j: int|
                0 <= i < more.len() && 0 <= j < more.len() && i != j implies more[i]
                != more[j] by {
                if i == d.len() {
                    assert(d.contains(d[j]));
                } else if j == d.len() {
                    assert(d.contains(d[i]));
                }
            }
        }
    }
}

/// Filtering keeps members apart.
pub proof fn lemma_filter_distinct<T>(s: Seq<T>, keep: spec_fn(T) -> bool)
    requires
        s.no_duplicates(),
    ensures
        s.filter(keep).no_duplicates(),
    decreases s.len(),
{
    reveal(Seq::filter);
    if s.len() > 0 {
        let t = s.drop_last();
        lemma_filter_distinct(t, keep);
        let u = t.filter(keep);
        if keep(s.last()) && u.contains(s.last()) {
            t.lemma_filter_contains_rev(keep, s.last());
            let i = choose|i: int| 0 <= i < t.len() && t[i] == s.last();
            assert(s[i] == s[s.len() - 1]);
        }
        if keep(s.last()) {
            assert(s.filter(keep) =~= u.push(s.last()));
            assert forall|i: int, j: int|
                0 <= i < u.len() + 1 && 0 <= j < u.len() + 1 && i != j implies u.push(
                s.last(),
            )[i] != u.push(s.last())[j] by {
                if i == u.len() {
                    assert(u.contains(u[j]));
                } else if j == u.len() {
                    assert(u.contains(u[i]));
                }
            }
        }
    }
}

pub proof fn lemma_contains_push<T>(s: Seq<T>, x: T, y: T)
    ensures
        s.push(x).contains(y) <==> s.contains(y) || x == y,
{
    if s.contains(y) {
        let i = choose|i: int| 0 <= i < s.len() && s[i] == y;
        assert(s.push(x)[i] == y);
    }
    if x == y {
        assert(s.push(x)[s.len() as int] == y);
    }
}

/// What is made of the members of a list does not depend on their order.
pub proof fn lemma_map_multiset<A, B>(a: Seq<A>, b: Seq<A>, f: spec_fn(A) -> B)
    requires
        a.to_multiset() == b.to_multiset(),
    ensures
        a.map_values(f).to_multiset() == b.map_values(f).to_multiset(),
    decreases a.len(),
{
    broadcast use vstd::seq_lib::group_to_multiset_ensures;

    assert(a.len() == a.to_multiset().len());
    assert(b.len() == b.to_multiset().len());
    if a.len() == 0 {
        assert(a.map_values(f) =~= b.map_values(f));
    } else {
        let x = a.last();
        assert(a.to_multiset().contains(x));
        assert(b.contains(x));
        let i = choose|i: int| 0 <= i < b.len() && b[i] == x;
        assert(a.drop_last() =~= a.remove(a.len() - 1));
        lemma_map_multiset(a.drop_last(), b.remove(i), f);
        assert(a.map_values(f) =~= a.drop_last().map_values(f).push(f(x)));
        let fb = b.map_values(f);
        assert(fb.remove(i) =~= b.remove(i).map_values(f));
        assert(fb.to_multiset().contains(f(x))) by {
            assert(fb[i] == f(x));
        }
        assert(fb.remove(i).to_multiset() =~= fb.to_multiset().remove(f(x)));
        assert(a.map_values(f).to_multiset() =~= fb.to_multiset());
    }
}

} // verus!
