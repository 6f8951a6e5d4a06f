//! The hash tables of `rustc_hash`, as far as the search uses them.
//!
//! `FxHashMap` and `FxHashSet` are the standard tables with the Fx hasher. Each
//! function below makes one call into a table; its contract says what the
//! standard documentation promises of that call for keys whose equality and
//! hash agree, as those of integers, pairs of integers and vectors of integers
//! do. Nothing is said of the order in which a table is walked.

use crate::double::Double;
use rustc_hash::{FxHashMap, FxHashSet};
use std::rc::Rc;
use vstd::prelude::*;

verus! {

/// The hasher of the Fx tables. It carries no state.
#[verifier::external_type_specification]
#[verifier::external_body]
pub struct ExFxBuildHasher(rustc_hash::FxBuildHasher);

/// What scoring one node set gave: the growth score and the two axes behind it.
#[derive(Clone, Copy, Debug, PartialEq, Eq, Structural)]
pub struct Scored {
    pub score: Double,
    pub dps: Double,
    pub ehp: Double,
}

/// A table from a sorted node set to what scoring it gave.
pub type Memo = FxHashMap<Vec<i32>, Scored>;

/// What a score table holds, by the ids of each set.
pub uninterp spec fn scored_sets(memo: Memo) -> Map<Seq<i32>, Scored>;

/// The node sets that a set of node sets holds.
pub uninterp spec fn listed_sets(sets: FxHashSet<Vec<i32>>) -> Set<Seq<i32>>;

/// `FxHashMap::default`: a score table that holds nothing.
#[verifier::external_body]
pub(crate) fn memo_new() -> (memo: Memo)
    ensures
        forall|ids: Seq<i32>| !(#[trigger] scored_sets(memo).contains_key(ids)),
{
    FxHashMap::default()
}

/// `FxHashMap::get` on a score table: the entry of a set with these ids.
#[verifier::external_body]
pub(crate) fn memo_get(memo: &Memo, ids: &Vec<i32>) -> (found: Option<Scored>)
    ensures
        found == (if scored_sets(*memo).contains_key(ids@) {
            Some(scored_sets(*memo)[ids@])
        } else {
            None
        }),
{
    memo.get(ids).copied()
}

/// `FxHashMap::insert` on a score table: adds the entry, or replaces the one
/// that a set with these ids had.
#[verifier::external_body]
pub(crate) fn memo_insert(memo: &mut Memo, ids: Vec<i32>, scored: Scored)
    ensures
        scored_sets(*final(memo)) == scored_sets(*old(memo)).insert(ids@, scored),
{
    memo.insert(ids, scored);
}

/// Whether a set is finite and has `n` members.
pub open spec fn numbers(n: nat, set: Set<Seq<i32>>) -> bool {
    set.finite() && set.len() == n
}

/// `FxHashMap::len` on a score table: the number of entries.
#[verifier::external_body]
pub(crate) fn memo_len(memo: &Memo) -> (n: usize)
    ensures
        numbers(n as nat, scored_sets(*memo).dom()),
{
    memo.len()
}

/// `FxHashMap::iter` on a score table: every entry once, in some order.
#[verifier::external_body]
pub(crate) fn memo_entries(memo: &Memo) -> (entries: Vec<(Vec<i32>, Scored)>)
    ensures
        forall|i: int|
            0 <= i < entries@.len() ==> {
                &&& scored_sets(*memo).contains_key((#[trigger] entries@[i]).0@)
                &&& scored_sets(*memo)[entries@[i].0@] == entries@[i].1
            },
        forall|i: int, j: int|
            0 <= i < j < entries@.len() ==> (#[trigger] entries@[i]).0@ != (
            #[trigger] entries@[j]).0@,
        forall|k: Seq<i32>| #[trigger]
            scored_sets(*memo).contains_key(k) ==> exists|i: int|
                0 <= i < entries@.len() && (#[trigger] entries@[i]).0@ == k,
{
    memo.iter().map(|(ids, scored)| (ids.clone(), *scored)).collect()
}

/// `FxHashSet::default`: a set of node sets that holds nothing.
#[verifier::external_body]
pub(crate) fn seen_new() -> (seen: FxHashSet<Vec<i32>>)
    ensures
        listed_sets(seen) == Set::<Seq<i32>>::empty(),
{
    FxHashSet::default()
}

/// `FxHashSet::insert` on a set of node sets: true where the set was not held.
#[verifier::external_body]
pub(crate) fn seen_insert(seen: &mut FxHashSet<Vec<i32>>, ids: Vec<i32>) -> (fresh: bool)
    ensures
        listed_sets(*final(seen)) == listed_sets(*old(seen)).insert(ids@),
        fresh == !listed_sets(*old(seen)).contains(ids@),
{
    seen.insert(ids)
}

/// `FxHashSet::contains` on a set of node sets.
#[verifier::external_body]
pub(crate) fn seen_contains(seen: &FxHashSet<Vec<i32>>, ids: &Vec<i32>) -> (held: bool)
    ensures
        held == listed_sets(*seen).contains(ids@),
{
    seen.contains(ids)
}

/// `FxHashMap::get` on a table keyed by node ids.
#[verifier::external_body]
pub(crate) fn id_map_get<V>(map: &FxHashMap<i32, V>, id: i32) -> (found: Option<&V>)
    ensures
        match found {
            Some(v) => map@.contains_key(id) && map@[id] == *v,
            None => !map@.contains_key(id),
        },
{
    map.get(&id)
}

/// `FxHashMap::insert` on a table keyed by node ids.
#[verifier::external_body]
pub(crate) fn id_map_insert<V>(map: &mut FxHashMap<i32, V>, id: i32, v: V)
    ensures
        final(map)@ == old(map)@.insert(id, v),
{
    map.insert(id, v);
}

/// `FxHashMap::get` on a table keyed by pairs of signatures.
#[verifier::external_body]
pub(crate) fn pair_map_get<V>(
    map: &FxHashMap<(u64, u64), V>,
    key: (u64, u64),
) -> (found: Option<&V>)
    ensures
        match found {
            Some(v) => map@.contains_key(key) && map@[key] == *v,
            None => !map@.contains_key(key),
        },
{
    map.get(&key)
}

/// `FxHashMap::insert` on a table keyed by pairs of signatures.
#[verifier::external_body]
pub(crate) fn pair_map_insert<V>(map: &mut FxHashMap<(u64, u64), V>, key: (u64, u64), v: V)
    ensures
        final(map)@ == old(map)@.insert(key, v),
{
    map.insert(key, v);
}

/// `FxHashSet::insert` on a set of node ids.
#[verifier::external_body]
pub(crate) fn id_set_insert(set: &mut FxHashSet<i32>, id: i32)
    ensures
        final(set)@ == old(set)@.insert(id),
{
    set.insert(id);
}

/// `FxHashSet::contains` on a set of node ids.
#[verifier::external_body]
pub(crate) fn id_set_contains(set: &FxHashSet<i32>, id: i32) -> (held: bool)
    ensures
        held == set@.contains(id),
{
    set.contains(&id)
}

/// `FxHashSet::clone` on a set of node ids.
#[verifier::external_body]
pub(crate) fn id_set_clone(set: &FxHashSet<i32>) -> (copy: FxHashSet<i32>)
    ensures
        copy@ == set@,
{
    set.clone()
}

/// `FxHashSet::iter` on a set of node ids: every id once, in some order.
#[verifier::external_body]
pub(crate) fn id_set_items(set: &FxHashSet<i32>) -> (ids: Vec<i32>)
    ensures
        ids@.no_duplicates(),
        ids@.to_set() == set@,
{
    set.iter().copied().collect()
}

/// `Rc::clone`: a second handle to the same value.
#[verifier::external_body]
pub(crate) fn share<T>(rc: &Rc<T>) -> (copy: Rc<T>)
    ensures
        copy == *rc,
{
    Rc::clone(rc)
}

/// `slice::sort_unstable` on ids: the same ids in ascending order.
#[verifier::external_body]
pub(crate) fn sort_ids(ids: &mut Vec<i32>)
    ensures
        final(ids)@.to_multiset() == old(ids)@.to_multiset(),
        forall|i: int, j: int|
            0 <= i < j < final(ids)@.len() ==> #[trigger] final(ids)@[i]
                <= #[trigger] final(ids)@[j],
{
    ids.sort_unstable();
}

/// `slice::sort_unstable` on pairs of integers: the same pairs in ascending
/// order, by the first member and then by the second.
#[verifier::external_body]
pub(crate) fn sort_pairs(pairs: &mut Vec<(i64, usize)>)
    ensures
        final(pairs)@.to_multiset() == old(pairs)@.to_multiset(),
        forall|i: int, j: int|
            0 <= i < j < final(pairs)@.len() ==> {
                let a = #[trigger] final(pairs)@[i];
                let b = #[trigger] final(pairs)@[j];
                a.0 < b.0 || (a.0 == b.0 && a.1 <= b.1)
            },
{
    pairs.sort_unstable();
}

} // verus!
