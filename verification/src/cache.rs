//! The score cache between runs: what the search has scored, as bytes that can be
//! kept.
//!
//! Only the two axes of each node set are kept. The growth score follows from them
//! under whatever weights hold when the bytes are read, so that a cache outlives a
//! change of weights. The bytes begin with the signature of the build; those of
//! another build are not used.
//!
//! Layout, all numbers little-endian: `POBC`, a 32-bit version, the 64-bit
//! signature, a 64-bit number of entries, and for each entry a 32-bit number of
//! ids, the ids with 32 bits each, and the two axes with 64 bits each.

use crate::double::Double;
use crate::fx::{memo_entries, memo_insert, memo_new, scored_sets, Memo, Scored};
use crate::graph::Graph;
use crate::signature::word;
use vstd::prelude::*;

verus! {

/// The layout that is written and read.
pub const VERSION: u32 = 1;

/// The most ids that an entry may have; one that announces more is taken for
/// damage.
pub const MAX_IDS: u32 = 1_000_000;

/// The first bytes, `POBC`.
pub open spec fn magic() -> Seq<u8> {
    seq![0x50u8, 0x4F, 0x42, 0x43]
}

/// The number that bytes write, lowest byte first.
pub open spec fn le_value(s: Seq<u8>) -> nat
    decreases s.len(),
{
    if s.len() == 0 {
        0
    } else {
        s[0] as nat + 256 * le_value(s.drop_first())
    }
}

/// The lowest `k` bytes of a number, lowest byte first.
pub open spec fn le_bytes(n: nat, k: nat) -> Seq<u8>
    decreases k,
{
    if k == 0 {
        Seq::empty()
    } else {
        seq![(n % 256) as u8] + le_bytes(n / 256, (k - 1) as nat)
    }
}

/// `256` to the power of `k`.
pub open spec fn power256(k: nat) -> nat
    decreases k,
{
    if k == 0 {
        1
    } else {
        256 * power256((k - 1) as nat)
    }
}

/// The id that 32 bits stand for.
pub open spec fn id_of_word(w: nat) -> i32 {
    (if w < 0x8000_0000 {
        w as int
    } else {
        w - 0x1_0000_0000
    }) as i32
}

/// The bytes of some ids.
pub open spec fn id_bytes(ids: Seq<i32>) -> Seq<u8>
    decreases ids.len(),
{
    if ids.len() == 0 {
        Seq::empty()
    } else {
        id_bytes(ids.drop_last()) + le_bytes(word(ids.last()) as nat, 4)
    }
}

/// A node set with what is known of it.
pub struct Entry {
    pub ids: Seq<i32>,
    pub scored: Scored,
}

/// The bytes of an entry.
pub open spec fn entry_bytes(e: Entry) -> Seq<u8> {
    le_bytes(e.ids.len(), 4) + id_bytes(e.ids) + le_bytes(e.scored.dps.bits as nat, 8) + le_bytes(
        e.scored.ehp.bits as nat,
        8,
    )
}

/// The bytes of some entries.
pub open spec fn entries_bytes(all: Seq<Entry>) -> Seq<u8>
    decreases all.len(),
{
    if all.len() == 0 {
        Seq::empty()
    } else {
        entries_bytes(all.drop_last()) + entry_bytes(all.last())
    }
}

/// What stands before the entries.
pub open spec fn header(sig: u64, count: nat) -> Seq<u8> {
    magic() + le_bytes(VERSION as nat, 4) + le_bytes(sig as nat, 8) + le_bytes(count, 8)
}

/// Those of the entries that are worth keeping: both axes are finite.
pub open spec fn kept(all: Seq<Entry>) -> Seq<Entry> {
    all.filter(|e: Entry| e.scored.dps.finite() && e.scored.ehp.finite())
}

/// The bytes of a cache of a build.
pub open spec fn encoded(sig: u64, all: Seq<Entry>) -> Seq<u8> {
    header(sig, kept(all).len()) + entries_bytes(kept(all))
}

/// Whether `all` lists the entries of a table, each once.
pub open spec fn lists(all: Seq<Entry>, table: Map<Seq<i32>, Scored>) -> bool {
    &&& forall|i: int|
        0 <= i < all.len() ==> table.contains_key((#[trigger] all[i]).ids) && table[all[i].ids]
            == all[i].scored
    &&& forall|i: int, j: int|
        0 <= i < j < all.len() ==> (#[trigger] all[i]).ids != (#[trigger] all[j]).ids
    &&& forall|ids: Seq<i32>| #[trigger]
        table.contains_key(ids) ==> exists|i: int|
            0 <= i < all.len() && (#[trigger] all[i]).ids == ids
}

/// The ids that bytes stand for.
pub open spec fn read_ids(s: Seq<u8>, n: nat) -> Seq<i32> {
    Seq::new(n, |i: int| id_of_word(le_value(s.subrange(4 * i, 4 * i + 4))))
}

/// What is known of a node set whose axes are `dps` and `ehp`.
#[verifier::opaque]
pub open spec fn revived(g: Graph, dps: Double, ehp: Double) -> Scored {
    Scored { score: g.growth(dps, ehp), dps, ehp }
}

/// The number that eight bytes stand for.
pub open spec fn read_double(s: Seq<u8>) -> Double {
    Double { bits: le_value(s) as u64 }
}

/// The table with `n` more entries from bytes. It is none where the bytes break
/// off before the last of them, or where one announces too many ids.
pub open spec fn read_entries(
    g: Graph,
    s: Seq<u8>,
    n: nat,
    table: Map<Seq<i32>, Scored>,
) -> Option<Map<Seq<i32>, Scored>>
    decreases n,
{
    if n == 0 {
        Some(table)
    } else if s.len() < 4 {
        None
    } else {
        let k = le_value(s.take(4));
        let size = (20 + 4 * k) as int;
        if k > MAX_IDS || s.len() < size {
            None
        } else {
            read_entries(
                g,
                s.skip(size),
                (n - 1) as nat,
                table.insert(
                    read_ids(s.skip(4), k),
                    revived(
                        g,
                        read_double(s.subrange(size - 16, size - 8)),
                        read_double(s.subrange(size - 8, size)),
                    ),
                ),
            )
        }
    }
}

/// Whether bytes begin as a cache of this build does.
pub open spec fn fresh(s: Seq<u8>, sig: u64) -> bool {
    &&& s.len() >= 24
    &&& s.take(4) == magic()
    &&& le_value(s.subrange(4, 8)) == VERSION
    &&& le_value(s.subrange(8, 16)) == sig
}

/// The table that bytes hold, for the build with this signature and under the
/// weights of this tree. Bytes of another build, of something else, or with any
/// damage hold nothing.
pub open spec fn decoded(g: Graph, s: Seq<u8>, sig: u64) -> Map<Seq<i32>, Scored> {
    if fresh(s, sig) {
        match read_entries(g, s.skip(24), le_value(s.subrange(16, 24)), Map::empty()) {
            Some(table) => table,
            None => Map::empty(),
        }
    } else {
        Map::empty()
    }
}

/// Bytes write a number below their power of 256.
proof fn lemma_le_bound(s: Seq<u8>)
    ensures
        le_value(s) < power256(s.len()),
    decreases s.len(),
{
    if s.len() > 0 {
        lemma_le_bound(s.drop_first());
    }
}

proof fn lemma_powers()
    ensures
        power256(4) == 0x1_0000_0000,
        power256(8) == 0x1_0000_0000_0000_0000,
{
    reveal_with_fuel(power256, 9);
}

/// The number of a text of bytes: the last byte weighs most.
proof fn lemma_le_push(s: Seq<u8>, b: u8)
    ensures
        le_value(s.push(b)) == le_value(s) + b * power256(s.len()),
    decreases s.len(),
{
    if s.len() == 0 {
        assert(s.push(b).drop_first() =~= Seq::<u8>::empty());
        reveal_with_fuel(le_value, 2);
        assert(power256(0) == 1);
        assert(b * 1 == b);
    } else {
        lemma_le_push(s.drop_first(), b);
        assert(s.push(b).drop_first() =~= s.drop_first().push(b));
        let p = power256((s.len() - 1) as nat);
        assert(s.push(b)[0] == s[0]);
        assert(power256(s.len()) == 256 * p);
        assert(256 * (b * p) == b * (256 * p)) by (nonlinear_arith);
    }
}

/// Reads a number of `k` bytes.
fn read_le(buf: &[u8], at: usize, k: usize) -> (n: u64)
    requires
        k <= 8,
        at + k <= buf@.len(),
    ensures
        n == le_value(buf@.subrange(at as int, at + k)),
{
    let mut n: u64 = 0;
    let mut weight: u128 = 1;
    let mut i: usize = 0;
    assert(buf@.subrange(at as int, at as int) =~= Seq::<u8>::empty());
    while i < k
        invariant
            i <= k <= 8,
            at + k <= buf.len(),
            buf.len() == buf@.len(),
            n == le_value(buf@.subrange(at as int, at + i)),
            weight == power256(i as nat),
        decreases k - i,
    {
        let b: u8 = buf[at + i];
        proof {
            let s = buf@.subrange(at as int, at + i);
            lemma_le_push(s, b);
            assert(buf@.subrange(at as int, at + i + 1) =~= s.push(b));
            lemma_le_bound(s.push(b));
            lemma_power_bound(i as nat + 1);
            assert(b * weight <= 255 * weight) by (nonlinear_arith)
                requires
                    b <= 255,
                    weight >= 0,
            ;
        }
        n = (n as u128 + b as u128 * weight) as u64;
        weight = weight * 256;
        i = i + 1;
    }
    n
}

proof fn lemma_power_bound(k: nat)
    requires
        k <= 8,
    ensures
        1 <= power256(k) <= 0x1_0000_0000_0000_0000,
        k > 0 ==> power256(k) == 256 * power256((k - 1) as nat),
        k > 0 ==> power256((k - 1) as nat) <= 0x100_0000_0000_0000,
{
    reveal_with_fuel(power256, 9);
    assert(k == 0 || k == 1 || k == 2 || k == 3 || k == 4 || k == 5 || k == 6 || k == 7 || k == 8);
}

/// Appends the lowest `k` bytes of a number.
fn push_le(out: &mut Vec<u8>, n: u64, k: usize)
    ensures
        final(out)@ == old(out)@ + le_bytes(n as nat, k as nat),
{
    let ghost before = out@;
    let mut rest: u64 = n;
    let mut i: usize = 0;
    assert(before + le_bytes(n as nat, k as nat) =~= out@ + le_bytes(rest as nat, k as nat));
    while i < k
        invariant
            i <= k,
            before + le_bytes(n as nat, k as nat) == out@ + le_bytes(
                rest as nat,
                (k - i) as nat,
            ),
        decreases k - i,
    {
        let b: u8 = (rest % 256) as u8;
        let ghost tail = le_bytes(rest as nat / 256, (k - i - 1) as nat);
        let ghost sofar = out@;
        out.push(b);
        proof {
            assert(sofar + (seq![b] + tail) =~= out@ + tail);
        }
        rest = rest / 256;
        i = i + 1;
    }
    assert(out@ + le_bytes(rest as nat, 0) =~= out@);
}

/// The 32 bits of an id.
fn id_word(n: i32) -> (w: u64)
    ensures
        w == word(n),
{
    if n >= 0 {
        n as u64
    } else {
        (n as i64 + 0x1_0000_0000) as u64
    }
}

/// The id that 32 bits stand for.
fn word_id(w: u64) -> (id: i32)
    requires
        w < 0x1_0000_0000,
    ensures
        id == id_of_word(w as nat),
{
    if w < 0x8000_0000 {
        w as i32
    } else {
        (w as i64 - 0x1_0000_0000) as i32
    }
}

/// An entry as it is handed around.
pub open spec fn entry_of(e: (Vec<i32>, Scored)) -> Entry {
    Entry { ids: e.0@, scored: e.1 }
}

/// The entries of a list.
pub open spec fn entries_of(all: Seq<(Vec<i32>, Scored)>) -> Seq<Entry> {
    all.map_values(|e: (Vec<i32>, Scored)| entry_of(e))
}

/// Appends the bytes of an entry.
fn push_entry(out: &mut Vec<u8>, ids: &Vec<i32>, scored: Scored)
    ensures
        final(out)@ == old(out)@ + entry_bytes(Entry { ids: ids@, scored }),
{
    let ghost before = out@;
    push_le(out, ids.len() as u64, 4);
    let ghost head = out@;
    let mut k: usize = 0;
    assert(head =~= head + id_bytes(ids@.take(0)));
    while k < ids.len()
        invariant
            k <= ids@.len(),
            out@ == head + id_bytes(ids@.take(k as int)),
        decreases ids@.len() - k,
    {
        proof {
            assert(ids@.take(k + 1).drop_last() =~= ids@.take(k as int));
            assert(ids@.take(k + 1).last() == ids@[k as int]);
        }
        let ghost sofar = id_bytes(ids@.take(k as int));
        let ghost more = le_bytes(word(ids@[k as int]) as nat, 4);
        push_le(out, id_word(ids[k]), 4);
        assert((head + sofar) + more =~= head + (sofar + more));
        k = k + 1;
    }
    assert(ids@.take(k as int) =~= ids@);
    push_le(out, scored.dps.to_bits(), 8);
    push_le(out, scored.ehp.to_bits(), 8);
    assert(out@ =~= before + entry_bytes(Entry { ids: ids@, scored }));
}

/// The bytes of a cache of the build with this signature, and how many entries
/// they hold. Entries with an axis that is not finite are left out.
pub fn encode(sig: u64, all: &Vec<(Vec<i32>, Scored)>) -> (r: (Vec<u8>, usize))
    ensures
        r.0@ == encoded(sig, entries_of(all@)),
        r.1 == kept(entries_of(all@)).len(),
{
    let ghost list = entries_of(all@);
    let mut body: Vec<u8> = Vec::new();
    let mut count: usize = 0;
    let mut i: usize = 0;
    proof {
        reveal(Seq::filter);
        assert(list.take(0) =~= Seq::empty());
    }
    while i < all.len()
        invariant
            i <= all@.len(),
            list == entries_of(all@),
            count <= i,
            count == kept(list.take(i as int)).len(),
            body@ == entries_bytes(kept(list.take(i as int))),
        decreases all@.len() - i,
    {
        let scored: Scored = all[i].1;
        let ghost e = list[i as int];
        let ghost done = kept(list.take(i as int));
        proof {
            reveal(Seq::filter);
            assert(list.take(i + 1).drop_last() =~= list.take(i as int));
            assert(list.take(i + 1).last() == e);
        }
        if scored.dps.is_finite() && scored.ehp.is_finite() {
            push_entry(&mut body, &all[i].0, scored);
            count = count + 1;
            assert(kept(list.take(i + 1)) == done.push(e));
            assert(done.push(e).drop_last() =~= done);
        }
        i = i + 1;
    }
    assert(list.take(i as int) =~= list);
    let mut out: Vec<u8> = Vec::new();
    out.push(0x50);
    out.push(0x4F);
    out.push(0x42);
    out.push(0x43);
    assert(out@ =~= magic());
    push_le(&mut out, VERSION as u64, 4);
    push_le(&mut out, sig, 8);
    push_le(&mut out, count as u64, 8);
    out.append(&mut body);
    (out, count)
}

/// The bytes of a cache that holds a table, and how many entries they hold. The
/// entries come in the order in which the table is walked.
pub fn save(build_sig: u64, memo: &Memo) -> (r: (Vec<u8>, usize))
    ensures
        exists|all: Seq<Entry>| #[trigger]
            lists(all, scored_sets(*memo)) && r.0@ == encoded(build_sig, all) && r.1 == kept(
                all,
            ).len(),
{
    let all = memo_entries(memo);
    let r = encode(build_sig, &all);
    proof {
        let list = entries_of(all@);
        assert(lists(list, scored_sets(*memo))) by {
            assert forall|i: int, j: int| 0 <= i < j < list.len() implies (#[trigger] list[i]).ids
                != (#[trigger] list[j]).ids by {
                assert(all@[i].0@ != all@[j].0@);
            }
            assert forall|i: int| 0 <= i < list.len() implies scored_sets(*memo).contains_key(
                (#[trigger] list[i]).ids,
            ) && scored_sets(*memo)[list[i].ids] == list[i].scored by {
                assert(scored_sets(*memo).contains_key(all@[i].0@));
            }
            assert forall|ids: Seq<i32>| #[trigger]
                scored_sets(*memo).contains_key(ids) implies exists|i: int|
                0 <= i < list.len() && (#[trigger] list[i]).ids == ids by {
                let i = choose|i: int| 0 <= i < all@.len() && (#[trigger] all@[i]).0@ == ids;
                assert(list[i].ids == ids);
            }
        }
    }
    r
}

/// Reads some ids.
fn read_id_list(buf: &[u8], at: usize, n: usize) -> (ids: Vec<i32>)
    requires
        n <= MAX_IDS,
        at + 4 * n <= buf@.len(),
    ensures
        ids@ == read_ids(buf@.skip(at as int), n as nat),
{
    let ghost s = buf@.skip(at as int);
    let mut ids: Vec<i32> = Vec::with_capacity(n);
    let mut i: usize = 0;
    while i < n
        invariant
            i <= n <= MAX_IDS,
            at + 4 * n <= buf.len(),
            buf.len() == buf@.len(),
            s == buf@.skip(at as int),
            ids@.len() == i,
            forall|j: int| 0 <= j < i ==> #[trigger] ids@[j] == read_ids(s, n as nat)[j],
        decreases n - i,
    {
        let w: u64 = read_le(buf, at + 4 * i, 4);
        proof {
            let b = buf@.subrange(at + 4 * i, at + 4 * i + 4);
            lemma_le_bound(b);
            lemma_powers();
            assert(b =~= s.subrange(4 * i, 4 * i + 4));
        }
        ids.push(word_id(w));
        i = i + 1;
    }
    assert(ids@ =~= read_ids(s, n as nat));
    ids
}

/// What is known of a node set with these axes.
fn revive(g: &Graph, dps: Double, ehp: Double) -> (s: Scored)
    ensures
        s == revived(*g, dps, ehp),
{
    reveal(revived);
    Scored { score: g.growth_score(dps, ehp), dps, ehp }
}

/// Whether bytes begin with `POBC`.
fn has_magic(buf: &[u8]) -> (b: bool)
    requires
        buf@.len() >= 4,
    ensures
        b == (buf@.take(4) == magic()),
{
    let b = buf[0] == 0x50 && buf[1] == 0x4F && buf[2] == 0x42 && buf[3] == 0x43;
    proof {
        let head = buf@.take(4);
        assert(head[0] == buf@[0] && head[1] == buf@[1] && head[2] == buf@[2] && head[3]
            == buf@[3]);
        if b {
            assert(head =~= magic());
        }
    }
    b
}

/// A table without entries.
fn none_kept() -> (memo: Memo)
    ensures
        scored_sets(memo) == Map::<Seq<i32>, Scored>::empty(),
{
    let memo: Memo = memo_new();
    assert(scored_sets(memo) =~= Map::empty());
    memo
}

/// The table that the bytes of a cache hold, if they are of the build with this
/// signature. The growth scores are derived under the weights of `graph`. Bytes
/// that are missing, damaged or of another build never do harm: nothing of them is
/// used.
pub fn load_with_sig(buf: &[u8], expect_sig: u64, graph: &Graph) -> (memo: Memo)
    ensures
        scored_sets(memo) == decoded(*graph, buf@, expect_sig),
{
    let mut memo: Memo = none_kept();
    if buf.len() < 24 {
        return memo;
    }
    if !has_magic(buf) {
        return memo;
    }
    if read_le(buf, 4, 4) != VERSION as u64 {
        return memo;
    }
    if read_le(buf, 8, 8) != expect_sig {
        return memo;
    }
    let count: u64 = read_le(buf, 16, 8);
    let mut p: usize = 24;
    let mut left: u64 = count;
    while left > 0
        invariant
            24 <= p <= buf.len(),
            buf.len() == buf@.len(),
            fresh(buf@, expect_sig),
            read_entries(
                *graph,
                buf@.skip(24),
                le_value(buf@.subrange(16, 24)),
                Map::empty(),
            ) == read_entries(*graph, buf@.skip(p as int), left as nat, scored_sets(memo)),
        decreases left,
    {
        let ghost s = buf@.skip(p as int);
        if buf.len() - p < 4 {
            return none_kept();
        }
        let nids: u64 = read_le(buf, p, 4);
        assert(s.take(4) =~= buf@.subrange(p as int, p + 4));
        if nids > MAX_IDS as u64 {
            return none_kept();
        }
        let k: usize = nids as usize;
        let size: usize = 20 + 4 * k;
        if buf.len() - p < size {
            return none_kept();
        }
        let ids = read_id_list(buf, p + 4, k);
        let dps = Double::from_bits(read_le(buf, p + size - 16, 8));
        let ehp = Double::from_bits(read_le(buf, p + size - 8, 8));
        let scored = revive(graph, dps, ehp);
        proof {
            assert(s.skip(4) =~= buf@.skip(p + 4));
            assert(s.subrange(size - 16, size - 8) =~= buf@.subrange(
                p + size - 16,
                p + size - 8,
            ));
            assert(s.subrange(size - 8, size as int) =~= buf@.subrange(p + size - 8, p + size));
            assert(s.skip(size as int) =~= buf@.skip(p + size));
        }
        memo_insert(&mut memo, ids, scored);
        p = p + size;
        left = left - 1;
    }
    memo
}

/// Writing a number and reading it back gives the number.
pub proof fn lemma_le_roundtrip(n: nat, k: nat)
    requires
        n < power256(k),
    ensures
        le_bytes(n, k).len() == k,
        le_value(le_bytes(n, k)) == n,
    decreases k,
{
    if k > 0 {
        let rest = le_bytes(n / 256, (k - 1) as nat);
        lemma_le_roundtrip(n / 256, (k - 1) as nat);
        let s = le_bytes(n, k);
        assert(s.drop_first() =~= rest);
        assert(s[0] == (n % 256) as u8);
    }
}

/// Writing ids and reading them back gives the ids.
proof fn lemma_ids_roundtrip(ids: Seq<i32>, tail: Seq<u8>)
    ensures
        id_bytes(ids).len() == 4 * ids.len(),
        read_ids(id_bytes(ids) + tail, ids.len()) == ids,
    decreases ids.len(),
{
    if ids.len() > 0 {
        let short = ids.drop_last();
        let last = le_bytes(word(ids.last()) as nat, 4);
        lemma_ids_roundtrip(short, last + tail);
        lemma_powers();
        lemma_le_roundtrip(word(ids.last()) as nat, 4);
        let s = id_bytes(ids) + tail;
        assert(s =~= id_bytes(short) + (last + tail));
        let got = read_ids(s, ids.len());
        assert forall|i: int| 0 <= i < ids.len() implies got[i] == ids[i] by {
            if i < short.len() {
                assert(got[i] == read_ids(s, short.len())[i]);
            } else {
                assert(s.subrange(4 * i, 4 * i + 4) =~= last);
            }
        }
        assert(got =~= ids);
    } else {
        assert(read_ids(id_bytes(ids) + tail, 0) =~= ids);
    }
}

/// The table with some entries entered, their growth scores derived.
pub open spec fn entered(
    g: Graph,
    all: Seq<Entry>,
    table: Map<Seq<i32>, Scored>,
) -> Map<Seq<i32>, Scored>
    decreases all.len(),
{
    if all.len() == 0 {
        table
    } else {
        entered(g, all.drop_last(), table).insert(
            all.last().ids,
            revived(g, all.last().scored.dps, all.last().scored.ehp),
        )
    }
}

proof fn lemma_entered_first(
    g: Graph,
    all: Seq<Entry>,
    table: Map<Seq<i32>, Scored>,
)
    requires
        all.len() > 0,
    ensures
        entered(g, all, table) == entered(
            g,
            all.drop_first(),
            table.insert(all[0].ids, revived(g, all[0].scored.dps, all[0].scored.ehp)),
        ),
        entries_bytes(all) == entry_bytes(all[0]) + entries_bytes(all.drop_first()),
    decreases all.len(),
{
    let rest = all.drop_first();
    let short = all.drop_last();
    let more = table.insert(all[0].ids, revived(g, all[0].scored.dps, all[0].scored.ehp));
    if all.len() == 1 {
        assert(short =~= Seq::empty());
        assert(rest =~= Seq::empty());
        assert(entered(g, short, table) == table);
        assert(entered(g, rest, more) == more);
        assert(entries_bytes(short) =~= Seq::empty());
        assert(entries_bytes(all) =~= entry_bytes(all[0]) + entries_bytes(rest));
    } else {
        lemma_entered_first(g, short, table);
        assert(short.drop_first() =~= rest.drop_last());
        assert(short[0] == all[0]);
        assert(rest.last() == all.last());
        assert(entered(g, short, table) == entered(g, rest.drop_last(), more));
        assert(entered(g, rest, more) == entered(g, rest.drop_last(), more).insert(
            all.last().ids,
            revived(g, all.last().scored.dps, all.last().scored.ehp),
        ));
        assert(entries_bytes(all) =~= entry_bytes(all[0]) + entries_bytes(rest));
    }
}

/// Writing entries and reading them back enters them.
proof fn lemma_entries_roundtrip(
    g: Graph,
    all: Seq<Entry>,
    table: Map<Seq<i32>, Scored>,
)
    requires
        forall|i: int| 0 <= i < all.len() ==> (#[trigger] all[i]).ids.len() <= MAX_IDS,
    ensures
        read_entries(g, entries_bytes(all), all.len(), table) == Some(
            entered(g, all, table),
        ),
    decreases all.len(),
{
    if all.len() > 0 {
        let e = all[0];
        let rest = all.drop_first();
        let k = e.ids.len();
        let tail = entries_bytes(rest);
        let s = entries_bytes(all);
        lemma_entered_first(g, all, table);
        lemma_powers();
        lemma_le_roundtrip(k, 4);
        lemma_le_roundtrip(e.scored.dps.bits as nat, 8);
        lemma_le_roundtrip(e.scored.ehp.bits as nat, 8);
        let head = le_bytes(k, 4);
        let dps = le_bytes(e.scored.dps.bits as nat, 8);
        let ehp = le_bytes(e.scored.ehp.bits as nat, 8);
        lemma_ids_roundtrip(e.ids, dps + ehp + tail);
        let size = (20 + 4 * k) as int;
        assert(s.take(4) =~= head);
        assert(s.skip(4) =~= id_bytes(e.ids) + (dps + ehp + tail));
        assert(s.subrange(size - 16, size - 8) =~= dps);
        assert(s.subrange(size - 8, size) =~= ehp);
        assert(s.skip(size) =~= tail);
        assert forall|i: int| 0 <= i < rest.len() implies (#[trigger] rest[i]).ids.len()
            <= MAX_IDS by {
            assert(rest[i] == all[i + 1]);
        }
        lemma_entries_roundtrip(
            g,
            rest,
            table.insert(e.ids, revived(g, e.scored.dps, e.scored.ehp)),
        );
    }
}

proof fn lemma_header(sig: u64, count: nat, tail: Seq<u8>)
    requires
        count <= u64::MAX,
    ensures
        fresh(header(sig, count) + tail, sig),
        forall|other: u64| other != sig ==> !#[trigger] fresh(header(sig, count) + tail, other),
        le_value((header(sig, count) + tail).subrange(16, 24)) == count,
        (header(sig, count) + tail).skip(24) == tail,
{
    lemma_powers();
    lemma_le_roundtrip(VERSION as nat, 4);
    lemma_le_roundtrip(sig as nat, 8);
    lemma_le_roundtrip(count, 8);
    let s = header(sig, count) + tail;
    assert(s.take(4) =~= magic());
    assert(s.subrange(4, 8) =~= le_bytes(VERSION as nat, 4));
    assert(s.subrange(8, 16) =~= le_bytes(sig as nat, 8));
    assert(s.subrange(16, 24) =~= le_bytes(count, 8));
    assert(s.skip(24) =~= tail);
}

/// What a table holds that is worth keeping, with the growth scores that the
/// weights of a tree give.
pub open spec fn remembered(g: Graph, table: Map<Seq<i32>, Scored>) -> Map<Seq<i32>, Scored> {
    Map::new(
        |ids: Seq<i32>|
            table.contains_key(ids) && table[ids].dps.finite() && table[ids].ehp.finite(),
        |ids: Seq<i32>| revived(g, table[ids].dps, table[ids].ehp),
    )
}

proof fn lemma_entered_all(g: Graph, all: Seq<Entry>)
    requires
        forall|i: int, j: int|
            0 <= i < j < all.len() ==> (#[trigger] all[i]).ids != (#[trigger] all[j]).ids,
    ensures
        forall|ids: Seq<i32>| #[trigger]
            entered(g, all, Map::empty()).contains_key(ids) ==> exists|i: int|
                0 <= i < all.len() && (#[trigger] all[i]).ids == ids,
        forall|i: int|
            0 <= i < all.len() ==> {
                &&& entered(g, all, Map::empty()).contains_key((#[trigger] all[i]).ids)
                &&& entered(g, all, Map::empty())[all[i].ids] == revived(
                    g,
                    all[i].scored.dps,
                    all[i].scored.ehp,
                )
            },
    decreases all.len(),
{
    if all.len() > 0 {
        let short = all.drop_last();
        assert forall|i: int, j: int| 0 <= i < j < short.len() implies (#[trigger] short[i]).ids
            != (#[trigger] short[j]).ids by {
            assert(short[i] == all[i] && short[j] == all[j]);
        }
        lemma_entered_all(g, short);
        let m = entered(g, all, Map::empty());
        assert forall|ids: Seq<i32>| #[trigger] m.contains_key(ids) implies exists|i: int|
            0 <= i < all.len() && (#[trigger] all[i]).ids == ids by {
            if ids == all.last().ids {
                assert(all[all.len() - 1].ids == ids);
            } else {
                assert(entered(g, short, Map::empty()).contains_key(ids));
                let i = choose|i: int| 0 <= i < short.len() && (#[trigger] short[i]).ids == ids;
                assert(all[i].ids == ids);
            }
        }
        assert forall|i: int| 0 <= i < all.len() implies {
            &&& m.contains_key((#[trigger] all[i]).ids)
            &&& m[all[i].ids] == revived(g, all[i].scored.dps, all[i].scored.ehp)
        } by {
            if i < short.len() {
                assert(short[i] == all[i]);
                assert(all[i].ids != all[all.len() - 1].ids);
            }
        }
    }
}

/// A cache gives back what was written, with the growth scores derived under the
/// weights that hold when it is read, whatever they were when it was written; the
/// sets whose axes are not finite are gone. Read for another build it gives
/// nothing. No set may have more ids than an entry may have.
pub proof fn lemma_cache_roundtrip(
    g: Graph,
    sig: u64,
    other: u64,
    all: Seq<Entry>,
    table: Map<Seq<i32>, Scored>,
)
    requires
        lists(all, table),
        all.len() <= u64::MAX,
        forall|ids: Seq<i32>| #[trigger] table.contains_key(ids) ==> ids.len() <= MAX_IDS,
    ensures
        decoded(g, encoded(sig, all), sig) == remembered(g, table),
        other != sig ==> decoded(g, encoded(sig, all), other) == Map::<Seq<i32>, Scored>::empty(),
{
    broadcast use vstd::seq_lib::group_filter_ensures;

    let ok = |e: Entry| e.scored.dps.finite() && e.scored.ehp.finite();
    let some = kept(all);
    assert(some.len() <= all.len()) by {
        all.lemma_filter_len(ok);
    }
    let body = entries_bytes(some);
    lemma_header(sig, some.len(), body);
    assert(all.no_duplicates()) by {
        assert forall|i: int, j: int|
            0 <= i < all.len() && 0 <= j < all.len() && i != j implies all[i] != all[j] by {
            if i < j {
                assert(all[i].ids != all[j].ids);
            } else {
                assert(all[j].ids != all[i].ids);
            }
        }
    }
    crate::lists::lemma_filter_distinct(all, ok);
    assert forall|i: int| 0 <= i < some.len() implies (#[trigger] some[i]).ids.len()
        <= MAX_IDS by {
        assert(some.contains(some[i]));
        all.lemma_filter_contains_rev(ok, some[i]);
        let j = choose|j: int| 0 <= j < all.len() && all[j] == some[i];
        assert(table.contains_key(all[j].ids));
    }
    assert forall|i: int, j: int| 0 <= i < j < some.len() implies (#[trigger] some[i]).ids != (
    #[trigger] some[j]).ids by {
        assert(some.contains(some[i]) && some.contains(some[j]));
        all.lemma_filter_contains_rev(ok, some[i]);
        all.lemma_filter_contains_rev(ok, some[j]);
        let a = choose|a: int| 0 <= a < all.len() && all[a] == some[i];
        let b = choose|b: int| 0 <= b < all.len() && all[b] == some[j];
        if some[i].ids == some[j].ids {
            assert(a == b) by {
                if a < b {
                    assert(all[a].ids != all[b].ids);
                } else if b < a {
                    assert(all[b].ids != all[a].ids);
                }
            }
        }
    }
    lemma_entries_roundtrip(g, some, Map::empty());
    lemma_entered_all(g, some);
    let got = entered(g, some, Map::empty());
    let due = remembered(g, table);
    assert forall|ids: Seq<i32>| got.contains_key(ids) <==> due.contains_key(ids) by {
        if got.contains_key(ids) {
            let i = choose|i: int| 0 <= i < some.len() && (#[trigger] some[i]).ids == ids;
            assert(some.contains(some[i]));
            all.lemma_filter_contains_rev(ok, some[i]);
            let j = choose|j: int| 0 <= j < all.len() && all[j] == some[i];
            assert(table.contains_key(all[j].ids));
            assert(ok(some[i]));
        }
        if due.contains_key(ids) {
            assert(table.contains_key(ids));
            let j = choose|j: int| 0 <= j < all.len() && (#[trigger] all[j]).ids == ids;
            assert(ok(all[j]));
            assert(some.contains(all[j]));
            let i = choose|i: int| 0 <= i < some.len() && some[i] == all[j];
            assert(got.contains_key(some[i].ids));
        }
    }
    assert forall|ids: Seq<i32>| got.contains_key(ids) implies got[ids] == due[ids] by {
        let i = choose|i: int| 0 <= i < some.len() && (#[trigger] some[i]).ids == ids;
        assert(some.contains(some[i]));
        all.lemma_filter_contains_rev(ok, some[i]);
        let j = choose|j: int| 0 <= j < all.len() && all[j] == some[i];
        assert(table[all[j].ids] == all[j].scored);
    }
    assert(got =~= due);
}

/// Entries whose bytes break off are not read.
proof fn lemma_cut_entries(g: Graph, all: Seq<Entry>, n: int, table: Map<Seq<i32>, Scored>)
    requires
        forall|i: int| 0 <= i < all.len() ==> (#[trigger] all[i]).ids.len() <= MAX_IDS,
        0 <= n < entries_bytes(all).len(),
    ensures
        read_entries(g, entries_bytes(all).take(n), all.len(), table) is None,
    decreases all.len(),
{
    let e = all[0];
    let rest = all.drop_first();
    let k = e.ids.len();
    let tail = entries_bytes(rest);
    let full = entries_bytes(all);
    let s = full.take(n);
    let size = (20 + 4 * k) as int;
    assert(all.len() > 0);
    lemma_entered_first(g, all, table);
    lemma_powers();
    lemma_le_roundtrip(k, 4);
    lemma_le_roundtrip(e.scored.dps.bits as nat, 8);
    lemma_le_roundtrip(e.scored.ehp.bits as nat, 8);
    lemma_ids_roundtrip(e.ids, Seq::empty());
    if n >= 4 {
        assert(full.take(4) =~= le_bytes(k, 4));
        assert(s.take(4) =~= full.take(4));
        if n >= size {
            assert(full.skip(size) =~= tail);
            assert(s.skip(size) =~= full.skip(size).take(n - size));
            assert forall|i: int| 0 <= i < rest.len() implies (#[trigger] rest[i]).ids.len()
                <= MAX_IDS by {
                assert(rest[i] == all[i + 1]);
            }
            lemma_cut_entries(
                g,
                rest,
                n - size,
                table.insert(
                    read_ids(s.skip(4), k),
                    revived(
                        g,
                        read_double(s.subrange(size - 16, size - 8)),
                        read_double(s.subrange(size - 8, size)),
                    ),
                ),
            );
        }
    }
}

/// A cache that breaks off anywhere gives nothing. No set may have more ids than an
/// entry may have.
pub proof fn lemma_cut_cache_is_empty(g: Graph, sig: u64, all: Seq<Entry>, n: int)
    requires
        all.len() <= u64::MAX,
        forall|i: int| 0 <= i < all.len() ==> (#[trigger] all[i]).ids.len() <= MAX_IDS,
        0 <= n < encoded(sig, all).len(),
    ensures
        decoded(g, encoded(sig, all).take(n), sig) == Map::<Seq<i32>, Scored>::empty(),
{
    let ok = |e: Entry| e.scored.dps.finite() && e.scored.ehp.finite();
    let some = kept(all);
    all.lemma_filter_len(ok);
    if n >= 24 {
        let body = entries_bytes(some);
        lemma_powers();
        lemma_le_roundtrip(VERSION as nat, 4);
        lemma_le_roundtrip(sig as nat, 8);
        lemma_le_roundtrip(some.len(), 8);
        assert(encoded(sig, all).take(n) =~= header(sig, some.len()) + body.take(n - 24));
        lemma_header(sig, some.len(), body.take(n - 24));
        assert forall|i: int| 0 <= i < some.len() implies (#[trigger] some[i]).ids.len()
            <= MAX_IDS by {
            assert(some.contains(some[i]));
            all.lemma_filter_contains_rev(ok, some[i]);
            let j = choose|j: int| 0 <= j < all.len() && all[j] == some[i];
            assert(all[j].ids.len() <= MAX_IDS);
        }
        lemma_cut_entries(g, some, n - 24, Map::empty());
    }
}

/// What a cache remembers of a table: the node sets both of whose axes are finite, with
/// these axes, and with the growth score that the tree at hand gives them.
pub proof fn lemma_remembered(g: Graph, table: Map<Seq<i32>, Scored>, ids: Seq<i32>)
    ensures
        remembered(g, table).contains_key(ids) <==> table.contains_key(ids)
            && table[ids].dps.finite() && table[ids].ehp.finite(),
        remembered(g, table).contains_key(ids) ==> {
            let s = remembered(g, table)[ids];
            &&& s.dps == table[ids].dps
            &&& s.ehp == table[ids].ehp
            &&& s.score == g.growth(s.dps, s.ehp)
        },
{
    reveal(revived);
}

/// Four bytes as a number, the least significant one first.
proof fn lemma_four_bytes(s: Seq<u8>)
    requires
        s.len() == 4,
    ensures
        le_value(s) == s[0] + 0x100 * s[1] + 0x1_0000 * s[2] + 0x100_0000 * s[3],
{
    reveal_with_fuel(le_value, 5);
    let a = s.drop_first();
    let b = a.drop_first();
    let c = b.drop_first();
    assert(a[0] == s[1] && b[0] == s[2] && c[0] == s[3]);
    assert(c.drop_first().len() == 0);
}

/// A file is not read where it is too short, where it does not begin with the letters
/// POBC, where it is of another version than 1, and where it is of another build.
pub proof fn lemma_foreign_cache_is_empty(g: Graph, s: Seq<u8>, sig: u64)
    ensures
        s.len() < 24 ==> decoded(g, s, sig) == Map::<Seq<i32>, Scored>::empty(),
        s.len() >= 24 && !(s[0] == 0x50 && s[1] == 0x4F && s[2] == 0x42 && s[3] == 0x43)
            ==> decoded(g, s, sig) == Map::<Seq<i32>, Scored>::empty(),
        s.len() >= 24 && !(s[4] == 1 && s[5] == 0 && s[6] == 0 && s[7] == 0) ==> decoded(g, s, sig)
            == Map::<Seq<i32>, Scored>::empty(),
        s.len() >= 24 && (s[8] + 0x100 * s[9] + 0x1_0000 * s[10] + 0x100_0000 * s[11]
            + 0x1_0000_0000 * (s[12] + 0x100 * s[13] + 0x1_0000 * s[14] + 0x100_0000 * s[15])
            != sig) ==> decoded(g, s, sig) == Map::<Seq<i32>, Scored>::empty(),
{
    if fresh(s, sig) {
        let first = s.take(4);
        assert(first[0] == s[0] && first[1] == s[1] && first[2] == s[2] && first[3] == s[3]);
        let version = s.subrange(4, 8);
        lemma_four_bytes(version);
        assert(version[0] == s[4] && version[1] == s[5] && version[2] == s[6] && version[3]
            == s[7]);
        let build = s.subrange(8, 16);
        let low = s.subrange(8, 12);
        let high = s.subrange(12, 16);
        lemma_four_bytes(low);
        lemma_four_bytes(high);
        lemma_halves(build);
        assert(build.take(4) =~= low);
        assert(build.skip(4) =~= high);
    }
}

/// A number of eight bytes, from its halves.
proof fn lemma_halves(s: Seq<u8>)
    requires
        s.len() == 8,
    ensures
        le_value(s) == le_value(s.take(4)) + 0x1_0000_0000 * le_value(s.skip(4)),
{
    let low = s.take(4);
    let high = s.skip(4);
    lemma_four_bytes(low);
    let a = s.drop_first();
    let b = a.drop_first();
    let c = b.drop_first();
    assert(c.drop_first() =~= high);
    assert(s[0] == low[0] && a[0] == low[1] && b[0] == low[2] && c[0] == low[3]);
    assert(le_value(c) == c[0] + 256 * le_value(high));
    assert(le_value(b) == b[0] + 256 * le_value(c));
    assert(le_value(a) == a[0] + 256 * le_value(b));
}

/// A file that announces an entry of more than a million nodes is not read.
pub proof fn lemma_oversized_cache_is_empty(g: Graph, s: Seq<u8>, sig: u64)
    requires
        s.len() >= 28,
        exists|i: int| 16 <= i < 24 && #[trigger] s[i] != 0,
        s[24] + 0x100 * s[25] + 0x1_0000 * s[26] + 0x100_0000 * s[27] > 1_000_000,
    ensures
        decoded(g, s, sig) == Map::<Seq<i32>, Scored>::empty(),
{
    let count = s.subrange(16, 24);
    let low = count.take(4);
    let high = count.skip(4);
    lemma_halves(count);
    lemma_four_bytes(low);
    lemma_four_bytes(high);
    let i = choose|i: int| 16 <= i < 24 && #[trigger] s[i] != 0;
    if i < 20 {
        assert(low[i - 16] == s[i]);
        assert(i == 16 || i == 17 || i == 18 || i == 19);
    } else {
        assert(high[i - 20] == s[i]);
        assert(i == 20 || i == 21 || i == 22 || i == 23);
    }
    assert(le_value(count) > 0);
    let rest = s.skip(24);
    let nodes = rest.take(4);
    lemma_four_bytes(nodes);
    assert(nodes[0] == s[24] && nodes[1] == s[25] && nodes[2] == s[26] && nodes[3] == s[27]);
}

} // verus!
