//! The identity of a build, from the flat export of its tree.

use crate::fx::sort_ids;
use crate::lists::lemma_map_multiset;
use crate::mix::{
    lemma_mixed_injective, lemma_xor_order, lemma_xor_push, lemma_xor_update, mixed, splitmix64,
    xor_all,
};
use vstd::multiset::Multiset;
use vstd::prelude::*;

verus! {

/// The bits of an id as a number that is not negative.
pub open spec fn word(n: i32) -> u64 {
    (if n >= 0 {
        n as int
    } else {
        n + 0x1_0000_0000
    }) as u64
}

/// Ids in ascending order.
pub open spec fn in_order(s: Seq<i32>) -> bool {
    forall|i: int, j: int| 0 <= i < j < s.len() ==> #[trigger] s[i] <= #[trigger] s[j]
}

/// The members of a collection of ids in ascending order.
pub open spec fn ordered(links: Multiset<i32>) -> Seq<i32> {
    choose|s: Seq<i32>| in_order(s) && s.to_multiset() == links
}

/// What a record says of a node: its id, its type and its links, in any order.
pub struct Identity {
    pub id: i32,
    pub ty: i32,
    pub links: Multiset<i32>,
}

/// A hash with the hashes of some ids folded in, one after the other.
pub open spec fn fold_links(hash: u64, links: Seq<i32>) -> u64
    decreases links.len(),
{
    if links.len() == 0 {
        hash
    } else {
        mixed(fold_links(hash, links.drop_last()) ^ mixed(word(links.last())))
    }
}

/// The hash of a node: its id, its type and its links in ascending order.
pub open spec fn node_hash(x: Identity) -> u64 {
    fold_links(mixed((word(x.id) << 8) ^ word(x.ty)), ordered(x.links))
}

/// How many links a record announces.
pub open spec fn link_count(n: i32) -> int {
    if n > 0 {
        n as int
    } else {
        0
    }
}

/// What up to `n` records from position `p` on say. A record that runs past the
/// end stops it.
pub open spec fn identities(flat: Seq<i32>, p: int, n: nat) -> Seq<Identity>
    decreases n,
{
    if n == 0 || p + 3 > flat.len() || p + 3 + link_count(flat[p + 2]) > flat.len() {
        Seq::empty()
    } else {
        let next = p + 3 + link_count(flat[p + 2]);
        seq![
            Identity {
                id: flat[p],
                ty: flat[p + 1],
                links: flat.subrange(p + 3, next).to_multiset(),
            },
        ] + identities(flat, next, (n - 1) as nat)
    }
}

/// The hashes of up to `n` records from position `p` on.
pub open spec fn node_hashes(flat: Seq<i32>, p: int, n: nat) -> Seq<u64> {
    identities(flat, p, n).map_values(|x: Identity| node_hash(x))
}

/// Where up to `n` records from position `p` on end. Of a record that runs past the
/// end the first three numbers count.
pub open spec fn nodes_end(flat: Seq<i32>, p: int, n: nat) -> int
    decreases n,
{
    if n == 0 || p + 3 > flat.len() {
        p
    } else if p + 3 + link_count(flat[p + 2]) > flat.len() {
        p + 3
    } else {
        nodes_end(flat, p + 3 + link_count(flat[p + 2]), (n - 1) as nat)
    }
}

/// Where the last whole one of up to `n` records from position `p` on ends.
pub open spec fn whole_end(flat: Seq<i32>, p: int, n: nat) -> int
    decreases n,
{
    if n == 0 || p + 3 > flat.len() || p + 3 + link_count(flat[p + 2]) > flat.len() {
        p
    } else {
        whole_end(flat, p + 3 + link_count(flat[p + 2]), (n - 1) as nat)
    }
}

/// What numbers add that belong to no record, one after the other.
pub open spec fn rest_hash(rest: Seq<i32>) -> u64 {
    if rest.len() == 0 {
        0
    } else {
        fold_links(mixed(rest.len() as u64), rest)
    }
}

/// What is added by the numbers behind `n` records: with a trailer its two
/// references, and without one whatever is left behind the whole records.
pub open spec fn reference_hash(flat: Seq<i32>, n: nat) -> u64 {
    let p = nodes_end(flat, 3, n);
    if p + 5 <= flat.len() {
        mixed(word(flat[p]).wrapping_add(0xA5A5)) ^ mixed(
            word(flat[p + 1]).wrapping_add(0x5A5A),
        )
    } else {
        rest_hash(flat.skip(whole_end(flat, 3, n)))
    }
}

/// The signature of a build.
pub open spec fn signature(flat: Seq<i32>) -> u64 {
    if flat.len() < 3 {
        fold_links(mixed(flat.len() as u64), flat)
    } else {
        let n = link_count(flat[2]) as nat;
        let head = mixed(word(flat[0])) ^ mixed(word(flat[1]).wrapping_add(0x1234)) ^ mixed(
            (n as u64).wrapping_add(0x5678),
        );
        head ^ xor_all(node_hashes(flat, 3, n)) ^ reference_hash(flat, n)
    }
}

/// The bits of an id.
fn to_word(n: i32) -> (w: u64)
    ensures
        w == word(n),
{
    if n >= 0 {
        n as u64
    } else {
        (n as i64 + 0x1_0000_0000) as u64
    }
}

/// A list has one ascending order.
proof fn lemma_ordered(s: Seq<i32>, links: Seq<i32>)
    requires
        in_order(s),
        s.to_multiset() == links.to_multiset(),
    ensures
        ordered(links.to_multiset()) == s,
{
    let t = ordered(links.to_multiset());
    let leq = |x: i32, y: i32| x <= y;
    assert(vstd::relations::sorted_by(s, leq));
    assert(vstd::relations::sorted_by(t, leq));
    vstd::seq_lib::lemma_sorted_unique(s, t, leq);
}

/// Folds the hashes of the ids from position `from` on into a hash.
fn fold_from(first: u64, ids: &[i32], from: usize) -> (h: u64)
    requires
        from <= ids@.len(),
    ensures
        h == fold_links(first, ids@.skip(from as int)),
{
    let ghost rest = ids@.skip(from as int);
    let mut h: u64 = first;
    let mut k: usize = from;
    assert(rest.take(0) =~= Seq::empty());
    while k < ids.len()
        invariant
            from <= k <= ids@.len(),
            ids.len() == ids@.len(),
            rest == ids@.skip(from as int),
            h == fold_links(first, rest.take(k - from)),
        decreases ids@.len() - k,
    {
        proof {
            assert(rest.take(k + 1 - from).drop_last() =~= rest.take(k - from));
            assert(rest.take(k + 1 - from).last() == ids@[k as int]);
        }
        h = splitmix64(h ^ splitmix64(to_word(ids[k])));
        k = k + 1;
    }
    assert(rest.take(k - from) =~= rest);
    h
}

/// The hash of a node.
fn hash_node(id: i32, ty: i32, links: Vec<i32>) -> (h: u64)
    ensures
        h == node_hash(Identity { id, ty, links: links@.to_multiset() }),
{
    let mut sorted = links;
    sort_ids(&mut sorted);
    proof {
        lemma_ordered(sorted@, links@);
    }
    assert(sorted@.skip(0) =~= sorted@);
    fold_from(splitmix64((to_word(id) << 8) ^ to_word(ty)), sorted.as_slice(), 0)
}

/// The identity of a build, from the flat export of its tree: a hash of the
/// header, of every node and of the build's references. It does not depend on the
/// order in which nodes and links come, nor on the weights and the penalty. Without
/// a trailer every number counts, also those of a record that breaks off.
pub fn build_signature(flat: &[i32]) -> (sig: u64)
    ensures
        sig == signature(flat@),
{
    if flat.len() < 3 {
        assert(flat@.skip(0) =~= flat@);
        return fold_from(splitmix64(flat.len() as u64), flat, 0);
    }
    let n: usize = if flat[2] > 0 {
        flat[2] as usize
    } else {
        0
    };
    let head: u64 = splitmix64(to_word(flat[0])) ^ splitmix64(
        to_word(flat[1]).wrapping_add(0x1234),
    ) ^ splitmix64((n as u64).wrapping_add(0x5678));
    let mut nodes: u64 = 0;
    let mut p: usize = 3;
    let mut end: usize = 3;
    let mut i: usize = 0;
    let mut whole: bool = true;
    let ghost all = node_hashes(flat@, 3, n as nat);
    let ghost mut done: Seq<u64> = Seq::empty();
    assert(done + all =~= all);
    while whole && i < n
        invariant
            i <= n,
            3 <= p <= end <= flat.len(),
            flat.len() == flat@.len(),
            nodes == xor_all(done),
            all == node_hashes(flat@, 3, n as nat),
            whole ==> done + node_hashes(flat@, p as int, (n - i) as nat) == all,
            whole ==> nodes_end(flat@, p as int, (n - i) as nat) == nodes_end(
                flat@,
                3,
                n as nat,
            ),
            whole ==> end == p && whole_end(flat@, p as int, (n - i) as nat) == whole_end(
                flat@,
                3,
                n as nat,
            ),
            !whole ==> done == all && end == nodes_end(flat@, 3, n as nat),
            !whole ==> p == whole_end(flat@, 3, n as nat),
        decreases n - i, (if whole { 1int } else { 0int }),
    {
        if flat.len() - p < 3 {
            whole = false;
            assert(done + Seq::<u64>::empty() =~= done);
        } else {
            let id: i32 = flat[p];
            let ty: i32 = flat[p + 1];
            let k: usize = if flat[p + 2] > 0 {
                flat[p + 2] as usize
            } else {
                0
            };
            let first: usize = p + 3;
            if flat.len() - first < k {
                whole = false;
                assert(done + Seq::<u64>::empty() =~= done);
                end = first;
            } else {
                let mut links: Vec<i32> = Vec::with_capacity(k);
                let mut j: usize = 0;
                while j < k
                    invariant
                        j <= k,
                        first + k <= flat.len(),
                        flat.len() == flat@.len(),
                        links@ =~= flat@.subrange(first as int, first + j),
                    decreases k - j,
                {
                    links.push(flat[first + j]);
                    j = j + 1;
                }
                let ghost x = Identity { id, ty, links: links@.to_multiset() };
                let h: u64 = hash_node(id, ty, links);
                proof {
                    let rest = node_hashes(flat@, first + k, (n - i - 1) as nat);
                    assert(identities(flat@, p as int, (n - i) as nat) == seq![x] + identities(
                        flat@,
                        first + k,
                        (n - i - 1) as nat,
                    ));
                    assert(node_hashes(flat@, p as int, (n - i) as nat) =~= seq![h] + rest);
                    lemma_xor_push(done, h);
                    assert(done.push(h) + rest =~= done + (seq![h] + rest));
                    done = done.push(h);
                }
                nodes = nodes ^ h;
                p = first + k;
                end = p;
                i = i + 1;
            }
        }
    }
    proof {
        if whole {
            assert(done + Seq::<u64>::empty() =~= done);
        }
    }
    let refs: u64 = if flat.len() - end >= 5 {
        splitmix64(to_word(flat[end]).wrapping_add(0xA5A5)) ^ splitmix64(
            to_word(flat[end + 1]).wrapping_add(0x5A5A),
        )
    } else if flat.len() == p {
        0
    } else {
        fold_from(splitmix64((flat.len() - p) as u64), flat, p)
    };
    head ^ nodes ^ refs
}

/// The order in which an export lists its nodes, and the links of a node, does not
/// change the signature of the build.
pub proof fn lemma_signature_order(a: Seq<i32>, b: Seq<i32>)
    requires
        a.len() >= 3,
        b.len() >= 3,
        a[0] == b[0],
        a[1] == b[1],
        a[2] == b[2],
        ({
            let n = link_count(a[2]) as nat;
            let pa = nodes_end(a, 3, n);
            let pb = nodes_end(b, 3, n);
            &&& identities(a, 3, n).to_multiset() == identities(b, 3, n).to_multiset()
            &&& pa + 5 <= a.len() <==> pb + 5 <= b.len()
            &&& pa + 5 <= a.len() ==> a[pa] == b[pb] && a[pa + 1] == b[pb + 1]
            &&& pa + 5 > a.len() ==> a.skip(whole_end(a, 3, n)) == b.skip(whole_end(b, 3, n))
        }),
    ensures
        signature(a) == signature(b),
{
    let n = link_count(a[2]) as nat;
    let f = |x: Identity| node_hash(x);
    lemma_map_multiset(identities(a, 3, n), identities(b, 3, n), f);
    lemma_xor_order(node_hashes(a, 3, n), node_hashes(b, 3, n));
}

/// Whether the records of `b` end where those of `a` do, up to which the two are
/// alike: no record of `a` breaks off, or the two are equally long, or they do.
pub open spec fn ends_alike(a: Seq<i32>, b: Seq<i32>) -> bool {
    let n = link_count(a[2]) as nat;
    let p = nodes_end(a, 3, n);
    whole_end(a, 3, n) == p || a.len() == b.len() || nodes_end(b, 3, n) == p
}

/// The records of two exports that are alike up to their end say the same.
proof fn lemma_same_nodes(a: Seq<i32>, b: Seq<i32>, p: int, n: nat)
    requires
        0 <= p,
        nodes_end(a, p, n) + 5 <= a.len(),
        nodes_end(a, p, n) + 5 <= b.len(),
        whole_end(a, p, n) == nodes_end(a, p, n) || a.len() == b.len() || nodes_end(b, p, n)
            == nodes_end(a, p, n),
        forall|i: int| 0 <= i < nodes_end(a, p, n) ==> a[i] == b[i],
    ensures
        p <= nodes_end(a, p, n),
        nodes_end(b, p, n) == nodes_end(a, p, n),
        identities(b, p, n) == identities(a, p, n),
    decreases n,
{
    lemma_end_ahead(a, p, n);
    if n > 0 {
        assert(p + 3 <= a.len());
        assert(a[p + 2] == b[p + 2]);
        let next = p + 3 + link_count(a[p + 2]);
        if next <= a.len() {
            assert(a[p] == b[p] && a[p + 1] == b[p + 1]);
            lemma_end_ahead(a, next, (n - 1) as nat);
            lemma_same_nodes(a, b, next, (n - 1) as nat);
            assert(a.subrange(p + 3, next) =~= b.subrange(p + 3, next));
        } else if next <= b.len() {
            lemma_end_ahead(b, next, (n - 1) as nat);
        }
    }
}

proof fn lemma_end_ahead(flat: Seq<i32>, p: int, n: nat)
    ensures
        p <= nodes_end(flat, p, n),
        n > 0 && p + 3 <= flat.len() ==> p + 3 <= nodes_end(flat, p, n),
    decreases n,
{
    if n > 0 && p + 3 <= flat.len() && p + 3 + link_count(flat[p + 2]) <= flat.len() {
        lemma_end_ahead(flat, p + 3 + link_count(flat[p + 2]), (n - 1) as nat);
    }
}

/// The weights and the penalty do not change the signature: two exports with a
/// trailer that differ only behind its two references have the same one, however
/// long the trailers are.
pub proof fn lemma_signature_ignores_weights(a: Seq<i32>, b: Seq<i32>)
    requires
        a.len() >= 3,
        ends_alike(a, b),
        ({
            let p = nodes_end(a, 3, link_count(a[2]) as nat);
            &&& p + 5 <= a.len()
            &&& p + 5 <= b.len()
            &&& forall|i: int| 0 <= i < p + 2 ==> a[i] == b[i]
        }),
    ensures
        signature(a) == signature(b),
{
    let n = link_count(a[2]) as nat;
    lemma_end_ahead(a, 3, n);
    lemma_same_nodes(a, b, 3, n);
}

/// Different ids have different bits.
proof fn lemma_word_injective(x: i32, y: i32)
    requires
        x != y,
    ensures
        word(x) != word(y),
{
}

/// One reference of the build changed alone changes the signature, whatever the
/// weights and the penalty are.
pub proof fn lemma_signature_sees_references(a: Seq<i32>, b: Seq<i32>)
    requires
        a.len() >= 3,
        ends_alike(a, b),
        ({
            let p = nodes_end(a, 3, link_count(a[2]) as nat);
            &&& p + 5 <= a.len()
            &&& p + 5 <= b.len()
            &&& forall|i: int| 0 <= i < p ==> a[i] == b[i]
            &&& (a[p] == b[p]) != (a[p + 1] == b[p + 1])
        }),
    ensures
        signature(a) != signature(b),
{
    let n = link_count(a[2]) as nat;
    let p = nodes_end(a, 3, n);
    lemma_end_ahead(a, 3, n);
    lemma_same_nodes(a, b, 3, n);
    let head: u64 = mixed(word(a[0])) ^ mixed(word(a[1]).wrapping_add(0x1234)) ^ mixed(
        (n as u64).wrapping_add(0x5678),
    );
    let nodes: u64 = xor_all(node_hashes(a, 3, n));
    let a1: u64 = mixed(word(a[p]).wrapping_add(0xA5A5));
    let b1: u64 = mixed(word(b[p]).wrapping_add(0xA5A5));
    let a2: u64 = mixed(word(a[p + 1]).wrapping_add(0x5A5A));
    let b2: u64 = mixed(word(b[p + 1]).wrapping_add(0x5A5A));
    if a[p] != b[p] {
        lemma_word_injective(a[p], b[p]);
        lemma_mixed_injective(word(a[p]).wrapping_add(0xA5A5), word(b[p]).wrapping_add(0xA5A5));
    } else {
        lemma_word_injective(a[p + 1], b[p + 1]);
        lemma_mixed_injective(
            word(a[p + 1]).wrapping_add(0x5A5A),
            word(b[p + 1]).wrapping_add(0x5A5A),
        );
    }
    assert(head ^ nodes ^ (a1 ^ a2) != head ^ nodes ^ (b1 ^ b2)) by (bit_vector)
        requires
            (a1 == b1) != (a2 == b2),
    ;
}

/// Folding in one different id gives a different hash.
proof fn lemma_fold_differs(hash: u64, s: Seq<i32>, t: Seq<i32>, k: int)
    requires
        s.len() == t.len(),
        0 <= k < s.len(),
        s[k] != t[k],
        forall|i: int| 0 <= i < s.len() && i != k ==> s[i] == t[i],
    ensures
        fold_links(hash, s) != fold_links(hash, t),
    decreases s.len(),
{
    let f: u64 = fold_links(hash, s.drop_last());
    let g: u64 = fold_links(hash, t.drop_last());
    let x: u64 = mixed(word(s.last()));
    let y: u64 = mixed(word(t.last()));
    if k == s.len() - 1 {
        assert(s.drop_last() =~= t.drop_last());
        lemma_word_injective(s.last(), t.last());
        lemma_mixed_injective(word(s.last()), word(t.last()));
    } else {
        lemma_fold_differs(hash, s.drop_last(), t.drop_last(), k);
    }
    assert(f ^ x != g ^ y) by (bit_vector)
        requires
            (f == g) != (x == y),
    ;
    lemma_mixed_injective(f ^ x, g ^ y);
}

/// Where the numbers begin that belong to no whole record.
pub open spec fn rest_start(flat: Seq<i32>) -> int {
    if flat.len() < 3 {
        0
    } else {
        whole_end(flat, 3, link_count(flat[2]) as nat)
    }
}

/// Whether an export carries the references, the weights and the penalty.
pub open spec fn trailed(flat: Seq<i32>) -> bool {
    flat.len() >= 3 && nodes_end(flat, 3, link_count(flat[2]) as nat) + 5 <= flat.len()
}

proof fn lemma_whole_ahead(flat: Seq<i32>, p: int, n: nat)
    ensures
        p <= whole_end(flat, p, n),
        p <= flat.len() ==> whole_end(flat, p, n) <= flat.len(),
    decreases n,
{
    if n > 0 && p + 3 <= flat.len() && p + 3 + link_count(flat[p + 2]) <= flat.len() {
        lemma_whole_ahead(flat, p + 3 + link_count(flat[p + 2]), (n - 1) as nat);
    }
}

/// The whole records are told by the numbers up to their end.
proof fn lemma_same_whole(a: Seq<i32>, b: Seq<i32>, p: int, n: nat)
    requires
        0 <= p,
        a.len() == b.len(),
        whole_end(a, p, n) == whole_end(b, p, n),
        forall|i: int| 0 <= i < whole_end(a, p, n) ==> a[i] == b[i],
    ensures
        identities(a, p, n) == identities(b, p, n),
    decreases n,
{
    lemma_whole_ahead(a, p, n);
    if n > 0 && p + 3 <= a.len() {
        let next_a = p + 3 + link_count(a[p + 2]);
        let next_b = p + 3 + link_count(b[p + 2]);
        if next_a <= a.len() {
            lemma_whole_ahead(a, next_a, (n - 1) as nat);
            assert(a[p] == b[p] && a[p + 1] == b[p + 1] && a[p + 2] == b[p + 2]);
            assert(a.subrange(p + 3, next_a) =~= b.subrange(p + 3, next_a));
            lemma_same_whole(a, b, next_a, (n - 1) as nat);
        } else if next_b <= b.len() {
            lemma_whole_ahead(b, next_b, (n - 1) as nat);
        }
    }
}

/// Without a trailer every number behind the whole records counts: one of them
/// changed alone changes the signature.
pub proof fn lemma_signature_sees_the_rest(a: Seq<i32>, b: Seq<i32>, k: int)
    requires
        a.len() == b.len(),
        !trailed(a),
        !trailed(b),
        rest_start(a) == rest_start(b),
        rest_start(a) <= k < a.len(),
        a[k] != b[k],
        forall|i: int| 0 <= i < a.len() && i != k ==> a[i] == b[i],
    ensures
        signature(a) != signature(b),
{
    let w = rest_start(a);
    if a.len() < 3 {
        lemma_fold_differs(mixed(a.len() as u64), a, b, k);
    } else {
        let n = link_count(a[2]) as nat;
        lemma_whole_ahead(a, 3, n);
        lemma_same_whole(a, b, 3, n);
        let s = a.skip(w);
        let t = b.skip(w);
        lemma_fold_differs(mixed(s.len() as u64), s, t, k - w);
        let head: u64 = mixed(word(a[0])) ^ mixed(word(a[1]).wrapping_add(0x1234)) ^ mixed(
            (n as u64).wrapping_add(0x5678),
        );
        let nodes: u64 = xor_all(node_hashes(a, 3, n));
        let x: u64 = rest_hash(s);
        let y: u64 = rest_hash(t);
        assert(head ^ nodes ^ x != head ^ nodes ^ y) by (bit_vector)
            requires
                x != y,
        ;
    }
}

/// What records say is told by the numbers from their start on.
proof fn lemma_same_tail(a: Seq<i32>, b: Seq<i32>, p: int, n: nat)
    requires
        0 <= p,
        a.len() == b.len(),
        forall|i: int| p <= i < a.len() ==> a[i] == b[i],
    ensures
        identities(a, p, n) == identities(b, p, n),
        nodes_end(a, p, n) == nodes_end(b, p, n),
        whole_end(a, p, n) == whole_end(b, p, n),
    decreases n,
{
    if n > 0 && p + 3 <= a.len() {
        let next = p + 3 + link_count(a[p + 2]);
        assert(a[p] == b[p] && a[p + 1] == b[p + 1] && a[p + 2] == b[p + 2]);
        if next <= a.len() {
            lemma_same_tail(a, b, next, (n - 1) as nat);
            assert(a.subrange(p + 3, next) =~= b.subrange(p + 3, next));
        }
    }
}

/// The class start or the budget changed alone changes the signature.
pub proof fn lemma_signature_sees_start_and_budget(a: Seq<i32>, b: Seq<i32>)
    requires
        a.len() >= 3,
        a.len() == b.len(),
        (a[0] == b[0]) != (a[1] == b[1]),
        forall|i: int| 2 <= i < a.len() ==> a[i] == b[i],
    ensures
        signature(a) != signature(b),
{
    let n = link_count(a[2]) as nat;
    lemma_same_tail(a, b, 3, n);
    lemma_end_ahead(a, 3, n);
    lemma_whole_ahead(a, 3, n);
    let w = whole_end(a, 3, n);
    assert(a.skip(w) =~= b.skip(w));
    let a0: u64 = mixed(word(a[0]));
    let b0: u64 = mixed(word(b[0]));
    let a1: u64 = mixed(word(a[1]).wrapping_add(0x1234));
    let b1: u64 = mixed(word(b[1]).wrapping_add(0x1234));
    let count: u64 = mixed((n as u64).wrapping_add(0x5678));
    let nodes: u64 = xor_all(node_hashes(a, 3, n));
    let refs: u64 = reference_hash(a, n);
    assert(reference_hash(b, n) == refs);
    if a[0] != b[0] {
        lemma_word_injective(a[0], b[0]);
        lemma_mixed_injective(word(a[0]), word(b[0]));
    } else {
        lemma_word_injective(a[1], b[1]);
        lemma_mixed_injective(word(a[1]).wrapping_add(0x1234), word(b[1]).wrapping_add(0x1234));
    }
    assert((a0 ^ a1 ^ count) ^ nodes ^ refs != (b0 ^ b1 ^ count) ^ nodes ^ refs) by (bit_vector)
        requires
            (a0 == b0) != (a1 == b1),
    ;
}

/// Where record number `j` begins, counted from position `p` on.
pub open spec fn record_start(flat: Seq<i32>, p: int, j: nat) -> int
    decreases j,
{
    if j == 0 {
        p
    } else {
        record_start(flat, p + 3 + link_count(flat[p + 2]), (j - 1) as nat)
    }
}

proof fn lemma_record_ahead(flat: Seq<i32>, p: int, j: nat)
    ensures
        p <= record_start(flat, p, j),
    decreases j,
{
    if j > 0 {
        lemma_record_ahead(flat, p + 3 + link_count(flat[p + 2]), (j - 1) as nat);
    }
}

/// The id, the type or a link of one record changed alone changes what that record says
/// and nothing else.
proof fn lemma_one_record(a: Seq<i32>, b: Seq<i32>, p: int, n: nat, j: nat, k: int)
    requires
        0 <= p,
        a.len() == b.len(),
        j < identities(a, p, n).len(),
        ({
            let at = record_start(a, p, j);
            at <= k < at + 3 + link_count(a[at + 2]) && k != at + 2
        }),
        forall|i: int| 0 <= i < a.len() && i != k ==> a[i] == b[i],
    ensures
        ({
            let at = record_start(a, p, j);
            at + 3 + link_count(a[at + 2]) <= whole_end(a, p, n)
        }),
        whole_end(a, p, n) <= nodes_end(a, p, n),
        nodes_end(b, p, n) == nodes_end(a, p, n),
        whole_end(b, p, n) == whole_end(a, p, n),
        ({
            let at = record_start(a, p, j);
            let old_one = identities(a, p, n)[j as int];
            let end = at + 3 + link_count(a[at + 2]);
            &&& old_one.id == a[at]
            &&& old_one.ty == a[at + 1]
            &&& old_one.links == a.subrange(at + 3, end).to_multiset()
            &&& identities(b, p, n) == identities(a, p, n).update(
                j as int,
                Identity {
                    id: b[at],
                    ty: b[at + 1],
                    links: b.subrange(at + 3, end).to_multiset(),
                },
            )
        }),
    decreases n,
{
    let next = p + 3 + link_count(a[p + 2]);
    let rest_a = identities(a, next, (n - 1) as nat);
    let rest_b = identities(b, next, (n - 1) as nat);
    lemma_whole_ahead(a, next, (n - 1) as nat);
    lemma_whole_no_later(a, p, n);
    if j == 0 {
        lemma_same_tail(a, b, next, (n - 1) as nat);
    } else {
        lemma_record_ahead(a, next, (j - 1) as nat);
        lemma_one_record(a, b, next, (n - 1) as nat, (j - 1) as nat, k);
    }
    assert(a[p + 2] == b[p + 2]);
    if j > 0 {
        assert(a.subrange(p + 3, next) =~= b.subrange(p + 3, next));
    }
    let at = record_start(a, p, j);
    let end = at + 3 + link_count(a[at + 2]);
    let new_one = Identity {
        id: b[at],
        ty: b[at + 1],
        links: b.subrange(at + 3, end).to_multiset(),
    };
    assert(identities(b, p, n) =~= identities(a, p, n).update(j as int, new_one));
}

proof fn lemma_whole_no_later(flat: Seq<i32>, p: int, n: nat)
    ensures
        whole_end(flat, p, n) <= nodes_end(flat, p, n),
    decreases n,
{
    if n > 0 && p + 3 <= flat.len() && p + 3 + link_count(flat[p + 2]) <= flat.len() {
        lemma_whole_no_later(flat, p + 3 + link_count(flat[p + 2]), (n - 1) as nat);
    }
}

/// Folding the same ids into different hashes gives different hashes.
proof fn lemma_fold_starts(x: u64, y: u64, links: Seq<i32>)
    requires
        x != y,
    ensures
        fold_links(x, links) != fold_links(y, links),
    decreases links.len(),
{
    if links.len() > 0 {
        lemma_fold_starts(x, y, links.drop_last());
        let f: u64 = fold_links(x, links.drop_last());
        let g: u64 = fold_links(y, links.drop_last());
        let z: u64 = mixed(word(links.last()));
        assert(f ^ z != g ^ z) by (bit_vector)
            requires
                f != g,
        ;
        lemma_mixed_injective(f ^ z, g ^ z);
    }
}

/// Nodes that differ in their id or in their type alone have different hashes.
proof fn lemma_node_differs(x: Identity, y: Identity)
    requires
        x.links == y.links,
        (x.id == y.id) != (x.ty == y.ty),
    ensures
        node_hash(x) != node_hash(y),
{
    let x1: u64 = word(x.id);
    let x2: u64 = word(y.id);
    let y1: u64 = word(x.ty);
    let y2: u64 = word(y.ty);
    if x.id != y.id {
        lemma_word_injective(x.id, y.id);
    } else {
        lemma_word_injective(x.ty, y.ty);
    }
    assert((x1 << 8) ^ y1 != (x2 << 8) ^ y2) by (bit_vector)
        requires
            x1 <= 0xFFFF_FFFF,
            x2 <= 0xFFFF_FFFF,
            (x1 == x2) != (y1 == y2),
    ;
    lemma_mixed_injective((x1 << 8) ^ y1, (x2 << 8) ^ y2);
    lemma_fold_starts(mixed((x1 << 8) ^ y1), mixed((x2 << 8) ^ y2), ordered(x.links));
}

/// The id or the type of one node changed alone changes the signature.
pub proof fn lemma_signature_sees_a_node(a: Seq<i32>, b: Seq<i32>, j: nat, k: int)
    requires
        a.len() >= 3,
        a.len() == b.len(),
        j < identities(a, 3, link_count(a[2]) as nat).len(),
        record_start(a, 3, j) <= k <= record_start(a, 3, j) + 1,
        a[k] != b[k],
        forall|i: int| 0 <= i < a.len() && i != k ==> a[i] == b[i],
    ensures
        signature(a) != signature(b),
{
    let n = link_count(a[2]) as nat;
    let at = record_start(a, 3, j);
    lemma_record_ahead(a, 3, j);
    lemma_one_record(a, b, 3, n, j, k);
    lemma_whole_ahead(a, 3, n);
    let w = whole_end(a, 3, n);
    assert(a.skip(w) =~= b.skip(w));
    assert(reference_hash(a, n) == reference_hash(b, n));
    let was = identities(a, 3, n)[j as int];
    let end = at + 3 + link_count(a[at + 2]);
    assert(a.subrange(at + 3, end) =~= b.subrange(at + 3, end));
    let now = Identity { id: b[at], ty: b[at + 1], links: was.links };
    lemma_node_differs(was, now);
    lemma_one_node(a, b, n, j, was, now);
}

/// One node whose hash changes alone changes the signature.
proof fn lemma_one_node(a: Seq<i32>, b: Seq<i32>, n: nat, j: nat, was: Identity, now: Identity)
    requires
        a.len() >= 3,
        b.len() >= 3,
        a[0] == b[0],
        a[1] == b[1],
        a[2] == b[2],
        n == link_count(a[2]),
        j < identities(a, 3, n).len(),
        identities(a, 3, n)[j as int] == was,
        identities(b, 3, n) == identities(a, 3, n).update(j as int, now),
        node_hash(was) != node_hash(now),
        reference_hash(a, n) == reference_hash(b, n),
    ensures
        signature(a) != signature(b),
{
    let hashes = node_hashes(a, 3, n);
    assert(hashes[j as int] == node_hash(was));
    assert(node_hashes(b, 3, n) =~= hashes.update(j as int, node_hash(now)));
    lemma_xor_update(hashes, j as int, node_hash(now));
    let head: u64 = mixed(word(a[0])) ^ mixed(word(a[1]).wrapping_add(0x1234)) ^ mixed(
        (n as u64).wrapping_add(0x5678),
    );
    let before: u64 = xor_all(hashes);
    let after: u64 = xor_all(node_hashes(b, 3, n));
    let refs: u64 = reference_hash(a, n);
    assert(head ^ before ^ refs != head ^ after ^ refs) by (bit_vector)
        requires
            before != after,
    ;
}

/// The links of a node have an ascending order.
proof fn lemma_order_exists(links: Seq<i32>)
    ensures
        in_order(ordered(links.to_multiset())),
        ordered(links.to_multiset()).to_multiset() == links.to_multiset(),
{
    let leq = |x: i32, y: i32| x <= y;
    let s = links.sort_by(leq);
    links.lemma_sort_by_ensures(leq);
    assert(in_order(s)) by {
        assert forall|i: int, j: int| 0 <= i < j < s.len() implies #[trigger] s[i]
            <= #[trigger] s[j] by {
            assert(leq(s[i], s[j]));
        }
    }
}

/// The last place of a member in an ascending list.
proof fn lemma_last_place(s: Seq<i32>, at: int) -> (r: int)
    requires
        in_order(s),
        0 <= at < s.len(),
    ensures
        at <= r < s.len(),
        s[r] == s[at],
        forall|i: int| r < i < s.len() ==> #[trigger] s[i] > s[r],
    decreases s.len() - at,
{
    if at + 1 < s.len() && s[at + 1] == s[at] {
        lemma_last_place(s, at + 1)
    } else {
        assert forall|i: int| at < i < s.len() implies #[trigger] s[i] > s[at] by {
            assert(s[at] <= s[at + 1]);
            if i > at + 1 {
                assert(s[at + 1] <= s[i]);
            }
        }
        at
    }
}

/// The first place of a member in an ascending list.
proof fn lemma_first_place(s: Seq<i32>, at: int) -> (r: int)
    requires
        in_order(s),
        0 <= at < s.len(),
    ensures
        0 <= r <= at,
        s[r] == s[at],
        forall|i: int| 0 <= i < r ==> #[trigger] s[i] < s[r],
    decreases at,
{
    if at > 0 && s[at - 1] == s[at] {
        lemma_first_place(s, at - 1)
    } else {
        assert forall|i: int| 0 <= i < at implies #[trigger] s[i] < s[at] by {
            assert(s[at - 1] <= s[at]);
            if i < at - 1 {
                assert(s[i] <= s[at - 1]);
            }
        }
        at
    }
}

/// A link that is replaced by one of the same rank changes the ascending order of the
/// links in one place.
proof fn lemma_rank_kept(links: Seq<i32>, k: int, y: i32) -> (r: int)
    requires
        0 <= k < links.len(),
        forall|i: int|
            0 <= i < links.len() && i != k ==> (links[k] <= #[trigger] links[i] && y <= links[i])
                || (links[i] <= links[k] && links[i] <= y),
    ensures
        ({
            let s = ordered(links.to_multiset());
            &&& 0 <= r < s.len()
            &&& s[r] == links[k]
            &&& ordered(links.update(k, y).to_multiset()) == s.update(r, y)
        }),
{
    broadcast use vstd::seq_lib::group_to_multiset_ensures;

    let x = links[k];
    let s = ordered(links.to_multiset());
    lemma_order_exists(links);
    assert(links.contains(x));
    assert(links.to_multiset().count(x) > 0);
    assert(s.contains(x));
    let at = choose|i: int| 0 <= i < s.len() && s[i] == x;
    let r = if y > x {
        lemma_last_place(s, at)
    } else {
        lemma_first_place(s, at)
    };
    let t = s.update(r, y);
    let others = links.remove(k);
    let rest = s.remove(r);
    assert(rest.to_multiset() == others.to_multiset());
    assert forall|i: int| 0 <= i < s.len() && i != r implies (x <= #[trigger] s[i] && y <= s[i])
        || (s[i] <= x && s[i] <= y) by {
        let m = if i < r {
            i
        } else {
            i - 1
        };
        assert(rest[m] == s[i]);
        assert(rest.contains(s[i]));
        assert(rest.to_multiset().count(s[i]) > 0);
        assert(others.to_multiset().count(s[i]) > 0);
        assert(others.contains(s[i]));
        let o = choose|o: int| 0 <= o < others.len() && others[o] == s[i];
        let p = if o < k {
            o
        } else {
            o + 1
        };
        assert(links[p] == s[i]);
    }
    assert forall|i: int, j: int| 0 <= i < j < t.len() implies #[trigger] t[i]
        <= #[trigger] t[j] by {
        assert(s[i] <= s[j]);
        if i == r {
            assert(t[j] == s[j]);
        } else if j == r {
            assert(t[i] == s[i]);
        }
    }
    assert(t.to_multiset() == links.update(k, y).to_multiset());
    lemma_ordered(t, links.update(k, y));
    r
}

/// A link of one node changed alone changes the signature. The new link must stand
/// where the old one stood in the ascending order of the node's links; where it moves
/// past another link, two hashes may meet.
pub proof fn lemma_signature_sees_a_link(a: Seq<i32>, b: Seq<i32>, j: nat, k: int)
    requires
        a.len() >= 3,
        a.len() == b.len(),
        j < identities(a, 3, link_count(a[2]) as nat).len(),
        ({
            let first = record_start(a, 3, j) + 3;
            let end = first + link_count(a[first - 1]);
            &&& first <= k < end
            &&& forall|i: int|
                first <= i < end && i != k ==> (a[k] <= #[trigger] a[i] && b[k] <= a[i]) || (a[i]
                    <= a[k] && a[i] <= b[k])
        }),
        a[k] != b[k],
        forall|i: int| 0 <= i < a.len() && i != k ==> a[i] == b[i],
    ensures
        signature(a) != signature(b),
{
    let n = link_count(a[2]) as nat;
    let at = record_start(a, 3, j);
    let first = at + 3;
    let end = first + link_count(a[at + 2]);
    lemma_record_ahead(a, 3, j);
    lemma_one_record(a, b, 3, n, j, k);
    lemma_whole_ahead(a, 3, n);
    let w = whole_end(a, 3, n);
    assert(a.skip(w) =~= b.skip(w));
    assert(reference_hash(a, n) == reference_hash(b, n));
    let old_links = a.subrange(first, end);
    let new_links = b.subrange(first, end);
    assert(new_links =~= old_links.update(k - first, b[k]));
    let was = identities(a, 3, n)[j as int];
    let now = Identity { id: b[at], ty: b[at + 1], links: new_links.to_multiset() };
    assert forall|i: int| 0 <= i < old_links.len() && i != k - first implies (old_links[k - first]
        <= #[trigger] old_links[i] && b[k] <= old_links[i]) || (old_links[i] <= old_links[k - first]
        && old_links[i] <= b[k]) by {
        assert(old_links[i] == a[first + i]);
    }
    let r = lemma_rank_kept(old_links, k - first, b[k]);
    let s = ordered(was.links);
    assert(s[r] == a[k]);
    lemma_fold_differs(
        mixed((word(was.id) << 8) ^ word(was.ty)),
        s,
        ordered(now.links),
        r,
    );
    lemma_one_node(a, b, n, j, was, now);
}

} // verus!
