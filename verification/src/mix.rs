//! Integer hashing.

use vstd::prelude::*;

verus! {

/// The finalizer of splitmix64, written out.
pub open spec fn mixed(x: u64) -> u64 {
    let a = x.wrapping_add(0x9E37_79B9_7F4A_7C15);
    let b = (a ^ (a >> 30)).wrapping_mul(0xBF58_476D_1CE4_E5B9);
    let c = (b ^ (b >> 27)).wrapping_mul(0x94D0_49BB_1331_11EB);
    c ^ (c >> 31)
}

/// The finalizer of splitmix64, a strong integer hash.
pub fn splitmix64(x: u64) -> (r: u64)
    ensures
        r == mixed(x),
{
    let a: u64 = x.wrapping_add(0x9E37_79B9_7F4A_7C15);
    let b: u64 = (a ^ (a >> 30)).wrapping_mul(0xBF58_476D_1CE4_E5B9);
    let c: u64 = (b ^ (b >> 27)).wrapping_mul(0x94D0_49BB_1331_11EB);
    c ^ (c >> 31)
}

/// All hashes combined by exclusive or.
pub open spec fn xor_all(hashes: Seq<u64>) -> u64
    decreases hashes.len(),
{
    if hashes.len() == 0 {
        0
    } else {
        xor_all(hashes.drop_last()) ^ hashes.last()
    }
}

proof fn lemma_xor_remove(s: Seq<u64>, i: int)
    requires
        0 <= i < s.len(),
    ensures
        xor_all(s) == xor_all(s.remove(i)) ^ s[i],
    decreases s.len(),
{
    if i == s.len() - 1 {
        assert(s.remove(i) =~= s.drop_last());
    } else {
        let t = s.drop_last();
        lemma_xor_remove(t, i);
        assert(s.remove(i).drop_last() =~= t.remove(i));
        assert(s.remove(i).last() == s.last());
        let a: u64 = xor_all(t.remove(i));
        let b: u64 = s[i];
        let c: u64 = s.last();
        assert((a ^ b) ^ c == (a ^ c) ^ b) by (bit_vector);
    }
}

/// The order of the hashes does not count.
pub proof fn lemma_xor_order(s: Seq<u64>, t: Seq<u64>)
    requires
        s.to_multiset() == t.to_multiset(),
    ensures
        xor_all(s) == xor_all(t),
    decreases s.len(),
{
    broadcast use vstd::seq_lib::group_to_multiset_ensures;

    assert(s.len() == s.to_multiset().len());
    assert(t.len() == t.to_multiset().len());
    if s.len() > 0 {
        let x = s.last();
        assert(s.to_multiset().contains(x));
        assert(t.contains(x));
        let i = choose|i: int| 0 <= i < t.len() && t[i] == x;
        lemma_xor_remove(t, i);
        assert(s.drop_last() =~= s.remove(s.len() - 1));
        assert(s.remove(s.len() - 1).to_multiset() =~= t.remove(i).to_multiset());
        lemma_xor_order(s.drop_last(), t.remove(i));
    }
}

pub proof fn lemma_xor_push(s: Seq<u64>, x: u64)
    ensures
        xor_all(s.push(x)) == xor_all(s) ^ x,
{
    assert(s.push(x).drop_last() =~= s);
}

/// Multiplying by a number that has an inverse loses nothing.
proof fn lemma_times_injective(x: u64, y: u64, k: u64, inverse: int, over: int)
    requires
        k * inverse == 1 + over * 0x1_0000_0000_0000_0000,
        x.wrapping_mul(k) == y.wrapping_mul(k),
    ensures
        x == y,
{
    let m: int = 0x1_0000_0000_0000_0000int;
    let p: int = x * k;
    let q: int = y * k;
    assert(p % m == q % m);
    let t: int = p / m - q / m;
    assert(p - q == t * m) by {
        vstd::arithmetic::div_mod::lemma_fundamental_div_mod(p, m);
        vstd::arithmetic::div_mod::lemma_fundamental_div_mod(q, m);
        assert(m * (p / m) - m * (q / m) == t * m) by (nonlinear_arith)
            requires
                t == p / m - q / m,
        ;
    }
    let z: int = x - y;
    let kk: int = k as int;
    assert(z * kk == t * m) by (nonlinear_arith)
        requires
            p - q == t * m,
            p == x * k,
            q == y * k,
            z == x - y,
            kk == k as int,
    ;
    assert(z == m * (t * inverse - z * over)) by (nonlinear_arith)
        requires
            z * kk == t * m,
            kk * inverse == 1 + over * m,
    ;
    let c: int = t * inverse - z * over;
    assert(c == 0) by (nonlinear_arith)
        requires
            z == m * c,
            -m < z < m,
            m > 0,
    ;
}

/// The finalizer loses nothing: different numbers have different hashes.
pub proof fn lemma_mixed_injective(x: u64, y: u64)
    requires
        x != y,
    ensures
        mixed(x) != mixed(y),
{
    if mixed(x) == mixed(y) {
        let a1: u64 = x.wrapping_add(0x9E37_79B9_7F4A_7C15);
        let a2: u64 = y.wrapping_add(0x9E37_79B9_7F4A_7C15);
        let s1: u64 = a1 ^ (a1 >> 30);
        let s2: u64 = a2 ^ (a2 >> 30);
        let b1: u64 = s1.wrapping_mul(0xBF58_476D_1CE4_E5B9);
        let b2: u64 = s2.wrapping_mul(0xBF58_476D_1CE4_E5B9);
        let t1: u64 = b1 ^ (b1 >> 27);
        let t2: u64 = b2 ^ (b2 >> 27);
        let c1: u64 = t1.wrapping_mul(0x94D0_49BB_1331_11EB);
        let c2: u64 = t2.wrapping_mul(0x94D0_49BB_1331_11EB);
        assert(c1 == c2) by (bit_vector)
            requires
                c1 ^ (c1 >> 31) == c2 ^ (c2 >> 31),
        ;
        lemma_times_injective(
            t1,
            t2,
            0x94D0_49BB_1331_11EB,
            3573116690164977347,
            2077064247507883091,
        );
        assert(b1 == b2) by (bit_vector)
            requires
                b1 ^ (b1 >> 27) == b2 ^ (b2 >> 27),
        ;
        lemma_times_injective(
            s1,
            s2,
            0xBF58_476D_1CE4_E5B9,
            10871156337175269513,
            8125545580553827436,
        );
        assert(a1 == a2) by (bit_vector)
            requires
                a1 ^ (a1 >> 30) == a2 ^ (a2 >> 30),
        ;
    }
}

/// One hash changed alone changes the combination.
pub proof fn lemma_xor_update(s: Seq<u64>, i: int, x: u64)
    requires
        0 <= i < s.len(),
        s[i] != x,
    ensures
        xor_all(s.update(i, x)) != xor_all(s),
{
    lemma_xor_remove(s, i);
    lemma_xor_remove(s.update(i, x), i);
    assert(s.update(i, x).remove(i) =~= s.remove(i));
    let rest: u64 = xor_all(s.remove(i));
    let y: u64 = s[i];
    assert(rest ^ x != rest ^ y) by (bit_vector)
        requires
            x != y,
    ;
}

} // verus!
