//! Counting within what a counter can hold.

use vstd::prelude::*;

verus! {

/// The most that a counter can hold, or less.
pub open spec fn capped(n: nat) -> nat {
    if n <= usize::MAX {
        n
    } else {
        usize::MAX as nat
    }
}

/// Adds within what a counter can hold.
pub fn add_capped(a: usize, b: usize) -> (c: usize)
    ensures
        c == capped((a + b) as nat),
{
    if b <= usize::MAX - a {
        a + b
    } else {
        usize::MAX
    }
}

/// Multiplies within what a counter can hold.
pub fn times_capped(a: usize, b: usize) -> (c: usize)
    ensures
        c == capped((a * b) as nat),
{
    proof {
        assert(0 <= a * b <= u64::MAX * u64::MAX) by (nonlinear_arith)
            requires
                0 <= a <= u64::MAX,
                0 <= b <= u64::MAX,
        ;
    }
    let wide: u128 = (a as u128) * (b as u128);
    if wide <= usize::MAX as u128 {
        wide as usize
    } else {
        usize::MAX
    }
}

/// A capped count is the count where a machine word holds it, and the most that one
/// holds elsewhere; counting on from a capped count caps the same.
pub proof fn lemma_capped(n: nat, more: nat)
    ensures
        n <= usize::MAX ==> capped(n) == n,
        n >= usize::MAX ==> capped(n) == usize::MAX,
        capped(capped(n) + more) == capped(n + more),
{
}

} // verus!
