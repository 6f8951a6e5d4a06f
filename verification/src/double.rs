//! IEEE 754 binary64 numbers held by their bits.
//!
//! Every measurement the search handles (scores, damage, effective hit points,
//! weights) is a binary64. The type keeps the bits and computes on them with
//! integers, so each operation has an exact statement: the mathematical result,
//! rounded to nearest with ties to even.

use vstd::arithmetic::power2::{lemma_pow2_adds, lemma_pow2_pos, lemma_pow2_unfold, pow2};
use vstd::prelude::*;

verus! {

/// Weight of one step of the exponent field.
pub const P52: u64 = 0x0010_0000_0000_0000;

/// One past the largest significand.
pub const P53: u64 = 0x0020_0000_0000_0000;

/// The sign bit.
pub const P63: u64 = 0x8000_0000_0000_0000;

/// The magnitude bits of infinity.
pub const INF_MAGNITUDE: u64 = 0x7FF0_0000_0000_0000;

/// A binary64 number.
#[derive(Clone, Copy, Debug, PartialEq, Eq, Structural)]
pub struct Double {
    pub bits: u64,
}

/// Not a number: the answer of a rejected or failed scoring.
pub const NAN_BITS: u64 = 0x7FF8_0000_0000_0000;

/// 0.
pub const ZERO_BITS: u64 = 0;

/// 1.
pub const ONE_BITS: u64 = 0x3FF0_0000_0000_0000;

/// 100.
pub const HUNDRED_BITS: u64 = 0x4059_0000_0000_0000;

/// 1000.
pub const THOUSAND_BITS: u64 = 0x408F_4000_0000_0000;

/// The binary64 nearest to 0.01.
pub const ONE_PERCENT_BITS: u64 = 0x3F84_7AE1_47AE_147B;

/// The binary64 nearest to 0.000001.
pub const ONE_MILLIONTH_BITS: u64 = 0x3EB0_C6F7_A0B5_ED8D;

/// Positive infinity.
pub const INFINITY_BITS: u64 = 0x7FF0_0000_0000_0000;

/// Negative infinity.
pub const NEG_INFINITY_BITS: u64 = 0xFFF0_0000_0000_0000;

/// `num / den` rounded to a whole number, ties to even.
pub open spec fn nearest(num: nat, den: nat) -> nat {
    let q = num / den;
    let r = num % den;
    if 2 * r < den || (2 * r == den && q % 2 == 0) {
        q
    } else {
        q + 1
    }
}

/// The magnitude bits of `num / den` rounded to 53 significant bits, where the
/// quotient counts units of the smallest positive number and no upper limit
/// applies. Each halving of the quotient moves the exponent field up by one.
pub open spec fn round_unbounded(num: nat, den: nat) -> nat
    decreases num - den,
{
    if den == 0 || num < den * P53 {
        nearest(num, den)
    } else {
        P52 as nat + round_unbounded(num, 2 * den)
    }
}

/// The magnitude bits of the binary64 nearest to `num / den` smallest units;
/// infinity where that is too large.
pub open spec fn round_magnitude(num: nat, den: nat) -> nat {
    let m = round_unbounded(num, den);
    if m >= INF_MAGNITUDE {
        INF_MAGNITUDE as nat
    } else {
        m
    }
}

/// The double with the given sign and magnitude bits.
pub open spec fn signed(negative: bool, magnitude: nat) -> Double {
    Double {
        bits: (if negative {
            magnitude + P63
        } else {
            magnitude as int
        }) as u64,
    }
}

impl Double {
    pub open spec fn negative(self) -> bool {
        self.bits >= P63
    }

    /// The bits without the sign.
    pub open spec fn magnitude(self) -> nat {
        (self.bits % P63) as nat
    }

    pub open spec fn nan(self) -> bool {
        self.magnitude() > INF_MAGNITUDE
    }

    pub open spec fn infinite(self) -> bool {
        self.magnitude() == INF_MAGNITUDE
    }

    pub open spec fn finite(self) -> bool {
        self.magnitude() < INF_MAGNITUDE
    }

    pub open spec fn zero(self) -> bool {
        self.magnitude() == 0
    }

    /// The significand, with the implicit bit where the number is normal.
    pub open spec fn significand(self) -> nat {
        if self.magnitude() < P52 {
            self.magnitude()
        } else {
            self.magnitude() % (P52 as nat) + P52 as nat
        }
    }

    /// The power of two that scales the significand, above the smallest unit.
    pub open spec fn scale(self) -> nat {
        if self.magnitude() < P52 {
            0
        } else {
            (self.magnitude() / (P52 as nat) - 1) as nat
        }
    }

    /// The absolute value of a finite number in units of 2^-1074, the smallest
    /// positive number.
    pub open spec fn units(self) -> nat {
        self.significand() * pow2(self.scale())
    }

    /// The value of a finite number in units of 2^-1074.
    pub open spec fn value(self) -> int {
        if self.negative() {
            -self.units()
        } else {
            self.units() as int
        }
    }

    /// The place of a number in the order of numbers; both zeros share one.
    pub open spec fn rank(self) -> int {
        if self.negative() {
            -self.magnitude()
        } else {
            self.magnitude() as int
        }
    }

    /// The place of a number in a ranking, where what is not a number stands with
    /// negative infinity.
    pub open spec fn standing(self) -> int {
        if self.nan() {
            -INF_MAGNITUDE
        } else {
            self.rank()
        }
    }

    /// `self < other`; false where either is not a number.
    pub open spec fn below(self, other: Double) -> bool {
        !self.nan() && !other.nan() && self.rank() < other.rank()
    }

    /// `self <= other`; false where either is not a number.
    pub open spec fn at_most(self, other: Double) -> bool {
        !self.nan() && !other.nan() && self.rank() <= other.rank()
    }

    /// `-self`.
    pub open spec fn negated(self) -> Double {
        signed(!self.negative(), self.magnitude())
    }

    /// The finite sum `total` (in smallest units) as a double.
    pub open spec fn of_units(total: int) -> Double {
        if total < 0 {
            signed(true, round_magnitude((-total) as nat, 1))
        } else {
            signed(false, round_magnitude(total as nat, 1))
        }
    }

    /// `self + other`.
    pub open spec fn sum(self, other: Double) -> Double {
        if self.nan() || other.nan() {
            Double { bits: NAN_BITS }
        } else if self.infinite() {
            if other.infinite() && self.negative() != other.negative() {
                Double { bits: NAN_BITS }
            } else {
                self
            }
        } else if other.infinite() {
            other
        } else if self.value() + other.value() == 0 {
            signed(self.negative() && other.negative(), 0)
        } else {
            Double::of_units(self.value() + other.value())
        }
    }

    /// `self - other`.
    pub open spec fn difference(self, other: Double) -> Double {
        self.sum(other.negated())
    }

    /// `self * other`.
    pub open spec fn product(self, other: Double) -> Double {
        let negative = self.negative() != other.negative();
        if self.nan() || other.nan() {
            Double { bits: NAN_BITS }
        } else if self.infinite() || other.infinite() {
            if self.zero() || other.zero() {
                Double { bits: NAN_BITS }
            } else {
                signed(negative, INF_MAGNITUDE as nat)
            }
        } else {
            signed(negative, round_magnitude(self.units() * other.units(), pow2(1074)))
        }
    }

    /// `self / other`.
    pub open spec fn quotient(self, other: Double) -> Double {
        let negative = self.negative() != other.negative();
        if self.nan() || other.nan() {
            Double { bits: NAN_BITS }
        } else if self.infinite() {
            if other.infinite() {
                Double { bits: NAN_BITS }
            } else {
                signed(negative, INF_MAGNITUDE as nat)
            }
        } else if other.infinite() {
            signed(negative, 0)
        } else if other.zero() {
            if self.zero() {
                Double { bits: NAN_BITS }
            } else {
                signed(negative, INF_MAGNITUDE as nat)
            }
        } else {
            signed(negative, round_magnitude(self.units() * pow2(1074), other.units()))
        }
    }

    /// The double nearest to a whole number.
    pub open spec fn of_int(n: int) -> Double {
        Double::of_units(n * pow2(1074))
    }
}

/// `nearest` depends on the quotient alone.
proof fn lemma_nearest_scaled(num: nat, den: nat, c: nat)
    requires
        den > 0,
        c > 0,
    ensures
        nearest(num * c, den * c) == nearest(num, den),
{
    let q = num / den;
    let r = num % den;
    vstd::arithmetic::div_mod::lemma_fundamental_div_mod(num as int, den as int);
    assert(den * c > 0) by (nonlinear_arith)
        requires
            den > 0,
            c > 0,
    ;
    assert(num * c == q * (den * c) + r * c) by (nonlinear_arith)
        requires
            num == den * q + r,
    ;
    assert(0 <= r * c < den * c) by (nonlinear_arith)
        requires
            0 <= r < den,
            c > 0,
    ;
    vstd::arithmetic::div_mod::lemma_fundamental_div_mod_converse(
        (num * c) as int,
        (den * c) as int,
        q as int,
        (r * c) as int,
    );
    assert(2 * (r * c) < den * c <==> 2 * r < den) by (nonlinear_arith)
        requires
            c > 0,
    ;
    assert(2 * (r * c) == den * c <==> 2 * r == den) by (nonlinear_arith)
        requires
            c > 0,
    ;
}

/// Rounding a number known as `m` whole steps plus a fraction of a step.
pub open spec fn nearest_of_parts(m: nat, half: nat, sticky: bool) -> nat {
    let q = m / (2 * half);
    let r = m % (2 * half);
    if r < half || (r == half && !sticky && q % 2 == 0) {
        q
    } else {
        q + 1
    }
}

proof fn lemma_nearest_of_parts(num: nat, step: nat, m: nat, half: nat, sticky: bool)
    requires
        step > 0,
        half > 0,
        m * step <= num < (m + 1) * step,
        num == m * step <==> !sticky,
    ensures
        nearest(num, step * (2 * half)) == nearest_of_parts(m, half, sticky),
{
    let w = 2 * half;
    let q = m / w;
    let r = m % w;
    let t = (num - m * step) as nat;
    vstd::arithmetic::div_mod::lemma_fundamental_div_mod(m as int, w as int);
    assert(step * w > 0) by (nonlinear_arith)
        requires
            step > 0,
            w > 0,
    ;
    assert(0 <= t < step) by (nonlinear_arith)
        requires
            m * step <= num < (m + 1) * step,
            t == num - m * step,
    ;
    let rest = r * step + t;
    assert(num == q * (step * w) + rest) by (nonlinear_arith)
        requires
            m == w * q + r,
            num == m * step + t,
            rest == r * step + t,
    ;
    assert(rest < step * w) by (nonlinear_arith)
        requires
            rest == r * step + t,
            t < step,
            r + 1 <= w,
            step > 0,
    ;
    assert(rest >= 0);
    vstd::arithmetic::div_mod::lemma_fundamental_div_mod_converse(
        num as int,
        (step * w) as int,
        q as int,
        rest as int,
    );
    if r < half {
        assert(2 * rest < step * w) by (nonlinear_arith)
            requires
                rest == r * step + t,
                t < step,
                r + 1 <= half,
                w == 2 * half,
        ;
    } else if r == half {
        assert(2 * rest == step * w + 2 * t) by (nonlinear_arith)
            requires
                rest == r * step + t,
                r == half,
                w == 2 * half,
        ;
    } else {
        assert(2 * rest > step * w) by (nonlinear_arith)
            requires
                rest == r * step + t,
                r >= half + 1,
                w == 2 * half,
                step > 0,
        ;
    }
}

/// Where the exponent field of a rounded quotient lies.
proof fn lemma_round_unbounded(num: nat, den: nat, k: nat)
    requires
        den > 0,
        num < den * pow2(53 + k),
        k > 0 ==> den * pow2((52 + k) as nat) <= num,
    ensures
        round_unbounded(num, den) == k * P52 + nearest(num, den * pow2(k)),
    decreases k,
{
    lemma_small_powers();
    if k == 0 {
        assert(den * pow2(0) == den);
    } else {
        let k1 = (k - 1) as nat;
        lemma_pow2_unfold(53 + k);
        lemma_pow2_unfold((52 + k) as nat);
        lemma_pow2_unfold(k);
        assert(den * pow2(53 + k) == (2 * den) * pow2(53 + k1)) by (nonlinear_arith)
            requires
                pow2(53 + k) == 2 * pow2(53 + k1),
        ;
        assert(den * pow2((52 + k) as nat) == (2 * den) * pow2((52 + k1) as nat))
            by (nonlinear_arith)
            requires
                pow2((52 + k) as nat) == 2 * pow2((52 + k1) as nat),
        ;
        assert(den * pow2(k) == (2 * den) * pow2(k1)) by (nonlinear_arith)
            requires
                pow2(k) == 2 * pow2(k1),
        ;
        assert(num >= den * P53) by {
            lemma_pow2_adds(53, k1);
            lemma_pow2_pos(k1);
            assert(pow2((52 + k) as nat) == pow2(53) * pow2(k1));
            assert(den * (pow2(53) * pow2(k1)) >= den * pow2(53)) by (nonlinear_arith)
                requires
                    pow2(k1) >= 1,
            ;
        }
        lemma_round_unbounded(num, 2 * den, k1);
    }
}

proof fn lemma_small_powers()
    ensures
        pow2(0) == 1,
        pow2(52) == P52,
        pow2(53) == P53,
        pow2(60) == 0x1000_0000_0000_0000,
        pow2(64) == 0x1_0000_0000_0000_0000,
{
    vstd::arithmetic::power2::lemma2_to64();
    lemma_pow2_adds(26, 26);
    lemma_pow2_adds(52, 1);
    lemma_pow2_adds(30, 30);
}

/// 2 to the power `n`.
fn power_of_two(n: u64) -> (p: u128)
    requires
        n < 127,
    ensures
        p == pow2(n as nat),
        p > 0,
{
    let mut p: u128 = 1;
    let mut i: u64 = 0;
    proof {
        lemma_small_powers();
        lemma_power_bound(0, 127);
    }
    while i < n
        invariant
            i <= n < 127,
            p == pow2(i as nat),
            p > 0,
        decreases n - i,
    {
        proof {
            lemma_pow2_unfold((i + 1) as nat);
            lemma_power_bound((i + 1) as nat, 127);
        }
        p = p * 2;
        i = i + 1;
    }
    p
}

proof fn lemma_power_bound(i: nat, n: nat)
    requires
        i <= n,
        n == 127,
    ensures
        pow2(i) <= pow2(n) == 0x8000_0000_0000_0000_0000_0000_0000_0000,
{
    lemma_power_monotone(i, n);
    lemma_small_powers();
    lemma_pow2_adds(64, 60);
    vstd::arithmetic::power2::lemma2_to64();
    lemma_pow2_adds(124, 3);
}

proof fn lemma_power_monotone(i: nat, n: nat)
    requires
        i <= n,
    ensures
        0 < pow2(i) <= pow2(n),
{
    lemma_pow2_pos(i);
    if i < n {
        let d = (n - i) as nat;
        lemma_pow2_adds(i, d);
        lemma_pow2_pos(d);
        assert(pow2(i) * pow2(d) >= pow2(i)) by (nonlinear_arith)
            requires
                pow2(d) >= 1,
        ;
    }
}

/// The number of binary digits of `m`.
fn bit_length(m: u128) -> (n: u64)
    requires
        0 < m < pow2(127),
    ensures
        1 <= n <= 127,
        pow2((n - 1) as nat) <= m < pow2(n as nat),
{
    let mut p: u128 = 1;
    let mut n: u64 = 0;
    proof {
        lemma_small_powers();
        lemma_power_bound(0, 127);
    }
    while p <= m
        invariant
            n <= 127,
            p == pow2(n as nat),
            0 < m < pow2(127),
            pow2(127) == 0x8000_0000_0000_0000_0000_0000_0000_0000,
            n > 0 ==> pow2((n - 1) as nat) <= m,
            n == 0 ==> p <= m,
        decreases 127 - n,
    {
        proof {
            if n >= 127 {
                assert(false);
            }
            lemma_pow2_unfold((n + 1) as nat);
        }
        p = p * 2;
        n = n + 1;
    }
    n
}

/// `m` times 2^`e`, plus something under one step of 2^`e` where `sticky` is
/// set, as magnitude bits. `num / den` is that number; `e` is `up - down`.
fn pack(
    m: u128,
    e: i64,
    sticky: bool,
    Ghost(num): Ghost<nat>,
    Ghost(den): Ghost<nat>,
    Ghost(up): Ghost<nat>,
    Ghost(down): Ghost<nat>,
) -> (r: u64)
    requires
        0 < m < pow2(127),
        sticky ==> m >= 2 * P53,
        -10000 < e < 10000,
        e == up - down,
        den > 0,
        m * (pow2(up) * den) <= num * pow2(down) < (m + 1) * (pow2(up) * den),
        num * pow2(down) == m * (pow2(up) * den) <==> !sticky,
    ensures
        r == round_magnitude(num, den),
{
    let len: i64 = bit_length(m) as i64;
    let k: i64 = if len + e > 53 { len + e - 53 } else { 0 };
    let s: i64 = k - e;
    proof {
        lemma_small_powers();
        lemma_power_bound(0, 127);
        lemma_exponent(m as nat, len as nat, k as nat, num, den, up, down);
        lemma_round_unbounded(num, den, k as nat);
        if sticky {
            assert(len >= 55) by {
                if len < 55 {
                    lemma_power_monotone(len as nat, 54);
                    lemma_pow2_adds(53, 1);
                    vstd::arithmetic::power2::lemma2_to64();
                }
            }
        }
    }
    if k > 2046 {
        assert(round_unbounded(num, den) >= INF_MAGNITUDE);
        return INF_MAGNITUDE;
    }
    let n: u64 = if s <= 0 {
        let p = power_of_two((-s) as u64);
        proof {
            lemma_whole(m as nat, (-s) as nat, k as nat, num, den, up, down);
            lemma_power_monotone(len as nat, 53);
            let z = (-s) as nat;
            lemma_pow2_adds(len as nat, z);
            lemma_power_monotone((len + z) as nat, 53);
            assert(m * p < pow2(len as nat) * p) by (nonlinear_arith)
                requires
                    m < pow2(len as nat),
                    p > 0,
            ;
        }
        (m * p) as u64
    } else {
        proof {
            lemma_nearest_step(m as nat, s as nat, sticky, k as nat, num, den, up, down);
            lemma_pow2_unfold(s as nat);
        }
        if s > 127 {
            proof {
                lemma_power_monotone(127, (s - 1) as nat);
                vstd::arithmetic::div_mod::lemma_small_mod(
                    m as nat,
                    2 * pow2((s - 1) as nat),
                );
                vstd::arithmetic::div_mod::lemma_basic_div(
                    m as int,
                    (2 * pow2((s - 1) as nat)) as int,
                );
            }
            0
        } else {
            let half: u128 = power_of_two((s - 1) as u64);
            proof {
                lemma_power_bound((s - 1) as nat, 127);
                lemma_power_bound(s as nat, 127);
            }
            let q: u128 = m / (2 * half);
            let r: u128 = m % (2 * half);
            proof {
                let w = pow2(s as nat);
                vstd::arithmetic::div_mod::lemma_fundamental_div_mod(m as int, w as int);
                lemma_pow2_adds(53, s as nat);
                lemma_power_monotone(len as nat, (53 + s) as nat);
                assert(q < P53) by (nonlinear_arith)
                    requires
                        m == w * q + r,
                        m < P53 * w,
                        r >= 0,
                        w > 0,
                ;
            }
            if r < half || (r == half && !sticky && q % 2 == 0) {
                q as u64
            } else {
                (q + 1) as u64
            }
        }
    };
    assert(n <= P53);
    assert(n == nearest(num, den * pow2(k as nat)));
    let bits: u64 = (k as u64) * P52 + n;
    if bits >= INF_MAGNITUDE {
        INF_MAGNITUDE
    } else {
        bits
    }
}

/// The exponent field that `m` steps of 2^(`up` - `down`) belong to.
proof fn lemma_exponent(m: nat, len: nat, k: nat, num: nat, den: nat, up: nat, down: nat)
    requires
        len >= 1,
        pow2((len - 1) as nat) <= m < pow2(len),
        den > 0,
        k == (if len + up - down > 53 { len + up - down - 53 } else { 0 }),
        m * (pow2(up) * den) <= num * pow2(down) < (m + 1) * (pow2(up) * den),
    ensures
        num < den * pow2(53 + k),
        k > 0 ==> den * pow2((52 + k) as nat) <= num,
{
    let step = pow2(up) * den;
    lemma_pow2_pos(up);
    lemma_pow2_pos(down);
    assert(num * pow2(down) < pow2(len) * step) by (nonlinear_arith)
        requires
            num * pow2(down) < (m + 1) * step,
            m + 1 <= pow2(len),
    ;
    lemma_pow2_adds(len, up);
    lemma_power_monotone((len + up) as nat, (53 + k + down) as nat);
    lemma_pow2_adds(53 + k, down);
    assert(pow2(len) * step == pow2(len + up) * den) by (nonlinear_arith)
        requires
            step == pow2(up) * den,
            pow2(len + up) == pow2(len) * pow2(up),
    ;
    assert(num < den * pow2(53 + k)) by (nonlinear_arith)
        requires
            num * pow2(down) < pow2(len + up) * den,
            pow2(len + up) <= pow2(53 + k + down),
            pow2(53 + k + down) == pow2(53 + k) * pow2(down),
            pow2(down) > 0,
            den > 0,
    ;
    if k > 0 {
        let l1 = (len - 1) as nat;
        lemma_pow2_adds(l1, up);
        lemma_pow2_adds((52 + k) as nat, down);
        assert(l1 + up == 52 + k + down);
        assert(pow2(l1) * step == pow2(l1 + up) * den) by (nonlinear_arith)
            requires
                step == pow2(up) * den,
                pow2(l1 + up) == pow2(l1) * pow2(up),
        ;
        assert(num * pow2(down) >= pow2(l1) * step) by (nonlinear_arith)
            requires
                num * pow2(down) >= m * step,
                m >= pow2(l1),
        ;
        assert(den * pow2((52 + k) as nat) <= num) by (nonlinear_arith)
            requires
                num * pow2(down) >= (pow2((52 + k) as nat) * pow2(down)) * den,
                pow2(down) > 0,
        ;
    }
}

/// A number that is a whole multiple of the target step rounds to itself.
proof fn lemma_whole(m: nat, z: nat, k: nat, num: nat, den: nat, up: nat, down: nat)
    requires
        den > 0,
        up == k + down + z,
        num * pow2(down) == m * (pow2(up) * den),
    ensures
        nearest(num, den * pow2(k)) == m * pow2(z),
{
    lemma_pow2_pos(k);
    lemma_pow2_pos(down);
    lemma_pow2_adds(k + down, z);
    lemma_pow2_adds(k, down);
    let d = den * pow2(k);
    assert(num == (m * pow2(z)) * d) by (nonlinear_arith)
        requires
            num * pow2(down) == m * (pow2(up) * den),
            pow2(up) == (pow2(k) * pow2(down)) * pow2(z),
            d == den * pow2(k),
            pow2(down) > 0,
    ;
    assert(d > 0) by (nonlinear_arith)
        requires
            den > 0,
            pow2(k) > 0,
            d == den * pow2(k),
    ;
    vstd::arithmetic::div_mod::lemma_fundamental_div_mod_converse(
        num as int,
        d as int,
        (m * pow2(z)) as int,
        0,
    );
}

/// Rounding `m` steps and a fraction to steps 2^`s` times as large.
proof fn lemma_nearest_step(
    m: nat,
    s: nat,
    sticky: bool,
    k: nat,
    num: nat,
    den: nat,
    up: nat,
    down: nat,
)
    requires
        den > 0,
        s > 0,
        k + down == up + s,
        m * (pow2(up) * den) <= num * pow2(down) < (m + 1) * (pow2(up) * den),
        num * pow2(down) == m * (pow2(up) * den) <==> !sticky,
    ensures
        nearest(num, den * pow2(k)) == nearest_of_parts(m, pow2((s - 1) as nat), sticky),
{
    let half = pow2((s - 1) as nat);
    let step = pow2(up) * den;
    lemma_pow2_pos((s - 1) as nat);
    lemma_pow2_pos(up);
    lemma_pow2_pos(down);
    lemma_pow2_pos(k);
    lemma_pow2_unfold(s);
    lemma_pow2_adds(up, s);
    lemma_pow2_adds(k, down);
    assert(step > 0) by (nonlinear_arith)
        requires
            step == pow2(up) * den,
            den > 0,
            pow2(up) > 0,
    ;
    lemma_nearest_of_parts(num * pow2(down), step, m, half, sticky);
    assert(den * pow2(k) > 0) by (nonlinear_arith)
        requires
            den > 0,
            pow2(k) > 0,
    ;
    lemma_nearest_scaled(num, den * pow2(k), pow2(down));
    assert((den * pow2(k)) * pow2(down) == step * (2 * half)) by (nonlinear_arith)
        requires
            step == pow2(up) * den,
            pow2(k) * pow2(down) == pow2(up) * (2 * half),
    ;
}

/// `m` or minus `m`.
pub open spec fn with_sign(negative: bool, m: int) -> int {
    if negative {
        -m
    } else {
        m
    }
}

/// The sum of two signed numbers `s * 2^u`, the first with the larger scale:
/// its sign and its rounded magnitude bits.
fn sum_aligned(n1: bool, s1: u64, u1: u64, n2: bool, s2: u64, u2: u64) -> (r: (bool, u64))
    requires
        s1 < P53,
        s2 < P53,
        u2 <= u1 <= 2045,
        u1 > 0 ==> s1 >= P52,
        with_sign(n1, s1 * pow2(u1 as nat)) + with_sign(n2, s2 * pow2(u2 as nat)) != 0,
    ensures
        ({
            let total = with_sign(n1, s1 * pow2(u1 as nat)) + with_sign(n2, s2 * pow2(u2 as nat));
            &&& r.0 == (total < 0)
            &&& r.1 == round_magnitude((if total < 0 { -total } else { total }) as nat, 1)
        }),
{
    let gap: u64 = if u1 - u2 > 60 { u1 - u2 - 60 } else { 0 };
    let e: u64 = u2 + gap;
    let lift: u128 = power_of_two(u1 - e);
    let ghost total = with_sign(n1, s1 * pow2(u1 as nat)) + with_sign(n2, s2 * pow2(u2 as nat));
    let ghost num = (if total < 0 { -total } else { total }) as nat;
    let ghost step = pow2(e as nat);
    let ghost fine = pow2(u2 as nat);
    let ghost w = pow2(gap as nat);
    proof {
        lemma_small_powers();
        lemma_power_bound(0, 127);
        lemma_power_monotone((u1 - e) as nat, 60);
        lemma_pow2_adds(e as nat, (u1 - e) as nat);
        lemma_pow2_adds(u2 as nat, gap as nat);
        lemma_pow2_pos(u2 as nat);
        lemma_pow2_pos(e as nat);
        lemma_pow2_pos(gap as nat);
        assert(s1 * lift < 0x20_0000_0000_0000 * 0x1000_0000_0000_0000) by (nonlinear_arith)
            requires
                s1 < 0x20_0000_0000_0000,
                lift <= 0x1000_0000_0000_0000,
        ;
        assert(s1 * pow2(u1 as nat) == (s1 * lift) * step) by (nonlinear_arith)
            requires
                pow2(u1 as nat) == step * lift,
        ;
        if gap > 0 {
            assert(s1 * lift >= 0x10_0000_0000_0000 * 0x1000_0000_0000_0000) by (nonlinear_arith)
                requires
                    s1 >= 0x10_0000_0000_0000,
                    lift == 0x1000_0000_0000_0000,
            ;
        }
    }
    let big: u128 = (s1 as u128) * lift;
    let lo: u64;
    let rest: u64;
    if gap >= 64 {
        lo = 0;
        rest = s2;
        proof {
            lemma_power_monotone(64, gap as nat);
        }
        assert(s2 == w * lo + rest);
    } else {
        let window: u128 = power_of_two(gap);
        proof {
            vstd::arithmetic::div_mod::lemma_fundamental_div_mod(s2 as int, window as int);
            vstd::arithmetic::div_mod::lemma_div_is_ordered_by_denominator(
                s2 as int,
                1,
                window as int,
            );
        }
        lo = ((s2 as u128) / window) as u64;
        rest = ((s2 as u128) % window) as u64;
    }
    assert(s2 == w * lo + rest && rest < w && lo <= s2);
    let sticky = rest != 0;
    assert(s2 * fine == lo * step + rest * fine) by (nonlinear_arith)
        requires
            s2 == w * lo + rest,
            step == fine * w,
    ;
    assert(rest * fine < step) by (nonlinear_arith)
        requires
            rest < w,
            step == fine * w,
            fine > 0,
    ;
    assert(rest * fine > 0 <==> sticky) by (nonlinear_arith)
        requires
            fine > 0,
            sticky <==> rest != 0,
    ;
    let m: u128;
    let negative: bool;
    if n1 == n2 {
        m = big + lo as u128;
        negative = n1;
        assert(num == m * step + rest * fine) by (nonlinear_arith)
            requires
                num == big * step + (lo * step + rest * fine),
                m == big + lo,
        ;
    } else if big >= lo as u128 + (if sticky { 1 } else { 0 }) {
        m = big - lo as u128 - (if sticky { 1 } else { 0 });
        negative = n1;
        assert(big * step - (lo * step + rest * fine) >= 0) by (nonlinear_arith)
            requires
                big >= lo + (if sticky { 1int } else { 0 }),
                rest * fine < step,
                rest * fine > 0 <==> sticky,
                rest * fine >= 0,
                step > 0,
        ;
        assert(num == big * step - (lo * step + rest * fine));
        if sticky {
            assert(num == m * step + (step - rest * fine)) by (nonlinear_arith)
                requires
                    num == big * step - (lo * step + rest * fine),
                    m == big - lo - 1,
            ;
        } else {
            assert(num == m * step) by (nonlinear_arith)
                requires
                    num == big * step - lo * step,
                    m == big - lo,
            ;
        }
    } else {
        m = lo as u128 - big;
        negative = n2;
        assert(gap == 0);
        assert(w == 1);
        assert(!sticky);
        assert(lo * step >= big * step) by (nonlinear_arith)
            requires
                lo >= big,
                step > 0,
        ;
        assert(num == m * step) by (nonlinear_arith)
            requires
                num == lo * step - big * step,
                m == lo - big,
        ;
    }
    proof {
        assert(num > 0);
        assert(m * step <= num < m * step + step);
        assert(m > 0) by (nonlinear_arith)
            requires
                num > 0,
                num == m * step || m >= 0x20_0000_0000_0000,
                m >= 0,
        ;
        assert((m + 1) * step == m * step + step) by (nonlinear_arith);
        assert(step * 1nat == step);
        assert(num * pow2(0) == num);
    }
    let bits: u64 = pack(m, e as i64, sticky, Ghost(num), Ghost(1), Ghost(e as nat), Ghost(0));
    (negative, bits)
}

/// The double with the given sign and magnitude bits.
fn assemble(negative: bool, magnitude: u64) -> (d: Double)
    requires
        magnitude <= INF_MAGNITUDE,
    ensures
        d == signed(negative, magnitude as nat),
{
    if negative {
        Double { bits: magnitude + P63 }
    } else {
        Double { bits: magnitude }
    }
}

proof fn lemma_parts(d: Double)
    requires
        d.finite(),
    ensures
        d.significand() < P53,
        d.scale() <= 2045,
        d.scale() > 0 ==> d.significand() >= P52,
        d.zero() <==> d.significand() == 0,
        d.zero() <==> d.units() == 0,
{
    lemma_pow2_pos(d.scale());
    let s = d.significand();
    let p = pow2(d.scale());
    assert(s * p == 0 <==> s == 0) by (nonlinear_arith)
        requires
            p > 0,
            s >= 0,
    ;
}

impl Double {
    /// The number with the given bits.
    pub fn from_bits(bits: u64) -> (d: Double)
        ensures
            d == (Double { bits }),
    {
        Double { bits }
    }

    /// The bits of the number.
    pub fn to_bits(self) -> (bits: u64)
        ensures
            bits == self.bits,
    {
        self.bits
    }

    pub fn is_nan(self) -> (b: bool)
        ensures
            b == self.nan(),
    {
        self.bits % P63 > INF_MAGNITUDE
    }

    /// Neither infinite nor not a number.
    pub fn is_finite(self) -> (b: bool)
        ensures
            b == self.finite(),
    {
        self.bits % P63 < INF_MAGNITUDE
    }

    /// The place of the number in the order of numbers.
    pub fn order(self) -> (r: i64)
        ensures
            r == self.rank(),
    {
        if self.bits >= P63 {
            -((self.bits - P63) as i64)
        } else {
            self.bits as i64
        }
    }

    /// The place of the number in a ranking.
    pub fn seat(self) -> (r: i64)
        ensures
            r == self.standing(),
            r > i64::MIN,
    {
        if self.is_nan() {
            -(INF_MAGNITUDE as i64)
        } else {
            self.order()
        }
    }

    /// `self < other`.
    pub fn lt(self, other: Double) -> (b: bool)
        ensures
            b == self.below(other),
    {
        !self.is_nan() && !other.is_nan() && self.order() < other.order()
    }

    /// `self <= other`.
    pub fn le(self, other: Double) -> (b: bool)
        ensures
            b == self.at_most(other),
    {
        !self.is_nan() && !other.is_nan() && self.order() <= other.order()
    }

    /// The significand and the power of two above the smallest unit.
    fn parts(self) -> (r: (u64, u64))
        requires
            self.finite(),
        ensures
            r.0 == self.significand(),
            r.1 == self.scale(),
    {
        let m: u64 = self.bits % P63;
        if m < P52 {
            (m, 0)
        } else {
            (m % P52 + P52, m / P52 - 1)
        }
    }

    /// `-self`.
    pub fn negate(self) -> (d: Double)
        ensures
            d == self.negated(),
    {
        if self.bits >= P63 {
            Double { bits: self.bits - P63 }
        } else {
            Double { bits: self.bits + P63 }
        }
    }

    /// `self + other`.
    pub fn plus(self, other: Double) -> (d: Double)
        ensures
            d == self.sum(other),
    {
        if self.is_nan() || other.is_nan() {
            return Double { bits: NAN_BITS };
        }
        if !self.is_finite() {
            if !other.is_finite() && (self.bits >= P63) != (other.bits >= P63) {
                return Double { bits: NAN_BITS };
            }
            return self;
        }
        if !other.is_finite() {
            return other;
        }
        let n1: bool = self.bits >= P63;
        let n2: bool = other.bits >= P63;
        let (s1, u1) = self.parts();
        let (s2, u2) = other.parts();
        proof {
            lemma_parts(self);
            lemma_parts(other);
        }
        if self.cancels(other) {
            return assemble(n1 && n2, 0);
        }
        let (negative, bits) = if u1 >= u2 {
            sum_aligned(n1, s1, u1, n2, s2, u2)
        } else {
            sum_aligned(n2, s2, u2, n1, s1, u1)
        };
        assemble(negative, bits)
    }

    /// Whether two finite numbers add up to zero.
    fn cancels(self, other: Double) -> (b: bool)
        requires
            self.finite(),
            other.finite(),
        ensures
            b == (self.value() + other.value() == 0),
    {
        proof {
            lemma_units_order(self, other);
            lemma_parts(self);
            lemma_parts(other);
        }
        let m1: u64 = self.bits % P63;
        let m2: u64 = other.bits % P63;
        m1 == m2 && (m1 == 0 || (self.bits >= P63) != (other.bits >= P63))
    }

    /// `self - other`.
    pub fn minus(self, other: Double) -> (d: Double)
        ensures
            d == self.difference(other),
    {
        self.plus(other.negate())
    }

    /// `self * other`.
    pub fn times(self, other: Double) -> (d: Double)
        ensures
            d == self.product(other),
    {
        let negative: bool = (self.bits >= P63) != (other.bits >= P63);
        if self.is_nan() || other.is_nan() {
            return Double { bits: NAN_BITS };
        }
        let zero: bool = self.bits % P63 == 0 || other.bits % P63 == 0;
        if !self.is_finite() || !other.is_finite() {
            if zero {
                return Double { bits: NAN_BITS };
            }
            return assemble(negative, INF_MAGNITUDE);
        }
        let (s1, u1) = self.parts();
        let (s2, u2) = other.parts();
        let ghost num = self.units() * other.units();
        let ghost den = pow2(1074);
        proof {
            lemma_parts(self);
            lemma_parts(other);
            lemma_pow2_pos(1074);
        }
        if zero {
            proof {
                assert(num == 0) by (nonlinear_arith)
                    requires
                        num == self.units() * other.units(),
                        self.units() == 0 || other.units() == 0,
                ;
                lemma_round_zero(den);
            }
            return assemble(negative, 0);
        }
        assert(0 < s1 * s2 < 0x20_0000_0000_0000 * 0x20_0000_0000_0000) by (nonlinear_arith)
            requires
                0 < s1 < 0x20_0000_0000_0000,
                0 < s2 < 0x20_0000_0000_0000,
        ;
        let m: u128 = (s1 as u128) * (s2 as u128);
        proof {
            lemma_power_bound(0, 127);
            let p1 = pow2(u1 as nat);
            let p2 = pow2(u2 as nat);
            lemma_pow2_adds(u1 as nat, u2 as nat);
            assert(num == (s1 * s2) * (p1 * p2)) by (nonlinear_arith)
                requires
                    num == (s1 * p1) * (s2 * p2),
            ;
            assert(num * den == m * ((p1 * p2) * den)) by (nonlinear_arith)
                requires
                    num == m * (p1 * p2),
            ;
            lemma_pow2_pos((u1 + u2) as nat);
            assert((p1 * p2) * den > 0) by (nonlinear_arith)
                requires
                    p1 * p2 > 0,
                    den > 0,
            ;
            lemma_strictly_between(m as nat, (p1 * p2) * den);
        }
        let bits: u64 = pack(
            m,
            (u1 + u2) as i64 - 1074,
            false,
            Ghost(num),
            Ghost(den),
            Ghost((u1 + u2) as nat),
            Ghost(1074),
        );
        assemble(negative, bits)
    }

    /// `self / other`.
    pub fn over(self, other: Double) -> (d: Double)
        ensures
            d == self.quotient(other),
    {
        let negative: bool = (self.bits >= P63) != (other.bits >= P63);
        if self.is_nan() || other.is_nan() {
            return Double { bits: NAN_BITS };
        }
        if !self.is_finite() {
            if !other.is_finite() {
                return Double { bits: NAN_BITS };
            }
            return assemble(negative, INF_MAGNITUDE);
        }
        if !other.is_finite() {
            return assemble(negative, 0);
        }
        if other.bits % P63 == 0 {
            if self.bits % P63 == 0 {
                return Double { bits: NAN_BITS };
            }
            return assemble(negative, INF_MAGNITUDE);
        }
        let (s1, u1) = self.parts();
        let (s2, u2) = other.parts();
        let ghost num = self.units() * pow2(1074);
        let ghost den = other.units();
        proof {
            lemma_parts(self);
            lemma_parts(other);
        }
        if self.bits % P63 == 0 {
            proof {
                assert(num == 0) by (nonlinear_arith)
                    requires
                        num == self.units() * pow2(1074),
                        self.units() == 0,
                ;
                lemma_round_zero(den);
            }
            return assemble(negative, 0);
        }
        // Bring the dividend to 53 digits, so that the quotient has enough of them.
        let mut t: u64 = s1;
        let mut lift: u64 = 0;
        proof {
            lemma_small_powers();
        }
        while t < P52
            invariant
                0 < t < P53,
                lift <= 52,
                t == s1 * pow2(lift as nat),
                t >= pow2(lift as nat),
                s1 > 0,
                pow2(52) == P52,
            decreases P53 - t,
        {
            proof {
                if lift >= 52 {
                    assert(false);
                }
                lemma_pow2_unfold((lift + 1) as nat);
                assert(2 * t == s1 * pow2((lift + 1) as nat)) by (nonlinear_arith)
                    requires
                        t == s1 * pow2(lift as nat),
                        pow2((lift + 1) as nat) == 2 * pow2(lift as nat),
                ;
                lemma_power_monotone((lift + 1) as nat, 52);
            }
            t = 2 * t;
            lift = lift + 1;
        }
        let scaled: u128 = (t as u128) * 0x1_0000_0000_0000_0000;
        let m: u128 = scaled / (s2 as u128);
        let rest: u128 = scaled % (s2 as u128);
        let sticky: bool = rest != 0;
        let ghost up = (u1 + 1074) as nat;
        let ghost down = (u2 + lift + 64) as nat;
        proof {
            vstd::arithmetic::div_mod::lemma_fundamental_div_mod(scaled as int, s2 as int);
            lemma_power_bound(0, 127);
            lemma_quotient_digits(scaled as nat, s2 as nat, m as nat, rest as nat);
            lemma_quotient_scaled(
                s1 as nat,
                u1 as nat,
                s2 as nat,
                u2 as nat,
                t as nat,
                lift as nat,
                m as nat,
                rest as nat,
            );
        }
        let bits: u64 = pack(
            m,
            (u1 + 1074) as i64 - (u2 + lift + 64) as i64,
            sticky,
            Ghost(num),
            Ghost(den),
            Ghost(up),
            Ghost(down),
        );
        assemble(negative, bits)
    }

    /// The number nearest to `n`.
    pub fn from_int(n: i64) -> (d: Double)
        ensures
            d == Double::of_int(n as int),
    {
        let ghost unit = pow2(1074);
        proof {
            lemma_pow2_pos(1074);
            lemma_power_bound(0, 127);
            lemma_small_powers();
        }
        if n == 0 {
            proof {
                assert(0int * unit == 0);
                lemma_round_zero(1);
            }
            return assemble(false, 0);
        }
        let m: u128 = if n < 0 { (-(n as i128)) as u128 } else { n as u128 };
        let ghost num = m * unit;
        proof {
            lemma_strictly_between(m as nat, unit);
            assert(num * pow2(0) == num);
            assert(unit * 1nat == unit);
            assert(n < 0 ==> n * unit == -num && n * unit < 0) by (nonlinear_arith)
                requires
                    num == m * unit,
                    n < 0 ==> m == -n,
                    unit > 0,
            ;
            assert(n > 0 ==> n * unit == num && n * unit > 0) by (nonlinear_arith)
                requires
                    num == m * unit,
                    n > 0 ==> m == n,
                    unit > 0,
            ;
        }
        let bits: u64 = pack(m, 1074, false, Ghost(num as nat), Ghost(1), Ghost(1074), Ghost(0));
        assemble(n < 0, bits)
    }
}

proof fn lemma_strictly_between(m: nat, step: nat)
    requires
        step > 0,
    ensures
        m * step < (m + 1) * step,
{
    assert(m * step < (m + 1) * step) by (nonlinear_arith)
        requires
            step > 0,
    ;
}

proof fn lemma_round_zero(den: nat)
    requires
        den > 0,
    ensures
        round_magnitude(0, den) == 0,
{
    assert(0 < den * P53) by (nonlinear_arith)
        requires
            den > 0,
            P53 > 0,
    ;
    vstd::arithmetic::div_mod::lemma_fundamental_div_mod_converse(0, den as int, 0, 0);
}

proof fn lemma_quotient_digits(scaled: nat, s2: nat, m: nat, rest: nat)
    requires
        0 < s2 < P53,
        P52 * 0x1_0000_0000_0000_0000 <= scaled < P53 * 0x1_0000_0000_0000_0000,
        scaled == s2 * m + rest,
        rest < s2,
    ensures
        2 * P53 <= m < 0x20_0000_0000_0000_0000_0000_0000_0000,
{
    assert(2 * P53 <= m) by (nonlinear_arith)
        requires
            0 < s2 < 0x20_0000_0000_0000,
            0x10_0000_0000_0000 * 0x1_0000_0000_0000_0000 <= scaled,
            scaled == s2 * m + rest,
            rest < s2,
            P53 == 0x20_0000_0000_0000,
    ;
    assert(m <= scaled) by (nonlinear_arith)
        requires
            scaled == s2 * m + rest,
            s2 >= 1,
            rest >= 0,
            m >= 0,
    ;
}

proof fn lemma_quotient_scaled(
    s1: nat,
    u1: nat,
    s2: nat,
    u2: nat,
    t: nat,
    lift: nat,
    m: nat,
    rest: nat,
)
    requires
        t == s1 * pow2(lift),
        t * pow2(64) == s2 * m + rest,
        rest < s2,
    ensures
        ({
            let num = (s1 * pow2(u1)) * pow2(1074);
            let den = s2 * pow2(u2);
            let up = u1 + 1074;
            let down = u2 + lift + 64;
            &&& m * (pow2(up) * den) <= num * pow2(down) < (m + 1) * (pow2(up) * den)
            &&& num * pow2(down) == m * (pow2(up) * den) <==> rest == 0
        }),
{
    let num = (s1 * pow2(u1)) * pow2(1074);
    let den = s2 * pow2(u2);
    let up = u1 + 1074;
    let down = u2 + lift + 64;
    let a = pow2(up);
    let b = pow2(u2);
    lemma_pow2_adds(u1, 1074);
    lemma_pow2_adds(u2, lift);
    lemma_pow2_adds(u2 + lift, 64);
    lemma_pow2_pos(up);
    lemma_pow2_pos(u2);
    let c = a * b;
    assert(c > 0) by (nonlinear_arith)
        requires
            a > 0,
            b > 0,
            c == a * b,
    ;
    assert(num * pow2(down) == (t * pow2(64)) * c) by (nonlinear_arith)
        requires
            num == (s1 * pow2(u1)) * pow2(1074),
            a == pow2(u1) * pow2(1074),
            pow2(down) == (b * pow2(lift)) * pow2(64),
            t == s1 * pow2(lift),
            c == a * b,
    ;
    assert(m * (a * den) == (s2 * m) * c) by (nonlinear_arith)
        requires
            den == s2 * b,
            c == a * b,
    ;
    assert((m + 1) * (a * den) == (s2 * m + s2) * c) by (nonlinear_arith)
        requires
            den == s2 * b,
            c == a * b,
    ;
    let v = t * pow2(64);
    assert((s2 * m) * c <= v * c < (s2 * m + s2) * c) by (nonlinear_arith)
        requires
            s2 * m <= v < s2 * m + s2,
            c > 0,
    ;
    assert(v * c == (s2 * m) * c <==> v == s2 * m) by (nonlinear_arith)
        requires
            c > 0,
    ;
}

/// Finite numbers are ordered as their magnitude bits are.
proof fn lemma_units_order(a: Double, b: Double)
    requires
        a.finite(),
        b.finite(),
    ensures
        a.magnitude() < b.magnitude() ==> a.units() < b.units(),
        b.magnitude() < a.magnitude() ==> b.units() < a.units(),
        a.magnitude() == b.magnitude() ==> a.units() == b.units(),
{
    lemma_units_below(a, b);
    lemma_units_below(b, a);
}

proof fn lemma_units_below(a: Double, b: Double)
    requires
        a.finite(),
        b.finite(),
    ensures
        a.magnitude() < b.magnitude() ==> a.units() < b.units(),
{
    if a.magnitude() < b.magnitude() {
        lemma_parts(a);
        lemma_parts(b);
        let (s1, u1, s2, u2) = (a.significand(), a.scale(), b.significand(), b.scale());
        lemma_pow2_pos(u1);
        if u1 == u2 {
            let p = pow2(u1);
            assert(s1 * p < s2 * p) by (nonlinear_arith)
                requires
                    s1 < s2,
                    p > 0,
            ;
        } else {
            lemma_pow2_unfold(u1 + 1);
            lemma_power_monotone(u1 + 1, u2);
            let p = pow2(u1);
            let q = pow2(u2);
            assert(s1 * p < s2 * q) by (nonlinear_arith)
                requires
                    s1 < 2 * P52,
                    s2 >= P52,
                    q >= 2 * p,
                    p > 0,
            ;
        }
    }
}

/// The order of finite numbers is the order of their values.
pub proof fn lemma_order_of_values(a: Double, b: Double)
    requires
        a.finite(),
        b.finite(),
    ensures
        a.below(b) <==> a.value() < b.value(),
        a.at_most(b) <==> a.value() <= b.value(),
{
    lemma_units_order(a, b);
    lemma_parts(a);
    lemma_parts(b);
}

proof fn lemma_nearest_monotone(a: nat, b: nat, den: nat)
    requires
        den > 0,
        a <= b,
    ensures
        nearest(a, den) <= nearest(b, den),
{
    vstd::arithmetic::div_mod::lemma_fundamental_div_mod(a as int, den as int);
    vstd::arithmetic::div_mod::lemma_fundamental_div_mod(b as int, den as int);
    vstd::arithmetic::div_mod::lemma_div_is_ordered(a as int, b as int, den as int);
    let (qa, qb) = (a / den, b / den);
    if qa == qb {
        assert(a % den <= b % den);
    }
}

proof fn lemma_round_monotone(a: nat, b: nat, den: nat)
    requires
        den > 0,
        a <= b,
    ensures
        round_unbounded(a, den) <= round_unbounded(b, den),
    decreases b - den,
{
    if b < den * P53 {
        lemma_nearest_monotone(a, b, den);
    } else {
        assert(den * P53 >= 2 * den) by (nonlinear_arith);
        if a >= den * P53 {
            lemma_round_monotone(a, b, 2 * den);
        } else {
            let edge = den * P53 as nat;
            lemma_nearest_monotone(a, edge, den);
            lemma_round_monotone(edge, b, 2 * den);
            assert(edge == P53 * den) by (nonlinear_arith)
                requires
                    edge == den * P53,
            ;
            vstd::arithmetic::div_mod::lemma_fundamental_div_mod_converse(
                edge as int,
                den as int,
                P53 as int,
                0,
            );
            assert(edge == P52 * (2 * den)) by (nonlinear_arith)
                requires
                    edge == den * P53,
                    P53 == 2 * P52,
            ;
            vstd::arithmetic::div_mod::lemma_fundamental_div_mod_converse(
                edge as int,
                (2 * den) as int,
                P52 as int,
                0,
            );
            assert(edge < (2 * den) * P53) by (nonlinear_arith)
                requires
                    edge == den * P53,
                    den > 0,
                    P53 > 0,
            ;
        }
    }
}

/// A finite number is its own rounding.
proof fn lemma_exact(d: Double)
    requires
        d.finite(),
    ensures
        round_unbounded(d.units(), 1) == d.magnitude(),
{
    lemma_parts(d);
    lemma_small_powers();
    let k = d.scale();
    let s = d.significand();
    lemma_pow2_pos(k);
    lemma_pow2_adds(53, k);
    let p = pow2(k);
    assert(s * p < pow2(53) * p) by (nonlinear_arith)
        requires
            s < pow2(53),
            p > 0,
    ;
    if k > 0 {
        lemma_pow2_adds(52, k);
        assert(pow2(52) * p <= s * p) by (nonlinear_arith)
            requires
                pow2(52) <= s,
                p > 0,
        ;
    }
    lemma_round_unbounded(d.units(), 1, k);
    assert(1 * pow2(k) == p);
    vstd::arithmetic::div_mod::lemma_fundamental_div_mod_converse(
        d.units() as int,
        p as int,
        s as int,
        0,
    );
    assert(nearest(d.units(), p) == s);
}

/// Adding what is not negative gives no less.
pub proof fn lemma_sum_no_less(a: Double, b: Double)
    requires
        !a.nan(),
        b.finite(),
        b.value() >= 0,
    ensures
        a.at_most(a.sum(b)),
{
    if a.finite() {
        lemma_parts(a);
        lemma_parts(b);
        let total = a.value() + b.value();
        if total != 0 {
            let n = (if total < 0 {
                -total
            } else {
                total
            }) as nat;
            lemma_exact(a);
            if total > 0 && !a.negative() {
                lemma_round_monotone(a.units(), n, 1);
            }
            if total < 0 {
                lemma_round_monotone(n, a.units(), 1);
            }
        }
    }
}

/// What sign and magnitude bits make up.
proof fn lemma_signed(negative: bool, m: nat)
    requires
        m <= INF_MAGNITUDE,
    ensures
        signed(negative, m).negative() == negative,
        signed(negative, m).magnitude() == m,
        !signed(negative, m).nan(),
        signed(negative, m).rank() == with_sign(negative, m as int),
{
}

/// Products of larger factors round to no less.
proof fn lemma_product_magnitude(a: nat, b: nat, c: nat, d: nat, den: nat)
    requires
        den > 0,
        a <= c,
        b <= d,
    ensures
        round_magnitude(a * b, den) <= round_magnitude(c * d, den),
{
    assert(a * b <= c * d) by (nonlinear_arith)
        requires
            a <= c,
            b <= d,
    ;
    lemma_round_monotone(a * b, c * d, den);
}

/// The magnitudes of two numbers that are in order, where they have one sign.
proof fn lemma_units_along(a: Double, b: Double)
    requires
        a.finite(),
        b.finite(),
        a.at_most(b),
    ensures
        !a.negative() && !b.negative() ==> a.units() <= b.units(),
        a.negative() && b.negative() ==> b.units() <= a.units(),
{
    lemma_units_order(a, b);
}

/// Multiplying by what is not negative keeps the order.
pub proof fn lemma_product_climbs(w: Double, a: Double, b: Double)
    requires
        w.finite(),
        w.rank() >= 0,
        a.at_most(b),
        !w.product(a).nan(),
        !w.product(b).nan(),
    ensures
        w.product(a).at_most(w.product(b)),
{
    let unit = pow2(1074);
    lemma_pow2_pos(1074);
    lemma_parts(w);
    lemma_signed(w.negative() != a.negative(), INF_MAGNITUDE as nat);
    lemma_signed(w.negative() != b.negative(), INF_MAGNITUDE as nat);
    if a.finite() {
        lemma_signed(w.negative() != a.negative(), round_magnitude(w.units() * a.units(), unit));
    }
    if b.finite() {
        lemma_signed(w.negative() != b.negative(), round_magnitude(w.units() * b.units(), unit));
    }
    if w.zero() {
        assert(w.units() * a.units() == 0 && w.units() * b.units() == 0) by (nonlinear_arith)
            requires
                w.units() == 0,
        ;
        lemma_round_zero(unit);
    } else if a.finite() && b.finite() {
        lemma_parts(a);
        lemma_parts(b);
        lemma_units_along(a, b);
        if a.negative() == b.negative() {
            if a.negative() {
                lemma_product_magnitude(w.units(), b.units(), w.units(), a.units(), unit);
            } else {
                lemma_product_magnitude(w.units(), a.units(), w.units(), b.units(), unit);
            }
        } else if !a.negative() {
            assert(a.units() == 0 && b.units() == 0);
            assert(w.units() * 0nat == 0);
            lemma_round_zero(unit);
        }
    }
}

/// Dividing by what is positive keeps the order.
pub proof fn lemma_quotient_climbs(a: Double, b: Double, r: Double)
    requires
        r.finite(),
        r.rank() > 0,
        a.at_most(b),
    ensures
        a.quotient(r).at_most(b.quotient(r)),
{
    let unit = pow2(1074);
    let den = r.units();
    lemma_parts(r);
    lemma_signed(a.negative(), INF_MAGNITUDE as nat);
    lemma_signed(b.negative(), INF_MAGNITUDE as nat);
    if a.finite() {
        lemma_signed(a.negative(), round_magnitude(a.units() * unit, den));
    }
    if b.finite() {
        lemma_signed(b.negative(), round_magnitude(b.units() * unit, den));
    }
    if a.finite() && b.finite() {
        lemma_parts(a);
        lemma_parts(b);
        lemma_units_along(a, b);
        if a.negative() == b.negative() {
            if a.negative() {
                lemma_product_magnitude(b.units(), unit, a.units(), unit, den);
            } else {
                lemma_product_magnitude(a.units(), unit, b.units(), unit, den);
            }
        } else if !a.negative() {
            assert(a.units() == 0 && b.units() == 0);
            assert(0nat * unit == 0);
            lemma_round_zero(den);
        }
    }
}

proof fn lemma_units_climb(x: int, y: int)
    requires
        x <= y,
    ensures
        Double::of_units(x).at_most(Double::of_units(y)),
{
    let nx = (if x < 0 {
        -x
    } else {
        x
    }) as nat;
    let ny = (if y < 0 {
        -y
    } else {
        y
    }) as nat;
    lemma_signed(x < 0, round_magnitude(nx, 1));
    lemma_signed(y < 0, round_magnitude(ny, 1));
    if x < 0 && y < 0 {
        lemma_round_monotone(ny, nx, 1);
    } else if x >= 0 {
        lemma_round_monotone(nx, ny, 1);
    }
}

/// Adding keeps the order.
pub proof fn lemma_sum_climbs(a: Double, b: Double, c: Double, d: Double)
    requires
        a.at_most(b),
        c.at_most(d),
        !a.sum(c).nan(),
        !b.sum(d).nan(),
    ensures
        a.sum(c).at_most(b.sum(d)),
{
    lemma_signed(a.negative() && c.negative(), 0);
    lemma_signed(b.negative() && d.negative(), 0);
    lemma_round_zero(1);
    if a.finite() && c.finite() && b.finite() && d.finite() {
        lemma_order_of_values(a, b);
        lemma_order_of_values(c, d);
        let x = a.value() + c.value();
        let y = b.value() + d.value();
        lemma_units_climb(x, y);
        if x == 0 {
            lemma_units_climb(0, y);
        }
        if y == 0 {
            lemma_units_climb(x, 0);
        }
    } else {
        if a.finite() && c.finite() {
            lemma_units_climb(a.value() + c.value(), a.value() + c.value());
        }
        if b.finite() && d.finite() {
            lemma_units_climb(b.value() + d.value(), b.value() + d.value());
        }
    }
}

/// The nearer to zero a negative number is, the less its square times a negative
/// factor falls below zero.
pub proof fn lemma_docked_square_climbs(k: Double, a: Double, b: Double)
    requires
        k.finite(),
        k.rank() < 0,
        a.rank() < 0,
        a.at_most(b),
    ensures
        k.product(a).product(a).rank() <= 0,
        !k.product(a).product(a).nan(),
        b.rank() < 0 ==> k.product(a).product(a).at_most(k.product(b).product(b)),
{
    let unit = pow2(1074);
    lemma_pow2_pos(1074);
    lemma_parts(k);
    let x = k.product(a);
    let y = k.product(b);
    lemma_signed(false, INF_MAGNITUDE as nat);
    lemma_signed(true, INF_MAGNITUDE as nat);
    if a.finite() {
        lemma_parts(a);
        lemma_signed(false, round_magnitude(k.units() * a.units(), unit));
        lemma_signed(true, round_magnitude(x.units() * a.units(), unit));
    }
    if b.rank() < 0 && b.finite() {
        lemma_parts(b);
        lemma_signed(false, round_magnitude(k.units() * b.units(), unit));
        lemma_signed(true, round_magnitude(y.units() * b.units(), unit));
        if a.finite() {
            lemma_units_along(a, b);
            lemma_product_magnitude(k.units(), b.units(), k.units(), a.units(), unit);
            if x.finite() && y.finite() {
                lemma_units_order(x, y);
                lemma_product_magnitude(y.units(), b.units(), x.units(), a.units(), unit);
            }
        }
    }
}

/// What is not a number spreads.
pub proof fn lemma_nan_spreads(a: Double, b: Double)
    requires
        a.nan() || b.nan(),
    ensures
        a.sum(b).nan(),
        a.product(b).nan(),
        a.quotient(b).nan(),
{
}

/// A weighted share of a reference keeps the order.
pub proof fn lemma_share_climbs(w: Double, r: Double, a: Double, b: Double)
    requires
        w.finite(),
        w.rank() >= 0,
        r.finite(),
        r.rank() > 0,
        a.at_most(b),
        !w.product(a).quotient(r).nan(),
        !w.product(b).quotient(r).nan(),
    ensures
        w.product(a).quotient(r).at_most(w.product(b).quotient(r)),
{
    let x = w.product(a);
    let y = w.product(b);
    if x.nan() {
        lemma_nan_spreads(x, r);
    }
    if y.nan() {
        lemma_nan_spreads(y, r);
    }
    lemma_product_climbs(w, a, b);
    lemma_quotient_climbs(x, y, r);
}

/// A sum times what is not negative keeps the order.
pub proof fn lemma_weighted_sum_climbs(w: Double, a: Double, b: Double, c: Double, d: Double)
    requires
        w.finite(),
        w.rank() >= 0,
        !a.nan() && !b.nan() ==> a.at_most(b),
        !c.nan() && !d.nan() ==> c.at_most(d),
        !w.product(a.sum(c)).nan(),
        !w.product(b.sum(d)).nan(),
    ensures
        w.product(a.sum(c)).at_most(w.product(b.sum(d))),
{
    let x = a.sum(c);
    let y = b.sum(d);
    if x.nan() {
        lemma_nan_spreads(w, x);
    }
    if y.nan() {
        lemma_nan_spreads(w, y);
    }
    if a.nan() || c.nan() {
        lemma_nan_spreads(a, c);
    }
    if b.nan() || d.nan() {
        lemma_nan_spreads(b, d);
    }
    lemma_sum_climbs(a, b, c, d);
    lemma_product_climbs(w, x, y);
}

/// Adding one and the same finite number keeps the order.
pub proof fn lemma_offset_climbs(a: Double, b: Double, c: Double)
    requires
        c.finite(),
        a.at_most(b),
    ensures
        a.sum(c).at_most(b.sum(c)),
{
    lemma_sum_is_number(a, c);
    lemma_sum_is_number(b, c);
    lemma_sum_climbs(a, b, c, c);
}

/// Adding a finite number to a number gives a number.
proof fn lemma_sum_is_number(a: Double, c: Double)
    requires
        c.finite(),
        !a.nan(),
    ensures
        !a.sum(c).nan(),
{
    lemma_signed(a.negative() && c.negative(), 0);
    lemma_units_climb(a.value() + c.value(), a.value() + c.value());
}

/// A finite number times zero is zero.
pub proof fn lemma_zero_product(w: Double)
    requires
        w.finite(),
    ensures
        w.product(Double { bits: ZERO_BITS }).zero(),
        !w.product(Double { bits: ZERO_BITS }).nan(),
{
    let zero = Double { bits: ZERO_BITS };
    lemma_pow2_pos(1074);
    lemma_parts(zero);
    assert(w.units() * zero.units() == 0) by (nonlinear_arith)
        requires
            zero.units() == 0,
    ;
    lemma_round_zero(pow2(1074));
    lemma_signed(w.negative() != zero.negative(), 0);
}

/// Rounding depends on the quotient alone.
proof fn lemma_round_scaled(num: nat, den: nat, c: nat)
    requires
        den > 0,
        c > 0,
    ensures
        round_unbounded(num * c, den * c) == round_unbounded(num, den),
    decreases num - den,
{
    assert(den * c > 0) by (nonlinear_arith)
        requires
            den > 0,
            c > 0,
    ;
    assert((num * c < (den * c) * P53) <==> num < den * P53) by (nonlinear_arith)
        requires
            c > 0,
    ;
    if num < den * P53 {
        lemma_nearest_scaled(num, den, c);
    } else {
        assert(den * P53 >= 2 * den) by (nonlinear_arith);
        lemma_round_scaled(num, 2 * den, c);
        assert((2 * den) * c == 2 * (den * c)) by (nonlinear_arith);
    }
}

/// A quotient that is no larger rounds to no more.
proof fn lemma_round_quotients(a: nat, b: nat, c: nat, d: nat)
    requires
        b > 0,
        d > 0,
        a * d <= c * b,
    ensures
        round_unbounded(a, b) <= round_unbounded(c, d),
{
    lemma_round_scaled(a, b, d);
    lemma_round_scaled(c, d, b);
    assert(b * d > 0) by (nonlinear_arith)
        requires
            b > 0,
            d > 0,
    ;
    assert(d * b == b * d) by (nonlinear_arith);
    lemma_round_monotone(a * d, c * b, b * d);
}

/// 2 to the power 31.
const TWO_TO_31_BITS: u64 = 0x41E0_0000_0000_0000;

proof fn lemma_landmarks()
    ensures
        (Double { bits: ONE_BITS }).units() == pow2(1074),
        (Double { bits: TWO_TO_31_BITS }).units() == 0x8000_0000 * pow2(1074),
        (Double { bits: THOUSAND_BITS }).units() >= pow2(1074),
{
    let one = Double { bits: ONE_BITS };
    let big = Double { bits: TWO_TO_31_BITS };
    lemma_small_powers();
    lemma_pow2_adds(52, 1022);
    lemma_pow2_adds(52, 1053);
    lemma_pow2_adds(31, 1074);
    vstd::arithmetic::power2::lemma2_to64();
    assert(one.significand() == P52 && one.scale() == 1022);
    assert(big.significand() == P52 && big.scale() == 1053);
    lemma_units_order(one, Double { bits: THOUSAND_BITS });
}

/// A count of 32 bits is a finite number, and so is its thousandth part; neither is
/// negative where the count is not.
pub proof fn lemma_thousandth(n: i32)
    ensures
        Double::of_int(n as int).quotient(Double { bits: THOUSAND_BITS }).finite(),
        n >= 0 ==> Double::of_int(n as int).quotient(Double { bits: THOUSAND_BITS }).rank() >= 0,
{
    let unit = pow2(1074);
    let x = Double::of_int(n as int);
    let thousand = Double { bits: THOUSAND_BITS };
    let big = Double { bits: TWO_TO_31_BITS };
    let m = (if n < 0 {
        -n
    } else {
        n as int
    }) as nat;
    lemma_pow2_pos(1074);
    lemma_landmarks();
    lemma_exact(big);
    assert(m * unit <= big.units()) by (nonlinear_arith)
        requires
            m <= 0x8000_0000,
            big.units() == 0x8000_0000 * unit,
    ;
    assert(n < 0 ==> n * unit < 0 && -(n * unit) == m * unit) by (nonlinear_arith)
        requires
            n < 0 ==> m == -n,
            unit > 0,
    ;
    assert(n >= 0 ==> n * unit >= 0 && n * unit == m * unit) by (nonlinear_arith)
        requires
            n >= 0 ==> m == n,
            unit > 0,
    ;
    lemma_round_monotone(m * unit, big.units(), 1);
    lemma_signed(n < 0, round_magnitude(m * unit, 1));
    assert(x.finite() && (n >= 0 ==> !x.negative()));
    lemma_exact(x);
    lemma_parts(thousand);
    let den = thousand.units();
    assert((x.units() * unit) * 1 <= x.units() * den) by (nonlinear_arith)
        requires
            unit <= den,
    ;
    lemma_round_quotients(x.units() * unit, den, x.units(), 1);
    lemma_signed(x.negative(), round_magnitude(x.units() * unit, den));
}

/// The order of two summands does not count.
pub proof fn lemma_sum_commutes(a: Double, b: Double)
    ensures
        a.sum(b) == b.sum(a),
{
}

/// The order of two factors does not count.
pub proof fn lemma_product_commutes(a: Double, b: Double)
    ensures
        a.product(b) == b.product(a),
{
    assert(a.units() * b.units() == b.units() * a.units()) by (nonlinear_arith);
}

/// Adding nothing changes nothing; only the sign of a zero may be lost.
pub proof fn lemma_sum_zero(a: Double, z: Double)
    requires
        !a.nan(),
        z.zero(),
    ensures
        a.sum(z).rank() == a.rank(),
        !a.sum(z).nan(),
        !a.zero() ==> a.sum(z) == a,
{
    assert(z.finite());
    lemma_parts(z);
    if a.finite() {
        lemma_parts(a);
        lemma_exact(a);
        lemma_signed(a.negative() && z.negative(), 0);
        lemma_signed(a.negative(), a.magnitude());
    }
}

/// A number less itself is nothing.
pub proof fn lemma_difference_itself(a: Double)
    requires
        a.finite(),
    ensures
        a.difference(a) == (Double { bits: ZERO_BITS }),
{
    lemma_signed(!a.negative(), a.magnitude());
    assert(a.negated().value() == -a.value());
}

/// A number over itself is one.
pub proof fn lemma_quotient_itself(a: Double)
    requires
        a.finite(),
        !a.zero(),
    ensures
        a.quotient(a) == (Double { bits: ONE_BITS }),
{
    let one = Double { bits: ONE_BITS };
    let u = a.units();
    let unit = pow2(1074);
    lemma_parts(a);
    lemma_landmarks();
    lemma_exact(one);
    assert(u * unit == unit * u) by (nonlinear_arith);
    assert(1 * u == u);
    lemma_round_scaled(unit, 1, u);
}

/// A number times one is the number.
pub proof fn lemma_product_one(a: Double)
    requires
        !a.nan(),
    ensures
        a.product(Double { bits: ONE_BITS }) == a,
{
    let one = Double { bits: ONE_BITS };
    let unit = pow2(1074);
    lemma_landmarks();
    lemma_pow2_pos(1074);
    lemma_parts(one);
    if a.finite() {
        lemma_parts(a);
        lemma_exact(a);
        assert(1 * unit == unit);
        lemma_round_scaled(a.units(), 1, unit);
    }
}

/// The constants are what they are called: one, a hundred and a thousand are exact,
/// and no number is nearer to a hundredth and to a millionth than theirs.
pub proof fn lemma_constants()
    ensures
        (Double { bits: ZERO_BITS }).finite() && (Double { bits: ZERO_BITS }).value() == 0,
        (Double { bits: ONE_BITS }).finite() && (Double { bits: ONE_BITS }).value() == pow2(1074),
        (Double { bits: HUNDRED_BITS }).finite(),
        (Double { bits: HUNDRED_BITS }).value() == 100 * pow2(1074),
        (Double { bits: THOUSAND_BITS }).finite(),
        (Double { bits: THOUSAND_BITS }).value() == 1000 * pow2(1074),
        (Double { bits: ONE_PERCENT_BITS }).finite(),
        -50 * pow2(1015) <= 100 * (Double { bits: ONE_PERCENT_BITS }).value() - pow2(1074) <= 50
            * pow2(1015),
        (Double { bits: ONE_MILLIONTH_BITS }).finite(),
        -500_000 * pow2(1002) <= 1_000_000 * (Double { bits: ONE_MILLIONTH_BITS }).value()
            - pow2(1074) <= 500_000 * pow2(1002),
        (Double { bits: NAN_BITS }).nan(),
        (Double { bits: INFINITY_BITS }).infinite() && !(Double { bits: INFINITY_BITS }).negative(),
        (Double { bits: NEG_INFINITY_BITS }).infinite(),
        (Double { bits: NEG_INFINITY_BITS }).negative(),
{
    let hundred = Double { bits: HUNDRED_BITS };
    let thousand = Double { bits: THOUSAND_BITS };
    let percent = Double { bits: ONE_PERCENT_BITS };
    let hair = Double { bits: ONE_MILLIONTH_BITS };
    lemma_landmarks();
    lemma_small_powers();
    vstd::arithmetic::power2::lemma2_to64();
    lemma_pow2_adds(32, 14);
    lemma_pow2_adds(32, 11);
    lemma_pow2_adds(32, 27);
    lemma_pow2_adds(59, 1015);
    lemma_pow2_adds(64, 8);
    lemma_pow2_adds(72, 1002);
    lemma_pow2_adds(46, 1028);
    lemma_pow2_adds(43, 1031);
    lemma_pow2_pos(1015);
    lemma_pow2_pos(1002);
    lemma_parts(Double { bits: ZERO_BITS });
    lemma_scaled_constant(hundred, 0x0019_0000_0000_0000, 1028);
    lemma_scaled_constant(thousand, 0x001F_4000_0000_0000, 1031);
    lemma_scaled_constant(percent, 0x0014_7AE1_47AE_147B, 1015);
    lemma_scaled_constant(hair, 0x0010_C6F7_A0B5_ED8D, 1002);
    let unit = pow2(1074);
    let a = pow2(1028);
    let b = pow2(1031);
    let c = pow2(1015);
    let d = pow2(1002);
    assert(unit == 0x4000_0000_0000 * a);
    assert(unit == 0x800_0000_0000 * b);
    assert(unit == 0x800_0000_0000_0000 * c);
    assert(unit == 0x100_0000_0000_0000_0000 * d);
    let v: int = hundred.value();
    assert(v == 0x0019_0000_0000_0000 * a);
    assert(v == 100 * unit) by (nonlinear_arith)
        requires
            v == 0x0019_0000_0000_0000 * a,
            unit == 0x4000_0000_0000 * a,
    ;
    let w: int = thousand.value();
    assert(w == 0x001F_4000_0000_0000 * b);
    assert(w == 1000 * unit) by (nonlinear_arith)
        requires
            w == 0x001F_4000_0000_0000 * b,
            unit == 0x800_0000_0000 * b,
    ;
    let x: int = percent.value();
    assert(x == 0x0014_7AE1_47AE_147B * c);
    assert(100 * x - unit == 12 * c) by (nonlinear_arith)
        requires
            x == 0x0014_7AE1_47AE_147B * c,
            unit == 0x800_0000_0000_0000 * c,
    ;
    let y: int = hair.value();
    assert(y == 0x0010_C6F7_A0B5_ED8D * d);
    assert(1_000_000 * y - unit == -213_696 * d) by (nonlinear_arith)
        requires
            y == 0x0010_C6F7_A0B5_ED8D * d,
            unit == 0x100_0000_0000_0000_0000 * d,
    ;
}

proof fn lemma_scaled_constant(d: Double, s: nat, k: nat)
    requires
        d.significand() == s,
        d.scale() == k,
        !d.negative(),
    ensures
        d.value() == s * pow2(k),
{
}

/// A finite number times nothing is nothing.
pub proof fn lemma_product_of_nothing(w: Double, z: Double)
    requires
        w.finite(),
        z.zero(),
    ensures
        w.product(z).zero(),
        w.product(z).rank() == 0,
        !w.product(z).nan(),
{
    lemma_pow2_pos(1074);
    lemma_parts(z);
    assert(w.units() * z.units() == 0) by (nonlinear_arith)
        requires
            z.units() == 0,
    ;
    lemma_round_zero(pow2(1074));
    lemma_signed(w.negative() != z.negative(), 0);
}

/// Adding a finite number to a number gives a number.
pub proof fn lemma_finite_sum_is_number(a: Double, c: Double)
    requires
        !a.nan(),
        c.finite(),
    ensures
        !a.sum(c).nan(),
{
    lemma_sum_is_number(a, c);
}

/// Taking more away leaves no more.
pub proof fn lemma_difference_falls(s: Double, x: Double, y: Double)
    requires
        s.finite(),
        x.finite(),
        y.finite(),
        x.at_most(y),
    ensures
        s.difference(y).at_most(s.difference(x)),
{
    lemma_signed(!x.negative(), x.magnitude());
    lemma_signed(!y.negative(), y.magnitude());
    lemma_sum_is_number(s, x.negated());
    lemma_sum_is_number(s, y.negated());
    lemma_sum_climbs(s, s, y.negated(), x.negated());
}

} // verus!
