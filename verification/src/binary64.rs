//! IEEE 754 binary64 values, as bit patterns, and what it means to round a
//! rational number to the nearest of them.
//!
//! Every finite binary64 is a whole multiple of 2^-1074, the smallest
//! positive one. Magnitudes are measured here in that unit, so that every
//! finite value is a natural number and rounding is stated over integers.

use vstd::prelude::*;
use vstd::arithmetic::power2::{
    lemma2_to64, lemma_pow2_adds, lemma_pow2_pos, lemma_pow2_strictly_increases, lemma_pow2_unfold,
    pow2,
};

verus! {

/// The sign bit.
pub const SIGN_BIT: u64 = 0x8000_0000_0000_0000;

/// Bits of positive infinity; also the least magnitude that is not finite.
pub const INFINITY_BITS: u64 = 0x7FF0_0000_0000_0000;

/// Bits of the quiet not-a-number that arithmetic here produces.
pub const NAN_BITS: u64 = 0x7FF8_0000_0000_0000;

/// Two to the power 52: the weight of the exponent field, and the implicit
/// leading bit of a normal significand.
pub const HIDDEN_BIT: u64 = 0x0010_0000_0000_0000;

/// A binary64 value, held as its 64 bits.
///
/// Two values are equal where their bits are: a not-a-number equals
/// itself, and the two zeros differ. `is_zero` and `is_nan` tell what a
/// value is whatever its sign.
#[derive(Debug, Clone, Copy, PartialEq, Eq, Structural)]
pub struct Binary64 {
    /// Sign, eleven bits of exponent, fifty-two bits of fraction.
    pub bits: u64,
}

/// The bits without the sign.
pub open spec fn magnitude(bits: u64) -> u64 {
    if bits >= SIGN_BIT {
        (bits - SIGN_BIT) as u64
    } else {
        bits
    }
}

/// Whether the sign bit is set.
pub open spec fn is_negative(bits: u64) -> bool {
    bits >= SIGN_BIT
}

/// Whether the bits are those of a not-a-number.
pub open spec fn is_nan(bits: u64) -> bool {
    magnitude(bits) > INFINITY_BITS
}

/// Whether the bits are those of an infinity.
pub open spec fn is_infinite(bits: u64) -> bool {
    magnitude(bits) == INFINITY_BITS
}

/// Whether the bits are those of a finite number.
pub open spec fn is_finite(bits: u64) -> bool {
    magnitude(bits) < INFINITY_BITS
}

/// Whether the bits are those of a zero, of either sign.
pub open spec fn is_zero(bits: u64) -> bool {
    magnitude(bits) == 0
}

/// The bits with the sign flipped.
pub open spec fn negation(bits: u64) -> u64 {
    if bits >= SIGN_BIT {
        (bits - SIGN_BIT) as u64
    } else {
        (bits + SIGN_BIT) as u64
    }
}

/// The magnitude `m` with the given sign.
pub open spec fn with_sign(negative: bool, m: u64) -> u64 {
    if negative {
        (m + SIGN_BIT) as u64
    } else {
        m
    }
}

/// The value of the finite magnitude `m` in units of 2^-1074. The formula
/// gives 2^2098 (that is 2^1024) at `INFINITY_BITS`: the value that the
/// format would hold there if its range went on, which is what rounding at
/// the top of the range is measured against.
pub open spec fn units(m: u64) -> nat {
    let exponent = m / HIDDEN_BIT;
    let fraction = m % HIDDEN_BIT;
    if exponent == 0 {
        fraction as nat
    } else {
        ((HIDDEN_BIT + fraction) * pow2((exponent - 1) as nat)) as nat
    }
}

/// The value of finite `bits` in units of 2^-1074, with its sign.
pub open spec fn signed_units(bits: u64) -> int {
    if is_negative(bits) {
        -(units(magnitude(bits)) as int)
    } else {
        units(magnitude(bits)) as int
    }
}

/// Whether the magnitude `m` is the binary64 nearest to `p / d` units of
/// 2^-1074, ties going to the even significand, and infinity being the
/// result from the midpoint between the largest finite value and 2^1024
/// upward.
///
/// Magnitudes are ordered as their values are, so the neighbours of `m`
/// are `m - 1` and `m + 1`: `p / d` must lie between the two midpoints,
/// and may lie on one only where `m` is even.
pub open spec fn nearest(p: nat, d: nat, m: u64) -> bool {
    &&& m <= INFINITY_BITS
    &&& (m > 0 ==> if m % 2 == 0 {
        (units((m - 1) as u64) + units(m)) * d <= 2 * p
    } else {
        (units((m - 1) as u64) + units(m)) * d < 2 * p
    })
    &&& (m < INFINITY_BITS ==> if m % 2 == 0 {
        2 * p <= (units(m) + units((m + 1) as u64)) * d
    } else {
        2 * p < (units(m) + units((m + 1) as u64)) * d
    })
}

/// The magnitude nearest to `p / d` units of 2^-1074. There is exactly one
/// for every `p` and every positive `d` (`lemma_nearest_unique`, and the
/// functions of this crate that compute it).
pub open spec fn round_to_nearest(p: nat, d: nat) -> u64 {
    choose|m: u64| nearest(p, d, m)
}

/// Two to the powers 52 and 53, and the bits of infinity, as numbers.
pub proof fn lemma_constants()
    ensures
        pow2(52) == 0x0010_0000_0000_0000,
        pow2(53) == 0x0020_0000_0000_0000,
        pow2(54) == 0x0040_0000_0000_0000,
        HIDDEN_BIT == pow2(52),
        INFINITY_BITS == 2047 * HIDDEN_BIT,
        SIGN_BIT == pow2(63),
{
    lemma2_to64();
    lemma_pow2_adds(32, 20);
    lemma_pow2_adds(32, 21);
    lemma_pow2_adds(32, 22);
    lemma_pow2_adds(32, 31);
}

/// The units of a magnitude made of an exponent `t` and a significand `q`:
/// `q * 2^t`, for a subnormal (`t` zero), for a normal significand, and
/// for a significand that has just been rounded up to 2^53.
pub proof fn lemma_units_scaled(t: nat, q: nat)
    requires
        q <= 2 * HIDDEN_BIT,
        t == 0 || q >= HIDDEN_BIT,
        t * HIDDEN_BIT + q <= INFINITY_BITS,
    ensures
        units((t * HIDDEN_BIT + q) as u64) == q * pow2(t),
{
    lemma_constants();
    lemma2_to64();
    let m = (t * HIDDEN_BIT + q) as u64;
    if q < HIDDEN_BIT {
        assert(m / HIDDEN_BIT == 0);
        assert(m % HIDDEN_BIT == q);
        assert(q * pow2(0) == q) by (nonlinear_arith)
            requires
                pow2(0) == 1,
        ;
    } else if q < 2 * HIDDEN_BIT {
        let f = (q - HIDDEN_BIT) as nat;
        assert(m == (t + 1) * HIDDEN_BIT + f);
        assert(m / HIDDEN_BIT == t + 1);
        assert(m % HIDDEN_BIT == f);
    } else {
        assert(m == (t + 2) * HIDDEN_BIT);
        assert(m / HIDDEN_BIT == t + 2);
        assert(m % HIDDEN_BIT == 0);
        lemma_pow2_unfold(t + 1);
        assert(HIDDEN_BIT * pow2(t + 1) == q * pow2(t)) by (nonlinear_arith)
            requires
                pow2(t + 1) == 2 * pow2(t),
                q == 2 * HIDDEN_BIT,
        ;
    }
}

/// The values of magnitudes grow with the magnitudes, step by step.
pub proof fn lemma_units_step(m: u64)
    requires
        m < INFINITY_BITS,
    ensures
        units(m) < units((m + 1) as u64),
{
    lemma_constants();
    let e = (m / HIDDEN_BIT) as nat;
    let f = (m % HIDDEN_BIT) as nat;
    let next = (m + 1) as u64;
    if f + 1 < HIDDEN_BIT {
        assert(next / HIDDEN_BIT == e);
        assert(next % HIDDEN_BIT == f + 1);
        if e > 0 {
            lemma_pow2_pos((e - 1) as nat);
            assert((HIDDEN_BIT + f) * pow2((e - 1) as nat) < (HIDDEN_BIT + f + 1) * pow2(
                (e - 1) as nat,
            )) by (nonlinear_arith)
                requires
                    pow2((e - 1) as nat) > 0,
            ;
        }
    } else {
        assert(next / HIDDEN_BIT == e + 1);
        assert(next % HIDDEN_BIT == 0);
        if e == 0 {
            lemma2_to64();
            assert(HIDDEN_BIT * pow2(0) == HIDDEN_BIT) by (nonlinear_arith)
                requires
                    pow2(0) == 1,
            ;
        } else {
            lemma_pow2_unfold(e);
            lemma_pow2_pos((e - 1) as nat);
            assert((HIDDEN_BIT + f) * pow2((e - 1) as nat) < HIDDEN_BIT * pow2(e))
                by (nonlinear_arith)
                requires
                    pow2(e) == 2 * pow2((e - 1) as nat),
                    pow2((e - 1) as nat) > 0,
                    f < HIDDEN_BIT,
            ;
        }
    }
}

/// The values of magnitudes are ordered as the magnitudes are.
pub proof fn lemma_units_monotonic(a: u64, b: u64)
    requires
        a <= b <= INFINITY_BITS,
    ensures
        units(a) <= units(b),
        a < b ==> units(a) < units(b),
    decreases b - a,
{
    if a < b {
        lemma_units_monotonic(a, (b - 1) as u64);
        lemma_units_step((b - 1) as u64);
    }
}

/// At most one magnitude is nearest to a given rational.
pub proof fn lemma_nearest_unique(p: nat, d: nat, m1: u64, m2: u64)
    requires
        d > 0,
        nearest(p, d, m1),
        nearest(p, d, m2),
    ensures
        m1 == m2,
{
    if m1 <= m2 {
        lemma_nearest_ordered(p, d, m1, m2);
    } else {
        lemma_nearest_ordered(p, d, m2, m1);
    }
}

proof fn lemma_nearest_ordered(p: nat, d: nat, m1: u64, m2: u64)
    requires
        d > 0,
        nearest(p, d, m1),
        nearest(p, d, m2),
        m1 <= m2,
    ensures
        m1 == m2,
{
    if m1 < m2 {
        let a0 = units(m1);
        let a1 = units((m1 + 1) as u64);
        let b0 = units((m2 - 1) as u64);
        let b1 = units(m2);
        lemma_units_monotonic(m1, (m2 - 1) as u64);
        lemma_units_monotonic((m1 + 1) as u64, m2);
        assert((a0 + a1) * d <= (b0 + b1) * d) by (nonlinear_arith)
            requires
                a0 <= b0,
                a1 <= b1,
                d > 0,
        ;
        // 2p <= (a0 + a1) d <= (b0 + b1) d <= 2p, so all are equal
        assert((a0 + a1) * d == (b0 + b1) * d);
        assert(a0 + a1 == b0 + b1) by (nonlinear_arith)
            requires
                (a0 + a1) * d == (b0 + b1) * d,
                d > 0,
        ;
        // so the two are neighbours and the rational is their midpoint,
        // which only an even magnitude may claim
        assert(m1 + 1 == m2);
    }
}

/// The rational that is exactly the value of a magnitude rounds to it.
pub proof fn lemma_nearest_exact(p: nat, d: nat, m: u64)
    requires
        d > 0,
        m <= INFINITY_BITS,
        p == units(m) * d,
    ensures
        nearest(p, d, m),
{
    let v = units(m);
    if m > 0 {
        let below = units((m - 1) as u64);
        lemma_units_step((m - 1) as u64);
        assert((below + v) * d < 2 * (v * d)) by (nonlinear_arith)
            requires
                below < v,
                d > 0,
        ;
    }
    if m < INFINITY_BITS {
        let above = units((m + 1) as u64);
        lemma_units_step(m);
        assert(2 * (v * d) < (v + above) * d) by (nonlinear_arith)
            requires
                v < above,
                d > 0,
        ;
    }
}

/// A rational at or beyond 2^1024 rounds to infinity.
pub proof fn lemma_nearest_overflow(p: nat, d: nat)
    requires
        d > 0,
        p >= units(INFINITY_BITS) * d,
    ensures
        nearest(p, d, INFINITY_BITS),
{
    let top = units(INFINITY_BITS);
    let below = units((INFINITY_BITS - 1) as u64);
    lemma_units_step((INFINITY_BITS - 1) as u64);
    assert((below + top) * d <= 2 * (top * d)) by (nonlinear_arith)
        requires
            below < top,
            d > 0,
    ;
}

/// What the computed magnitude is, once it is known to be nearest.
pub proof fn lemma_round_is(p: nat, d: nat, m: u64)
    requires
        d > 0,
        nearest(p, d, m),
    ensures
        round_to_nearest(p, d) == m,
{
    lemma_nearest_unique(p, d, m, round_to_nearest(p, d));
}

/// Two to the power 128, one more than the largest `u128`.
pub proof fn lemma_pow2_128()
    ensures
        pow2(128) == 0x1_0000_0000_0000_0000_0000_0000_0000_0000,
        pow2(127) == 0x8000_0000_0000_0000_0000_0000_0000_0000,
{
    lemma2_to64();
    lemma_pow2_adds(64, 64);
    lemma_pow2_unfold(128);
}

/// Two to the power `k`.
pub fn power_of_two(k: u32) -> (r: u128)
    requires
        k < 128,
    ensures
        r == pow2(k as nat),
{
    let mut r: u128 = 1;
    let mut i: u32 = 0;
    proof {
        lemma2_to64();
    }
    while i < k
        invariant
            i <= k < 128,
            r == pow2(i as nat),
        decreases k - i,
    {
        proof {
            lemma_pow2_unfold((i + 1) as nat);
            lemma_pow2_128();
            if i + 1 < 127 {
                lemma_pow2_strictly_increases((i + 1) as nat, 127);
            }
        }
        r = r * 2;
        i = i + 1;
    }
    r
}

/// The number of bits of `x`: the least `n` with `x < 2^n`.
pub fn bit_length(x: u128) -> (n: u32)
    ensures
        n <= 128,
        x < pow2(n as nat),
        n > 0 ==> pow2((n - 1) as nat) <= x,
{
    let mut rest: u128 = x;
    let mut n: u32 = 0;
    proof {
        lemma2_to64();
        assert(rest * pow2(0) == x) by (nonlinear_arith)
            requires
                rest == x,
                pow2(0) == 1,
        ;
        assert((rest + 1) * pow2(0) == x + 1) by (nonlinear_arith)
            requires
                rest == x,
                pow2(0) == 1,
        ;
    }
    while rest > 0
        invariant
            n <= 128,
            rest * pow2(n as nat) <= x < (rest + 1) * pow2(n as nat),
            n > 0 ==> pow2((n - 1) as nat) <= x,
            n == 128 ==> rest == 0,
        decreases rest,
    {
        let ghost w = pow2(n as nat);
        let ghost old_rest = rest;
        proof {
            lemma_pow2_unfold((n + 1) as nat);
            lemma_pow2_pos(n as nat);
            lemma_pow2_128();
            if n < 127 {
                lemma_pow2_strictly_increases(n as nat, 127);
            }
            assert(w <= rest * w) by (nonlinear_arith)
                requires
                    rest >= 1,
                    w > 0,
            ;
        }
        rest = rest / 2;
        proof {
            assert(rest * (2 * w) <= old_rest * w) by (nonlinear_arith)
                requires
                    2 * rest <= old_rest,
                    w > 0,
            ;
            assert((old_rest + 1) * w <= (rest + 1) * (2 * w)) by (nonlinear_arith)
                requires
                    old_rest + 1 <= 2 * rest + 2,
                    w > 0,
            ;
            if n + 1 == 128 {
                assert(rest * pow2(128) <= x);
                assert(rest == 0) by (nonlinear_arith)
                    requires
                        rest * pow2(128) <= x,
                        x < pow2(128),
                        rest >= 0,
                ;
            }
        }
        n = n + 1;
    }
    proof {
        assert((rest + 1) * pow2(n as nat) == pow2(n as nat)) by (nonlinear_arith)
            requires
                rest == 0,
        ;
    }
    n
}

} // verus!
