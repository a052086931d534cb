//! Arithmetic on binary64 values: each operation gives the binary64
//! nearest to the exact result, as IEEE 754 asks in its default rounding
//! mode.

use vstd::prelude::*;
use vstd::arithmetic::power2::{
    lemma2_to64, lemma_pow2_adds, lemma_pow2_pos, lemma_pow2_strictly_increases, lemma_pow2_unfold,
    pow2,
};
use crate::binary64::{
    bit_length, is_finite, is_infinite, is_nan, is_negative, is_zero, lemma_constants,
    lemma_nearest_exact, lemma_round_is, lemma_units_monotonic, magnitude, nearest, negation,
    power_of_two, round_to_nearest, signed_units, units, with_sign, Binary64, HIDDEN_BIT,
    INFINITY_BITS, NAN_BITS, SIGN_BIT,
};
use crate::rounding::{lemma_pow2_increases, round_scaled};

verus! {

/// The exponent of the unit: every finite binary64 is a multiple of
/// 2^-1074.
pub const UNIT_EXPONENT: u64 = 1074;

/// Bits of the product of two binary64 values.
pub open spec fn product_bits(a: u64, b: u64) -> u64 {
    let negative = is_negative(a) != is_negative(b);
    if is_nan(a) || is_nan(b) {
        NAN_BITS
    } else if is_infinite(a) || is_infinite(b) {
        if is_zero(a) || is_zero(b) {
            NAN_BITS
        } else {
            with_sign(negative, INFINITY_BITS)
        }
    } else {
        with_sign(
            negative,
            round_to_nearest(units(magnitude(a)) * units(magnitude(b)), pow2(1074)),
        )
    }
}

/// Bits of the quotient of two binary64 values.
pub open spec fn quotient_bits(a: u64, b: u64) -> u64 {
    let negative = is_negative(a) != is_negative(b);
    if is_nan(a) || is_nan(b) {
        NAN_BITS
    } else if is_infinite(a) {
        if is_infinite(b) {
            NAN_BITS
        } else {
            with_sign(negative, INFINITY_BITS)
        }
    } else if is_infinite(b) {
        with_sign(negative, 0)
    } else if is_zero(b) {
        if is_zero(a) {
            NAN_BITS
        } else {
            with_sign(negative, INFINITY_BITS)
        }
    } else {
        with_sign(
            negative,
            round_to_nearest(units(magnitude(a)) * pow2(1074), units(magnitude(b))),
        )
    }
}

/// Bits of the sum of two binary64 values. A sum that is exactly zero is
/// positive zero, unless both operands are negative zero.
pub open spec fn sum_bits(a: u64, b: u64) -> u64 {
    if is_nan(a) || is_nan(b) {
        NAN_BITS
    } else if is_infinite(a) {
        if is_infinite(b) && is_negative(a) != is_negative(b) {
            NAN_BITS
        } else {
            a
        }
    } else if is_infinite(b) {
        b
    } else {
        let exact = signed_units(a) + signed_units(b);
        if exact == 0 {
            if is_negative(a) && is_negative(b) {
                SIGN_BIT
            } else {
                0
            }
        } else if exact < 0 {
            with_sign(true, round_to_nearest((-exact) as nat, 1))
        } else {
            with_sign(false, round_to_nearest(exact as nat, 1))
        }
    }
}

/// Bits of the difference of two binary64 values: the sum of the first and
/// the negation of the second.
pub open spec fn difference_bits(a: u64, b: u64) -> u64 {
    sum_bits(a, negation(b))
}

/// The significand and exponent of a finite magnitude: its value is
/// `significand * 2^exponent` units.
fn decompose(m: u64) -> (r: (u64, u64))
    requires
        m < INFINITY_BITS,
    ensures
        units(m) == r.0 * pow2(r.1 as nat),
        r.0 < 2 * HIDDEN_BIT,
        r.1 == 0 || r.0 >= HIDDEN_BIT,
        r.1 <= 2045,
        r.1 == (if m / HIDDEN_BIT == 0 {
            0
        } else {
            m / HIDDEN_BIT - 1
        }),
        r.0 == 0 <==> m == 0,
{
    let exponent = m / HIDDEN_BIT;
    let fraction = m % HIDDEN_BIT;
    proof {
        lemma2_to64();
    }
    if exponent == 0 {
        assert(fraction * pow2(0) == fraction) by (nonlinear_arith)
            requires
                pow2(0) == 1,
        ;
        (fraction, 0)
    } else {
        (HIDDEN_BIT + fraction, exponent - 1)
    }
}

/// `x` without its `shift` low bits, and whether any of them was set.
fn shift_right_sticky(x: u128, shift: u64) -> (r: (u128, bool))
    ensures
        r.0 * pow2(shift as nat) <= x < (r.0 + 1) * pow2(shift as nat),
        r.1 <==> r.0 * pow2(shift as nat) != x,
{
    if shift >= 128 {
        proof {
            crate::binary64::lemma_pow2_128();
            lemma_pow2_increases(128, shift as nat);
            assert(0 * pow2(shift as nat) == 0) by (nonlinear_arith);
            assert((0 + 1) * pow2(shift as nat) == pow2(shift as nat)) by (nonlinear_arith);
        }
        (0, x != 0)
    } else {
        let unit = power_of_two(shift as u32);
        proof {
            lemma_pow2_pos(shift as nat);
        }
        let q = x / unit;
        let rem = x % unit;
        proof {
            assert(x == q * unit + rem && q * unit <= x && x < (q + 1) * unit)
                by (nonlinear_arith)
                requires
                    q == x / unit,
                    rem == x % unit,
                    unit > 0,
            ;
        }
        (q, rem != 0)
    }
}

impl Binary64 {
    /// The value with the given bits.
    pub fn from_bits(bits: u64) -> (r: Binary64)
        ensures
            r.bits == bits,
    {
        Binary64 { bits }
    }

    /// The bits of the value.
    pub fn to_bits(self) -> (bits: u64)
        ensures
            bits == self.bits,
    {
        self.bits
    }

    /// Whether the value is a zero, of either sign.
    pub fn is_zero(self) -> (r: bool)
        ensures
            r == is_zero(self.bits),
    {
        self.bits == 0 || self.bits == SIGN_BIT
    }

    /// Whether the value is a not-a-number.
    pub fn is_nan(self) -> (r: bool)
        ensures
            r == is_nan(self.bits),
    {
        Self::magnitude_of(self.bits) > INFINITY_BITS
    }

    /// Whether the value is neither an infinity nor a not-a-number.
    pub fn is_finite(self) -> (r: bool)
        ensures
            r == is_finite(self.bits),
    {
        Self::magnitude_of(self.bits) < INFINITY_BITS
    }

    /// The value with its sign flipped. This holds of every value, the
    /// zeros and the not-a-numbers included.
    pub fn negated(self) -> (r: Binary64)
        ensures
            r.bits == negation(self.bits),
    {
        if self.bits >= SIGN_BIT {
            Binary64 { bits: self.bits - SIGN_BIT }
        } else {
            Binary64 { bits: self.bits + SIGN_BIT }
        }
    }

    fn magnitude_of(bits: u64) -> (m: u64)
        ensures
            m == magnitude(bits),
            m < SIGN_BIT,
    {
        if bits >= SIGN_BIT {
            bits - SIGN_BIT
        } else {
            bits
        }
    }

    fn signed(negative: bool, m: u64) -> (r: Binary64)
        requires
            m < SIGN_BIT,
        ensures
            r.bits == with_sign(negative, m),
    {
        if negative {
            Binary64 { bits: m + SIGN_BIT }
        } else {
            Binary64 { bits: m }
        }
    }

    /// The product, rounded to nearest.
    pub fn times(self, other: Binary64) -> (r: Binary64)
        ensures
            r.bits == product_bits(self.bits, other.bits),
    {
        let a = Self::magnitude_of(self.bits);
        let b = Self::magnitude_of(other.bits);
        let negative = (self.bits >= SIGN_BIT) != (other.bits >= SIGN_BIT);
        if a > INFINITY_BITS || b > INFINITY_BITS {
            return Binary64 { bits: NAN_BITS };
        }
        if a == INFINITY_BITS || b == INFINITY_BITS {
            if a == 0 || b == 0 {
                return Binary64 { bits: NAN_BITS };
            }
            return Self::signed(negative, INFINITY_BITS);
        }
        let (qa, ta) = decompose(a);
        let (qb, tb) = decompose(b);
        let ghost p: nat = units(a) * units(b);
        let ghost d: nat = pow2(1074);
        proof {
            lemma_constants();
            lemma_pow2_pos(1074);
            lemma_pow2_adds(53, 53);
            assert(qa * qb < pow2(53) * pow2(53)) by (nonlinear_arith)
                requires
                    qa < pow2(53),
                    qb < pow2(53),
            ;
            lemma_pow2_strictly_increases(106, 128);
            crate::binary64::lemma_pow2_128();
        }
        let product: u128 = (qa as u128) * (qb as u128);
        let e: u64 = ta + tb + 2;
        proof {
            // 4p = product * 2^e
            lemma_pow2_adds(ta as nat, tb as nat);
            lemma_pow2_adds(2, (ta + tb) as nat);
            lemma2_to64();
            assert(4 * p == product * pow2(e as nat)) by (nonlinear_arith)
                requires
                    p == (qa * pow2(ta as nat)) * (qb * pow2(tb as nat)),
                    product == qa * qb,
                    pow2(e as nat) == 4 * (pow2(ta as nat) * pow2(tb as nat)),
            ;
        }
        let m = if e >= UNIT_EXPONENT {
            proof {
                lemma_pow2_adds((e - 1074) as nat, 1074);
                lemma_pow2_pos(e as nat);
                assert(product * (pow2((e - 1074) as nat) * d) == product * pow2(e as nat))
                    by (nonlinear_arith)
                    requires
                        pow2(e as nat) == pow2((e - 1074) as nat) * d,
                ;
                assert((product + 1) * (pow2((e - 1074) as nat) * d) > product * pow2(
                    e as nat,
                )) by (nonlinear_arith)
                    requires
                        pow2(e as nat) == pow2((e - 1074) as nat) * d,
                        pow2(e as nat) > 0,
                ;
            }
            round_scaled(product, e - UNIT_EXPONENT, false, Ghost(p), Ghost(d))
        } else {
            let shift = UNIT_EXPONENT - e;
            let (sig, sticky) = shift_right_sticky(product, shift);
            proof {
                lemma_pow2_adds(e as nat, shift as nat);
                lemma_pow2_pos(e as nat);
                let unit = pow2(shift as nat);
                let scale = pow2(e as nat);
                assert(sig * (pow2(0) * d) == (sig * unit) * scale) by (nonlinear_arith)
                    requires
                        pow2(0) == 1,
                        d == scale * unit,
                ;
                assert((sig + 1) * (pow2(0) * d) == ((sig + 1) * unit) * scale)
                    by (nonlinear_arith)
                    requires
                        pow2(0) == 1,
                        d == scale * unit,
                ;
                assert((sig * unit) * scale <= product * scale) by (nonlinear_arith)
                    requires
                        sig * unit <= product,
                        scale > 0,
                ;
                assert(product * scale < ((sig + 1) * unit) * scale) by (nonlinear_arith)
                    requires
                        product < (sig + 1) * unit,
                        scale > 0,
                ;
                assert((sig * unit) * scale == product * scale <==> sig * unit == product)
                    by (nonlinear_arith)
                    requires
                        scale > 0,
                ;
            }
            round_scaled(sig, 0, sticky, Ghost(p), Ghost(d))
        };
        proof {
            lemma_round_is(p, d, m);
        }
        Self::signed(negative, m)
    }

    /// The quotient, rounded to nearest. A finite number that is not zero,
    /// divided by zero, gives an infinity; zero by zero is not a number.
    pub fn divided_by(self, other: Binary64) -> (r: Binary64)
        ensures
            r.bits == quotient_bits(self.bits, other.bits),
    {
        let a = Self::magnitude_of(self.bits);
        let b = Self::magnitude_of(other.bits);
        let negative = (self.bits >= SIGN_BIT) != (other.bits >= SIGN_BIT);
        if a > INFINITY_BITS || b > INFINITY_BITS {
            return Binary64 { bits: NAN_BITS };
        }
        if a == INFINITY_BITS {
            if b == INFINITY_BITS {
                return Binary64 { bits: NAN_BITS };
            }
            return Self::signed(negative, INFINITY_BITS);
        }
        if b == INFINITY_BITS {
            return Self::signed(negative, 0);
        }
        if b == 0 {
            if a == 0 {
                return Binary64 { bits: NAN_BITS };
            }
            return Self::signed(negative, INFINITY_BITS);
        }
        let (qa, ta) = decompose(a);
        let (qb, tb) = decompose(b);
        let ghost p: nat = units(a) * pow2(1074);
        let ghost d: nat = units(b);
        proof {
            lemma_constants();
            lemma2_to64();
            lemma_pow2_pos(tb as nat);
            assert(d > 0) by (nonlinear_arith)
                requires
                    d == qb * pow2(tb as nat),
                    qb > 0,
                    pow2(tb as nat) > 0,
            ;
        }
        if qa == 0 {
            proof {
                assert(p == 0) by (nonlinear_arith)
                    requires
                        p == units(a) * pow2(1074),
                        units(a) == 0,
                ;
                assert(units(0) * d == 0) by (nonlinear_arith)
                    requires
                        units(0) == 0,
                ;
                lemma_nearest_exact(p, d, 0);
                lemma_round_is(p, d, 0);
            }
            return Self::signed(negative, 0);
        }
        let la = bit_length(qa as u128);
        let lb = bit_length(qb as u128);
        proof {
            if la > 53 {
                lemma_pow2_increases(53, (la - 1) as nat);
            }
            if lb > 53 {
                lemma_pow2_increases(53, (lb - 1) as nat);
            }
            assert(1 <= la <= 53 && 1 <= lb <= 53);
        }
        // Scale the dividend so that the quotient has 56 or 57 bits.
        let s: u32 = 56 + lb - la;
        let factor = power_of_two(s);
        proof {
            lemma_pow2_pos(s as nat);
            lemma_pow2_adds(la as nat, s as nat);
            lemma_pow2_adds((la - 1) as nat, s as nat);
            lemma_pow2_adds(55, lb as nat);
            lemma_pow2_adds(57, (lb - 1) as nat);
            lemma_pow2_strictly_increases((56 + lb) as nat, 128);
            crate::binary64::lemma_pow2_128();
            assert(qa * factor < pow2(la as nat) * pow2(s as nat)) by (nonlinear_arith)
                requires
                    qa < pow2(la as nat),
                    factor == pow2(s as nat),
                    factor > 0,
            ;
            assert(qa * factor >= pow2((la - 1) as nat) * pow2(s as nat)) by (nonlinear_arith)
                requires
                    qa >= pow2((la - 1) as nat),
                    factor == pow2(s as nat),
            ;
        }
        let scaled: u128 = (qa as u128) * factor;
        let quotient: u128 = scaled / (qb as u128);
        let rem: u128 = scaled % (qb as u128);
        proof {
            assert(scaled == quotient * qb + rem && quotient * qb <= scaled && scaled < (quotient
                + 1) * qb) by (nonlinear_arith)
                requires
                    quotient == scaled / (qb as u128),
                    rem == scaled % (qb as u128),
                    qb > 0,
            ;
            // 2^55 * qb < 2^(55 + lb) <= scaled, so the quotient has 56 bits
            assert(quotient >= pow2(55)) by (nonlinear_arith)
                requires
                    scaled < (quotient + 1) * qb,
                    scaled >= pow2(55) * pow2(lb as nat),
                    qb < pow2(lb as nat),
                    qb > 0,
            ;
            lemma_pow2_strictly_increases(54, 55);
            // 4p = qa * 2^(ta + 1076)
            lemma_pow2_adds(2, 1074);
            lemma_pow2_adds(ta as nat, 1076);
            assert(4 * p == qa * pow2((ta + 1076) as nat)) by (nonlinear_arith)
                requires
                    p == (qa * pow2(ta as nat)) * pow2(1074),
                    pow2((ta + 1076) as nat) == pow2(ta as nat) * (4 * pow2(1074)),
            ;
        }
        let high: u64 = ta + 1076;
        let low: u64 = tb + (s as u64);
        let ghost rest = pow2((high - s) as nat);
        proof {
            // 4p = scaled * rest, and rest = 2^(high - s)
            lemma_pow2_adds(s as nat, (high - s) as nat);
            lemma_pow2_pos((high - s) as nat);
            assert(4 * p == scaled * rest) by (nonlinear_arith)
                requires
                    4 * p == qa * pow2(high as nat),
                    pow2(high as nat) == pow2(s as nat) * rest,
                    scaled == qa * pow2(s as nat),
            ;
        }
        let m = if high >= low {
            let scale = high - low;
            proof {
                // 2^scale * d = qb * rest
                lemma_pow2_adds(scale as nat, tb as nat);
                assert(pow2(scale as nat) * d == qb * rest) by (nonlinear_arith)
                    requires
                        d == qb * pow2(tb as nat),
                        rest == pow2(scale as nat) * pow2(tb as nat),
                ;
                assert(quotient * (qb * rest) <= scaled * rest) by (nonlinear_arith)
                    requires
                        quotient * qb <= scaled,
                        rest > 0,
                ;
                assert(scaled * rest < (quotient + 1) * (qb * rest)) by (nonlinear_arith)
                    requires
                        scaled < (quotient + 1) * qb,
                        rest > 0,
                ;
                assert(quotient * (qb * rest) == scaled * rest <==> rem == 0)
                    by (nonlinear_arith)
                    requires
                        scaled == quotient * qb + rem,
                        rest > 0,
                        rem >= 0,
                ;
            }
            round_scaled(quotient, scale, rem != 0, Ghost(p), Ghost(d))
        } else {
            let shift = low - high;
            let (sig, lost) = shift_right_sticky(quotient, shift);
            proof {
                // d = qb * rest * 2^shift
                let unit = pow2(shift as nat);
                lemma_pow2_pos(shift as nat);
                lemma_pow2_adds((high - s) as nat, shift as nat);
                assert(pow2(0) * d == (qb * rest) * unit) by (nonlinear_arith)
                    requires
                        pow2(0) == 1,
                        d == qb * pow2(tb as nat),
                        pow2(tb as nat) == rest * unit,
                ;
                let cell = qb * rest;
                assert(cell > 0) by (nonlinear_arith)
                    requires
                        cell == qb * rest,
                        qb > 0,
                        rest > 0,
                ;
                assert(scaled * rest == quotient * cell + rem * rest) by (nonlinear_arith)
                    requires
                        scaled == quotient * qb + rem,
                        cell == qb * rest,
                ;
                assert(rem * rest < cell) by (nonlinear_arith)
                    requires
                        rem < qb,
                        cell == qb * rest,
                        rest > 0,
                ;
                assert(rem * rest >= 0 && (rem * rest == 0 <==> rem == 0)) by (nonlinear_arith)
                    requires
                        rem >= 0,
                        rest > 0,
                ;
                assert(sig * (cell * unit) == (sig * unit) * cell) by (nonlinear_arith);
                assert((sig + 1) * (cell * unit) == ((sig + 1) * unit) * cell)
                    by (nonlinear_arith);
                assert((sig * unit) * cell <= quotient * cell) by (nonlinear_arith)
                    requires
                        sig * unit <= quotient,
                        cell > 0,
                ;
                assert((quotient + 1) * cell <= ((sig + 1) * unit) * cell) by (nonlinear_arith)
                    requires
                        quotient + 1 <= (sig + 1) * unit,
                        cell > 0,
                ;
                assert((quotient + 1) * cell == quotient * cell + cell) by (nonlinear_arith);
                assert((sig * unit) * cell == quotient * cell <==> sig * unit == quotient)
                    by (nonlinear_arith)
                    requires
                        cell > 0,
                ;
            }
            round_scaled(sig, 0, lost || rem != 0, Ghost(p), Ghost(d))
        };
        proof {
            lemma_round_is(p, d, m);
        }
        Self::signed(negative, m)
    }

    /// The sum, rounded to nearest.
    pub fn plus(self, other: Binary64) -> (r: Binary64)
        ensures
            r.bits == sum_bits(self.bits, other.bits),
    {
        let a = Self::magnitude_of(self.bits);
        let b = Self::magnitude_of(other.bits);
        let a_negative = self.bits >= SIGN_BIT;
        let b_negative = other.bits >= SIGN_BIT;
        if a > INFINITY_BITS || b > INFINITY_BITS {
            return Binary64 { bits: NAN_BITS };
        }
        if a == INFINITY_BITS {
            if b == INFINITY_BITS && a_negative != b_negative {
                return Binary64 { bits: NAN_BITS };
            }
            return self;
        }
        if b == INFINITY_BITS {
            return other;
        }
        let same_sign = a_negative == b_negative;
        let ghost exact = signed_units(self.bits) + signed_units(other.bits);
        proof {
            lemma_constants();
            lemma2_to64();
            if a <= b {
                lemma_units_monotonic(a, b);
            }
            if b <= a {
                lemma_units_monotonic(b, a);
            }
            lemma_units_monotonic(0, a);
            lemma_units_monotonic(0, b);
            assert(units(0) == 0);
        }
        if (a == 0 && b == 0) || (!same_sign && a == b) {
            // The sum is exactly zero.
            return if a_negative && b_negative {
                Binary64 { bits: SIGN_BIT }
            } else {
                Binary64 { bits: 0 }
            };
        }
        let (big, small, negative) = if a >= b {
            (a, b, a_negative)
        } else {
            (b, a, b_negative)
        };
        let (qb, tb) = decompose(big);
        let (qs, ts) = decompose(small);
        let ghost ub = units(big);
        let ghost us = units(small);
        let ghost p: nat = if same_sign {
            ub + us
        } else {
            (ub - us) as nat
        };
        let ghost wb = pow2(tb as nat);
        let ghost ws = pow2(ts as nat);
        proof {
            assert(big / HIDDEN_BIT >= small / HIDDEN_BIT);
            assert(tb >= ts);
            assert(ub >= us);
            assert(p == if exact < 0 {
                -exact
            } else {
                exact
            });
            assert(exact != 0);
            assert(exact < 0 <==> negative);
            lemma_pow2_pos(tb as nat);
            lemma_pow2_pos(ts as nat);
        }
        let delta: u64 = tb - ts;
        let m = if qs == 0 {
            proof {
                lemma_pow2_adds(2, tb as nat);
                assert(us == 0) by (nonlinear_arith)
                    requires
                        us == qs * ws,
                        qs == 0,
                ;
                assert(qb * (pow2((tb + 2) as nat) * 1) == 4 * p) by (nonlinear_arith)
                    requires
                        p == qb * wb,
                        pow2((tb + 2) as nat) == 4 * wb,
                ;
                assert((qb + 1) * (pow2((tb + 2) as nat) * 1) > 4 * p) by (nonlinear_arith)
                    requires
                        p == qb * wb,
                        pow2((tb + 2) as nat) == 4 * wb,
                        wb > 0,
                ;
            }
            round_scaled(qb as u128, tb + 2, false, Ghost(p), Ghost(1))
        } else if delta <= 60 {
            // Line the two up exactly.
            let factor = power_of_two(delta as u32);
            proof {
                lemma_pow2_adds(delta as nat, ts as nat);
                lemma_pow2_adds(53, delta as nat);
                lemma_pow2_increases((53 + delta) as nat, 113);
                lemma_pow2_strictly_increases(113, 128);
                crate::binary64::lemma_pow2_128();
                lemma_pow2_pos(delta as nat);
                assert(qb * factor < pow2(53) * factor) by (nonlinear_arith)
                    requires
                        qb < pow2(53),
                        factor > 0,
                ;
                // the larger operand is `qb * factor * ws` units
                assert(ub == (qb * factor) * ws) by (nonlinear_arith)
                    requires
                        ub == qb * wb,
                        wb == factor * ws,
                ;
                assert(qb * factor >= qs) by (nonlinear_arith)
                    requires
                        (qb * factor) * ws >= qs * ws,
                        ws > 0,
                ;
            }
            let high: u128 = (qb as u128) * factor;
            let sig: u128 = if same_sign {
                high + (qs as u128)
            } else {
                high - (qs as u128)
            };
            proof {
                lemma_pow2_adds(2, ts as nat);
                assert(sig * (pow2((ts + 2) as nat) * 1) == 4 * p) by (nonlinear_arith)
                    requires
                        ub == high * ws,
                        us == qs * ws,
                        same_sign ==> p == ub + us && sig == high + qs,
                        !same_sign ==> p == ub - us && sig == high - qs,
                        pow2((ts + 2) as nat) == 4 * ws,
                ;
                assert((sig + 1) * (pow2((ts + 2) as nat) * 1) > sig * (pow2((ts + 2) as nat)
                    * 1)) by (nonlinear_arith)
                    requires
                        pow2((ts + 2) as nat) == 4 * ws,
                        ws > 0,
                ;
            }
            round_scaled(sig, ts + 2, false, Ghost(p), Ghost(1))
        } else {
            // The smaller operand lies below a quarter of the last place of
            // the larger: it only decides on which side the sum falls.
            let sig: u128 = if same_sign {
                8 * (qb as u128)
            } else {
                8 * (qb as u128) - 1
            };
            let ghost w = pow2((tb - 1) as nat);
            proof {
                lemma_pow2_unfold(tb as nat);
                lemma_pow2_pos((tb - 1) as nat);
                lemma_pow2_adds(55, ts as nat);
                lemma_pow2_increases((55 + ts) as nat, (tb - 1) as nat);
                lemma_pow2_adds(2, 53);
                lemma_pow2_strictly_increases(54, 55);
                assert(4 * us < pow2(55) * ws) by (nonlinear_arith)
                    requires
                        us == qs * ws,
                        qs < pow2(53),
                        pow2(55) == 4 * pow2(53),
                        ws > 0,
                ;
                assert(us > 0) by (nonlinear_arith)
                    requires
                        us == qs * ws,
                        qs > 0,
                        ws > 0,
                ;
                assert((8 * qb) * (w * 1) == 4 * ub) by (nonlinear_arith)
                    requires
                        ub == qb * wb,
                        wb == 2 * w,
                ;
                assert((8 * qb - 1) * (w * 1) == 4 * ub - w) by (nonlinear_arith)
                    requires
                        ub == qb * wb,
                        wb == 2 * w,
                ;
                assert((8 * qb + 1) * (w * 1) == 4 * ub + w) by (nonlinear_arith)
                    requires
                        ub == qb * wb,
                        wb == 2 * w,
                ;
                assert(sig + 1 == if same_sign {
                    8 * qb + 1
                } else {
                    8 * qb
                });
            }
            round_scaled(sig, tb - 1, true, Ghost(p), Ghost(1))
        };
        proof {
            lemma_round_is(p, 1, m);
        }
        Self::signed(negative, m)
    }

    /// The difference, rounded to nearest.
    pub fn minus(self, other: Binary64) -> (r: Binary64)
        ensures
            r.bits == difference_bits(self.bits, other.bits),
    {
        self.plus(other.negated())
    }
}

} // verus!
