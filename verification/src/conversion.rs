//! From a decimal literal to the nearest binary64.
//!
//! The literal is held exactly as a pair of big natural numbers, numerator
//! and power of ten, and divided exactly: the quotient's leading bits and a
//! flag for the remainder are all that rounding needs.

use vstd::prelude::*;
use vstd::arithmetic::power2::{lemma2_to64, lemma_pow2_adds, lemma_pow2_pos, pow2};
use crate::bignat::BigNat;
use crate::binary64::{
    lemma_constants, lemma_nearest_overflow, lemma_round_is, lemma_units_scaled, round_to_nearest,
    units, HIDDEN_BIT, INFINITY_BITS,
};
use crate::laws::lemma_denominator_positive;
use crate::literal::{all_digit_values, digits_value, pow10, Numeral};
use crate::rounding::{lemma_pow2_increases, round_scaled};

verus! {

/// Bits of the binary64 nearest to the number that a numeral denotes. A
/// numeral beyond the range gives infinity.
pub open spec fn numeral_bits(n: Numeral) -> u64 {
    round_to_nearest(n.numerator() * pow2(1074), n.denominator())
}

/// No divisor is scaled up beyond this exponent: a quotient that is still
/// too large there lies far beyond the range.
const SCALE_LIMIT: u64 = 2200;

/// Two to the power 57: the quotient is kept below it.
const QUOTIENT_BOUND: u64 = 0x0200_0000_0000_0000;

/// The number that the digits write.
fn from_digits(digits: &Vec<u8>) -> (r: BigNat)
    requires
        all_digit_values(digits@),
    ensures
        r@ == digits_value(digits@),
{
    let mut r = BigNat::zero();
    let mut i: usize = 0;
    assert(digits@.subrange(0, 0) =~= Seq::<u8>::empty());
    while i < digits.len()
        invariant
            i <= digits.len(),
            r@ == digits_value(digits@.subrange(0, i as int)),
        decreases digits.len() - i,
    {
        proof {
            let longer = digits@.subrange(0, i + 1);
            assert(longer.drop_last() =~= digits@.subrange(0, i as int));
            assert(longer.last() == digits@[i as int]);
        }
        r = r.scaled_plus(10, digits[i] as u64);
        i = i + 1;
    }
    assert(digits@.subrange(0, i as int) =~= digits@);
    r
}

/// Ten to the power `n`.
fn power_of_ten(n: usize) -> (r: BigNat)
    ensures
        r@ == pow10(n as nat),
{
    let mut r = BigNat::zero().scaled_plus(0, 1);
    let mut i: usize = 0;
    proof {
        assert(0 * 0 + 1 == 1) by (nonlinear_arith);
    }
    while i < n
        invariant
            i <= n,
            r@ == pow10(i as nat),
        decreases n - i,
    {
        r = r.scaled_plus(10, 0);
        i = i + 1;
    }
    r
}

/// `x` times two to the power 1076.
fn times_pow2_1076(x: &BigNat) -> (r: BigNat)
    ensures
        r@ == x@ * pow2(1076),
{
    let mut r = x.scaled_plus(0x10_0000, 0);
    let mut i: u64 = 0;
    proof {
        lemma2_to64();
    }
    while i < 33
        invariant
            i <= 33,
            r@ == x@ * pow2((20 + 32 * i) as nat),
        decreases 33 - i,
    {
        proof {
            lemma2_to64();
            lemma_pow2_adds((20 + 32 * i) as nat, 32);
            assert((x@ * pow2((20 + 32 * i) as nat)) * 0x1_0000_0000 == x@ * (pow2(
                (20 + 32 * i) as nat,
            ) * 0x1_0000_0000)) by (nonlinear_arith);
        }
        r = r.scaled_plus(0x1_0000_0000, 0);
        i = i + 1;
    }
    r
}

/// The bits of the binary64 magnitude nearest to the number that `digits`
/// write, `scale` of them standing after the decimal point.
#[verifier::loop_isolation(false)]
pub(crate) fn nearest_bits(digits: &Vec<u8>, scale: usize) -> (m: u64)
    requires
        all_digit_values(digits@),
    ensures
        m == round_to_nearest(digits_value(digits@) * pow2(1074), pow10(scale as nat)),
{
    let ghost n = digits_value(digits@);
    let ghost p: nat = n * pow2(1074);
    let ghost d: nat = pow10(scale as nat);
    proof {
        lemma_denominator_positive(scale as nat);
        lemma_constants();
        lemma2_to64();
    }
    let numerator = from_digits(digits);
    // In quarters of the unit, the number is `dividend / divisor`.
    let dividend = times_pow2_1076(&numerator);
    let mut divisor = power_of_ten(scale);
    let mut exponent: u64 = 0;
    proof {
        lemma_pow2_adds(2, 1074);
        assert(dividend@ == 4 * p) by (nonlinear_arith)
            requires
                dividend@ == n * pow2(1076),
                p == n * pow2(1074),
                pow2(1076) == 4 * pow2(1074),
        ;
        assert(d * pow2(0) == d) by (nonlinear_arith)
            requires
                pow2(0) == 1,
        ;
        lemma_pow2_adds(32, 25);
        lemma_pow2_adds(32, 24);
    }
    // Scale the divisor up until the quotient has at most 57 bits: first by
    // whole limbs, then bit by bit.
    let mut coarse = true;
    while coarse
        invariant
            divisor@ == d * pow2(exponent as nat),
            exponent <= SCALE_LIMIT,
            exponent > 0 ==> divisor@ * pow2(56) <= dividend@,
        decreases
                SCALE_LIMIT - exponent + if coarse {
                    1int
                } else {
                    0int
                },
    {
        if exponent + 32 > SCALE_LIMIT {
            coarse = false;
        } else {
            let wider = divisor.scaled_plus(0x1_0000_0000, 0);
            let bound = wider.scaled_plus(QUOTIENT_BOUND, 0);
            if bound.at_most(&dividend) {
                proof {
                    lemma_pow2_adds(exponent as nat, 32);
                    assert(wider@ == d * pow2((exponent + 32) as nat)) by (nonlinear_arith)
                        requires
                            wider@ == (d * pow2(exponent as nat)) * 0x1_0000_0000 + 0,
                            pow2((exponent + 32) as nat) == pow2(exponent as nat)
                                * 0x1_0000_0000,
                    ;
                    assert(wider@ * pow2(56) <= wider@ * QUOTIENT_BOUND) by (nonlinear_arith)
                        requires
                            pow2(56) <= QUOTIENT_BOUND,
                    ;
                }
                divisor = wider;
                exponent = exponent + 32;
            } else {
                coarse = false;
            }
        }
    }
    let first_bound = divisor.scaled_plus(QUOTIENT_BOUND, 0);
    let mut fits = !first_bound.at_most(&dividend);
    while !fits
        invariant
            divisor@ == d * pow2(exponent as nat),
            exponent <= SCALE_LIMIT,
            exponent > 0 ==> divisor@ * pow2(56) <= dividend@,
            fits ==> dividend@ < divisor@ * QUOTIENT_BOUND,
            !fits ==> divisor@ * QUOTIENT_BOUND <= dividend@,
        decreases
                SCALE_LIMIT - exponent + if fits {
                    0int
                } else {
                    1int
                },
    {
        if exponent >= SCALE_LIMIT {
            // Still 57 bits short at the limit: far beyond the range.
            proof {
                lemma_units_scaled(2046, HIDDEN_BIT as nat);
                lemma_pow2_adds(2, 55);
                lemma_pow2_adds(52, 2046);
                lemma_pow2_adds(55, exponent as nat);
                lemma_pow2_increases(2098, (55 + exponent) as nat);
                assert(4 * p >= 4 * (pow2(2098) * d)) by (nonlinear_arith)
                    requires
                        4 * p >= (d * pow2(exponent as nat)) * pow2(57),
                        pow2(57) == 4 * pow2(55),
                        pow2(55) * pow2(exponent as nat) >= pow2(2098),
                        d > 0,
                ;
                assert(units(INFINITY_BITS) * d == pow2(2098) * d) by (nonlinear_arith)
                    requires
                        units(INFINITY_BITS) == HIDDEN_BIT * pow2(2046),
                        pow2(2098) == pow2(52) * pow2(2046),
                        HIDDEN_BIT == pow2(52),
                ;
                lemma_nearest_overflow(p, d);
                lemma_round_is(p, d, INFINITY_BITS);
            }
            return INFINITY_BITS;
        }
        let wider = divisor.scaled_plus(2, 0);
        proof {
            lemma_pow2_adds(exponent as nat, 1);
            assert(wider@ == d * pow2((exponent + 1) as nat)) by (nonlinear_arith)
                requires
                    wider@ == (d * pow2(exponent as nat)) * 2 + 0,
                    pow2((exponent + 1) as nat) == pow2(exponent as nat) * 2,
            ;
            assert(wider@ * pow2(56) == divisor@ * QUOTIENT_BOUND) by (nonlinear_arith)
                requires
                    wider@ == divisor@ * 2 + 0,
                    QUOTIENT_BOUND == 2 * pow2(56),
            ;
        }
        divisor = wider;
        exponent = exponent + 1;
        let bound = divisor.scaled_plus(QUOTIENT_BOUND, 0);
        fits = !bound.at_most(&dividend);
    }
    // The quotient, bit by bit from the top.
    let mut quotient: u64 = 0;
    let mut bit: u32 = 57;
    proof {
        assert(0 * divisor@ == 0) by (nonlinear_arith);
        assert((0 + pow2(57)) * divisor@ == divisor@ * QUOTIENT_BOUND) by (nonlinear_arith)
            requires
                pow2(57) == QUOTIENT_BOUND,
        ;
    }
    while bit > 0
        invariant
            bit <= 57,
            quotient * divisor@ <= dividend@ < (quotient + pow2(bit as nat)) * divisor@,
            quotient + pow2(bit as nat) <= QUOTIENT_BOUND,
        decreases bit,
    {
        proof {
            vstd::arithmetic::power2::lemma_pow2_unfold(bit as nat);
            lemma_pow2_pos((bit - 1) as nat);
        }
        let step: u64 = crate::binary64::power_of_two(bit - 1) as u64;
        let candidate: u64 = quotient + step;
        let product = divisor.scaled_plus(candidate, 0);
        if product.at_most(&dividend) {
            proof {
                assert(candidate * divisor@ == divisor@ * candidate + 0) by (nonlinear_arith);
            }
            quotient = candidate;
        } else {
            proof {
                assert(candidate * divisor@ == divisor@ * candidate + 0) by (nonlinear_arith);
            }
        }
        bit = bit - 1;
    }
    let product = divisor.scaled_plus(quotient, 0);
    let sticky = !dividend.at_most(&product);
    proof {
        let cell = pow2(exponent as nat) * d;
        assert(cell == divisor@) by (nonlinear_arith)
            requires
                cell == pow2(exponent as nat) * d,
                divisor@ == d * pow2(exponent as nat),
        ;
        assert(product@ == quotient * cell) by (nonlinear_arith)
            requires
                product@ == divisor@ * quotient + 0,
                cell == divisor@,
        ;
        lemma_denominator_positive(scale as nat);
        lemma_pow2_pos(exponent as nat);
        assert(cell > 0) by (nonlinear_arith)
            requires
                cell == pow2(exponent as nat) * d,
                pow2(exponent as nat) > 0,
                d > 0,
        ;
        if exponent >= 2 {
            // at least 57 bits: one to spare under the rounding position
            lemma_pow2_adds(2, 54);
            assert(quotient >= pow2(54)) by (nonlinear_arith)
                requires
                    cell * pow2(56) <= dividend@,
                    dividend@ < (quotient + 1) * cell,
                    pow2(56) == 4 * pow2(54),
                    pow2(54) > 0,
                    cell > 0,
            ;
        }
    }
    let m = round_scaled(quotient as u128, exponent, sticky, Ghost(p), Ghost(d));
    proof {
        lemma_round_is(p, d, m);
    }
    m
}

} // verus!
