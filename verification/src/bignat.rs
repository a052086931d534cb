//! Natural numbers of any size, for the exact arithmetic that reading a
//! decimal literal needs.

use vstd::prelude::*;

verus! {

/// The radix of the limbs: two to the power 32.
pub const RADIX: u64 = 0x1_0000_0000;

/// `RADIX` to the power `n`.
pub open spec fn radix_pow(n: nat) -> nat
    decreases n,
{
    if n == 0 {
        1
    } else {
        RADIX as nat * radix_pow((n - 1) as nat)
    }
}

/// The number that `limbs` write in radix 2^32, least significant limb
/// first.
pub open spec fn limbs_value(limbs: Seq<u32>) -> nat
    decreases limbs.len(),
{
    if limbs.len() == 0 {
        0
    } else {
        limbs_value(limbs.drop_last()) + limbs.last() as nat * radix_pow(
            (limbs.len() - 1) as nat,
        )
    }
}

/// The number that the first `n` limbs write; all of them where there are
/// fewer.
pub open spec fn low_value(limbs: Seq<u32>, n: nat) -> nat {
    if n < limbs.len() {
        limbs_value(limbs.subrange(0, n as int))
    } else {
        limbs_value(limbs)
    }
}

/// The limb at place `i`; zero beyond the last.
pub open spec fn limb_at(limbs: Seq<u32>, i: nat) -> nat {
    if i < limbs.len() {
        limbs[i as int] as nat
    } else {
        0
    }
}

pub proof fn lemma_radix_pow_positive(n: nat)
    ensures
        radix_pow(n) > 0,
    decreases n,
{
    if n > 0 {
        lemma_radix_pow_positive((n - 1) as nat);
        assert(RADIX as nat * radix_pow((n - 1) as nat) > 0) by (nonlinear_arith)
            requires
                radix_pow((n - 1) as nat) > 0,
                RADIX == 0x1_0000_0000,
        ;
    }
}

pub proof fn lemma_radix_pow_increases(a: nat, b: nat)
    requires
        a <= b,
    ensures
        radix_pow(a) <= radix_pow(b),
    decreases b,
{
    if a < b {
        lemma_radix_pow_increases(a, (b - 1) as nat);
        lemma_radix_pow_positive((b - 1) as nat);
        assert(radix_pow((b - 1) as nat) <= RADIX as nat * radix_pow((b - 1) as nat))
            by (nonlinear_arith)
            requires
                radix_pow((b - 1) as nat) > 0,
                RADIX == 0x1_0000_0000,
        ;
    }
}

/// One more limb at the top adds its weight.
pub proof fn lemma_value_push(limbs: Seq<u32>, top: u32)
    ensures
        limbs_value(limbs.push(top)) == limbs_value(limbs) + top as nat * radix_pow(limbs.len()),
{
    assert(limbs.push(top).drop_last() =~= limbs);
}

/// `n` limbs write a number below `RADIX^n`.
pub proof fn lemma_value_bound(limbs: Seq<u32>)
    ensures
        limbs_value(limbs) < radix_pow(limbs.len()),
    decreases limbs.len(),
{
    if limbs.len() > 0 {
        lemma_value_bound(limbs.drop_last());
        let w = radix_pow((limbs.len() - 1) as nat);
        assert(limbs.last() as nat * w + w <= RADIX as nat * w) by (nonlinear_arith)
            requires
                limbs.last() < RADIX,
                RADIX == 0x1_0000_0000,
                w >= 0,
        ;
    }
}

/// The number written by the first `n + 1` places is that written by the
/// first `n`, and the limb at place `n` with its weight.
pub proof fn lemma_low_value_step(limbs: Seq<u32>, n: nat)
    ensures
        low_value(limbs, n + 1) == low_value(limbs, n) + limb_at(limbs, n) * radix_pow(n),
        low_value(limbs, n) < radix_pow(n),
{
    if n < limbs.len() {
        let shorter = limbs.subrange(0, n as int);
        let longer = limbs.subrange(0, (n + 1) as int);
        assert(longer =~= shorter.push(limbs[n as int]));
        lemma_value_push(shorter, limbs[n as int]);
        if n + 1 == limbs.len() {
            assert(longer =~= limbs);
        }
        lemma_value_bound(shorter);
    } else {
        assert(limb_at(limbs, n) * radix_pow(n) == 0) by (nonlinear_arith)
            requires
                limb_at(limbs, n) == 0,
        ;
        lemma_value_bound(limbs);
        lemma_radix_pow_increases(limbs.len(), n);
    }
}

/// A natural number of any size.
pub struct BigNat {
    limbs: Vec<u32>,
}

impl View for BigNat {
    type V = nat;

    closed spec fn view(&self) -> nat {
        limbs_value(self.limbs@)
    }
}

impl BigNat {
    /// Zero.
    pub fn zero() -> (r: BigNat)
        ensures
            r@ == 0,
    {
        BigNat { limbs: Vec::new() }
    }

    /// The number times `factor`, plus `addend`.
    pub fn scaled_plus(&self, factor: u64, addend: u64) -> (r: BigNat)
        ensures
            r@ == self@ * factor + addend,
    {
        let mut limbs: Vec<u32> = Vec::new();
        let mut carry: u128 = addend as u128;
        let mut i: usize = 0;
        proof {
            assert(self.limbs@.subrange(0, 0) =~= Seq::<u32>::empty());
            assert(carry * radix_pow(0) == addend) by (nonlinear_arith)
                requires
                    carry == addend,
                    radix_pow(0) == 1,
            ;
            assert(0 * factor == 0) by (nonlinear_arith);
        }
        while i < self.limbs.len()
            invariant
                i <= self.limbs.len(),
                limbs.len() == i,
                carry < 0x2_0000_0000_0000_0000,
                limbs_value(limbs@) + carry * radix_pow(i as nat) == limbs_value(
                    self.limbs@.subrange(0, i as int),
                ) * factor + addend,
            decreases self.limbs.len() - i,
        {
            let limb = self.limbs[i];
            proof {
                assert((limb as u128) * (factor as u128) <= 0xFFFF_FFFF * 0xFFFF_FFFF_FFFF_FFFF)
                    by (nonlinear_arith)
                    requires
                        limb <= 0xFFFF_FFFF,
                        factor <= 0xFFFF_FFFF_FFFF_FFFF,
                ;
            }
            let total: u128 = (limb as u128) * (factor as u128) + carry;
            let low: u32 = (total % (RADIX as u128)) as u32;
            let high: u128 = total / (RADIX as u128);
            proof {
                assert(total % 0x1_0000_0000 < 0x1_0000_0000);
                assert(low == total % 0x1_0000_0000);
                assert(total == high * 0x1_0000_0000 + low);
                let w = radix_pow(i as nat);
                let before = self.limbs@.subrange(0, i as int);
                assert(self.limbs@.subrange(0, i + 1) =~= before.push(limb));
                lemma_value_push(before, limb);
                lemma_value_push(limbs@, low);
                assert(radix_pow((i + 1) as nat) == RADIX as nat * w);
                assert(low * w + high * (RADIX as nat * w) == (limb * factor + carry) * w)
                    by (nonlinear_arith)
                    requires
                        total == limb * factor + carry,
                        total == high * RADIX + low,
                ;
                assert((limbs_value(before) + limb * w) * factor == limbs_value(before) * factor
                    + (limb * factor) * w) by (nonlinear_arith);
                assert((limb * factor + carry) * w == (limb * factor) * w + carry * w)
                    by (nonlinear_arith);
            }
            limbs.push(low);
            carry = high;
            i = i + 1;
        }
        assert(self.limbs@.subrange(0, i as int) =~= self.limbs@);
        while carry > 0
            invariant
                limbs_value(limbs@) + carry * radix_pow(limbs.len() as nat) == self@ * factor
                    + addend,
            decreases carry,
        {
            let low: u32 = (carry % (RADIX as u128)) as u32;
            let high: u128 = carry / (RADIX as u128);
            proof {
                let w = radix_pow(limbs.len() as nat);
                lemma_value_push(limbs@, low);
                assert(radix_pow((limbs.len() + 1) as nat) == RADIX as nat * w);
                assert(low * w + high * (RADIX as nat * w) == carry * w) by (nonlinear_arith)
                    requires
                        carry == high * RADIX + low,
                ;
            }
            limbs.push(low);
            carry = high;
        }
        proof {
            assert(carry * radix_pow(limbs.len() as nat) == 0) by (nonlinear_arith)
                requires
                    carry == 0,
            ;
        }
        BigNat { limbs }
    }

    /// Whether the number is at most `other`.
    pub fn at_most(&self, other: &BigNat) -> (r: bool)
        ensures
            r == (self@ <= other@),
    {
        let mut i: usize = if self.limbs.len() > other.limbs.len() {
            self.limbs.len()
        } else {
            other.limbs.len()
        };
        while i > 0
            invariant
                self@ - low_value(self.limbs@, i as nat) == other@ - low_value(
                    other.limbs@,
                    i as nat,
                ),
            decreases i,
        {
            let ours: u32 = if i - 1 < self.limbs.len() {
                self.limbs[i - 1]
            } else {
                0
            };
            let theirs: u32 = if i - 1 < other.limbs.len() {
                other.limbs[i - 1]
            } else {
                0
            };
            proof {
                let w = radix_pow((i - 1) as nat);
                lemma_low_value_step(self.limbs@, (i - 1) as nat);
                lemma_low_value_step(other.limbs@, (i - 1) as nat);
                if ours < theirs {
                    assert(ours * w + w <= theirs * w) by (nonlinear_arith)
                        requires
                            ours + 1 <= theirs,
                            w >= 0,
                    ;
                }
                if ours > theirs {
                    assert(theirs * w + w <= ours * w) by (nonlinear_arith)
                        requires
                            theirs + 1 <= ours,
                            w >= 0,
                    ;
                }
            }
            if ours < theirs {
                return true;
            }
            if ours > theirs {
                return false;
            }
            i = i - 1;
        }
        proof {
            assert(self.limbs@.len() > 0 ==> self.limbs@.subrange(0, 0) =~= Seq::<u32>::empty());
            assert(other.limbs@.len() > 0 ==> other.limbs@.subrange(0, 0) =~= Seq::<
                u32,
            >::empty());
        }
        true
    }
}

} // verus!
