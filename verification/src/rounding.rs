//! Rounding to nearest, ties to even: from a significand with spare low
//! bits, an exponent and a sticky flag to the bits of the nearest
//! binary64.

use vstd::prelude::*;
use vstd::arithmetic::power2::{
    lemma2_to64, lemma_pow2_adds, lemma_pow2_pos, lemma_pow2_strictly_increases, lemma_pow2_unfold,
    pow2,
};
use crate::binary64::{
    bit_length, lemma_constants, lemma_nearest_exact, lemma_nearest_overflow, lemma_units_scaled,
    lemma_units_step, nearest, power_of_two, units, HIDDEN_BIT, INFINITY_BITS,
};

verus! {

/// The largest exponent, counted in quarters of the unit 2^-1074, that
/// `round_scaled` takes. No finite operand comes near it.
pub const MAX_SCALE: u64 = 0xFFFF_FFFF;

/// Powers of two are ordered as their exponents are.
pub proof fn lemma_pow2_increases(a: nat, b: nat)
    requires
        a <= b,
    ensures
        pow2(a) <= pow2(b),
{
    if a < b {
        lemma_pow2_strictly_increases(a, b);
    }
}

/// A number that lies in a cell of width `w` lies in the cell of width
/// `unit * w` found by dropping the low part `rem` of the cell's index,
/// and lies below, on or above the middle of that wider cell as `rem`
/// compares with half of `unit`.
proof fn lemma_split(
    sig: nat,
    q: nat,
    rem: nat,
    unit: nat,
    half: nat,
    w: nat,
    x: nat,
    wide: nat,
)
    requires
        sig == q * unit + rem,
        rem < unit,
        unit == 2 * half,
        w > 0,
        sig * w <= x < (sig + 1) * w,
        wide == unit * w,
    ensures
        q * wide <= x < (q + 1) * wide,
        rem > half ==> 2 * x > (2 * q + 1) * wide,
        rem < half ==> 2 * x < (2 * q + 1) * wide,
        rem == half ==> 2 * x >= (2 * q + 1) * wide,
        rem == half ==> (2 * x == (2 * q + 1) * wide <==> x == sig * w),
{
    let qw = q * wide;
    let rw = rem * w;
    let hw = half * w;
    assert(sig * w == qw + rw) by (nonlinear_arith)
        requires
            sig == q * unit + rem,
            wide == unit * w,
            qw == q * wide,
            rw == rem * w,
    ;
    assert((sig + 1) * w == qw + rw + w) by (nonlinear_arith)
        requires
            sig * w == qw + rw,
    ;
    assert(wide == 2 * hw) by (nonlinear_arith)
        requires
            wide == unit * w,
            unit == 2 * half,
            hw == half * w,
    ;
    assert((q + 1) * wide == qw + wide) by (nonlinear_arith)
        requires
            qw == q * wide,
    ;
    assert((2 * q + 1) * wide == 2 * qw + wide) by (nonlinear_arith)
        requires
            qw == q * wide,
    ;
    assert(rw + w <= wide) by (nonlinear_arith)
        requires
            rem + 1 <= unit,
            wide == unit * w,
            rw == rem * w,
            w > 0,
    ;
    if rem > half {
        assert(rw >= hw + w) by (nonlinear_arith)
            requires
                rem >= half + 1,
                rw == rem * w,
                hw == half * w,
                w > 0,
        ;
    }
    if rem < half {
        assert(rw + w <= hw) by (nonlinear_arith)
            requires
                rem + 1 <= half,
                rw == rem * w,
                hw == half * w,
                w > 0,
        ;
    }
}

/// The magnitude with exponent `t` and significand `q`, or the next one
/// up, is nearest to `p / d` where the rational lies in the cell of `q`
/// and `up` says on which side of the cell's middle, a tie going to the
/// even significand.
proof fn lemma_nearest_rounded(p: nat, d: nat, t: nat, q: nat, up: bool)
    requires
        d > 0,
        q < 2 * HIDDEN_BIT,
        t == 0 || q >= HIDDEN_BIT,
        t <= 2045,
        q * (pow2(t) * d) <= p < (q + 1) * (pow2(t) * d),
        up ==> 2 * p >= (2 * q + 1) * (pow2(t) * d),
        !up ==> 2 * p <= (2 * q + 1) * (pow2(t) * d),
        2 * p == (2 * q + 1) * (pow2(t) * d) ==> (up <==> q % 2 == 1),
    ensures
        t * HIDDEN_BIT + q + 1 <= INFINITY_BITS,
        nearest(p, d, (t * HIDDEN_BIT + q + if up { 1int } else { 0int }) as u64),
{
    lemma_constants();
    let cell = pow2(t) * d;
    let base = (t * HIDDEN_BIT + q) as u64;
    let next = (base + 1) as u64;
    lemma_units_scaled(t, q);
    lemma_units_scaled(t, q + 1);
    let v0 = units(base);
    let v1 = units(next);
    assert(v0 * d == q * cell) by (nonlinear_arith)
        requires
            v0 == q * pow2(t),
            cell == pow2(t) * d,
    ;
    assert(v1 * d == (q + 1) * cell) by (nonlinear_arith)
        requires
            v1 == (q + 1) * pow2(t),
            cell == pow2(t) * d,
    ;
    assert((v0 + v1) * d == (2 * q + 1) * cell) by (nonlinear_arith)
        requires
            v0 * d == q * cell,
            v1 * d == (q + 1) * cell,
    ;
    assert(base % 2 == q % 2) by {
        assert((t * HIDDEN_BIT) % 2 == 0) by (nonlinear_arith)
            requires
                HIDDEN_BIT == 0x0010_0000_0000_0000,
        ;
    }
    if up {
        if next < INFINITY_BITS {
            let v2 = units((next + 1) as u64);
            lemma_units_step(next);
            assert(2 * (v1 * d) < (v1 + v2) * d) by (nonlinear_arith)
                requires
                    v1 < v2,
                    d > 0,
            ;
        }
    } else {
        if base > 0 {
            let below = units((base - 1) as u64);
            lemma_units_step((base - 1) as u64);
            assert((below + v0) * d < 2 * (v0 * d)) by (nonlinear_arith)
                requires
                    below < v0,
                    d > 0,
            ;
        }
    }
}

/// The bits of the binary64 magnitude nearest to `p / d` units of 2^-1074,
/// from a significand `sig`, an exponent `scale` counted in quarters of
/// that unit, and a flag `sticky`: the rational lies in the cell
/// `[sig, sig + 1) * 2^scale` of quarter units, and `sticky` says that it
/// lies above the cell's lower end. Where it does, the significand must
/// have a bit to spare below the rounding position.
pub(crate) fn round_scaled(
    sig: u128,
    scale: u64,
    sticky: bool,
    Ghost(p): Ghost<nat>,
    Ghost(d): Ghost<nat>,
) -> (m: u64)
    requires
        d > 0,
        scale <= MAX_SCALE,
        sig * (pow2(scale as nat) * d) <= 4 * p,
        4 * p < (sig + 1) * (pow2(scale as nat) * d),
        sticky <==> sig * (pow2(scale as nat) * d) != 4 * p,
        sticky ==> scale < 2 || sig >= pow2(54),
    ensures
        nearest(p, d, m),
{
    let len = bit_length(sig);
    let ghost w: nat = (pow2(scale as nat) * d) as nat;
    proof {
        lemma_constants();
        lemma2_to64();
        lemma_pow2_pos(scale as nat);
        assert(w > 0) by (nonlinear_arith)
            requires
                w == pow2(scale as nat) * d,
                pow2(scale as nat) > 0,
                d > 0,
        ;
    }
    if scale >= 2 && len <= 53 {
        // Nothing is dropped: the value is `sig * 2^(scale - 2)` units.
        proof {
            lemma_pow2_increases(len as nat, 53);
            assert(!sticky);
        }
        if sig == 0 {
            proof {
                assert(sig * w == 0) by (nonlinear_arith)
                    requires
                        sig == 0,
                ;
                assert(units(0) == 0);
                assert(units(0) * d == 0) by (nonlinear_arith)
                    requires
                        units(0) == 0,
                ;
                lemma_nearest_exact(p, d, 0);
            }
            return 0;
        }
        let t: u64 = scale - 2;
        let room: u64 = (53 - len) as u64;
        let shift: u64 = if t < room {
            t
        } else {
            room
        };
        let factor = power_of_two(shift as u32);
        proof {
            lemma_pow2_pos(shift as nat);
            lemma_pow2_adds(len as nat, shift as nat);
            lemma_pow2_increases((len + shift) as nat, 53);
            assert(sig * factor < pow2(len as nat) * pow2(shift as nat)) by (nonlinear_arith)
                requires
                    sig < pow2(len as nat),
                    factor == pow2(shift as nat),
                    factor > 0,
            ;
        }
        let q: u128 = sig * factor;
        let rest: u64 = t - shift;
        proof {
            // 4p = sig * 2^scale * d = q * 2^rest * 4 * d
            lemma_pow2_adds(shift as nat, rest as nat);
            lemma_pow2_adds(2, t as nat);
            assert(4 * p == 4 * (q * pow2(rest as nat) * d)) by (nonlinear_arith)
                requires
                    4 * p == sig * (pow2(scale as nat) * d),
                    pow2(scale as nat) == 4 * pow2(t as nat),
                    pow2(t as nat) == pow2(shift as nat) * pow2(rest as nat),
                    q == sig * pow2(shift as nat),
            ;
            if rest > 0 {
                // the significand is full
                assert(shift == room);
                lemma_pow2_adds((len - 1) as nat, shift as nat);
                assert(q >= pow2((len - 1) as nat) * pow2(shift as nat)) by (nonlinear_arith)
                    requires
                        sig >= pow2((len - 1) as nat),
                        q == sig * pow2(shift as nat),
                ;
            }
        }
        if rest >= 2046 {
            proof {
                lemma_units_scaled(2046, HIDDEN_BIT as nat);
                lemma_pow2_increases(2046, rest as nat);
                assert(q * pow2(rest as nat) * d >= HIDDEN_BIT * pow2(2046) * d)
                    by (nonlinear_arith)
                    requires
                        q >= HIDDEN_BIT,
                        pow2(rest as nat) >= pow2(2046),
                        d > 0,
                ;
                lemma_nearest_overflow(p, d);
            }
            return INFINITY_BITS;
        }
        let m: u64 = rest * HIDDEN_BIT + (q as u64);
        proof {
            lemma_units_scaled(rest as nat, q as nat);
            lemma_nearest_exact(p, d, m);
        }
        m
    } else {
        // Drop low bits until 53 are left, or until the exponent of the
        // subnormals is reached.
        let for_scale: u32 = if scale < 2 {
            (2 - scale) as u32
        } else {
            0
        };
        let for_length: u32 = if len > 53 {
            len - 53
        } else {
            0
        };
        let drop: u32 = if for_scale > for_length {
            for_scale
        } else {
            for_length
        };
        let t: u64 = scale + (drop as u64) - 2;
        let unit = power_of_two(drop);
        proof {
            lemma_pow2_pos(drop as nat);
        }
        let q: u128 = sig / unit;
        let rem: u128 = sig % unit;
        let half: u128 = unit / 2;
        let ghost cell: nat = (pow2(t as nat) * d) as nat;
        proof {
            lemma_pow2_unfold(drop as nat);
            lemma_pow2_pos((drop - 1) as nat);
            assert(unit == 2 * half);
            // the wide cell is four cells of the target exponent
            lemma_pow2_adds(drop as nat, scale as nat);
            lemma_pow2_adds(2, t as nat);
            let wide: nat = (unit * w) as nat;
            assert(wide == 4 * cell) by (nonlinear_arith)
                requires
                    wide == unit * w,
                    w == pow2(scale as nat) * d,
                    unit == pow2(drop as nat),
                    pow2(drop as nat) * pow2(scale as nat) == 4 * pow2(t as nat),
                    cell == pow2(t as nat) * d,
            ;
            assert(sig == q * unit + rem) by (nonlinear_arith)
                requires
                    q == sig / unit,
                    rem == sig % unit,
                    unit > 0,
            ;
            lemma_split(
                sig as nat,
                q as nat,
                rem as nat,
                unit as nat,
                half as nat,
                w,
                (4 * p) as nat,
                wide,
            );
            // fewer than 54 bits are left
            lemma_pow2_adds(53, drop as nat);
            lemma_pow2_increases(len as nat, (53 + drop) as nat);
            assert(q < pow2(53)) by (nonlinear_arith)
                requires
                    sig == q * unit + rem,
                    sig < pow2(53) * unit,
                    unit > 0,
            ;
            if t > 0 {
                assert(drop == len - 53);
                lemma_pow2_adds(52, drop as nat);
                assert(q >= pow2(52)) by (nonlinear_arith)
                    requires
                        sig == q * unit + rem,
                        sig >= pow2(52) * unit,
                        rem < unit,
                        unit > 0,
                ;
            }
            assert(q * (4 * cell) == 4 * (q * cell)) by (nonlinear_arith);
            assert((q + 1) * (4 * cell) == 4 * ((q + 1) * cell)) by (nonlinear_arith);
            assert((2 * q + 1) * (4 * cell) == 4 * ((2 * q + 1) * cell)) by (nonlinear_arith);
        }
        if t >= 2046 {
            proof {
                lemma_units_scaled(2046, HIDDEN_BIT as nat);
                lemma_pow2_increases(2046, t as nat);
                assert(q * cell >= HIDDEN_BIT * pow2(2046) * d) by (nonlinear_arith)
                    requires
                        q >= HIDDEN_BIT,
                        cell == pow2(t as nat) * d,
                        pow2(t as nat) >= pow2(2046),
                        d > 0,
                ;
                lemma_nearest_overflow(p, d);
            }
            return INFINITY_BITS;
        }
        let up = rem > half || (rem == half && (sticky || q % 2 == 1));
        proof {
            lemma_nearest_rounded(p, d, t as nat, q as nat, up);
        }
        let base: u64 = t * HIDDEN_BIT + (q as u64);
        if up {
            base + 1
        } else {
            base
        }
    }
}

} // verus!
