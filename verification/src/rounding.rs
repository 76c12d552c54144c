//! Rounding to nearest, ties to even, of an exact non-negative quantity onto
//! the binary32 magnitudes.
//!
//! The quantity is a fraction `num / den` counted in units of 2^-149.
//! [`is_nearest`] says which magnitude it rounds to; the magnitude is unique
//! and always exists, so [`round_nearest`] names it.

use vstd::prelude::*;
use vstd::arithmetic::div_mod::{lemma_fundamental_div_mod, lemma_mod_bound};
use vstd::arithmetic::power2::{
    lemma2_to64, lemma2_to64_rest, lemma_pow2_adds, lemma_pow2_pos,
    lemma_pow2_strictly_increases, lemma_pow2_unfold, pow2,
};
use vstd::bits::{lemma_u64_pow2_no_overflow, lemma_u64_shl_is_mul};
use crate::binary32::{
    lemma_scaled_increases, scaled, with_sign, HIDDEN_BIT, INFINITY, SIGN_BIT,
};

verus! {

/// Twice the midpoint between the numbers of magnitudes `m` and `m + 1`.
pub open spec fn twice_midpoint(m: nat) -> nat {
    scaled(m) + scaled(m + 1)
}

/// `num / den` lies under the midpoint above `m`, or on it with `m` even.
pub open spec fn not_above(num: nat, den: nat, m: nat) -> bool {
    ||| 2 * num < twice_midpoint(m) * den
    ||| (2 * num == twice_midpoint(m) * den && m % 2 == 0)
}

/// `num / den` lies over the midpoint below `m`, or on it with `m` even.
pub open spec fn not_below(num: nat, den: nat, m: nat) -> bool
    recommends
        m > 0,
{
    ||| 2 * num > twice_midpoint((m - 1) as nat) * den
    ||| (2 * num == twice_midpoint((m - 1) as nat) * den && m % 2 == 0)
}

/// `m` is the magnitude nearest to `num / den`, an exact tie going to the
/// even magnitude. Infinity takes everything from half a step above the
/// largest finite number.
pub open spec fn is_nearest(num: nat, den: nat, m: nat) -> bool {
    &&& m <= 0x7f80_0000
    &&& (m > 0 ==> not_below(num, den, m))
    &&& (m < 0x7f80_0000 ==> not_above(num, den, m))
}

/// The magnitude that `num / den` rounds to.
pub open spec fn round_nearest(num: nat, den: nat) -> nat {
    choose|m: nat| is_nearest(num, den, m)
}

/// The part of a binary exponent that multiplies.
pub open spec fn up(e: int) -> nat {
    if e >= 0 {
        e as nat
    } else {
        0
    }
}

/// The part of a binary exponent that divides.
pub open spec fn down(e: int) -> nat {
    if e < 0 {
        (-e) as nat
    } else {
        0
    }
}

/// No quantity rounds to two magnitudes.
pub proof fn lemma_nearest_unique(num: nat, den: nat, m1: nat, m2: nat)
    requires
        den > 0,
        is_nearest(num, den, m1),
        is_nearest(num, den, m2),
    ensures
        m1 == m2,
{
    if m1 < m2 {
        lemma_nearest_ordered(num, num, den, m2, m1);
    } else if m2 < m1 {
        lemma_nearest_ordered(num, num, den, m1, m2);
    }
}

/// Rounding keeps the order: the smaller quantity cannot round higher.
pub proof fn lemma_nearest_ordered(num1: nat, num2: nat, den: nat, m1: nat, m2: nat)
    requires
        den > 0,
        num1 <= num2,
        is_nearest(num1, den, m1),
        is_nearest(num2, den, m2),
    ensures
        m1 <= m2,
{
    if m2 < m1 {
        let below = twice_midpoint((m1 - 1) as nat);
        let above = twice_midpoint(m2);
        if m2 + 1 < m1 {
            lemma_scaled_increases(m2, (m1 - 1) as nat);
            lemma_scaled_increases(m2 + 1, m1);
            assert(above * den < below * den) by (nonlinear_arith)
                requires
                    above < below,
                    den > 0,
            ;
        }
    }
}

/// The search behind [`lemma_nearest_exists`]: from a magnitude that is not
/// too high, walk up to the nearest one.
proof fn lemma_nearest_from(num: nat, den: nat, m: nat) -> (r: nat)
    requires
        den > 0,
        m <= 0x7f80_0000,
        m > 0 ==> not_below(num, den, m),
    ensures
        is_nearest(num, den, r),
    decreases 0x7f80_0000 - m,
{
    if m == 0x7f80_0000 || not_above(num, den, m) {
        m
    } else {
        lemma_nearest_from(num, den, m + 1)
    }
}

/// Every quantity rounds to some magnitude, which [`round_nearest`] names.
pub proof fn lemma_nearest_exists(num: nat, den: nat)
    requires
        den > 0,
    ensures
        is_nearest(num, den, round_nearest(num, den)),
{
    let m = lemma_nearest_from(num, den, 0);
    assert(is_nearest(num, den, m));
}

/// A magnitude that is nearest is the rounded one.
pub proof fn lemma_round_is(num: nat, den: nat, m: nat)
    requires
        den > 0,
        is_nearest(num, den, m),
    ensures
        round_nearest(num, den) == m,
{
    lemma_nearest_exists(num, den);
    lemma_nearest_unique(num, den, m, round_nearest(num, den));
}

/// Rounding is monotone in the quantity.
pub proof fn lemma_round_monotone(num1: nat, num2: nat, den: nat)
    requires
        den > 0,
        num1 <= num2,
    ensures
        round_nearest(num1, den) <= round_nearest(num2, den),
{
    lemma_nearest_exists(num1, den);
    lemma_nearest_exists(num2, den);
    lemma_nearest_ordered(num1, num2, den, round_nearest(num1, den), round_nearest(num2, den));
}

/// A quantity at or over the number of `m` and not above `m` rounds to `m`.
pub proof fn lemma_nearest_from_below(num: nat, den: nat, m: nat)
    requires
        den > 0,
        m <= 0x7f80_0000,
        scaled(m) * den <= num,
        m < 0x7f80_0000 ==> not_above(num, den, m),
    ensures
        is_nearest(num, den, m),
{
    if m > 0 {
        lemma_scaled_increases((m - 1) as nat, m);
        let lo = scaled((m - 1) as nat);
        let at = scaled(m);
        assert((lo + at) * den < 2 * (at * den)) by (nonlinear_arith)
            requires
                lo < at,
                den > 0,
        ;
    }
}

/// A quantity at or under the number of `m` and not below `m` rounds to `m`.
pub proof fn lemma_nearest_from_above(num: nat, den: nat, m: nat)
    requires
        den > 0,
        m <= 0x7f80_0000,
        num <= scaled(m) * den,
        m > 0 ==> not_below(num, den, m),
    ensures
        is_nearest(num, den, m),
{
    lemma_scaled_increases(m, m + 1);
    let hi = scaled(m + 1);
    let at = scaled(m);
    assert(2 * (at * den) < (at + hi) * den) by (nonlinear_arith)
        requires
            at < hi,
            den > 0,
    ;
}

/// The number of a magnitude rounds to that magnitude.
pub proof fn lemma_round_exact(den: nat, m: nat)
    requires
        den > 0,
        m <= 0x7f80_0000,
    ensures
        round_nearest(scaled(m) * den, den) == m,
{
    lemma_scaled_increases(m, m + 1);
    let hi = scaled(m + 1);
    let at = scaled(m);
    assert(2 * (at * den) < (at + hi) * den) by (nonlinear_arith)
        requires
            at < hi,
            den > 0,
    ;
    lemma_nearest_from_below(scaled(m) * den, den, m);
    lemma_round_is(scaled(m) * den, den, m);
}

/// The number of the magnitude with `q` in the exponent position and the
/// significand `m` added on top, hidden bit included.
pub proof fn lemma_pack_value(q: nat, m: nat)
    requires
        m <= 0x100_0000,
        q == 0 || m >= 0x80_0000,
    ensures
        scaled(q * 0x80_0000 + m) == m * pow2(q),
{
    reveal(scaled);
    let bits = q * 0x80_0000 + m;
    lemma2_to64();
    if m < 0x80_0000 {
        assert(bits / 0x80_0000 == 0);
        assert(bits % 0x80_0000 == m);
        assert(m * 1 == m);
    } else if m < 0x100_0000 {
        assert(bits == (q + 1) * 0x80_0000 + (m - 0x80_0000));
        assert(bits / 0x80_0000 == q + 1);
        assert(bits % 0x80_0000 == m - 0x80_0000);
    } else {
        assert(bits == (q + 2) * 0x80_0000);
        assert(bits / 0x80_0000 == q + 2);
        assert(bits % 0x80_0000 == 0);
        lemma_pow2_unfold(q + 1);
        let p = pow2(q);
        assert(0x80_0000 * (2 * p) == 0x100_0000 * p) by (nonlinear_arith);
    }
}

/// Powers of two keep the order of their exponents.
pub proof fn lemma_pow2_ordered(a: nat, b: nat)
    requires
        a <= b,
    ensures
        pow2(a) <= pow2(b),
{
    if a < b {
        lemma_pow2_strictly_increases(a, b);
    }
}

/// A number of `x` bits, shifted left by `k`, is a number of `x + k` bits.
pub proof fn lemma_shifted_bounds(a: nat, x: nat, k: nat)
    requires
        x >= 1,
        pow2((x - 1) as nat) <= a < pow2(x),
    ensures
        pow2((x - 1 + k) as nat) <= a * pow2(k) < pow2(x + k),
{
    lemma_pow2_adds((x - 1) as nat, k);
    lemma_pow2_adds(x, k);
    lemma_pow2_pos(k);
    let lo = pow2((x - 1) as nat);
    let hi = pow2(x);
    let s = pow2(k);
    assert(lo * s <= a * s < hi * s) by (nonlinear_arith)
        requires
            lo <= a < hi,
            s > 0,
    ;
}

/// Where the exact quantity and the candidate's number are written over a
/// common scale, their differences are those of the remainder.
proof fn lemma_round_arith(p: int, m0: int, rem: int, s: int, u: int, q: int, d: int)
    requires
        p == m0 * s + rem,
        q * d == s * u,
    ensures
        2 * (p * u) - (m0 * q + (m0 + 1) * q) * d == (2 * rem - s) * u,
        p * u - (m0 * q) * d == rem * u,
        ((m0 + 1) * q) * d - p * u == (s - rem) * u,
{
    let qd = q * d;
    assert((m0 * q) * d == m0 * qd) by (nonlinear_arith)
        requires
            qd == q * d,
    ;
    assert(((m0 + 1) * q) * d == m0 * qd + qd) by (nonlinear_arith)
        requires
            qd == q * d,
    ;
    assert((m0 * q + (m0 + 1) * q) * d == (m0 * q) * d + ((m0 + 1) * q) * d)
        by (nonlinear_arith);
    let su = s * u;
    assert(p * u == m0 * su + rem * u) by (nonlinear_arith)
        requires
            p == m0 * s + rem,
            su == s * u,
    ;
    assert((2 * rem - s) * u == 2 * (rem * u) - su) by (nonlinear_arith)
        requires
            su == s * u,
    ;
    assert((s - rem) * u == su - rem * u) by (nonlinear_arith)
        requires
            su == s * u,
    ;
}

/// A quantity of at least 2^128 rounds to infinity.
proof fn lemma_round_overflow(p: nat, len: nat, e: int)
    requires
        len >= 1,
        pow2((len - 1) as nat) <= p,
        len - 1 + e >= 277,
    ensures
        round_nearest(p * pow2(up(e)), pow2(down(e))) == 0x7f80_0000,
{
    reveal(scaled);
    let num = p * pow2(up(e));
    let den = pow2(down(e));
    lemma_pow2_pos(up(e));
    lemma_pow2_pos(down(e));
    lemma2_to64();
    assert(scaled(0x7f80_0000) == 0x80_0000 * pow2(254));
    lemma_pow2_adds(23, 254);
    lemma_pow2_adds(277, down(e));
    lemma_pow2_adds((len - 1) as nat, up(e));
    lemma_pow2_ordered(277 + down(e), (len - 1 + up(e)) as nat);
    let lo = pow2((len - 1) as nat);
    let u = pow2(up(e));
    assert(lo * u <= p * u) by (nonlinear_arith)
        requires
            lo <= p,
            u > 0,
    ;
    lemma_nearest_from_below(num, den, 0x7f80_0000);
    lemma_round_is(num, den, 0x7f80_0000);
}

/// A quantity under half of the smallest subnormal rounds to zero.
proof fn lemma_round_vanishes(p: nat, e: int)
    requires
        p < 0x1_0000_0000_0000_0000,
        e <= -65,
    ensures
        round_nearest(p * pow2(up(e)), pow2(down(e))) == 0,
{
    reveal(scaled);
    let den = pow2(down(e));
    lemma2_to64();
    lemma2_to64_rest();
    lemma_pow2_ordered(65, down(e));
    lemma_pow2_unfold(65);
    assert(scaled(0) == 0);
    assert(scaled(1) == 1);
    assert(twice_midpoint(0) * den == den) by (nonlinear_arith)
        requires
            twice_midpoint(0) == 1,
    ;
    assert(scaled(0) * den == 0) by (nonlinear_arith)
        requires
            scaled(0) == 0,
    ;
    let one = pow2(0);
    assert(p * one == p) by (nonlinear_arith)
        requires
            one == 1,
    ;
    lemma_nearest_from_below(p, den, 0);
    lemma_round_is(p, den, 0);
}

/// Nothing rounds to zero.
proof fn lemma_round_nothing(e: int)
    ensures
        round_nearest(0 * pow2(up(e)), pow2(down(e))) == 0,
{
    let den = pow2(down(e));
    let u = pow2(up(e));
    lemma_pow2_pos(down(e));
    crate::binary32::lemma_scaled_zero(0);
    assert(0 * u == 0) by (nonlinear_arith);
    assert(scaled(0) * den == 0) by (nonlinear_arith)
        requires
            scaled(0) == 0,
    ;
    lemma_round_exact(den, 0);
}

/// A quantity that is itself on the grid rounds to its own magnitude.
proof fn lemma_round_on_grid(p: nat, k: nat, q: nat, e: int)
    requires
        e == q + k,
        p * pow2(k) <= 0x100_0000,
        q == 0 || p * pow2(k) >= 0x80_0000,
        q <= 253,
    ensures
        round_nearest(p * pow2(up(e)), pow2(down(e))) == q * 0x80_0000 + p * pow2(k),
{
    let mant = p * pow2(k);
    let m = q * 0x80_0000 + mant;
    lemma2_to64();
    lemma_pack_value(q, mant);
    lemma_pow2_adds(k, q);
    let a = pow2(k);
    let b = pow2(q);
    assert(p * (a * b) == (p * a) * b) by (nonlinear_arith);
    assert(scaled(m) * 1 == scaled(m)) by (nonlinear_arith);
    assert(m <= 0x7f80_0000) by (nonlinear_arith)
        requires
            m == q * 0x80_0000 + mant,
            mant <= 0x100_0000,
            q <= 253,
    ;
    lemma_round_exact(1, m);
}

/// Dropping `sh` low bits and rounding the rest to nearest, ties to even,
/// gives the nearest magnitude.
proof fn lemma_round_shifted(p: nat, sh: nat, q: nat, e: int, m0: nat, rem: nat, round_up: bool)
    requires
        sh >= 1,
        e == q - sh,
        p == m0 * pow2(sh) + rem,
        rem < pow2(sh),
        m0 < 0x100_0000,
        q == 0 || m0 >= 0x80_0000,
        q <= 253,
        round_up <==> (2 * rem > pow2(sh) || (2 * rem == pow2(sh) && m0 % 2 == 1)),
    ensures
        round_nearest(p * pow2(up(e)), pow2(down(e))) == q * 0x80_0000 + m0 + (if round_up {
            1nat
        } else {
            0nat
        }),
{
    let s = pow2(sh);
    let u = pow2(up(e));
    let d = pow2(down(e));
    let qq = pow2(q);
    let num = p * u;
    lemma_pow2_pos(up(e));
    lemma_pow2_pos(down(e));
    lemma_pow2_adds(q, down(e));
    lemma_pow2_adds(sh, up(e));
    assert(q + down(e) == sh + up(e));
    assert(qq * d == s * u);
    lemma_round_arith(p as int, m0 as int, rem as int, s as int, u as int, qq as int, d as int);
    lemma_pack_value(q, m0);
    lemma_pack_value(q, m0 + 1);
    let lower = q * 0x80_0000 + m0;
    assert(lower + 1 <= 0x7f80_0000) by (nonlinear_arith)
        requires
            lower == q * 0x80_0000 + m0,
            m0 < 0x100_0000,
            q <= 253,
    ;
    assert(twice_midpoint(lower) == m0 * qq + (m0 + 1) * qq);
    let r = 2 * rem - s;
    if round_up {
        assert(r * u > 0 || (r * u == 0 && 2 * rem == s)) by (nonlinear_arith)
            requires
                r > 0 || (r == 0 && 2 * rem == s),
                u > 0,
        ;
        let t = s - rem;
        assert(t * u >= 0) by (nonlinear_arith)
            requires
                t > 0,
                u > 0,
        ;
        assert(not_below(num, d, lower + 1));
        lemma_nearest_from_above(num, d, lower + 1);
        lemma_round_is(num, d, lower + 1);
    } else {
        assert(r * u < 0 || (r * u == 0 && 2 * rem == s)) by (nonlinear_arith)
            requires
                r < 0 || (r == 0 && 2 * rem == s),
                u > 0,
        ;
        assert(rem * u >= 0) by (nonlinear_arith)
            requires
                rem >= 0,
                u > 0,
        ;
        assert(not_above(num, d, lower));
        lemma_nearest_from_below(num, d, lower);
        lemma_round_is(num, d, lower);
    }
}

/// Two to the `k`.
pub fn pow2_u64(k: u32) -> (r: u64)
    requires
        k < 64,
    ensures
        r == pow2(k as nat),
{
    proof {
        lemma_u64_pow2_no_overflow(k as nat);
        lemma_u64_shl_is_mul(1u64, k as u64);
    }
    1u64 << (k as u64)
}

/// The number of bits of `p`: zero for zero.
pub fn bit_length(p: u64) -> (len: u32)
    ensures
        p == 0 ==> len == 0,
        p > 0 ==> 1 <= len <= 64 && pow2((len - 1) as nat) <= p < pow2(len as nat),
{
    proof {
        lemma2_to64();
        lemma2_to64_rest();
    }
    if p == 0 {
        return 0;
    }
    if p >= 0x8000_0000_0000_0000 {
        return 64;
    }
    let mut len: u32 = 1;
    let mut bound: u64 = 2;
    while bound <= p
        invariant
            1 <= len <= 63,
            bound == pow2(len as nat),
            pow2((len - 1) as nat) <= p < 0x8000_0000_0000_0000,
        decreases 63 - len,
    {
        proof {
            lemma2_to64_rest();
            lemma_pow2_ordered(len as nat, 63);
            lemma_pow2_unfold((len + 1) as nat);
        }
        bound = bound * 2;
        len = len + 1;
    }
    len
}

/// Rounds the quantity `p * 2^e`, counted in units of 2^-149, to the nearest
/// magnitude, ties to even.
pub fn round_magnitude(p: u64, e: i32) -> (m: u32)
    ensures
        m == round_nearest(p as nat * pow2(up(e as int)), pow2(down(e as int))),
        m <= 0x7f80_0000,
{
    proof {
        lemma_pow2_pos(down(e as int));
        lemma_nearest_exists(p as nat * pow2(up(e as int)), pow2(down(e as int)));
    }
    if p == 0 {
        proof {
            lemma_round_nothing(e as int);
        }
        return 0;
    }
    if e > 300 {
        proof {
            lemma2_to64();
            lemma_round_overflow(p as nat, 1, e as int);
        }
        return INFINITY;
    }
    if e < -300 {
        proof {
            lemma_round_vanishes(p as nat, e as int);
        }
        return 0;
    }
    let len: u32 = bit_length(p);
    let top: i32 = len as i32 - 1 + e;
    if top >= 277 {
        proof {
            lemma_round_overflow(p as nat, len as nat, e as int);
        }
        return INFINITY;
    }
    let q: i32 = if top >= 23 {
        top - 23
    } else {
        0
    };
    let sh: i32 = q - e;
    let mant: u64;
    if sh <= 0 {
        let k: u32 = (0 - sh) as u32;
        proof {
            lemma2_to64();
            lemma_shifted_bounds(p as nat, len as nat, k as nat);
            if top >= 23 {
                assert(len + k == 24);
            } else {
                lemma_pow2_ordered((len + k) as nat, 23);
            }
            lemma_round_on_grid(p as nat, k as nat, q as nat, e as int);
        }
        mant = p * pow2_u64(k);
    } else if sh >= 65 {
        proof {
            lemma_round_vanishes(p as nat, e as int);
        }
        mant = 0;
    } else if sh == 64 {
        let round_up: bool = p > 0x8000_0000_0000_0000;
        proof {
            lemma2_to64_rest();
            let s = pow2(64);
            assert(p == 0 * s + p) by (nonlinear_arith);
            lemma_round_shifted(p as nat, 64, 0, e as int, 0, p as nat, round_up);
        }
        mant = if round_up {
            1
        } else {
            0
        };
    } else {
        let d: u64 = pow2_u64(sh as u32);
        proof {
            lemma_pow2_pos(sh as nat);
        }
        let m0: u64 = p / d;
        let rem: u64 = p % d;
        let half: u64 = d / 2;
        let round_up: bool = rem > half || (rem == half && m0 % 2 == 1);
        proof {
            lemma2_to64();
            lemma_pow2_unfold(sh as nat);
            lemma_fundamental_div_mod(p as int, d as int);
            lemma_mod_bound(p as int, d as int);
            assert(p == m0 * d + rem) by (nonlinear_arith)
                requires
                    p == d * m0 + rem,
            ;
            if top >= 23 {
                assert(len == sh + 24);
                lemma_pow2_adds(24, sh as nat);
                lemma_pow2_adds(23, sh as nat);
                assert(m0 < 0x100_0000) by (nonlinear_arith)
                    requires
                        p == m0 * d + rem,
                        rem >= 0,
                        d > 0,
                        p < 0x100_0000 * d,
                ;
                assert(m0 >= 0x80_0000) by (nonlinear_arith)
                    requires
                        p == m0 * d + rem,
                        rem < d,
                        d > 0,
                        p >= 0x80_0000 * d,
                ;
            } else {
                lemma_pow2_ordered(len as nat, (23 + sh) as nat);
                lemma_pow2_adds(23, sh as nat);
                assert(m0 < 0x80_0000) by (nonlinear_arith)
                    requires
                        p == m0 * d + rem,
                        rem >= 0,
                        d > 0,
                        p < 0x80_0000 * d,
                ;
            }
            lemma_round_shifted(
                p as nat,
                sh as nat,
                q as nat,
                e as int,
                m0 as nat,
                rem as nat,
                round_up,
            );
        }
        mant = if round_up {
            m0 + 1
        } else {
            m0
        };
    }
    (q as u32) * HIDDEN_BIT + (mant as u32)
}

/// Rounds the quantity `p * 2^e`, counted in units of 2^-149, to the nearest
/// magnitude, ties to even, and puts the sign on it.
pub fn round_pack(negative: bool, p: u64, e: i32) -> (r: u32)
    ensures
        r == with_sign(
            negative,
            round_nearest(p as nat * pow2(up(e as int)), pow2(down(e as int))),
        ),
{
    let mag: u32 = round_magnitude(p, e);
    if negative {
        mag + SIGN_BIT
    } else {
        mag
    }
}

} // verus!
