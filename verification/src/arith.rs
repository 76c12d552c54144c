//! Correctly rounded multiplication and addition of binary32 numbers, on
//! their bit patterns.
//!
//! Each result is the exact product or sum, rounded to nearest with ties to
//! even. A result that is not a number is always [`QUIET_NAN`].

use vstd::prelude::*;
use vstd::arithmetic::power2::{
    lemma2_to64, lemma_pow2_adds, lemma_pow2_pos, lemma_pow2_unfold, pow2,
};
use crate::binary32::{
    is_finite, is_infinite, is_negative, lemma_scaled_order, lemma_scaled_zero, magnitude,
    scaled, spec_is_nan, value, with_sign, HIDDEN_BIT, INFINITY, QUIET_NAN, SIGN_BIT,
};
use crate::rounding::{
    is_nearest, lemma_nearest_exists, lemma_nearest_from_above, lemma_nearest_from_below,
    lemma_pack_value, lemma_pow2_ordered, lemma_round_exact, lemma_round_is,
    lemma_round_monotone, not_above, not_below, down, pow2_u64, round_nearest, round_pack,
    twice_midpoint, up,
};

verus! {

/// The significand of a finite magnitude, hidden bit included.
pub open spec fn significand(m: nat) -> nat {
    if m / 0x80_0000 == 0 {
        m % 0x80_0000
    } else {
        0x80_0000 + m % 0x80_0000
    }
}

/// The power of two that scales the significand of a finite magnitude, in
/// units of 2^-149.
pub open spec fn exponent(m: nat) -> nat {
    if m / 0x80_0000 == 0 {
        0
    } else {
        (m / 0x80_0000 - 1) as nat
    }
}

/// The product of two binary32 numbers: NaN if either is, or if one is zero
/// and the other infinite; else the exact product rounded to nearest, ties
/// to even, with the sign that the two signs give.
pub open spec fn spec_multiply(a: u32, b: u32) -> u32 {
    if spec_is_nan(a) || spec_is_nan(b) {
        QUIET_NAN
    } else if is_infinite(a) || is_infinite(b) {
        if magnitude(a) == 0 || magnitude(b) == 0 {
            QUIET_NAN
        } else {
            with_sign(is_negative(a) != is_negative(b), 0x7f80_0000)
        }
    } else {
        with_sign(
            is_negative(a) != is_negative(b),
            round_nearest(scaled(magnitude(a)) * scaled(magnitude(b)), pow2(149)),
        )
    }
}

/// The sum of two binary32 numbers: NaN if either is, or for infinities of
/// opposite sign; an infinity if one is; else the exact sum rounded to
/// nearest, ties to even. An exact zero is `-0.0` only when both are
/// negative.
pub open spec fn spec_sum(a: u32, b: u32) -> u32 {
    if spec_is_nan(a) || spec_is_nan(b) {
        QUIET_NAN
    } else if is_infinite(a) {
        if is_infinite(b) && is_negative(a) != is_negative(b) {
            QUIET_NAN
        } else {
            a
        }
    } else if is_infinite(b) {
        b
    } else {
        let s = value(a) + value(b);
        if s == 0 {
            if is_negative(a) && is_negative(b) {
                0x8000_0000u32
            } else {
                0u32
            }
        } else if s < 0 {
            with_sign(true, round_nearest((-s) as nat, 1))
        } else {
            with_sign(false, round_nearest(s as nat, 1))
        }
    }
}

/// A finite magnitude is its exponent and significand put together, and its
/// number is the significand scaled by the exponent.
pub proof fn lemma_decode(m: nat)
    requires
        m < 0x7f80_0000,
    ensures
        m == exponent(m) * 0x80_0000 + significand(m),
        significand(m) < 0x100_0000,
        exponent(m) == 0 || significand(m) >= 0x80_0000,
        exponent(m) <= 253,
        scaled(m) == significand(m) * pow2(exponent(m)),
{
    lemma_pack_value(exponent(m), significand(m));
}

/// Rounding does not depend on the scale the fraction is written in.
pub proof fn lemma_round_scale(num: nat, den: nat, c: nat)
    requires
        den > 0,
        c > 0,
    ensures
        round_nearest(num * c, den * c) == round_nearest(num, den),
{
    lemma_nearest_exists(num, den);
    let m = round_nearest(num, den);
    assert(den * c > 0) by (nonlinear_arith)
        requires
            den > 0,
            c > 0,
    ;
    let x = 2 * num;
    assert(2 * (num * c) == x * c) by (nonlinear_arith)
        requires
            x == 2 * num,
    ;
    if m > 0 {
        let t = twice_midpoint((m - 1) as nat);
        let y = t * den;
        assert(t * (den * c) == y * c) by (nonlinear_arith)
            requires
                y == t * den,
        ;
        assert((x > y ==> x * c > y * c) && (x == y ==> x * c == y * c)) by (nonlinear_arith)
            requires
                c > 0,
        ;
    }
    if m < 0x7f80_0000 {
        let t = twice_midpoint(m);
        let y = t * den;
        assert(t * (den * c) == y * c) by (nonlinear_arith)
            requires
                y == t * den,
        ;
        assert((x < y ==> x * c < y * c) && (x == y ==> x * c == y * c)) by (nonlinear_arith)
            requires
                c > 0,
        ;
    }
    assert(is_nearest(num * c, den * c, m));
    lemma_round_is(num * c, den * c, m);
}

/// The significand and the exponent of a finite magnitude.
pub fn decode(m: u32) -> (r: (u32, i32))
    ensures
        r.0 == significand(m as nat),
        r.1 == exponent(m as nat),
{
    let e: u32 = m / HIDDEN_BIT;
    let f: u32 = m % HIDDEN_BIT;
    if e == 0 {
        (f, 0)
    } else {
        (f + HIDDEN_BIT, (e - 1) as i32)
    }
}

/// The rounded product, from the product of the significands and the sum of
/// the exponents.
proof fn lemma_product_rounding(ma: nat, mb: nat, p: nat, e: int)
    requires
        ma < 0x7f80_0000,
        mb < 0x7f80_0000,
        p == significand(ma) * significand(mb),
        e == exponent(ma) + exponent(mb) - 149,
    ensures
        round_nearest(p * pow2(up(e)), pow2(down(e)))
            == round_nearest(scaled(ma) * scaled(mb), pow2(149)),
{
    lemma_decode(ma);
    lemma_decode(mb);
    let sa = significand(ma);
    let sb = significand(mb);
    let xa = exponent(ma);
    let xb = exponent(mb);
    let pa = pow2(xa);
    let pb = pow2(xb);
    let pe = pow2(xa + xb);
    lemma_pow2_adds(xa, xb);
    lemma_pow2_pos(xa + xb);
    lemma_pow2_pos(149);
    lemma2_to64();
    let va = scaled(ma);
    let vb = scaled(mb);
    assert(va * vb == p * pe) by (nonlinear_arith)
        requires
            va == sa * pa,
            vb == sb * pb,
            p == sa * sb,
            pe == pa * pb,
    ;
    if e >= 0 {
        let u = pow2(e as nat);
        let c = pow2(149);
        lemma_pow2_adds(e as nat, 149);
        assert(p * (u * c) == (p * u) * c) by (nonlinear_arith);
        assert(1 * c == c);
        lemma_round_scale(p * u, 1, c);
    } else {
        let d = pow2((-e) as nat);
        lemma_pow2_adds((-e) as nat, xa + xb);
        lemma_pow2_pos((-e) as nat);
        assert(p * 1 == p);
        lemma_round_scale(p, d, pe);
    }
}

/// The product of two binary32 numbers, correctly rounded.
pub fn multiply(a: u32, b: u32) -> (r: u32)
    ensures
        r == spec_multiply(a, b),
{
    let ma: u32 = a % SIGN_BIT;
    let mb: u32 = b % SIGN_BIT;
    let negative: bool = (a >= SIGN_BIT) != (b >= SIGN_BIT);
    if ma > INFINITY || mb > INFINITY {
        return QUIET_NAN;
    }
    if ma == INFINITY || mb == INFINITY {
        if ma == 0 || mb == 0 {
            return QUIET_NAN;
        }
        return if negative {
            INFINITY + SIGN_BIT
        } else {
            INFINITY
        };
    }
    if ma == 0 || mb == 0 {
        proof {
            lemma_scaled_zero(ma as nat);
            lemma_scaled_zero(mb as nat);
            lemma_scaled_zero(0);
            lemma_pow2_pos(149);
            let sa = scaled(ma as nat);
            let sb = scaled(mb as nat);
            assert(sa * sb == 0) by (nonlinear_arith)
                requires
                    sa == 0 || sb == 0,
            ;
            assert(scaled(0) * pow2(149) == 0) by (nonlinear_arith)
                requires
                    scaled(0) == 0,
            ;
            lemma_round_exact(pow2(149), 0);
        }
        return if negative {
            SIGN_BIT
        } else {
            0
        };
    }
    let (sa, xa) = decode(ma);
    let (sb, xb) = decode(mb);
    proof {
        lemma_decode(ma as nat);
        lemma_decode(mb as nat);
        lemma_scaled_zero(ma as nat);
        lemma_scaled_zero(mb as nat);
        assert(0 < sa * sb < 0x1_0000_0000_0000) by (nonlinear_arith)
            requires
                0 < sa < 0x100_0000,
                0 < sb < 0x100_0000,
        ;
    }
    let p: u64 = (sa as u64) * (sb as u64);
    let e: i32 = xa + xb - 149;
    proof {
        lemma_product_rounding(ma as nat, mb as nat, p as nat, e as int);
    }
    round_pack(negative, p, e)
}

/// Next to a number at least 2^31 times as large in exponent, an addend
/// stays under half a step: the sum rounds back to the larger number.
proof fn lemma_sum_absorbs(m: nat, w: nat, plus: bool)
    requires
        m < 0x7f80_0000,
        exponent(m) >= 31,
        0 < w < 0x100_0000 * pow2((exponent(m) - 31) as nat),
    ensures
        scaled(m) > w,
        round_nearest(
            if plus {
                scaled(m) + w
            } else {
                (scaled(m) - w) as nat
            },
            1,
        ) == m,
{
    lemma_decode(m);
    lemma2_to64();
    let x = exponent(m);
    let sig = significand(m);
    let unit = pow2((x - 31) as nat);
    let step = pow2(x);
    let half_step = pow2((x - 1) as nat);
    let v = scaled(m);
    lemma_pow2_adds(31, (x - 31) as nat);
    lemma_pow2_adds(30, (x - 31) as nat);
    lemma_pow2_pos((x - 31) as nat);
    assert(step == 0x8000_0000 * unit);
    assert(half_step == 0x4000_0000 * unit);
    assert(v >= 0x80_0000 * step) by (nonlinear_arith)
        requires
            v == sig * step,
            sig >= 0x80_0000,
            step > 0,
    ;
    assert(v * 1 == v);
    if plus {
        let num = v + w;
        lemma_pack_value(x, sig + 1);
        assert((sig + 1) * step == v + step) by (nonlinear_arith)
            requires
                v == sig * step,
        ;
        assert(m + 1 == x * 0x80_0000 + (sig + 1));
        assert(twice_midpoint(m) * 1 == v + v + step);
        assert(not_above(num, 1, m));
        lemma_nearest_from_below(num, 1, m);
        lemma_round_is(num, 1, m);
    } else {
        let num = (v - w) as nat;
        if sig > 0x80_0000 {
            lemma_pack_value(x, (sig - 1) as nat);
            assert((sig - 1) * step == v - step) by (nonlinear_arith)
                requires
                    v == sig * step,
            ;
            assert(m - 1 == x * 0x80_0000 + (sig - 1));
            assert(twice_midpoint((m - 1) as nat) * 1 == v + v - step);
        } else {
            lemma_pack_value((x - 1) as nat, 0xff_ffff);
            lemma_pow2_unfold(x);
            assert(0xff_ffff * half_step == v - half_step) by (nonlinear_arith)
                requires
                    v == 0x80_0000 * step,
                    step == 2 * half_step,
            ;
            assert(m - 1 == (x - 1) * 0x80_0000 + 0xff_ffff);
            assert(twice_midpoint((m - 1) as nat) * 1 == v + v - half_step);
        }
        assert(not_below(num, 1, m));
        lemma_nearest_from_above(num, 1, m);
        lemma_round_is(num, 1, m);
    }
}

/// The sign and the magnitude of a pattern give its number.
proof fn lemma_value_parts(a: u32)
    ensures
        is_negative(a) ==> value(a) == -(scaled(magnitude(a)) as int),
        !is_negative(a) ==> value(a) == scaled(magnitude(a)) as int,
        a == with_sign(is_negative(a), magnitude(a)),
{
}

/// The sum of two finite numbers, once their exact sum is known as a sign
/// and a positive multiple of a power of two.
proof fn lemma_sum_rounds(a: u32, b: u32, negative: bool, p: nat, x: nat)
    requires
        is_finite(a),
        is_finite(b),
        p > 0,
        negative ==> value(a) + value(b) == -(p * pow2(x)),
        !negative ==> value(a) + value(b) == p * pow2(x),
    ensures
        spec_sum(a, b) == with_sign(
            negative,
            round_nearest(p * pow2(up(x as int)), pow2(down(x as int))),
        ),
{
    lemma2_to64();
    lemma_pow2_pos(x);
    let unit = pow2(x);
    assert(p * unit > 0) by (nonlinear_arith)
        requires
            p > 0,
            unit > 0,
    ;
}

/// Adding a zero to a finite number other than zero leaves that number.
proof fn lemma_sum_with_zero(a: u32, zero: u32)
    requires
        magnitude(zero) == 0,
        0 < magnitude(a) < 0x7f80_0000,
    ensures
        spec_sum(a, zero) == a,
        spec_sum(zero, a) == a,
{
    let m = magnitude(a);
    lemma_scaled_zero(m);
    lemma_scaled_zero(0);
    lemma_round_exact(1, m);
    assert(scaled(m) * 1 == scaled(m));
    lemma_value_parts(a);
    lemma_value_parts(zero);
}

/// The sum of two finite numbers other than zero, the first with the larger
/// exponent.
fn sum_ordered(a: u32, b: u32) -> (r: u32)
    requires
        0 < magnitude(a) < 0x7f80_0000,
        0 < magnitude(b) < 0x7f80_0000,
        exponent(magnitude(a)) >= exponent(magnitude(b)),
    ensures
        r == spec_sum(a, b),
{
    let big: u32 = a % SIGN_BIT;
    let small: u32 = b % SIGN_BIT;
    let big_negative: bool = a >= SIGN_BIT;
    let small_negative: bool = b >= SIGN_BIT;
    let (s1, x1) = decode(big);
    let (s2, x2) = decode(small);
    let d: i32 = x1 - x2;
    let ghost v1 = scaled(big as nat);
    let ghost v2 = scaled(small as nat);
    let ghost unit = pow2(x2 as nat);
    proof {
        lemma_value_parts(a);
        lemma_value_parts(b);
        lemma_decode(big as nat);
        lemma_decode(small as nat);
        lemma_scaled_zero(big as nat);
        lemma_scaled_zero(small as nat);
        lemma_pow2_pos(x2 as nat);
        assert(s1 > 0 && s2 > 0) by (nonlinear_arith)
            requires
                v1 == s1 * pow2(x1 as nat),
                v2 == s2 * unit,
                v1 > 0,
                v2 > 0,
        ;
    }
    if d > 30 {
        proof {
            lemma_pow2_ordered(x2 as nat, (x1 - 31) as nat);
            let cap = pow2((x1 - 31) as nat);
            assert(v2 < 0x100_0000 * cap) by (nonlinear_arith)
                requires
                    v2 == s2 * unit,
                    s2 < 0x100_0000,
                    0 < unit <= cap,
            ;
            lemma_sum_absorbs(big as nat, v2, big_negative == small_negative);
        }
        return a;
    }
    let scale: u64 = pow2_u64(d as u32);
    proof {
        lemma2_to64();
        lemma_pow2_ordered(d as nat, 30);
        lemma_pow2_pos(d as nat);
        lemma_pow2_adds(d as nat, x2 as nat);
        assert(0 < s1 * scale < 0x40_0000_0000_0000) by (nonlinear_arith)
            requires
                0 < s1 < 0x100_0000,
                0 < scale <= 0x4000_0000,
        ;
        assert(v1 == (s1 * scale) * unit) by (nonlinear_arith)
            requires
                v1 == s1 * (scale * unit),
        ;
    }
    let shifted: u64 = (s1 as u64) * scale;
    let t2: u64 = s2 as u64;
    proof {
        assert((shifted + t2) * unit == v1 + v2) by (nonlinear_arith)
            requires
                v1 == shifted * unit,
                v2 == t2 * unit,
        ;
        assert((shifted - t2) * unit == v1 - v2) by (nonlinear_arith)
            requires
                v1 == shifted * unit,
                v2 == t2 * unit,
        ;
        assert((t2 - shifted) * unit == v2 - v1) by (nonlinear_arith)
            requires
                v1 == shifted * unit,
                v2 == t2 * unit,
        ;
    }
    if big_negative == small_negative {
        proof {
            lemma_sum_rounds(a, b, big_negative, (shifted + t2) as nat, x2 as nat);
        }
        round_pack(big_negative, shifted + t2, x2)
    } else if shifted > t2 {
        proof {
            lemma_sum_rounds(a, b, big_negative, (shifted - t2) as nat, x2 as nat);
        }
        round_pack(big_negative, shifted - t2, x2)
    } else if shifted < t2 {
        proof {
            lemma_sum_rounds(a, b, small_negative, (t2 - shifted) as nat, x2 as nat);
        }
        round_pack(small_negative, t2 - shifted, x2)
    } else {
        0
    }
}

/// The sum of two binary32 numbers, correctly rounded.
pub fn sum(a: u32, b: u32) -> (r: u32)
    ensures
        r == spec_sum(a, b),
{
    let ma: u32 = a % SIGN_BIT;
    let mb: u32 = b % SIGN_BIT;
    if ma > INFINITY || mb > INFINITY {
        return QUIET_NAN;
    }
    if ma == INFINITY {
        return if mb == INFINITY && (a >= SIGN_BIT) != (b >= SIGN_BIT) {
            QUIET_NAN
        } else {
            a
        };
    }
    if mb == INFINITY {
        return b;
    }
    if ma == 0 {
        if mb == 0 {
            proof {
                lemma_scaled_zero(0);
            }
            return if a >= SIGN_BIT && b >= SIGN_BIT {
                SIGN_BIT
            } else {
                0
            };
        }
        proof {
            lemma_sum_with_zero(b, a);
        }
        return b;
    }
    if mb == 0 {
        proof {
            lemma_sum_with_zero(a, b);
        }
        return a;
    }
    if ma / HIDDEN_BIT >= mb / HIDDEN_BIT {
        sum_ordered(a, b)
    } else {
        sum_ordered(b, a)
    }
}

/// A pattern made of a sign and a magnitude up to infinity is a number, and
/// its value is the signed number of the magnitude.
pub proof fn lemma_with_sign_value(negative: bool, m: nat)
    requires
        m <= 0x7f80_0000,
    ensures
        !spec_is_nan(with_sign(negative, m)),
        magnitude(with_sign(negative, m)) == m,
        is_negative(with_sign(negative, m)) == negative,
        negative ==> value(with_sign(negative, m)) == -(scaled(m) as int),
        !negative ==> value(with_sign(negative, m)) == scaled(m) as int,
{
}

/// The product of two finite numbers, as the sign and the magnitude it is
/// made of.
proof fn lemma_finite_product(k: u32, a: u32)
    requires
        is_finite(k),
        is_finite(a),
    ensures
        spec_multiply(k, a) == with_sign(
            is_negative(k) != is_negative(a),
            round_nearest(scaled(magnitude(k)) * scaled(magnitude(a)), pow2(149)),
        ),
        round_nearest(scaled(magnitude(k)) * scaled(magnitude(a)), pow2(149)) <= 0x7f80_0000,
        scaled(magnitude(k)) * scaled(magnitude(a)) == 0 ==> value(spec_multiply(k, a)) == 0,
{
    let num = scaled(magnitude(k)) * scaled(magnitude(a));
    lemma_pow2_pos(149);
    lemma_nearest_exists(num, pow2(149));
    lemma_with_sign_value(is_negative(k) != is_negative(a), round_nearest(num, pow2(149)));
    if num == 0 {
        lemma_scaled_zero(0);
        assert(scaled(0) * pow2(149) == 0) by (nonlinear_arith)
            requires
                scaled(0) == 0,
        ;
        lemma_round_exact(pow2(149), 0);
    }
}

/// No number lies beyond the infinities.
proof fn lemma_value_bounds(a: u32)
    requires
        !spec_is_nan(a),
    ensures
        -(scaled(0x7f80_0000) as int) <= value(a) <= scaled(0x7f80_0000),
        is_infinite(a) <==> (value(a) == scaled(0x7f80_0000) || value(a) == -(scaled(
            0x7f80_0000,
        ) as int)),
        magnitude(a) == 0 <==> value(a) == 0,
{
    lemma_scaled_order(magnitude(a), 0x7f80_0000);
    lemma_scaled_zero(magnitude(a));
}

/// Multiplying by a number that is not negative keeps the order, wherever
/// both products are numbers.
pub proof fn lemma_multiply_monotone(k: u32, a: u32, b: u32)
    requires
        value(k) >= 0,
        value(a) <= value(b),
        !spec_is_nan(spec_multiply(k, a)),
        !spec_is_nan(spec_multiply(k, b)),
    ensures
        value(spec_multiply(k, a)) <= value(spec_multiply(k, b)),
{
    lemma_value_bounds(k);
    lemma_value_bounds(a);
    lemma_value_bounds(b);
    lemma_with_sign_value(is_negative(a), 0x7f80_0000);
    lemma_with_sign_value(is_negative(b), 0x7f80_0000);
    lemma_with_sign_value(is_negative(k) != is_negative(a), 0x7f80_0000);
    lemma_with_sign_value(is_negative(k) != is_negative(b), 0x7f80_0000);
    if is_infinite(k) {
    } else if is_infinite(a) || is_infinite(b) {
        if !is_infinite(a) {
            lemma_finite_product(k, a);
            lemma_value_bounds(spec_multiply(k, a));
        }
        if !is_infinite(b) {
            lemma_finite_product(k, b);
            lemma_value_bounds(spec_multiply(k, b));
        }
    } else {
        lemma_finite_product(k, a);
        lemma_finite_product(k, b);
        let kk = scaled(magnitude(k));
        let aa = scaled(magnitude(a));
        let bb = scaled(magnitude(b));
        let ra = round_nearest(kk * aa, pow2(149));
        let rb = round_nearest(kk * bb, pow2(149));
        lemma_pow2_pos(149);
        assert(kk == 0 ==> kk * aa == 0 && kk * bb == 0) by (nonlinear_arith);
        assert(aa == 0 ==> kk * aa == 0) by (nonlinear_arith);
        assert(bb == 0 ==> kk * bb == 0) by (nonlinear_arith);
        if kk > 0 {
            if aa <= bb {
                assert(kk * aa <= kk * bb) by (nonlinear_arith)
                    requires
                        aa <= bb,
                ;
                lemma_round_monotone(kk * aa, kk * bb, pow2(149));
            }
            if bb <= aa {
                assert(kk * bb <= kk * aa) by (nonlinear_arith)
                    requires
                        bb <= aa,
                ;
                lemma_round_monotone(kk * bb, kk * aa, pow2(149));
            }
            lemma_scaled_order(ra, rb);
        }
    }
}

} // verus!
