//! IEEE-754 binary32 numbers as bit patterns: classification, the number a
//! pattern stands for, and the ordering of patterns by that number.
//!
//! Every finite binary32 number is an integer multiple of 2^-149, the
//! smallest subnormal. [`value`] gives that integer, which turns comparisons
//! and exact sums into integer arithmetic.

use vstd::prelude::*;
use vstd::arithmetic::power2::{
    lemma2_to64, lemma_pow2_pos, lemma_pow2_strictly_increases, lemma_pow2_unfold, pow2,
};

verus! {

/// The sign bit of a pattern.
pub const SIGN_BIT: u32 = 0x8000_0000;

/// The pattern of positive infinity; as a magnitude, the first one that is
/// not finite.
pub const INFINITY: u32 = 0x7f80_0000;

/// The NaN that arithmetic here returns whenever a result is not a number.
pub const QUIET_NAN: u32 = 0x7fc0_0000;

/// Two to the number of stored fraction bits.
pub const HIDDEN_BIT: u32 = 0x0080_0000;

/// The pattern without its sign bit.
pub open spec fn magnitude(x: u32) -> nat {
    (x % 0x8000_0000) as nat
}

/// Whether the sign bit is set (true of `-0.0` too).
pub open spec fn is_negative(x: u32) -> bool {
    x >= 0x8000_0000
}

pub open spec fn spec_is_nan(x: u32) -> bool {
    magnitude(x) > 0x7f80_0000
}

pub open spec fn is_infinite(x: u32) -> bool {
    magnitude(x) == 0x7f80_0000
}

pub open spec fn is_finite(x: u32) -> bool {
    magnitude(x) < 0x7f80_0000
}

/// The number with exponent field `e` and fraction field `f`, counted in
/// units of 2^-149.
pub open spec fn grid(e: nat, f: nat) -> nat {
    if e == 0 {
        f
    } else {
        (0x80_0000 + f) * pow2((e - 1) as nat)
    }
}

/// The number that a magnitude stands for, in units of 2^-149. At
/// [`INFINITY`] it is 2^277, that is 2^128: the point from which rounding
/// overflows.
#[verifier::opaque]
pub open spec fn scaled(m: nat) -> nat {
    grid(m / 0x80_0000, m % 0x80_0000)
}

/// The signed number that a pattern other than NaN stands for, in units of
/// 2^-149. Both zeros stand for 0, the infinities for plus and minus 2^277.
pub open spec fn value(x: u32) -> int {
    if is_negative(x) {
        -(scaled(magnitude(x)) as int)
    } else {
        scaled(magnitude(x)) as int
    }
}

/// The pattern with the given sign and magnitude.
pub open spec fn with_sign(negative: bool, m: nat) -> u32
    recommends
        m < 0x8000_0000,
{
    if negative {
        (m + 0x8000_0000) as u32
    } else {
        m as u32
    }
}

/// IEEE-754 `a >= b`: false as soon as either side is NaN.
pub open spec fn spec_ge(a: u32, b: u32) -> bool {
    !spec_is_nan(a) && !spec_is_nan(b) && value(a) >= value(b)
}

/// IEEE-754 `a > b`: false as soon as either side is NaN.
pub open spec fn spec_gt(a: u32, b: u32) -> bool {
    !spec_is_nan(a) && !spec_is_nan(b) && value(a) > value(b)
}

/// IEEE-754 `maxNum`: a NaN operand is ignored in favour of the other one;
/// of two equal numbers the first is returned.
pub open spec fn spec_max_num(a: u32, b: u32) -> u32 {
    if spec_is_nan(a) {
        b
    } else if spec_is_nan(b) {
        a
    } else if value(a) < value(b) {
        b
    } else {
        a
    }
}

/// IEEE-754 `minNum`: a NaN operand is ignored in favour of the other one;
/// of two equal numbers the first is returned.
pub open spec fn spec_min_num(a: u32, b: u32) -> u32 {
    if spec_is_nan(a) {
        b
    } else if spec_is_nan(b) {
        a
    } else if value(b) < value(a) {
        b
    } else {
        a
    }
}

/// `x` held to the range from `lo` to `hi`: `min(hi, max(lo, x))`.
pub open spec fn spec_clamp(x: u32, lo: u32, hi: u32) -> u32 {
    spec_min_num(hi, spec_max_num(lo, x))
}

/// Within one exponent the numbers stay below the next power of two, and
/// from exponent 1 on they start at the previous one.
pub proof fn lemma_grid_bounds(e: nat, f: nat)
    requires
        f < 0x80_0000,
    ensures
        grid(e, f) < 0x80_0000 * pow2(e),
        e >= 1 ==> grid(e, f) >= 0x80_0000 * pow2((e - 1) as nat),
{
    if e == 0 {
        lemma2_to64();
    } else {
        lemma_pow2_unfold(e);
        lemma_pow2_pos((e - 1) as nat);
        let p = pow2((e - 1) as nat);
        assert((0x80_0000 + f) * p < 0x100_0000 * p) by (nonlinear_arith)
            requires
                f < 0x80_0000,
                p > 0,
        ;
        assert((0x80_0000 + f) * p >= 0x80_0000 * p) by (nonlinear_arith)
            requires
                p > 0,
        ;
        assert(0x80_0000 * (2 * p) == 0x100_0000 * p) by (nonlinear_arith);
    }
}

/// A larger magnitude stands for a larger number.
pub proof fn lemma_scaled_increases(m1: nat, m2: nat)
    requires
        m1 < m2,
    ensures
        scaled(m1) < scaled(m2),
{
    reveal(scaled);
    let e1 = m1 / 0x80_0000;
    let f1 = m1 % 0x80_0000;
    let e2 = m2 / 0x80_0000;
    let f2 = m2 % 0x80_0000;
    if e1 == e2 {
        if e1 > 0 {
            let p = pow2((e1 - 1) as nat);
            lemma_pow2_pos((e1 - 1) as nat);
            assert((0x80_0000 + f1) * p < (0x80_0000 + f2) * p) by (nonlinear_arith)
                requires
                    f1 < f2,
                    p > 0,
            ;
        }
    } else {
        lemma_grid_bounds(e1, f1);
        lemma_grid_bounds(e2, f2);
        if e1 < e2 - 1 {
            lemma_pow2_strictly_increases(e1, (e2 - 1) as nat);
        }
        let p1 = pow2(e1);
        let p2 = pow2((e2 - 1) as nat);
        assert(0x80_0000 * p1 <= 0x80_0000 * p2) by (nonlinear_arith)
            requires
                p1 <= p2,
        ;
    }
}

/// Only the magnitude zero stands for the number zero.
pub proof fn lemma_scaled_zero(m: nat)
    ensures
        scaled(m) == 0 <==> m == 0,
{
    reveal(scaled);
    if m > 0 {
        lemma_scaled_increases(0, m);
    }
}

/// Magnitudes are ordered as the numbers they stand for.
pub proof fn lemma_scaled_order(m1: nat, m2: nat)
    ensures
        m1 < m2 <==> scaled(m1) < scaled(m2),
        m1 == m2 <==> scaled(m1) == scaled(m2),
{
    if m1 < m2 {
        lemma_scaled_increases(m1, m2);
    } else if m2 < m1 {
        lemma_scaled_increases(m2, m1);
    }
}

pub fn is_nan(x: u32) -> (r: bool)
    ensures
        r == spec_is_nan(x),
{
    x % SIGN_BIT > INFINITY
}

/// IEEE-754 `a >= b` on bit patterns.
pub fn ge(a: u32, b: u32) -> (r: bool)
    ensures
        r == spec_ge(a, b),
{
    if is_nan(a) || is_nan(b) {
        return false;
    }
    let ma: u32 = a % SIGN_BIT;
    let mb: u32 = b % SIGN_BIT;
    proof {
        lemma_scaled_order(ma as nat, mb as nat);
        lemma_scaled_zero(ma as nat);
        lemma_scaled_zero(mb as nat);
    }
    if a >= SIGN_BIT {
        if b >= SIGN_BIT {
            ma <= mb
        } else {
            ma == 0 && mb == 0
        }
    } else {
        if b >= SIGN_BIT {
            true
        } else {
            ma >= mb
        }
    }
}

/// IEEE-754 `a > b` on bit patterns.
pub fn gt(a: u32, b: u32) -> (r: bool)
    ensures
        r == spec_gt(a, b),
{
    if is_nan(a) || is_nan(b) {
        return false;
    }
    let ma: u32 = a % SIGN_BIT;
    let mb: u32 = b % SIGN_BIT;
    proof {
        lemma_scaled_order(ma as nat, mb as nat);
        lemma_scaled_zero(ma as nat);
        lemma_scaled_zero(mb as nat);
    }
    if a >= SIGN_BIT {
        if b >= SIGN_BIT {
            ma < mb
        } else {
            false
        }
    } else {
        if b >= SIGN_BIT {
            ma != 0 || mb != 0
        } else {
            ma > mb
        }
    }
}

/// IEEE-754 `maxNum` on bit patterns.
pub fn max_num(a: u32, b: u32) -> (r: u32)
    ensures
        r == spec_max_num(a, b),
{
    if is_nan(a) {
        b
    } else if is_nan(b) {
        a
    } else if gt(b, a) {
        b
    } else {
        a
    }
}

/// IEEE-754 `minNum` on bit patterns.
pub fn min_num(a: u32, b: u32) -> (r: u32)
    ensures
        r == spec_min_num(a, b),
{
    if is_nan(a) {
        b
    } else if is_nan(b) {
        a
    } else if gt(a, b) {
        b
    } else {
        a
    }
}

/// `min(hi, max(lo, x))` on bit patterns.
pub fn clamp(x: u32, lo: u32, hi: u32) -> (r: u32)
    ensures
        r == spec_clamp(x, lo, hi),
{
    min_num(hi, max_num(lo, x))
}

} // verus!
