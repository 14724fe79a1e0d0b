//! The fixed-point units in which hue, saturation and lightness are held,
//! and division rounded to the nearest integer.

use vstd::prelude::*;

verus! {

/// Steps of saturation or lightness that make up the whole range from 0 to 1.
#[verifier::inline]
pub const UNIT: i64 = 10000;

/// Steps of hue in a full turn: one step is a hundredth of a degree.
#[verifier::inline]
pub const TURN: i64 = 36000;

/// Steps of hue in one sixth of a turn.
#[verifier::inline]
pub const SEXTANT: i64 = 6000;

/// The largest value of a colour channel.
#[verifier::inline]
pub const CHANNEL_MAX: i64 = 255;

/// The denominator of a channel's intensity as `hue_to_rgb` yields it: a
/// sextant for the hue, and the unit once each for saturation and
/// lightness.
#[verifier::inline]
pub const RAMP_UNIT: i128 = 600_000_000_000;

/// The largest denominator that `percent_to_byte` takes.
pub const DENOMINATOR_LIMIT: i128 = 1_000_000_000_000_000;

/// The largest magnitude of a chroma bound that `hue_to_rgb` takes: more
/// than any that saturation and lightness in `i32` give.
pub const CHROMA_LIMIT: i128 = 0x1_0000_0000_0000_0000;

/// The largest magnitude of a hue that `hue_to_rgb` takes: more than any
/// hue in `i32` a third of a turn further.
pub const HUE_LIMIT: i64 = 0x1_0000_0000;

/// `q` is the integer nearest to `a / b`, a tie going to the larger one.
pub open spec fn is_nearest(q: int, a: int, b: int) -> bool {
    2 * b * q <= 2 * a + b < 2 * b * (q + 1)
}

/// The integer nearest to `a / b` for a positive `b`, a tie going upward:
/// the quotient, and one more where the remainder is half of `b` or more.
///
/// Verus evaluates a division only where the divisor is a literal. To
/// learn what a rounded quotient is on given numbers, hand the expected
/// one to `lemma_round_div_nearest`, or assert it `by (nonlinear_arith)`.
pub open spec fn round_div(a: int, b: int) -> int {
    if 2 * (a % b) >= b {
        a / b + 1
    } else {
        a / b
    }
}

/// `round_div` yields the nearest integer, and nothing else is nearest.
pub proof fn lemma_round_div_nearest(a: int, b: int, q: int)
    requires
        b > 0,
    ensures
        is_nearest(round_div(a, b), a, b),
        is_nearest(q, a, b) ==> q == round_div(a, b),
{
    let p = round_div(a, b);
    let k = a / b;
    vstd::arithmetic::div_mod::lemma_fundamental_div_mod(a, b);
    vstd::arithmetic::div_mod::lemma_mod_bound(a, b);
    assert(2 * b * p == 2 * (b * k) + 2 * b * (p - k) && 2 * b * (p + 1) == 2 * b * p + 2 * b)
        by (nonlinear_arith);
    assert(2 * b * (p - k) == if p == k {
        0
    } else {
        2 * b
    }) by (nonlinear_arith)
        requires
            p == k || p == k + 1,
    ;
    if is_nearest(q, a, b) {
        assert(q == p) by (nonlinear_arith)
            requires
                b > 0,
                2 * b * q <= 2 * a + b < 2 * b * (q + 1),
                2 * b * p <= 2 * a + b < 2 * b * (p + 1),
        ;
    }
}

/// A quotient rounded to nearest lies between any two integers that
/// enclose the exact quotient.
pub proof fn lemma_round_div_between(a: int, b: int, lo: int, hi: int)
    requires
        b > 0,
        lo * b <= a <= hi * b,
    ensures
        lo <= round_div(a, b) <= hi,
{
    let q = round_div(a, b);
    lemma_round_div_nearest(a, b, 0);
    assert(lo <= q <= hi) by (nonlinear_arith)
        requires
            b > 0,
            lo * b <= a <= hi * b,
            2 * b * q <= 2 * a + b < 2 * b * (q + 1),
    ;
}

/// The product of two bounded integers is bounded by the product of the
/// bounds.
pub proof fn lemma_mul_bounded(x: int, y: int, bx: int, by: int)
    requires
        -bx <= x <= bx,
        -by <= y <= by,
    ensures
        -(bx * by) <= x * y <= bx * by,
{
    assert(-(bx * by) <= x * y <= bx * by) by (nonlinear_arith)
        requires
            -bx <= x <= bx,
            -by <= y <= by,
    ;
}

/// Divides `a` by `b` and rounds to the nearest integer, a tie going
/// upward.
pub fn div_round(a: i64, b: i64) -> (q: i64)
    requires
        0 < b <= u32::MAX,
        0 <= a <= u32::MAX,
    ensures
        q == round_div(a as int, b as int),
        is_nearest(q as int, a as int, b as int),
{
    proof {
        lemma_round_div_nearest(a as int, b as int, 0);
        assert((a + 1) * b >= a) by (nonlinear_arith)
            requires
                a >= 0,
                b >= 1,
        ;
        lemma_round_div_between(a as int, b as int, 0, a as int + 1);
    }
    if 2 * (a % b) >= b {
        a / b + 1
    } else {
        a / b
    }
}

} // verus!
