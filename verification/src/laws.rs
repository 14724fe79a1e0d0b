//! What holds of the two conversions together: an RGB colour survives the
//! way to HSL and back unchanged, its HSL colour lies in the nominal
//! ranges, and a grey has the same RGB colour at every hue.

use vstd::prelude::*;
use crate::color::{
    byte_of, chroma_hi, chroma_lo, hsl_of_rgb, hue_of, hue_ramp, hue_times_chroma, lightness_of,
    max3, min3, rgb_of_hsl, saturation_of, wrap_turn,
};
use crate::units::{
    is_nearest, lemma_mul_bounded, lemma_round_div_between, lemma_round_div_nearest, round_div,
    CHANNEL_MAX, RAMP_UNIT, SEXTANT, TURN, UNIT,
};

verus! {

/// `c` is a value that a colour channel can take.
pub open spec fn is_channel(c: int) -> bool {
    0 <= c <= CHANNEL_MAX
}

/// How far the channel at hue `t` stands above the lower chroma bound, in
/// steps of hue: a sextant is the whole way to the upper bound.
pub open spec fn ramp_weight(t: int) -> int {
    let t = wrap_turn(t);
    if t < SEXTANT {
        t
    } else if t < 3 * SEXTANT {
        SEXTANT as int
    } else if t < 4 * SEXTANT {
        4 * SEXTANT - t
    } else {
        0
    }
}

/// The weight `w` at a channel's hue stands for the channel `c` of a
/// colour with smallest channel `lo` and chroma `d`: it lies within a
/// sextant, and `w / SEXTANT` misses `(c - lo) / d` by no more than the
/// rounding of the hue.
pub open spec fn tracks(w: int, c: int, lo: int, d: int) -> bool {
    &&& 0 <= w <= SEXTANT
    &&& -d <= 2 * (d * w - SEXTANT * (c - lo)) <= d
}

/// The bound that `lemma_chroma_close` gives on the error of a chroma
/// bound, in steps of `1 / (UNIT * UNIT)` of a channel's range times 255.
pub open spec fn chroma_slack() -> int {
    6_000_000
}

/// The ramp is the lower chroma bound plus the weight's share of the
/// distance to the upper one.
pub proof fn lemma_ramp_by_weight(p: int, q: int, t: int)
    ensures
        hue_ramp(p, q, t) == SEXTANT * p + (q - p) * ramp_weight(t),
{
    let w = ramp_weight(t);
    if w == 0 {
        assert((q - p) * w == 0) by (nonlinear_arith)
            requires
                w == 0,
        ;
    }
}

/// A grey comes back from its lightness as the channel value that it was
/// made of.
pub proof fn lemma_grey_restored(v: int)
    requires
        is_channel(v),
    ensures
        byte_of(round_div((v + v) * UNIT, 2 * CHANNEL_MAX), UNIT as int) == v,
{
    let l = round_div((v + v) * UNIT, 2 * CHANNEL_MAX);
    lemma_round_div_nearest((v + v) * UNIT, 2 * CHANNEL_MAX, 0);
    assert(is_nearest(v, CHANNEL_MAX * l, UNIT as int));
    lemma_round_div_nearest(CHANNEL_MAX * l, UNIT as int, v);
}

/// The chroma bounds that saturation and lightness of a chromatic colour
/// give miss its largest and smallest channel by less than a thousandth of
/// the channel range, and the saturation is not 0.
pub proof fn lemma_chroma_close(hi: int, lo: int, s: int, l: int)
    requires
        0 <= lo < hi <= CHANNEL_MAX,
        l == round_div((hi + lo) * UNIT, 2 * CHANNEL_MAX),
        s == round_div(
            (hi - lo) * UNIT,
            if hi + lo < CHANNEL_MAX {
                hi + lo
            } else {
                2 * CHANNEL_MAX - hi - lo
            },
        ),
    ensures
        s >= 1,
        -chroma_slack() <= CHANNEL_MAX * chroma_hi(s, l) - hi * UNIT * UNIT <= chroma_slack(),
        -chroma_slack() <= CHANNEL_MAX * chroma_lo(s, l) - lo * UNIT * UNIT <= chroma_slack(),
{
    let a = hi + lo;
    let d = hi - lo;
    let room = if a < 255 {
        a
    } else {
        510 - a
    };
    lemma_round_div_nearest(a * 10000, 510, 0);
    lemma_round_div_nearest(d * 10000, room, 0);
    lemma_round_div_between(d * 10000, room, 1, 10000);
    // What rounding added to the lightness, times 510, and to the
    // saturation, times twice the room.
    let el = 510 * l - 10000 * a;
    let es = 2 * (room * s) - 20000 * d;
    assert(-255 <= el <= 255);
    assert(-room <= es <= room) by (nonlinear_arith)
        requires
            es == 2 * (room * s) - 20000 * d,
            2 * room * s <= 2 * (d * 10000) + room < 2 * room * (s + 1),
    ;
    // The error of the upper bound is a sum of products of the two
    // rounding errors with numbers of the size of a channel.
    let q = chroma_hi(s, l);
    let eq = 255 * q - hi * 100_000_000;
    let t3 = el * es;
    lemma_mul_bounded(el, es, 255, room);
    if a < 255 {
        assert(2 * l < 10000);
        let t1 = a * es;
        let t2 = hi * el;
        lemma_mul_bounded(a, es, a, room);
        lemma_mul_bounded(hi, el, hi, 255);
        assert(a * room <= 254 * a) by (nonlinear_arith)
            requires
                0 <= a,
                room <= 254,
        ;
        assert(4 * (a * eq) == 10000 * t1 + 40000 * t2 + t3) by (nonlinear_arith)
            requires
                t1 == a * es,
                t2 == hi * el,
                t3 == el * es,
                el == 510 * l - 10000 * a,
                es == 2 * (a * s) - 20000 * d,
                d == 2 * hi - a,
                eq == 255 * q - hi * 100_000_000,
                q == l * (10000 + s),
        ;
        assert(-3_250_000 <= eq <= 3_250_000) by (nonlinear_arith)
            requires
                a > 0,
                -(13_000_000 * a) <= 4 * (a * eq) <= 13_000_000 * a,
        ;
    } else {
        assert(2 * l >= 10000);
        let gap = room - d;
        let t1 = el * gap;
        let t2 = room * es;
        lemma_mul_bounded(el, gap, 255, room);
        lemma_mul_bounded(room, es, room, room);
        assert(room * room <= 255 * room) by (nonlinear_arith)
            requires
                0 <= room <= 255,
        ;
        assert(4 * (room * eq) == 20000 * t1 + 10000 * t2 - t3) by (nonlinear_arith)
            requires
                t1 == el * gap,
                t2 == room * es,
                t3 == el * es,
                gap == room - d,
                room == 510 - a,
                el == 510 * l - 10000 * a,
                es == 2 * (room * s) - 20000 * d,
                d == 2 * hi - a,
                eq == 255 * q - hi * 100_000_000,
                q == (l + s) * 10000 - l * s,
        ;
        assert(-3_250_000 <= eq <= 3_250_000) by (nonlinear_arith)
            requires
                room > 0,
                -(13_000_000 * room) <= 4 * (room * eq) <= 13_000_000 * room,
        ;
    }
    // The lower bound lies as far from the lightness as the upper one, so
    // its error is that of the upper bound and of the lightness.
    assert(hi * UNIT * UNIT == hi * 100_000_000);
    assert(lo * UNIT * UNIT == lo * 100_000_000);
}

/// A channel comes back from chroma bounds that are close to the largest
/// and smallest channel and a weight that tracks it.
pub proof fn lemma_channel_restored(c: int, lo: int, hi: int, p: int, q: int, w: int)
    requires
        0 <= lo <= c <= hi <= CHANNEL_MAX,
        lo < hi,
        -chroma_slack() <= CHANNEL_MAX * q - hi * UNIT * UNIT <= chroma_slack(),
        -chroma_slack() <= CHANNEL_MAX * p - lo * UNIT * UNIT <= chroma_slack(),
        tracks(w, c, lo, hi - lo),
    ensures
        byte_of(SEXTANT * p + (q - p) * w, RAMP_UNIT as int) == c,
{
    let d = hi - lo;
    let ep = 255 * p - lo * 100_000_000;
    let eq = 255 * q - hi * 100_000_000;
    let eh = 2 * (d * w - 6000 * (c - lo));
    let n = 6000 * p + (q - p) * w;
    let den = 600_000_000_000int;
    // The errors of the two bounds enter with the weights that the bounds
    // have, the error of the hue with the whole denominator.
    let t1 = (6000 - w) * ep;
    let t2 = w * eq;
    lemma_mul_bounded(6000 - w, ep, 6000, 6_000_000);
    lemma_mul_bounded(w, eq, 6000, 6_000_000);
    assert(2 * (255 * n) - 2 * (den * c) == 100_000_000 * eh + 2 * t1 + 2 * t2)
        by (nonlinear_arith)
        requires
            d == hi - lo,
            ep == 255 * p - lo * 100_000_000,
            eq == 255 * q - hi * 100_000_000,
            eh == 2 * (d * w - 6000 * (c - lo)),
            n == 6000 * p + (q - p) * w,
            den == 600_000_000_000,
            t1 == (6000 - w) * ep,
            t2 == w * eq,
    ;
    assert(2 * den * c == 2 * (den * c) && 2 * den * (c + 1) == 2 * (den * c) + 2 * den)
        by (nonlinear_arith);
    assert(is_nearest(c, 255 * n, den));
    lemma_round_div_nearest(255 * n, den, c);
}

/// At the three hues at which an HSL colour's channels stand, the weights
/// track the channels of the RGB colour whose hue it is.
pub proof fn lemma_weights_track_channels(r: int, g: int, b: int)
    requires
        is_channel(r),
        is_channel(g),
        is_channel(b),
        max3(r, g, b) > min3(r, g, b),
    ensures
        tracks(
            ramp_weight(hue_of(r, g, b) + 2 * SEXTANT),
            r,
            min3(r, g, b),
            max3(r, g, b) - min3(r, g, b),
        ),
        tracks(ramp_weight(hue_of(r, g, b)), g, min3(r, g, b), max3(r, g, b) - min3(r, g, b)),
        tracks(
            ramp_weight(hue_of(r, g, b) - 2 * SEXTANT),
            b,
            min3(r, g, b),
            max3(r, g, b) - min3(r, g, b),
        ),
{
    let hi = max3(r, g, b);
    let lo = min3(r, g, b);
    let d = hi - lo;
    let hd = hue_times_chroma(r, g, b);
    let h = hue_of(r, g, b);
    // The rounded hue times the chroma misses the exact product by half
    // the chroma at most.
    let x = d * h;
    lemma_round_div_nearest(hd, d, 0);
    assert(2 * d * h == 2 * x && 2 * d * (h + 1) == 2 * x + 2 * d) by (nonlinear_arith)
        requires
            x == d * h,
    ;
    assert(-d <= 2 * (x - hd) <= d);
    let wr = ramp_weight(h + 2 * SEXTANT);
    let wg = ramp_weight(h);
    let wb = ramp_weight(h - 2 * SEXTANT);
    if hi == r {
        if g >= b {
            lemma_round_div_between(hd, d, 0, 6000);
            assert(wr == 6000 && wg == h && wb == 0);
        } else {
            lemma_round_div_between(hd, d, 30000, 36000);
            assert(wr == 6000 && wg == 0 && wb == 36000 - h);
            assert(d * wb == 36000 * d - x) by (nonlinear_arith)
                requires
                    wb == 36000 - h,
                    x == d * h,
            ;
        }
    } else if hi == g {
        if b >= r {
            lemma_round_div_between(hd, d, 12000, 18000);
            assert(wr == 0 && wg == 6000 && wb == h - 12000);
            assert(d * wb == x - 12000 * d) by (nonlinear_arith)
                requires
                    wb == h - 12000,
                    x == d * h,
            ;
        } else {
            lemma_round_div_between(hd, d, 6000, 12000);
            assert(wr == 12000 - h && wg == 6000 && wb == 0);
            assert(d * wr == 12000 * d - x) by (nonlinear_arith)
                requires
                    wr == 12000 - h,
                    x == d * h,
            ;
        }
    } else {
        if r >= g {
            lemma_round_div_between(hd, d, 24000, 30000);
            assert(wr == h - 24000 && wg == 0 && wb == 6000);
            assert(d * wr == x - 24000 * d) by (nonlinear_arith)
                requires
                    wr == h - 24000,
                    x == d * h,
            ;
        } else {
            lemma_round_div_between(hd, d, 18000, 24000);
            assert(wr == 0 && wg == 24000 - h && wb == 6000);
            assert(d * wg == 24000 * d - x) by (nonlinear_arith)
                requires
                    wg == 24000 - h,
                    x == d * h,
            ;
        }
    }
    assert(d * 0 == 0 && d * 6000 == 6000 * d);
}

/// Round trip: the HSL colour of an RGB colour converts back to that RGB
/// colour, channel for channel.
pub proof fn lemma_round_trip(r: int, g: int, b: int)
    requires
        is_channel(r),
        is_channel(g),
        is_channel(b),
    ensures
        rgb_of_hsl(hue_of(r, g, b), saturation_of(r, g, b), lightness_of(r, g, b)) == (r, g, b),
{
    let hi = max3(r, g, b);
    let lo = min3(r, g, b);
    let h = hue_of(r, g, b);
    let s = saturation_of(r, g, b);
    let l = lightness_of(r, g, b);
    if hi == lo {
        lemma_grey_restored(hi);
    } else {
        lemma_chroma_close(hi, lo, s, l);
        lemma_weights_track_channels(r, g, b);
        let q = chroma_hi(s, l);
        let p = chroma_lo(s, l);
        lemma_ramp_by_weight(p, q, h + 2 * SEXTANT);
        lemma_ramp_by_weight(p, q, h);
        lemma_ramp_by_weight(p, q, h - 2 * SEXTANT);
        lemma_channel_restored(r, lo, hi, p, q, ramp_weight(h + 2 * SEXTANT));
        lemma_channel_restored(g, lo, hi, p, q, ramp_weight(h));
        lemma_channel_restored(b, lo, hi, p, q, ramp_weight(h - 2 * SEXTANT));
    }
}

/// Ranges: the HSL colour of an RGB colour has its hue within the turn,
/// short of its end, and saturation and lightness between 0 and the unit.
pub proof fn lemma_hsl_in_range(r: int, g: int, b: int)
    requires
        is_channel(r),
        is_channel(g),
        is_channel(b),
    ensures
        0 <= hue_of(r, g, b) < TURN,
        0 <= saturation_of(r, g, b) <= UNIT,
        0 <= lightness_of(r, g, b) <= UNIT,
{
    let hi = max3(r, g, b);
    let lo = min3(r, g, b);
    let d = hi - lo;
    lemma_round_div_between((hi + lo) * UNIT, 2 * CHANNEL_MAX, 0, UNIT as int);
    if d > 0 {
        let room = if hi + lo < CHANNEL_MAX {
            hi + lo
        } else {
            2 * CHANNEL_MAX - hi - lo
        };
        lemma_round_div_between(d * UNIT, room, 0, UNIT as int);
        let hd = hue_times_chroma(r, g, b);
        let h = hue_of(r, g, b);
        lemma_round_div_between(hd, d, 0, TURN as int);
        lemma_round_div_nearest(hd, d, 0);
        assert(h < 36000) by (nonlinear_arith)
            requires
                0 < d <= 255,
                hd <= 36000 * d - 6000,
                2 * d * h <= 2 * hd + d,
        ;
    }
}

/// Saturation is 0 for the greys and for no other RGB colour.
pub proof fn lemma_grey_alone_unsaturated(r: int, g: int, b: int)
    requires
        is_channel(r),
        is_channel(g),
        is_channel(b),
    ensures
        saturation_of(r, g, b) == 0 <==> r == g && g == b,
{
    let hi = max3(r, g, b);
    let lo = min3(r, g, b);
    if hi > lo {
        let room = if hi + lo < CHANNEL_MAX {
            hi + lo
        } else {
            2 * CHANNEL_MAX - hi - lo
        };
        lemma_round_div_between((hi - lo) * UNIT, room, 1, UNIT as int);
    }
}

/// The chroma bounds of a colour whose saturation and lightness are in
/// their nominal ranges stand in their order within the channel range, so
/// that no channel of it has to be held within a byte.
pub proof fn lemma_chroma_bounds_nominal(s: int, l: int)
    requires
        0 <= s <= UNIT,
        0 <= l <= UNIT,
    ensures
        0 <= chroma_lo(s, l) <= chroma_hi(s, l) <= UNIT * UNIT,
{
    let ls = l * s;
    if 2 * l < UNIT {
        assert(0 <= ls <= 10000 * l) by (nonlinear_arith)
            requires
                ls == l * s,
                0 <= l,
                0 <= s <= 10000,
        ;
        assert(l * (10000 + s) == 10000 * l + ls) by (nonlinear_arith)
            requires
                ls == l * s,
        ;
    } else {
        let rest = (10000 - l) * s;
        assert(0 <= rest <= 10000 * (10000 - l)) by (nonlinear_arith)
            requires
                rest == (10000 - l) * s,
                0 <= 10000 - l,
                0 <= s <= 10000,
        ;
        assert((l + s) * 10000 - l * s == 10000 * l + rest) by (nonlinear_arith)
            requires
                rest == (10000 - l) * s,
        ;
    }
}

/// A grey has no hue: an RGB colour whose channels are equal has hue 0 and
/// saturation 0, and its lightness is the channel as a part of 255.
pub proof fn lemma_grey_has_no_hue(v: int)
    requires
        is_channel(v),
    ensures
        hsl_of_rgb(v, v, v) == (0int, 0int, round_div(v * UNIT, CHANNEL_MAX as int)),
{
    let l = round_div(v * UNIT, CHANNEL_MAX as int);
    lemma_round_div_nearest(v * UNIT, CHANNEL_MAX as int, 0);
    lemma_round_div_nearest((v + v) * UNIT, 2 * CHANNEL_MAX, l);
}

/// Saturation 0: whatever their hues, two colours of saturation 0 and the
/// same lightness have the same RGB colour, and it is a grey.
pub proof fn lemma_grey_ignores_hue(h1: int, h2: int, l: int)
    ensures
        rgb_of_hsl(h1, 0, l) == rgb_of_hsl(h2, 0, l),
        rgb_of_hsl(h1, 0, l).0 == rgb_of_hsl(h1, 0, l).1,
        rgb_of_hsl(h1, 0, l).1 == rgb_of_hsl(h1, 0, l).2,
{
}

} // verus!
