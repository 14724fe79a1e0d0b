//! The HSL colour type and its conversions from and to RGB.

use vstd::prelude::*;
use crate::laws::{lemma_grey_alone_unsaturated, lemma_hsl_in_range};
use crate::units::{
    div_round, lemma_mul_bounded, lemma_round_div_between, round_div, CHANNEL_MAX, CHROMA_LIMIT,
    DENOMINATOR_LIMIT, HUE_LIMIT, RAMP_UNIT, SEXTANT, TURN, UNIT,
};

verus! {

/// A colour in HSL, in fixed point.
#[derive(Clone, Copy, Debug, PartialEq, Eq, Structural, PartialOrd)]
pub struct HSL {
    /// Hue in hundredths of a degree: 0 to 35999 go once round the wheel.
    pub h: i32,
    /// Saturation in ten-thousandths: 0 is grey, 10000 fully saturated.
    pub s: i32,
    /// Lightness in ten-thousandths: 0 is black, 10000 white.
    pub l: i32,
}

impl View for HSL {
    type V = (int, int, int);

    /// Hue, saturation and lightness as mathematical integers.
    open spec fn view(&self) -> (int, int, int) {
        (self.h as int, self.s as int, self.l as int)
    }
}

impl HSL {
    /// The colour lies in the nominal ranges: its hue within the turn and
    /// short of its end, its saturation and lightness between 0 and the
    /// unit.
    pub open spec fn is_nominal(self) -> bool {
        &&& 0 <= self.h < TURN
        &&& 0 <= self.s <= UNIT
        &&& 0 <= self.l <= UNIT
    }
}

impl Default for HSL {
    /// Black.
    fn default() -> (out: HSL)
        ensures
            out@ == (0int, 0int, 0int),
    {
        HSL { h: 0, s: 0, l: 0 }
    }
}

/// The largest of three channels.
pub open spec fn max3(r: int, g: int, b: int) -> int {
    if r >= g && r >= b {
        r
    } else if g >= b {
        g
    } else {
        b
    }
}

/// The smallest of three channels.
pub open spec fn min3(r: int, g: int, b: int) -> int {
    if r <= g && r <= b {
        r
    } else if g <= b {
        g
    } else {
        b
    }
}

/// Lightness of an RGB colour: the mean of its largest and smallest
/// channel as a part of 255, rounded to the nearest step.
pub open spec fn lightness_of(r: int, g: int, b: int) -> int {
    round_div((max3(r, g, b) + min3(r, g, b)) * UNIT, 2 * CHANNEL_MAX)
}

/// Saturation of an RGB colour: its chroma `max - min` as a part of the
/// largest chroma that its lightness allows, rounded to the nearest step;
/// 0 for a grey.
pub open spec fn saturation_of(r: int, g: int, b: int) -> int {
    let hi = max3(r, g, b);
    let lo = min3(r, g, b);
    if hi == lo {
        0
    } else if hi + lo < CHANNEL_MAX {
        round_div((hi - lo) * UNIT, hi + lo)
    } else {
        round_div((hi - lo) * UNIT, 2 * CHANNEL_MAX - hi - lo)
    }
}

/// The exact hue of an RGB colour in steps, multiplied by its chroma
/// `max - min`. The sextant is chosen by the largest channel, red before
/// green before blue where two are equal, and the place within it by the
/// difference of the other two.
pub open spec fn hue_times_chroma(r: int, g: int, b: int) -> int {
    let hi = max3(r, g, b);
    let d = hi - min3(r, g, b);
    if hi == r {
        if g >= b {
            SEXTANT * (g - b)
        } else {
            TURN * d - SEXTANT * (b - g)
        }
    } else if hi == g {
        2 * SEXTANT * d + SEXTANT * (b - r)
    } else {
        4 * SEXTANT * d + SEXTANT * (r - g)
    }
}

/// Hue of an RGB colour, rounded to the nearest step; 0 for a grey.
pub open spec fn hue_of(r: int, g: int, b: int) -> int {
    let d = max3(r, g, b) - min3(r, g, b);
    if d == 0 {
        0
    } else {
        round_div(hue_times_chroma(r, g, b), d)
    }
}

/// The HSL colour of an RGB colour, as (hue, saturation, lightness).
pub open spec fn hsl_of_rgb(r: int, g: int, b: int) -> (int, int, int) {
    (hue_of(r, g, b), saturation_of(r, g, b), lightness_of(r, g, b))
}

/// For channels that are not all equal the exact hue lies within the turn,
/// short of its end by a sextant divided by the chroma or more.
pub proof fn lemma_hue_times_chroma_bounds(r: int, g: int, b: int)
    requires
        0 <= r <= CHANNEL_MAX,
        0 <= g <= CHANNEL_MAX,
        0 <= b <= CHANNEL_MAX,
        max3(r, g, b) > min3(r, g, b),
    ensures
        0 <= hue_times_chroma(r, g, b) <= TURN * (max3(r, g, b) - min3(r, g, b)) - SEXTANT,
{
}

/// The fraction `n / den` of the full channel range as a channel value:
/// 255 times the fraction, rounded to the nearest integer and held within
/// 0 and 255.
pub open spec fn byte_of(n: int, den: int) -> int {
    let v = round_div(CHANNEL_MAX * n, den);
    if v < 0 {
        0
    } else if v > CHANNEL_MAX {
        CHANNEL_MAX as int
    } else {
        v
    }
}

/// The upper chroma bound of a colour, in steps of `1 / (UNIT * UNIT)`:
/// the intensity of its strongest channel.
pub open spec fn chroma_hi(s: int, l: int) -> int {
    if 2 * l < UNIT {
        l * (UNIT + s)
    } else {
        (l + s) * UNIT - l * s
    }
}

/// The lower chroma bound of a colour, in steps of `1 / (UNIT * UNIT)`:
/// as far below the lightness as the upper bound is above it.
pub open spec fn chroma_lo(s: int, l: int) -> int {
    2 * l * UNIT - chroma_hi(s, l)
}

/// A hue brought back by one turn where it lies outside the turn.
pub open spec fn wrap_turn(t: int) -> int {
    if t < 0 {
        t + TURN
    } else if t > TURN {
        t - TURN
    } else {
        t
    }
}

/// The intensity of the channel that stands at hue `t`, in sixthousandths
/// of the steps of the chroma bounds `p` and `q`: it rises from `p` to `q`
/// over the first sextant, stays at `q` for two, falls back to `p` over
/// the fourth and stays there.
pub open spec fn hue_ramp(p: int, q: int, t: int) -> int {
    let t = wrap_turn(t);
    if t < SEXTANT {
        SEXTANT * p + (q - p) * t
    } else if t < 3 * SEXTANT {
        SEXTANT * q
    } else if t < 4 * SEXTANT {
        SEXTANT * p + (q - p) * (4 * SEXTANT - t)
    } else {
        SEXTANT * p
    }
}

/// The RGB colour of an HSL colour, as (red, green, blue). A colour of
/// saturation 0 is the grey of its lightness, whatever its hue. Of any
/// other, red stands a third of a turn ahead of the hue, green at the hue
/// and blue a third of a turn behind.
pub open spec fn rgb_of_hsl(h: int, s: int, l: int) -> (int, int, int) {
    if s == 0 {
        let v = byte_of(l, UNIT as int);
        (v, v, v)
    } else {
        let q = chroma_hi(s, l);
        let p = chroma_lo(s, l);
        (
            byte_of(hue_ramp(p, q, h + 2 * SEXTANT), RAMP_UNIT as int),
            byte_of(hue_ramp(p, q, h), RAMP_UNIT as int),
            byte_of(hue_ramp(p, q, h - 2 * SEXTANT), RAMP_UNIT as int),
        )
    }
}

/// Between chroma bounds in their order, at a hue no more than a turn
/// outside the turn, the intensity lies between the bounds.
pub proof fn lemma_ramp_within_bounds(p: int, q: int, t: int)
    ensures
        p <= q && -TURN <= t <= 2 * TURN ==> SEXTANT * p <= hue_ramp(p, q, t) <= SEXTANT * q,
{
    let u = wrap_turn(t);
    if p <= q && -TURN <= t <= 2 * TURN {
        if u < SEXTANT {
            assert(0 <= (q - p) * u <= 6000 * (q - p)) by (nonlinear_arith)
                requires
                    0 <= u <= 6000,
                    p <= q,
            ;
        } else if 3 * SEXTANT <= u < 4 * SEXTANT {
            let v = 4 * SEXTANT - u;
            assert(0 <= (q - p) * v <= 6000 * (q - p)) by (nonlinear_arith)
                requires
                    0 <= v <= 6000,
                    p <= q,
            ;
        }
    }
}

/// Converts the fraction `n / den` of the full channel range to a byte:
/// 255 times the fraction, rounded to the nearest integer, and 0 or 255
/// where that lies outside a byte.
pub fn percent_to_byte(n: i128, den: i128) -> (out: u8)
    requires
        0 < den <= DENOMINATOR_LIMIT,
    ensures
        out == byte_of(n as int, den as int),
{
    if n <= 0 {
        proof {
            assert(255 * n * den <= 255 * n) by (nonlinear_arith)
                requires
                    n <= 0,
                    den >= 1,
            ;
            lemma_round_div_between(255 * n, den as int, 255 * n, 0);
        }
        0
    } else if n >= den {
        proof {
            assert(255 * n <= 255 * n * den) by (nonlinear_arith)
                requires
                    n >= 0,
                    den >= 1,
            ;
            lemma_round_div_between(255 * n, den as int, 255, 255 * n);
        }
        255
    } else {
        proof {
            lemma_round_div_between(255 * n, den as int, 0, 255);
        }
        let x: i128 = 255 * n;
        if 2 * (x % den) >= den {
            (x / den + 1) as u8
        } else {
            (x / den) as u8
        }
    }
}

/// The intensity of the channel that stands at hue `t` between the chroma
/// bounds `p` and `q`, in sixthousandths of their steps.
pub fn hue_to_rgb(p: i128, q: i128, t: i64) -> (out: i128)
    requires
        -CHROMA_LIMIT <= p <= CHROMA_LIMIT,
        -CHROMA_LIMIT <= q <= CHROMA_LIMIT,
        -HUE_LIMIT <= t <= HUE_LIMIT,
    ensures
        out == hue_ramp(p as int, q as int, t as int),
        p <= q && -TURN <= t <= 2 * TURN ==> SEXTANT * p <= out <= SEXTANT * q,
{
    proof {
        lemma_ramp_within_bounds(p as int, q as int, t as int);
    }
    let t: i64 = if t < 0 {
        t + TURN
    } else if t > TURN {
        t - TURN
    } else {
        t
    };
    let span: i128 = q - p;
    if t < SEXTANT {
        proof {
            lemma_mul_bounded(span as int, t as int, 2 * CHROMA_LIMIT, 2 * HUE_LIMIT);
        }
        6000 * p + span * (t as i128)
    } else if t < 3 * SEXTANT {
        6000 * q
    } else if t < 4 * SEXTANT {
        proof {
            lemma_mul_bounded(span as int, 4 * SEXTANT - t, 2 * CHROMA_LIMIT, 2 * HUE_LIMIT);
        }
        6000 * p + span * ((4 * SEXTANT - t) as i128)
    } else {
        6000 * p
    }
}

fn largest(r: u8, g: u8, b: u8) -> (out: u8)
    ensures
        out == max3(r as int, g as int, b as int),
{
    if r >= g && r >= b {
        r
    } else if g >= b {
        g
    } else {
        b
    }
}

fn smallest(r: u8, g: u8, b: u8) -> (out: u8)
    ensures
        out == min3(r as int, g as int, b as int),
{
    if r <= g && r <= b {
        r
    } else if g <= b {
        g
    } else {
        b
    }
}

impl HSL {
    /// Converts an RGB pixel to HSL.
    ///
    /// The pixel is a slice whose first three bytes are red, green and
    /// blue. Each of the three results is the exact value rounded to the
    /// nearest step, and lies in its nominal range. A grey has hue 0 and
    /// saturation 0, and no other colour has saturation 0.
    pub fn from_rgb(rgb: &[u8]) -> (out: HSL)
        requires
            rgb@.len() >= 3,
        ensures
            out@ == hsl_of_rgb(rgb@[0] as int, rgb@[1] as int, rgb@[2] as int),
            out.is_nominal(),
            out.s == 0 <==> rgb@[0] == rgb@[1] && rgb@[1] == rgb@[2],
            out.s == 0 ==> out.h == 0,
    {
        let r = rgb[0];
        let g = rgb[1];
        let b = rgb[2];
        let hi = largest(r, g, b);
        let lo = smallest(r, g, b);
        let sum: i64 = hi as i64 + lo as i64;

        proof {
            lemma_hsl_in_range(r as int, g as int, b as int);
            lemma_grey_alone_unsaturated(r as int, g as int, b as int);
        }
        let l = div_round(10000 * sum, 2 * CHANNEL_MAX);
        if hi == lo {
            return HSL { h: 0, s: 0, l: l as i32 };
        }
        let d: i64 = hi as i64 - lo as i64;
        let room: i64 = if sum < CHANNEL_MAX {
            sum
        } else {
            2 * CHANNEL_MAX - sum
        };
        let s = div_round(10000 * d, room);
        let hd: i64 = if hi == r {
            if g >= b {
                6000 * (g as i64 - b as i64)
            } else {
                36000 * d - 6000 * (b as i64 - g as i64)
            }
        } else if hi == g {
            12000 * d + 6000 * (b as i64 - r as i64)
        } else {
            24000 * d + 6000 * (r as i64 - g as i64)
        };
        proof {
            lemma_hue_times_chroma_bounds(r as int, g as int, b as int);
        }
        let h = div_round(hd, d);
        HSL { h: h as i32, s: s as i32, l: l as i32 }
    }
    /// Converts an HSL colour to RGB.
    ///
    /// Every colour has a result: a hue outside the turn is brought back by
    /// one turn, and a channel that would lie outside a byte becomes 0 or
    /// 255.
    pub fn to_rgb(&self) -> (out: (u8, u8, u8))
        ensures
            (out.0 as int, out.1 as int, out.2 as int) == rgb_of_hsl(
                self.h as int,
                self.s as int,
                self.l as int,
            ),
            self.s == 0 ==> out.0 == out.1 && out.1 == out.2,
    {
        if self.s == 0 {
            let v = percent_to_byte(self.l as i128, UNIT as i128);
            return (v, v, v);
        }
        let h: i64 = self.h as i64;
        let s: i128 = self.s as i128;
        let l: i128 = self.l as i128;
        proof {
            lemma_mul_bounded(l as int, 10000 + s, 0x8000_0000, 0x8000_2710);
            lemma_mul_bounded(l as int, s as int, 0x8000_0000, 0x8000_0000);
        }
        let q: i128 = if 2 * l < UNIT as i128 {
            l * (10000 + s)
        } else {
            10000 * (l + s) - l * s
        };
        let p: i128 = 20000 * l - q;
        (
            percent_to_byte(hue_to_rgb(p, q, h + 2 * SEXTANT), RAMP_UNIT),
            percent_to_byte(hue_to_rgb(p, q, h), RAMP_UNIT),
            percent_to_byte(hue_to_rgb(p, q, h - 2 * SEXTANT), RAMP_UNIT),
        )
    }
}

} // verus!
