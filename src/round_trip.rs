//! RGB survives a trip through HSV or HSL: the quantisation of the fixed-point
//! conversions moves each channel by a few millionths at most.
use vstd::prelude::*;

use crate::arith::{lemma_div_bounds, lemma_div_unique};
use crate::color_math::{
    lemma_hsl_from_rgb_range, lemma_hsv_from_rgb_range, lemma_rgb_from_hsl_range,
    lemma_rgb_from_hsv_range, hsl_from_rgb, hsl_upper, hsv_from_rgb, hue_channel, hue_position, lightness_channel, max3,
    min3, pct_top, rgb_from_hsl, rgb_from_hsv, rgb_in_range, rgb_top, sector, upper_half,
    wrap_hue,
};
use crate::color_picker::{ColorSpace, DynamicColor};
use crate::fixed::SCALE;

verus! {

/// Largest drift, in raw units, of a channel over one round trip.
pub const ROUND_TRIP_SLACK: i64 = 64;

/// Whether two triples differ by at most `tol` in every place.
pub open spec fn within(a: (int, int, int), b: (int, int, int), tol: int) -> bool {
    -tol <= a.0 - b.0 <= tol && -tol <= a.1 - b.1 <= tol && -tol <= a.2 - b.2 <= tol
}

/// Percent value of the largest channel, rescaled to a channel, stays within
/// four raw units below it.
proof fn lemma_value_channel(mx: int)
    requires
        0 <= mx <= rgb_top(),
    ensures
        mx - 4 <= (mx * 100 / 255) * 255 / 100 <= mx,
        0 <= (mx * 100 / 255) * 255 / 100,
{
    lemma_div_bounds(mx * 100, 255);
    lemma_div_bounds((mx * 100 / 255) * 255, 100);
}

/// Chroma rebuilt from saturation and value stays within ten raw units below
/// the chroma it was computed from.
proof fn lemma_chroma(mx: int, d: int, vr: int)
    requires
        0 < mx <= rgb_top(),
        0 <= d <= mx,
        mx - 4 <= vr <= mx,
        0 <= vr,
    ensures
        d - 10 <= vr * (d * pct_top() / mx) / pct_top() <= d,
        0 <= vr * (d * pct_top() / mx) / pct_top(),
{
    let p = pct_top();
    let s = d * p / mx;
    lemma_div_bounds(d * p, mx);
    assert(0 <= s <= p) by {
        assert(0 <= d * p < mx * (p + 1)) by (nonlinear_arith)
            requires
                0 <= d <= mx,
                mx > 0,
                p > 0,
        ;
        crate::arith::lemma_div_range(d * p, mx, p + 1);
    }
    assert(mx * s <= d * p);
    assert(vr * s <= mx * s) by (nonlinear_arith)
        requires
            vr <= mx,
            s >= 0,
    ;
    assert(vr * s >= mx * s - 4 * s) by (nonlinear_arith)
        requires
            vr >= mx - 4,
            s >= 0,
    ;
    assert(vr * s >= 0) by (nonlinear_arith)
        requires
            vr >= 0,
            s >= 0,
    ;
    lemma_div_bounds(vr * s, p);
    let q = vr * s / p;
    assert(p * q <= d * p);
    assert(p * q > d * p - 255 * SCALE - 5 * p);
    assert(d - 10 <= q <= d) by (nonlinear_arith)
        requires
            p * q <= d * p,
            p * q > d * p - 255 * SCALE - 5 * p,
            p == 100 * SCALE,
            SCALE == 1_000_000,
    ;
}

/// The sector and the position within it of a hue computed from `pos / d`
/// sixths of a turn.
proof fn lemma_sector(pos: int, d: int, j: int)
    requires
        d > 0,
        0 <= j,
        j * d <= pos < j * d + d,
    ensures
        (pos * sector() / d) / sector() == j,
        (pos * sector() / d) - j * sector() == (pos - j * d) * sector() / d,
        0 <= (pos - j * d) * sector() / d < sector(),
{
    let b = sector();
    let rem = pos - j * d;
    assert(pos * b == rem * b + (j * b) * d) by (nonlinear_arith)
        requires
            pos == j * d + rem,
    ;
    vstd::arithmetic::div_mod::lemma_hoist_over_denominator(rem * b, j * b, d as nat);
    assert(0 <= rem * b < d * b) by (nonlinear_arith)
        requires
            0 <= rem < d,
            b > 0,
    ;
    crate::arith::lemma_div_range(rem * b, d, b);
    let h = pos * b / d;
    assert(b * j <= h < b * j + b) by (nonlinear_arith)
        requires
            h == rem * b / d + j * b,
            0 <= rem * b / d < b,
    ;
    lemma_div_unique(h, b, j);
}

/// Rising edge of a sector: the rebuilt part follows the position.
proof fn lemma_rising(rem: int, d: int, chroma: int, e: int)
    requires
        0 <= rem < d <= rgb_top(),
        d - e <= chroma <= d + e,
        0 <= e <= 100,
    ensures
        rem - e - 6 <= chroma * (rem * sector() / d) / sector() <= rem + e,
{
    let b = sector();
    let fr = rem * b / d;
    lemma_div_bounds(rem * b, d);
    assert(0 <= rem * b < d * b) by (nonlinear_arith)
        requires
            0 <= rem < d,
            b > 0,
    ;
    crate::arith::lemma_div_range(rem * b, d, b);
    assert(d * fr - e * fr <= chroma * fr <= d * fr + e * fr) by (nonlinear_arith)
        requires
            d - e <= chroma <= d + e,
            fr >= 0,
    ;
    assert(0 <= e * fr <= e * b) by (nonlinear_arith)
        requires
            0 <= fr < b,
            e >= 0,
    ;
    lemma_div_bounds(chroma * fr, b);
    let x = chroma * fr / b;
    assert(b * x <= rem * b + e * b);
    assert(b * x > rem * b - d - e * b - b);
    assert(rem - e - 6 <= x <= rem + e) by (nonlinear_arith)
        requires
            b * x <= rem * b + e * b,
            b * x > rem * b - d - e * b - b,
            d <= 255 * SCALE,
            b == 60 * SCALE,
            SCALE == 1_000_000,
    ;
}

/// Falling edge of a sector: the rebuilt part follows the distance to the
/// sector's end.
proof fn lemma_falling(rem: int, d: int, chroma: int, e: int)
    requires
        0 <= rem < d <= rgb_top(),
        d - e <= chroma <= d + e,
        0 <= e <= 100,
    ensures
        (d - rem) - e - 1 <= chroma * (sector() - rem * sector() / d) / sector() <= (d - rem) + e
            + 5,
{
    let b = sector();
    let fr = rem * b / d;
    lemma_div_bounds(rem * b, d);
    assert(0 <= rem * b < d * b) by (nonlinear_arith)
        requires
            0 <= rem < d,
            b > 0,
    ;
    crate::arith::lemma_div_range(rem * b, d, b);
    let g = b - fr;
    assert(d * g == d * b - d * fr) by (nonlinear_arith)
        requires
            g == b - fr,
    ;
    assert((d - rem) * b == d * b - rem * b) by (nonlinear_arith);
    assert(d * g - e * g <= chroma * g <= d * g + e * g) by (nonlinear_arith)
        requires
            d - e <= chroma <= d + e,
            g >= 0,
    ;
    assert(0 <= e * g <= e * b) by (nonlinear_arith)
        requires
            0 < g <= b,
            e >= 0,
    ;
    lemma_div_bounds(chroma * g, b);
    let x = chroma * g / b;
    assert(b * x < (d - rem) * b + d + e * b);
    assert(b * x > (d - rem) * b - e * b - b);
    assert((d - rem) - e - 1 <= x <= (d - rem) + e + 5) by (nonlinear_arith)
        requires
            b * x < (d - rem) * b + d + e * b,
            b * x > (d - rem) * b - e * b - b,
            d <= 255 * SCALE,
            b == 60 * SCALE,
            SCALE == 1_000_000,
    ;
}

/// Position of the hue, in units of the chroma, and its sector.
proof fn lemma_position(c: (int, int, int)) -> (jr: (int, int))
    requires
        rgb_in_range(c),
        max3(c.0, c.1, c.2) > min3(c.0, c.1, c.2),
    ensures
        0 <= jr.0 < 6,
        0 <= jr.1 < max3(c.0, c.1, c.2) - min3(c.0, c.1, c.2),
        hue_position(c.0, c.1, c.2) == jr.0 * (max3(c.0, c.1, c.2) - min3(c.0, c.1, c.2)) + jr.1,
        ({
            let (r, g, b) = c;
            let mx = max3(r, g, b);
            let mn = min3(r, g, b);
            let d = mx - mn;
            let (j, rem) = jr;
            &&& j == 0 ==> r == mx && b == mn && g == mn + rem
            &&& j == 1 ==> g == mx && b == mn && r == mx - rem
            &&& j == 2 ==> g == mx && r == mn && b == mn + rem
            &&& j == 3 ==> b == mx && r == mn && g == mx - rem
            &&& j == 4 ==> b == mx && g == mn && r == mn + rem
            &&& j == 5 ==> r == mx && g == mn && b == mx - rem
        }),
{
    let (r, g, b) = c;
    let mx = max3(r, g, b);
    let mn = min3(r, g, b);
    let d = mx - mn;
    assert(mn <= r <= mx && mn <= g <= mx && mn <= b <= mx);
    assert(mn == r || mn == g || mn == b);
    assert(mx == r || mx == g || mx == b);
    let t = if mx == r {
        g - b
    } else if mx == g {
        b - r + 2 * d
    } else {
        r - g + 4 * d
    };
    assert(-d <= t <= 5 * d);
    let q: int = if t < 0 {
        -1
    } else {
        0
    };
    let pos = t - q * (6 * d);
    assert(t == q * (6 * d) + pos);
    vstd::arithmetic::div_mod::lemma_fundamental_div_mod_converse_mod(t, 6 * d, q, pos);
    assert(hue_position(r, g, b) == pos);
    if mx == r {
        if g >= b {
            if t < d {
                (0, t)
            } else {
                (1, 0)
            }
        } else {
            (5, pos - 5 * d)
        }
    } else if mx == g {
        if b >= r {
            if b < mx {
                (2, pos - 2 * d)
            } else {
                (3, 0)
            }
        } else {
            (1, pos - d)
        }
    } else {
        if r >= g {
            (4, pos - 4 * d)
        } else {
            (3, pos - 3 * d)
        }
    }
}

/// Converting RGB to HSV and back moves no channel by more than
/// `ROUND_TRIP_SLACK` millionths, well within one unit.
pub proof fn lemma_hsv_round_trip(c: (int, int, int))
    requires
        rgb_in_range(c),
    ensures
        within(rgb_from_hsv(hsv_from_rgb(c)), c, ROUND_TRIP_SLACK as int),
{
    let (r, g, b) = c;
    let mx = max3(r, g, b);
    let mn = min3(r, g, b);
    let d = mx - mn;
    let hsv = hsv_from_rgb(c);
    let vr = hsv.2 * 255 / 100;
    lemma_value_channel(mx);
    if hsv.1 == 0 {
        if mx > 0 {
            lemma_div_bounds(d * pct_top(), mx);
            assert(d <= 2) by (nonlinear_arith)
                requires
                    mx * 0 <= d * pct_top() < mx * 0 + mx,
                    mx <= 255 * SCALE,
                    pct_top() == 100 * SCALE,
                    SCALE == 1_000_000,
            ;
        }
    } else {
        lemma_hsv_round_trip_chromatic(c);
    }
}

proof fn lemma_hsv_round_trip_chromatic(c: (int, int, int))
    requires
        rgb_in_range(c),
        hsv_from_rgb(c).1 != 0,
    ensures
        within(rgb_from_hsv(hsv_from_rgb(c)), c, ROUND_TRIP_SLACK as int),
{
    let (r, g, b) = c;
    let mx = max3(r, g, b);
    let mn = min3(r, g, b);
    let d = mx - mn;
    let hsv = hsv_from_rgb(c);
    let vr = hsv.2 * 255 / 100;
    lemma_value_channel(mx);
    let s = hsv.1;
    assert(d > 0) by {
        if d == 0 {
            assert(d * pct_top() == 0);
        }
    }
    lemma_chroma(mx, d, vr);
    let chroma = vr * s / pct_top();
    let m = vr - chroma;
    let (j, rem) = lemma_position(c);
    let pos = hue_position(r, g, b);
    lemma_sector(pos, d, j);
    let h = hsv.0;
    assert(h == pos * sector() / d);
    let fr = h - j * sector();
    assert(fr == rem * sector() / d);
    if j % 2 == 0 {
        lemma_rising(rem, d, chroma, 10);
    } else {
        lemma_falling(rem, d, chroma, 10);
    }
}

/// Lightness, rescaled to a channel, is within four raw units below the
/// midpoint of the extreme channels.
proof fn lemma_lightness(mx: int, mn: int)
    requires
        0 <= mn <= mx <= rgb_top(),
    ensures
        mx + mn - 8 <= 2 * lightness_channel((mx + mn) * 100 / 510) <= mx + mn,
        0 <= lightness_channel((mx + mn) * 100 / 510),
{
    lemma_div_bounds((mx + mn) * 100, 510);
    lemma_div_bounds(((mx + mn) * 100 / 510) * 255, 100);
}

/// The two pivots of the HSL formula land near the extreme channels.
proof fn lemma_pivots(mx: int, mn: int, l: int, s: int)
    requires
        0 <= mn < mx <= rgb_top(),
        l == (mx + mn) * 100 / 510,
        s == (mx - mn) * pct_top() / (if upper_half(l) {
            2 * rgb_top() - mx - mn
        } else {
            mx + mn
        }),
    ensures
        mx - 16 <= hsl_upper(s, l) <= mx + 4,
{
    let a = mx + mn;
    let d = mx - mn;
    let t = rgb_top();
    let p = pct_top();
    let lr = lightness_channel(l);
    lemma_lightness(mx, mn);
    let den = if upper_half(l) {
        2 * t - a
    } else {
        a
    };
    assert(den >= d && den > 0);
    lemma_div_bounds(d * p, den);
    assert(0 <= d * p < den * (p + 1)) by (nonlinear_arith)
        requires
            0 < d <= den,
            p > 0,
    ;
    crate::arith::lemma_div_range(d * p, den, p + 1);
    if upper_half(l) {
        let w = t - lr;
        assert(2 * w <= den + 8 && 2 * w >= den);
        assert(2 * (s * w) <= s * den + 8 * s && 2 * (s * w) >= s * den) by (nonlinear_arith)
            requires
                2 * w <= den + 8,
                2 * w >= den,
                s >= 0,
        ;
        lemma_div_bounds(s * w, p);
        let f = s * w / p;
        assert(d - 12 <= 2 * f <= d + 8) by (nonlinear_arith)
            requires
                p * f <= s * w < p * f + p,
                2 * (s * w) <= s * den + 8 * s,
                2 * (s * w) >= s * den,
                s * den <= d * p < s * den + den,
                0 <= s <= p,
                den <= 2 * 255 * SCALE,
                p == 100 * SCALE,
                SCALE == 1_000_000,
        ;
    } else {
        assert(2 * (lr * s) <= s * a && 2 * (lr * s) >= s * a - 8 * s) by (nonlinear_arith)
            requires
                a - 8 <= 2 * lr <= a,
                s >= 0,
        ;
        lemma_div_bounds(lr * s, p);
        let f = lr * s / p;
        assert(d - 24 <= 2 * f <= d) by (nonlinear_arith)
            requires
                p * f <= lr * s < p * f + p,
                2 * (lr * s) <= s * a,
                2 * (lr * s) >= s * a - 8 * s,
                s * a <= d * p < s * a + a,
                0 <= s <= p,
                a <= 2 * 255 * SCALE,
                p == 100 * SCALE,
                SCALE == 1_000_000,
        ;
    }
}

/// Converting RGB to HSL and back moves no channel by more than
/// `ROUND_TRIP_SLACK` millionths, well within one unit.
pub proof fn lemma_hsl_round_trip(c: (int, int, int))
    requires
        rgb_in_range(c),
    ensures
        within(rgb_from_hsl(hsl_from_rgb(c)), c, ROUND_TRIP_SLACK as int),
{
    let (r, g, b) = c;
    let mx = max3(r, g, b);
    let mn = min3(r, g, b);
    let d = mx - mn;
    let l = (mx + mn) * 100 / 510;
    lemma_lightness(mx, mn);
    assert(mn <= r <= mx && mn <= g <= mx && mn <= b <= mx);
    if d > 0 {
        let hsl = hsl_from_rgb(c);
        if hsl.1 == 0 {
            let den = if upper_half(l) {
                2 * rgb_top() - mx - mn
            } else {
                mx + mn
            };
            lemma_div_bounds(d * pct_top(), den);
            assert(d <= 5) by (nonlinear_arith)
                requires
                    den * 0 <= d * pct_top() < den * 0 + den,
                    den <= 2 * 255 * SCALE,
                    pct_top() == 100 * SCALE,
                    SCALE == 1_000_000,
            ;
        } else {
            lemma_hsl_round_trip_chromatic(c);
        }
    }
}

proof fn lemma_hsl_round_trip_chromatic(c: (int, int, int))
    requires
        rgb_in_range(c),
        max3(c.0, c.1, c.2) > min3(c.0, c.1, c.2),
        hsl_from_rgb(c).1 != 0,
    ensures
        within(rgb_from_hsl(hsl_from_rgb(c)), c, ROUND_TRIP_SLACK as int),
{
    let (r, g, b) = c;
    let mx = max3(r, g, b);
    let mn = min3(r, g, b);
    let d = mx - mn;
    let hsl = hsl_from_rgb(c);
    let l = hsl.2;
    let s = hsl.1;
    assert(l == (mx + mn) * 100 / 510);
    lemma_lightness(mx, mn);
    lemma_pivots(mx, mn, l, s);
    let lr = lightness_channel(l);
    let q = hsl_upper(s, l);
    let p = 2 * lr - q;
    let (j, rem) = lemma_position(c);
    let pos = hue_position(r, g, b);
    lemma_sector(pos, d, j);
    let bb = sector();
    let h = hsl.0;
    assert(h == pos * bb / d);
    let fr = rem * bb / d;
    assert(h == j * bb + fr);
    assert(0 <= fr < bb);
    lemma_rising(rem, d, q - p, 32);
    lemma_falling(rem, d, q - p, 32);
    let out = rgb_from_hsl(hsl);
    assert(out == (
        hue_channel(p, q, wrap_hue(h + 2 * bb)),
        hue_channel(p, q, wrap_hue(h)),
        hue_channel(p, q, wrap_hue(h - 2 * bb)),
    ));
    if j == 0 {
        assert(wrap_hue(h + 2 * bb) == 2 * bb + fr);
        assert(wrap_hue(h) == fr);
        assert(wrap_hue(h - 2 * bb) == 4 * bb + fr);
    } else if j == 1 {
        assert(wrap_hue(h + 2 * bb) == 3 * bb + fr);
        assert(4 * bb - (3 * bb + fr) == bb - fr);
        assert(wrap_hue(h) == bb + fr);
        assert(wrap_hue(h - 2 * bb) == 5 * bb + fr);
    } else if j == 2 {
        assert(wrap_hue(h + 2 * bb) == 4 * bb + fr);
        assert(wrap_hue(h) == 2 * bb + fr);
        assert(wrap_hue(h - 2 * bb) == fr);
    } else if j == 3 {
        assert(wrap_hue(h + 2 * bb) == 5 * bb + fr);
        assert(wrap_hue(h) == 3 * bb + fr);
        assert(4 * bb - (3 * bb + fr) == bb - fr);
        assert(wrap_hue(h - 2 * bb) == bb + fr);
    } else if j == 4 {
        assert(wrap_hue(h + 2 * bb) == fr);
        assert(wrap_hue(h) == 4 * bb + fr);
        assert(wrap_hue(h - 2 * bb) == 2 * bb + fr);
    } else {
        assert(wrap_hue(h + 2 * bb) == bb + fr);
        assert(wrap_hue(h) == 5 * bb + fr);
        assert(wrap_hue(h - 2 * bb) == 3 * bb + fr);
        assert(4 * bb - (3 * bb + fr) == bb - fr);
    }
}

/// Components in a space of an in-range RGB triple are in range, and lead
/// back to an in-range RGB triple within `ROUND_TRIP_SLACK` of it.
pub proof fn lemma_space_round_trip(space: ColorSpace, c: (int, int, int))
    requires
        rgb_in_range(c),
    ensures
        space.holds(space.spec_from_rgb(c)),
        rgb_in_range(space.spec_to_rgb(space.spec_from_rgb(c))),
        within(space.spec_to_rgb(space.spec_from_rgb(c)), c, ROUND_TRIP_SLACK as int),
{
    match space {
        ColorSpace::Rgb => {},
        ColorSpace::Hsl => {
            lemma_hsl_from_rgb_range(c);
            lemma_rgb_from_hsl_range(hsl_from_rgb(c));
            lemma_hsl_round_trip(c);
        },
        ColorSpace::Hsv => {
            lemma_hsv_from_rgb_range(c);
            lemma_rgb_from_hsv_range(hsv_from_rgb(c));
            lemma_hsv_round_trip(c);
        },
    }
}

/// RGB of in-range components is in range.
pub proof fn lemma_to_rgb_range(space: ColorSpace, k: (int, int, int))
    requires
        space.holds(k),
    ensures
        rgb_in_range(space.spec_to_rgb(k)),
{
    match space {
        ColorSpace::Rgb => {},
        ColorSpace::Hsl => lemma_rgb_from_hsl_range(k),
        ColorSpace::Hsv => lemma_rgb_from_hsv_range(k),
    }
}

/// Components after re-expressing `comps`, held in `from`, in `to`.
pub open spec fn switched(from: ColorSpace, comps: (int, int, int), to: ColorSpace) -> (int, int, int) {
    to.spec_from_rgb(from.spec_to_rgb(comps))
}

/// Switching a colour to `s1`, then to `s2`, then back to its own space keeps
/// the colour it shows: its RGB moves by at most three round trips' drift.
/// A colour held in RGB gets its own components back within two.
pub proof fn lemma_space_switch(c: DynamicColor, s1: ColorSpace, s2: ColorSpace)
    requires
        c.space().holds(c.comps()),
    ensures
        ({
            let k1 = switched(c.space(), c.comps(), s1);
            let k2 = switched(s1, k1, s2);
            let k3 = switched(s2, k2, c.space());
            &&& within(
                c.space().spec_to_rgb(k3),
                c.space().spec_to_rgb(c.comps()),
                3 * ROUND_TRIP_SLACK,
            )
            &&& c.space() == ColorSpace::Rgb ==> within(k3, c.comps(), 2 * ROUND_TRIP_SLACK)
        }),
{
    let s0 = c.space();
    let rgb0 = s0.spec_to_rgb(c.comps());
    lemma_to_rgb_range(s0, c.comps());
    lemma_space_round_trip(s1, rgb0);
    let rgb1 = s1.spec_to_rgb(s1.spec_from_rgb(rgb0));
    lemma_space_round_trip(s2, rgb1);
    let rgb2 = s2.spec_to_rgb(s2.spec_from_rgb(rgb1));
    lemma_space_round_trip(s0, rgb2);
}

} // verus!
