//! Exact integer forms of the conversions between RGB and the cylindrical
//! spaces. Every value is a count of millionths: RGB channels lie in
//! `[0, 255 * SCALE]`, hues in `[0, 360 * SCALE]` (degrees) and saturation,
//! lightness and value in `[0, 100 * SCALE]` (percent).
use vstd::prelude::*;

use crate::arith::{lemma_div_bounds, lemma_div_range, lemma_div_unique};
use crate::fixed::SCALE;

verus! {

/// Upper end of an RGB channel.
pub open spec fn rgb_top() -> int {
    255 * SCALE
}

/// Upper end of a hue: one full turn.
pub open spec fn hue_top() -> int {
    360 * SCALE
}

/// Upper end of a percentage.
pub open spec fn pct_top() -> int {
    100 * SCALE
}

/// One hue sector of sixty degrees.
pub open spec fn sector() -> int {
    60 * SCALE
}

pub open spec fn max3(a: int, b: int, c: int) -> int {
    if a >= b && a >= c {
        a
    } else if b >= c {
        b
    } else {
        c
    }
}

pub open spec fn min3(a: int, b: int, c: int) -> int {
    if a <= b && a <= c {
        a
    } else if b <= c {
        b
    } else {
        c
    }
}

/// Whether each channel lies in `[0, 255 * SCALE]`.
pub open spec fn rgb_in_range(c: (int, int, int)) -> bool {
    0 <= c.0 <= rgb_top() && 0 <= c.1 <= rgb_top() && 0 <= c.2 <= rgb_top()
}

/// Whether a hue lies in `[0, 360 * SCALE]` and the two percentages in
/// `[0, 100 * SCALE]`.
pub open spec fn cyl_in_range(c: (int, int, int)) -> bool {
    0 <= c.0 <= hue_top() && 0 <= c.1 <= pct_top() && 0 <= c.2 <= pct_top()
}

/// Position of the hue in units of the chroma `d`, counted from red and
/// taken modulo six sectors: `(g - b) / d`, `(b - r) / d + 2` or
/// `(r - g) / d + 4` by the largest channel.
pub open spec fn hue_position(r: int, g: int, b: int) -> int {
    let mx = max3(r, g, b);
    let d = mx - min3(r, g, b);
    let t = if mx == r {
        g - b
    } else if mx == g {
        b - r + 2 * d
    } else {
        r - g + 4 * d
    };
    t % (6 * d)
}

/// Hue in degrees of an RGB triple; zero for a grey.
pub open spec fn hue_of(r: int, g: int, b: int) -> int {
    let d = max3(r, g, b) - min3(r, g, b);
    if d == 0 {
        0
    } else {
        hue_position(r, g, b) * sector() / d
    }
}

/// HSV of an RGB triple.
pub open spec fn hsv_from_rgb(c: (int, int, int)) -> (int, int, int) {
    let mx = max3(c.0, c.1, c.2);
    let d = mx - min3(c.0, c.1, c.2);
    let s = if mx == 0 {
        0
    } else {
        d * pct_top() / mx
    };
    (hue_of(c.0, c.1, c.2), s, mx * 100 / 255)
}

/// Lightness in percent, rescaled to an RGB channel.
pub open spec fn lightness_channel(l: int) -> int {
    l * 255 / 100
}

/// Whether a lightness lies above one half.
pub open spec fn upper_half(l: int) -> bool {
    2 * lightness_channel(l) > rgb_top()
}

/// HSL of an RGB triple.
pub open spec fn hsl_from_rgb(c: (int, int, int)) -> (int, int, int) {
    let mx = max3(c.0, c.1, c.2);
    let mn = min3(c.0, c.1, c.2);
    let d = mx - mn;
    let l = (mx + mn) * 100 / 510;
    if d == 0 {
        (0, 0, l)
    } else {
        let den = if upper_half(l) {
            2 * rgb_top() - mx - mn
        } else {
            mx + mn
        };
        (hue_of(c.0, c.1, c.2), d * pct_top() / den, l)
    }
}

/// RGB triple of chroma `c`, second-largest part `x` and offset `m`, by hue
/// sector.
pub open spec fn sector_rgb(k: int, c: int, x: int, m: int) -> (int, int, int) {
    if k == 0 {
        (c + m, x + m, m)
    } else if k == 1 {
        (x + m, c + m, m)
    } else if k == 2 {
        (m, c + m, x + m)
    } else if k == 3 {
        (m, x + m, c + m)
    } else if k == 4 {
        (x + m, m, c + m)
    } else {
        (c + m, m, x + m)
    }
}

/// RGB of an HSV triple.
pub open spec fn rgb_from_hsv(c: (int, int, int)) -> (int, int, int) {
    let (h, s, v) = c;
    let vr = v * 255 / 100;
    if s == 0 {
        (vr, vr, vr)
    } else {
        let chroma = vr * s / pct_top();
        let k = h / sector();
        let fr = h - k * sector();
        let x = if k % 2 == 0 {
            chroma * fr / sector()
        } else {
            chroma * (sector() - fr) / sector()
        };
        sector_rgb(k % 6, chroma, x, vr - chroma)
    }
}

/// A hue shifted by a third of a turn or not, brought back into one turn.
pub open spec fn wrap_hue(t: int) -> int {
    if t < 0 {
        t + hue_top()
    } else if t >= hue_top() {
        t - hue_top()
    } else {
        t
    }
}

/// One channel of the two-sided HSL formula, at hue `t`.
pub open spec fn hue_channel(p: int, q: int, t: int) -> int {
    if t < sector() {
        p + (q - p) * t / sector()
    } else if t < 3 * sector() {
        q
    } else if t < 4 * sector() {
        p + (q - p) * (4 * sector() - t) / sector()
    } else {
        p
    }
}

/// Upper pivot `q` of the two-sided HSL formula, as a channel.
pub open spec fn hsl_upper(s: int, l: int) -> int {
    let lr = lightness_channel(l);
    if upper_half(l) {
        lr + s * (rgb_top() - lr) / pct_top()
    } else {
        lr + lr * s / pct_top()
    }
}

/// RGB of an HSL triple.
pub open spec fn rgb_from_hsl(c: (int, int, int)) -> (int, int, int) {
    let (h, s, l) = c;
    let lr = lightness_channel(l);
    if s == 0 {
        (lr, lr, lr)
    } else {
        let q = hsl_upper(s, l);
        let p = 2 * lr - q;
        (
            hue_channel(p, q, wrap_hue(h + 2 * sector())),
            hue_channel(p, q, wrap_hue(h)),
            hue_channel(p, q, wrap_hue(h - 2 * sector())),
        )
    }
}

fn max3_exec(a: i64, b: i64, c: i64) -> (r: i64)
    ensures
        r == max3(a as int, b as int, c as int),
{
    if a >= b && a >= c {
        a
    } else if b >= c {
        b
    } else {
        c
    }
}

fn min3_exec(a: i64, b: i64, c: i64) -> (r: i64)
    ensures
        r == min3(a as int, b as int, c as int),
{
    if a <= b && a <= c {
        a
    } else if b <= c {
        b
    } else {
        c
    }
}

/// Hue in degrees of an RGB triple. The position is reduced modulo six
/// sectors, so red at either end of the turn comes out as zero.
pub fn hue_from_rgb(r: i64, g: i64, b: i64) -> (h: i64)
    requires
        rgb_in_range((r as int, g as int, b as int)),
    ensures
        h == hue_of(r as int, g as int, b as int),
        0 <= h < hue_top(),
{
    let mx = max3_exec(r, g, b);
    let mn = min3_exec(r, g, b);
    let d = mx - mn;
    if d == 0 {
        return 0;
    }
    let t = if mx == r {
        g - b
    } else if mx == g {
        b - r + 2 * d
    } else {
        r - g + 4 * d
    };
    let pos = if t < 0 {
        t + 6 * d
    } else {
        t
    };
    proof {
        assert(-d <= t <= 5 * d);
        assert(pos as int == (t as int) % (6 * d as int)) by {
            vstd::arithmetic::div_mod::lemma_fundamental_div_mod_converse_mod(
                t as int,
                6 * d,
                if t < 0 { -1int } else { 0int },
                pos as int,
            );
        }
        assert(0 <= pos * (60 * SCALE) < d * (360 * SCALE) <= 360 * SCALE * (255 * SCALE))
            by (nonlinear_arith)
            requires
                0 <= pos < 6 * d,
                d <= 255 * SCALE,
        ;
        lemma_div_range(pos * (60 * SCALE), d as int, 360 * SCALE);
    }
    pos * (60 * SCALE) / d
}

/// HSV of an RGB triple, exactly as `hsv_from_rgb` states it.
pub fn hsv_from_rgb_exec(r: i64, g: i64, b: i64) -> (c: (i64, i64, i64))
    requires
        rgb_in_range((r as int, g as int, b as int)),
    ensures
        (c.0 as int, c.1 as int, c.2 as int) == hsv_from_rgb((r as int, g as int, b as int)),
        cyl_in_range((c.0 as int, c.1 as int, c.2 as int)),
{
    let mx = max3_exec(r, g, b);
    let mn = min3_exec(r, g, b);
    let d = mx - mn;
    let h = hue_from_rgb(r, g, b);
    let s = if mx == 0 {
        0
    } else {
        proof {
            assert(0 <= d * (100 * SCALE) < mx * (100 * SCALE + 1)) by (nonlinear_arith)
                requires
                    0 <= d <= mx,
                    mx > 0,
            ;
            lemma_div_range(d * (100 * SCALE), mx as int, 100 * SCALE + 1);
        }
        d * (100 * SCALE) / mx
    };
    proof {
        lemma_div_range(mx * 100, 255, 100 * SCALE + 1);
    }
    let v = mx * 100 / 255;
    (h, s, v)
}

/// HSL of an RGB triple, exactly as `hsl_from_rgb` states it.
pub fn hsl_from_rgb_exec(r: i64, g: i64, b: i64) -> (c: (i64, i64, i64))
    requires
        rgb_in_range((r as int, g as int, b as int)),
    ensures
        (c.0 as int, c.1 as int, c.2 as int) == hsl_from_rgb((r as int, g as int, b as int)),
        cyl_in_range((c.0 as int, c.1 as int, c.2 as int)),
{
    let mx = max3_exec(r, g, b);
    let mn = min3_exec(r, g, b);
    let d = mx - mn;
    proof {
        lemma_div_range((mx + mn) * 100, 510, 100 * SCALE + 1);
    }
    let l = (mx + mn) * 100 / 510;
    if d == 0 {
        return (0, 0, l);
    }
    let h = hue_from_rgb(r, g, b);
    proof {
        lemma_div_range(l * 255, 100, 255 * SCALE + 1);
    }
    let lr = l * 255 / 100;
    let den = if 2 * lr > 255 * SCALE {
        2 * (255 * SCALE) - mx - mn
    } else {
        mx + mn
    };
    proof {
        assert(0 <= d * (100 * SCALE) < den * (100 * SCALE + 1)) by (nonlinear_arith)
            requires
                0 < d <= den,
        ;
        lemma_div_range(d * (100 * SCALE), den as int, 100 * SCALE + 1);
    }
    (h, d * (100 * SCALE) / den, l)
}

/// RGB of an HSV triple, exactly as `rgb_from_hsv` states it.
pub fn rgb_from_hsv_exec(h: i64, s: i64, v: i64) -> (c: (i64, i64, i64))
    requires
        cyl_in_range((h as int, s as int, v as int)),
    ensures
        (c.0 as int, c.1 as int, c.2 as int) == rgb_from_hsv((h as int, s as int, v as int)),
        rgb_in_range((c.0 as int, c.1 as int, c.2 as int)),
{
    proof {
        lemma_div_range(v * 255, 100, 255 * SCALE + 1);
    }
    let vr = v * 255 / 100;
    if s == 0 {
        return (vr, vr, vr);
    }
    proof {
        assert(0 <= vr * s < (100 * SCALE) * (vr + 1)) by (nonlinear_arith)
            requires
                0 <= vr,
                0 < s <= 100 * SCALE,
        ;
        lemma_div_range(vr * s, 100 * SCALE, vr + 1);
        lemma_div_range(h as int, 60 * SCALE, 7);
    }
    let chroma = vr * s / (100 * SCALE);
    let k = h / (60 * SCALE);
    let fr = h - k * (60 * SCALE);
    proof {
        lemma_div_bounds(h as int, 60 * SCALE);
    }
    let x = if k % 2 == 0 {
        proof {
            assert(0 <= chroma * fr < (60 * SCALE) * (chroma + 1)) by (nonlinear_arith)
                requires
                    0 <= chroma,
                    0 <= fr < 60 * SCALE,
            ;
            lemma_div_range(chroma * fr, 60 * SCALE, chroma + 1);
        }
        chroma * fr / (60 * SCALE)
    } else {
        proof {
            assert(0 <= chroma * (60 * SCALE - fr) < (60 * SCALE) * (chroma + 1))
                by (nonlinear_arith)
                requires
                    0 <= chroma,
                    0 <= fr < 60 * SCALE,
            ;
            lemma_div_range(chroma * (60 * SCALE - fr), 60 * SCALE, chroma + 1);
        }
        chroma * (60 * SCALE - fr) / (60 * SCALE)
    };
    let m = vr - chroma;
    let sk = k % 6;
    if sk == 0 {
        (chroma + m, x + m, m)
    } else if sk == 1 {
        (x + m, chroma + m, m)
    } else if sk == 2 {
        (m, chroma + m, x + m)
    } else if sk == 3 {
        (m, x + m, chroma + m)
    } else if sk == 4 {
        (x + m, m, chroma + m)
    } else {
        (chroma + m, m, x + m)
    }
}

/// One channel of the two-sided HSL formula.
fn hue_channel_exec(p: i64, q: i64, t: i64) -> (c: i64)
    requires
        0 <= p <= q <= rgb_top(),
        0 <= t < hue_top(),
    ensures
        c == hue_channel(p as int, q as int, t as int),
        p <= c <= q,
{
    if t < 60 * SCALE {
        proof {
            assert(0 <= (q - p) * t < (60 * SCALE) * (q - p + 1)) by (nonlinear_arith)
                requires
                    0 <= q - p,
                    0 <= t < 60 * SCALE,
            ;
            lemma_div_range((q - p) * t, 60 * SCALE, q - p + 1);
        }
        p + (q - p) * t / (60 * SCALE)
    } else if t < 3 * (60 * SCALE) {
        q
    } else if t < 4 * (60 * SCALE) {
        proof {
            assert(0 <= (q - p) * (4 * (60 * SCALE) - t) < (60 * SCALE) * (q - p + 1))
                by (nonlinear_arith)
                requires
                    0 <= q - p,
                    3 * (60 * SCALE) <= t < 4 * (60 * SCALE),
            ;
            lemma_div_range((q - p) * (4 * (60 * SCALE) - t), 60 * SCALE, q - p + 1);
        }
        p + (q - p) * (4 * (60 * SCALE) - t) / (60 * SCALE)
    } else {
        p
    }
}

fn wrap_hue_exec(t: i64) -> (w: i64)
    requires
        -hue_top() <= t < 2 * hue_top(),
    ensures
        w == wrap_hue(t as int),
        0 <= w < hue_top(),
{
    if t < 0 {
        t + 360 * SCALE
    } else if t >= 360 * SCALE {
        t - 360 * SCALE
    } else {
        t
    }
}

/// RGB of an HSL triple, exactly as `rgb_from_hsl` states it.
pub fn rgb_from_hsl_exec(h: i64, s: i64, l: i64) -> (c: (i64, i64, i64))
    requires
        cyl_in_range((h as int, s as int, l as int)),
    ensures
        (c.0 as int, c.1 as int, c.2 as int) == rgb_from_hsl((h as int, s as int, l as int)),
        rgb_in_range((c.0 as int, c.1 as int, c.2 as int)),
{
    proof {
        lemma_div_range(l * 255, 100, 255 * SCALE + 1);
    }
    let lr = l * 255 / 100;
    if s == 0 {
        return (lr, lr, lr);
    }
    let q = if 2 * lr > 255 * SCALE {
        proof {
            assert(0 <= s * (255 * SCALE - lr) < (100 * SCALE) * (255 * SCALE - lr + 1))
                by (nonlinear_arith)
                requires
                    0 <= lr <= 255 * SCALE,
                    0 < s <= 100 * SCALE,
            ;
            lemma_div_range(s * (255 * SCALE - lr), 100 * SCALE, 255 * SCALE - lr + 1);
        }
        lr + s * (255 * SCALE - lr) / (100 * SCALE)
    } else {
        proof {
            assert(0 <= lr * s < (100 * SCALE) * (lr + 1)) by (nonlinear_arith)
                requires
                    0 <= lr,
                    0 < s <= 100 * SCALE,
            ;
            lemma_div_range(lr * s, 100 * SCALE, lr + 1);
        }
        lr + lr * s / (100 * SCALE)
    };
    let p = 2 * lr - q;
    let r = hue_channel_exec(p, q, wrap_hue_exec(h + 2 * (60 * SCALE)));
    let g = hue_channel_exec(p, q, wrap_hue_exec(h));
    let b = hue_channel_exec(p, q, wrap_hue_exec(h - 2 * (60 * SCALE)));
    (r, g, b)
}

/// A hue computed from RGB lies in `[0, 360)` degrees.
pub proof fn lemma_hue_range(r: int, g: int, b: int)
    requires
        rgb_in_range((r, g, b)),
    ensures
        0 <= hue_of(r, g, b) < hue_top(),
{
    let mx = max3(r, g, b);
    let d = mx - min3(r, g, b);
    if d != 0 {
        let pos = hue_position(r, g, b);
        assert(0 <= pos < 6 * d);
        assert(0 <= pos * sector() < d * hue_top()) by (nonlinear_arith)
            requires
                0 <= pos < 6 * d,
                hue_top() == 6 * sector(),
                sector() > 0,
        ;
        lemma_div_range(pos * sector(), d, hue_top());
    }
}

/// HSV of an in-range RGB triple is in range.
pub proof fn lemma_hsv_from_rgb_range(c: (int, int, int))
    requires
        rgb_in_range(c),
    ensures
        cyl_in_range(hsv_from_rgb(c)),
{
    let mx = max3(c.0, c.1, c.2);
    let d = mx - min3(c.0, c.1, c.2);
    lemma_hue_range(c.0, c.1, c.2);
    if mx != 0 {
        assert(0 <= d * pct_top() < mx * (pct_top() + 1)) by (nonlinear_arith)
            requires
                0 <= d <= mx,
                mx > 0,
                pct_top() > 0,
        ;
        lemma_div_range(d * pct_top(), mx, pct_top() + 1);
    }
    lemma_div_range(mx * 100, 255, pct_top() + 1);
}

/// HSL of an in-range RGB triple is in range.
pub proof fn lemma_hsl_from_rgb_range(c: (int, int, int))
    requires
        rgb_in_range(c),
    ensures
        cyl_in_range(hsl_from_rgb(c)),
{
    let mx = max3(c.0, c.1, c.2);
    let mn = min3(c.0, c.1, c.2);
    let d = mx - mn;
    lemma_hue_range(c.0, c.1, c.2);
    lemma_div_range((mx + mn) * 100, 510, pct_top() + 1);
    if d != 0 {
        let l = (mx + mn) * 100 / 510;
        let den = if upper_half(l) {
            2 * rgb_top() - mx - mn
        } else {
            mx + mn
        };
        lemma_div_bounds(l * 255, 100);
        assert(0 <= d * pct_top() < den * (pct_top() + 1)) by (nonlinear_arith)
            requires
                0 < d <= den,
                pct_top() > 0,
        ;
        lemma_div_range(d * pct_top(), den, pct_top() + 1);
    }
}

/// RGB of an in-range HSV triple is in range.
pub proof fn lemma_rgb_from_hsv_range(c: (int, int, int))
    requires
        cyl_in_range(c),
    ensures
        rgb_in_range(rgb_from_hsv(c)),
{
    let (h, s, v) = c;
    lemma_div_range(v * 255, 100, rgb_top() + 1);
    let vr = v * 255 / 100;
    if s != 0 {
        assert(0 <= vr * s < pct_top() * (vr + 1)) by (nonlinear_arith)
            requires
                0 <= vr,
                0 < s <= pct_top(),
        ;
        lemma_div_range(vr * s, pct_top(), vr + 1);
        let chroma = vr * s / pct_top();
        let k = h / sector();
        lemma_div_bounds(h, sector());
        lemma_div_range(h, sector(), 7);
        let fr = h - k * sector();
        assert(0 <= chroma * fr < sector() * (chroma + 1)) by (nonlinear_arith)
            requires
                0 <= chroma,
                0 <= fr < sector(),
        ;
        lemma_div_range(chroma * fr, sector(), chroma + 1);
        assert(0 <= chroma * (sector() - fr) < sector() * (chroma + 1)) by (nonlinear_arith)
            requires
                0 <= chroma,
                0 <= fr < sector(),
        ;
        lemma_div_range(chroma * (sector() - fr), sector(), chroma + 1);
    }
}

/// RGB of an in-range HSL triple is in range.
pub proof fn lemma_rgb_from_hsl_range(c: (int, int, int))
    requires
        cyl_in_range(c),
    ensures
        rgb_in_range(rgb_from_hsl(c)),
{
    let (h, s, l) = c;
    lemma_div_range(l * 255, 100, rgb_top() + 1);
    let lr = lightness_channel(l);
    if s != 0 {
        if upper_half(l) {
            assert(0 <= s * (rgb_top() - lr) < pct_top() * (rgb_top() - lr + 1)) by (nonlinear_arith)
                requires
                    0 <= lr <= rgb_top(),
                    0 < s <= pct_top(),
            ;
            lemma_div_range(s * (rgb_top() - lr), pct_top(), rgb_top() - lr + 1);
        } else {
            assert(0 <= lr * s < pct_top() * (lr + 1)) by (nonlinear_arith)
                requires
                    0 <= lr,
                    0 < s <= pct_top(),
            ;
            lemma_div_range(lr * s, pct_top(), lr + 1);
        }
        let q = hsl_upper(s, l);
        let p = 2 * lr - q;
        assert(0 <= p <= q <= rgb_top());
        assert forall|t: int| 0 <= t < hue_top() implies p <= #[trigger] hue_channel(p, q, t) <= q by {
            if t < sector() {
                assert(0 <= (q - p) * t < sector() * (q - p + 1)) by (nonlinear_arith)
                    requires
                        0 <= q - p,
                        0 <= t < sector(),
                ;
                lemma_div_range((q - p) * t, sector(), q - p + 1);
            } else if 3 * sector() <= t < 4 * sector() {
                assert(0 <= (q - p) * (4 * sector() - t) < sector() * (q - p + 1)) by (nonlinear_arith)
                    requires
                        0 <= q - p,
                        3 * sector() <= t < 4 * sector(),
                ;
                lemma_div_range((q - p) * (4 * sector() - t), sector(), q - p + 1);
            }
        }
        assert(0 <= wrap_hue(h + 2 * sector()) < hue_top());
        assert(0 <= wrap_hue(h) < hue_top());
        assert(0 <= wrap_hue(h - 2 * sector()) < hue_top());
    }
}

/// HSL and HSV read the same hue off an RGB triple, pure blue included:
/// both reduce the hue position modulo six sectors.
pub proof fn lemma_same_hue(c: (int, int, int))
    ensures
        hsl_from_rgb(c).0 == hsv_from_rgb(c).0,
{
}

} // verus!
