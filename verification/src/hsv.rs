use vstd::prelude::*;

use crate::buffer::Rgba;

verus! {

use vstd::arithmetic::div_mod::{
    lemma_fundamental_div_mod,
    lemma_fundamental_div_mod_converse_div,
    lemma_fundamental_div_mod_converse_mod,
    lemma_mod_multiples_vanish,
    lemma_small_mod,
};

// The HSV model used by the hue/saturation/value shift operation.
//
// Hue is measured in 1/60 of a degree, so a full circle is 21600 units and
// each of the six sectors of the colour hexagon spans 3600 units.  Saturation
// is the chroma `max - min` (0..255) and value is the channel maximum.  The
// fine hue unit together with round-to-nearest reconstruction makes the
// conversion exactly invertible, so shifting by zero is the identity.

pub open spec fn max3(a: int, b: int, c: int) -> int {
    if a >= b && a >= c {
        a
    } else if b >= c {
        b
    } else {
        c
    }
}

pub open spec fn min3(a: int, b: int, c: int) -> int {
    if a <= b && a <= c {
        a
    } else if b <= c {
        b
    } else {
        c
    }
}

/// Which sector of the colour hexagon a non-grey pixel lies in (0..6).
pub open spec fn sector_of(p: Rgba) -> int {
    let mx = max3(p.r as int, p.g as int, p.b as int);
    let mn = min3(p.r as int, p.g as int, p.b as int);
    if p.r == mx && p.b == mn && p.g < mx {
        0
    } else if p.g == mx && p.b == mn && p.r > mn {
        1
    } else if p.g == mx && p.r == mn && p.b < mx {
        2
    } else if p.b == mx && p.r == mn && p.g > mn {
        3
    } else if p.b == mx && p.g == mn && p.r < mx {
        4
    } else {
        5
    }
}

/// Position of the middle channel within its sector, in [0, chroma).
pub open spec fn sector_pos_of(p: Rgba) -> int {
    let mx = max3(p.r as int, p.g as int, p.b as int);
    let mn = min3(p.r as int, p.g as int, p.b as int);
    let sec = sector_of(p);
    if sec == 0 {
        p.g - mn
    } else if sec == 1 {
        mx - p.r
    } else if sec == 2 {
        p.b - mn
    } else if sec == 3 {
        mx - p.g
    } else if sec == 4 {
        p.r - mn
    } else {
        mx - p.b
    }
}

/// Hue of a pixel in 1/60-degree units, in [0, 21600); grey pixels get 0.
pub open spec fn hue_of(p: Rgba) -> int {
    let mx = max3(p.r as int, p.g as int, p.b as int);
    let mn = min3(p.r as int, p.g as int, p.b as int);
    if mx == mn {
        0
    } else {
        sector_of(p) * 3600 + 3600 * sector_pos_of(p) / (mx - mn)
    }
}

/// Rebuilds a pixel from hue `h` in [0, 21600), chroma `s` with `s <= v`,
/// value `v` in [0, 255], and an untouched alpha.  The middle channel is
/// reconstructed with round-to-nearest, which makes the conversion exact.
pub open spec fn rgb_from_hsv(h: int, s: int, v: int, a: u8) -> Rgba {
    if s <= 0 {
        Rgba { r: v as u8, g: v as u8, b: v as u8, a }
    } else {
        let sec = h / 3600;
        let q = h % 3600;
        let pos = (q * s + 1800) / 3600;
        let mn = v - s;
        let rise = (mn + pos) as u8;
        let fall = (v - pos) as u8;
        let top = v as u8;
        let bot = mn as u8;
        if sec == 0 {
            Rgba { r: top, g: rise, b: bot, a }
        } else if sec == 1 {
            Rgba { r: fall, g: top, b: bot, a }
        } else if sec == 2 {
            Rgba { r: bot, g: top, b: rise, a }
        } else if sec == 3 {
            Rgba { r: bot, g: fall, b: top, a }
        } else if sec == 4 {
            Rgba { r: rise, g: bot, b: top, a }
        } else {
            Rgba { r: top, g: bot, b: fall, a }
        }
    }
}

/// The full shift: convert to HSV, add the shifts (hue wraps over the full
/// circle, saturation and value clamp), convert back.
pub open spec fn hsv_shift_px(p: Rgba, hs: int, ss: int, vs: int) -> Rgba {
    let v = max3(p.r as int, p.g as int, p.b as int);
    let mn = min3(p.r as int, p.g as int, p.b as int);
    let s = v - mn;
    let h2 = (hue_of(p) + hs * 60) % 21600;
    let v2 = if v + vs < 0 {
        0int
    } else if v + vs > 255 {
        255int
    } else {
        v + vs
    };
    let s2a = if s + ss < 0 {
        0int
    } else if s + ss > 255 {
        255int
    } else {
        s + ss
    };
    let s2 = if s2a > v2 {
        v2
    } else {
        s2a
    };
    rgb_from_hsv(h2, s2, v2, p.a)
}

/// Largest of three channel values.
fn max3_exec(a: u8, b: u8, c: u8) -> (r: u8)
    ensures
        r as int == max3(a as int, b as int, c as int),
{
    if a >= b && a >= c {
        a
    } else if b >= c {
        b
    } else {
        c
    }
}

/// Smallest of three channel values.
fn min3_exec(a: u8, b: u8, c: u8) -> (r: u8)
    ensures
        r as int == min3(a as int, b as int, c as int),
{
    if a <= b && a <= c {
        a
    } else if b <= c {
        b
    } else {
        c
    }
}

/// The hue reconstructed from a sector and an in-sector position lands back
/// on the same sector and position: the core of the round-trip argument.
proof fn lemma_hue_round_trip(sec: int, pos: int, d: int)
    requires
        0 <= sec < 6,
        0 < d <= 255,
        0 <= pos < d,
    ensures
        (sec * 3600 + 3600 * pos / d) / 3600 == sec,
        (sec * 3600 + 3600 * pos / d) % 3600 == (3600 * pos / d),
        ((sec * 3600 + 3600 * pos / d) % 3600 * d + 1800) / 3600 == pos,
{
    let q = 3600 * pos / d;
    let t = (3600 * pos) % d;
    lemma_fundamental_div_mod(3600 * pos, d);
    assert(3600 * pos == d * q + t);
    assert(3600 * pos < 3600 * d) by (nonlinear_arith)
        requires pos < d;
    assert(d * q <= 3600 * pos);
    assert(d * q < 3600 * d);
    assert(q < 3600) by (nonlinear_arith)
        requires d * q < 3600 * d, d > 0;
    assert(q >= 0) by (nonlinear_arith)
        requires d * q + t == 3600 * pos, 0 <= t < d, d > 0, pos >= 0;
    let h = sec * 3600 + q;
    lemma_fundamental_div_mod_converse_div(h, 3600, sec, q);
    lemma_fundamental_div_mod_converse_mod(h, 3600, sec, q);
    assert(h / 3600 == sec);
    assert(h % 3600 == q);
    // Reconstruction: (q * d + 1800) / 3600 == pos.
    assert(q * d == d * q) by (nonlinear_arith);
    assert(q * d + 1800 == pos * 3600 + (1800 - t)) by {
        assert(3600 * pos == pos * 3600) by (nonlinear_arith);
    }
    assert(0 <= 1800 - t < 3600);
    lemma_fundamental_div_mod_converse_div(q * d + 1800, 3600, pos, 1800 - t);
}

/// Shifting hue, saturation and value by zero leaves every pixel exactly
/// unchanged: the integer HSV round-trip loses nothing.
pub proof fn lemma_hsv_zero_shift_identity(p: Rgba)
    ensures
        hsv_shift_px(p, 0, 0, 0) == p,
{
    let v = max3(p.r as int, p.g as int, p.b as int);
    let mn = min3(p.r as int, p.g as int, p.b as int);
    let d = v - mn;
    let h = hue_of(p);
    if d == 0 {
        assert(h == 0);
        lemma_small_mod(0nat, 21600nat);
        assert(hsv_shift_px(p, 0, 0, 0) == rgb_from_hsv(0, 0, v, p.a));
        assert(p.r == v && p.g == v && p.b == v);
    } else {
        let sec = sector_of(p);
        let pos = sector_pos_of(p);
        assert(0 <= sec < 6);
        assert(0 <= pos < d);
        lemma_hue_round_trip(sec, pos, d);
        let q = 3600 * pos / d;
        assert(h == sec * 3600 + q);
        assert(0 <= h < 21600) by {
            assert(q < 3600);
            assert(sec * 3600 <= 5 * 3600) by (nonlinear_arith)
                requires sec <= 5;
            assert(sec * 3600 >= 0) by (nonlinear_arith)
                requires sec >= 0;
        }
        lemma_small_mod(h as nat, 21600nat);
        assert((h + 0) % 21600 == h);
        // With zero shifts the HSV triple is unchanged, so the result is
        // rgb_from_hsv(h, d, v, p.a); the round-trip lemma pins each channel.
        assert(hsv_shift_px(p, 0, 0, 0) == rgb_from_hsv(h, d, v, p.a));
        let res = rgb_from_hsv(h, d, v, p.a);
        assert(h / 3600 == sec);
        assert(h % 3600 == q);
        assert((q * d + 1800) / 3600 == pos);
        assert(res == p);
    }
}

/// Applies the hue/saturation/value shift to one pixel.
pub fn hsv_shift_pixel(p: Rgba, hs: i32, ss: i32, vs: i32) -> (r: Rgba)
    ensures
        r == hsv_shift_px(p, hs as int, ss as int, vs as int),
{
    let mx: u8 = max3_exec(p.r, p.g, p.b);
    let mn: u8 = min3_exec(p.r, p.g, p.b);
    let v: u32 = mx as u32;
    let s: u32 = (mx - mn) as u32;
    let h: u32 = hue_exec(p, mx, mn);
    // Wrap the shifted hue into [0, 21600): shift into nonnegative range
    // first so the unsigned remainder matches the mathematical one.
    let total: i64 = h as i64 + hs as i64 * 60;
    let nn: i64 = total + 21600i64 * 6000000i64;
    proof {
        lemma_mod_multiples_vanish(6000000, total as int, 21600);
        assert(nn >= 0) by {
            assert(hs as i64 * 60 >= -128849018880i64 + 0) by (nonlinear_arith)
                requires hs >= i32::MIN;
        }
    }
    let h2: u32 = (nn as u64 % 21600) as u32;
    let v2: u32 = clamp_255(v as i64 + vs as i64);
    let s2a: u32 = clamp_255(s as i64 + ss as i64);
    let s2: u32 = if s2a > v2 {
        v2
    } else {
        s2a
    };
    rgb_from_hsv_exec(h2, s2, v2, p.a)
}

/// Clamps a shifted component to [0, 255].
fn clamp_255(x: i64) -> (r: u32)
    ensures
        r as int == (if x < 0 { 0int } else if x > 255 { 255int } else { x as int }),
{
    if x < 0 {
        0
    } else if x > 255 {
        255
    } else {
        x as u32
    }
}

/// Hue of a pixel, given its channel maximum and minimum.
fn hue_exec(p: Rgba, mx: u8, mn: u8) -> (h: u32)
    requires
        mx as int == max3(p.r as int, p.g as int, p.b as int),
        mn as int == min3(p.r as int, p.g as int, p.b as int),
    ensures
        h as int == hue_of(p),
        h < 21600,
{
    if mx == mn {
        return 0;
    }
    let d: u32 = (mx - mn) as u32;
    let (sec, pos): (u32, u32) = if p.r == mx && p.b == mn && p.g < mx {
        (0, (p.g - mn) as u32)
    } else if p.g == mx && p.b == mn && p.r > mn {
        (1, (mx - p.r) as u32)
    } else if p.g == mx && p.r == mn && p.b < mx {
        (2, (p.b - mn) as u32)
    } else if p.b == mx && p.r == mn && p.g > mn {
        (3, (mx - p.g) as u32)
    } else if p.b == mx && p.g == mn && p.r < mx {
        (4, (p.r - mn) as u32)
    } else {
        (5, (mx - p.b) as u32)
    };
    proof {
        assert(sec as int == sector_of(p));
        assert(pos as int == sector_pos_of(p));
        assert(pos < d);
        assert(3600 * (pos as int) / (d as int) < 3600) by {
            assert(3600 * (pos as int) < 3600 * (d as int)) by (nonlinear_arith)
                requires pos < d;
            assert(3600 * (pos as int) / (d as int) < 3600) by (nonlinear_arith)
                requires
                    3600 * (pos as int) < 3600 * (d as int),
                    d > 0,
                    pos >= 0;
        }
    }
    sec * 3600 + 3600 * pos / d
}

/// Rebuilds a pixel from shifted hue, chroma and value.
fn rgb_from_hsv_exec(h: u32, s: u32, v: u32, a: u8) -> (r: Rgba)
    requires
        h < 21600,
        s <= v,
        v <= 255,
    ensures
        r == rgb_from_hsv(h as int, s as int, v as int, a),
{
    if s == 0 {
        return Rgba { r: v as u8, g: v as u8, b: v as u8, a };
    }
    let sec: u32 = h / 3600;
    let q: u32 = h % 3600;
    proof {
        vstd::arithmetic::mul::lemma_mul_upper_bound(q as int, 3599, s as int, 255);
    }
    let pos: u32 = (q * s + 1800) / 3600;
    proof {
        assert(pos <= s) by {
            assert((q as int) * (s as int) + 1800 < ((s as int) + 1) * 3600) by (nonlinear_arith)
                requires q < 3600, s >= 1;
            assert(((q as int) * (s as int) + 1800) / 3600 < (s as int) + 1) by (nonlinear_arith)
                requires (q as int) * (s as int) + 1800 < ((s as int) + 1) * 3600,
                    (q as int) * (s as int) + 1800 >= 0;
        }
    }
    let mn: u32 = v - s;
    let rise: u8 = (mn + pos) as u8;
    let fall: u8 = (v - pos) as u8;
    let top: u8 = v as u8;
    let bot: u8 = mn as u8;
    if sec == 0 {
        Rgba { r: top, g: rise, b: bot, a }
    } else if sec == 1 {
        Rgba { r: fall, g: top, b: bot, a }
    } else if sec == 2 {
        Rgba { r: bot, g: top, b: rise, a }
    } else if sec == 3 {
        Rgba { r: bot, g: fall, b: top, a }
    } else if sec == 4 {
        Rgba { r: rise, g: bot, b: top, a }
    } else {
        Rgba { r: top, g: bot, b: fall, a }
    }
}

} // verus!
