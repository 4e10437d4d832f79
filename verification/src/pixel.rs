use vstd::prelude::*;

use crate::buffer::{px_at, FrameBuffer, Rgba};
use crate::hsv::{hsv_shift_pixel, hsv_shift_px};
use crate::ops::ImageOperation;

verus! {

// Per-pixel transform formulas.  Every formula saturates to the channel
// range [0, 255]; none can fail, and out-of-range parameters are clamped.

/// Clamps an integer to the valid channel range.
pub open spec fn clamp_channel(v: int) -> u8 {
    if v < 0 {
        0u8
    } else if v > 255 {
        255u8
    } else {
        v as u8
    }
}

/// Saturating conversion of a wide intermediate value to a channel byte.
pub fn clamp_to_u8(v: i64) -> (r: u8)
    ensures
        r == clamp_channel(v as int),
{
    if v < 0 {
        0
    } else if v > 255 {
        255
    } else {
        v as u8
    }
}

/// Additive brightness on one channel.
pub open spec fn brightness_chan(c: u8, delta: int) -> u8 {
    clamp_channel(c + delta)
}

/// Contrast on one channel: spread around the 128 midpoint by the factor
/// `(100 + p) / (100 - p)` with `p` clamped to [-100, 100] (a divisor of 0
/// is replaced by 1, giving the steepest spread).
pub open spec fn contrast_chan(c: u8, percent: int) -> u8 {
    let p = if percent < -100 {
        -100int
    } else if percent > 100 {
        100int
    } else {
        percent
    };
    let num = 100 + p;
    let den = if p == 100 {
        1int
    } else {
        100 - p
    };
    if c >= 128 {
        clamp_channel(128 + (c - 128) * num / den)
    } else {
        clamp_channel(128 - (128 - c) * num / den)
    }
}

/// Multiplicative exposure on one channel: scale by `(100 + a) / 100` with
/// `a` clamped to [-100, 100].
pub open spec fn exposure_chan(c: u8, amount: int) -> u8 {
    let a = if amount < -100 {
        -100int
    } else if amount > 100 {
        100int
    } else {
        amount
    };
    clamp_channel(c * (100 + a) / 100)
}

/// Linear remap of the window [low, high] to [0, 255]; outside values clamp
/// to the nearest bound, and `low >= high` is a no-op.
pub open spec fn equalize_chan(c: u8, low: u8, high: u8) -> u8 {
    if low >= high {
        c
    } else if c <= low {
        0u8
    } else {
        clamp_channel((c - low) * 255 / (high - low))
    }
}

/// Quantization into `levels` evenly spaced buckets, each mapped to its
/// representative spread over [0, 255]; `levels` is clamped to [1, 256],
/// 1 collapses everything to 0 and 256 is the identity.
pub open spec fn posterize_chan(c: u8, levels: u16) -> u8 {
    let l = if levels == 0 {
        1int
    } else if levels > 256 {
        256int
    } else {
        levels as int
    };
    if l == 1 {
        0u8
    } else {
        clamp_channel((c * l / 256) * 255 / (l - 1))
    }
}

/// Perceptual luminance of a pixel with the fixed 299/587/114 weighting.
pub open spec fn luminance(p: Rgba) -> int {
    (p.r * 299 + p.g * 587 + p.b * 114) / 1000
}

/// Blend of one channel toward the pixel's luminance by `percent`
/// (clamped to 100).
pub open spec fn desaturate_chan(c: u8, lum: int, percent: u8) -> u8 {
    let q = if percent > 100 {
        100int
    } else {
        percent as int
    };
    clamp_channel((c * (100 - q) + lum * q) / 100)
}

/// Position-seeded pseudo-random word: a linear congruential step over
/// 2^64 followed by taking 31 middle bits.  A pure function of the seed,
/// so noise is reproducible for a given pixel position.
pub open spec fn noise_word(seed: int) -> int {
    ((seed * 6364136223846793005 + 1442695040888963407) % 0x1_0000_0000_0000_0000)
        / 0x2_0000_0000 % 0x8000_0000
}

/// Perturbation for one channel: a value in [-amt, amt] drawn from the
/// position-seeded word.
pub open spec fn noise_delta(seed: int, amt: u8) -> int {
    noise_word(seed) % (2 * amt + 1) - amt
}

/// Noise on one channel of pixel index `i`: channel `c` is perturbed by the
/// word seeded from the position (and, unless monochrome, the channel).
pub open spec fn noise_chan(val: u8, i: int, c: int, amt: u8, mono: bool) -> u8 {
    let seed = if mono {
        4 * i
    } else {
        4 * i + c
    };
    clamp_channel(val + noise_delta(seed, amt))
}

/// One per-pixel operation applied to the pixel at index `i`; operations
/// that are not per-pixel leave the pixel unchanged here.
pub open spec fn apply_op_px(op: ImageOperation, p: Rgba, i: int) -> Rgba {
    match op {
        ImageOperation::Brightness(d) => Rgba {
            r: brightness_chan(p.r, d as int),
            g: brightness_chan(p.g, d as int),
            b: brightness_chan(p.b, d as int),
            a: p.a,
        },
        ImageOperation::Contrast(pc) => Rgba {
            r: contrast_chan(p.r, pc as int),
            g: contrast_chan(p.g, pc as int),
            b: contrast_chan(p.b, pc as int),
            a: p.a,
        },
        ImageOperation::Exposure(am) => Rgba {
            r: exposure_chan(p.r, am as int),
            g: exposure_chan(p.g, am as int),
            b: exposure_chan(p.b, am as int),
            a: p.a,
        },
        ImageOperation::Equalize(w) => Rgba {
            r: equalize_chan(p.r, w.0, w.1),
            g: equalize_chan(p.g, w.0, w.1),
            b: equalize_chan(p.b, w.0, w.1),
            a: p.a,
        },
        ImageOperation::Posterize(l) => Rgba {
            r: posterize_chan(p.r, l),
            g: posterize_chan(p.g, l),
            b: posterize_chan(p.b, l),
            a: p.a,
        },
        ImageOperation::Desaturate(pc) => Rgba {
            r: desaturate_chan(p.r, luminance(p), pc),
            g: desaturate_chan(p.g, luminance(p), pc),
            b: desaturate_chan(p.b, luminance(p), pc),
            a: p.a,
        },
        ImageOperation::HSV(sh) => hsv_shift_px(p, sh.0 as int, sh.1 as int, sh.2 as int),
        ImageOperation::Noise { amt, mono } => Rgba {
            r: noise_chan(p.r, i, 0, amt, mono),
            g: noise_chan(p.g, i, 1, amt, mono),
            b: noise_chan(p.b, i, 2, amt, mono),
            a: p.a,
        },
        _ => p,
    }
}

/// The composed effect of an operation list on one pixel, applied strictly
/// left to right.
pub open spec fn apply_ops_px(ops: Seq<ImageOperation>, p: Rgba, i: int) -> Rgba
    decreases ops.len(),
{
    if ops.len() == 0 {
        p
    } else {
        apply_ops_px(ops.drop_first(), apply_op_px(ops[0], p, i), i)
    }
}

/// Composing one more operation on the right applies it after the prefix.
pub proof fn lemma_apply_ops_px_step(ops: Seq<ImageOperation>, j: int, p: Rgba, i: int)
    requires
        0 <= j < ops.len(),
    ensures
        apply_ops_px(ops.take(j + 1), p, i) == apply_op_px(
            ops[j],
            apply_ops_px(ops.take(j), p, i),
            i,
        ),
    decreases j,
{
    if j == 0 {
        let s1 = ops.take(1);
        assert(s1.len() == 1);
        assert(s1[0] == ops[0]);
        assert(s1.drop_first() =~= Seq::<ImageOperation>::empty());
        assert(apply_ops_px(s1, p, i) == apply_ops_px(s1.drop_first(), apply_op_px(ops[0], p, i), i));
        assert(apply_ops_px(s1.drop_first(), apply_op_px(ops[0], p, i), i) == apply_op_px(ops[0], p, i));
        assert(ops.take(0).len() == 0);
        assert(apply_ops_px(ops.take(0), p, i) == p);
    } else {
        let q = apply_op_px(ops[0], p, i);
        lemma_apply_ops_px_step(ops.drop_first(), j - 1, q, i);
        assert(ops.take(j + 1).drop_first() =~= ops.drop_first().take(j));
        assert(ops.take(j).drop_first() =~= ops.drop_first().take(j - 1));
        assert(ops.take(j + 1)[0] == ops[0]);
        assert(ops.take(j)[0] == ops[0]);
        assert(ops.drop_first()[j - 1] == ops[j]);
        assert(apply_ops_px(ops.take(j + 1), p, i) == apply_ops_px(
            ops.drop_first().take(j),
            q,
            i,
        ));
        assert(apply_ops_px(ops.take(j), p, i) == apply_ops_px(
            ops.drop_first().take(j - 1),
            q,
            i,
        ));
    }
}

/// Brightness by `d` then by `-d` restores a channel whenever neither step
/// clamps, i.e. whenever `c + d` stays inside [0, 255].
pub proof fn lemma_brightness_inverse(c: u8, d: int)
    requires
        0 <= c + d <= 255,
    ensures
        brightness_chan(brightness_chan(c, d), -d) == c,
{
}

/// Brightness by `d` then by `-d` restores a whole pixel when no channel
/// clamps at either bound.
pub proof fn lemma_brightness_pixel_inverse(p: Rgba, d: int, i: int)
    requires
        0 <= p.r + d <= 255,
        0 <= p.g + d <= 255,
        0 <= p.b + d <= 255,
        i32::MIN <= d <= i32::MAX,
        i32::MIN <= -d <= i32::MAX,
    ensures
        apply_op_px(
            ImageOperation::Brightness((-d) as i32),
            apply_op_px(ImageOperation::Brightness(d as i32), p, i),
            i,
        ) == p,
{
}

/// Applying the hue/saturation/value operation with all shifts zero leaves
/// every pixel exactly unchanged.
pub proof fn lemma_hsv_zero_op_identity(p: Rgba, i: int)
    ensures
        apply_op_px(ImageOperation::HSV((0, 0, 0)), p, i) == p,
{
    crate::hsv::lemma_hsv_zero_shift_identity(p);
}

/// Posterize with a single level collapses every channel to one value.
pub proof fn lemma_posterize_collapse(c: u8)
    ensures
        posterize_chan(c, 1) == 0,
{
}

/// Posterize with 256 levels is the identity on every channel.
pub proof fn lemma_posterize_identity(c: u8)
    ensures
        posterize_chan(c, 256) == c,
{
    assert(c * 256 / 256 == c) by (nonlinear_arith);
    assert(c * 256 / 256 * 255 / 255 == c * 256 / 256) by (nonlinear_arith)
        requires c * 256 / 256 >= 0;
}

/// Applies one per-pixel operation to the pixel at index `i`.
pub fn apply_op_pixel(op: &ImageOperation, p: Rgba, i: u64) -> (r: Rgba)
    requires
        i < u64::MAX / 4,
    ensures
        r == apply_op_px(*op, p, i as int),
{
    match *op {
        ImageOperation::Brightness(d) => {
            let dd: i64 = d as i64;
            Rgba {
                r: clamp_to_u8(p.r as i64 + dd),
                g: clamp_to_u8(p.g as i64 + dd),
                b: clamp_to_u8(p.b as i64 + dd),
                a: p.a,
            }
        },
        ImageOperation::Contrast(pc) => Rgba {
            r: contrast_exec(p.r, pc),
            g: contrast_exec(p.g, pc),
            b: contrast_exec(p.b, pc),
            a: p.a,
        },
        ImageOperation::Exposure(am) => Rgba {
            r: exposure_exec(p.r, am),
            g: exposure_exec(p.g, am),
            b: exposure_exec(p.b, am),
            a: p.a,
        },
        ImageOperation::Equalize(w) => Rgba {
            r: equalize_exec(p.r, w.0, w.1),
            g: equalize_exec(p.g, w.0, w.1),
            b: equalize_exec(p.b, w.0, w.1),
            a: p.a,
        },
        ImageOperation::Posterize(l) => Rgba {
            r: posterize_exec(p.r, l),
            g: posterize_exec(p.g, l),
            b: posterize_exec(p.b, l),
            a: p.a,
        },
        ImageOperation::Desaturate(pc) => {
            let lum: u32 = (p.r as u32 * 299 + p.g as u32 * 587 + p.b as u32 * 114) / 1000;
            Rgba {
                r: desaturate_exec(p.r, lum, pc),
                g: desaturate_exec(p.g, lum, pc),
                b: desaturate_exec(p.b, lum, pc),
                a: p.a,
            }
        },
        ImageOperation::HSV(sh) => hsv_shift_pixel(p, sh.0, sh.1, sh.2),
        ImageOperation::Noise { amt, mono } => Rgba {
            r: noise_exec(p.r, i, 0, amt, mono),
            g: noise_exec(p.g, i, 1, amt, mono),
            b: noise_exec(p.b, i, 2, amt, mono),
            a: p.a,
        },
        _ => p,
    }
}

/// Contrast on one channel.
fn contrast_exec(c: u8, percent: i32) -> (r: u8)
    ensures
        r == contrast_chan(c, percent as int),
{
    let p: i64 = if percent < -100 {
        -100
    } else if percent > 100 {
        100
    } else {
        percent as i64
    };
    let num: u32 = (100 + p) as u32;
    let den: u32 = if p == 100 {
        1
    } else {
        (100 - p) as u32
    };
    if c >= 128 {
        proof {
            vstd::arithmetic::mul::lemma_mul_upper_bound(c - 128, 127, num as int, 200);
        }
        let spread: u32 = (c as u32 - 128) * num / den;
        clamp_to_u8(128 + spread as i64)
    } else {
        proof {
            vstd::arithmetic::mul::lemma_mul_upper_bound(128 - c, 128, num as int, 200);
        }
        let spread: u32 = (128 - c as u32) * num / den;
        clamp_to_u8(128 - spread as i64)
    }
}

/// Exposure on one channel.
fn exposure_exec(c: u8, amount: i32) -> (r: u8)
    ensures
        r == exposure_chan(c, amount as int),
{
    let a: i64 = if amount < -100 {
        -100
    } else if amount > 100 {
        100
    } else {
        amount as i64
    };
    proof {
        vstd::arithmetic::mul::lemma_mul_upper_bound(c as int, 255, 100 + a, 200);
    }
    let scaled: u32 = c as u32 * (100 + a) as u32 / 100;
    clamp_to_u8(scaled as i64)
}

/// Window remap on one channel.
fn equalize_exec(c: u8, low: u8, high: u8) -> (r: u8)
    ensures
        r == equalize_chan(c, low, high),
{
    if low >= high {
        c
    } else if c <= low {
        0
    } else {
        let t: u32 = (c - low) as u32 * 255 / (high - low) as u32;
        clamp_to_u8(t as i64)
    }
}

/// Posterize on one channel.
fn posterize_exec(c: u8, levels: u16) -> (r: u8)
    ensures
        r == posterize_chan(c, levels),
{
    let l: u32 = if levels == 0 {
        1
    } else if levels > 256 {
        256
    } else {
        levels as u32
    };
    if l == 1 {
        0
    } else {
        proof {
            vstd::arithmetic::mul::lemma_mul_upper_bound(c as int, 255, l as int, 256);
        }
        let bucket: u32 = c as u32 * l / 256;
        clamp_to_u8((bucket * 255 / (l - 1)) as i64)
    }
}

/// Luminance blend on one channel.
fn desaturate_exec(c: u8, lum: u32, percent: u8) -> (r: u8)
    requires
        lum <= 255,
    ensures
        r == desaturate_chan(c, lum as int, percent),
{
    let q: u32 = if percent > 100 {
        100
    } else {
        percent as u32
    };
    proof {
        vstd::arithmetic::mul::lemma_mul_upper_bound(c as int, 255, 100 - q, 100);
        vstd::arithmetic::mul::lemma_mul_upper_bound(lum as int, 255, q as int, 100);
    }
    let blended: u32 = (c as u32 * (100 - q) + lum * q) / 100;
    clamp_to_u8(blended as i64)
}

/// Position-seeded noise on one channel.
fn noise_exec(val: u8, i: u64, c: u64, amt: u8, mono: bool) -> (r: u8)
    requires
        i < u64::MAX / 4,
        c <= 3,
    ensures
        r == noise_chan(val, i as int, c as int, amt, mono),
{
    let seed: u64 = if mono {
        4 * i
    } else {
        4 * i + c
    };
    let wide: u128 = (seed as u128 * 6364136223846793005u128 + 1442695040888963407u128)
        % 0x1_0000_0000_0000_0000u128;
    let word: u64 = (wide as u64 / 0x2_0000_0000u64) % 0x8000_0000u64;
    let delta: i64 = (word % (2 * amt as u64 + 1)) as i64 - amt as i64;
    proof {
        assert(seed as int * 6364136223846793005 + 1442695040888963407 == (
        seed as u128 * 6364136223846793005u128 + 1442695040888963407u128) as int)
            by (nonlinear_arith)
            requires seed <= u64::MAX;
    }
    clamp_to_u8(val as i64 + delta)
}

/// The fused pass: one scan over the buffer that applies the composed
/// per-pixel effect of the whole list to every pixel.  Operations in the
/// list that are not per-pixel are ignored by this pass.
pub fn process_pixels(buf: &mut FrameBuffer, ops: &[ImageOperation])
    requires
        old(buf).wf(),
    ensures
        final(buf).wf(),
        final(buf).width == old(buf).width,
        final(buf).height == old(buf).height,
        forall|i: int|
            0 <= i < final(buf).npix() ==> px_at(final(buf).data@, i) == apply_ops_px(
                ops@,
                px_at(old(buf).data@, i),
                i,
            ),
{
    let npix: usize = buf.data.len() / 4;
    proof {
        assert(npix == old(buf).npix());
        assert(4 * npix == buf.data@.len());
    }
    let mut out: Vec<u8> = Vec::with_capacity(buf.data.len());
    let mut i: usize = 0;
    while i < npix
        invariant
            *buf == *old(buf),
            buf.wf(),
            npix == buf.npix(),
            4 * npix == buf.data@.len(),
            4 * npix <= usize::MAX,
            i <= npix,
            out@.len() == 4 * i,
            forall|k: int|
                0 <= k < i ==> px_at(out@, k) == apply_ops_px(ops@, px_at(buf.data@, k), k),
        decreases npix - i,
    {
        let mut p = Rgba {
            r: buf.data[4 * i],
            g: buf.data[4 * i + 1],
            b: buf.data[4 * i + 2],
            a: buf.data[4 * i + 3],
        };
        assert(p == px_at(buf.data@, i as int));
        let ghost p0 = p;
        let mut j: usize = 0;
        while j < ops.len()
            invariant
                j <= ops@.len(),
                (i as int) < u64::MAX / 4,
                p == apply_ops_px(ops@.take(j as int), p0, i as int),
            decreases ops@.len() - j,
        {
            p = apply_op_pixel(&ops[j], p, i as u64);
            proof {
                lemma_apply_ops_px_step(ops@, j as int, p0, i as int);
            }
            j += 1;
        }
        proof {
            assert(ops@.take(ops@.len() as int) =~= ops@);
            assert(p == apply_ops_px(ops@, p0, i as int));
        }
        let ghost out_before = out@;
        out.push(p.r);
        out.push(p.g);
        out.push(p.b);
        out.push(p.a);
        i += 1;
        proof {
            assert forall|k: int| 0 <= k < i implies px_at(out@, k) == apply_ops_px(
                ops@,
                px_at(buf.data@, k),
                k,
            ) by {
                if k < i - 1 {
                    assert(px_at(out_before, k) == apply_ops_px(ops@, px_at(buf.data@, k), k));
                    assert(0 <= 4 * k && 4 * k + 3 < out_before.len());
                    assert(out@[4 * k] == out_before[4 * k]);
                    assert(out@[4 * k + 1] == out_before[4 * k + 1]);
                    assert(out@[4 * k + 2] == out_before[4 * k + 2]);
                    assert(out@[4 * k + 3] == out_before[4 * k + 3]);
                    assert(px_at(out@, k) == px_at(out_before, k));
                } else {
                    assert(k == i - 1);
                    assert(p0 == px_at(buf.data@, k));
                    assert(p == apply_ops_px(ops@, p0, k));
                    assert(out@[4 * k] == p.r);
                    assert(out@[4 * k + 1] == p.g);
                    assert(out@[4 * k + 2] == p.b);
                    assert(out@[4 * k + 3] == p.a);
                    assert(px_at(out@, k) == p);
                }
            }
        }
    }
    buf.data = out;
}

} // verus!
