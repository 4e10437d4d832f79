use vstd::prelude::*;

use crate::buffer::{chan_of, lemma_pixel_index_in_range, px_at, FrameBuffer, Rgba};
use crate::ops::{is_per_pixel, ImageOperation, ScaleFilter};
use crate::pixel::{apply_op_px, apply_ops_px, process_pixels};

verus! {

use vstd::arithmetic::div_mod::{
    lemma_div_is_ordered,
    lemma_div_pos_is_pos,
    lemma_fundamental_div_mod,
    lemma_fundamental_div_mod_converse_div,
    lemma_fundamental_div_mod_converse_mod,
    lemma_multiply_divide_lt,
};
use vstd::arithmetic::mul::lemma_mul_upper_bound;

// The whole-image executor: operations that read neighbouring pixels or
// change the buffer's shape.  Each runs in isolation, consuming the previous
// buffer and producing a fully formed replacement.

/// The packed byte sequence of `npix` pixels where pixel `k` is `f(k)`.
pub open spec fn pixel_seq(npix: int, f: spec_fn(int) -> Rgba) -> Seq<u8> {
    Seq::new((4 * npix) as nat, |j: int| chan_of(f(j / 4), j % 4))
}

/// The byte indices of pixel `k` decompose as expected.
proof fn lemma_byte_index(k: int)
    requires
        0 <= k,
    ensures
        4 * k / 4 == k && 4 * k % 4 == 0,
        (4 * k + 1) / 4 == k && (4 * k + 1) % 4 == 1,
        (4 * k + 2) / 4 == k && (4 * k + 2) % 4 == 2,
        (4 * k + 3) / 4 == k && (4 * k + 3) % 4 == 3,
{
    lemma_fundamental_div_mod_converse_div(4 * k, 4, k, 0);
    lemma_fundamental_div_mod_converse_mod(4 * k, 4, k, 0);
    lemma_fundamental_div_mod_converse_div(4 * k + 1, 4, k, 1);
    lemma_fundamental_div_mod_converse_mod(4 * k + 1, 4, k, 1);
    lemma_fundamental_div_mod_converse_div(4 * k + 2, 4, k, 2);
    lemma_fundamental_div_mod_converse_mod(4 * k + 2, 4, k, 2);
    lemma_fundamental_div_mod_converse_div(4 * k + 3, 4, k, 3);
    lemma_fundamental_div_mod_converse_mod(4 * k + 3, 4, k, 3);
}

/// Clamps a coordinate to [0, n).
pub open spec fn clamp_coord(v: int, n: int) -> int {
    if v < 0 {
        0int
    } else if v >= n {
        n - 1
    } else {
        v
    }
}

/// Chromatic aberration of pixel `k`: red sampled `s` pixels to the right,
/// blue `s` pixels to the left, both clamped to the row's edge; green and
/// alpha stay centered.
pub open spec fn ca_px(data: Seq<u8>, w: int, s: int, k: int) -> Rgba {
    let x = k % w;
    let y = k / w;
    let xr = clamp_coord(x + s, w);
    let xb = clamp_coord(x - s, w);
    Rgba {
        r: px_at(data, y * w + xr).r,
        g: px_at(data, y * w + x).g,
        b: px_at(data, y * w + xb).b,
        a: px_at(data, y * w + x).a,
    }
}

/// The buffer after chromatic aberration by `s`.
pub open spec fn ca_seq(data: Seq<u8>, w: int, s: int, npix: int) -> Seq<u8> {
    pixel_seq(npix, |k: int| ca_px(data, w, s, k))
}

/// A byte sequence that matches `ca_px` pixel by pixel is the `ca_seq`.
pub proof fn lemma_eq_ca_seq(out: Seq<u8>, data: Seq<u8>, w: int, s: int, npix: int)
    requires
        out.len() == 4 * npix,
        forall|k: int| 0 <= k < npix ==> px_at(out, k) == ca_px(data, w, s, k),
    ensures
        out == ca_seq(data, w, s, npix),
{
    let t = ca_seq(data, w, s, npix);
    assert forall|j: int| 0 <= j < out.len() implies out[j] == t[j] by {
        let k = j / 4;
        let c = j % 4;
        lemma_fundamental_div_mod(j, 4);
        lemma_byte_index(k);
        assert(px_at(out, k) == ca_px(data, w, s, k));
        assert(t[4 * k] == chan_of(ca_px(data, w, s, k), 0));
        assert(t[4 * k + 1] == chan_of(ca_px(data, w, s, k), 1));
        assert(t[4 * k + 2] == chan_of(ca_px(data, w, s, k), 2));
        assert(t[4 * k + 3] == chan_of(ca_px(data, w, s, k), 3));
    }
    assert(out =~= t);
}

/// Sum of channel `c` over the horizontal window of `cnt` samples starting
/// at offset `lo` from column `x`, sampling clamped to the row.
pub open spec fn row_sum(data: Seq<u8>, w: int, y: int, x: int, c: int, lo: int, cnt: int) -> int
    decreases cnt,
{
    if cnt <= 0 {
        0
    } else {
        chan_of(px_at(data, y * w + clamp_coord(x + lo, w)), c) + row_sum(
            data,
            w,
            y,
            x,
            c,
            lo + 1,
            cnt - 1,
        )
    }
}

/// Extending the horizontal window by one sample adds that sample.
proof fn lemma_row_sum_snoc(data: Seq<u8>, w: int, y: int, x: int, c: int, lo: int, t: int)
    requires
        t >= 0,
    ensures
        row_sum(data, w, y, x, c, lo, t + 1) == row_sum(data, w, y, x, c, lo, t) + chan_of(
            px_at(data, y * w + clamp_coord(x + lo + t, w)),
            c,
        ),
    decreases t,
{
    if t == 0 {
        assert(row_sum(data, w, y, x, c, lo + 1, 0) == 0);
    } else {
        lemma_row_sum_snoc(data, w, y, x, c, lo + 1, t - 1);
    }
}

/// Sum of channel `c` over the vertical window of `cnt` samples starting at
/// offset `lo` from row `y`, sampling clamped to the column.
pub open spec fn col_sum(
    data: Seq<u8>,
    w: int,
    h: int,
    x: int,
    y: int,
    c: int,
    lo: int,
    cnt: int,
) -> int
    decreases cnt,
{
    if cnt <= 0 {
        0
    } else {
        chan_of(px_at(data, clamp_coord(y + lo, h) * w + x), c) + col_sum(
            data,
            w,
            h,
            x,
            y,
            c,
            lo + 1,
            cnt - 1,
        )
    }
}

/// Extending the vertical window by one sample adds that sample.
proof fn lemma_col_sum_snoc(
    data: Seq<u8>,
    w: int,
    h: int,
    x: int,
    y: int,
    c: int,
    lo: int,
    t: int,
)
    requires
        t >= 0,
    ensures
        col_sum(data, w, h, x, y, c, lo, t + 1) == col_sum(data, w, h, x, y, c, lo, t) + chan_of(
            px_at(data, clamp_coord(y + lo + t, h) * w + x),
            c,
        ),
    decreases t,
{
    if t == 0 {
        assert(col_sum(data, w, h, x, y, c, lo + 1, 0) == 0);
    } else {
        lemma_col_sum_snoc(data, w, h, x, y, c, lo + 1, t - 1);
    }
}

/// Horizontal box average of radius `r` at pixel `k`, rounded to nearest.
pub open spec fn hblur_px(data: Seq<u8>, w: int, r: int, k: int) -> Rgba {
    let x = k % w;
    let y = k / w;
    let n = 2 * r + 1;
    Rgba {
        r: ((row_sum(data, w, y, x, 0, -r, n) + r) / n) as u8,
        g: ((row_sum(data, w, y, x, 1, -r, n) + r) / n) as u8,
        b: ((row_sum(data, w, y, x, 2, -r, n) + r) / n) as u8,
        a: ((row_sum(data, w, y, x, 3, -r, n) + r) / n) as u8,
    }
}

/// Vertical box average of radius `r` at pixel `k`, rounded to nearest.
pub open spec fn vblur_px(data: Seq<u8>, w: int, h: int, r: int, k: int) -> Rgba {
    let x = k % w;
    let y = k / w;
    let n = 2 * r + 1;
    Rgba {
        r: ((col_sum(data, w, h, x, y, 0, -r, n) + r) / n) as u8,
        g: ((col_sum(data, w, h, x, y, 1, -r, n) + r) / n) as u8,
        b: ((col_sum(data, w, h, x, y, 2, -r, n) + r) / n) as u8,
        a: ((col_sum(data, w, h, x, y, 3, -r, n) + r) / n) as u8,
    }
}

/// The buffer after the horizontal box pass.
pub open spec fn hpass_seq(data: Seq<u8>, w: int, r: int, npix: int) -> Seq<u8> {
    pixel_seq(npix, |k: int| hblur_px(data, w, r, k))
}

/// A byte sequence that matches `hblur_px` pixel by pixel is the `hpass_seq`.
pub proof fn lemma_eq_hpass_seq(out: Seq<u8>, data: Seq<u8>, w: int, r: int, npix: int)
    requires
        out.len() == 4 * npix,
        forall|k: int| 0 <= k < npix ==> px_at(out, k) == hblur_px(data, w, r, k),
    ensures
        out == hpass_seq(data, w, r, npix),
{
    let t = hpass_seq(data, w, r, npix);
    assert forall|j: int| 0 <= j < out.len() implies out[j] == t[j] by {
        let k = j / 4;
        let c = j % 4;
        lemma_fundamental_div_mod(j, 4);
        lemma_byte_index(k);
        assert(px_at(out, k) == hblur_px(data, w, r, k));
        assert(t[4 * k] == chan_of(hblur_px(data, w, r, k), 0));
        assert(t[4 * k + 1] == chan_of(hblur_px(data, w, r, k), 1));
        assert(t[4 * k + 2] == chan_of(hblur_px(data, w, r, k), 2));
        assert(t[4 * k + 3] == chan_of(hblur_px(data, w, r, k), 3));
    }
    assert(out =~= t);
}

/// The buffer after the vertical box pass.
pub open spec fn vpass_seq(data: Seq<u8>, w: int, h: int, r: int, npix: int) -> Seq<u8> {
    pixel_seq(npix, |k: int| vblur_px(data, w, h, r, k))
}

/// A byte sequence that matches `vblur_px` pixel by pixel is the `vpass_seq`.
pub proof fn lemma_eq_vpass_seq(out: Seq<u8>, data: Seq<u8>, w: int, h: int, r: int, npix: int)
    requires
        out.len() == 4 * npix,
        forall|k: int| 0 <= k < npix ==> px_at(out, k) == vblur_px(data, w, h, r, k),
    ensures
        out == vpass_seq(data, w, h, r, npix),
{
    let t = vpass_seq(data, w, h, r, npix);
    assert forall|j: int| 0 <= j < out.len() implies out[j] == t[j] by {
        let k = j / 4;
        let c = j % 4;
        lemma_fundamental_div_mod(j, 4);
        lemma_byte_index(k);
        assert(px_at(out, k) == vblur_px(data, w, h, r, k));
        assert(t[4 * k] == chan_of(vblur_px(data, w, h, r, k), 0));
        assert(t[4 * k + 1] == chan_of(vblur_px(data, w, h, r, k), 1));
        assert(t[4 * k + 2] == chan_of(vblur_px(data, w, h, r, k), 2));
        assert(t[4 * k + 3] == chan_of(vblur_px(data, w, h, r, k), 3));
    }
    assert(out =~= t);
}

/// The blur result: a horizontal then a vertical box pass of radius `r`
/// (a separable approximation of a Gaussian); radius 0 is a no-op.
pub open spec fn blur_seq(data: Seq<u8>, w: int, h: int, r: int) -> Seq<u8> {
    if r <= 0 {
        data
    } else {
        vpass_seq(hpass_seq(data, w, r, w * h), w, h, r, w * h)
    }
}

/// The buffer after one per-pixel operation applied everywhere.
pub open spec fn fused1_seq(op: ImageOperation, data: Seq<u8>, npix: int) -> Seq<u8> {
    pixel_seq(npix, |k: int| apply_op_px(op, px_at(data, k), k))
}

/// Pixel `k` of `fused1_seq` is the operation applied to pixel `k`.
pub proof fn lemma_fused1_seq_at(op: ImageOperation, data: Seq<u8>, npix: int, k: int)
    requires
        0 <= k < npix,
    ensures
        px_at(fused1_seq(op, data, npix), k) == apply_op_px(op, px_at(data, k), k),
{
    lemma_byte_index(k);
}

/// The buffer after the composed effect of a whole operation list, fused.
pub open spec fn fused_seq(data: Seq<u8>, ops: Seq<ImageOperation>, npix: int) -> Seq<u8> {
    pixel_seq(npix, |k: int| apply_ops_px(ops, px_at(data, k), k))
}

/// A byte sequence that matches the fused composition pixel by pixel is the
/// `fused_seq`.
pub proof fn lemma_eq_fused_seq(out: Seq<u8>, data: Seq<u8>, ops: Seq<ImageOperation>, npix: int)
    requires
        out.len() == 4 * npix,
        forall|k: int| 0 <= k < npix ==> px_at(out, k) == apply_ops_px(ops, px_at(data, k), k),
    ensures
        out == fused_seq(data, ops, npix),
{
    let t = fused_seq(data, ops, npix);
    assert forall|j: int| 0 <= j < out.len() implies out[j] == t[j] by {
        let k = j / 4;
        let c = j % 4;
        lemma_fundamental_div_mod(j, 4);
        lemma_byte_index(k);
        assert(px_at(out, k) == apply_ops_px(ops, px_at(data, k), k));
        assert(t[4 * k] == chan_of(apply_ops_px(ops, px_at(data, k), k), 0));
        assert(t[4 * k + 1] == chan_of(apply_ops_px(ops, px_at(data, k), k), 1));
        assert(t[4 * k + 2] == chan_of(apply_ops_px(ops, px_at(data, k), k), 2));
        assert(t[4 * k + 3] == chan_of(apply_ops_px(ops, px_at(data, k), k), 3));
    }
    assert(out =~= t);
}

/// The output dimensions that fit inside the (positive) target while
/// preserving the source aspect ratio: the constrained axis takes the
/// target, the other is scaled and rounded to nearest, at least 1.
pub open spec fn fit_dims(w: int, h: int, tw: int, th: int) -> (int, int) {
    if tw * h <= th * w {
        let oh = (2 * h * tw + w) / (2 * w);
        (tw, if oh < 1 { 1int } else { oh })
    } else {
        let ow = (2 * w * th + h) / (2 * h);
        (if ow < 1 { 1int } else { ow }, th)
    }
}

/// The dimensions the resize operation produces: a degenerate target clamps
/// to 1; with `aspect` the image fits inside the target keeping its ratio,
/// otherwise the target is taken exactly.
pub open spec fn target_dims_spec(w: int, h: int, tw: int, th: int, aspect: bool) -> (int, int) {
    let tw1 = if tw < 1 { 1int } else { tw };
    let th1 = if th < 1 { 1int } else { th };
    if !aspect || w <= 0 || h <= 0 {
        (tw1, th1)
    } else {
        fit_dims(w, h, tw1, th1)
    }
}

/// The aspect-fit dimensions stay inside the positive target and above zero.
pub proof fn lemma_fit_dims_bounds(w: int, h: int, tw: int, th: int)
    requires
        w >= 1,
        h >= 1,
        tw >= 1,
        th >= 1,
    ensures
        1 <= fit_dims(w, h, tw, th).0 <= tw,
        1 <= fit_dims(w, h, tw, th).1 <= th,
{
    if tw * h <= th * w {
        let oh = (2 * h * tw + w) / (2 * w);
        assert(2 * (h * tw) <= 2 * (th * w)) by (nonlinear_arith)
            requires tw * h <= th * w;
        assert(2 * h * tw == 2 * (h * tw)) by (nonlinear_arith);
        assert(2 * (th * w) + w == th * (2 * w) + w) by (nonlinear_arith);
        lemma_div_is_ordered(2 * h * tw + w, th * (2 * w) + w, 2 * w);
        lemma_fundamental_div_mod_converse_div(th * (2 * w) + w, 2 * w, th, w);
        assert(oh <= th);
        assert(oh >= 0) by {
            lemma_div_pos_is_pos(2 * h * tw + w, 2 * w);
            assert(2 * h * tw >= 0) by (nonlinear_arith)
                requires h >= 1, tw >= 1;
        }
    } else {
        let ow = (2 * w * th + h) / (2 * h);
        assert(2 * (w * th) <= 2 * (tw * h)) by (nonlinear_arith)
            requires th * w <= tw * h;
        assert(2 * w * th == 2 * (w * th)) by (nonlinear_arith);
        assert(2 * (tw * h) + h == tw * (2 * h) + h) by (nonlinear_arith);
        lemma_div_is_ordered(2 * w * th + h, tw * (2 * h) + h, 2 * h);
        lemma_fundamental_div_mod_converse_div(tw * (2 * h) + h, 2 * h, tw, h);
        assert(ow <= tw);
        assert(ow >= 0) by {
            lemma_div_pos_is_pos(2 * w * th + h, 2 * h);
            assert(2 * w * th >= 0) by (nonlinear_arith)
                requires w >= 1, th >= 1;
        }
    }
}

/// Computes the resize output dimensions.
pub fn target_dims(w: u32, h: u32, tw: u32, th: u32, aspect: bool) -> (r: (u32, u32))
    ensures
        (r.0 as int, r.1 as int) == target_dims_spec(
            w as int,
            h as int,
            tw as int,
            th as int,
            aspect,
        ),
        r.0 >= 1,
        r.1 >= 1,
        aspect ==> r.0 <= (if tw < 1 { 1u32 } else { tw }) && r.1 <= (
        if th < 1 { 1u32 } else { th }),
{
    let tw1: u32 = if tw < 1 {
        1
    } else {
        tw
    };
    let th1: u32 = if th < 1 {
        1
    } else {
        th
    };
    if !aspect || w == 0 || h == 0 {
        (tw1, th1)
    } else {
        proof {
            lemma_fit_dims_bounds(w as int, h as int, tw1 as int, th1 as int);
            lemma_mul_upper_bound(tw1 as int, 0xffff_ffff, h as int, 0xffff_ffff);
            lemma_mul_upper_bound(th1 as int, 0xffff_ffff, w as int, 0xffff_ffff);
            lemma_mul_upper_bound(2 * (h as int), 0x1_ffff_fffe, tw1 as int, 0xffff_ffff);
            lemma_mul_upper_bound(2 * (w as int), 0x1_ffff_fffe, th1 as int, 0xffff_ffff);
        }
        if tw1 as u64 * h as u64 <= th1 as u64 * w as u64 {
            let num: u128 = 2 * (h as u128) * (tw1 as u128) + w as u128;
            let oh128: u128 = num / (2 * (w as u128));
            let oh: u32 = if oh128 < 1 {
                1
            } else {
                oh128 as u32
            };
            (tw1, oh)
        } else {
            let num: u128 = 2 * (w as u128) * (th1 as u128) + h as u128;
            let ow128: u128 = num / (2 * (h as u128));
            let ow: u32 = if ow128 < 1 {
                1
            } else {
                ow128 as u32
            };
            (ow, th1)
        }
    }
}

/// Integer code of a scale filter, used to index the named resample result.
pub open spec fn filter_code(f: ScaleFilter) -> int {
    match f {
        ScaleFilter::Nearest => 0,
        ScaleFilter::Bilinear => 1,
        ScaleFilter::CatmullRom => 2,
        ScaleFilter::Gaussian => 3,
        ScaleFilter::Lanczos3 => 4,
        ScaleFilter::Hamming => 5,
    }
}

/// The pixels that resampling a `w` by `h` buffer to `ow` by `oh` with the
/// given kernel produces.  The kernel mathematics lives in the resampling
/// crate; this name only records that the result is a function of the
/// arguments alone.
pub uninterp spec fn resample_of(
    data: Seq<u8>,
    w: int,
    h: int,
    ow: int,
    oh: int,
    filter: int,
) -> Seq<u8>;

/// Relies on `image::imageops::resize`: resampling a well-formed RGBA8
/// buffer of positive dimensions yields exactly `ow * oh` packed RGBA8
/// pixels, a deterministic function of the inputs.  `Hamming` is resampled
/// with the crate's `Triangle` kernel, the closest available window.
#[verifier::external_body]
fn resample(data: &Vec<u8>, w: u32, h: u32, ow: u32, oh: u32, filter: ScaleFilter) -> (r: Vec<u8>)
    requires
        data@.len() == w * h * 4,
        w >= 1,
        h >= 1,
        ow >= 1,
        oh >= 1,
        ow * oh * 4 <= usize::MAX,
    ensures
        r@.len() == ow * oh * 4,
        r@ == resample_of(data@, w as int, h as int, ow as int, oh as int, filter_code(filter)),
{
    let img: image::RgbaImage = image::ImageBuffer::from_raw(w, h, data.clone()).unwrap();
    let f = match filter {
        ScaleFilter::Nearest => image::imageops::FilterType::Nearest,
        ScaleFilter::Bilinear => image::imageops::FilterType::Triangle,
        ScaleFilter::CatmullRom => image::imageops::FilterType::CatmullRom,
        ScaleFilter::Gaussian => image::imageops::FilterType::Gaussian,
        ScaleFilter::Lanczos3 => image::imageops::FilterType::Lanczos3,
        ScaleFilter::Hamming => image::imageops::FilterType::Triangle,
    };
    image::imageops::resize(&img, ow, oh, f).into_raw()
}

/// What one operation turns a buffer into: the new bytes, width and height.
pub open spec fn op_result(op: ImageOperation, data: Seq<u8>, w: int, h: int) -> (
    Seq<u8>,
    int,
    int,
) {
    if is_per_pixel(op) {
        (fused1_seq(op, data, w * h), w, h)
    } else {
        match op {
            ImageOperation::ChromaticAberration(s) => (ca_seq(data, w, s as int, w * h), w, h),
            ImageOperation::Blur(r) => (blur_seq(data, w, h, r as int), w, h),
            ImageOperation::Resize { dimensions, aspect, filter } => {
                if w <= 0 || h <= 0 {
                    (data, w, h)
                } else {
                    let dims = target_dims_spec(
                        w,
                        h,
                        dimensions.0 as int,
                        dimensions.1 as int,
                        aspect,
                    );
                    (resample_of(data, w, h, dims.0, dims.1, filter_code(filter)), dims.0, dims.1)
                }
            },
            _ => (data, w, h),
        }
    }
}

/// Whether the machine can hold the operation's output: only a resize can
/// grow the buffer, and its byte length must fit a `usize`.
pub open spec fn op_fits(op: ImageOperation, w: int, h: int) -> bool {
    match op {
        ImageOperation::Resize { dimensions, aspect, .. } => {
            w <= 0 || h <= 0 || {
                let dims = target_dims_spec(w, h, dimensions.0 as int, dimensions.1 as int, aspect);
                dims.0 * dims.1 * 4 <= usize::MAX
            }
        },
        _ => true,
    }
}

/// Chromatic aberration pass over a whole buffer.
fn ca_apply(data: &Vec<u8>, w: u32, h: u32, s: u8) -> (out: Vec<u8>)
    requires
        data@.len() == w * h * 4,
    ensures
        out@.len() == data@.len(),
        forall|k: int| 0 <= k < w * h ==> px_at(out@, k) == ca_px(data@, w as int, s as int, k),
{
    let npix: usize = data.len() / 4;
    let mut out: Vec<u8> = Vec::with_capacity(data.len());
    let mut k: usize = 0;
    while k < npix
        invariant
            data@.len() == w * h * 4,
            4 * npix == data@.len(),
            4 * npix <= usize::MAX,
            k <= npix,
            out@.len() == 4 * k,
            forall|m: int| 0 <= m < k ==> px_at(out@, m) == ca_px(data@, w as int, s as int, m),
        decreases npix - k,
    {
        proof {
            assert(w > 0) by {
                if w == 0 {
                    assert(w * h == 0) by (nonlinear_arith)
                        requires w == 0;
                }
            }
            assert((k as int) / (w as int) < h as int) by {
                lemma_multiply_divide_lt(k as int, w as int, h as int);
            }
            lemma_fundamental_div_mod(k as int, w as int);
            assert((w as int) * ((k as int) / (w as int)) == ((k as int) / (w as int)) * (
            w as int)) by (nonlinear_arith);
        }
        let x: usize = k % (w as usize);
        let y: usize = k / (w as usize);
        let xr64: u64 = x as u64 + s as u64;
        let xr: usize = if xr64 >= w as u64 {
            (w - 1) as usize
        } else {
            xr64 as usize
        };
        let xb: usize = if x >= s as usize {
            x - s as usize
        } else {
            0
        };
        proof {
            assert(xr as int == clamp_coord(x as int + s as int, w as int));
            assert(xb as int == clamp_coord(x as int - s as int, w as int));
            lemma_pixel_index_in_range(w as int, h as int, xr as int, y as int);
            lemma_pixel_index_in_range(w as int, h as int, xb as int, y as int);
            lemma_pixel_index_in_range(w as int, h as int, x as int, y as int);
        }
        let ir: usize = 4 * (y * (w as usize) + xr);
        let ic: usize = 4 * (y * (w as usize) + x);
        let ib: usize = 4 * (y * (w as usize) + xb);
        let p = Rgba { r: data[ir], g: data[ic + 1], b: data[ib + 2], a: data[ic + 3] };
        assert(p == ca_px(data@, w as int, s as int, k as int));
        let ghost out_before = out@;
        out.push(p.r);
        out.push(p.g);
        out.push(p.b);
        out.push(p.a);
        k += 1;
        proof {
            assert forall|m: int| 0 <= m < k implies px_at(out@, m) == ca_px(
                data@,
                w as int,
                s as int,
                m,
            ) by {
                if m < k - 1 {
                    assert(out@[4 * m] == out_before[4 * m]);
                    assert(out@[4 * m + 1] == out_before[4 * m + 1]);
                    assert(out@[4 * m + 2] == out_before[4 * m + 2]);
                    assert(out@[4 * m + 3] == out_before[4 * m + 3]);
                    assert(px_at(out@, m) == px_at(out_before, m));
                } else {
                    assert(out@[4 * m] == p.r);
                    assert(out@[4 * m + 1] == p.g);
                    assert(out@[4 * m + 2] == p.b);
                    assert(out@[4 * m + 3] == p.a);
                    assert(px_at(out@, m) == p);
                }
            }
        }
    }
    out
}

/// One horizontal box pass of radius `r`.
fn box_h(data: &Vec<u8>, w: u32, h: u32, r: u8) -> (out: Vec<u8>)
    requires
        data@.len() == w * h * 4,
        r >= 1,
    ensures
        out@.len() == data@.len(),
        forall|k: int| 0 <= k < w * h ==> px_at(out@, k) == hblur_px(data@, w as int, r as int, k),
{
    let npix: usize = data.len() / 4;
    let mut out: Vec<u8> = Vec::with_capacity(data.len());
    let n: u32 = 2 * (r as u32) + 1;
    let mut k: usize = 0;
    while k < npix
        invariant
            data@.len() == w * h * 4,
            4 * npix == data@.len(),
            4 * npix <= usize::MAX,
            n == 2 * (r as int) + 1,
            r >= 1,
            k <= npix,
            out@.len() == 4 * k,
            forall|m: int|
                0 <= m < k ==> px_at(out@, m) == hblur_px(data@, w as int, r as int, m),
        decreases npix - k,
    {
        proof {
            assert(w > 0) by {
                if w == 0 {
                    assert(w * h == 0) by (nonlinear_arith)
                        requires w == 0;
                }
            }
            assert((k as int) / (w as int) < h as int) by {
                lemma_multiply_divide_lt(k as int, w as int, h as int);
            }
            lemma_fundamental_div_mod(k as int, w as int);
        }
        let x: usize = k % (w as usize);
        let y: usize = k / (w as usize);
        let mut sr: u32 = 0;
        let mut sg: u32 = 0;
        let mut sb: u32 = 0;
        let mut sa: u32 = 0;
        let mut t: u32 = 0;
        while t < n
            invariant
                data@.len() == w * h * 4,
                data@.len() <= usize::MAX,
                n == 2 * (r as int) + 1,
                r >= 1,
                t <= n,
                x < w,
                y < h,
                sr == row_sum(data@, w as int, y as int, x as int, 0, -(r as int), t as int),
                sg == row_sum(data@, w as int, y as int, x as int, 1, -(r as int), t as int),
                sb == row_sum(data@, w as int, y as int, x as int, 2, -(r as int), t as int),
                sa == row_sum(data@, w as int, y as int, x as int, 3, -(r as int), t as int),
                sr <= 255 * t,
                sg <= 255 * t,
                sb <= 255 * t,
                sa <= 255 * t,
            decreases n - t,
        {
            let xo: i64 = x as i64 + t as i64 - r as i64;
            let xc: usize = if xo < 0 {
                0
            } else if xo >= w as i64 {
                (w - 1) as usize
            } else {
                xo as usize
            };
            proof {
                assert(xc as int == clamp_coord(x as int + (-(r as int) + t as int), w as int));
                lemma_pixel_index_in_range(w as int, h as int, xc as int, y as int);
                lemma_row_sum_snoc(
                    data@, w as int, y as int, x as int, 0, -(r as int), t as int);
                lemma_row_sum_snoc(
                    data@, w as int, y as int, x as int, 1, -(r as int), t as int);
                lemma_row_sum_snoc(
                    data@, w as int, y as int, x as int, 2, -(r as int), t as int);
                lemma_row_sum_snoc(
                    data@, w as int, y as int, x as int, 3, -(r as int), t as int);
            }
            let idx: usize = 4 * (y * (w as usize) + xc);
            sr = sr + data[idx] as u32;
            sg = sg + data[idx + 1] as u32;
            sb = sb + data[idx + 2] as u32;
            sa = sa + data[idx + 3] as u32;
            t += 1;
        }
        proof {
            lemma_multiply_divide_lt(sr as int + r as int, n as int, 256);
            lemma_multiply_divide_lt(sg as int + r as int, n as int, 256);
            lemma_multiply_divide_lt(sb as int + r as int, n as int, 256);
            lemma_multiply_divide_lt(sa as int + r as int, n as int, 256);
            lemma_div_pos_is_pos(sr as int + r as int, n as int);
            lemma_div_pos_is_pos(sg as int + r as int, n as int);
            lemma_div_pos_is_pos(sb as int + r as int, n as int);
            lemma_div_pos_is_pos(sa as int + r as int, n as int);
        }
        let p = Rgba {
            r: ((sr + r as u32) / n) as u8,
            g: ((sg + r as u32) / n) as u8,
            b: ((sb + r as u32) / n) as u8,
            a: ((sa + r as u32) / n) as u8,
        };
        assert(p == hblur_px(data@, w as int, r as int, k as int));
        let ghost out_before = out@;
        out.push(p.r);
        out.push(p.g);
        out.push(p.b);
        out.push(p.a);
        k += 1;
        proof {
            assert forall|m: int| 0 <= m < k implies px_at(out@, m) == hblur_px(
                data@,
                w as int,
                r as int,
                m,
            ) by {
                if m < k - 1 {
                    assert(out@[4 * m] == out_before[4 * m]);
                    assert(out@[4 * m + 1] == out_before[4 * m + 1]);
                    assert(out@[4 * m + 2] == out_before[4 * m + 2]);
                    assert(out@[4 * m + 3] == out_before[4 * m + 3]);
                    assert(px_at(out@, m) == px_at(out_before, m));
                } else {
                    assert(out@[4 * m] == p.r);
                    assert(out@[4 * m + 1] == p.g);
                    assert(out@[4 * m + 2] == p.b);
                    assert(out@[4 * m + 3] == p.a);
                    assert(px_at(out@, m) == p);
                }
            }
        }
    }
    out
}

/// One vertical box pass of radius `r`.
fn box_v(data: &Vec<u8>, w: u32, h: u32, r: u8) -> (out: Vec<u8>)
    requires
        data@.len() == w * h * 4,
        r >= 1,
    ensures
        out@.len() == data@.len(),
        forall|k: int|
            0 <= k < w * h ==> px_at(out@, k) == vblur_px(
                data@,
                w as int,
                h as int,
                r as int,
                k,
            ),
{
    let npix: usize = data.len() / 4;
    let mut out: Vec<u8> = Vec::with_capacity(data.len());
    let n: u32 = 2 * (r as u32) + 1;
    let mut k: usize = 0;
    while k < npix
        invariant
            data@.len() == w * h * 4,
            4 * npix == data@.len(),
            4 * npix <= usize::MAX,
            n == 2 * (r as int) + 1,
            r >= 1,
            k <= npix,
            out@.len() == 4 * k,
            forall|m: int|
                0 <= m < k ==> px_at(out@, m) == vblur_px(
                    data@,
                    w as int,
                    h as int,
                    r as int,
                    m,
                ),
        decreases npix - k,
    {
        proof {
            assert(w > 0) by {
                if w == 0 {
                    assert(w * h == 0) by (nonlinear_arith)
                        requires w == 0;
                }
            }
            assert((k as int) / (w as int) < h as int) by {
                lemma_multiply_divide_lt(k as int, w as int, h as int);
            }
            lemma_fundamental_div_mod(k as int, w as int);
        }
        let x: usize = k % (w as usize);
        let y: usize = k / (w as usize);
        let mut sr: u32 = 0;
        let mut sg: u32 = 0;
        let mut sb: u32 = 0;
        let mut sa: u32 = 0;
        let mut t: u32 = 0;
        while t < n
            invariant
                data@.len() == w * h * 4,
                data@.len() <= usize::MAX,
                n == 2 * (r as int) + 1,
                r >= 1,
                t <= n,
                x < w,
                y < h,
                sr == col_sum(
                    data@, w as int, h as int, x as int, y as int, 0, -(r as int), t as int),
                sg == col_sum(
                    data@, w as int, h as int, x as int, y as int, 1, -(r as int), t as int),
                sb == col_sum(
                    data@, w as int, h as int, x as int, y as int, 2, -(r as int), t as int),
                sa == col_sum(
                    data@, w as int, h as int, x as int, y as int, 3, -(r as int), t as int),
                sr <= 255 * t,
                sg <= 255 * t,
                sb <= 255 * t,
                sa <= 255 * t,
            decreases n - t,
        {
            let yo: i64 = y as i64 + t as i64 - r as i64;
            let yc: usize = if yo < 0 {
                0
            } else if yo >= h as i64 {
                (h - 1) as usize
            } else {
                yo as usize
            };
            proof {
                assert(yc as int == clamp_coord(y as int + (-(r as int) + t as int), h as int));
                lemma_pixel_index_in_range(w as int, h as int, x as int, yc as int);
                lemma_col_sum_snoc(
                    data@, w as int, h as int, x as int, y as int, 0, -(r as int), t as int);
                lemma_col_sum_snoc(
                    data@, w as int, h as int, x as int, y as int, 1, -(r as int), t as int);
                lemma_col_sum_snoc(
                    data@, w as int, h as int, x as int, y as int, 2, -(r as int), t as int);
                lemma_col_sum_snoc(
                    data@, w as int, h as int, x as int, y as int, 3, -(r as int), t as int);
            }
            let idx: usize = 4 * (yc * (w as usize) + x);
            sr = sr + data[idx] as u32;
            sg = sg + data[idx + 1] as u32;
            sb = sb + data[idx + 2] as u32;
            sa = sa + data[idx + 3] as u32;
            t += 1;
        }
        proof {
            lemma_multiply_divide_lt(sr as int + r as int, n as int, 256);
            lemma_multiply_divide_lt(sg as int + r as int, n as int, 256);
            lemma_multiply_divide_lt(sb as int + r as int, n as int, 256);
            lemma_multiply_divide_lt(sa as int + r as int, n as int, 256);
            lemma_div_pos_is_pos(sr as int + r as int, n as int);
            lemma_div_pos_is_pos(sg as int + r as int, n as int);
            lemma_div_pos_is_pos(sb as int + r as int, n as int);
            lemma_div_pos_is_pos(sa as int + r as int, n as int);
        }
        let p = Rgba {
            r: ((sr + r as u32) / n) as u8,
            g: ((sg + r as u32) / n) as u8,
            b: ((sb + r as u32) / n) as u8,
            a: ((sa + r as u32) / n) as u8,
        };
        assert(p == vblur_px(data@, w as int, h as int, r as int, k as int));
        let ghost out_before = out@;
        out.push(p.r);
        out.push(p.g);
        out.push(p.b);
        out.push(p.a);
        k += 1;
        proof {
            assert forall|m: int| 0 <= m < k implies px_at(out@, m) == vblur_px(
                data@,
                w as int,
                h as int,
                r as int,
                m,
            ) by {
                if m < k - 1 {
                    assert(out@[4 * m] == out_before[4 * m]);
                    assert(out@[4 * m + 1] == out_before[4 * m + 1]);
                    assert(out@[4 * m + 2] == out_before[4 * m + 2]);
                    assert(out@[4 * m + 3] == out_before[4 * m + 3]);
                    assert(px_at(out@, m) == px_at(out_before, m));
                } else {
                    assert(out@[4 * m] == p.r);
                    assert(out@[4 * m + 1] == p.g);
                    assert(out@[4 * m + 2] == p.b);
                    assert(out@[4 * m + 3] == p.a);
                    assert(px_at(out@, m) == p);
                }
            }
        }
    }
    out
}

/// One per-pixel operation applied over the whole buffer via the fused pass.
fn fused_one(buf: &mut FrameBuffer, op: ImageOperation)
    requires
        old(buf).wf(),
    ensures
        final(buf).wf(),
        final(buf).width == old(buf).width,
        final(buf).height == old(buf).height,
        final(buf).data@ == fused1_seq(
            op,
            old(buf).data@,
            (old(buf).width as int) * (old(buf).height as int),
        ),
{
    let ghost d0 = buf.data@;
    let ghost w0 = buf.width as int;
    let ghost h0 = buf.height as int;
    let ops: Vec<ImageOperation> = vec![op];
    process_pixels(buf, ops.as_slice());
    proof {
        assert forall|k: int| 0 <= k < w0 * h0 implies px_at(buf.data@, k) == apply_op_px(
            op,
            px_at(d0, k),
            k,
        ) by {
            assert(ops@[0] == op);
            assert(ops@.drop_first().len() == 0);
            assert(apply_ops_px(ops@.drop_first(), apply_op_px(op, px_at(d0, k), k), k)
                == apply_op_px(op, px_at(d0, k), k));
            assert(apply_ops_px(ops@, px_at(d0, k), k) == apply_op_px(op, px_at(d0, k), k));
        }
        lemma_eq_fused1_seq(buf.data@, op, d0, w0 * h0);
    }
}

/// Chromatic aberration applied over the whole buffer.
fn ca_image(buf: &mut FrameBuffer, s: u8)
    requires
        old(buf).wf(),
    ensures
        final(buf).wf(),
        final(buf).width == old(buf).width,
        final(buf).height == old(buf).height,
        final(buf).data@ == ca_seq(
            old(buf).data@,
            old(buf).width as int,
            s as int,
            (old(buf).width as int) * (old(buf).height as int),
        ),
{
    let ghost d0 = buf.data@;
    let ghost w0 = buf.width as int;
    let ghost h0 = buf.height as int;
    let nd = ca_apply(&buf.data, buf.width, buf.height, s);
    proof {
        lemma_eq_ca_seq(nd@, d0, w0, s as int, w0 * h0);
    }
    buf.data = nd;
}

/// Separable box blur applied over the whole buffer; radius 0 is a no-op.
fn blur_image(buf: &mut FrameBuffer, r: u8)
    requires
        old(buf).wf(),
    ensures
        final(buf).wf(),
        final(buf).width == old(buf).width,
        final(buf).height == old(buf).height,
        final(buf).data@ == blur_seq(
            old(buf).data@,
            old(buf).width as int,
            old(buf).height as int,
            r as int,
        ),
{
    let ghost d0 = buf.data@;
    let ghost w0 = buf.width as int;
    let ghost h0 = buf.height as int;
    if r > 0 {
        let d1 = box_h(&buf.data, buf.width, buf.height, r);
        let d2 = box_v(&d1, buf.width, buf.height, r);
        proof {
            lemma_eq_hpass_seq(d1@, d0, w0, r as int, w0 * h0);
            lemma_eq_vpass_seq(d2@, d1@, w0, h0, r as int, w0 * h0);
            assert(d2@ == vpass_seq(hpass_seq(d0, w0, r as int, w0 * h0), w0, h0, r as int, w0
                * h0));
        }
        buf.data = d2;
    }
}

/// Resize applied to the buffer; a buffer with a zero dimension is left
/// untouched.
fn resize_image(buf: &mut FrameBuffer, tw: u32, th: u32, aspect: bool, filter: ScaleFilter)
    requires
        old(buf).wf(),
        old(buf).width > 0 && old(buf).height > 0 ==> {
            let dims = target_dims_spec(
                old(buf).width as int,
                old(buf).height as int,
                tw as int,
                th as int,
                aspect,
            );
            dims.0 * dims.1 * 4 <= usize::MAX
        },
    ensures
        final(buf).wf(),
        old(buf).width == 0 || old(buf).height == 0 ==> *final(buf) == *old(buf),
        old(buf).width > 0 && old(buf).height > 0 ==> {
            let dims = target_dims_spec(
                old(buf).width as int,
                old(buf).height as int,
                tw as int,
                th as int,
                aspect,
            );
            &&& final(buf).width as int == dims.0
            &&& final(buf).height as int == dims.1
            &&& final(buf).data@ == resample_of(
                old(buf).data@,
                old(buf).width as int,
                old(buf).height as int,
                dims.0,
                dims.1,
                filter_code(filter),
            )
        },
{
    if buf.width > 0 && buf.height > 0 {
        let dims = target_dims(buf.width, buf.height, tw, th, aspect);
        let nd = resample(&buf.data, buf.width, buf.height, dims.0, dims.1, filter);
        buf.data = nd;
        buf.width = dims.0;
        buf.height = dims.1;
    }
}

impl ImageOperation {
    /// Applies this operation to the whole buffer, replacing its contents
    /// (and, for a resize, its dimensions).
    pub fn process_image(&self, buf: &mut FrameBuffer)
        requires
            old(buf).wf(),
            op_fits(*self, old(buf).width as int, old(buf).height as int),
        ensures
            final(buf).wf(),
            (final(buf).data@, final(buf).width as int, final(buf).height as int) == op_result(
                *self,
                old(buf).data@,
                old(buf).width as int,
                old(buf).height as int,
            ),
    {
        if self.per_pixel() {
            fused_one(buf, *self);
        } else {
            match *self {
                ImageOperation::ChromaticAberration(s) => {
                    ca_image(buf, s);
                },
                ImageOperation::Blur(r) => {
                    blur_image(buf, r);
                },
                ImageOperation::Resize { dimensions, aspect, filter } => {
                    resize_image(buf, dimensions.0, dimensions.1, aspect, filter);
                },
                _ => {},
            }
        }
    }
}

/// Pixel-by-pixel agreement with one per-pixel operation gives `fused1_seq`.
pub proof fn lemma_eq_fused1_seq(out: Seq<u8>, op: ImageOperation, data: Seq<u8>, npix: int)
    requires
        out.len() == 4 * npix,
        forall|k: int| 0 <= k < npix ==> px_at(out, k) == apply_op_px(op, px_at(data, k), k),
    ensures
        out == fused1_seq(op, data, npix),
{
    let t = fused1_seq(op, data, npix);
    assert forall|j: int| 0 <= j < out.len() implies out[j] == t[j] by {
        let k = j / 4;
        let c = j % 4;
        lemma_fundamental_div_mod(j, 4);
        lemma_byte_index(k);
        assert(px_at(out, k) == apply_op_px(op, px_at(data, k), k));
        assert(t[4 * k] == chan_of(apply_op_px(op, px_at(data, k), k), 0));
        assert(t[4 * k + 1] == chan_of(apply_op_px(op, px_at(data, k), k), 1));
        assert(t[4 * k + 2] == chan_of(apply_op_px(op, px_at(data, k), k), 2));
        assert(t[4 * k + 3] == chan_of(apply_op_px(op, px_at(data, k), k), 3));
    }
    assert(out =~= t);
}

/// Pixel `k` of `fused_seq` is the composed effect applied to pixel `k`.
pub proof fn lemma_fused_seq_at(data: Seq<u8>, ops: Seq<ImageOperation>, npix: int, k: int)
    requires
        0 <= k < npix,
    ensures
        px_at(fused_seq(data, ops, npix), k) == apply_ops_px(ops, px_at(data, k), k),
{
    lemma_byte_index(k);
}

/// Chromatic aberration with zero shift is the identity on the whole
/// buffer: no channel moves when the offset is zero.
pub proof fn lemma_chromatic_aberration_zero_identity(data: Seq<u8>, w: int, h: int)
    requires
        w >= 0,
        h >= 0,
        data.len() == 4 * (w * h),
    ensures
        op_result(ImageOperation::ChromaticAberration(0), data, w, h) == (data, w, h),
{
    let npix = w * h;
    assert forall|k: int| 0 <= k < npix implies px_at(data, k) == ca_px(data, w, 0, k) by {
        assert(w > 0) by {
            if w == 0 {
                assert(w * h == 0) by (nonlinear_arith)
                    requires w == 0;
            }
        }
        let x = k % w;
        let y = k / w;
        lemma_fundamental_div_mod(k, w);
        assert(w * y == y * w) by (nonlinear_arith);
        assert(0 <= x < w);
        assert(clamp_coord(x + 0, w) == x);
        assert(clamp_coord(x - 0, w) == x);
        assert(y * w + x == k);
    }
    lemma_eq_ca_seq(data, data, w, 0, npix);
}

} // verus!
