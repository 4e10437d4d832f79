use vstd::prelude::*;

use crate::buffer::{px_at, FrameBuffer};
use crate::executor::{
    fused1_seq, fused_seq, lemma_eq_fused_seq, lemma_fused1_seq_at, lemma_fused_seq_at, op_fits,
    op_result,
};
use crate::ops::{is_per_pixel, ImageOperation};
use crate::pixel::{apply_op_px, apply_ops_px, process_pixels};

verus! {

// The pipeline: an ordered operation list is split into a leading run of
// per-pixel operations, fused into one pass, and the remaining operations,
// executed one at a time in the caller's order.

/// The buffer state after the whole list has been applied left to right.
pub open spec fn pipeline_result(data: Seq<u8>, w: int, h: int, ops: Seq<ImageOperation>) -> (
    Seq<u8>,
    int,
    int,
)
    decreases ops.len(),
{
    if ops.len() == 0 {
        (data, w, h)
    } else {
        let r1 = op_result(ops[0], data, w, h);
        pipeline_result(r1.0, r1.1, r1.2, ops.drop_first())
    }
}

/// Whether every intermediate buffer of the pipeline fits the machine.
pub open spec fn pipeline_fits(data: Seq<u8>, w: int, h: int, ops: Seq<ImageOperation>) -> bool
    decreases ops.len(),
{
    if ops.len() == 0 {
        true
    } else {
        op_fits(ops[0], w, h) && {
            let r1 = op_result(ops[0], data, w, h);
            pipeline_fits(r1.0, r1.1, r1.2, ops.drop_first())
        }
    }
}

/// The pipeline over a prefix and then the rest equals the whole pipeline.
proof fn lemma_pipeline_split(data: Seq<u8>, w: int, h: int, ops: Seq<ImageOperation>, j: int)
    requires
        0 <= j <= ops.len(),
    ensures
        ({
            let mid = pipeline_result(data, w, h, ops.take(j));
            pipeline_result(mid.0, mid.1, mid.2, ops.skip(j))
        }) == pipeline_result(data, w, h, ops),
        pipeline_fits(data, w, h, ops) ==> ({
            let mid = pipeline_result(data, w, h, ops.take(j));
            pipeline_fits(mid.0, mid.1, mid.2, ops.skip(j))
        }),
    decreases j,
{
    if j == 0 {
        assert(ops.take(0) =~= Seq::<ImageOperation>::empty());
        assert(ops.skip(0) =~= ops);
    } else {
        let r1 = op_result(ops[0], data, w, h);
        lemma_pipeline_split(r1.0, r1.1, r1.2, ops.drop_first(), j - 1);
        assert(ops.take(j).drop_first() =~= ops.drop_first().take(j - 1));
        assert(ops.skip(j) =~= ops.drop_first().skip(j - 1));
        assert(ops.take(j)[0] == ops[0]);
        assert(pipeline_result(data, w, h, ops.take(j)) == pipeline_result(
            r1.0,
            r1.1,
            r1.2,
            ops.drop_first().take(j - 1),
        ));
    }
}

/// Appending one more operation to the processed prefix applies it to the
/// prefix's result.
proof fn lemma_pipeline_snoc(data: Seq<u8>, w: int, h: int, ops: Seq<ImageOperation>, j: int)
    requires
        0 <= j < ops.len(),
    ensures
        pipeline_result(data, w, h, ops.take(j + 1)) == ({
            let mid = pipeline_result(data, w, h, ops.take(j));
            op_result(ops[j], mid.0, mid.1, mid.2)
        }),
    decreases j,
{
    if j == 0 {
        let r1 = op_result(ops[0], data, w, h);
        assert(ops.take(1).drop_first() =~= Seq::<ImageOperation>::empty());
        assert(ops.take(1)[0] == ops[0]);
        assert(pipeline_result(data, w, h, ops.take(1)) == pipeline_result(
            r1.0,
            r1.1,
            r1.2,
            ops.take(1).drop_first(),
        ));
        assert(ops.take(0) =~= Seq::<ImageOperation>::empty());
    } else {
        let r1 = op_result(ops[0], data, w, h);
        lemma_pipeline_snoc(r1.0, r1.1, r1.2, ops.drop_first(), j - 1);
        assert(ops.take(j + 1).drop_first() =~= ops.drop_first().take(j));
        assert(ops.take(j).drop_first() =~= ops.drop_first().take(j - 1));
        assert(ops.take(j + 1)[0] == ops[0]);
        assert(ops.take(j)[0] == ops[0]);
        assert(ops.drop_first()[j - 1] == ops[j]);
        assert(pipeline_result(data, w, h, ops.take(j + 1)) == pipeline_result(
            r1.0,
            r1.1,
            r1.2,
            ops.drop_first().take(j),
        ));
        assert(pipeline_result(data, w, h, ops.take(j)) == pipeline_result(
            r1.0,
            r1.1,
            r1.2,
            ops.drop_first().take(j - 1),
        ));
    }
}

/// Fusion is observationally equivalent to sequential application: for a
/// list of per-pixel operations, running the whole list through the
/// one-pass fused scan produces exactly the buffer that applying each
/// operation over the whole image, one at a time and in order, produces.
pub proof fn lemma_fusion_equivalence(data: Seq<u8>, w: int, h: int, ops: Seq<ImageOperation>)
    requires
        data.len() == 4 * (w * h),
        forall|j: int| 0 <= j < ops.len() ==> is_per_pixel(#[trigger] ops[j]),
    ensures
        pipeline_result(data, w, h, ops) == (fused_seq(data, ops, w * h), w, h),
    decreases ops.len(),
{
    let npix = w * h;
    if ops.len() == 0 {
        assert forall|k: int| 0 <= k < npix implies px_at(data, k) == apply_ops_px(
            ops,
            px_at(data, k),
            k,
        ) by {
            assert(apply_ops_px(ops, px_at(data, k), k) == px_at(data, k));
        }
        lemma_eq_fused_seq(data, data, ops, npix);
    } else {
        let op0 = ops[0];
        let rest = ops.drop_first();
        assert(is_per_pixel(op0));
        let r1 = op_result(op0, data, w, h);
        assert(r1 == (fused1_seq(op0, data, npix), w, h));
        let d1 = fused1_seq(op0, data, npix);
        assert(d1.len() == 4 * npix);
        assert forall|j: int| 0 <= j < rest.len() implies is_per_pixel(#[trigger] rest[j]) by {
            assert(rest[j] == ops[j + 1]);
        }
        lemma_fusion_equivalence(d1, w, h, rest);
        assert forall|k: int| 0 <= k < npix implies px_at(fused_seq(d1, rest, npix), k)
            == apply_ops_px(ops, px_at(data, k), k) by {
            lemma_fused_seq_at(d1, rest, npix, k);
            lemma_fused1_seq_at(op0, data, npix, k);
            assert(apply_ops_px(ops, px_at(data, k), k) == apply_ops_px(
                rest,
                apply_op_px(op0, px_at(data, k), k),
                k,
            ));
        }
        assert(fused_seq(d1, rest, npix).len() == 4 * npix);
        lemma_eq_fused_seq(fused_seq(d1, rest, npix), data, ops, npix);
    }
}

/// Runs an ordered operation list: the leading run of per-pixel operations
/// goes through the fused pass in one scan, the remaining operations run
/// through the whole-image executor in the caller's order.
pub fn process_ops(buf: &mut FrameBuffer, ops: &[ImageOperation])
    requires
        old(buf).wf(),
        pipeline_fits(old(buf).data@, old(buf).width as int, old(buf).height as int, ops@),
    ensures
        final(buf).wf(),
        (final(buf).data@, final(buf).width as int, final(buf).height as int) == pipeline_result(
            old(buf).data@,
            old(buf).width as int,
            old(buf).height as int,
            ops@,
        ),
{
    let ghost d0 = buf.data@;
    let ghost w0 = buf.width as int;
    let ghost h0 = buf.height as int;
    let mut split: usize = 0;
    let mut prefix: Vec<ImageOperation> = Vec::new();
    while split < ops.len() && ops[split].per_pixel()
        invariant
            split <= ops@.len(),
            prefix@ == ops@.take(split as int),
            forall|j: int| 0 <= j < split ==> is_per_pixel(#[trigger] ops@[j]),
        decreases ops@.len() - split,
    {
        prefix.push(ops[split]);
        proof {
            assert(prefix@ =~= ops@.take(split as int + 1));
        }
        split += 1;
    }
    process_pixels(buf, prefix.as_slice());
    proof {
        lemma_fusion_equivalence(d0, w0, h0, prefix@);
        lemma_eq_fused_seq(buf.data@, d0, prefix@, w0 * h0);
        lemma_pipeline_split(d0, w0, h0, ops@, split as int);
        assert((buf.data@, buf.width as int, buf.height as int) == pipeline_result(
            d0,
            w0,
            h0,
            ops@.take(split as int),
        ));
    }
    let mut j: usize = split;
    while j < ops.len()
        invariant
            j <= ops@.len(),
            buf.wf(),
            (buf.data@, buf.width as int, buf.height as int) == pipeline_result(
                d0,
                w0,
                h0,
                ops@.take(j as int),
            ),
            pipeline_fits(buf.data@, buf.width as int, buf.height as int, ops@.skip(j as int)),
        decreases ops@.len() - j,
    {
        let ghost cur_d = buf.data@;
        let ghost cur_w = buf.width as int;
        let ghost cur_h = buf.height as int;
        proof {
            assert(ops@.skip(j as int)[0] == ops@[j as int]);
            assert(op_fits(ops@[j as int], cur_w, cur_h));
        }
        let op = ops[j];
        op.process_image(buf);
        proof {
            lemma_pipeline_snoc(d0, w0, h0, ops@, j as int);
            assert(ops@.skip(j as int).drop_first() =~= ops@.skip(j as int + 1));
        }
        j += 1;
    }
    proof {
        assert(ops@.take(ops@.len() as int) =~= ops@);
    }
}

} // verus!
