//! What the macroblocks of a frame depend on while it is rebuilt.
use crate::decoder;
use crate::decoder::{FrameJob, Progress};
use crate::exact_law;
use crate::fidelity_law;
use crate::frame;
use crate::frame::{CoeffModel, PlanesModel};
use crate::i420;
use crate::inter_law;
use crate::intra;
use crate::intra_law;
use crate::inverse_transform;
use crate::macroblock::IntraBmode;
use crate::modes;
use crate::modes::Place;
use crate::mv::Mv;
use crate::neighbors;
use crate::pixels;
use crate::range_coder;
use crate::reconstruct;
use crate::reconstruct::NeighborModel;
use vstd::prelude::*;

verus! {

/// The first macroblock of a row starts with empty blocks to its left, whatever
/// stood at the end of the row above.
pub proof fn law_rows_start_afresh(job: FrameJob, st: Progress, left: Seq<bool>, k: int)
    requires
        k % job.cols == 0,
    ensures
        decoder::after_macroblock(job, st, k) == decoder::after_macroblock(
            job,
            Progress { left, ..st },
            k,
        ),
{
    reveal(decoder::after_macroblock);
}

/// The rows of macroblocks take turns with the partitions: a macroblock reads
/// from the partition of its row, and leaves the others alone.
pub proof fn law_rows_share_the_partitions(job: FrameJob, st: Progress, k: int, j: int)
    requires
        0 <= j < st.parts.len(),
        j != k / job.cols % st.parts.len() as int,
    ensures
        decoder::after_macroblock(job, st, k).parts.len() == st.parts.len(),
        decoder::after_macroblock(job, st, k).parts[j] == st.parts[j],
{
    reveal(decoder::after_macroblock);
}

/// A macroblock without residue reads nothing, counts as empty and is its bare
/// prediction.
pub proof fn law_skipped_macroblock_reads_nothing(job: FrameJob, st: Progress, k: int)
    requires
        job.infos[k].skip,
    ensures
        ({
            let after = decoder::after_macroblock(job, st, k);
            &&& after.parts == st.parts
            &&& after.coded == st.coded.push(false)
            &&& after.planes == neighbors::with_mb(
                st.planes,
                16 * job.cols,
                8 * job.cols,
                k / job.cols,
                k % job.cols,
                decoder::macroblock_pixels(job, st.planes, k, frame::no_coeffs()),
            )
        }),
{
    reveal(decoder::after_macroblock);
}

/// An intra macroblock is predicted from its own frame alone: no reference
/// picture bears on it.
pub proof fn law_intra_macroblocks_ignore_references(
    job: FrameJob,
    other: FrameJob,
    planes: PlanesModel,
    k: int,
    c: CoeffModel,
)
    requires
        job.infos[k].reference is None,
        other == (FrameJob { refs: other.refs, ..job }),
    ensures
        decoder::macroblock_pixels(job, planes, k, c) == decoder::macroblock_pixels(
            other,
            planes,
            k,
            c,
        ),
{
}

/// A pixel of the source, or of its nearest row and column past its sides.
pub proof fn law_source_goes_on_past_its_sides(
    plane: Seq<u8>,
    stride: int,
    w: int,
    h: int,
    x: int,
    y: int,
)
    requires
        w >= 1,
        h >= 1,
    ensures
        0 <= x < w && 0 <= y < h ==> i420::pel_at(plane, stride, w, h, x, y) == plane[y * stride + x],
        x >= w ==> i420::pel_at(plane, stride, w, h, x, y) == i420::pel_at(
            plane,
            stride,
            w,
            h,
            w - 1,
            y,
        ),
        x < 0 ==> i420::pel_at(plane, stride, w, h, x, y) == i420::pel_at(
            plane,
            stride,
            w,
            h,
            0,
            y,
        ),
        y >= h ==> i420::pel_at(plane, stride, w, h, x, y) == i420::pel_at(
            plane,
            stride,
            w,
            h,
            x,
            h - 1,
        ),
        y < 0 ==> i420::pel_at(plane, stride, w, h, x, y) == i420::pel_at(
            plane,
            stride,
            w,
            h,
            x,
            0,
        ),
{
}

/// A limited vector is the nearest one that points at most one macroblock
/// outside the frame.
pub proof fn law_limited_vector_is_the_nearest(m: Mv, other: Mv, at: Place)
    requires
        0 <= at.k / at.cols < at.rows,
        0 <= at.k % at.cols < at.cols,
        inter_law::inside(other, at),
    ensures
        ({
            let l = modes::limited(m, at);
            &&& inter_law::inside(l, at)
            &&& inter_law::inside(m, at) ==> l == m
            &&& m.row <= l.row <= other.row || other.row <= l.row <= m.row
            &&& m.col <= l.col <= other.col || other.col <= l.col <= m.col
        }),
{
}

/// The first boolean of a stream is set where the first byte reaches the split
/// of the whole range; the split is one more than the probability's share of
/// what is left, in parts of 256.
pub proof fn law_first_boolean_compares_the_first_byte(data: Seq<u8>, prob: u8)
    requires
        data.len() >= 2,
        prob >= 1,
    ensures
        ({
            let split = range_coder::split_of(255, prob as int);
            &&& 256 * (split - 1) <= 254 * prob < 256 * split
            &&& range_coder::dec_bit(range_coder::dec_start(data), prob) == (data[0] >= split)
        }),
{
}

/// The split shares out every range in the same way.
pub proof fn law_split_is_proportional(range: int, prob: int)
    requires
        1 <= range <= 255,
        0 <= prob <= 255,
    ensures
        ({
            let split = range_coder::split_of(range, prob);
            &&& 1 <= split <= range
            &&& 256 * (split - 1) <= (range - 1) * prob < 256 * split
        }),
{
    assert((range - 1) * prob >= 0 && (range - 1) * prob <= 255 * (range - 1)) by (nonlinear_arith)
        requires
            1 <= range,
            0 <= prob <= 255,
    ;
}

/// Place `q` of the work area lies in subblock `j`.
pub open spec fn in_subblock(q: int, j: int) -> bool {
    exists|g: int, e: int|
        0 <= g < 4 && 0 <= e < 4 && q == #[trigger] exact_law::row_pixel(
            reconstruct::subblock_at(j),
            21,
            g,
            e,
        )
}

proof fn lemma_work_after(n: NeighborModel, modes: Seq<IntraBmode>, y: Seq<Seq<i16>>, k: nat)
    requires
        k <= 16,
    ensures
        reconstruct::work_after(n, modes, y, k).len() == 357,
        k > 0 ==> ({
            let work = reconstruct::work_after(n, modes, y, (k - 1) as nat);
            let vals = inverse_transform::residue_sum(
                reconstruct::subblock_prediction(work, k - 1, modes[k - 1]),
                inverse_transform::idct(y[k - 1]),
            );
            &&& vals.len() == 16
            &&& work.len() == 357
            &&& reconstruct::work_after(n, modes, y, k) == pixels::stored(
                work,
                reconstruct::subblock_at(k - 1),
                21,
                4,
                vals,
                4,
            )
        }),
    decreases k,
{
    reveal(reconstruct::work_area);
    if k > 0 {
        lemma_work_after(n, modes, y, (k - 1) as nat);
        reveal(intra::predicted_subblock);
        let work = reconstruct::work_after(n, modes, y, (k - 1) as nat);
        let vals = inverse_transform::residue_sum(
            reconstruct::subblock_prediction(work, k - 1, modes[k - 1]),
            inverse_transform::idct(y[k - 1]),
        );
        fidelity_law::lemma_block_stored(work, reconstruct::subblock_at(k - 1), 21, vals, 0);
    }
}

/// What no subblock from `k` on covers is not changed by them: the pixels round
/// the macroblock stay, and so do those of the subblocks before.
pub proof fn law_later_subblocks_leave_earlier_ones(
    n: NeighborModel,
    modes: Seq<IntraBmode>,
    y: Seq<Seq<i16>>,
    k: nat,
    m: nat,
    q: int,
)
    requires
        k <= m <= 16,
        0 <= q < 357,
        forall|j: int| k <= j < m ==> !#[trigger] in_subblock(q, j),
    ensures
        reconstruct::work_after(n, modes, y, m)[q] == reconstruct::work_after(n, modes, y, k)[q],
    decreases m,
{
    if k < m {
        law_later_subblocks_leave_earlier_ones(n, modes, y, k, (m - 1) as nat, q);
        lemma_work_after(n, modes, y, m);
        let work = reconstruct::work_after(n, modes, y, (m - 1) as nat);
        let vals = inverse_transform::residue_sum(
            reconstruct::subblock_prediction(work, m - 1, modes[m - 1]),
            inverse_transform::idct(y[m - 1]),
        );
        fidelity_law::lemma_block_stored(work, reconstruct::subblock_at(m - 1), 21, vals, q);
        assert(!in_subblock(q, m - 1));
    }
}

/// Every luma pixel of a macroblock whose subblocks are predicted alone is the
/// prediction of its subblock, from what stands round it once the subblocks
/// before it are done, plus its residue.
pub proof fn law_subblocks_build_on_each_other(
    n: NeighborModel,
    modes: Seq<IntraBmode>,
    y: Seq<Seq<i16>>,
    k: int,
    r: int,
    c: int,
)
    requires
        0 <= k < 16,
        0 <= r < 4,
        0 <= c < 4,
    ensures
        ({
            let work = reconstruct::work_after(n, modes, y, k as nat);
            let at = 22 + 84 * (k / 4) + 4 * (k % 4);
            let above = Seq::new(8, |i: int| work[at - 21 + i]);
            let left = Seq::new(4, |i: int| work[at + 21 * i - 1]);
            let v = intra::predicted_subblock(modes[k], above, left, work[at - 22])[4 * r + c];
            reconstruct::subblock_luma(n, modes, y)[16 * (4 * (k / 4) + r) + 4 * (k % 4) + c]
                == intra_law::as_pixel(v + inverse_transform::idct(y[k])[4 * r + c])
        }),
{
    let work = reconstruct::work_after(n, modes, y, k as nat);
    let next = reconstruct::work_after(n, modes, y, (k + 1) as nat);
    let at = reconstruct::subblock_at(k);
    lemma_work_after(n, modes, y, (k + 1) as nat);
    fidelity_law::lemma_work_place(k, r, c);
    let i = exact_law::row_pixel(exact_law::start_of(4, k), 16, r, c);
    assert(i == 16 * (4 * (k / 4) + r) + 4 * (k % 4) + c) by {
        reveal(exact_law::start_of);
    }
    let q = fidelity_law::work_place(i);
    let vals = inverse_transform::residue_sum(
        reconstruct::subblock_prediction(work, k, modes[k]),
        inverse_transform::idct(y[k]),
    );
    fidelity_law::lemma_block_stored(work, at, 21, vals, q);
    assert(next[q] == vals[4 * r + c]);
    assert forall|j: int| k + 1 <= j < 16 implies !#[trigger] in_subblock(q, j) by {
        assert forall|g: int, e: int| 0 <= g < 4 && 0 <= e < 4 implies q
            != #[trigger] exact_law::row_pixel(reconstruct::subblock_at(j), 21, g, e) by {
            fidelity_law::lemma_work_apart(k, j, r, c, g, e);
        }
    }
    law_later_subblocks_leave_earlier_ones(n, modes, y, (k + 1) as nat, 16, q);
    let above = Seq::new(8, |i: int| work[at - 21 + i]);
    let left = Seq::new(4, |i: int| work[at + 21 * i - 1]);
    assert(reconstruct::above_subblock(work, k) =~= above);
    assert(reconstruct::left_of_subblock(work, k) =~= left);
    assert(reconstruct::subblock_luma(n, modes, y)[i]
        == reconstruct::work_after(n, modes, y, 16)[q]);
}

} // verus!
