//! Inter frames from their bits to their pixels.
use crate::arith;
use crate::coded_header::CodedHeaderModel;
use crate::decoder;
use crate::decoder::{FrameJob, Progress, StateModel};
use crate::fidelity_law;
use crate::frame;
use crate::frame_tag;
use crate::inter_law;
use crate::inter_law::SplitChoice;
use crate::intra_law;
use crate::inverse_transform;
use crate::modes::{InfoModel, Place};
use crate::motion_comp::RefFrame;
use crate::motion_law;
use crate::picture_law;
use crate::range_coder;
use crate::reconstruct;
use crate::round_trip;
use crate::silent_law;
use crate::syntax_law;
use crate::syntax_law::InterPart;
use vstd::arithmetic::div_mod;
use vstd::prelude::*;

verus! {

/// The first partition of an inter frame says what was written into it: its
/// header, on top of what the frames before it left, and the modes and vectors
/// of all its macroblocks.
pub proof fn law_first_partition_says_what_was_written(
    buf: Seq<u8>,
    st: StateModel,
    coded: CodedHeaderModel,
    p: InterPart,
    infos: Seq<InfoModel>,
    choices: Seq<SplitChoice>,
)
    requires
        !frame_tag::is_key(buf),
        syntax_law::header_fits(coded, false),
        syntax_law::inter_part_fits(p, st.probs),
        st.probs.ymode.len() == 4,
        st.probs.uv_mode.len() == 3,
        ({
            let h = decoder::frame_header_of(buf, st).0;
            let cols = decoder::blocks_for(st.refs.last.width);
            let rows = decoder::blocks_for(st.refs.last.height);
            &&& infos.len() == cols * rows
            &&& forall|k: int|
                0 <= k < infos.len() ==> inter_law::mb_fits(
                    #[trigger] infos[k],
                    choices[k],
                    h,
                    infos.take(k),
                    Place { k, cols, rows },
                )
            &&& range_coder::decodes(
                range_coder::dec_start(decoder::compressed(buf)),
                syntax_law::coded_header_ops(coded, false) + syntax_law::inter_part_ops(p)
                    + inter_law::inter_frame_ops(infos, choices, h, cols, rows, infos.len()),
            )
        }),
    ensures
        syntax_law::holds_updates(decoder::frame_header_of(buf, st).0, coded, st.probs),
        syntax_law::holds_inter_part(decoder::frame_header_of(buf, st).0, p, st.probs),
        decoder::frame_infos(buf, st) == infos,
{
    reveal(decoder::frame_header_of);
    reveal(decoder::frame_infos);
    let d = range_coder::dec_start(decoder::compressed(buf));
    let h = decoder::frame_header_of(buf, st).0;
    let cols = decoder::blocks_for(st.refs.last.width);
    let rows = decoder::blocks_for(st.refs.last.height);
    let a = syntax_law::coded_header_ops(coded, false) + syntax_law::inter_part_ops(p);
    let b = inter_law::inter_frame_ops(infos, choices, h, cols, rows, infos.len());
    range_coder::lemma_decodes_append(d, a, b);
    syntax_law::law_inter_header_reads_back(d, coded, p, st.probs);
    assert(h.coded == coded);
    assert(h.probs.mv[0].len() == 19 && h.probs.mv[1].len() == 19);
    inter_law::law_inter_frame_reads_back(
        range_coder::dec_after(d, a),
        infos,
        choices,
        h,
        cols,
        rows,
        infos.len(),
    );
    assert(infos.take(infos.len() as int) =~= infos);
}

/// A macroblock that is moved and has no residue.
pub open spec fn only_moved(info: InfoModel) -> bool {
    &&& info.skip
    &&& info.reference is Some
    &&& info.sub_mvs.len() == 16
}

/// What stands at row `r` and column `c` of a macroblock that is only moved.
pub open spec fn moved_pixel(job: FrameJob, k: int, r: int, c: int) -> u8 {
    let info = job.infos[k];
    let p = decoder::reference_picture(job.refs, info.reference->0);
    let m = motion_law::mover(info.sub_mvs, r, c);
    motion_law::sample(
        decoder::luma_of(p),
        8 * (16 * (k % job.cols) + c) + m.col,
        8 * (16 * (k / job.cols) + r) + m.row,
    )
}

proof fn lemma_nothing_added(k: int)
    requires
        0 <= k < 16,
    ensures
        inverse_transform::idct(
            intra_law::with_first(
                frame::no_coeffs().y[k],
                inverse_transform::iwht(frame::no_coeffs().y2)[k],
            ),
        ) == frame::zero_block(),
        inverse_transform::idct(frame::no_coeffs().y[k]) == frame::zero_block(),
{
    let z = frame::zero_block();
    silent_law::lemma_zero_transforms();
    assert(reconstruct::seeded(z, z, k) == z);
    assert(intra_law::with_first(z, inverse_transform::iwht(z)[k])
        =~= reconstruct::seeded(z, z, k));
}

proof fn lemma_moved_macroblock(job: FrameJob, st: Progress, k: int, r: int, c: int)
    requires
        only_moved(job.infos[k]),
        0 <= r < 16,
        0 <= c < 16,
    ensures
        ({
            let m = decoder::macroblock_pixels(job, st.planes, k, frame::no_coeffs());
            &&& fidelity_law::full_size(m)
            &&& m.y[16 * r + c] == moved_pixel(job, k, r, c)
        }),
{
    let info = job.infos[k];
    let p = decoder::reference_picture(job.refs, info.reference->0);
    let q = frame::no_coeffs();
    round_trip::lemma_nothing_scaled(decoder::mb_factors(job.h.coded, info.segment_id));
    motion_law::law_luma_is_moved(
        p,
        k / job.cols,
        k % job.cols,
        info.sub_mvs,
        decoder::uses_y2(info),
        q,
        r,
        c,
    );
    let b = intra_law::block_with(4, r, c);
    lemma_nothing_added(b);
    let (e, f, g, h) = motion_law::movers(info.sub_mvs, 0, 0);
    motion_law::law_chroma_is_moved(
        p,
        k / job.cols,
        k % job.cols,
        info.sub_mvs,
        decoder::uses_y2(info),
        q,
        0,
        0,
        decoder::chroma_mean(e.col + f.col + g.col + h.col),
        decoder::chroma_mean(e.row + f.row + g.row + h.row),
    );
}

/// The macroblocks done so far hold what was moved there.
proof fn lemma_moved_so_far(
    job: FrameJob,
    parts: Seq<Seq<u8>>,
    rows: int,
    n: nat,
    k: int,
    r: int,
    c: int,
)
    requires
        job.cols >= 1,
        rows >= 1,
        n <= job.cols * rows,
        job.infos.len() == job.cols * rows,
        forall|j: int| 0 <= j < job.infos.len() ==> only_moved(#[trigger] job.infos[j]),
        0 <= k < job.cols * rows,
        0 <= r < 16,
        0 <= c < 16,
    ensures
        ({
            let p = decoder::after_macroblocks(
                job,
                decoder::nothing_done(parts, job.cols, rows),
                n,
            ).planes;
            let i = (16 * (k / job.cols) + r) * (16 * job.cols) + 16 * (k % job.cols) + c;
            &&& picture_law::planes_of_size(p, job.cols, rows)
            &&& 0 <= i < p.y.len()
            &&& k < n ==> p.y[i] == moved_pixel(job, k, r, c)
        }),
    decreases n,
{
    let cols = job.cols;
    let stride = 16 * cols;
    let start = decoder::nothing_done(parts, cols, rows);
    arith::lemma_place(k, cols, rows);
    let (row, col) = (k / cols, k % cols);
    let y = 16 * row + r;
    let x = 16 * col + c;
    let i = y * stride + 16 * col + c;
    assert(16 * cols * (16 * rows) == 16 * rows * (16 * cols)) by (nonlinear_arith);
    assert(8 * cols * (8 * rows) == 8 * rows * (8 * cols)) by (nonlinear_arith);
    arith::lemma_mul_bound(16 * rows, 16 * cols, 16 * rows, 16 * cols);
    arith::lemma_mul_bound(8 * rows, 8 * cols, 8 * rows, 8 * cols);
    assert(0 <= y * stride && y * stride + stride <= 16 * rows * stride) by (nonlinear_arith)
        requires
            0 <= y,
            y + 1 <= 16 * rows,
            stride >= 0,
    ;
    if n > 0 {
        let j = n - 1;
        lemma_moved_so_far(job, parts, rows, j as nat, k, r, c);
        let st = decoder::after_macroblocks(job, start, j as nat);
        arith::lemma_place(j, cols, rows);
        reveal(decoder::after_macroblock);
        assert(only_moved(job.infos[j]));
        let m = decoder::macroblock_pixels(job, st.planes, j, frame::no_coeffs());
        lemma_moved_macroblock(job, st, j, r, c);
        picture_law::law_macroblock_is_put_in_its_place(
            st.planes,
            cols,
            rows,
            j / cols,
            j % cols,
            m,
        );
        div_mod::lemma_fundamental_div_mod_converse(i, stride, y, x);
        picture_law::lemma_square_of(i, stride, 16, cols, row, col);
        picture_law::lemma_square_of(i, stride, 16, cols, j / cols, j % cols);
        assert(picture_law::in_square(i, stride, 16, row, col));
        if j == k {
            assert((i / stride - 16 * row) * 16 + i % stride - 16 * col == 16 * r + c);
        }
    }
}

/// An inter frame whose macroblocks are only moved, without the loop filter,
/// shows at each luma pixel what the named reference picture holds there, moved
/// by the vector of the pixel's subblock.
pub proof fn law_moved_frame_shows_the_moved_picture(
    buf: Seq<u8>,
    st: StateModel,
    k: int,
    r: int,
    c: int,
)
    requires
        !frame_tag::is_key(buf),
        st.refs.last.width >= 1,
        st.refs.last.height >= 1,
        decoder::frame_header_of(buf, st).0.coded.level == 0,
        ({
            let cols = decoder::blocks_for(st.refs.last.width);
            let rows = decoder::blocks_for(st.refs.last.height);
            let infos = decoder::frame_infos(buf, st);
            &&& infos.len() == cols * rows
            &&& forall|j: int| 0 <= j < infos.len() ==> only_moved(#[trigger] infos[j])
            &&& 0 <= k < infos.len()
        }),
        0 <= r < 16,
        0 <= c < 16,
    ensures
        ({
            let cols = decoder::blocks_for(st.refs.last.width);
            let info = decoder::frame_infos(buf, st)[k];
            let p = match info.reference {
                Some(RefFrame::Golden) => st.refs.golden,
                Some(RefFrame::AltRef) => st.refs.altref,
                _ => st.refs.last,
            };
            let m = motion_law::mover(info.sub_mvs, r, c);
            let x = 16 * (k % cols) + c;
            let y = 16 * (k / cols) + r;
            decoder::decoded_picture(buf, st).planes.y[y * (16 * cols) + x] == motion_law::sample(
                decoder::luma_of(p),
                8 * x + m.col,
                8 * y + m.row,
            )
        }),
{
    let cols = decoder::blocks_for(st.refs.last.width);
    let rows = decoder::blocks_for(st.refs.last.height);
    let h = decoder::frame_header_of(buf, st).0;
    let infos = decoder::frame_infos(buf, st);
    let job = FrameJob { h, infos, cols, refs: st.refs };
    let parts = decoder::padded_parts(
        buf,
        decoder::tokens_start(buf),
        decoder::part_count(h.coded.log2_parts),
    );
    lemma_moved_so_far(job, parts, rows, (cols * rows) as nat, k, r, c);
    reveal(decoder::frame_progress);
    reveal(decoder::filtered);
    let x = 16 * (k % cols) + c;
    let y = 16 * (k / cols) + r;
    assert(y * (16 * cols) + x == (16 * (k / cols) + r) * (16 * cols) + 16 * (k % cols) + c);
}

} // verus!
