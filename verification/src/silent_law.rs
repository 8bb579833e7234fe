//! What a decoder makes of the frames without residue that the encoder writes.
use crate::arith;
use crate::decoder;
use crate::decoder::{FrameJob, PictureModel, StateModel};
use crate::encoder;
use crate::encoder::SilentKeyframeParams;
use crate::flat_law;
use crate::frame;
use crate::frame::PlanesModel;
use crate::intra;
use crate::inverse_transform;
use crate::macroblock::{IntraBmode, IntraUvMode, IntraYMode};
use crate::mode_picker;
use crate::mode_writer;
use crate::modes;
use crate::modes::InfoModel;
use crate::neighbors;
use crate::pixels;
use crate::range_coder;
use crate::reconstruct;
use crate::reconstruct::{Edges, NeighborModel};
use crate::round_trip;
use crate::tiling;
use vstd::prelude::*;

verus! {

/// A pixel between black and white.
pub const GRAY: u8 = 128;

/// Planes of `cols` by `rows` macroblocks, all gray.
pub open spec fn gray_planes(cols: int, rows: int) -> PlanesModel {
    PlanesModel {
        y: Seq::new((16 * cols * (16 * rows)) as nat, |i: int| GRAY),
        u: Seq::new((8 * cols * (8 * rows)) as nat, |i: int| GRAY),
        v: Seq::new((8 * cols * (8 * rows)) as nat, |i: int| GRAY),
    }
}

/// An edge that is missing or gray.
spec fn gray_edge(e: Option<Seq<u8>>, n: nat) -> bool {
    e matches Some(s) ==> s.len() == n && flat_law::flat(s, GRAY)
}

proof fn lemma_gray_sum(s: Seq<u8>, n: nat)
    requires
        n <= s.len(),
        flat_law::flat(s, GRAY),
    ensures
        intra::pixel_sum(s, n) == 128 * n,
    decreases n,
{
    if n > 0 {
        lemma_gray_sum(s, (n - 1) as nat);
    }
}

proof fn lemma_gray_mean(n: nat, above: Option<Seq<u8>>, left: Option<Seq<u8>>)
    requires
        n == 8 || n == 16,
        gray_edge(above, n),
        gray_edge(left, n),
    ensures
        intra::mean_edge(n, above, left) == 128,
{
    if let Some(a) = above {
        lemma_gray_sum(a, n);
    }
    if let Some(l) = left {
        lemma_gray_sum(l, n);
    }
    let sum: int = 128 * n as int;
    assert((sum + sum + n) / (2 * n as int) == 128) by (nonlinear_arith)
        requires
            sum == 128 * n,
            n == 8 || n == 16,
    ;
    assert((sum + n as int / 2) / n as int == 128) by (nonlinear_arith)
        requires
            sum == 128 * n,
            n == 8 || n == 16,
    ;
}

proof fn lemma_gray_square(n: nat, e: Edges)
    requires
        n == 8 || n == 16,
        gray_edge(e.above, n),
        gray_edge(e.left, n),
    ensures
        reconstruct::square_from(IntraUvMode::Dc, n, e).len() == n * n,
        flat_law::flat(reconstruct::square_from(IntraUvMode::Dc, n, e), GRAY),
{
    reveal(intra::predicted_square);
    lemma_gray_mean(n, e.above, e.left);
}

proof fn lemma_own_block(plane: Seq<u8>, start: int, stride: int, h: nat)
    requires
        h <= 4,
    ensures
        pixels::stored(plane, start, stride, 4, pixels::block4(plane, start, stride), h) == plane,
    decreases h,
{
    if h > 0 {
        lemma_own_block(plane, start, stride, (h - 1) as nat);
        let vals = pixels::block4(plane, start, stride);
        let at = start + (h - 1) * stride;
        let row = vals.subrange((h - 1) * 4, (h * 4) as int);
        assert forall|i: int| 0 <= i < plane.len() implies #[trigger] pixels::splice(
            plane,
            at,
            row,
        )[i] == plane[i] by {
            if at <= i < at + 4 {
                let k = (h - 1) * 4 + (i - at);
                assert(row[i - at] == vals[k]);
                assert(k / 4 == h - 1 && k % 4 == i - at);
            }
        }
        assert(pixels::splice(plane, at, row) =~= plane);
    }
}

pub proof fn lemma_no_residues(plane: Seq<u8>, per_row: int, blocks: Seq<Seq<i16>>, n: nat)
    requires
        n <= blocks.len(),
        forall|k: int| 0 <= k < n ==> #[trigger] blocks[k] == frame::zero_block(),
    ensures
        reconstruct::with_residues(plane, per_row, blocks, n) == plane,
    decreases n,
{
    if n > 0 {
        let k = n - 1;
        lemma_no_residues(plane, per_row, blocks, k as nat);
        let start = 16 * per_row * (k / per_row) + 4 * (k % per_row);
        let stride = 4 * per_row;
        let b = pixels::block4(plane, start, stride);
        assert(blocks[k] == frame::zero_block());
        assert(inverse_transform::residue_sum(b, frame::zero_block()) =~= b);
        lemma_own_block(plane, start, stride, 4);
    }
}

pub proof fn lemma_zero_transforms()
    ensures
        inverse_transform::idct(frame::zero_block()) == frame::zero_block(),
        forall|k: int|
            0 <= k < 16 ==> #[trigger] reconstruct::seeded(
                frame::zero_block(),
                frame::zero_block(),
                k,
            ) == frame::zero_block(),
{
    let z = frame::zero_block();
    inverse_transform::law_idct_dc_only(0);
    inverse_transform::law_wht_dc_only(0);
    assert(inverse_transform::dc_block(0) =~= z);
    assert(inverse_transform::idct(z) =~= z);
    assert forall|k: int| 0 <= k < 16 implies #[trigger] reconstruct::seeded(z, z, k) == z by {
        assert(reconstruct::seeded(z, z, k) =~= z);
    }
}

/// Gray pixels of a macroblock.
spec fn gray_mb(m: PlanesModel) -> bool {
    &&& m.y.len() == 256
    &&& m.u.len() == 64
    &&& m.v.len() == 64
    &&& flat_law::flat(m.y, GRAY)
    &&& flat_law::flat(m.u, GRAY)
    &&& flat_law::flat(m.v, GRAY)
}

spec fn gray_around(n: NeighborModel) -> bool {
    &&& gray_edge(n.y.above, 16)
    &&& gray_edge(n.y.left, 16)
    &&& gray_edge(n.u.above, 8)
    &&& gray_edge(n.u.left, 8)
    &&& gray_edge(n.v.above, 8)
    &&& gray_edge(n.v.left, 8)
}

proof fn lemma_gray_macroblock(n: NeighborModel, b_modes: Seq<IntraBmode>)
    requires
        gray_around(n),
    ensures
        gray_mb(
            reconstruct::intra_macroblock(
                n,
                IntraYMode::Dc,
                b_modes,
                IntraUvMode::Dc,
                frame::no_coeffs(),
            ),
        ),
{
    let c = frame::no_coeffs();
    let z = frame::zero_block();
    lemma_zero_transforms();
    lemma_gray_square(16, n.y);
    lemma_gray_square(8, n.u);
    lemma_gray_square(8, n.v);
    let luma = reconstruct::luma_residues(true, c.y2, c.y);
    assert forall|k: int| 0 <= k < 16 implies #[trigger] luma[k] == z by {
        assert(c.y[k] == z);
        assert(reconstruct::seeded(z, z, k) == z);
    }
    lemma_no_residues(reconstruct::square_from(IntraUvMode::Dc, 16, n.y), 4, luma, 16);
    let u = reconstruct::chroma_residues(c.u);
    let v = reconstruct::chroma_residues(c.v);
    assert forall|k: int| 0 <= k < 4 implies #[trigger] u[k] == z by {
        assert(c.u[k] == z);
    }
    assert forall|k: int| 0 <= k < 4 implies #[trigger] v[k] == z by {
        assert(c.v[k] == z);
    }
    lemma_no_residues(reconstruct::square_from(IntraUvMode::Dc, 8, n.u), 2, u, 4);
    lemma_no_residues(reconstruct::square_from(IntraUvMode::Dc, 8, n.v), 2, v, 4);
}

/// `len` gray pixels.
spec fn gray(len: nat) -> Seq<u8> {
    Seq::new(len, |i: int| GRAY)
}

proof fn lemma_gray_edges(
    plane: Seq<u8>,
    stride: int,
    size: nat,
    cols: int,
    rows: int,
    row: int,
    col: int,
)
    requires
        size == 8 || size == 16,
        stride == size * cols,
        plane.len() == size * rows * stride,
        0 <= row < rows,
        0 <= col < cols,
        tiling::agrees(
            plane,
            gray(plane.len()),
            stride,
            size as int,
            cols,
            row * cols + col,
        ),
    ensures
        gray_edge(neighbors::edges_at(plane, stride, size, row, col).above, size),
        gray_edge(neighbors::edges_at(plane, stride, size, row, col).left, size),
{
    let n = size as int;
    let len = plane.len() as int;
    let at = size * row * stride + size * col;
    if row > 0 {
        let e = neighbors::line(plane, at - stride, 1, size);
        assert forall|i: int| 0 <= i < size implies #[trigger] e[i] == GRAY by {
            assert((row - 1) * cols + col < row * cols + col) by (nonlinear_arith)
                requires
                    cols > 0,
            ;
            assert(tiling::pixel_at(plane, stride, n, row - 1, col, n - 1, i) == GRAY) by {
                tiling::lemma_pixel_inside(len, stride, n, cols, rows, row - 1, col, n - 1, i);
            }
            assert((size * (row - 1) + (size - 1)) * stride == size * row * stride - stride)
                by (nonlinear_arith);
        }
        assert(flat_law::flat(e, GRAY));
    }
    if col > 0 {
        let e = neighbors::line(plane, at - 1, stride, size);
        assert forall|i: int| 0 <= i < size implies #[trigger] e[i] == GRAY by {
            assert(tiling::pixel_at(plane, stride, n, row, col - 1, i, n - 1) == GRAY) by {
                tiling::lemma_pixel_inside(len, stride, n, cols, rows, row, col - 1, i, n - 1);
            }
            assert((size * row + i) * stride == size * row * stride + i * stride)
                by (nonlinear_arith);
            assert(size * (col - 1) == size * col - size) by (nonlinear_arith);
        }
        assert(flat_law::flat(e, GRAY));
    }
}

/// One more gray block.
proof fn lemma_one_more_gray(
    plane: Seq<u8>,
    stride: int,
    size: nat,
    cols: int,
    rows: int,
    row: int,
    col: int,
    vals: Seq<u8>,
)
    requires
        stride == size * cols,
        plane.len() == size * rows * stride,
        0 <= row < rows,
        0 <= col < cols,
        vals.len() == size * size,
        flat_law::flat(vals, GRAY),
        tiling::agrees(
            plane,
            gray(plane.len()),
            stride,
            size as int,
            cols,
            row * cols + col,
        ),
    ensures
        ({
            let after = pixels::stored(
                plane,
                size * row * stride + size * col,
                stride,
                size as int,
                vals,
                size,
            );
            &&& after.len() == plane.len()
            &&& tiling::agrees(
                after,
                gray(plane.len()),
                stride,
                size as int,
                cols,
                row * cols + col + 1,
            )
        }),
{
    let n = size as int;
    let start = n * row * stride + n * col;
    let target = gray(plane.len());
    assert forall|dy: int, dx: int| 0 <= dy < n && 0 <= dx < n implies #[trigger] tiling::block_pixel(
        vals,
        n,
        dy,
        dx,
    ) == target[start + dy * stride + dx] by {
        tiling::lemma_pixel_inside(plane.len() as int, stride, n, cols, rows, row, col, dy, dx);
        assert((n * row + dy) * stride == n * row * stride + dy * stride) by (nonlinear_arith);
        assert(0 <= dy * n + dx < n * n) by (nonlinear_arith)
            requires
                0 <= dy,
                dy + 1 <= n,
                0 <= dx < n,
        ;
    }
    tiling::lemma_one_more(plane, target, stride, size, cols, rows, row, col, vals);
}

/// A macroblock without residue that is predicted from the mean.
pub open spec fn silent_info() -> InfoModel {
    modes::intra_info(true, 0, IntraYMode::Dc, modes::uniform_bmodes(IntraYMode::Dc), IntraUvMode::Dc)
}

/// `n` such macroblocks.
pub open spec fn silent_infos(n: nat) -> Seq<InfoModel> {
    Seq::new(n, |k: int| silent_info())
}

/// The booleans of a frame without residue are those of its macroblocks.
proof fn lemma_silent_ops(infos: Seq<InfoModel>, cols: int, n: nat)
    requires
        n <= infos.len(),
        forall|k: int| 0 <= k < infos.len() ==> #[trigger] infos[k] == silent_info(),
    ensures
        encoder::silent_ops(n) == mode_writer::mode_ops(infos, cols, 1, n),
    decreases n,
{
    if n > 0 {
        lemma_silent_ops(infos, cols, (n - 1) as nat);
        reveal(mode_writer::mb_mode_ops);
        let a = range_coder::one_op(1, true);
        let b = mode_picker::y_mode_ops(IntraYMode::Dc);
        let c = mode_picker::uv_mode_ops(IntraUvMode::Dc);
        assert(infos[n - 1] == silent_info());
        assert(a + b + Seq::<(u8, bool)>::empty() =~= a + b);
        assert(mode_writer::mb_mode_ops(infos, n - 1, cols, 1) == a + b + c);
        assert(encoder::silent_mb_ops() == a + b + c);
    }
}

/// The planes are gray as far as they are rebuilt.
spec fn gray_progress(p: PlanesModel, cols: int, rows: int, k: int) -> bool {
    &&& p.y.len() == 16 * rows * (16 * cols)
    &&& p.u.len() == 8 * rows * (8 * cols)
    &&& p.v.len() == 8 * rows * (8 * cols)
    &&& tiling::agrees(p.y, gray(p.y.len()), 16 * cols, 16, cols, k)
    &&& tiling::agrees(p.u, gray(p.u.len()), 8 * cols, 8, cols, k)
    &&& tiling::agrees(p.v, gray(p.v.len()), 8 * cols, 8, cols, k)
}

proof fn lemma_gray_next(p: PlanesModel, cols: int, rows: int, row: int, col: int, b_modes: Seq<
    IntraBmode,
>)
    requires
        0 <= row < rows,
        0 <= col < cols,
        gray_progress(p, cols, rows, row * cols + col),
    ensures
        gray_progress(
            neighbors::with_mb(
                p,
                16 * cols,
                8 * cols,
                row,
                col,
                reconstruct::intra_macroblock(
                    neighbors::around_mb(p, 16 * cols, 8 * cols, cols, row, col),
                    IntraYMode::Dc,
                    b_modes,
                    IntraUvMode::Dc,
                    frame::no_coeffs(),
                ),
            ),
            cols,
            rows,
            row * cols + col + 1,
        ),
{
    let n = neighbors::around_mb(p, 16 * cols, 8 * cols, cols, row, col);
    lemma_gray_edges(p.y, 16 * cols, 16, cols, rows, row, col);
    lemma_gray_edges(p.u, 8 * cols, 8, cols, rows, row, col);
    lemma_gray_edges(p.v, 8 * cols, 8, cols, rows, row, col);
    lemma_gray_macroblock(n, b_modes);
    let m = reconstruct::intra_macroblock(
        n,
        IntraYMode::Dc,
        b_modes,
        IntraUvMode::Dc,
        frame::no_coeffs(),
    );
    lemma_one_more_gray(p.y, 16 * cols, 16, cols, rows, row, col, m.y);
    lemma_one_more_gray(p.u, 8 * cols, 8, cols, rows, row, col, m.u);
    lemma_one_more_gray(p.v, 8 * cols, 8, cols, rows, row, col, m.v);
}

/// Macroblocks without residue leave gray planes behind.
proof fn lemma_silent_progress(job: FrameJob, parts: Seq<Seq<u8>>, rows: int, n: nat)
    requires
        job.cols >= 1,
        rows >= 1,
        n <= job.cols * rows,
        job.infos == silent_infos((job.cols * rows) as nat),
    ensures
        gray_progress(
            decoder::after_macroblocks(
                job,
                decoder::nothing_done(parts, job.cols, rows),
                n,
            ).planes,
            job.cols,
            rows,
            n as int,
        ),
    decreases n,
{
    let start = decoder::nothing_done(parts, job.cols, rows);
    let cols = job.cols;
    if n == 0 {
        assert(16 * cols * (16 * rows) == 16 * rows * (16 * cols)) by (nonlinear_arith);
        assert(8 * cols * (8 * rows) == 8 * rows * (8 * cols)) by (nonlinear_arith);
        arith::lemma_mul_bound(16 * rows, 16 * cols, 16 * rows, 16 * cols);
        arith::lemma_mul_bound(8 * rows, 8 * cols, 8 * rows, 8 * cols);
        tiling::lemma_agrees_from_nothing(
            start.planes.y,
            gray(start.planes.y.len()),
            16 * cols,
            16,
            cols,
        );
        tiling::lemma_agrees_from_nothing(
            start.planes.u,
            gray(start.planes.u.len()),
            8 * cols,
            8,
            cols,
        );
        tiling::lemma_agrees_from_nothing(
            start.planes.v,
            gray(start.planes.v.len()),
            8 * cols,
            8,
            cols,
        );
    } else {
        let k = n - 1;
        lemma_silent_progress(job, parts, rows, k as nat);
        let st = decoder::after_macroblocks(job, start, k as nat);
        reveal(decoder::after_macroblock);
        arith::lemma_place(k, cols, rows);
        assert(job.infos[k] == silent_info());
        round_trip::lemma_nothing_scaled(decoder::mb_factors(job.h.coded, 0));
        lemma_gray_next(st.planes, cols, rows, k / cols, k % cols, silent_info().bmodes);
    }
}

/// A decoder, whatever it decoded before, makes of a frame without residue a
/// gray picture of the size asked for.
pub proof fn law_silent_frame_is_gray(
    p: SilentKeyframeParams,
    first: Seq<u8>,
    parts: Seq<Seq<u8>>,
    out: Seq<u8>,
    st: StateModel,
)
    requires
        encoder::silent_fault(p) is None,
        encoder::is_silent_frame(out, p, first, parts),
    ensures
        decoder::decode_fault(out, st) is None,
        decoder::frame_infos(out, st) == silent_infos(
            (decoder::blocks_for(p.width as int) * decoder::blocks_for(p.height as int)) as nat,
        ),
        decoder::decoded_picture(out, st) == (PictureModel {
            planes: gray_planes(
                decoder::blocks_for(p.width as int),
                decoder::blocks_for(p.height as int),
            ),
            width: p.width as int,
            height: p.height as int,
        }),
{
    let cols = decoder::blocks_for(p.width as int);
    let rows = decoder::blocks_for(p.height as int);
    arith::lemma_mul_bound(1, 1, cols, rows);
    let n = (cols * rows) as nat;
    let infos = silent_infos(n);
    lemma_silent_ops(infos, cols, n);
    let ops = encoder::silent_frame_ops(p);
    assert forall|j: int| 0 <= j < parts.len() implies (#[trigger] parts[j]).len() == 4 by {
        range_coder::lemma_empty_code(parts[j]);
    }
    round_trip::law_frame_reads_apart(first, parts, p.width as int, p.height as int, out);
    round_trip::law_first_partition_reads_back(
        p.fields(),
        infos,
        cols,
        rows,
        first,
        encoder::frame_tail(parts),
    );
    reveal(decoder::frame_header_of);
    reveal(decoder::frame_infos);
    reveal(decoder::frame_progress);
    let (h, d) = decoder::frame_header_of(out, st);
    assert(decoder::part_count(h.coded.log2_parts) == parts.len());
    assert(decoder::compressed(out).len() >= 2) by {
        range_coder::law_code_in_interval(first, ops);
    }
    assert(decoder::frame_size(out, st) == (p.width as int, p.height as int));
    let job = FrameJob { h, infos, cols, refs: st.refs };
    lemma_silent_progress(job, parts, rows, n);
    let progress = decoder::frame_progress(out, st);
    let planes = progress.planes;
    tiling::lemma_all_agree(planes.y, gray(planes.y.len()), 16 * cols, 16, cols, rows);
    tiling::lemma_all_agree(planes.u, gray(planes.u.len()), 8 * cols, 8, cols, rows);
    tiling::lemma_all_agree(planes.v, gray(planes.v.len()), 8 * cols, 8, cols, rows);
    assert(16 * cols * (16 * rows) == 16 * rows * (16 * cols)) by (nonlinear_arith);
    assert(8 * cols * (8 * rows) == 8 * rows * (8 * cols)) by (nonlinear_arith);
    let all_gray = gray_planes(cols, rows);
    assert(planes.y =~= all_gray.y);
    assert(planes.u =~= all_gray.u);
    assert(planes.v =~= all_gray.v);
    reveal(decoder::filtered);
    flat_law::law_flat_frame_is_kept(
        planes,
        GRAY,
        GRAY,
        GRAY,
        16 * cols,
        8 * cols,
        cols,
        rows,
        n,
        decoder::filter_plan(h, infos, progress.coded, true),
    );
}

} // verus!
