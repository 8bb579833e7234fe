//! Inter frames in which nothing moves.
use crate::arith;
use crate::decoder;
use crate::decoder::{FrameJob, PictureModel, References, StateModel};
use crate::frame;
use crate::frame::PlanesModel;
use crate::frame_header::HeaderModel;
use crate::frame_tag;
use crate::inter;
use crate::inter::RefModel;
use crate::modes::InfoModel;
use crate::mv;
use crate::mv::Mv;
use crate::pixels;
use crate::range_coder::DecState;
use crate::reconstruct;
use crate::round_trip;
use crate::silent_law;
use crate::tiling;
use vstd::prelude::*;

verus! {

/// The planes of a picture are as large as `cols` by `rows` macroblocks ask.
pub open spec fn covers(p: PictureModel, cols: int, rows: int) -> bool {
    &&& decoder::blocks_for(p.width) == cols
    &&& decoder::blocks_for(p.height) == rows
    &&& p.planes.y.len() == 16 * rows * (16 * cols)
    &&& p.planes.u.len() == 8 * rows * (8 * cols)
    &&& p.planes.v.len() == 8 * rows * (8 * cols)
}

/// A macroblock without residue whose vectors are zero, predicted from `p`.
pub open spec fn still(info: InfoModel, refs: References, p: PictureModel) -> bool {
    &&& info.skip
    &&& info.reference matches Some(f) && decoder::reference_picture(refs, f) == p
    &&& info.sub_mvs.len() == 16
    &&& forall|k: int| 0 <= k < 16 ==> #[trigger] info.sub_mvs[k] == mv::zero_mv()
}

/// The block of `size` by `size` pixels at (`row`, `col`) of a plane.
spec fn square_of(plane: Seq<u8>, stride: int, size: int, row: int, col: int) -> Seq<u8> {
    Seq::new(
        (size * size) as nat,
        |i: int| plane[(size * row + i / size) * stride + size * col + i % size],
    )
}

/// A block without a vector is the one in its own place.
proof fn lemma_still_tile(r: RefModel, x: int, y: int, k: int)
    requires
        0 <= k < 16,
        0 <= x,
        x + 4 <= r.width,
        0 <= y,
        y + 4 <= r.height,
    ensures
        inter::fraction_block(r, 8 * x, 8 * y)[k] == r.data[(y + k / 4) * r.stride + x + k % 4],
{
    inter::law_whole_pixels_are_copied(r, 8 * x, 8 * y, k);
}

proof fn lemma_luma_place(row: int, col: int, dy: int, dx: int)
    requires
        0 <= row < 4,
        0 <= col < 4,
        0 <= dy < 4,
        0 <= dx < 4,
    ensures
        ({
            let i = 4 * row * 16 + 4 * col + dy * 16 + dx;
            0 <= i < 256 && i / 16 == 4 * row + dy && i % 16 == 4 * col + dx
        }),
{
}

proof fn lemma_chroma_place(row: int, col: int, dy: int, dx: int)
    requires
        0 <= row < 2,
        0 <= col < 2,
        0 <= dy < 4,
        0 <= dx < 4,
    ensures
        ({
            let i = 4 * row * 8 + 4 * col + dy * 8 + dx;
            0 <= i < 64 && i / 8 == 4 * row + dy && i % 8 == 4 * col + dx
        }),
{
}

/// What is put together of still blocks is the block in its own place.
proof fn lemma_still_luma(r: RefModel, row: int, col: int, mvs: Seq<Mv>, n: nat)
    requires
        n <= 16,
        0 <= row,
        16 * row + 16 <= r.height,
        0 <= col,
        16 * col + 16 <= r.width,
        forall|k: int| 0 <= k < 16 ==> #[trigger] mvs[k] == mv::zero_mv(),
    ensures
        ({
            let t = decoder::tiled(decoder::luma_tiles(r, row, col, mvs), 4, n);
            &&& t.len() == 256
            &&& tiling::agrees(t, square_of(r.data, r.stride, 16, row, col), 16, 4, 4, n as int)
        }),
    decreases n,
{
    let tiles = decoder::luma_tiles(r, row, col, mvs);
    let target = square_of(r.data, r.stride, 16, row, col);
    if n == 0 {
        tiling::lemma_agrees_from_nothing(decoder::tiled(tiles, 4, 0), target, 16, 4, 4);
    } else {
        let k = n - 1;
        lemma_still_luma(r, row, col, mvs, k as nat);
        let before = decoder::tiled(tiles, 4, k as nat);
        let vals = tiles[k];
        let x = 16 * col + 4 * (k % 4);
        let y = 16 * row + 4 * (k / 4);
        assert(mvs[k] == mv::zero_mv());
        assert(vals == inter::fraction_block(r, 8 * x, 8 * y));
        assert(vals.len() == 16) by {
            reveal(inter::fraction_block);
        }
        let start = 4 * (k / 4) * 16 + 4 * (k % 4);
        assert forall|dy: int, dx: int|
            0 <= dy < 4 && 0 <= dx < 4 implies #[trigger] tiling::block_pixel(vals, 4, dy, dx)
            == target[start + dy * 16 + dx] by {
            let j = dy * 4 + dx;
            lemma_still_tile(r, x, y, j);
            assert(j / 4 == dy && j % 4 == dx);
            lemma_luma_place(k / 4, k % 4, dy, dx);
        }
        tiling::lemma_one_more(before, target, 16, 4, 4, 4, k / 4, k % 4, vals);
        assert((k / 4) * 4 + k % 4 == k);
    }
}

/// What is put together of still chroma blocks is the block in its own place.
proof fn lemma_still_chroma(r: RefModel, row: int, col: int, mvs: Seq<Mv>, n: nat)
    requires
        n <= 4,
        0 <= row,
        8 * row + 8 <= r.height,
        0 <= col,
        8 * col + 8 <= r.width,
        forall|k: int| 0 <= k < 16 ==> #[trigger] mvs[k] == mv::zero_mv(),
    ensures
        ({
            let t = decoder::tiled(decoder::chroma_tiles(r, row, col, mvs), 2, n);
            &&& t.len() == 64
            &&& tiling::agrees(t, square_of(r.data, r.stride, 8, row, col), 8, 4, 2, n as int)
        }),
    decreases n,
{
    let tiles = decoder::chroma_tiles(r, row, col, mvs);
    let target = square_of(r.data, r.stride, 8, row, col);
    if n == 0 {
        tiling::lemma_agrees_from_nothing(decoder::tiled(tiles, 2, 0), target, 8, 4, 2);
    } else {
        let k = n - 1;
        lemma_still_chroma(r, row, col, mvs, k as nat);
        let before = decoder::tiled(tiles, 2, k as nat);
        let vals = tiles[k];
        let x = 8 * col + 4 * (k % 2);
        let y = 8 * row + 4 * (k / 2);
        let i = 8 * (k / 2) + 2 * (k % 2);
        assert(mvs[i] == mv::zero_mv() && mvs[i + 1] == mv::zero_mv());
        assert(mvs[i + 4] == mv::zero_mv() && mvs[i + 5] == mv::zero_mv());
        assert(vals == inter::fraction_block(r, 8 * x, 8 * y));
        assert(vals.len() == 16) by {
            reveal(inter::fraction_block);
        }
        let start = 4 * (k / 2) * 8 + 4 * (k % 2);
        assert forall|dy: int, dx: int|
            0 <= dy < 4 && 0 <= dx < 4 implies #[trigger] tiling::block_pixel(vals, 4, dy, dx)
            == target[start + dy * 8 + dx] by {
            let j = dy * 4 + dx;
            lemma_still_tile(r, x, y, j);
            assert(j / 4 == dy && j % 4 == dx);
            lemma_chroma_place(k / 2, k % 2, dy, dx);
        }
        tiling::lemma_one_more(before, target, 8, 4, 2, 2, k / 2, k % 2, vals);
        assert((k / 2) * 2 + k % 2 == k);
    }
}

/// A still macroblock is the one in its own place.
proof fn lemma_still_macroblock(
    p: PictureModel,
    cols: int,
    rows: int,
    row: int,
    col: int,
    mvs: Seq<Mv>,
    has_y2: bool,
)
    requires
        covers(p, cols, rows),
        0 <= row < rows,
        0 <= col < cols,
        forall|k: int| 0 <= k < 16 ==> #[trigger] mvs[k] == mv::zero_mv(),
    ensures
        decoder::inter_macroblock(p, row, col, mvs, has_y2, frame::no_coeffs()) == (PlanesModel {
            y: square_of(p.planes.y, 16 * cols, 16, row, col),
            u: square_of(p.planes.u, 8 * cols, 8, row, col),
            v: square_of(p.planes.v, 8 * cols, 8, row, col),
        }),
{
    let c = frame::no_coeffs();
    let z = frame::zero_block();
    let ly = decoder::luma_of(p);
    let lu = decoder::chroma_of(p, p.planes.u);
    let lv = decoder::chroma_of(p, p.planes.v);
    lemma_still_luma(ly, row, col, mvs, 16);
    lemma_still_chroma(lu, row, col, mvs, 4);
    lemma_still_chroma(lv, row, col, mvs, 4);
    let ty = decoder::tiled(decoder::luma_tiles(ly, row, col, mvs), 4, 16);
    let tu = decoder::tiled(decoder::chroma_tiles(lu, row, col, mvs), 2, 4);
    let tv = decoder::tiled(decoder::chroma_tiles(lv, row, col, mvs), 2, 4);
    tiling::lemma_all_agree(ty, square_of(ly.data, ly.stride, 16, row, col), 16, 4, 4, 4);
    tiling::lemma_all_agree(tu, square_of(lu.data, lu.stride, 8, row, col), 8, 4, 2, 2);
    tiling::lemma_all_agree(tv, square_of(lv.data, lv.stride, 8, row, col), 8, 4, 2, 2);
    silent_law::lemma_zero_transforms();
    let luma = reconstruct::luma_residues(has_y2, c.y2, c.y);
    assert forall|k: int| 0 <= k < 16 implies #[trigger] luma[k] == z by {
        assert(c.y[k] == z);
        assert(reconstruct::seeded(z, z, k) == z);
    }
    silent_law::lemma_no_residues(ty, 4, luma, 16);
    let u = reconstruct::chroma_residues(c.u);
    let v = reconstruct::chroma_residues(c.v);
    assert forall|k: int| 0 <= k < 4 implies #[trigger] u[k] == z by {
        assert(c.u[k] == z);
    }
    assert forall|k: int| 0 <= k < 4 implies #[trigger] v[k] == z by {
        assert(c.v[k] == z);
    }
    silent_law::lemma_no_residues(tu, 2, u, 4);
    silent_law::lemma_no_residues(tv, 2, v, 4);
}

/// A block that is put into its own place of a plane of its own.
proof fn lemma_own_place(
    plane: Seq<u8>,
    target: Seq<u8>,
    stride: int,
    size: nat,
    cols: int,
    rows: int,
    row: int,
    col: int,
)
    requires
        size >= 1,
        stride == size * cols,
        plane.len() == size * rows * stride,
        0 <= row < rows,
        0 <= col < cols,
        tiling::agrees(plane, target, stride, size as int, cols, row * cols + col),
    ensures
        ({
            let after = pixels::stored(
                plane,
                size * row * stride + size * col,
                stride,
                size as int,
                square_of(target, stride, size as int, row, col),
                size,
            );
            &&& after.len() == plane.len()
            &&& tiling::agrees(after, target, stride, size as int, cols, row * cols + col + 1)
        }),
{
    let n = size as int;
    let start = n * row * stride + n * col;
    arith::lemma_mul_bound(n, n, n, n);
    let vals = square_of(target, stride, n, row, col);
    assert forall|dy: int, dx: int| 0 <= dy < n && 0 <= dx < n implies #[trigger] tiling::block_pixel(
        vals,
        n,
        dy,
        dx,
    ) == target[start + dy * stride + dx] by {
        let i = dy * n + dx;
        assert(0 <= i < n * n) by (nonlinear_arith)
            requires
                i == dy * n + dx,
                0 <= dy,
                dy + 1 <= n,
                0 <= dx < n,
        ;
        vstd::arithmetic::div_mod::lemma_fundamental_div_mod_converse(i, n, dy, dx);
        assert((n * row + dy) * stride == n * row * stride + dy * stride) by (nonlinear_arith);
    }
    tiling::lemma_one_more(plane, target, stride, size, cols, rows, row, col, vals);
}

/// The planes are those of `p` as far as they are rebuilt.
spec fn repeated(planes: PlanesModel, p: PictureModel, cols: int, rows: int, k: int) -> bool {
    &&& planes.y.len() == 16 * rows * (16 * cols)
    &&& planes.u.len() == 8 * rows * (8 * cols)
    &&& planes.v.len() == 8 * rows * (8 * cols)
    &&& tiling::agrees(planes.y, p.planes.y, 16 * cols, 16, cols, k)
    &&& tiling::agrees(planes.u, p.planes.u, 8 * cols, 8, cols, k)
    &&& tiling::agrees(planes.v, p.planes.v, 8 * cols, 8, cols, k)
}

/// Still macroblocks repeat the picture.
proof fn lemma_still_progress(
    job: FrameJob,
    parts: Seq<Seq<u8>>,
    rows: int,
    p: PictureModel,
    n: nat,
)
    requires
        job.cols >= 1,
        rows >= 1,
        n <= job.cols * rows,
        covers(p, job.cols, rows),
        job.infos.len() == job.cols * rows,
        forall|k: int| 0 <= k < job.infos.len() ==> #[trigger] still(job.infos[k], job.refs, p),
    ensures
        repeated(
            decoder::after_macroblocks(
                job,
                decoder::nothing_done(parts, job.cols, rows),
                n,
            ).planes,
            p,
            job.cols,
            rows,
            n as int,
        ),
    decreases n,
{
    let start = decoder::nothing_done(parts, job.cols, rows);
    let cols = job.cols;
    if n == 0 {
        assert(16 * cols * (16 * rows) == 16 * rows * (16 * cols)) by (nonlinear_arith);
        assert(8 * cols * (8 * rows) == 8 * rows * (8 * cols)) by (nonlinear_arith);
        arith::lemma_mul_bound(16 * rows, 16 * cols, 16 * rows, 16 * cols);
        arith::lemma_mul_bound(8 * rows, 8 * cols, 8 * rows, 8 * cols);
        tiling::lemma_agrees_from_nothing(start.planes.y, p.planes.y, 16 * cols, 16, cols);
        tiling::lemma_agrees_from_nothing(start.planes.u, p.planes.u, 8 * cols, 8, cols);
        tiling::lemma_agrees_from_nothing(start.planes.v, p.planes.v, 8 * cols, 8, cols);
    } else {
        let k = n - 1;
        lemma_still_progress(job, parts, rows, p, k as nat);
        let planes = decoder::after_macroblocks(job, start, k as nat).planes;
        reveal(decoder::after_macroblock);
        arith::lemma_place(k, cols, rows);
        let row = k / cols;
        let col = k % cols;
        let info = job.infos[k];
        assert(still(info, job.refs, p));
        round_trip::lemma_nothing_scaled(decoder::mb_factors(job.h.coded, info.segment_id));
        lemma_still_macroblock(
            p,
            cols,
            rows,
            row,
            col,
            info.sub_mvs,
            decoder::uses_y2(info),
        );
        lemma_own_place(planes.y, p.planes.y, 16 * cols, 16, cols, rows, row, col);
        lemma_own_place(planes.u, p.planes.u, 8 * cols, 8, cols, rows, row, col);
        lemma_own_place(planes.v, p.planes.v, 8 * cols, 8, cols, rows, row, col);
    }
}

/// An inter frame whose macroblocks have neither residue nor motion repeats
/// the picture that they are predicted from, where the loop filter is off.
pub proof fn law_still_frame_repeats_the_picture(buf: Seq<u8>, st: StateModel, p: PictureModel)
    requires
        !frame_tag::is_key(buf),
        p.width == st.refs.last.width >= 1,
        p.height == st.refs.last.height >= 1,
        covers(p, decoder::blocks_for(p.width), decoder::blocks_for(p.height)),
        decoder::frame_header_of(buf, st).0.coded.level == 0,
        forall|k: int|
            0 <= k < decoder::frame_infos(buf, st).len() ==> #[trigger] still(
                decoder::frame_infos(buf, st)[k],
                st.refs,
                p,
            ),
    ensures
        decoder::decoded_picture(buf, st) == p,
{
    let cols = decoder::blocks_for(p.width);
    let rows = decoder::blocks_for(p.height);
    arith::lemma_mul_bound(1, 1, cols, rows);
    let h = decoder::frame_header_of(buf, st).0;
    let infos = decoder::frame_infos(buf, st);
    let job = FrameJob { h, infos, cols, refs: st.refs };
    let parts = decoder::padded_parts(
        buf,
        decoder::tokens_start(buf),
        decoder::part_count(h.coded.log2_parts),
    );
    assert(infos.len() == cols * rows) by {
        reveal(decoder::frame_infos);
        let d = decoder::frame_header_of(buf, st).1;
        lemma_infos_len(d, h, cols, rows, (cols * rows) as nat);
    }
    lemma_still_progress(job, parts, rows, p, (cols * rows) as nat);
    reveal(decoder::frame_progress);
    reveal(decoder::filtered);
    let planes = decoder::frame_progress(buf, st).planes;
    tiling::lemma_all_agree(planes.y, p.planes.y, 16 * cols, 16, cols, rows);
    tiling::lemma_all_agree(planes.u, p.planes.u, 8 * cols, 8, cols, rows);
    tiling::lemma_all_agree(planes.v, p.planes.v, 8 * cols, 8, cols, rows);
}

proof fn lemma_infos_len(
    d: DecState,
    h: HeaderModel,
    cols: int,
    rows: int,
    n: nat,
)
    ensures
        decoder::read_infos(d, h, false, cols, rows, n).0.len() == n,
    decreases n,
{
    reveal(decoder::read_infos);
    if n > 0 {
        lemma_infos_len(d, h, cols, rows, (n - 1) as nat);
    }
}

} // verus!
