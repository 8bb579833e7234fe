//! Where the pixels of an inter prediction come from.
use crate::decoder;
use crate::decoder::{FrameJob, PictureModel};
use crate::exact_law;
use crate::fidelity_law;
use crate::frame::{CoeffModel, PlanesModel};
use crate::inter;
use crate::inter::RefModel;
use crate::intra_law;
use crate::inverse_transform;
use crate::macroblock::IntraYMode;
use crate::modes::InterMode;
use crate::motion_comp;
use crate::motion_comp::RefFrame;
use crate::mv::Mv;
use crate::quant;
use crate::reconstruct;
use vstd::prelude::*;

verus! {

/// What a plane holds at (`x8`, `y8`) eighths of a pixel.
pub open spec fn sample(r: RefModel, x8: int, y8: int) -> u8 {
    inter::fraction_pixel(r, x8 / 8, y8 / 8, x8 % 8, y8 % 8)
}

/// Pixel `d` of row `h` of block `k` of a square that is put together of blocks.
proof fn lemma_tile_put(blocks: Seq<Seq<u8>>, per_row: int, n: nat, k: int, h: int, d: int)
    requires
        exact_law::across(per_row),
        n <= exact_law::blocks_in(per_row),
        blocks.len() == exact_law::blocks_in(per_row),
        forall|j: int| 0 <= j < blocks.len() ==> (#[trigger] blocks[j]).len() == 16,
        0 <= k < n,
        0 <= h < 4,
        0 <= d < 4,
    ensures
        ({
            let after = decoder::tiled(blocks, per_row, n);
            let i = exact_law::row_pixel(exact_law::start_of(per_row, k), 4 * per_row, h, d);
            &&& after.len() == 16 * exact_law::blocks_in(per_row)
            &&& 0 <= i < after.len()
            &&& after[i] == blocks[k][4 * h + d]
        }),
    decreases n,
{
    let stride = 4 * per_row;
    let m = n - 1;
    let i = exact_law::row_pixel(exact_law::start_of(per_row, k), stride, h, d);
    exact_law::lemma_inside_tile(per_row, k, h, d);
    let before = decoder::tiled(blocks, per_row, m as nat);
    lemma_tiled_len(blocks, per_row, m as nat);
    let start = exact_law::start_of(per_row, m);
    assert(start == 16 * per_row * (m / per_row) + 4 * (m % per_row)) by {
        reveal(exact_law::start_of);
    }
    fidelity_law::lemma_block_stored(before, start, stride, blocks[m], i);
    if k < m {
        lemma_tile_put(blocks, per_row, m as nat, k, h, d);
        assert forall|g: int, e: int| 0 <= g < 4 && 0 <= e < 4 implies i
            != #[trigger] exact_law::row_pixel(start, stride, g, e) by {
            exact_law::lemma_inside_tile(per_row, m, g, e);
        }
    }
}

proof fn lemma_tiled_len(blocks: Seq<Seq<u8>>, per_row: int, n: nat)
    requires
        exact_law::across(per_row),
        n <= exact_law::blocks_in(per_row),
        blocks.len() == exact_law::blocks_in(per_row),
        forall|j: int| 0 <= j < blocks.len() ==> (#[trigger] blocks[j]).len() == 16,
    ensures
        decoder::tiled(blocks, per_row, n).len() == 16 * exact_law::blocks_in(per_row),
    decreases n,
{
    if n > 0 {
        let m = n - 1;
        lemma_tiled_len(blocks, per_row, m as nat);
        let start = exact_law::start_of(per_row, m);
        assert(start == 16 * per_row * (m / per_row) + 4 * (m % per_row)) by {
            reveal(exact_law::start_of);
        }
        fidelity_law::lemma_block_stored(
            decoder::tiled(blocks, per_row, m as nat),
            start,
            4 * per_row,
            blocks[m],
            0,
        );
    }
}

/// A block at a place holds the samples from that place on.
proof fn lemma_block_samples(r: RefModel, x8: int, y8: int, h: int, d: int)
    requires
        0 <= h < 4,
        0 <= d < 4,
    ensures
        inter::fraction_block(r, x8, y8).len() == 16,
        inter::fraction_block(r, x8, y8)[4 * h + d] == sample(r, x8 + 8 * d, y8 + 8 * h),
{
    reveal(inter::fraction_block);
    let k = 4 * h + d;
    assert(k / 4 == h && k % 4 == d);
    assert((x8 + 8 * d) / 8 == x8 / 8 + d && (x8 + 8 * d) % 8 == x8 % 8);
    assert((y8 + 8 * h) / 8 == y8 / 8 + h && (y8 + 8 * h) % 8 == y8 % 8);
}

/// The luma vector that moves row `r` and column `c` of a macroblock: that of
/// the subblock they stand in.
pub open spec fn mover(mvs: Seq<Mv>, r: int, c: int) -> Mv {
    mvs[intra_law::block_with(4, r, c)]
}

/// Every luma pixel of an inter macroblock is what the reference picture holds
/// at its own place, moved by the vector of its subblock, plus its residue.
pub proof fn law_luma_is_moved(
    p: PictureModel,
    row: int,
    col: int,
    mvs: Seq<Mv>,
    has_y2: bool,
    q: CoeffModel,
    r: int,
    c: int,
)
    requires
        mvs.len() == 16,
        q.y.len() == 16,
        forall|k: int| 0 <= k < 16 ==> (#[trigger] q.y[k]).len() == 16,
        0 <= r < 16,
        0 <= c < 16,
    ensures
        ({
            let m = decoder::inter_macroblock(p, row, col, mvs, has_y2, q);
            let k = intra_law::block_with(4, r, c);
            let coeffs = if has_y2 {
                intra_law::with_first(q.y[k], inverse_transform::iwht(q.y2)[k])
            } else {
                q.y[k]
            };
            let residue = inverse_transform::idct(coeffs)[intra_law::place_in_block(r, c)];
            let v = sample(
                decoder::luma_of(p),
                8 * (16 * col + c) + mover(mvs, r, c).col,
                8 * (16 * row + r) + mover(mvs, r, c).row,
            );
            &&& m.y.len() == 256
            &&& m.y[16 * r + c] == intra_law::as_pixel(v + residue)
        }),
{
    let k = intra_law::block_with(4, r, c);
    let f = decoder::luma_of(p);
    let tiles = decoder::luma_tiles(f, row, col, mvs);
    let (h, d) = (r % 4, c % 4);
    assert(k / 4 == r / 4 && k % 4 == c / 4);
    assert forall|j: int| 0 <= j < 16 implies (#[trigger] tiles[j]).len() == 16 by {
        reveal(inter::fraction_block);
    }
    intra_law::lemma_same_pixel(4, r, c);
    lemma_tile_put(tiles, 4, 16, k, h, d);
    let x8 = 8 * (16 * col + 4 * (k % 4)) + mvs[k].col;
    let y8 = 8 * (16 * row + 4 * (k / 4)) + mvs[k].row;
    lemma_block_samples(f, x8, y8, h, d);
    assert(x8 + 8 * d == 8 * (16 * col + c) + mvs[k].col);
    assert(y8 + 8 * h == 8 * (16 * row + r) + mvs[k].row);
    let residues = reconstruct::luma_residues(has_y2, q.y2, q.y);
    fidelity_law::lemma_residue_added(decoder::tiled(tiles, 4, 16), 4, residues, 16, k, h, d);
    if has_y2 {
        assert(reconstruct::seeded(q.y[k], q.y2, k) =~= intra_law::with_first(
            q.y[k],
            inverse_transform::iwht(q.y2)[k],
        ));
    }
}

/// `v` is an eighth of `sum` to the nearest whole number, halves rounded away
/// from zero.
pub open spec fn is_eighth(v: int, sum: int) -> bool {
    &&& -4 <= 8 * v - sum <= 4
    &&& 8 * v - sum == 4 ==> sum > 0
    &&& 8 * v - sum == -4 ==> sum < 0
}

/// The vectors of the four luma subblocks that lie over the chroma block in
/// which row `r` and column `c` stand.
pub open spec fn movers(mvs: Seq<Mv>, r: int, c: int) -> (Mv, Mv, Mv, Mv) {
    let y = 8 * (r / 4);
    let x = 8 * (c / 4);
    (
        mover(mvs, y, x),
        mover(mvs, y, x + 4),
        mover(mvs, y + 4, x),
        mover(mvs, y + 4, x + 4),
    )
}

proof fn lemma_chroma_pixel(
    f: RefModel,
    row: int,
    col: int,
    mvs: Seq<Mv>,
    coeffs: Seq<Seq<i16>>,
    r: int,
    c: int,
    x: int,
    y: int,
)
    requires
        mvs.len() == 16,
        coeffs.len() == 4,
        0 <= r < 8,
        0 <= c < 8,
        ({
            let (a, b, e, g) = movers(mvs, r, c);
            &&& is_eighth(x, a.col + b.col + e.col + g.col)
            &&& is_eighth(y, a.row + b.row + e.row + g.row)
        }),
    ensures
        ({
            let m = reconstruct::with_residues(
                decoder::tiled(decoder::chroma_tiles(f, row, col, mvs), 2, 4),
                2,
                reconstruct::chroma_residues(coeffs),
                4,
            );
            let residue = inverse_transform::idct(coeffs[intra_law::block_with(2, r, c)])[
                intra_law::place_in_block(r, c)
            ];
            let v = sample(f, 8 * (8 * col + c) + x, 8 * (8 * row + r) + y);
            &&& m.len() == 64
            &&& m[8 * r + c] == intra_law::as_pixel(v + residue)
        }),
{
    let k = intra_law::block_with(2, r, c);
    let tiles = decoder::chroma_tiles(f, row, col, mvs);
    let (h, d) = (r % 4, c % 4);
    assert(k / 2 == r / 4 && k % 2 == c / 4);
    let i = 8 * (k / 2) + 2 * (k % 2);
    let (ry, cx) = (8 * (r / 4), 8 * (c / 4));
    assert(intra_law::block_with(4, ry, cx) == i);
    assert(intra_law::block_with(4, ry, cx + 4) == i + 1);
    assert(intra_law::block_with(4, ry + 4, cx) == i + 4);
    assert(intra_law::block_with(4, ry + 4, cx + 4) == i + 5);
    assert(x == decoder::chroma_mean(decoder::col_sum(mvs, k)));
    assert(y == decoder::chroma_mean(decoder::row_sum(mvs, k)));
    assert forall|j: int| 0 <= j < 4 implies (#[trigger] tiles[j]).len() == 16 by {
        reveal(inter::fraction_block);
    }
    intra_law::lemma_same_pixel(2, r, c);
    lemma_tile_put(tiles, 2, 4, k, h, d);
    let x8 = 8 * (8 * col + 4 * (k % 2)) + x;
    let y8 = 8 * (8 * row + 4 * (k / 2)) + y;
    lemma_block_samples(f, x8, y8, h, d);
    assert(x8 + 8 * d == 8 * (8 * col + c) + x);
    assert(y8 + 8 * h == 8 * (8 * row + r) + y);
    fidelity_law::lemma_residue_added(
        decoder::tiled(tiles, 2, 4),
        2,
        reconstruct::chroma_residues(coeffs),
        4,
        k,
        h,
        d,
    );
}

/// Every chroma pixel of an inter macroblock is what the reference picture holds
/// at its own place, moved by half the mean of the vectors of the four luma
/// subblocks that lie over its block, plus its residue.
pub proof fn law_chroma_is_moved(
    p: PictureModel,
    row: int,
    col: int,
    mvs: Seq<Mv>,
    has_y2: bool,
    q: CoeffModel,
    r: int,
    c: int,
    x: int,
    y: int,
)
    requires
        mvs.len() == 16,
        q.u.len() == 4,
        q.v.len() == 4,
        0 <= r < 8,
        0 <= c < 8,
        ({
            let (a, b, e, g) = movers(mvs, r, c);
            &&& is_eighth(x, a.col + b.col + e.col + g.col)
            &&& is_eighth(y, a.row + b.row + e.row + g.row)
        }),
    ensures
        ({
            let m = decoder::inter_macroblock(p, row, col, mvs, has_y2, q);
            let k = intra_law::block_with(2, r, c);
            let at = intra_law::place_in_block(r, c);
            let x8 = 8 * (8 * col + c) + x;
            let y8 = 8 * (8 * row + r) + y;
            &&& m.u.len() == 64
            &&& m.v.len() == 64
            &&& m.u[8 * r + c] == intra_law::as_pixel(
                sample(decoder::chroma_of(p, p.planes.u), x8, y8) + inverse_transform::idct(q.u[k])[at],
            )
            &&& m.v[8 * r + c] == intra_law::as_pixel(
                sample(decoder::chroma_of(p, p.planes.v), x8, y8) + inverse_transform::idct(q.v[k])[at],
            )
        }),
{
    lemma_chroma_pixel(decoder::chroma_of(p, p.planes.u), row, col, mvs, q.u, r, c, x, y);
    lemma_chroma_pixel(decoder::chroma_of(p, p.planes.v), row, col, mvs, q.v, r, c, x, y);
}

/// An inter macroblock is predicted from the reference picture that it names,
/// with its own vectors, whatever the other pictures and the pixels round it.
/// It has a second order unless its vectors are split.
pub proof fn law_named_picture_is_used(
    job: FrameJob,
    planes: PlanesModel,
    k: int,
    c: CoeffModel,
    picture: PictureModel,
)
    requires
        match job.infos[k].reference {
            None => false,
            Some(RefFrame::Last) => picture == job.refs.last,
            Some(RefFrame::Golden) => picture == job.refs.golden,
            Some(RefFrame::AltRef) => picture == job.refs.altref,
        },
        job.infos[k].y_mode != IntraYMode::B,
    ensures
        decoder::macroblock_pixels(job, planes, k, c) == decoder::inter_macroblock(
            picture,
            k / job.cols,
            k % job.cols,
            job.infos[k].sub_mvs,
            job.infos[k].inter_mode != InterMode::Split,
            quant::dequantized_mb(
                c,
                decoder::mb_factors(job.h.coded, job.infos[k].segment_id),
            ),
        ),
{
}

/// A vector without fractions fetches whole pixels, in the same way as the
/// prediction from whole pixels does.
pub proof fn law_whole_vectors_fetch_pixels(r: RefModel, x: int, y: int, m: Mv)
    requires
        m.row % 8 == 0,
        m.col % 8 == 0,
    ensures
        sample(r, 8 * x + m.col, 8 * y + m.row) == motion_comp::fetched(
            r.data,
            r.stride,
            r.width,
            r.height,
            x,
            y,
            m,
        ),
        sample(r, 8 * x + m.col, 8 * y + m.row) == inter::ref_pixel(
            r,
            x + m.col as int / 8,
            y + m.row as int / 8,
        ),
{
    let x8 = 8 * x + m.col;
    let y8 = 8 * y + m.row;
    lemma_block_samples(r, x8, y8, 0, 0);
    inter::law_whole_pixels_are_copied(r, x8, y8, 0);
    assert(x8 / 8 == x + m.col as int / 8 && y8 / 8 == y + m.row as int / 8);
}

/// A vector inside the plane looks at the pixel that lies where it points; past
/// the sides of the plane the nearest pixel goes on.
pub proof fn law_plane_goes_on_past_its_sides(r: RefModel, x: int, y: int)
    requires
        r.width >= 1,
        r.height >= 1,
    ensures
        0 <= x < r.width && 0 <= y < r.height ==> inter::ref_pixel(r, x, y) == r.data[y * r.stride
            + x],
        x < 0 ==> inter::ref_pixel(r, x, y) == inter::ref_pixel(r, 0, y),
        x >= r.width ==> inter::ref_pixel(r, x, y) == inter::ref_pixel(r, r.width - 1, y),
        y < 0 ==> inter::ref_pixel(r, x, y) == inter::ref_pixel(r, x, 0),
        y >= r.height ==> inter::ref_pixel(r, x, y) == inter::ref_pixel(r, x, r.height - 1),
{
}

} // verus!
