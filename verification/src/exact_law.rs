//! Macroblocks of one colour come back exactly at the finest quantizer.
use crate::flat_law;
use crate::forward_transform;
use crate::frame::PlanesModel;
use crate::intra;
use crate::inverse_transform;
use crate::macroblock::{IntraBmode, IntraUvMode, IntraYMode};
use crate::mb_coder;
use crate::mode_picker;
use crate::mode_picker::{Decisions, Task};
use crate::pixels;
use crate::quant;
use crate::quant::MbDequantFactors;
use crate::reconstruct;
use vstd::arithmetic::div_mod;
use vstd::prelude::*;

verus! {

/// The 4x4 block, of those that make up a square, in which pixel `i` stands.
#[verifier::opaque]
pub open spec fn tile_of(per_row: int, i: int) -> int {
    i / (16 * per_row) * per_row + i % (4 * per_row) / 4
}

/// Where block `k` of a square starts.
#[verifier::opaque]
pub open spec fn start_of(per_row: int, k: int) -> int {
    16 * per_row * (k / per_row) + 4 * (k % per_row)
}

/// Pixel `d` of row `h` of the block at `start`.
pub open spec fn row_pixel(start: int, stride: int, h: int, d: int) -> int {
    start + h * stride + d
}

proof fn lemma_inside_four(k: int, h: int, d: int)
    requires
        0 <= k < 16,
        0 <= h < 4,
        0 <= d < 4,
    ensures
        0 <= row_pixel(start_of(4, k), 16, h, d) < 256,
        tile_of(4, row_pixel(start_of(4, k), 16, h, d)) == k,
{
    reveal(start_of);
    reveal(tile_of);
    let i = 64 * (k / 4) + 4 * (k % 4) + 16 * h + d;
    assert(i == row_pixel(start_of(4, k), 16, h, d));
    div_mod::lemma_fundamental_div_mod_converse(i, 64, k / 4, 16 * h + 4 * (k % 4) + d);
    div_mod::lemma_fundamental_div_mod_converse(i, 16, 4 * (k / 4) + h, 4 * (k % 4) + d);
}

proof fn lemma_inside_two(k: int, h: int, d: int)
    requires
        0 <= k < 4,
        0 <= h < 4,
        0 <= d < 4,
    ensures
        0 <= row_pixel(start_of(2, k), 8, h, d) < 64,
        tile_of(2, row_pixel(start_of(2, k), 8, h, d)) == k,
{
    reveal(start_of);
    reveal(tile_of);
    let i = 32 * (k / 2) + 4 * (k % 2) + 8 * h + d;
    assert(i == row_pixel(start_of(2, k), 8, h, d));
    div_mod::lemma_fundamental_div_mod_converse(i, 32, k / 2, 8 * h + 4 * (k % 2) + d);
    div_mod::lemma_fundamental_div_mod_converse(i, 8, 4 * (k / 2) + h, 4 * (k % 2) + d);
}

/// A square is as many blocks across as `per_row` says.
pub open spec fn across(per_row: int) -> bool {
    per_row == 2 || per_row == 4
}

/// Number of blocks in a square.
pub open spec fn blocks_in(per_row: int) -> int {
    if per_row == 2 {
        4
    } else {
        16
    }
}

/// The pixels of block `k` are those whose block is `k`.
pub proof fn lemma_inside_tile(per_row: int, k: int, h: int, d: int)
    requires
        across(per_row),
        0 <= k < blocks_in(per_row),
        0 <= h < 4,
        0 <= d < 4,
    ensures
        0 <= row_pixel(start_of(per_row, k), 4 * per_row, h, d) < 16 * blocks_in(per_row),
        tile_of(per_row, row_pixel(start_of(per_row, k), 4 * per_row, h, d)) == k,
{
    if per_row == 4 {
        lemma_inside_four(k, h, d);
    } else {
        lemma_inside_two(k, h, d);
    }
}

proof fn lemma_place_four(i: int)
    requires
        0 <= i < 256,
    ensures
        0 <= tile_of(4, i) < 16,
        i == row_pixel(start_of(4, tile_of(4, i)), 16, i % 64 / 16, i % 4),
{
    reveal(start_of);
    reveal(tile_of);
    let k = i / 64 * 4 + i % 16 / 4;
    assert(k == tile_of(4, i));
    div_mod::lemma_fundamental_div_mod_converse(k, 4, i / 64, i % 16 / 4);
    assert(start_of(4, k) == 64 * (i / 64) + 4 * (i % 16 / 4));
}

proof fn lemma_place_two(i: int)
    requires
        0 <= i < 64,
    ensures
        0 <= tile_of(2, i) < 4,
        i == row_pixel(start_of(2, tile_of(2, i)), 8, i % 32 / 8, i % 4),
{
    reveal(start_of);
    reveal(tile_of);
    let k = i / 32 * 2 + i % 8 / 4;
    assert(k == tile_of(2, i));
    div_mod::lemma_fundamental_div_mod_converse(k, 2, i / 32, i % 8 / 4);
    assert(start_of(2, k) == 32 * (i / 32) + 4 * (i % 8 / 4));
}

/// Pixel `i` stands in one of the four rows of its block.
pub proof fn lemma_tile_place(per_row: int, i: int) -> (at: (int, int))
    requires
        across(per_row),
        0 <= i < 16 * blocks_in(per_row),
    ensures
        0 <= at.0 < 4,
        0 <= at.1 < 4,
        0 <= tile_of(per_row, i) < blocks_in(per_row),
        i == row_pixel(start_of(per_row, tile_of(per_row, i)), 4 * per_row, at.0, at.1),
{
    if per_row == 4 {
        lemma_place_four(i);
        (i % 64 / 16, i % 4)
    } else {
        lemma_place_two(i);
        (i % 32 / 8, i % 4)
    }
}

proof fn lemma_block_stored(plane: Seq<u8>, start: int, stride: int, vals: Seq<u8>, v: u8, i: int)
    requires
        stride >= 4,
        vals.len() == 16,
        flat_law::flat(vals, v),
        0 <= i < plane.len(),
    ensures
        ({
            let after = pixels::stored(plane, start, stride, 4, vals, 4);
            &&& after.len() == plane.len()
            &&& after[i] == if start <= i < start + 4 || start + stride <= i < start + stride + 4
                || start + 2 * stride <= i < start + 2 * stride + 4 || start + 3 * stride <= i < start
                + 3 * stride + 4 {
                v
            } else {
                plane[i]
            }
        }),
{
    let s1 = pixels::splice(plane, start, vals.subrange(0, 4));
    let s2 = pixels::splice(s1, start + stride, vals.subrange(4, 8));
    let s3 = pixels::splice(s2, start + 2 * stride, vals.subrange(8, 12));
    let s4 = pixels::splice(s3, start + 3 * stride, vals.subrange(12, 16));
    assert(pixels::stored(plane, start, stride, 4, vals, 0) == plane);
    assert(pixels::stored(plane, start, stride, 4, vals, 1) == s1);
    assert(pixels::stored(plane, start, stride, 4, vals, 2) == s2);
    assert(pixels::stored(plane, start, stride, 4, vals, 3) == s3);
    assert(pixels::stored(plane, start, stride, 4, vals, 4) == s4);
}

proof fn lemma_tile_stored(plane: Seq<u8>, per_row: int, k: int, vals: Seq<u8>, v: u8, i: int)
    requires
        across(per_row),
        0 <= k < blocks_in(per_row),
        plane.len() == 16 * blocks_in(per_row),
        vals.len() == 16,
        flat_law::flat(vals, v),
        0 <= i < plane.len(),
    ensures
        ({
            let after = pixels::stored(plane, start_of(per_row, k), 4 * per_row, 4, vals, 4);
            &&& after.len() == plane.len()
            &&& after[i] == if tile_of(per_row, i) == k {
                v
            } else {
                plane[i]
            }
        }),
{
    let stride = 4 * per_row;
    let start = start_of(per_row, k);
    lemma_block_stored(plane, start, stride, vals, v, i);
    if start <= i < start + 4 {
        lemma_inside_tile(per_row, k, 0, i - start);
    } else if start + stride <= i < start + stride + 4 {
        lemma_inside_tile(per_row, k, 1, i - start - stride);
    } else if start + 2 * stride <= i < start + 2 * stride + 4 {
        lemma_inside_tile(per_row, k, 2, i - start - 2 * stride);
    } else if start + 3 * stride <= i < start + 3 * stride + 4 {
        lemma_inside_tile(per_row, k, 3, i - start - 3 * stride);
    } else if tile_of(per_row, i) == k {
        let (h, d) = lemma_tile_place(per_row, i);
        assert(i == row_pixel(start, stride, h, d));
        assert(h == 0 || h == 1 || h == 2 || h == 3);
    }
}

/// A flat square with the same flat residue in each of its blocks.
proof fn lemma_flat_residues(
    plane: Seq<u8>,
    p: u8,
    per_row: int,
    blocks: Seq<Seq<i16>>,
    r: i16,
    n: nat,
)
    requires
        across(per_row),
        n <= blocks_in(per_row),
        plane.len() == 16 * blocks_in(per_row),
        flat_law::flat(plane, p),
        0 <= p + r <= 255,
        blocks.len() == blocks_in(per_row),
        forall|k: int|
            0 <= k < blocks.len() ==> #[trigger] blocks[k] == forward_transform::flat_block(r),
    ensures
        ({
            let after = reconstruct::with_residues(plane, per_row, blocks, n);
            &&& after.len() == plane.len()
            &&& forall|i: int|
                0 <= i < plane.len() ==> #[trigger] after[i] == if tile_of(per_row, i) < n {
                    (p + r) as u8
                } else {
                    p
                }
        }),
    decreases n,
{
    if n > 0 {
        reveal(start_of);
        let k = n - 1;
        lemma_flat_residues(plane, p, per_row, blocks, r, k as nat);
        let before = reconstruct::with_residues(plane, per_row, blocks, k as nat);
        let stride = 4 * per_row;
        let start = start_of(per_row, k);
        let own = pixels::block4(before, start, stride);
        let vals = inverse_transform::residue_sum(own, blocks[k]);
        assert forall|j: int| 0 <= j < 16 implies #[trigger] vals[j] == (p + r) as u8 by {
            let i = row_pixel(start, stride, j / 4, j % 4);
            lemma_inside_tile(per_row, k, j / 4, j % 4);
            assert(own[j] == before[i]);
            assert(before[i] == p);
        }
        assert forall|i: int| 0 <= i < plane.len() implies #[trigger] reconstruct::with_residues(
            plane,
            per_row,
            blocks,
            n,
        )[i] == if tile_of(per_row, i) < n {
            (p + r) as u8
        } else {
            p
        } by {
            lemma_tile_stored(before, per_row, k, vals, (p + r) as u8, i);
            assert(before[i] == if tile_of(per_row, i) < k {
                (p + r) as u8
            } else {
                p
            });
        }
        lemma_tile_stored(before, per_row, k, vals, (p + r) as u8, 0);
    } else {
        assert forall|i: int| 0 <= i < plane.len() implies #[trigger] plane[i] == if tile_of(
            per_row,
            i,
        ) < 0 {
            (p + r) as u8
        } else {
            p
        } by {
            let at = lemma_tile_place(per_row, i);
        }
    }
}

/// The pixel that stands all over a prediction from nothing.
spec fn fill_of(mode: IntraUvMode, n: nat) -> u8 {
    intra::square_pixel(mode, n, None, None, reconstruct::corner_of(None), 0, 0)
}

proof fn lemma_flat_prediction(mode: IntraUvMode, n: nat)
    ensures
        reconstruct::square_from(mode, n, reconstruct::no_edges()).len() == n * n,
        flat_law::flat(
            reconstruct::square_from(mode, n, reconstruct::no_edges()),
            fill_of(mode, n),
        ),
{
    reveal(intra::predicted_square);
}

/// What the transforms make of a block that lies a constant off its prediction.
proof fn lemma_flat_spectrum(src: Seq<u8>, pred: Seq<u8>, v: u8, p: u8)
    requires
        src.len() == 16,
        pred.len() == 16,
        flat_law::flat(src, v),
        flat_law::flat(pred, p),
    ensures
        mb_coder::spectrum(src, pred) == inverse_transform::dc_block((8 * (v - p)) as i16),
{
    let r = (v - p) as i16;
    assert(mb_coder::residual(src, pred) =~= forward_transform::flat_block(r));
    forward_transform::law_dct_flat_round_trip(r);
}

proof fn lemma_flat_tile(plane: Seq<u8>, v: u8, per_row: int, k: int)
    requires
        across(per_row),
        0 <= k < blocks_in(per_row),
        plane.len() == 16 * blocks_in(per_row),
        flat_law::flat(plane, v),
    ensures
        mb_coder::tile(plane, per_row, k).len() == 16,
        flat_law::flat(mb_coder::tile(plane, per_row, k), v),
{
    reveal(start_of);
    let t = mb_coder::tile(plane, per_row, k);
    assert forall|j: int| 0 <= j < 16 implies #[trigger] t[j] == v by {
        lemma_inside_tile(per_row, k, j / 4, j % 4);
    }
}

/// A block with only its first coefficient, through quantizer and back.
proof fn lemma_dc_survives(dc: int, step: int)
    requires
        step == 4 || step == 8,
        dc % step == 0,
        -0x7000 <= dc <= 0x7000,
    ensures
        inverse_transform::dequantized(
            mb_coder::quantized(inverse_transform::dc_block(dc as i16), step, step),
            step,
            step,
        ) == inverse_transform::dc_block(dc as i16),
{
    let b = inverse_transform::dc_block(dc as i16);
    let q = mb_coder::quantized(b, step, step);
    assert(q[0] as int * step == dc) by {
        if step == 4 {
            assert(mb_coder::rounded(dc, 4) * 4 == dc);
        } else {
            assert(mb_coder::rounded(dc, 8) * 8 == dc);
        }
    }
    assert forall|i: int| 0 <= i < 16 implies inverse_transform::dequantized(q, step, step)[i]
        == b[i] by {
        if i > 0 {
            assert(q[i] == 0);
        }
    }
    assert(inverse_transform::dequantized(q, step, step) =~= b);
}

/// Steps of the finest quantizer.
pub proof fn lemma_finest()
    ensures
        ({
            let f = quant::factors_of(0, quant::no_deltas());
            &&& f.y1_dc == 4
            &&& f.y1_ac == 4
            &&& f.y2_dc == 8
            &&& f.y2_ac == 8
            &&& f.uv_dc == 4
            &&& f.uv_ac == 4
        }),
{
}

/// Second-order spectrum of blocks that have the same first coefficient.
proof fn lemma_flat_firsts(spectra: Seq<Seq<i16>>, x: i16)
    requires
        spectra.len() == 16,
        -4095 <= x <= 4095,
        forall|k: int| 0 <= k < 16 ==> #[trigger] spectra[k] == inverse_transform::dc_block(x),
    ensures
        forward_transform::fwht(mb_coder::first_ones(spectra)) == inverse_transform::dc_block(
            (8 * x) as i16,
        ),
{
    let firsts = mb_coder::first_ones(spectra);
    assert(firsts == forward_transform::flat_block(x)) by {
        assert forall|k: int| 0 <= k < 16 implies #[trigger] firsts[k] == x by {
            assert(spectra[k] == inverse_transform::dc_block(x));
        }
        assert(firsts =~= forward_transform::flat_block(x));
    }
    forward_transform::law_wht_flat_round_trip(x);
}

/// Spectra of luma that lies a constant off its prediction.
proof fn lemma_flat_spectra(src: Seq<u8>, v: u8, pred: Seq<u8>, p: u8)
    requires
        src.len() == 256,
        pred.len() == 256,
        flat_law::flat(src, v),
        flat_law::flat(pred, p),
    ensures
        forall|k: int|
            0 <= k < 16 ==> #[trigger] mb_coder::luma_spectra(src, pred)[k]
                == inverse_transform::dc_block((8 * (v - p)) as i16),
{
    let spectra = mb_coder::luma_spectra(src, pred);
    assert forall|k: int| 0 <= k < 16 implies #[trigger] spectra[k]
        == inverse_transform::dc_block((8 * (v - p)) as i16) by {
        lemma_flat_tile(src, v, 4, k);
        lemma_flat_tile(pred, p, 4, k);
        lemma_flat_spectrum(mb_coder::tile(src, 4, k), mb_coder::tile(pred, 4, k), v, p);
    }
}

/// The residues that a decoder finds in such luma.
proof fn lemma_flat_luma_residues(y2: Seq<i16>, y: Seq<Seq<i16>>, r: int)
    requires
        -255 <= r <= 255,
        y2 == inverse_transform::dc_block((64 * r) as i16),
        forall|k: int| 0 <= k < 16 ==> #[trigger] y[k] == inverse_transform::dc_block(0),
    ensures
        forall|k: int|
            0 <= k < 16 ==> #[trigger] reconstruct::luma_residues(true, y2, y)[k]
                == forward_transform::flat_block(r as i16),
{
    let one = inverse_transform::dc_block((8 * r) as i16);
    inverse_transform::law_wht_dc_only((64 * r) as i16);
    inverse_transform::law_idct_dc_only((8 * r) as i16);
    assert(inverse_transform::idct(one) =~= forward_transform::flat_block(r as i16));
    assert forall|k: int| 0 <= k < 16 implies #[trigger] reconstruct::luma_residues(
        true,
        y2,
        y,
    )[k] == forward_transform::flat_block(r as i16) by {
        assert(y[k] == inverse_transform::dc_block(0));
        assert(inverse_transform::iwht(y2)[k] == (8 * r) as i16);
        assert(reconstruct::seeded(y[k], y2, k) =~= one);
    }
}

/// Coefficients of luma of one colour, predicted as a whole from nothing.
proof fn lemma_flat_luma_coeffs(t: Task, mode: IntraYMode, v: u8)
    requires
        t.around == reconstruct::nothing_around(),
        t.f == quant::factors_of(0, quant::no_deltas()),
        t.pixels.y.len() == 256,
        flat_law::flat(t.pixels.y, v),
    ensures
        ({
            let c = quant::dequantized_mb(mode_picker::whole_coeffs(t, mode), t.f);
            let r = v - fill_of(intra::square_mode(mode), 16);
            &&& c.y2 == inverse_transform::dc_block((64 * r) as i16)
            &&& c.y.len() == 16
            &&& forall|k: int|
                0 <= k < 16 ==> #[trigger] c.y[k] == inverse_transform::dc_block(0)
        }),
{
    lemma_finest();
    let m = intra::square_mode(mode);
    let pred = mode_picker::whole_prediction(t, mode);
    let p = fill_of(m, 16);
    lemma_flat_prediction(m, 16);
    let r = v - p;
    lemma_flat_spectra(t.pixels.y, v, pred, p);
    lemma_flat_firsts(mb_coder::luma_spectra(t.pixels.y, pred), (8 * r) as i16);
    lemma_dc_survives(64 * r, 8);
    let c = quant::dequantized_mb(mode_picker::whole_coeffs(t, mode), t.f);
    assert(c.y2 == inverse_transform::dc_block((64 * r) as i16));
    lemma_dc_survives(0, 4);
    assert forall|k: int| 0 <= k < 16 implies #[trigger] c.y[k] == inverse_transform::dc_block(
        0,
    ) by {
        let one = mb_coder::luma_spectra(t.pixels.y, pred)[k];
        assert(one == inverse_transform::dc_block((8 * r) as i16));
        assert(one.update(0, 0) =~= inverse_transform::dc_block(0));
    }
}

/// Luma of one colour, predicted as a whole from nothing.
proof fn lemma_flat_luma(t: Task, mode: IntraYMode, v: u8)
    requires
        t.around == reconstruct::nothing_around(),
        t.f == quant::factors_of(0, quant::no_deltas()),
        t.pixels.y.len() == 256,
        flat_law::flat(t.pixels.y, v),
    ensures
        ({
            let c = quant::dequantized_mb(mode_picker::whole_coeffs(t, mode), t.f);
            let plane = reconstruct::with_residues(
                mode_picker::whole_prediction(t, mode),
                4,
                reconstruct::luma_residues(true, c.y2, c.y),
                16,
            );
            plane.len() == 256 && flat_law::flat(plane, v)
        }),
{
    let m = intra::square_mode(mode);
    let pred = mode_picker::whole_prediction(t, mode);
    let p = fill_of(m, 16);
    lemma_flat_prediction(m, 16);
    let r = v - p;
    let c = quant::dequantized_mb(mode_picker::whole_coeffs(t, mode), t.f);
    lemma_flat_luma_coeffs(t, mode, v);
    lemma_flat_luma_residues(c.y2, c.y, r);
    let residues = reconstruct::luma_residues(true, c.y2, c.y);
    lemma_flat_residues(pred, p, 4, residues, r as i16, 16);
    let plane = reconstruct::with_residues(pred, 4, residues, 16);
    assert forall|i: int| 0 <= i < 256 implies #[trigger] plane[i] == v by {
        lemma_place_four(i);
    }
}

/// A chroma plane of one colour, predicted from nothing.
proof fn lemma_flat_chroma(
    src: Seq<u8>,
    mode: IntraUvMode,
    v: u8,
    f: MbDequantFactors,
    c: Seq<Seq<i16>>,
)
    requires
        src.len() == 64,
        flat_law::flat(src, v),
        f.uv_dc == 4,
        f.uv_ac == 4,
        c.len() == 4,
        forall|k: int|
            0 <= k < 4 ==> #[trigger] c[k] == inverse_transform::dequantized(
                mb_coder::chroma_blocks(
                    src,
                    reconstruct::square_from(mode, 8, reconstruct::no_edges()),
                    f,
                )[k],
                4,
                4,
            ),
    ensures
        ({
            let plane = reconstruct::with_residues(
                reconstruct::square_from(mode, 8, reconstruct::no_edges()),
                2,
                reconstruct::chroma_residues(c),
                4,
            );
            plane.len() == 64 && flat_law::flat(plane, v)
        }),
{
    let pred = reconstruct::square_from(mode, 8, reconstruct::no_edges());
    let p = fill_of(mode, 8);
    lemma_flat_prediction(mode, 8);
    let r = v - p;
    let residues = reconstruct::chroma_residues(c);
    let one = inverse_transform::dc_block((8 * r) as i16);
    inverse_transform::law_idct_dc_only((8 * r) as i16);
    assert forall|k: int| 0 <= k < 4 implies #[trigger] residues[k]
        == forward_transform::flat_block(r as i16) by {
        lemma_flat_tile(src, v, 2, k);
        lemma_flat_tile(pred, p, 2, k);
        lemma_flat_spectrum(mb_coder::tile(src, 2, k), mb_coder::tile(pred, 2, k), v, p);
        lemma_dc_survives(8 * r, 4);
        assert(c[k] == one);
        assert(inverse_transform::idct(one) =~= forward_transform::flat_block(r as i16));
    }
    lemma_flat_residues(pred, p, 2, residues, r as i16, 4);
    let plane = reconstruct::with_residues(pred, 2, residues, 4);
    assert forall|i: int| 0 <= i < 64 implies #[trigger] plane[i] == v by {
        lemma_place_two(i);
    }
}

/// A macroblock of one colour with nothing round it, coded with the finest
/// quantizer and predicted as a whole, comes back from a decoder as it was.
pub proof fn law_flat_macroblock_is_exact(
    t: Task,
    d: Decisions,
    b_modes: Seq<IntraBmode>,
    y: u8,
    u: u8,
    v: u8,
)
    requires
        t.around == reconstruct::nothing_around(),
        t.f == quant::factors_of(0, quant::no_deltas()),
        t.pixels == (PlanesModel {
            y: Seq::new(256, |i: int| y),
            u: Seq::new(64, |i: int| u),
            v: Seq::new(64, |i: int| v),
        }),
        d.whole != IntraYMode::B,
        !d.own,
    ensures
        reconstruct::intra_macroblock(
            t.around,
            mode_picker::decided_y_mode(d),
            b_modes,
            d.uv,
            quant::dequantized_mb(mode_picker::decided_coeffs(t, d), t.f),
        ) == t.pixels,
{
    reveal(mode_picker::decided_coeffs);
    lemma_finest();
    lemma_flat_luma(t, d.whole, y);
    let c = quant::dequantized_mb(mode_picker::decided_coeffs(t, d), t.f);
    let w = quant::dequantized_mb(mode_picker::whole_coeffs(t, d.whole), t.f);
    lemma_flat_chroma(t.pixels.u, d.uv, u, t.f, c.u);
    lemma_flat_chroma(t.pixels.v, d.uv, v, t.f, c.v);
    let m = reconstruct::intra_macroblock(
        t.around,
        mode_picker::decided_y_mode(d),
        b_modes,
        d.uv,
        c,
    );
    assert(c.y2 == w.y2 && c.y =~= w.y);
    assert(m.y =~= t.pixels.y);
    assert(m.u =~= t.pixels.u);
    assert(m.v =~= t.pixels.v);
}

} // verus!
