//! How far the pixels of a coded macroblock can be off those of its source.
use crate::exact_law;
use crate::forward_transform;
use crate::frame;
use crate::intra;
use crate::inverse_law;
use crate::inverse_transform;
use crate::macroblock::{IntraBmode, IntraYMode};
use crate::mb_coder;
use crate::mode_picker;
use crate::mode_picker::{Decisions, Task};
use crate::pixels;
use crate::quant;
use crate::reach_law;
use crate::reconstruct;
use vstd::arithmetic::div_mod;
use vstd::prelude::*;

verus! {

/// The step of coefficient `i`.
pub open spec fn step_of(dc: int, ac: int, i: int) -> int {
    if i == 0 {
        dc
    } else {
        ac
    }
}

/// Coefficients, none of which is more than half its step off what it stands for.
pub open spec fn within_half_a_step(c: Seq<i16>, exact: Seq<i16>, dc: int, ac: int) -> bool {
    &&& c.len() == 16
    &&& forall|i: int|
        0 <= i < 16 ==> -step_of(dc, ac, i) <= 2 * (#[trigger] c[i] - exact[i]) <= step_of(
            dc,
            ac,
            i,
        )
}

proof fn lemma_one_step(x: i16, step: int, n: int)
    requires
        1 <= step <= 1000,
        0 <= n <= 17000,
        -n <= x <= n,
    ensures
        ({
            let q = mb_coder::rounded(x as int, step) as i16;
            -step <= 2 * (inverse_transform::scaled(q, step) - x) <= step
        }),
{
    mb_coder::law_quantizer_error(x, step);
    let q = mb_coder::rounded(x as int, step);
    assert(-32768 <= q <= 32767) by (nonlinear_arith)
        requires
            step >= 1,
            step <= 1000,
            -17000 <= x <= 17000,
            -step <= 2 * (x - step * q) <= step,
    ;
    assert(q * step == step * q) by (nonlinear_arith);
}

proof fn lemma_steps_undone(x: Seq<i16>, dc: int, ac: int, n: int)
    requires
        0 <= n <= 17000,
        reach_law::within(x, n),
        1 <= dc <= 1000,
        1 <= ac <= 1000,
    ensures
        within_half_a_step(
            inverse_transform::dequantized(mb_coder::quantized(x, dc, ac), dc, ac),
            x,
            dc,
            ac,
        ),
{
    let q = mb_coder::quantized(x, dc, ac);
    let c = inverse_transform::dequantized(q, dc, ac);
    assert forall|i: int| 0 <= i < 16 implies -step_of(dc, ac, i) <= 2 * (#[trigger] c[i] - x[i])
        <= step_of(dc, ac, i) by {
        assert(-n <= x[i] <= n);
        lemma_one_step(x[i], step_of(dc, ac, i), n);
    }
}

/// What the decoder multiplies out of each coded chroma coefficient is at most
/// half a step off the transform of what the prediction left of the source:
/// the step is that for the first coefficient of a block in the first place,
/// and that for the others elsewhere.
pub proof fn law_chroma_is_within_half_a_step(t: Task, d: Decisions)
    requires
        t.f.valid(),
    ensures
        ({
            let c = quant::dequantized_mb(mode_picker::decided_coeffs(t, d), t.f);
            let u = mode_picker::u_prediction(t, d.uv);
            let v = mode_picker::v_prediction(t, d.uv);
            &&& c.u.len() == 4
            &&& c.v.len() == 4
            &&& forall|k: int|
                0 <= k < 4 ==> within_half_a_step(
                    #[trigger] c.u[k],
                    mb_coder::spectrum(mb_coder::tile(t.pixels.u, 2, k), mb_coder::tile(u, 2, k)),
                    t.f.uv_dc as int,
                    t.f.uv_ac as int,
                )
            &&& forall|k: int|
                0 <= k < 4 ==> within_half_a_step(
                    #[trigger] c.v[k],
                    mb_coder::spectrum(mb_coder::tile(t.pixels.v, 2, k), mb_coder::tile(v, 2, k)),
                    t.f.uv_dc as int,
                    t.f.uv_ac as int,
                )
        }),
{
    reveal(mode_picker::decided_coeffs);
    let (dc, ac) = (t.f.uv_dc as int, t.f.uv_ac as int);
    let q = mode_picker::decided_coeffs(t, d);
    let c = quant::dequantized_mb(q, t.f);
    let u = mode_picker::u_prediction(t, d.uv);
    let v = mode_picker::v_prediction(t, d.uv);
    assert forall|k: int| 0 <= k < 4 implies within_half_a_step(
        #[trigger] c.u[k],
        mb_coder::spectrum(mb_coder::tile(t.pixels.u, 2, k), mb_coder::tile(u, 2, k)),
        dc,
        ac,
    ) by {
        let s = mb_coder::tile(t.pixels.u, 2, k);
        let p = mb_coder::tile(u, 2, k);
        reach_law::lemma_spectrum_bound(s, p);
        lemma_steps_undone(mb_coder::spectrum(s, p), dc, ac, 2050);
    }
    assert forall|k: int| 0 <= k < 4 implies within_half_a_step(
        #[trigger] c.v[k],
        mb_coder::spectrum(mb_coder::tile(t.pixels.v, 2, k), mb_coder::tile(v, 2, k)),
        dc,
        ac,
    ) by {
        let s = mb_coder::tile(t.pixels.v, 2, k);
        let p = mb_coder::tile(v, 2, k);
        reach_law::lemma_spectrum_bound(s, p);
        lemma_steps_undone(mb_coder::spectrum(s, p), dc, ac, 2050);
    }
}

/// Luma that is predicted as a whole: the coefficients after the first of each
/// block are at most half a step off the transform of what the prediction left
/// of the source, and the first ones are coded together, at most half a step of
/// the second order off their own transform.
pub proof fn law_whole_luma_is_within_half_a_step(t: Task, d: Decisions)
    requires
        t.f.valid(),
        !d.own,
    ensures
        ({
            let c = quant::dequantized_mb(mode_picker::decided_coeffs(t, d), t.f);
            let pred = mode_picker::whole_prediction(t, d.whole);
            let spectra = mb_coder::luma_spectra(t.pixels.y, pred);
            &&& c.y.len() == 16
            &&& forall|k: int|
                0 <= k < 16 ==> within_half_a_step(
                    #[trigger] c.y[k],
                    spectra[k].update(0, 0),
                    t.f.y1_dc as int,
                    t.f.y1_ac as int,
                )
            &&& within_half_a_step(
                c.y2,
                forward_transform::fwht(mb_coder::first_ones(spectra)),
                t.f.y2_dc as int,
                t.f.y2_ac as int,
            )
        }),
{
    reveal(mode_picker::decided_coeffs);
    let q = mode_picker::decided_coeffs(t, d);
    let c = quant::dequantized_mb(q, t.f);
    let pred = mode_picker::whole_prediction(t, d.whole);
    let spectra = mb_coder::luma_spectra(t.pixels.y, pred);
    assert forall|k: int| 0 <= k < 16 implies reach_law::within(#[trigger] spectra[k], 2050) by {
        reach_law::lemma_spectrum_bound(
            mb_coder::tile(t.pixels.y, 4, k),
            mb_coder::tile(pred, 4, k),
        );
    }
    assert forall|k: int| 0 <= k < 16 implies within_half_a_step(
        #[trigger] c.y[k],
        spectra[k].update(0, 0),
        t.f.y1_dc as int,
        t.f.y1_ac as int,
    ) by {
        let s = spectra[k].update(0, 0);
        assert(reach_law::within(spectra[k], 2050));
        assert forall|i: int| 0 <= i < 16 implies -2050 <= #[trigger] s[i] <= 2050 by {
            assert(-2050 <= spectra[k][i] <= 2050);
        }
        lemma_steps_undone(s, t.f.y1_dc as int, t.f.y1_ac as int, 2050);
    }
    let firsts = mb_coder::first_ones(spectra);
    assert forall|k: int| 0 <= k < 16 implies -2050 <= #[trigger] firsts[k] <= 2050 by {
        assert(reach_law::within(spectra[k], 2050));
    }
    reach_law::lemma_second_order_bound(firsts);
    lemma_steps_undone(
        forward_transform::fwht(firsts),
        t.f.y2_dc as int,
        t.f.y2_ac as int,
        16400,
    );
}

/// Where a block of pixels is put, pixel `j` comes from the block; elsewhere
/// it stays.
pub proof fn lemma_block_stored(plane: Seq<u8>, start: int, stride: int, vals: Seq<u8>, j: int)
    requires
        stride >= 4,
        vals.len() == 16,
        0 <= j < plane.len(),
    ensures
        ({
            let after = pixels::stored(plane, start, stride, 4, vals, 4);
            &&& after.len() == plane.len()
            &&& forall|h: int, d: int|
                0 <= h < 4 && 0 <= d < 4 && j == #[trigger] exact_law::row_pixel(
                    start,
                    stride,
                    h,
                    d,
                ) ==> after[j] == vals[4 * h + d]
            &&& (forall|h: int, d: int|
                0 <= h < 4 && 0 <= d < 4 ==> j != #[trigger] exact_law::row_pixel(
                    start,
                    stride,
                    h,
                    d,
                )) ==> after[j] == plane[j]
        }),
{
    let s1 = pixels::splice(plane, start, vals.subrange(0, 4));
    let s2 = pixels::splice(s1, start + stride, vals.subrange(4, 8));
    let s3 = pixels::splice(s2, start + 2 * stride, vals.subrange(8, 12));
    let s4 = pixels::splice(s3, start + 3 * stride, vals.subrange(12, 16));
    assert(pixels::stored(plane, start, stride, 4, vals, 0) == plane);
    assert(pixels::stored(plane, start, stride, 4, vals, 1) == s1);
    assert(pixels::stored(plane, start, stride, 4, vals, 2) == s2);
    assert(pixels::stored(plane, start, stride, 4, vals, 3) == s3);
    assert(pixels::stored(plane, start, stride, 4, vals, 4) == s4);
    assert forall|h: int, d: int|
        0 <= h < 4 && 0 <= d < 4 && j == #[trigger] exact_law::row_pixel(
            start,
            stride,
            h,
            d,
        ) implies s4[j] == vals[4 * h + d] by {
        assert(h == 0 || h == 1 || h == 2 || h == 3);
    }
    if forall|h: int, d: int|
        0 <= h < 4 && 0 <= d < 4 ==> j != #[trigger] exact_law::row_pixel(start, stride, h, d) {
        if start <= j < start + 4 {
            assert(j == exact_law::row_pixel(start, stride, 0, j - start));
        }
        if start + stride <= j < start + stride + 4 {
            assert(j == exact_law::row_pixel(start, stride, 1, j - start - stride));
        }
        if start + 2 * stride <= j < start + 2 * stride + 4 {
            assert(j == exact_law::row_pixel(start, stride, 2, j - start - 2 * stride));
        }
        if start + 3 * stride <= j < start + 3 * stride + 4 {
            assert(j == exact_law::row_pixel(start, stride, 3, j - start - 3 * stride));
        }
    }
}

/// Pixel `d` of row `h` of block `k` is its prediction plus the residue there.
pub proof fn lemma_residue_added(
    plane: Seq<u8>,
    per_row: int,
    blocks: Seq<Seq<i16>>,
    n: nat,
    k: int,
    h: int,
    d: int,
)
    requires
        exact_law::across(per_row),
        n <= exact_law::blocks_in(per_row),
        plane.len() == 16 * exact_law::blocks_in(per_row),
        0 <= k < exact_law::blocks_in(per_row),
        0 <= h < 4,
        0 <= d < 4,
    ensures
        ({
            let after = reconstruct::with_residues(plane, per_row, blocks, n);
            let i = exact_law::row_pixel(exact_law::start_of(per_row, k), 4 * per_row, h, d);
            &&& after.len() == plane.len()
            &&& 0 <= i < plane.len()
            &&& after[i] == if k < n {
                inverse_transform::add_clamped(plane[i], blocks[k][4 * h + d])
            } else {
                plane[i]
            }
        }),
    decreases n,
{
    let stride = 4 * per_row;
    let i = exact_law::row_pixel(exact_law::start_of(per_row, k), stride, h, d);
    exact_law::lemma_inside_tile(per_row, k, h, d);
    if n > 0 {
        let m = n - 1;
        lemma_residue_added(plane, per_row, blocks, m as nat, k, h, d);
        let before = reconstruct::with_residues(plane, per_row, blocks, m as nat);
        let start = exact_law::start_of(per_row, m);
        assert(start == 16 * per_row * (m / per_row) + 4 * (m % per_row)) by {
            reveal(exact_law::start_of);
        }
        let own = pixels::block4(before, start, stride);
        let vals = inverse_transform::residue_sum(own, blocks[m]);
        lemma_block_stored(before, start, stride, vals, i);
        if k == m {
            assert(own[4 * h + d] == before[i]) by {
                assert((4 * h + d) / 4 == h && (4 * h + d) % 4 == d);
            }
        } else {
            assert forall|g: int, e: int| 0 <= g < 4 && 0 <= e < 4 implies i
                != #[trigger] exact_law::row_pixel(start, stride, g, e) by {
                exact_law::lemma_inside_tile(per_row, m, g, e);
            }
        }
    }
}

/// A pixel rebuilt from coefficients near those of the source is near the source.
proof fn lemma_rebuilt_pixel(src: Seq<u8>, pred: Seq<u8>, c: Seq<i16>, dc: int, ac: int, j: int)
    requires
        src.len() == 16,
        pred.len() == 16,
        inverse_law::near_by(c, mb_coder::spectrum(src, pred), dc, ac),
        0 <= dc <= 1000,
        0 <= ac <= 1000,
        0 <= j < 16,
    ensures
        ({
            let p = inverse_transform::add_clamped(pred[j], inverse_transform::idct(c)[j]);
            -(dc + 14 * ac + 58) <= 8 * (p - src[j]) <= dc + 14 * ac + 58
        }),
{
    let s = mb_coder::residual(src, pred);
    inverse_law::law_near_coefficients_give_near_pixels(s, c, dc, ac);
    let r = inverse_transform::idct(c)[j];
    assert(-(dc + 14 * ac + 58) <= 8 * (r - s[j]) <= dc + 14 * ac + 58);
    assert(s[j] == src[j] - pred[j]);
}

proof fn lemma_half_steps(c: Seq<i16>, x: Seq<i16>, dc: int, ac: int)
    requires
        within_half_a_step(c, x, dc, ac),
        x.len() == 16,
    ensures
        inverse_law::near_by(c, x, dc / 2, ac / 2),
{
    assert(step_of(dc, ac, 0) == dc);
    assert(-step_of(dc, ac, 0) <= 2 * (c[0] - x[0]) <= step_of(dc, ac, 0));
    assert forall|i: int| 1 <= i < 16 implies -(ac / 2) <= #[trigger] c[i] - #[trigger] x[i] <= ac
        / 2 by {
        assert(-step_of(dc, ac, i) <= 2 * (c[i] - x[i]) <= step_of(dc, ac, i));
    }
}

/// No pixel of a plane is more than `n` sixteenths off that of another.
pub open spec fn sixteenths_off(a: Seq<u8>, b: Seq<u8>, n: int) -> bool {
    &&& a.len() == b.len()
    &&& forall|i: int| 0 <= i < a.len() ==> -n <= 16 * (#[trigger] a[i] - b[i]) <= n
}

/// A square rebuilt from coefficients that are near those of the source.
proof fn lemma_rebuilt_square(
    src: Seq<u8>,
    pred: Seq<u8>,
    per_row: int,
    c: Seq<Seq<i16>>,
    residues: Seq<Seq<i16>>,
    dc: int,
    ac: int,
)
    requires
        exact_law::across(per_row),
        src.len() == 16 * exact_law::blocks_in(per_row),
        pred.len() == src.len(),
        c.len() == exact_law::blocks_in(per_row),
        0 <= dc <= 1000,
        0 <= ac <= 1000,
        forall|k: int|
            0 <= k < c.len() ==> inverse_law::near_by(
                #[trigger] c[k],
                mb_coder::spectrum(mb_coder::tile(src, per_row, k), mb_coder::tile(pred, per_row, k)),
                dc,
                ac,
            ),
        residues.len() == c.len(),
        forall|k: int|
            0 <= k < c.len() ==> #[trigger] residues[k] == inverse_transform::idct(c[k]),
    ensures
        sixteenths_off(
            reconstruct::with_residues(
                pred,
                per_row,
                residues,
                exact_law::blocks_in(per_row) as nat,
            ),
            src,
            2 * (dc + 14 * ac + 58),
        ),
{
    let n = exact_law::blocks_in(per_row) as nat;
    let after = reconstruct::with_residues(pred, per_row, residues, n);
    let bound = 2 * (dc + 14 * ac + 58);
    assert forall|i: int| 0 <= i < src.len() implies -bound <= 16 * (#[trigger] after[i] - src[i])
        <= bound by {
        let (h, d) = exact_law::lemma_tile_place(per_row, i);
        let k = exact_law::tile_of(per_row, i);
        lemma_residue_added(pred, per_row, residues, n, k, h, d);
        let a = mb_coder::tile(src, per_row, k);
        let b = mb_coder::tile(pred, per_row, k);
        let j = 4 * h + d;
        assert(j / 4 == h && j % 4 == d);
        assert(a[j] == src[i] && b[j] == pred[i]) by {
            reveal(exact_law::start_of);
        }
        assert(residues[k] == inverse_transform::idct(c[k]));
        lemma_rebuilt_pixel(a, b, c[k], dc, ac, j);
    }
    lemma_residue_added(pred, per_row, residues, n, 0, 0, 0);
}

/// What the decoder rebuilds of a macroblock that was coded under `d`.
pub open spec fn rebuilt(t: Task, d: Decisions) -> frame::PlanesModel {
    reconstruct::intra_macroblock(
        t.around,
        mode_picker::decided_y_mode(d),
        d.modes,
        d.uv,
        quant::dequantized_mb(mode_picker::decided_coeffs(t, d), t.f),
    )
}

/// Planes of a macroblock.
pub open spec fn full_size(p: frame::PlanesModel) -> bool {
    &&& p.y.len() == 256
    &&& p.u.len() == 64
    &&& p.v.len() == 64
}

/// Whatever the source and the prediction, the chroma pixels that the decoder
/// rebuilds are off the source by no more than the steps allow.
pub proof fn law_chroma_is_near_the_source(t: Task, d: Decisions)
    requires
        t.f.valid(),
        full_size(t.pixels),
    ensures
        sixteenths_off(rebuilt(t, d).u, t.pixels.u, t.f.uv_dc + 14 * t.f.uv_ac + 116),
        sixteenths_off(rebuilt(t, d).v, t.pixels.v, t.f.uv_dc + 14 * t.f.uv_ac + 116),
{
    law_chroma_is_within_half_a_step(t, d);
    let c = quant::dequantized_mb(mode_picker::decided_coeffs(t, d), t.f);
    let u = mode_picker::u_prediction(t, d.uv);
    let v = mode_picker::v_prediction(t, d.uv);
    let (dc, ac) = (t.f.uv_dc as int, t.f.uv_ac as int);
    assert(u.len() == 64 && v.len() == 64) by {
        reveal(intra::predicted_square);
    }
    assert forall|k: int| 0 <= k < 4 implies inverse_law::near_by(
        #[trigger] c.u[k],
        mb_coder::spectrum(mb_coder::tile(t.pixels.u, 2, k), mb_coder::tile(u, 2, k)),
        dc / 2,
        ac / 2,
    ) by {
        lemma_half_steps(
            c.u[k],
            mb_coder::spectrum(mb_coder::tile(t.pixels.u, 2, k), mb_coder::tile(u, 2, k)),
            dc,
            ac,
        );
    }
    assert forall|k: int| 0 <= k < 4 implies inverse_law::near_by(
        #[trigger] c.v[k],
        mb_coder::spectrum(mb_coder::tile(t.pixels.v, 2, k), mb_coder::tile(v, 2, k)),
        dc / 2,
        ac / 2,
    ) by {
        lemma_half_steps(
            c.v[k],
            mb_coder::spectrum(mb_coder::tile(t.pixels.v, 2, k), mb_coder::tile(v, 2, k)),
            dc,
            ac,
        );
    }
    lemma_rebuilt_square(
        t.pixels.u,
        u,
        2,
        c.u,
        reconstruct::chroma_residues(c.u),
        dc / 2,
        ac / 2,
    );
    lemma_rebuilt_square(
        t.pixels.v,
        v,
        2,
        c.v,
        reconstruct::chroma_residues(c.v),
        dc / 2,
        ac / 2,
    );
}

/// How far the first coefficient of a block can be off after the second order
/// was coded.
pub open spec fn first_off(t: Task) -> int {
    (t.f.y2_dc / 2 + 15 * (t.f.y2_ac / 2) + 12) / 8
}

/// Luma that is predicted as a whole comes back as near the source as the
/// steps of both orders allow.
pub proof fn law_whole_luma_is_near_the_source(t: Task, d: Decisions)
    requires
        t.f.valid(),
        full_size(t.pixels),
        d.whole != IntraYMode::B,
        !d.own,
    ensures
        sixteenths_off(
            rebuilt(t, d).y,
            t.pixels.y,
            2 * (first_off(t) + 14 * (t.f.y1_ac / 2) + 58),
        ),
{
    law_whole_luma_is_within_half_a_step(t, d);
    let c = quant::dequantized_mb(mode_picker::decided_coeffs(t, d), t.f);
    let pred = mode_picker::whole_prediction(t, d.whole);
    let spectra = mb_coder::luma_spectra(t.pixels.y, pred);
    let firsts = mb_coder::first_ones(spectra);
    let (dc, ac) = (t.f.y2_dc as int, t.f.y2_ac as int);
    assert(pred.len() == 256) by {
        reveal(intra::predicted_square);
    }
    assert forall|k: int| 0 <= k < 16 implies -2050 <= #[trigger] firsts[k] <= 2050 by {
        reach_law::lemma_spectrum_bound(
            mb_coder::tile(t.pixels.y, 4, k),
            mb_coder::tile(pred, 4, k),
        );
        assert(-2050 <= spectra[k][0] <= 2050);
    }
    lemma_half_steps(c.y2, forward_transform::fwht(firsts), dc, ac);
    inverse_law::law_near_second_order_gives_near_first_ones(firsts, c.y2, dc / 2, ac / 2);
    let blocks = Seq::new(16, |k: int| reconstruct::seeded(c.y[k], c.y2, k));
    let residues = reconstruct::luma_residues(true, c.y2, c.y);
    let first = first_off(t);
    assert forall|k: int| 0 <= k < 16 implies inverse_law::near_by(
        #[trigger] blocks[k],
        mb_coder::spectrum(mb_coder::tile(t.pixels.y, 4, k), mb_coder::tile(pred, 4, k)),
        first,
        t.f.y1_ac as int / 2,
    ) by {
        let x = spectra[k];
        assert(within_half_a_step(
            c.y[k],
            x.update(0, 0),
            t.f.y1_dc as int,
            t.f.y1_ac as int,
        ));
        lemma_half_steps(c.y[k], x.update(0, 0), t.f.y1_dc as int, t.f.y1_ac as int);
        assert(blocks[k][0] == inverse_transform::iwht(c.y2)[k]);
        assert(firsts[k] == x[0]);
        assert forall|i: int| 1 <= i < 16 implies -(t.f.y1_ac as int / 2) <= #[trigger] blocks[k][i]
            - #[trigger] x[i] <= t.f.y1_ac as int / 2 by {
            assert(x.update(0, 0)[i] == x[i]);
            assert(blocks[k][i] == c.y[k][i]);
        }
    }
    lemma_rebuilt_square(t.pixels.y, pred, 4, blocks, residues, first, t.f.y1_ac as int / 2);
}

/// Where pixel `i` of a macroblock stands in the work area.
pub open spec fn work_place(i: int) -> int {
    22 + 21 * (i / 16) + i % 16
}

pub proof fn lemma_work_place(k: int, h: int, d: int)
    requires
        0 <= k < 16,
        0 <= h < 4,
        0 <= d < 4,
    ensures
        ({
            let i = exact_law::row_pixel(exact_law::start_of(4, k), 16, h, d);
            &&& 0 <= i < 256
            &&& work_place(i) == exact_law::row_pixel(reconstruct::subblock_at(k), 21, h, d)
            &&& 22 <= work_place(i) < 357
        }),
{
    exact_law::lemma_inside_tile(4, k, h, d);
    reveal(exact_law::start_of);
    let i = 64 * (k / 4) + 4 * (k % 4) + 16 * h + d;
    div_mod::lemma_fundamental_div_mod_converse(i, 16, 4 * (k / 4) + h, 4 * (k % 4) + d);
}

/// Rows of the work area share no pixel.
proof fn lemma_rows_apart(row: int, col: int, other_row: int, other_col: int)
    requires
        0 <= col < 16,
        0 <= other_col < 16,
        21 * row + col == 21 * other_row + other_col,
    ensures
        row == other_row,
        col == other_col,
{
}

/// Two subblocks share no pixel.
pub proof fn lemma_work_apart(k: int, m: int, h: int, d: int, g: int, e: int)
    requires
        0 <= k < 16,
        0 <= m < 16,
        k != m,
        0 <= h < 4,
        0 <= d < 4,
        0 <= g < 4,
        0 <= e < 4,
    ensures
        exact_law::row_pixel(reconstruct::subblock_at(k), 21, h, d) != exact_law::row_pixel(
            reconstruct::subblock_at(m),
            21,
            g,
            e,
        ),
{
    let a = exact_law::row_pixel(reconstruct::subblock_at(k), 21, h, d);
    let b = exact_law::row_pixel(reconstruct::subblock_at(m), 21, g, e);
    assert(a == 22 + 21 * (4 * (k / 4) + h) + (4 * (k % 4) + d));
    assert(b == 22 + 21 * (4 * (m / 4) + g) + (4 * (m % 4) + e));
    if a == b {
        lemma_rows_apart(4 * (k / 4) + h, 4 * (k % 4) + d, 4 * (m / 4) + g, 4 * (m % 4) + e);
        assert(k / 4 == m / 4 && k % 4 == m % 4);
    }
    assert(k == 4 * (k / 4) + k % 4 && m == 4 * (m / 4) + m % 4);
}

proof fn lemma_work_len(t: Task, modes: Seq<IntraBmode>)
    requires
        modes.len() <= 16,
    ensures
        mode_picker::sub_state(t, modes).work.len() == 357,
    decreases modes.len(),
{
    reveal(reconstruct::work_area);
    if modes.len() > 0 {
        let before = mode_picker::sub_state(t, modes.drop_last());
        lemma_work_len(t, modes.drop_last());
        mode_picker::lemma_sub_state_len(t, modes.drop_last());
        let k = modes.len() - 1;
        reveal(mode_picker::next_pixels);
        reveal(intra::predicted_subblock);
        lemma_block_stored(
            before.work,
            reconstruct::subblock_at(k),
            21,
            mode_picker::next_pixels(t, before, modes.last()),
            0,
        );
    }
}

/// The subblocks that were coded so far are near the source.
proof fn lemma_subblocks_near(t: Task, modes: Seq<IntraBmode>, k: int, h: int, d: int)
    requires
        t.f.valid(),
        full_size(t.pixels),
        modes.len() <= 16,
        0 <= k < modes.len(),
        0 <= h < 4,
        0 <= d < 4,
    ensures
        ({
            let i = exact_law::row_pixel(exact_law::start_of(4, k), 16, h, d);
            let n = t.f.y1_dc + 14 * t.f.y1_ac + 116;
            -n <= 16 * (mode_picker::sub_state(t, modes).work[work_place(i)] - t.pixels.y[i]) <= n
        }),
    decreases modes.len(),
{
    let m = modes.len() - 1;
    let before = mode_picker::sub_state(t, modes.drop_last());
    mode_picker::lemma_sub_state_len(t, modes.drop_last());
    lemma_work_len(t, modes.drop_last());
    lemma_work_place(k, h, d);
    let i = exact_law::row_pixel(exact_law::start_of(4, k), 16, h, d);
    let pred = reconstruct::subblock_prediction(before.work, m, modes.last());
    let src = mb_coder::tile(t.pixels.y, 4, m);
    let (dc, ac) = (t.f.y1_dc as int, t.f.y1_ac as int);
    let vals = mode_picker::next_pixels(t, before, modes.last());
    reveal(mode_picker::next_pixels);
    reveal(mode_picker::next_coeffs);
    assert(pred.len() == 16) by {
        reveal(intra::predicted_subblock);
    }
    lemma_block_stored(before.work, reconstruct::subblock_at(m), 21, vals, work_place(i));
    if k == m {
        let x = mb_coder::spectrum(src, pred);
        let c = inverse_transform::dequantized(mb_coder::quantized(x, dc, ac), dc, ac);
        let j = 4 * h + d;
        reach_law::lemma_spectrum_bound(src, pred);
        lemma_steps_undone(x, dc, ac, 2050);
        lemma_half_steps(c, x, dc, ac);
        lemma_rebuilt_pixel(src, pred, c, dc / 2, ac / 2, j);
        assert(j / 4 == h && j % 4 == d);
        assert(src[j] == t.pixels.y[i]) by {
            reveal(exact_law::start_of);
        }
        assert(vals[j] == inverse_transform::add_clamped(pred[j], inverse_transform::idct(c)[j]));
    } else {
        lemma_subblocks_near(t, modes.drop_last(), k, h, d);
        assert forall|g: int, e: int| 0 <= g < 4 && 0 <= e < 4 implies work_place(i)
            != #[trigger] exact_law::row_pixel(reconstruct::subblock_at(m), 21, g, e) by {
            lemma_work_apart(k, m, h, d, g, e);
        }
    }
}

/// The decoder's subblocks are the encoder's.
proof fn lemma_same_work(t: Task, modes: Seq<IntraBmode>, y: Seq<Seq<i16>>, k: nat)
    requires
        k <= modes.len(),
        y.len() >= modes.len(),
        forall|j: int|
            0 <= j < modes.len() ==> #[trigger] y[j] == inverse_transform::dequantized(
                mode_picker::sub_state(t, modes).coeffs[j],
                t.f.y1_dc as int,
                t.f.y1_ac as int,
            ),
    ensures
        reconstruct::work_after(t.around, modes, y, k) == mode_picker::sub_state(
            t,
            modes.take(k as int),
        ).work,
    decreases k,
{
    if k > 0 {
        let now = modes.take(k as int);
        let past = modes.take(k - 1);
        lemma_same_work(t, modes, y, (k - 1) as nat);
        assert(now.drop_last() =~= past);
        mode_picker::lemma_sub_state_len(t, past);
        lemma_coeffs_kept(t, modes, k);
        reveal(mode_picker::next_pixels);
        let before = mode_picker::sub_state(t, past);
        assert(y[k - 1] == inverse_transform::dequantized(
            mode_picker::next_coeffs(t, before, modes[k - 1]),
            t.f.y1_dc as int,
            t.f.y1_ac as int,
        ));
    } else {
        assert(modes.take(0) =~= Seq::<IntraBmode>::empty());
    }
}

/// Later subblocks leave the coefficients of earlier ones.
proof fn lemma_coeffs_kept(t: Task, modes: Seq<IntraBmode>, k: nat)
    requires
        0 < k <= modes.len(),
    ensures
        mode_picker::sub_state(t, modes).coeffs[k - 1] == mode_picker::next_coeffs(
            t,
            mode_picker::sub_state(t, modes.take(k - 1)),
            modes[k - 1],
        ),
    decreases modes.len(),
{
    let past = modes.drop_last();
    mode_picker::lemma_sub_state_len(t, past);
    if k == modes.len() {
        assert(modes.take(k - 1) =~= past);
    } else {
        lemma_coeffs_kept(t, past, k);
        assert(past.take(k - 1) =~= modes.take(k - 1));
    }
}

/// Luma whose subblocks are predicted alone comes back as near the source as
/// the steps allow.
pub proof fn law_own_luma_is_near_the_source(t: Task, d: Decisions)
    requires
        t.f.valid(),
        full_size(t.pixels),
        d.modes.len() == 16,
        d.own,
    ensures
        sixteenths_off(rebuilt(t, d).y, t.pixels.y, t.f.y1_dc + 14 * t.f.y1_ac + 116),
{
    reveal(mode_picker::decided_coeffs);
    let c = quant::dequantized_mb(mode_picker::decided_coeffs(t, d), t.f);
    lemma_same_work(t, d.modes, c.y, 16);
    assert(d.modes.take(16) =~= d.modes);
    let work = mode_picker::sub_state(t, d.modes).work;
    let n = t.f.y1_dc + 14 * t.f.y1_ac + 116;
    let after = rebuilt(t, d).y;
    assert forall|i: int| 0 <= i < 256 implies -n <= 16 * (#[trigger] after[i] - t.pixels.y[i])
        <= n by {
        let (h, e) = exact_law::lemma_tile_place(4, i);
        lemma_subblocks_near(t, d.modes, exact_law::tile_of(4, i), h, e);
        assert(after[i] == work[work_place(i)]);
    }
}

/// No pixel of a plane is more than `n` off that of another.
pub open spec fn off_by(a: Seq<u8>, b: Seq<u8>, n: int) -> bool {
    &&& a.len() == b.len()
    &&& forall|i: int| 0 <= i < a.len() ==> -n <= #[trigger] a[i] - b[i] <= n
}

/// At the finest quantizer every pixel of a macroblock comes back within eleven
/// of the source, whatever the source, the pixels around it and the choice of
/// modes.
pub proof fn law_finest_is_near_the_source(t: Task, d: Decisions)
    requires
        t.f == quant::factors_of(0, quant::no_deltas()),
        full_size(t.pixels),
        d.modes.len() == 16,
        d.whole != IntraYMode::B,
    ensures
        off_by(rebuilt(t, d).y, t.pixels.y, 11),
        off_by(rebuilt(t, d).u, t.pixels.u, 11),
        off_by(rebuilt(t, d).v, t.pixels.v, 11),
{
    exact_law::lemma_finest();
    law_chroma_is_near_the_source(t, d);
    if d.own {
        law_own_luma_is_near_the_source(t, d);
    } else {
        law_whole_luma_is_near_the_source(t, d);
    }
    let r = rebuilt(t, d);
    assert forall|i: int| 0 <= i < 256 implies -11 <= #[trigger] r.y[i] - t.pixels.y[i] <= 11 by {}
    assert forall|i: int| 0 <= i < 64 implies -11 <= #[trigger] r.u[i] - t.pixels.u[i] <= 11 by {}
    assert forall|i: int| 0 <= i < 64 implies -11 <= #[trigger] r.v[i] - t.pixels.v[i] <= 11 by {}
}

} // verus!
