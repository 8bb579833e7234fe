//! From the pixels of a macroblock to its quantized coefficients, and back to
//! what a decoder makes of them.
use crate::forward_transform;
use crate::forward_transform::{forward_dct_4x4, forward_wht_4x4};
use crate::frame;
use crate::inverse_transform;
use crate::inverse_transform::{add_residue_4x4, dequant_block};
use crate::pixels;
use crate::pixels::load_4x4;
use crate::quant;
use crate::quant::MbDequantFactors;
use crate::reconstruct;
use crate::reconstruct::{add_chroma, add_luma};
use crate::transform::idct4x4;
use vstd::prelude::*;

verus! {

/// `num / den` rounded, halves away from zero.
pub open spec fn rounded(num: int, den: int) -> int {
    if num >= 0 {
        (num + den / 2) / den
    } else {
        -((-num + den / 2) / den)
    }
}

/// A block of coefficients divided by their steps.
pub open spec fn quantized(c: Seq<i16>, dc: int, ac: int) -> Seq<i16> {
    Seq::new(
        16,
        |i: int|
            rounded(
                c[i] as int,
                if i == 0 {
                    dc
                } else {
                    ac
                },
            ) as i16,
    )
}

/// A coefficient that is divided by its step and multiplied by it again is at
/// most half a step off.
pub proof fn law_quantizer_error(c: i16, step: int)
    requires
        step > 0,
    ensures
        -step <= 2 * (c - step * rounded(c as int, step)) <= step,
{
    if c >= 0 {
        crate::arith::lemma_rounding(c as int, step);
    } else {
        let m = -(c as int);
        crate::arith::lemma_rounding(m, step);
        vstd::arithmetic::mul::lemma_mul_unary_negation(step, (m + step / 2) / step);
    }
}

/// `num / den` rounded, halves away from zero.
fn enc_round_div(num: i32, den: i32) -> (r: i16)
    requires
        0 < den <= 0x7fff,
        -0x8000 <= num <= 0x7fff,
    ensures
        r == rounded(num as int, den as int) as i16,
{
    if num >= 0 {
        ((num + den / 2) / den) as i16
    } else {
        let q: i32 = (-num + den / 2) / den;
        proof {
            crate::arith::lemma_quotient_bound(-num + den as int / 2, den as int);
        }
        (-q) as i16
    }
}

/// Divides the coefficients of a block by their steps.
pub fn enc_quantize_block(block: &mut [i16; 16], dc: i16, ac: i16)
    requires
        dc > 0,
        ac > 0,
    ensures
        final(block)@ == quantized(old(block)@, dc as int, ac as int),
{
    let ghost c0 = block@;
    let mut i: usize = 0;
    while i < 16
        invariant
            i <= 16,
            dc > 0,
            ac > 0,
            c0 == old(block)@,
            forall|j: int|
                0 <= j < i ==> #[trigger] block@[j] == quantized(c0, dc as int, ac as int)[j],
            forall|j: int| i <= j < 16 ==> #[trigger] block@[j] == c0[j],
        decreases 16 - i,
    {
        let step: i16 = if i == 0 {
            dc
        } else {
            ac
        };
        let q: i16 = enc_round_div(block[i] as i32, step as i32);
        block[i] = q;
        i = i + 1;
    }
    assert(block@ =~= quantized(c0, dc as int, ac as int));
}

/// Squared difference of two pixels.
pub open spec fn square_error(a: u8, b: u8) -> int {
    (a - b) * (a - b)
}

/// Sum of the squared differences of the first `n` pixels.
pub open spec fn ssd(a: Seq<u8>, b: Seq<u8>, n: nat) -> int
    decreases n,
{
    if n == 0 {
        0
    } else {
        ssd(a, b, (n - 1) as nat) + square_error(a[n - 1], b[n - 1])
    }
}

/// Sum of the squared differences of two blocks.
pub fn block_ssd(recon: &[u8], src: &[u8]) -> (r: u64)
    requires
        recon@.len() == src@.len(),
        65025 * recon@.len() <= u64::MAX,
    ensures
        r == ssd(recon@, src@, recon@.len()),
        r <= 65025 * recon@.len(),
{
    let mut r: u64 = 0;
    let mut i: usize = 0;
    let n: usize = recon.len();
    while i < n
        invariant
            i <= n,
            65025 * n <= u64::MAX,
            n == recon@.len(),
            n == src@.len(),
            r == ssd(recon@, src@, i as nat),
            r <= 65025 * i,
        decreases n - i,
    {
        let d: i64 = recon[i] as i64 - src[i] as i64;
        assert(0 <= d * d <= 65025) by (nonlinear_arith)
            requires
                -255 <= d <= 255,
        ;
        r = r + (d * d) as u64;
        i = i + 1;
    }
    r
}

/// What is left of the pixels after the prediction.
pub open spec fn residual(src: Seq<u8>, pred: Seq<u8>) -> Seq<i16> {
    Seq::new(16, |i: int| (src[i] - pred[i]) as i16)
}

fn subtract(src: &[u8; 16], pred: &[u8; 16]) -> (r: [i16; 16])
    ensures
        r@ == residual(src@, pred@),
{
    let mut r: [i16; 16] = [0i16;16];
    let mut i: usize = 0;
    while i < 16
        invariant
            i <= 16,
            forall|j: int| 0 <= j < i ==> #[trigger] r[j] == residual(src@, pred@)[j],
        decreases 16 - i,
    {
        r[i] = src[i] as i16 - pred[i] as i16;
        i = i + 1;
    }
    assert(r@ =~= residual(src@, pred@));
    r
}

/// Coefficients of a predicted block before they are divided.
pub open spec fn spectrum(src: Seq<u8>, pred: Seq<u8>) -> Seq<i16> {
    forward_transform::fdct(residual(src, pred))
}

fn analyse(src: &[u8; 16], pred: &[u8; 16]) -> (c: [i16; 16])
    ensures
        c@ == spectrum(src@, pred@),
{
    let r: [i16; 16] = subtract(src, pred);
    let mut c: [i16; 16] = [0i16;16];
    forward_dct_4x4(&r, &mut c);
    c
}

/// Coefficients of a predicted block.
pub open spec fn coded_block(src: Seq<u8>, pred: Seq<u8>, dc: int, ac: int) -> Seq<i16> {
    quantized(spectrum(src, pred), dc, ac)
}

/// Codes one predicted block.
pub fn code_block(src: &[u8; 16], pred: &[u8; 16], dc: i16, ac: i16) -> (c: [i16; 16])
    requires
        dc > 0,
        ac > 0,
    ensures
        c@ == coded_block(src@, pred@, dc as int, ac as int),
{
    let mut c: [i16; 16] = analyse(src, pred);
    enc_quantize_block(&mut c, dc, ac);
    c
}

/// What a decoder makes of a predicted block.
pub open spec fn rebuilt_block(pred: Seq<u8>, c: Seq<i16>, dc: int, ac: int) -> Seq<u8> {
    inverse_transform::residue_sum(
        pred,
        inverse_transform::idct(inverse_transform::dequantized(c, dc, ac)),
    )
}

/// Rebuilds one predicted block as a decoder does.
pub fn reconstruct_block_4x4(pred: &[u8; 16], quant: &[i16; 16], dc: i16, ac: i16) -> (r: [u8; 16])
    ensures
        r@ == rebuilt_block(pred@, quant@, dc as int, ac as int),
{
    let mut dq: [i16; 16] = *quant;
    dequant_block(&mut dq, dc, ac);
    let residue: [i16; 16] = idct4x4(&dq);
    let mut r: [u8; 16] = [0u8;16];
    add_residue_4x4(pred, &residue, &mut r);
    r
}

/// Block `k` of a square with `per_row` blocks across.
pub open spec fn tile(plane: Seq<u8>, per_row: int, k: int) -> Seq<u8> {
    pixels::block4(plane, 16 * per_row * (k / per_row) + 4 * (k % per_row), 4 * per_row)
}

/// Spectra of the sixteen luma blocks.
pub open spec fn luma_spectra(src: Seq<u8>, pred: Seq<u8>) -> Seq<Seq<i16>> {
    Seq::new(16, |k: int| spectrum(tile(src, 4, k), tile(pred, 4, k)))
}

/// First coefficients of sixteen blocks.
pub open spec fn first_ones(blocks: Seq<Seq<i16>>) -> Seq<i16> {
    Seq::new(16, |k: int| blocks[k][0])
}

/// Second-order block of a luma prediction.
pub open spec fn whole_y2(src: Seq<u8>, pred: Seq<u8>, f: MbDequantFactors) -> Seq<i16> {
    quantized(
        forward_transform::fwht(first_ones(luma_spectra(src, pred))),
        f.y2_dc as int,
        f.y2_ac as int,
    )
}

/// Luma blocks of a prediction, without their first coefficients.
pub open spec fn whole_y(src: Seq<u8>, pred: Seq<u8>, f: MbDequantFactors) -> Seq<Seq<i16>> {
    Seq::new(
        16,
        |k: int|
            quantized(
                luma_spectra(src, pred)[k].update(0, 0),
                f.y1_dc as int,
                f.y1_ac as int,
            ),
    )
}

/// Codes the luma of a macroblock that is predicted as a whole.
pub fn transform_whole_block_luma(
    src: &[u8; 256],
    pred: &[u8; 256],
    f: &MbDequantFactors,
) -> (r: ([[i16; 16]; 16], [i16; 16]))
    requires
        f.valid(),
    ensures
        frame::block_views(r.0@) == whole_y(src@, pred@, *f),
        r.1@ == whole_y2(src@, pred@, *f),
{
    let mut y: [[i16; 16]; 16] = [[0i16;16];16];
    let mut dc: [i16; 16] = [0i16;16];
    let ghost spectra = luma_spectra(src@, pred@);
    let mut k: usize = 0;
    while k < 16
        invariant
            k <= 16,
            f.valid(),
            spectra == luma_spectra(src@, pred@),
            forall|j: int| 0 <= j < k ==> #[trigger] dc[j] == spectra[j][0],
            forall|j: int| 0 <= j < k ==> (#[trigger] y[j])@ == whole_y(src@, pred@, *f)[j],
        decreases 16 - k,
    {
        let at: usize = 64 * (k / 4) + 4 * (k % 4);
        let s: [u8; 16] = load_4x4(src, at, 16);
        let p: [u8; 16] = load_4x4(pred, at, 16);
        let mut c: [i16; 16] = analyse(&s, &p);
        assert(c@ == spectra[k as int]);
        dc[k] = c[0];
        c[0] = 0;
        assert(c@ =~= spectra[k as int].update(0, 0));
        enc_quantize_block(&mut c, f.y1_dc, f.y1_ac);
        y[k] = c;
        k = k + 1;
    }
    assert(dc@ =~= first_ones(spectra));
    let mut y2: [i16; 16] = [0i16;16];
    forward_wht_4x4(&dc, &mut y2);
    enc_quantize_block(&mut y2, f.y2_dc, f.y2_ac);
    assert(frame::block_views(y@) =~= whole_y(src@, pred@, *f));
    (y, y2)
}

/// Each block times its steps.
pub open spec fn scaled_blocks(c: Seq<Seq<i16>>, dc: int, ac: int) -> Seq<Seq<i16>> {
    Seq::new(c.len(), |k: int| inverse_transform::dequantized(c[k], dc, ac))
}

/// What a decoder makes of the luma of a macroblock that is predicted as a
/// whole.
pub open spec fn rebuilt_whole(
    pred: Seq<u8>,
    y: Seq<Seq<i16>>,
    y2: Seq<i16>,
    f: MbDequantFactors,
) -> Seq<u8> {
    reconstruct::with_residues(
        pred,
        4,
        reconstruct::luma_residues(
            true,
            inverse_transform::dequantized(y2, f.y2_dc as int, f.y2_ac as int),
            scaled_blocks(y, f.y1_dc as int, f.y1_ac as int),
        ),
        16,
    )
}

/// Rebuilds the luma of a macroblock that is predicted as a whole.
pub fn reconstruct_whole_block_luma(
    pred: &[u8; 256],
    y_quant: &[[i16; 16]; 16],
    y2_quant: &[i16; 16],
    f: &MbDequantFactors,
) -> (r: [u8; 256])
    ensures
        r@ == rebuilt_whole(pred@, frame::block_views(y_quant@), y2_quant@, *f),
{
    let mut y2: [i16; 16] = *y2_quant;
    dequant_block(&mut y2, f.y2_dc, f.y2_ac);
    let mut y: [[i16; 16]; 16] = [[0i16;16];16];
    let ghost want = scaled_blocks(
        frame::block_views(y_quant@),
        f.y1_dc as int,
        f.y1_ac as int,
    );
    let mut k: usize = 0;
    while k < 16
        invariant
            k <= 16,
            want == scaled_blocks(
                frame::block_views(y_quant@),
                f.y1_dc as int,
                f.y1_ac as int,
            ),
            forall|j: int| 0 <= j < k ==> (#[trigger] y[j])@ == want[j],
        decreases 16 - k,
    {
        let mut c: [i16; 16] = y_quant[k];
        dequant_block(&mut c, f.y1_dc, f.y1_ac);
        y[k] = c;
        k = k + 1;
    }
    assert(frame::block_views(y@) =~= want);
    let mut r: [u8; 256] = *pred;
    add_luma(&mut r, true, &y2, &y);
    r
}

/// Blocks of a chroma prediction.
pub open spec fn chroma_blocks(src: Seq<u8>, pred: Seq<u8>, f: MbDequantFactors) -> Seq<Seq<i16>> {
    Seq::new(
        4,
        |k: int|
            coded_block(tile(src, 2, k), tile(pred, 2, k), f.uv_dc as int, f.uv_ac as int),
    )
}

/// Codes a chroma plane of a macroblock.
pub fn transform_chroma_plane(
    src: &[u8; 64],
    pred: &[u8; 64],
    f: &MbDequantFactors,
) -> (r: [[i16; 16]; 4])
    requires
        f.valid(),
    ensures
        frame::block_views(r@) == chroma_blocks(src@, pred@, *f),
{
    let mut r: [[i16; 16]; 4] = [[0i16;16];4];
    let mut k: usize = 0;
    while k < 4
        invariant
            k <= 4,
            f.valid(),
            forall|j: int| 0 <= j < k ==> (#[trigger] r[j])@ == chroma_blocks(src@, pred@, *f)[j],
        decreases 4 - k,
    {
        let at: usize = 32 * (k / 2) + 4 * (k % 2);
        let s: [u8; 16] = load_4x4(src, at, 8);
        let p: [u8; 16] = load_4x4(pred, at, 8);
        let c: [i16; 16] = code_block(&s, &p, f.uv_dc, f.uv_ac);
        assert(c@ == chroma_blocks(src@, pred@, *f)[k as int]);
        r[k] = c;
        k = k + 1;
    }
    assert(frame::block_views(r@) =~= chroma_blocks(src@, pred@, *f));
    r
}

/// What a decoder makes of a chroma plane.
pub open spec fn rebuilt_chroma(
    pred: Seq<u8>,
    c: Seq<Seq<i16>>,
    f: MbDequantFactors,
) -> Seq<u8> {
    reconstruct::with_residues(
        pred,
        2,
        reconstruct::chroma_residues(scaled_blocks(c, f.uv_dc as int, f.uv_ac as int)),
        4,
    )
}

/// Rebuilds a chroma plane as a decoder does.
pub fn reconstruct_chroma_plane(
    pred: &[u8; 64],
    quant: &[[i16; 16]; 4],
    f: &MbDequantFactors,
) -> (r: [u8; 64])
    ensures
        r@ == rebuilt_chroma(pred@, frame::block_views(quant@), *f),
{
    let mut c: [[i16; 16]; 4] = [[0i16;16];4];
    let ghost want = scaled_blocks(frame::block_views(quant@), f.uv_dc as int, f.uv_ac as int);
    let mut k: usize = 0;
    while k < 4
        invariant
            k <= 4,
            want == scaled_blocks(
                frame::block_views(quant@),
                f.uv_dc as int,
                f.uv_ac as int,
            ),
            forall|j: int| 0 <= j < k ==> (#[trigger] c[j])@ == want[j],
        decreases 4 - k,
    {
        let mut b: [i16; 16] = quant[k];
        dequant_block(&mut b, f.uv_dc, f.uv_ac);
        c[k] = b;
        k = k + 1;
    }
    assert(frame::block_views(c@) =~= want);
    let mut r: [u8; 64] = *pred;
    add_chroma(&mut r, &c);
    r
}

} // verus!
