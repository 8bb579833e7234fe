//! Reconstruction of macroblocks: prediction plus residue.
use crate::frame;
use crate::frame::{CoeffModel, MbCoeffs, PlanesModel};
use crate::intra;
use crate::intra::{
    predict_b4x4, predict_uv8x8, predict_y16x16, DEFAULT_ABOVE_PIXEL, DEFAULT_LEFT_PIXEL,
};
use crate::inverse_transform;
use crate::inverse_transform::add_residue_4x4;
use crate::macroblock::{IntraBmode, IntraUvMode, IntraYMode};
use crate::pixels;
use crate::pixels::{add_to_4x4, store_block};
use crate::transform::{idct4x4, iwht4x4};
use vstd::prelude::*;

verus! {

/// Pixels of one macroblock.
#[derive(Debug, Clone, Copy, PartialEq, Eq)]
pub struct ReconstructedMb {
    pub y: [u8; 256],
    pub u: [u8; 64],
    pub v: [u8; 64],
}

impl View for ReconstructedMb {
    type V = PlanesModel;

    open spec fn view(&self) -> PlanesModel {
        PlanesModel { y: self.y@, u: self.u@, v: self.v@ }
    }
}

impl Default for ReconstructedMb {
    fn default() -> (m: Self)
        ensures
            m.y@ == Seq::new(256, |i: int| 0u8),
            m.u@ == Seq::new(64, |i: int| 0u8),
            m.v@ == Seq::new(64, |i: int| 0u8),
    {
        let m: ReconstructedMb = ReconstructedMb { y: [0u8; 256], u: [0u8; 64], v: [0u8; 64] };
        assert(m.y@ =~= Seq::new(256, |i: int| 0u8));
        assert(m.u@ =~= Seq::new(64, |i: int| 0u8));
        assert(m.v@ =~= Seq::new(64, |i: int| 0u8));
        m
    }
}

/// `plane`, made of `per_row` 4x4 blocks across, with the residues of its
/// first `n` blocks added.
pub open spec fn with_residues(
    plane: Seq<u8>,
    per_row: int,
    blocks: Seq<Seq<i16>>,
    n: nat,
) -> Seq<u8>
    decreases n,
{
    if n == 0 {
        plane
    } else {
        let k = n - 1;
        pixels::with_residue(
            with_residues(plane, per_row, blocks, (n - 1) as nat),
            16 * per_row * (k / per_row) + 4 * (k % per_row),
            4 * per_row,
            blocks[k],
        )
    }
}

/// Luma coefficients whose first ones come from the second-order block.
pub open spec fn seeded(y: Seq<i16>, y2: Seq<i16>, k: int) -> Seq<i16> {
    y.update(0, inverse_transform::iwht(y2)[k])
}

/// Residues of the luma blocks, with or without a second-order block.
pub open spec fn luma_residues(has_y2: bool, y2: Seq<i16>, y: Seq<Seq<i16>>) -> Seq<Seq<i16>> {
    Seq::new(
        16,
        |k: int|
            inverse_transform::idct(
                if has_y2 {
                    seeded(y[k], y2, k)
                } else {
                    y[k]
                },
            ),
    )
}

/// Residues of the chroma blocks.
pub open spec fn chroma_residues(c: Seq<Seq<i16>>) -> Seq<Seq<i16>> {
    Seq::new(4, |k: int| inverse_transform::idct(c[k]))
}

/// Adds the residues of the luma blocks to a prediction.
pub fn add_luma(plane: &mut [u8; 256], has_y2: bool, y2: &[i16; 16], y: &[[i16; 16]; 16])
    ensures
        final(plane)@ == with_residues(
            old(plane)@,
            4,
            luma_residues(has_y2, y2@, frame::block_views(y@)),
            16,
        ),
{
    let ghost p0 = plane@;
    let ghost blocks = luma_residues(has_y2, y2@, frame::block_views(y@));
    let dc: [i16; 16] = iwht4x4(y2);
    let mut k: usize = 0;
    while k < 16
        invariant
            k <= 16,
            p0 == old(plane)@,
            dc@ == inverse_transform::iwht(y2@),
            blocks == luma_residues(has_y2, y2@, frame::block_views(y@)),
            plane@ == with_residues(p0, 4, blocks, k as nat),
        decreases 16 - k,
    {
        let mut coeffs: [i16; 16] = y[k];
        if has_y2 {
            coeffs[0] = dc[k];
            assert(coeffs@ =~= seeded(y@[k as int]@, y2@, k as int));
        }
        let residue: [i16; 16] = idct4x4(&coeffs);
        assert(blocks[k as int] == residue@);
        add_to_4x4(plane, 64 * (k / 4) + 4 * (k % 4), 16, &residue);
        k = k + 1;
    }
}

/// Adds the residues of the chroma blocks to a prediction.
pub fn add_chroma(plane: &mut [u8; 64], coeffs: &[[i16; 16]; 4])
    ensures
        final(plane)@ == with_residues(
            old(plane)@,
            2,
            chroma_residues(frame::block_views(coeffs@)),
            4,
        ),
{
    let ghost p0 = plane@;
    let ghost blocks = chroma_residues(frame::block_views(coeffs@));
    let mut k: usize = 0;
    while k < 4
        invariant
            k <= 4,
            p0 == old(plane)@,
            blocks == chroma_residues(frame::block_views(coeffs@)),
            plane@ == with_residues(p0, 2, blocks, k as nat),
        decreases 4 - k,
    {
        let residue: [i16; 16] = idct4x4(&coeffs[k]);
        assert(blocks[k as int] == residue@);
        add_to_4x4(plane, 32 * (k / 2) + 4 * (k % 2), 8, &residue);
        k = k + 1;
    }
}

/// The pixels round a macroblock that a prediction may read; what lies outside
/// the frame is missing.
#[derive(Debug, Clone, Copy, PartialEq, Eq)]
pub struct MbNeighbors {
    pub y_above: Option<[u8; 16]>,
    pub y_left: Option<[u8; 16]>,
    pub y_topleft: Option<u8>,
    pub y_above_right: Option<[u8; 4]>,
    pub u_above: Option<[u8; 8]>,
    pub u_left: Option<[u8; 8]>,
    pub u_topleft: Option<u8>,
    pub v_above: Option<[u8; 8]>,
    pub v_left: Option<[u8; 8]>,
    pub v_topleft: Option<u8>,
}

impl Default for MbNeighbors {
    fn default() -> (n: Self)
        ensures
            n@ == nothing_around(),
    {
        MbNeighbors {
            y_above: None,
            y_left: None,
            y_topleft: None,
            y_above_right: None,
            u_above: None,
            u_left: None,
            u_topleft: None,
            v_above: None,
            v_left: None,
            v_topleft: None,
        }
    }
}

/// The pixels round a square.
pub struct Edges {
    pub above: Option<Seq<u8>>,
    pub left: Option<Seq<u8>>,
    pub corner: Option<u8>,
}

/// Model of [`MbNeighbors`].
pub struct NeighborModel {
    pub y: Edges,
    pub y_above_right: Option<Seq<u8>>,
    pub u: Edges,
    pub v: Edges,
}

pub open spec fn no_edges() -> Edges {
    Edges { above: None, left: None, corner: None }
}

/// A macroblock on its own.
pub open spec fn nothing_around() -> NeighborModel {
    NeighborModel { y: no_edges(), y_above_right: None, u: no_edges(), v: no_edges() }
}

pub open spec fn view16(e: Option<[u8; 16]>) -> Option<Seq<u8>> {
    match e {
        Some(p) => Some(p@),
        None => None,
    }
}

pub open spec fn view8(e: Option<[u8; 8]>) -> Option<Seq<u8>> {
    match e {
        Some(p) => Some(p@),
        None => None,
    }
}

pub open spec fn view4(e: Option<[u8; 4]>) -> Option<Seq<u8>> {
    match e {
        Some(p) => Some(p@),
        None => None,
    }
}

impl View for MbNeighbors {
    type V = NeighborModel;

    open spec fn view(&self) -> NeighborModel {
        NeighborModel {
            y: Edges {
                above: view16(self.y_above),
                left: view16(self.y_left),
                corner: self.y_topleft,
            },
            y_above_right: view4(self.y_above_right),
            u: Edges {
                above: view8(self.u_above),
                left: view8(self.u_left),
                corner: self.u_topleft,
            },
            v: Edges {
                above: view8(self.v_above),
                left: view8(self.v_left),
                corner: self.v_topleft,
            },
        }
    }
}

/// The corner pixel, or what stands for it.
pub open spec fn corner_of(c: Option<u8>) -> u8 {
    match c {
        Some(p) => p,
        None => DEFAULT_ABOVE_PIXEL,
    }
}

/// The edge, or pixels that stand for it.
pub open spec fn edge_or(e: Option<Seq<u8>>, n: nat, missing: u8) -> Seq<u8> {
    match e {
        Some(s) => s,
        None => Seq::new(n, |i: int| missing),
    }
}

/// A square predicted from the pixels round it.
pub open spec fn square_from(mode: IntraUvMode, n: nat, e: Edges) -> Seq<u8> {
    intra::predicted_square(mode, n, e.above, e.left, corner_of(e.corner))
}

pub fn corner_or_default(c: Option<u8>) -> (p: u8)
    ensures
        p == corner_of(c),
{
    match c {
        Some(p) => p,
        None => DEFAULT_ABOVE_PIXEL,
    }
}

/// Predicts the luma of a macroblock as a whole.
pub fn predict_luma(mode: IntraYMode, n: &MbNeighbors) -> (p: [u8; 256])
    ensures
        p@ == square_from(intra::square_mode(mode), 16, n@.y),
{
    predict_y16x16(mode, n.y_above.as_ref(), n.y_left.as_ref(), corner_or_default(n.y_topleft))
}

/// Predicts the first chroma plane of a macroblock.
pub fn predict_u(mode: IntraUvMode, n: &MbNeighbors) -> (p: [u8; 64])
    ensures
        p@ == square_from(mode, 8, n@.u),
{
    predict_uv8x8(mode, n.u_above.as_ref(), n.u_left.as_ref(), corner_or_default(n.u_topleft))
}

/// Predicts the second chroma plane of a macroblock.
pub fn predict_v(mode: IntraUvMode, n: &MbNeighbors) -> (p: [u8; 64])
    ensures
        p@ == square_from(mode, 8, n@.v),
{
    predict_uv8x8(mode, n.v_above.as_ref(), n.v_left.as_ref(), corner_or_default(n.v_topleft))
}

/// Pixels in a row of the work area in which the subblocks of a macroblock are
/// predicted one from another: the left edge, sixteen columns, and the four
/// pixels above to the right.
pub const WORK_STRIDE: usize = 21;

/// The work area before the first subblock. The pixels above to the right
/// stand beside the last row of each row of subblocks, too.
pub open spec fn work_area(n: NeighborModel) -> Seq<u8> {
    let above = edge_or(n.y.above, 16, DEFAULT_ABOVE_PIXEL);
    let left = edge_or(n.y.left, 16, DEFAULT_LEFT_PIXEL);
    let right = edge_or(n.y_above_right, 4, DEFAULT_ABOVE_PIXEL);
    Seq::new(
        357,
        |i: int|
            {
                let r = i / 21;
                let c = i % 21;
                if r == 0 && c == 0 {
                    corner_of(n.y.corner)
                } else if r == 0 && c <= 16 {
                    above[c - 1]
                } else if c >= 17 && r <= 12 && r % 4 == 0 {
                    right[c - 17]
                } else if c == 0 {
                    left[r - 1]
                } else {
                    0
                }
            },
    )
}

/// Place of subblock `k` in the work area.
pub open spec fn subblock_at(k: int) -> int {
    22 + 84 * (k / 4) + 4 * (k % 4)
}

/// The eight pixels above subblock `k` and to the right of them.
pub open spec fn above_subblock(work: Seq<u8>, k: int) -> Seq<u8> {
    Seq::new(8, |i: int| work[subblock_at(k) - 21 + i])
}

pub open spec fn left_of_subblock(work: Seq<u8>, k: int) -> Seq<u8> {
    Seq::new(4, |i: int| work[subblock_at(k) + 21 * i - 1])
}

/// Prediction of subblock `k` from the work area.
pub open spec fn subblock_prediction(work: Seq<u8>, k: int, mode: IntraBmode) -> Seq<u8> {
    intra::predicted_subblock(
        mode,
        above_subblock(work, k),
        left_of_subblock(work, k),
        work[subblock_at(k) - 22],
    )
}

/// The work area with subblock `k` replaced.
pub open spec fn with_subblock(work: Seq<u8>, k: int, pixels: Seq<u8>) -> Seq<u8> {
    pixels::stored(work, subblock_at(k), 21, 4, pixels, 4)
}

/// The work area after the first `k` subblocks.
pub open spec fn work_after(
    n: NeighborModel,
    modes: Seq<IntraBmode>,
    y: Seq<Seq<i16>>,
    k: nat,
) -> Seq<u8>
    decreases k,
{
    if k == 0 {
        work_area(n)
    } else {
        let work = work_after(n, modes, y, (k - 1) as nat);
        with_subblock(
            work,
            k - 1,
            inverse_transform::residue_sum(
                subblock_prediction(work, k - 1, modes[k - 1]),
                inverse_transform::idct(y[k - 1]),
            ),
        )
    }
}

/// The macroblock in the work area.
pub open spec fn work_pixels(work: Seq<u8>) -> Seq<u8> {
    Seq::new(256, |i: int| work[22 + 21 * (i / 16) + i % 16])
}

/// Luma of a macroblock whose subblocks are predicted alone.
pub open spec fn subblock_luma(
    n: NeighborModel,
    modes: Seq<IntraBmode>,
    y: Seq<Seq<i16>>,
) -> Seq<u8> {
    work_pixels(work_after(n, modes, y, 16))
}

/// Builds the work area.
pub fn build_work_area(n: &MbNeighbors) -> (work: [u8; 357])
    ensures
        work@ == work_area(n@),
{
    let above: [u8; 16] = match n.y_above {
        Some(e) => e,
        None => [DEFAULT_ABOVE_PIXEL;16],
    };
    let left: [u8; 16] = match n.y_left {
        Some(e) => e,
        None => [DEFAULT_LEFT_PIXEL;16],
    };
    let right: [u8; 4] = match n.y_above_right {
        Some(e) => e,
        None => [DEFAULT_ABOVE_PIXEL;4],
    };
    let corner: u8 = corner_or_default(n.y_topleft);
    assert(above@ =~= edge_or(n@.y.above, 16, DEFAULT_ABOVE_PIXEL));
    assert(left@ =~= edge_or(n@.y.left, 16, DEFAULT_LEFT_PIXEL));
    assert(right@ =~= edge_or(n@.y_above_right, 4, DEFAULT_ABOVE_PIXEL));
    let mut work: [u8; 357] = [0u8;357];
    let mut i: usize = 0;
    while i < 357
        invariant
            i <= 357,
            above@ == edge_or(n@.y.above, 16, DEFAULT_ABOVE_PIXEL),
            left@ == edge_or(n@.y.left, 16, DEFAULT_LEFT_PIXEL),
            right@ == edge_or(n@.y_above_right, 4, DEFAULT_ABOVE_PIXEL),
            corner == corner_of(n@.y.corner),
            forall|j: int| 0 <= j < i ==> #[trigger] work[j] == work_area(n@)[j],
        decreases 357 - i,
    {
        let r: usize = i / 21;
        let c: usize = i % 21;
        let p: u8 = if r == 0 && c == 0 {
            corner
        } else if r == 0 && c <= 16 {
            above[c - 1]
        } else if c >= 17 && r <= 12 && r % 4 == 0 {
            right[c - 17]
        } else if c == 0 {
            left[r - 1]
        } else {
            0
        };
        work[i] = p;
        i = i + 1;
    }
    assert(work@ =~= work_area(n@));
    work
}

/// Predicts subblock `k` from the work area.
pub fn predict_subblock(work: &[u8; 357], k: usize, mode: IntraBmode) -> (p: [u8; 16])
    requires
        k < 16,
    ensures
        p@ == subblock_prediction(work@, k as int, mode),
{
    let at: usize = 22 + 84 * (k / 4) + 4 * (k % 4);
    let above: [u8; 8] = [
        work[at - 21],
        work[at - 20],
        work[at - 19],
        work[at - 18],
        work[at - 17],
        work[at - 16],
        work[at - 15],
        work[at - 14],
    ];
    let left: [u8; 4] = [work[at - 1], work[at + 20], work[at + 41], work[at + 62]];
    assert(above@ =~= above_subblock(work@, k as int));
    assert(left@ =~= left_of_subblock(work@, k as int));
    predict_b4x4(mode, &above, &left, work[at - 22])
}

/// Puts the pixels of subblock `k` into the work area.
pub fn place_subblock(work: &mut [u8; 357], k: usize, pixels: &[u8; 16])
    requires
        k < 16,
    ensures
        final(work)@ == with_subblock(old(work)@, k as int, pixels@),
{
    store_block(work, 22 + 84 * (k / 4) + 4 * (k % 4), WORK_STRIDE, 4, 4, pixels);
}

/// Takes the macroblock out of the work area.
pub fn take_pixels(work: &[u8; 357]) -> (y: [u8; 256])
    ensures
        y@ == work_pixels(work@),
{
    let mut y: [u8; 256] = [0u8;256];
    let mut i: usize = 0;
    while i < 256
        invariant
            i <= 256,
            forall|j: int| 0 <= j < i ==> #[trigger] y[j] == work_pixels(work@)[j],
        decreases 256 - i,
    {
        y[i] = work[22 + 21 * (i / 16) + i % 16];
        i = i + 1;
    }
    assert(y@ =~= work_pixels(work@));
    y
}

/// Reconstructs the luma of a macroblock whose subblocks are predicted alone.
pub fn reconstruct_subblocks(
    n: &MbNeighbors,
    modes: &[IntraBmode; 16],
    y: &[[i16; 16]; 16],
) -> (luma: [u8; 256])
    ensures
        luma@ == subblock_luma(n@, modes@, frame::block_views(y@)),
{
    let mut work: [u8; 357] = build_work_area(n);
    let ghost coeffs = frame::block_views(y@);
    let mut k: usize = 0;
    while k < 16
        invariant
            k <= 16,
            coeffs == frame::block_views(y@),
            work@ == work_after(n@, modes@, coeffs, k as nat),
        decreases 16 - k,
    {
        let pred: [u8; 16] = predict_subblock(&work, k, modes[k]);
        let residue: [i16; 16] = idct4x4(&y[k]);
        let mut sum: [u8; 16] = [0u8;16];
        add_residue_4x4(&pred, &residue, &mut sum);
        assert(coeffs[k as int] == y[k as int]@);
        place_subblock(&mut work, k, &sum);
        k = k + 1;
    }
    take_pixels(&work)
}

/// Chroma planes of an intra macroblock.
pub open spec fn intra_u(n: NeighborModel, mode: IntraUvMode, c: CoeffModel) -> Seq<u8> {
    with_residues(square_from(mode, 8, n.u), 2, chroma_residues(c.u), 4)
}

pub open spec fn intra_v(n: NeighborModel, mode: IntraUvMode, c: CoeffModel) -> Seq<u8> {
    with_residues(square_from(mode, 8, n.v), 2, chroma_residues(c.v), 4)
}

/// An intra macroblock with dequantized coefficients `c`.
pub open spec fn intra_macroblock(
    n: NeighborModel,
    y_mode: IntraYMode,
    b_modes: Seq<IntraBmode>,
    uv_mode: IntraUvMode,
    c: CoeffModel,
) -> PlanesModel {
    PlanesModel {
        y: if y_mode == IntraYMode::B {
            subblock_luma(n, b_modes, c.y)
        } else {
            with_residues(
                square_from(intra::square_mode(y_mode), 16, n.y),
                4,
                luma_residues(true, c.y2, c.y),
                16,
            )
        },
        u: intra_u(n, uv_mode, c),
        v: intra_v(n, uv_mode, c),
    }
}

/// Reconstructs an intra macroblock from dequantized coefficients.
pub fn reconstruct_intra_mb(
    n: &MbNeighbors,
    y_mode: IntraYMode,
    b_modes: &[IntraBmode; 16],
    uv_mode: IntraUvMode,
    c: &MbCoeffs,
) -> (m: ReconstructedMb)
    ensures
        m@ == intra_macroblock(n@, y_mode, b_modes@, uv_mode, c@),
{
    let mut y: [u8; 256];
    if y_mode == IntraYMode::B {
        y = reconstruct_subblocks(n, b_modes, &c.y);
    } else {
        y = predict_luma(y_mode, n);
        add_luma(&mut y, true, &c.y2, &c.y);
    }
    let mut u: [u8; 64] = predict_u(uv_mode, n);
    add_chroma(&mut u, &c.u);
    let mut v: [u8; 64] = predict_v(uv_mode, n);
    add_chroma(&mut v, &c.v);
    ReconstructedMb { y, u, v }
}

/// The coefficients, or none where the macroblock has no residue.
pub open spec fn unless_skipped(skipped: bool, c: CoeffModel) -> CoeffModel {
    if skipped {
        frame::no_coeffs()
    } else {
        c
    }
}

/// Reconstructs a key-frame macroblock whose subblocks are predicted alone.
pub fn decode_keyframe_mb_bpred(
    subblock_modes: &[IntraBmode; 16],
    uv_mode: IntraUvMode,
    mb_skip_coeff: bool,
    neighbors: &MbNeighbors,
    c: &MbCoeffs,
) -> (m: ReconstructedMb)
    ensures
        m@ == intra_macroblock(
            neighbors@,
            IntraYMode::B,
            subblock_modes@,
            uv_mode,
            unless_skipped(mb_skip_coeff, c@),
        ),
{
    if mb_skip_coeff {
        let none: MbCoeffs = MbCoeffs::default();
        reconstruct_intra_mb(neighbors, IntraYMode::B, subblock_modes, uv_mode, &none)
    } else {
        reconstruct_intra_mb(neighbors, IntraYMode::B, subblock_modes, uv_mode, c)
    }
}

/// Reconstructs a key-frame macroblock that is predicted as a whole.
pub fn decode_keyframe_mb_non_bpred(
    y_mode: IntraYMode,
    uv_mode: IntraUvMode,
    mb_skip_coeff: bool,
    neighbors: &MbNeighbors,
    c: &MbCoeffs,
) -> (m: ReconstructedMb)
    requires
        y_mode != IntraYMode::B,
    ensures
        forall|b_modes: Seq<IntraBmode>|
            m@ == #[trigger] intra_macroblock(
                neighbors@,
                y_mode,
                b_modes,
                uv_mode,
                unless_skipped(mb_skip_coeff, c@),
            ),
{
    let any: [IntraBmode; 16] = [IntraBmode::Dc;16];
    let m: ReconstructedMb;
    if mb_skip_coeff {
        let none: MbCoeffs = MbCoeffs::default();
        m = reconstruct_intra_mb(neighbors, y_mode, &any, uv_mode, &none);
    } else {
        m = reconstruct_intra_mb(neighbors, y_mode, &any, uv_mode, c);
    }
    m
}

} // verus!
