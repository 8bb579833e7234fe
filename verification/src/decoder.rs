//! Frame decoder: key frames and inter frames.
use crate::arith;
use crate::arith::clamp_i32;
use crate::bool_decoder;
use crate::bool_decoder::BoolDecoder;
use crate::coded_header::{CodedHeaderModel, Vp8CodedHeader};
use crate::error::Vp8Error;
use crate::frame;
use crate::frame::{CoeffModel, KeyframePlanes, MbCoeffs, PlanesModel, Vp8Frame};
use crate::frame_header;
use crate::frame_header::{
    parse_frame_header, FrameHeader, HeaderModel, PersistentProbs, ProbsModel,
};
use crate::frame_tag;
use crate::frame_tag::{parse_header, ParsedHeader};
use crate::inter;
use crate::inter::{sixtap_predict, RefModel, RefPlane};
use crate::loop_filter;
use crate::loop_filter::{filter_planes, FilterPlan};
use crate::macroblock::IntraYMode;
use crate::mb_tokens;
use crate::mb_tokens::{clear_skip_ctx, decode_mb_coeffs, MbEntropyCtx};
use crate::modes;
use crate::modes::{
    decode_mb_mode_info_inter, decode_mb_mode_info_keyframe, InfoModel, InterMode, MbInfo, Place,
};
use crate::motion_comp::RefFrame;
use crate::mv::Mv;
use crate::neighbors;
use crate::neighbors::{gather_neighbors, write_mb};
use crate::pixels;
use crate::pixels::store_block;
use crate::quant;
use crate::quant::{MbDequantFactors, QuantDeltas};
use crate::range_coder;
use crate::range_coder::DecState;
use crate::reconstruct;
use crate::reconstruct::{add_chroma, add_luma, reconstruct_intra_mb, ReconstructedMb};
use vstd::prelude::*;

verus! {

/// A decoded frame, kept to predict from.
#[derive(Clone)]
pub struct Picture {
    pub planes: KeyframePlanes,
    pub width: usize,
    pub height: usize,
}

/// Model of [`Picture`].
pub struct PictureModel {
    pub planes: PlanesModel,
    pub width: int,
    pub height: int,
}

impl View for Picture {
    type V = PictureModel;

    open spec fn view(&self) -> PictureModel {
        PictureModel {
            planes: self.planes@,
            width: self.width as int,
            height: self.height as int,
        }
    }
}

/// Macroblocks that cover `n` pixels.
pub open spec fn blocks_for(n: int) -> int {
    (n + 15) / 16
}

impl Picture {
    /// The planes are as large as the size asks.
    pub open spec fn wf(&self) -> bool {
        &&& self.planes.wf()
        &&& self.width <= 0x3FFF
        &&& self.height <= 0x3FFF
        &&& self.planes.mb_cols == blocks_for(self.width as int)
        &&& self.planes.mb_rows == blocks_for(self.height as int)
    }
}

/// The value, or zero where there is none.
pub open spec fn or_zero(x: Option<i16>) -> int {
    match x {
        Some(v) => v as int,
        None => 0,
    }
}

/// The value, or zero where there is none.
pub open spec fn small_or_zero(x: Option<i8>) -> int {
    match x {
        Some(v) => v as int,
        None => 0,
    }
}

/// Quantizer index of a macroblock.
pub open spec fn base_index(h: CodedHeaderModel, segment_id: int) -> int {
    let frame_qi = h.quant.y_ac_qi as int;
    arith::clamp_int(
        match h.segmentation {
            None => frame_qi,
            Some(s) => if s.absolute {
                or_zero(s.quantizer[segment_id])
            } else {
                frame_qi + or_zero(s.quantizer[segment_id])
            },
        },
        0,
        127,
    )
}

/// Steps of a macroblock.
pub open spec fn mb_factors(h: CodedHeaderModel, segment_id: int) -> MbDequantFactors {
    quant::factors_of(
        base_index(h, segment_id),
        QuantDeltas {
            y_dc: small_or_zero(h.quant.y_dc_delta),
            y2_dc: small_or_zero(h.quant.y2_dc_delta),
            y2_ac: small_or_zero(h.quant.y2_ac_delta),
            uv_dc: small_or_zero(h.quant.uv_dc_delta),
            uv_ac: small_or_zero(h.quant.uv_ac_delta),
        },
    )
}

fn value_or_zero(x: Option<i16>) -> (r: i32)
    ensures
        r == or_zero(x),
{
    match x {
        Some(v) => v as i32,
        None => 0,
    }
}

fn small_value_or_zero(x: Option<i8>) -> (r: i32)
    ensures
        r == small_or_zero(x),
{
    match x {
        Some(v) => v as i32,
        None => 0,
    }
}

/// Quantizer index of a macroblock.
pub fn mb_base_qi(h: &Vp8CodedHeader, segment_id: u8) -> (q: i32)
    requires
        segment_id <= 3,
    ensures
        q == base_index(h@, segment_id as int),
        0 <= q <= 127,
{
    let frame_qi: i32 = h.quant_indices.y_ac_qi as i32;
    let q: i32 = match h.update_segmentation {
        None => frame_qi,
        Some(s) => {
            let v: i32 = value_or_zero(s.quantizer_update[segment_id as usize]);
            if s.segment_feature_mode_absolute {
                v
            } else {
                frame_qi + v
            }
        },
    };
    clamp_i32(q, 0, 127)
}

/// Steps of a macroblock.
fn factors_for(h: &Vp8CodedHeader, segment_id: u8) -> (f: MbDequantFactors)
    requires
        segment_id <= 3,
    ensures
        f == mb_factors(h@, segment_id as int),
        f.valid(),
{
    MbDequantFactors::from_base_and_deltas(
        mb_base_qi(h, segment_id),
        small_value_or_zero(h.quant_indices.y_dc_delta),
        small_value_or_zero(h.quant_indices.y2_dc_delta),
        small_value_or_zero(h.quant_indices.y2_ac_delta),
        small_value_or_zero(h.quant_indices.uv_dc_delta),
        small_value_or_zero(h.quant_indices.uv_ac_delta),
    )
}

/// Place in the filter deltas of what a macroblock is predicted from.
pub open spec fn reference_index(f: Option<RefFrame>) -> int {
    match f {
        None => 0,
        Some(RefFrame::Last) => 1,
        Some(RefFrame::Golden) => 2,
        Some(RefFrame::AltRef) => 3,
    }
}

/// What the mode of a macroblock adds to its filter level.
pub open spec fn mode_delta(deltas: Seq<i16>, info: InfoModel) -> int {
    if info.reference is None {
        if info.y_mode == IntraYMode::B {
            deltas[0] as int
        } else {
            0
        }
    } else {
        match info.inter_mode {
            InterMode::Zero => deltas[1] as int,
            InterMode::Split => deltas[3] as int,
            _ => deltas[2] as int,
        }
    }
}

/// Filter level of a macroblock.
pub open spec fn filter_level(h: HeaderModel, info: InfoModel) -> int {
    let base = match h.coded.segmentation {
        None => h.coded.level,
        Some(s) => if s.absolute {
            or_zero(s.loop_filter[info.segment_id])
        } else {
            arith::clamp_int(h.coded.level + or_zero(s.loop_filter[info.segment_id]), 0, 63)
        },
    };
    arith::clamp_int(
        if h.coded.lf_adjust.enable {
            base + h.probs.ref_deltas[reference_index(info.reference)] + mode_delta(
                h.probs.mode_deltas,
                info,
            )
        } else {
            base
        },
        0,
        63,
    )
}

/// Filter level of a macroblock.
pub fn per_mb_filter_level(h: &FrameHeader, info: &MbInfo) -> (level: u8)
    requires
        info.segment_id <= 3,
    ensures
        level == filter_level(h@, info@),
        level <= 63,
{
    let mut level: i32 = h.coded.loop_filter_level as i32;
    if let Some(s) = h.coded.update_segmentation {
        let v: i32 = value_or_zero(s.loop_filter_update[info.segment_id as usize]);
        if s.segment_feature_mode_absolute {
            level = v;
        } else {
            level = clamp_i32(level + v, 0, 63);
        }
    }
    if h.coded.mb_lf_adjustments.loop_filter_adj_enable {
        match info.reference {
            None => {
                level = level + h.probs.ref_deltas[0] as i32;
                if info.y_mode == IntraYMode::B {
                    level = level + h.probs.mode_deltas[0] as i32;
                }
            },
            Some(f) => {
                let i: usize = match f {
                    RefFrame::Last => 1,
                    RefFrame::Golden => 2,
                    RefFrame::AltRef => 3,
                };
                level = level + h.probs.ref_deltas[i] as i32;
                let j: usize = match info.inter_mode {
                    InterMode::Zero => 1,
                    InterMode::Split => 3,
                    _ => 2,
                };
                level = level + h.probs.mode_deltas[j] as i32;
            },
        }
    }
    clamp_i32(level, 0, 63) as u8
}

/// An eighth of the sum of four luma components, halves away from zero.
pub open spec fn chroma_mean(sum: int) -> int {
    if sum >= 0 {
        (sum + 4) / 8
    } else {
        -((-sum + 4) / 8)
    }
}

/// Mean of four chroma components with sum `sum`.
pub fn chroma_avg4(sum: i32) -> (r: i32)
    requires
        -0x7fff_fffb <= sum <= 0x7fff_fffb,
    ensures
        r == chroma_mean(sum as int),
{
    if sum >= 0 {
        (sum + 4) / 8
    } else {
        -((-sum + 4) / 8)
    }
}

/// The luma plane of a picture, to predict from.
pub open spec fn luma_of(p: PictureModel) -> RefModel {
    RefModel {
        data: p.planes.y,
        stride: 16 * blocks_for(p.width),
        width: 16 * blocks_for(p.width),
        height: 16 * blocks_for(p.height),
    }
}

/// A chroma plane of a picture, to predict from.
pub open spec fn chroma_of(p: PictureModel, data: Seq<u8>) -> RefModel {
    RefModel {
        data,
        stride: 8 * blocks_for(p.width),
        width: 8 * blocks_for(p.width),
        height: 8 * blocks_for(p.height),
    }
}

/// The first `n` of the blocks of a square with `per_row` blocks across, put
/// into their places; zero elsewhere.
pub open spec fn tiled(blocks: Seq<Seq<u8>>, per_row: int, n: nat) -> Seq<u8>
    decreases n,
{
    if n == 0 {
        Seq::new((16 * per_row * per_row) as nat, |i: int| 0u8)
    } else {
        let k = n - 1;
        pixels::stored(
            tiled(blocks, per_row, (n - 1) as nat),
            16 * per_row * (k / per_row) + 4 * (k % per_row),
            4 * per_row,
            4,
            blocks[k],
            4,
        )
    }
}

/// Predicted luma subblocks of macroblock (`row`, `col`).
pub open spec fn luma_tiles(r: RefModel, row: int, col: int, mvs: Seq<Mv>) -> Seq<Seq<u8>> {
    Seq::new(
        16,
        |k: int|
            inter::fraction_block(
                r,
                8 * (16 * col + 4 * (k % 4)) + mvs[k].col,
                8 * (16 * row + 4 * (k / 4)) + mvs[k].row,
            ),
    )
}

/// Sum of the rows of the four luma vectors that cover chroma block `k`.
pub open spec fn row_sum(mvs: Seq<Mv>, k: int) -> int {
    let i = 8 * (k / 2) + 2 * (k % 2);
    mvs[i].row + mvs[i + 1].row + mvs[i + 4].row + mvs[i + 5].row
}

/// Sum of the columns of the four luma vectors that cover chroma block `k`.
pub open spec fn col_sum(mvs: Seq<Mv>, k: int) -> int {
    let i = 8 * (k / 2) + 2 * (k % 2);
    mvs[i].col + mvs[i + 1].col + mvs[i + 4].col + mvs[i + 5].col
}

/// Predicted chroma blocks of macroblock (`row`, `col`).
pub open spec fn chroma_tiles(r: RefModel, row: int, col: int, mvs: Seq<Mv>) -> Seq<Seq<u8>> {
    Seq::new(
        4,
        |k: int|
            inter::fraction_block(
                r,
                8 * (8 * col + 4 * (k % 2)) + chroma_mean(col_sum(mvs, k)),
                8 * (8 * row + 4 * (k / 2)) + chroma_mean(row_sum(mvs, k)),
            ),
    )
}

/// An inter macroblock with dequantized coefficients `c`.
pub open spec fn inter_macroblock(
    p: PictureModel,
    row: int,
    col: int,
    mvs: Seq<Mv>,
    has_y2: bool,
    c: CoeffModel,
) -> PlanesModel {
    PlanesModel {
        y: reconstruct::with_residues(
            tiled(luma_tiles(luma_of(p), row, col, mvs), 4, 16),
            4,
            reconstruct::luma_residues(has_y2, c.y2, c.y),
            16,
        ),
        u: reconstruct::with_residues(
            tiled(chroma_tiles(chroma_of(p, p.planes.u), row, col, mvs), 2, 4),
            2,
            reconstruct::chroma_residues(c.u),
            4,
        ),
        v: reconstruct::with_residues(
            tiled(chroma_tiles(chroma_of(p, p.planes.v), row, col, mvs), 2, 4),
            2,
            reconstruct::chroma_residues(c.v),
            4,
        ),
    }
}

proof fn lemma_ref_inside(len: int, cols: int, rows: int, size: int)
    requires
        size == 16 || size == 8,
        cols >= 1,
        rows >= 1,
        len == size * rows * (size * cols),
    ensures
        (size * rows - 1) * (size * cols) + size * cols <= len,
{
    arith::lemma_last_line(size * rows, size * cols);
}

impl Picture {
    /// The luma plane, to predict from.
    fn y_plane(&self) -> (r: RefPlane<'_>)
        requires
            self.wf(),
            self.planes.mb_cols > 0,
            self.planes.mb_rows > 0,
        ensures
            r.inside(),
            r@ == luma_of(self@),
    {
        proof {
            lemma_ref_inside(
                self.planes.y@.len() as int,
                self.planes.mb_cols as int,
                self.planes.mb_rows as int,
                16,
            );
        }
        RefPlane {
            data: self.planes.y.as_slice(),
            stride: self.planes.y_stride,
            width: self.planes.y_stride,
            height: 16 * self.planes.mb_rows,
        }
    }

    /// The first chroma plane, to predict from.
    fn u_plane(&self) -> (r: RefPlane<'_>)
        requires
            self.wf(),
            self.planes.mb_cols > 0,
            self.planes.mb_rows > 0,
        ensures
            r.inside(),
            r@ == chroma_of(self@, self@.planes.u),
    {
        proof {
            lemma_ref_inside(
                self.planes.u@.len() as int,
                self.planes.mb_cols as int,
                self.planes.mb_rows as int,
                8,
            );
        }
        RefPlane {
            data: self.planes.u.as_slice(),
            stride: self.planes.uv_stride,
            width: self.planes.uv_stride,
            height: 8 * self.planes.mb_rows,
        }
    }

    /// The second chroma plane, to predict from.
    fn v_plane(&self) -> (r: RefPlane<'_>)
        requires
            self.wf(),
            self.planes.mb_cols > 0,
            self.planes.mb_rows > 0,
        ensures
            r.inside(),
            r@ == chroma_of(self@, self@.planes.v),
    {
        proof {
            lemma_ref_inside(
                self.planes.v@.len() as int,
                self.planes.mb_cols as int,
                self.planes.mb_rows as int,
                8,
            );
        }
        RefPlane {
            data: self.planes.v.as_slice(),
            stride: self.planes.uv_stride,
            width: self.planes.uv_stride,
            height: 8 * self.planes.mb_rows,
        }
    }
}

fn predict_inter_luma(r: &RefPlane<'_>, row: usize, col: usize, mvs: &[Mv; 16]) -> (y: [u8; 256])
    requires
        r.inside(),
        row < 0x400,
        col < 0x400,
    ensures
        y@ == tiled(luma_tiles(r@, row as int, col as int, mvs@), 4, 16),
{
    let mut y: [u8; 256] = [0u8;256];
    let ghost tiles = luma_tiles(r@, row as int, col as int, mvs@);
    assert(y@ =~= tiled(tiles, 4, 0));
    let mut k: usize = 0;
    while k < 16
        invariant
            k <= 16,
            r.inside(),
            row < 0x400,
            col < 0x400,
            tiles == luma_tiles(r@, row as int, col as int, mvs@),
            y@ == tiled(tiles, 4, k as nat),
        decreases 16 - k,
    {
        let x8: i32 = 8 * (16 * col as i32 + 4 * (k % 4) as i32) + mvs[k].col as i32;
        let y8: i32 = 8 * (16 * row as i32 + 4 * (k / 4) as i32) + mvs[k].row as i32;
        let tile: [u8; 16] = sixtap_predict(r, x8, y8);
        assert(tile@ == tiles[k as int]);
        store_block(&mut y, 64 * (k / 4) + 4 * (k % 4), 16, 4, 4, &tile);
        k = k + 1;
    }
    y
}

fn predict_inter_chroma(r: &RefPlane<'_>, row: usize, col: usize, mvs: &[Mv; 16]) -> (c: [u8; 64])
    requires
        r.inside(),
        row < 0x400,
        col < 0x400,
    ensures
        c@ == tiled(chroma_tiles(r@, row as int, col as int, mvs@), 2, 4),
{
    let mut c: [u8; 64] = [0u8;64];
    let ghost tiles = chroma_tiles(r@, row as int, col as int, mvs@);
    assert(c@ =~= tiled(tiles, 2, 0));
    let mut k: usize = 0;
    while k < 4
        invariant
            k <= 4,
            r.inside(),
            row < 0x400,
            col < 0x400,
            tiles == chroma_tiles(r@, row as int, col as int, mvs@),
            c@ == tiled(tiles, 2, k as nat),
        decreases 4 - k,
    {
        let i: usize = 8 * (k / 2) + 2 * (k % 2);
        let rows: i32 = mvs[i].row as i32 + mvs[i + 1].row as i32 + mvs[i + 4].row as i32 + mvs[i
            + 5].row as i32;
        let cols: i32 = mvs[i].col as i32 + mvs[i + 1].col as i32 + mvs[i + 4].col as i32 + mvs[i
            + 5].col as i32;
        let x8: i32 = 8 * (8 * col as i32 + 4 * (k % 2) as i32) + chroma_avg4(cols);
        let y8: i32 = 8 * (8 * row as i32 + 4 * (k / 2) as i32) + chroma_avg4(rows);
        let tile: [u8; 16] = sixtap_predict(r, x8, y8);
        assert(tile@ == tiles[k as int]);
        store_block(&mut c, 32 * (k / 2) + 4 * (k % 2), 8, 4, 4, &tile);
        k = k + 1;
    }
    c
}

/// Reconstructs an inter macroblock from dequantized coefficients.
pub fn reconstruct_inter_mb(
    p: &Picture,
    row: usize,
    col: usize,
    mvs: &[Mv; 16],
    has_y2: bool,
    c: &MbCoeffs,
) -> (m: ReconstructedMb)
    requires
        p.wf(),
        row < p.planes.mb_rows,
        col < p.planes.mb_cols,
    ensures
        m@ == inter_macroblock(p@, row as int, col as int, mvs@, has_y2, c@),
{
    let mut y: [u8; 256] = predict_inter_luma(&p.y_plane(), row, col, mvs);
    add_luma(&mut y, has_y2, &c.y2, &c.y);
    let mut u: [u8; 64] = predict_inter_chroma(&p.u_plane(), row, col, mvs);
    add_chroma(&mut u, &c.u);
    let mut v: [u8; 64] = predict_inter_chroma(&p.v_plane(), row, col, mvs);
    add_chroma(&mut v, &c.v);
    ReconstructedMb { y, u, v }
}

/// The first `n` macroblocks of a frame.
#[verifier::opaque]
pub open spec fn read_infos(
    d: DecState,
    h: HeaderModel,
    key_frame: bool,
    cols: int,
    rows: int,
    n: nat,
) -> (Seq<InfoModel>, DecState)
    decreases n,
{
    if n == 0 {
        (Seq::empty(), d)
    } else {
        let (infos, d1) = read_infos(d, h, key_frame, cols, rows, (n - 1) as nat);
        let (info, d2) = if key_frame {
            modes::read_key_info(d1, h.coded, infos, n - 1, cols)
        } else {
            modes::read_inter_info(d1, h, infos, Place { k: n - 1, cols, rows })
        };
        (infos.push(info), d2)
    }
}

/// Reads the modes of all macroblocks of a frame.
fn decode_infos(
    dec: &mut BoolDecoder<'_>,
    h: &FrameHeader,
    key_frame: bool,
    cols: usize,
    rows: usize,
) -> (infos: Vec<MbInfo>)
    requires
        old(dec).wf(),
        cols <= 0x400,
        rows <= 0x400,
    ensures
        infos@.len() == cols * rows,
        modes::info_views(infos@) == read_infos(
            old(dec)@,
            h@,
            key_frame,
            cols as int,
            rows as int,
            (cols * rows) as nat,
        ).0,
        forall|k: int| 0 <= k < infos@.len() ==> (#[trigger] infos@[k]).segment_id <= 3,
        forall|k: int|
            key_frame && 0 <= k < infos@.len() ==> (#[trigger] infos@[k]).reference is None,
{
    let mut infos: Vec<MbInfo> = Vec::new();
    proof {
        arith::lemma_mul_bound(cols as int, rows as int, 0x400, 0x400);
    }
    let total: usize = cols * rows;
    let ghost d0 = dec@;
    let mut k: usize = 0;
    proof {
        reveal(read_infos);
    }
    assert(modes::info_views(infos@) =~= Seq::empty());
    while k < total
        invariant
            k <= total,
            total == cols * rows,
            cols <= 0x400,
            rows <= 0x400,
            dec.wf(),
            d0 == old(dec)@,
            infos@.len() == k,
            (modes::info_views(infos@), dec@) == read_infos(
                d0,
                h@,
                key_frame,
                cols as int,
                rows as int,
                k as nat,
            ),
            forall|j: int| 0 <= j < k ==> (#[trigger] infos@[j]).segment_id <= 3,
            forall|j: int| key_frame && 0 <= j < k ==> (#[trigger] infos@[j]).reference is None,
        decreases total - k,
    {
        proof {
            arith::lemma_factors_positive(k as int, cols as int, rows as int);
            reveal(read_infos);
        }
        let ghost before = modes::info_views(infos@);
        let info: MbInfo = if key_frame {
            decode_mb_mode_info_keyframe(dec, &h.coded, &infos, k, cols)
        } else {
            decode_mb_mode_info_inter(dec, h, &infos, k, cols, rows)
        };
        assert(key_frame ==> info@.reference is None);
        infos.push(info);
        assert(modes::info_views(infos@) =~= before.push(info@));
        k = k + 1;
    }
    infos
}

/// Number of token partitions.
pub open spec fn part_count(log2: int) -> int {
    if log2 == 0 {
        1
    } else if log2 == 1 {
        2
    } else if log2 == 2 {
        4
    } else {
        8
    }
}

/// Where token partition `i` of `n` starts, when the partitions start at
/// `first` with a table of their sizes.
pub open spec fn part_start(buf: Seq<u8>, first: int, n: int, i: nat) -> int
    decreases i,
{
    if i == 0 {
        first + 3 * (n - 1)
    } else {
        part_start(buf, first, n, (i - 1) as nat) + frame_tag::number3(buf, first + 3 * (i - 1))
    }
}

/// Token partition `i` of `n`; the last one takes what is left.
pub open spec fn part_bytes(buf: Seq<u8>, first: int, n: int, i: int) -> Seq<u8> {
    buf.subrange(
        part_start(buf, first, n, i as nat),
        if i == n - 1 {
            buf.len() as int
        } else {
            part_start(buf, first, n, (i + 1) as nat)
        },
    )
}

/// Two zero bytes stand for a partition that is shorter.
pub open spec fn padded(p: Seq<u8>) -> Seq<u8> {
    if p.len() == 0 {
        seq![0u8, 0u8]
    } else if p.len() == 1 {
        p.push(0)
    } else {
        p
    }
}

/// What is wrong with the partitions, if anything.
pub open spec fn part_fault(buf: Seq<u8>, first: int, n: int) -> Option<Seq<char>> {
    if first > buf.len() {
        Some("VP8: first partition extends past end"@)
    } else if first + 3 * (n - 1) > buf.len() {
        Some("VP8: partition size table truncated"@)
    } else if part_start(buf, first, n, (n - 1) as nat) > buf.len() {
        Some("VP8: partition extends past end"@)
    } else {
        None
    }
}

pub proof fn lemma_part_start_grows(buf: Seq<u8>, first: int, n: int, i: nat, j: nat)
    requires
        i <= j,
    ensures
        part_start(buf, first, n, i) <= part_start(buf, first, n, j),
    decreases j,
{
    if i < j {
        lemma_part_start_grows(buf, first, n, i, (j - 1) as nat);
    }
}

fn copy_padded(buf: &[u8], from: usize, to: usize) -> (p: Vec<u8>)
    requires
        from <= to <= buf@.len(),
    ensures
        p@ == padded(buf@.subrange(from as int, to as int)),
        p@.len() >= 2,
{
    let mut p: Vec<u8> = Vec::new();
    let mut i: usize = from;
    while i < to
        invariant
            from <= i <= to <= buf@.len(),
            p@ == buf@.subrange(from as int, i as int),
        decreases to - i,
    {
        p.push(buf[i]);
        i = i + 1;
        assert(p@ =~= buf@.subrange(from as int, i as int));
    }
    let ghost body = p@;
    if p.len() == 0 {
        p.push(0);
        p.push(0);
        assert(p@ =~= padded(body));
    } else if p.len() == 1 {
        p.push(0);
        assert(p@ =~= padded(body));
    }
    p
}

/// The token partitions of a frame, padded.
#[verifier::opaque]
pub open spec fn padded_parts(buf: Seq<u8>, first: int, n: int) -> Seq<Seq<u8>> {
    Seq::new(n as nat, |i: int| padded(part_bytes(buf, first, n, i)))
}

/// Vectors of bytes as sequences.
pub open spec fn byte_views(v: Seq<Vec<u8>>) -> Seq<Seq<u8>> {
    Seq::new(v.len(), |i: int| v[i]@)
}

/// Cuts the token partitions out of a frame.
fn cut_partitions(buf: &[u8], first: usize, n: usize) -> (r: Result<Vec<Vec<u8>>, Vp8Error>)
    requires
        1 <= n <= 8,
        first <= 0x1000_0000,
    ensures
        match r {
            Ok(parts) => {
                &&& part_fault(buf@, first as int, n as int) is None
                &&& parts@.len() == n
                &&& byte_views(parts@) == padded_parts(buf@, first as int, n as int)
                &&& forall|i: int| 0 <= i < n ==> (#[trigger] parts@[i])@.len() >= 2
            },
            Err(e) => part_fault(buf@, first as int, n as int) is Some && e.is_invalid(
                part_fault(buf@, first as int, n as int)->0,
            ),
        },
{
    let len: usize = buf.len();
    if first > len {
        return Err(Vp8Error::invalid("VP8: first partition extends past end"));
    }
    if first + 3 * (n - 1) > len {
        return Err(Vp8Error::invalid("VP8: partition size table truncated"));
    }
    let mut parts: Vec<Vec<u8>> = Vec::new();
    let mut cursor: usize = first + 3 * (n - 1);
    let mut i: usize = 0;
    while i < n - 1
        invariant
            1 <= n <= 8,
            i <= n - 1,
            len == buf@.len(),
            first + 3 * (n - 1) <= len,
            cursor == part_start(buf@, first as int, n as int, i as nat),
            cursor <= len,
            parts@.len() == i,
            forall|j: int|
                0 <= j < i ==> (#[trigger] parts@[j])@ == padded(
                    part_bytes(buf@, first as int, n as int, j),
                ),
            forall|j: int| 0 <= j < i ==> (#[trigger] parts@[j])@.len() >= 2,
        decreases n - 1 - i,
    {
        let at: usize = first + 3 * i;
        let size: usize = buf[at] as usize + 256 * buf[at + 1] as usize + 65536 * buf[at
            + 2] as usize;
        if size > len - cursor {
            proof {
                lemma_part_start_grows(
                    buf@,
                    first as int,
                    n as int,
                    (i + 1) as nat,
                    (n - 1) as nat,
                );
            }
            return Err(Vp8Error::invalid("VP8: partition extends past end"));
        }
        parts.push(copy_padded(buf, cursor, cursor + size));
        cursor = cursor + size;
        i = i + 1;
    }
    parts.push(copy_padded(buf, cursor, len));
    proof {
        reveal(padded_parts);
        assert(byte_views(parts@) =~= padded_parts(buf@, first as int, n as int));
    }
    Ok(parts)
}

/// The three pictures that an inter frame may predict from.
pub struct References {
    pub last: PictureModel,
    pub golden: PictureModel,
    pub altref: PictureModel,
}

/// The picture that a macroblock is predicted from.
pub open spec fn reference_picture(r: References, f: RefFrame) -> PictureModel {
    match f {
        RefFrame::Last => r.last,
        RefFrame::Golden => r.golden,
        RefFrame::AltRef => r.altref,
    }
}

/// The macroblock has a second-order block.
pub open spec fn uses_y2(info: InfoModel) -> bool {
    if info.reference is None {
        info.y_mode != IntraYMode::B
    } else {
        info.inter_mode != InterMode::Split
    }
}

/// Everything but the residue that the pixels of a frame come from.
pub struct FrameJob {
    pub h: HeaderModel,
    pub infos: Seq<InfoModel>,
    pub cols: int,
    pub refs: References,
}

/// A frame as far as it is reconstructed.
pub struct Progress {
    /// What is left of each token partition.
    pub parts: Seq<DecState>,
    /// Contexts above each column.
    pub above: Seq<Seq<bool>>,
    /// Context to the left.
    pub left: Seq<bool>,
    pub planes: PlanesModel,
    /// Which macroblocks have a block that is not empty.
    pub coded: Seq<bool>,
}

/// Macroblock `k`, once its residue is known.
pub open spec fn macroblock_pixels(
    job: FrameJob,
    planes: PlanesModel,
    k: int,
    c: CoeffModel,
) -> PlanesModel {
    let row = k / job.cols;
    let col = k % job.cols;
    let info = job.infos[k];
    let dq = quant::dequantized_mb(c, mb_factors(job.h.coded, info.segment_id));
    match info.reference {
        None => reconstruct::intra_macroblock(
            neighbors::around_mb(planes, 16 * job.cols, 8 * job.cols, job.cols, row, col),
            info.y_mode,
            info.bmodes,
            info.uv_mode,
            dq,
        ),
        Some(f) => inter_macroblock(
            reference_picture(job.refs, f),
            row,
            col,
            info.sub_mvs,
            uses_y2(info),
            dq,
        ),
    }
}

/// The frame after macroblock `k`.
#[verifier::opaque]
pub open spec fn after_macroblock(job: FrameJob, st: Progress, k: int) -> Progress {
    let row = k / job.cols;
    let col = k % job.cols;
    let info = job.infos[k];
    let has_y2 = uses_y2(info);
    let part = row % st.parts.len() as int;
    let left = if col == 0 {
        mb_tokens::clear_ctx()
    } else {
        st.left
    };
    if info.skip {
        Progress {
            above: st.above.update(col, mb_tokens::skipped_ctx(st.above[col], has_y2)),
            left: mb_tokens::skipped_ctx(left, has_y2),
            planes: neighbors::with_mb(
                st.planes,
                16 * job.cols,
                8 * job.cols,
                row,
                col,
                macroblock_pixels(job, st.planes, k, frame::no_coeffs()),
            ),
            coded: st.coded.push(false),
            parts: st.parts,
        }
    } else {
        let m = mb_tokens::read_mb(
            st.parts[part],
            job.h.probs.coef,
            has_y2,
            st.above[col],
            left,
        );
        Progress {
            parts: st.parts.update(part, m.rest),
            above: st.above.update(col, m.above),
            left: m.left,
            planes: neighbors::with_mb(
                st.planes,
                16 * job.cols,
                8 * job.cols,
                row,
                col,
                macroblock_pixels(job, st.planes, k, mb_tokens::by_plane(m.blocks)),
            ),
            coded: st.coded.push(m.any),
        }
    }
}

/// The frame after its first `n` macroblocks.
pub open spec fn after_macroblocks(job: FrameJob, start: Progress, n: nat) -> Progress
    decreases n,
{
    if n == 0 {
        start
    } else {
        after_macroblock(job, after_macroblocks(job, start, (n - 1) as nat), n - 1)
    }
}

/// A frame of `cols` by `rows` macroblocks before its first one.
pub open spec fn nothing_done(parts: Seq<Seq<u8>>, cols: int, rows: int) -> Progress {
    Progress {
        parts: Seq::new(parts.len(), |i: int| range_coder::dec_start(parts[i])),
        above: Seq::new(cols as nat, |i: int| mb_tokens::clear_ctx()),
        left: mb_tokens::clear_ctx(),
        planes: neighbors::blank_planes(cols, rows),
        coded: Seq::empty(),
    }
}

/// Decoders as their states.
pub open spec fn decoder_views(v: Seq<BoolDecoder<'_>>) -> Seq<DecState> {
    Seq::new(v.len(), |i: int| v[i]@)
}

/// Contexts as sequences.
pub open spec fn ctx_views(v: Seq<MbEntropyCtx>) -> Seq<Seq<bool>> {
    Seq::new(v.len(), |i: int| v[i]@)
}

/// Reconstructs macroblock (`row`, `col`).
fn rebuild_macroblock(
    h: &FrameHeader,
    info: &MbInfo,
    last: &Picture,
    golden: &Picture,
    altref: &Picture,
    planes: &KeyframePlanes,
    row: usize,
    col: usize,
    coeffs: &MbCoeffs,
    Ghost(job): Ghost<FrameJob>,
    Ghost(k): Ghost<int>,
) -> (m: ReconstructedMb)
    requires
        planes.wf(),
        row < planes.mb_rows,
        col < planes.mb_cols,
        info.segment_id <= 3,
        info.reference is Some ==> last.wf() && golden.wf() && altref.wf() && last.planes.like(
            planes,
        ) && golden.planes.like(planes) && altref.planes.like(planes),
        job.h == h@,
        job.infos[k] == info@,
        job.cols == planes.mb_cols,
        job.refs == (References { last: last@, golden: golden@, altref: altref@ }),
        row == k / job.cols,
        col == k % job.cols,
    ensures
        m@ == macroblock_pixels(job, planes@, k, coeffs@),
{
    let mut dq: MbCoeffs = *coeffs;
    let factors: MbDequantFactors = factors_for(&h.coded, info.segment_id);
    factors.dequantize(&mut dq);
    match info.reference {
        None => {
            let n: reconstruct::MbNeighbors = gather_neighbors(planes, row, col);
            reconstruct_intra_mb(&n, info.y_mode, &info.bmodes, info.uv_mode, &dq)
        },
        Some(f) => {
            let p: &Picture = match f {
                RefFrame::Last => last,
                RefFrame::Golden => golden,
                RefFrame::AltRef => altref,
            };
            let has_y2: bool = info.inter_mode != InterMode::Split;
            reconstruct_inter_mb(p, row, col, &info.sub_mvs, has_y2, &dq)
        },
    }
}

fn mb_has_y2(info: &MbInfo) -> (b: bool)
    ensures
        b == uses_y2(info@),
{
    if info.reference.is_none() {
        info.y_mode != IntraYMode::B
    } else {
        info.inter_mode != InterMode::Split
    }
}

/// The planes and the coded macroblocks of a frame.
struct Rebuilt {
    planes: KeyframePlanes,
    coded: Vec<bool>,
}

fn start_decoders(parts: &Vec<Vec<u8>>) -> (decs: Vec<BoolDecoder<'_>>)
    requires
        forall|i: int| 0 <= i < parts@.len() ==> (#[trigger] parts@[i])@.len() >= 2,
    ensures
        decs@.len() == parts@.len(),
        forall|i: int| 0 <= i < decs@.len() ==> (#[trigger] decs@[i]).wf(),
        forall|i: int|
            0 <= i < decs@.len() ==> (#[trigger] decs@[i])@ == range_coder::dec_start(
                parts@[i]@,
            ),
{
    let mut decs: Vec<BoolDecoder<'_>> = Vec::new();
    let mut i: usize = 0;
    while i < parts.len()
        invariant
            i <= parts@.len(),
            decs@.len() == i,
            forall|j: int| 0 <= j < parts@.len() ==> (#[trigger] parts@[j])@.len() >= 2,
            forall|j: int| 0 <= j < i ==> (#[trigger] decs@[j]).wf(),
            forall|j: int|
                0 <= j < i ==> (#[trigger] decs@[j])@ == range_coder::dec_start(parts@[j]@),
        decreases parts@.len() - i,
    {
        assert(parts@[i as int]@.len() >= 2);
        let bytes: &Vec<u8> = &parts[i];
        if let Ok(d) = BoolDecoder::new(bytes.as_slice()) {
            decs.push(d);
        }
        i = i + 1;
    }
    decs
}

/// Reads the residue of macroblock (`row`, `col`), or enters into the contexts
/// that it has none.
fn take_residue(
    decs: &mut Vec<BoolDecoder<'_>>,
    h: &FrameHeader,
    info: &MbInfo,
    part: usize,
    above: &mut Vec<MbEntropyCtx>,
    col: usize,
    left: &mut MbEntropyCtx,
) -> (r: (MbCoeffs, bool))
    requires
        part < old(decs)@.len(),
        col < old(above)@.len(),
        forall|i: int| 0 <= i < old(decs)@.len() ==> (#[trigger] old(decs)@[i]).wf(),
    ensures
        final(decs)@.len() == old(decs)@.len(),
        final(above)@.len() == old(above)@.len(),
        forall|i: int| 0 <= i < final(decs)@.len() ==> (#[trigger] final(decs)@[i]).wf(),
        ({
            let has_y2 = uses_y2(info@);
            let m = mb_tokens::read_mb(
                decoder_views(old(decs)@)[part as int],
                h@.probs.coef,
                has_y2,
                ctx_views(old(above)@)[col as int],
                old(left)@,
            );
            if info.skip {
                &&& decoder_views(final(decs)@) == decoder_views(old(decs)@)
                &&& ctx_views(final(above)@) == ctx_views(old(above)@).update(
                    col as int,
                    mb_tokens::skipped_ctx(ctx_views(old(above)@)[col as int], has_y2),
                )
                &&& final(left)@ == mb_tokens::skipped_ctx(old(left)@, has_y2)
                &&& r.0@ == frame::no_coeffs()
                &&& !r.1
            } else {
                &&& decoder_views(final(decs)@) == decoder_views(old(decs)@).update(
                    part as int,
                    m.rest,
                )
                &&& ctx_views(final(above)@) == ctx_views(old(above)@).update(col as int, m.above)
                &&& final(left)@ == m.left
                &&& r.0@ == mb_tokens::by_plane(m.blocks)
                &&& r.1 == m.any
            }
        }),
{
    let has_y2: bool = mb_has_y2(info);
    let mut a: MbEntropyCtx = above[col];
    let ghost d0 = decoder_views(decs@);
    let ghost a0 = ctx_views(above@);
    let r: (MbCoeffs, bool);
    if info.skip {
        clear_skip_ctx(&mut a, has_y2);
        clear_skip_ctx(left, has_y2);
        r = (MbCoeffs::default(), false);
    } else {
        r = decode_mb_coeffs(&mut decs[part], &h.probs.coef_probs, has_y2, &mut a, left);
        assert(decoder_views(decs@) =~= d0.update(part as int, decs@[part as int]@));
    }
    above[col] = a;
    assert(ctx_views(above@) =~= a0.update(col as int, a@));
    r
}

/// Reads the residue of a frame and reconstructs its macroblocks.
fn rebuild(
    parts: &Vec<Vec<u8>>,
    h: &FrameHeader,
    infos: &Vec<MbInfo>,
    last: &Picture,
    golden: &Picture,
    altref: &Picture,
    cols: usize,
    rows: usize,
    Ghost(job): Ghost<FrameJob>,
) -> (r: Rebuilt)
    requires
        1 <= parts@.len() <= 8,
        forall|i: int| 0 <= i < parts@.len() ==> (#[trigger] parts@[i])@.len() >= 2,
        cols <= 0x400,
        rows <= 0x400,
        infos@.len() == cols * rows,
        forall|k: int| 0 <= k < infos@.len() ==> (#[trigger] infos@[k]).segment_id <= 3,
        forall|k: int|
            0 <= k < infos@.len() && (#[trigger] infos@[k]).reference is Some ==> last.wf()
                && golden.wf() && altref.wf() && last.planes.mb_cols == cols && last.planes.mb_rows
                == rows && golden.planes.mb_cols == cols && golden.planes.mb_rows == rows
                && altref.planes.mb_cols == cols && altref.planes.mb_rows == rows,
        job.h == h@,
        job.infos == modes::info_views(infos@),
        job.cols == cols,
        job.refs == (References { last: last@, golden: golden@, altref: altref@ }),
    ensures
        r.planes.wf(),
        r.planes.mb_cols == cols,
        r.planes.mb_rows == rows,
        r.coded@.len() == cols * rows,
        ({
            let p = after_macroblocks(
                job,
                nothing_done(byte_views(parts@), cols as int, rows as int),
                (cols * rows) as nat,
            );
            &&& r.planes@ == p.planes
            &&& r.coded@ == p.coded
        }),
{
    let mut decs: Vec<BoolDecoder<'_>> = start_decoders(parts);
    let n: usize = decs.len();
    let total: usize = infos.len();
    let mut planes: KeyframePlanes = KeyframePlanes::blank(cols, rows);
    let mut coded: Vec<bool> = Vec::new();
    let mut above: Vec<MbEntropyCtx> = Vec::new();
    let mut left: MbEntropyCtx = MbEntropyCtx::default();
    let mut i: usize = 0;
    while i < cols
        invariant
            i <= cols,
            above@.len() == i,
            forall|j: int| 0 <= j < i ==> (#[trigger] above@[j])@ == mb_tokens::clear_ctx(),
        decreases cols - i,
    {
        above.push(MbEntropyCtx::default());
        i = i + 1;
    }
    let ghost start = nothing_done(byte_views(parts@), cols as int, rows as int);
    assert(decoder_views(decs@) =~= start.parts);
    assert(ctx_views(above@) =~= start.above);
    assert(coded@ =~= start.coded);
    let mut k: usize = 0;
    while k < total
        invariant
            k <= total,
            total == cols * rows,
            total == infos@.len(),
            1 <= n <= 8,
            decs@.len() == n,
            above@.len() == cols,
            coded@.len() == k,
            cols <= 0x400,
            rows <= 0x400,
            forall|i: int| 0 <= i < n ==> (#[trigger] decs@[i]).wf(),
            forall|k: int| 0 <= k < infos@.len() ==> (#[trigger] infos@[k]).segment_id <= 3,
            forall|k: int|
                0 <= k < infos@.len() && (#[trigger] infos@[k]).reference is Some ==> last.wf()
                    && golden.wf() && altref.wf() && last.planes.mb_cols == cols
                    && last.planes.mb_rows == rows && golden.planes.mb_cols == cols
                    && golden.planes.mb_rows == rows && altref.planes.mb_cols == cols
                    && altref.planes.mb_rows == rows,
            job.h == h@,
            job.infos == modes::info_views(infos@),
            job.cols == cols,
            job.refs == (References { last: last@, golden: golden@, altref: altref@ }),
            planes.wf(),
            planes.mb_cols == cols,
            planes.mb_rows == rows,
            start == nothing_done(byte_views(parts@), cols as int, rows as int),
            ({
                let p = after_macroblocks(job, start, k as nat);
                &&& decoder_views(decs@) == p.parts
                &&& ctx_views(above@) == p.above
                &&& left@ == p.left
                &&& planes@ == p.planes
                &&& coded@ == p.coded
            }),
        decreases total - k,
    {
        proof {
            arith::lemma_place(k as int, cols as int, rows as int);
        }
        let row: usize = k / cols;
        let col: usize = k % cols;
        let ghost before = after_macroblocks(job, start, k as nat);
        if col == 0 {
            left = MbEntropyCtx::default();
        }
        let info: MbInfo = infos[k];
        assert(job.infos[k as int] == info@);
        let (coeffs, any) = take_residue(
            &mut decs,
            h,
            &info,
            row % n,
            &mut above,
            col,
            &mut left,
        );
        let m: ReconstructedMb = rebuild_macroblock(
            h,
            &info,
            last,
            golden,
            altref,
            &planes,
            row,
            col,
            &coeffs,
            Ghost(job),
            Ghost(k as int),
        );
        write_mb(&mut planes, row, col, &m);
        coded.push(any);
        proof {
            reveal(after_macroblock);
            let after = after_macroblock(job, before, k as int);
            assert(after_macroblocks(job, start, (k + 1) as nat) == after);
            assert(coded@ =~= after.coded);
        }
        k = k + 1;
    }
    Rebuilt { planes, coded }
}

/// How the macroblocks of a frame are filtered.
pub open spec fn filter_plan(
    h: HeaderModel,
    infos: Seq<InfoModel>,
    coded: Seq<bool>,
    key_frame: bool,
) -> FilterPlan {
    FilterPlan {
        levels: Seq::new(infos.len(), |k: int| filter_level(h, infos[k])),
        inner: Seq::new(
            infos.len(),
            |k: int|
                coded[k] || infos[k].y_mode == IntraYMode::B || infos[k].inter_mode
                    == InterMode::Split,
        ),
        sharpness: h.coded.sharpness,
        key_frame,
        simple: h.coded.filter_type,
    }
}

/// The planes of a frame after the loop filter.
#[verifier::opaque]
pub open spec fn filtered(
    planes: PlanesModel,
    h: HeaderModel,
    infos: Seq<InfoModel>,
    coded: Seq<bool>,
    key_frame: bool,
    cols: int,
) -> PlanesModel {
    if h.coded.level == 0 {
        planes
    } else {
        loop_filter::filtered_planes(
            planes,
            16 * cols,
            8 * cols,
            cols,
            infos.len(),
            filter_plan(h, infos, coded, key_frame),
        )
    }
}

/// Filters the planes of a frame.
fn apply_loop_filter(
    h: &FrameHeader,
    infos: &Vec<MbInfo>,
    coded: &Vec<bool>,
    planes: &mut KeyframePlanes,
    key_frame: bool,
)
    requires
        old(planes).wf(),
        infos@.len() == old(planes).mb_cols * old(planes).mb_rows,
        coded@.len() == infos@.len(),
        forall|k: int| 0 <= k < infos@.len() ==> (#[trigger] infos@[k]).segment_id <= 3,
    ensures
        final(planes).wf(),
        final(planes).like(old(planes)),
        final(planes)@ == filtered(
            old(planes)@,
            h@,
            modes::info_views(infos@),
            coded@,
            key_frame,
            old(planes).mb_cols as int,
        ),
{
    proof {
        reveal(filtered);
    }
    if h.coded.loop_filter_level == 0 {
        return;
    }
    let n: usize = infos.len();
    if n == 0 {
        return;
    }
    let mut levels: Vec<u8> = Vec::new();
    let mut inner: Vec<bool> = Vec::new();
    let mut k: usize = 0;
    let ghost models = modes::info_views(infos@);
    let ghost plan = filter_plan(h@, models, coded@, key_frame);
    while k < n
        invariant
            k <= n,
            n == infos@.len(),
            coded@.len() == n,
            levels@.len() == k,
            inner@.len() == k,
            models == modes::info_views(infos@),
            plan == filter_plan(h@, models, coded@, key_frame),
            forall|j: int| 0 <= j < n ==> (#[trigger] infos@[j]).segment_id <= 3,
            forall|j: int| 0 <= j < k ==> #[trigger] levels@[j] == plan.levels[j],
            forall|j: int| 0 <= j < k ==> #[trigger] inner@[j] == plan.inner[j],
        decreases n - k,
    {
        let info: MbInfo = infos[k];
        assert(models[k as int] == info@);
        levels.push(per_mb_filter_level(h, &info));
        inner.push(
            coded[k] || info.y_mode == IntraYMode::B || info.inter_mode == InterMode::Split,
        );
        k = k + 1;
    }
    let cols: usize = planes.mb_cols;
    let rows: usize = planes.mb_rows;
    let ys: usize = planes.y_stride;
    let cs: usize = planes.uv_stride;
    proof {
        arith::lemma_factors_positive(0, cols as int, rows as int);
        let p = loop_filter::plan_of(
            levels@,
            inner@,
            h.coded.sharpness_level as int,
            key_frame,
            h.coded.filter_type,
        );
        assert(p.levels =~= plan.levels);
        assert(p.inner =~= plan.inner);
        assert(16 * rows * ys <= planes.y@.len());
    }
    filter_planes(
        &mut planes.y,
        &mut planes.u,
        &mut planes.v,
        ys,
        cs,
        cols,
        rows,
        &levels,
        &inner,
        h.coded.sharpness_level,
        key_frame,
        h.coded.filter_type,
    );
}

/// The top left `w` by `h` pixels of a plane.
pub open spec fn cropped(plane: Seq<u8>, stride: int, w: int, h: int) -> Seq<u8> {
    Seq::new((w * h) as nat, |i: int| plane[(i / w) * stride + i % w])
}

fn crop(plane: &Vec<u8>, stride: usize, w: usize, h: usize) -> (out: Vec<u8>)
    requires
        w <= stride,
        w <= 0x4000,
        h <= 0x4000,
        h * stride <= plane@.len(),
    ensures
        out@ == cropped(plane@, stride as int, w as int, h as int),
{
    let len: usize = plane.len();
    let mut out: Vec<u8> = Vec::new();
    proof {
        arith::lemma_mul_bound(w as int, h as int, 0x4000, 0x4000);
    }
    let total: usize = w * h;
    let mut i: usize = 0;
    while i < total
        invariant
            i <= total,
            total == w * h,
            w <= stride,
            len == plane@.len(),
            h * stride <= len,
            out@.len() == i,
            forall|j: int|
                0 <= j < i ==> #[trigger] out@[j] == plane@[(j / w as int) * stride + j
                    % w as int],
        decreases total - i,
    {
        proof {
            arith::lemma_place(i as int, w as int, h as int);
        }
        let r: usize = i / w;
        let c: usize = i % w;
        proof {
            arith::lemma_mul_le(r + 1, h as int, stride as int);
            arith::lemma_last_line(r + 1, stride as int);
        }
        out.push(plane[r * stride + c]);
        i = i + 1;
    }
    assert(out@ =~= cropped(plane@, stride as int, w as int, h as int));
    out
}

/// Pixels of a frame without padding.
pub struct FrameModel {
    pub width: int,
    pub height: int,
    pub y: Seq<u8>,
    pub u: Seq<u8>,
    pub v: Seq<u8>,
}

/// What is shown of a picture.
#[verifier::opaque]
pub open spec fn shown(p: PictureModel) -> FrameModel {
    let cols = blocks_for(p.width);
    let cw = frame::half_up(p.width);
    let ch = frame::half_up(p.height);
    FrameModel {
        width: p.width,
        height: p.height,
        y: cropped(p.planes.y, 16 * cols, p.width, p.height),
        u: cropped(p.planes.u, 8 * cols, cw, ch),
        v: cropped(p.planes.v, 8 * cols, cw, ch),
    }
}

/// The frame shows `m`, without padding between its lines.
pub open spec fn frame_shows(f: Vp8Frame, m: FrameModel) -> bool {
    &&& f.width == m.width
    &&& f.height == m.height
    &&& f.y@ == m.y
    &&& f.u@ == m.u
    &&& f.v@ == m.v
    &&& f.y_stride == m.width
    &&& f.uv_stride == frame::half_up(m.width)
    &&& f.pts is None
}

/// Takes what is shown out of a picture.
fn show(p: &Picture) -> (f: Vp8Frame)
    requires
        p.wf(),
    ensures
        frame_shows(f, shown(p@)),
{
    proof {
        reveal(shown);
    }
    let w: usize = p.width;
    let h: usize = p.height;
    let cw: usize = (w + 1) / 2;
    let ch: usize = (h + 1) / 2;
    let ys: usize = p.planes.y_stride;
    let cs: usize = p.planes.uv_stride;
    proof {
        let rows = p.planes.mb_rows as int;
        arith::lemma_mul_le(h as int, 16 * rows, ys as int);
        arith::lemma_mul_le(ch as int, 8 * rows, cs as int);
    }
    let y: Vec<u8> = crop(&p.planes.y, ys, w, h);
    let u: Vec<u8> = crop(&p.planes.u, cs, cw, ch);
    let v: Vec<u8> = crop(&p.planes.v, cs, cw, ch);
    Vp8Frame {
        width: w as u32,
        height: h as u32,
        pts: None,
        y,
        u,
        v,
        y_stride: w as u32,
        uv_stride: cw as u32,
    }
}

impl Picture {
    /// A picture of no size.
    pub fn empty() -> (p: Self)
        ensures
            p.wf(),
            p@ == no_picture(),
    {
        Picture { planes: KeyframePlanes::blank(0, 0), width: 0, height: 0 }
    }

    pub fn is_empty(&self) -> (b: bool)
        ensures
            b == (self@.planes.y.len() == 0),
    {
        self.planes.y.len() == 0
    }

    /// The same picture once more.
    pub fn copy(&self) -> (p: Self)
        ensures
            p@ == self@,
            p.planes.like(&self.planes),
            self.wf() ==> p.wf(),
    {
        let y: Vec<u8> = self.planes.y.clone();
        let u: Vec<u8> = self.planes.u.clone();
        let v: Vec<u8> = self.planes.v.clone();
        assert(y@ =~= self.planes.y@);
        assert(u@ =~= self.planes.u@);
        assert(v@ =~= self.planes.v@);
        Picture {
            planes: KeyframePlanes {
                y,
                u,
                v,
                y_stride: self.planes.y_stride,
                uv_stride: self.planes.uv_stride,
                mb_cols: self.planes.mb_cols,
                mb_rows: self.planes.mb_rows,
            },
            width: self.width,
            height: self.height,
        }
    }
}

/// A picture of no size.
pub open spec fn no_picture() -> PictureModel {
    PictureModel { planes: neighbors::blank_planes(0, 0), width: 0, height: 0 }
}

/// What a decoder keeps from one frame to the next.
#[derive(Clone)]
pub struct DecoderState {
    pub probs: PersistentProbs,
    pub last: Picture,
    pub golden: Picture,
    pub altref: Picture,
}

/// Model of [`DecoderState`].
pub struct StateModel {
    pub probs: ProbsModel,
    pub refs: References,
}

impl View for DecoderState {
    type V = StateModel;

    open spec fn view(&self) -> StateModel {
        StateModel {
            probs: self.probs@,
            refs: References { last: self.last@, golden: self.golden@, altref: self.altref@ },
        }
    }
}

/// A decoder before its first frame.
pub open spec fn fresh_state() -> StateModel {
    StateModel {
        probs: frame_header::default_probs(),
        refs: References { last: no_picture(), golden: no_picture(), altref: no_picture() },
    }
}

impl DecoderState {
    /// The three pictures are whole and of one size.
    pub open spec fn wf(&self) -> bool {
        &&& self.last.wf()
        &&& self.golden.wf()
        &&& self.altref.wf()
        &&& self.golden.width == self.last.width
        &&& self.golden.height == self.last.height
        &&& self.altref.width == self.last.width
        &&& self.altref.height == self.last.height
    }

    /// A decoder before its first frame.
    pub fn new() -> (s: Self)
        ensures
            s.wf(),
            s@ == fresh_state(),
    {
        DecoderState {
            probs: PersistentProbs::defaults(),
            last: Picture::empty(),
            golden: Picture::empty(),
            altref: Picture::empty(),
        }
    }
}

/// Size of the frame in `buf`.
pub open spec fn frame_size(buf: Seq<u8>, st: StateModel) -> (int, int) {
    if frame_tag::is_key(buf) {
        let k = frame_tag::parsed(buf).keyframe->0;
        (k.width as int, k.height as int)
    } else {
        (st.refs.last.width, st.refs.last.height)
    }
}

/// Probabilities that the frame in `buf` starts from.
pub open spec fn starting_probs(buf: Seq<u8>, st: StateModel) -> ProbsModel {
    if frame_tag::is_key(buf) {
        frame_header::default_probs()
    } else {
        st.probs
    }
}

/// The compressed bytes of the frame in `buf`.
pub open spec fn compressed(buf: Seq<u8>) -> Seq<u8> {
    buf.skip(frame_tag::parsed(buf).compressed_offset as int)
}

/// Header of the frame in `buf`, and what follows it in its partition.
#[verifier::opaque]
pub open spec fn frame_header_of(buf: Seq<u8>, st: StateModel) -> (HeaderModel, DecState) {
    frame_header::read_frame_header(
        range_coder::dec_start(compressed(buf)),
        frame_tag::is_key(buf),
        starting_probs(buf, st),
    )
}

/// Where the token partitions of the frame in `buf` start.
pub open spec fn tokens_start(buf: Seq<u8>) -> int {
    let p = frame_tag::parsed(buf);
    p.compressed_offset + p.tag.first_partition_size
}

/// What is wrong with the frame in `buf`, if anything.
pub open spec fn decode_fault(buf: Seq<u8>, st: StateModel) -> Option<Seq<char>> {
    if frame_tag::tag_fault(buf) is Some {
        frame_tag::tag_fault(buf)
    } else if !frame_tag::is_key(buf) && st.refs.last.planes.y.len() == 0 {
        Some("VP8: inter-frame before any keyframe — no reference available"@)
    } else if compressed(buf).len() < 2 {
        Some(bool_decoder::too_short_text())
    } else {
        part_fault(
            buf,
            tokens_start(buf),
            part_count(frame_header_of(buf, st).0.coded.log2_parts),
        )
    }
}

/// The macroblock modes of the frame in `buf`.
#[verifier::opaque]
pub open spec fn frame_infos(buf: Seq<u8>, st: StateModel) -> Seq<InfoModel> {
    let (w, h) = frame_size(buf, st);
    let (header, d) = frame_header_of(buf, st);
    let cols = blocks_for(w);
    let rows = blocks_for(h);
    read_infos(d, header, frame_tag::is_key(buf), cols, rows, (cols * rows) as nat).0
}

/// The frame in `buf` before the loop filter.
#[verifier::opaque]
pub open spec fn frame_progress(buf: Seq<u8>, st: StateModel) -> Progress {
    let (w, h) = frame_size(buf, st);
    let header = frame_header_of(buf, st).0;
    let cols = blocks_for(w);
    let rows = blocks_for(h);
    after_macroblocks(
        FrameJob { h: header, infos: frame_infos(buf, st), cols, refs: st.refs },
        nothing_done(
            padded_parts(buf, tokens_start(buf), part_count(header.coded.log2_parts)),
            cols,
            rows,
        ),
        (cols * rows) as nat,
    )
}

/// The picture in `buf`.
pub open spec fn decoded_picture(buf: Seq<u8>, st: StateModel) -> PictureModel {
    let (w, h) = frame_size(buf, st);
    let p = frame_progress(buf, st);
    PictureModel {
        planes: filtered(
            p.planes,
            frame_header_of(buf, st).0,
            frame_infos(buf, st),
            p.coded,
            frame_tag::is_key(buf),
            blocks_for(w),
        ),
        width: w,
        height: h,
    }
}

/// The pictures to predict from after a frame that came out as `new`.
#[verifier::opaque]
pub open spec fn next_references(
    r: References,
    h: CodedHeaderModel,
    key_frame: bool,
    new: PictureModel,
) -> References {
    if key_frame {
        References { last: new, golden: new, altref: new }
    } else {
        References {
            last: if h.refresh.last == Some(true) {
                new
            } else {
                r.last
            },
            golden: if h.refresh.golden == Some(true) {
                new
            } else if h.refresh.copy_to_golden == Some(1u8) {
                r.last
            } else if h.refresh.copy_to_golden == Some(2u8) {
                r.altref
            } else {
                r.golden
            },
            altref: if h.refresh.alternate == Some(true) {
                new
            } else if h.refresh.copy_to_alternate == Some(1u8) {
                r.last
            } else if h.refresh.copy_to_alternate == Some(2u8) {
                r.golden
            } else {
                r.altref
            },
        }
    }
}

/// The probabilities after a frame that started from `base`. The filter deltas
/// are always kept, the rest where the header says so.
#[verifier::opaque]
pub open spec fn next_probs(base: ProbsModel, h: HeaderModel) -> ProbsModel {
    if h.coded.refresh.entropy {
        h.probs
    } else {
        ProbsModel {
            ref_deltas: h.probs.ref_deltas,
            mode_deltas: h.probs.mode_deltas,
            ..base
        }
    }
}

/// What a decoder keeps after the frame in `buf`.
pub open spec fn next_state(buf: Seq<u8>, st: StateModel) -> StateModel {
    let header = frame_header_of(buf, st).0;
    StateModel {
        probs: next_probs(starting_probs(buf, st), header),
        refs: next_references(
            st.refs,
            header.coded,
            frame_tag::is_key(buf),
            decoded_picture(buf, st),
        ),
    }
}

/// What a decoder keeps after a faulty frame. A key frame whose tag was read
/// has reset the probabilities.
pub open spec fn state_after_fault(buf: Seq<u8>, st: StateModel) -> StateModel {
    if frame_tag::tag_fault(buf) is None && frame_tag::is_key(buf) {
        StateModel { probs: frame_header::default_probs(), refs: st.refs }
    } else {
        st
    }
}

fn is_set(x: Option<bool>) -> (b: bool)
    ensures
        b == (x == Some(true)),
{
    match x {
        Some(b) => b,
        None => false,
    }
}

fn is_code(x: Option<u8>, n: u8) -> (b: bool)
    ensures
        b == (x == Some(n)),
{
    match x {
        Some(m) => m == n,
        None => false,
    }
}

/// Enters a new picture into the decoder's references.
fn refresh_references(state: &mut DecoderState, h: &Vp8CodedHeader, key_frame: bool, new: Picture)
    requires
        old(state).wf(),
        new.wf(),
        !key_frame ==> new.width == old(state).last.width && new.height == old(state).last.height,
    ensures
        final(state).wf(),
        final(state).probs == old(state).probs,
        final(state)@.refs == next_references(old(state)@.refs, h@, key_frame, new@),
{
    proof {
        reveal(next_references);
    }
    if key_frame {
        state.last = new.copy();
        state.golden = new.copy();
        state.altref = new;
        return;
    }
    let golden: Picture = if is_set(h.refresh_golden_frame) {
        new.copy()
    } else if is_code(h.copy_buffer_to_golden, 1) {
        state.last.copy()
    } else if is_code(h.copy_buffer_to_golden, 2) {
        state.altref.copy()
    } else {
        state.golden.copy()
    };
    let altref: Picture = if is_set(h.refresh_alternate_frame) {
        new.copy()
    } else if is_code(h.copy_buffer_to_alternate, 1) {
        state.last.copy()
    } else if is_code(h.copy_buffer_to_alternate, 2) {
        state.golden.copy()
    } else {
        state.altref.copy()
    };
    state.golden = golden;
    state.altref = altref;
    if is_set(h.refresh_last) {
        state.last = new;
    }
}

/// Keeps what a frame leaves of its probabilities.
fn keep_probs(probs: &mut PersistentProbs, h: &FrameHeader)
    ensures
        final(probs)@ == next_probs(old(probs)@, h@),
{
    proof {
        reveal(next_probs);
    }
    if h.coded.refresh_entropy_probs {
        *probs = h.probs;
    } else {
        probs.ref_deltas = h.probs.ref_deltas;
        probs.mode_deltas = h.probs.mode_deltas;
    }
}

fn partitions_for(log2: u8) -> (n: usize)
    requires
        log2 <= 3,
    ensures
        n == part_count(log2 as int),
        1 <= n <= 8,
{
    if log2 == 0 {
        1
    } else if log2 == 1 {
        2
    } else if log2 == 2 {
        4
    } else {
        8
    }
}

/// Decodes one frame and keeps what the next ones need.
pub fn decode_frame_with_state(buf: &[u8], state: &mut DecoderState) -> (r: Result<
    Vp8Frame,
    Vp8Error,
>)
    requires
        old(state).wf(),
    ensures
        final(state).wf(),
        match r {
            Ok(f) => {
                &&& decode_fault(buf@, old(state)@) is None
                &&& frame_shows(f, shown(decoded_picture(buf@, old(state)@)))
                &&& final(state)@ == next_state(buf@, old(state)@)
            },
            Err(e) => {
                &&& decode_fault(buf@, old(state)@) is Some
                &&& e.is_invalid(decode_fault(buf@, old(state)@)->0)
                &&& final(state)@ == state_after_fault(buf@, old(state)@)
            },
        },
{
    let ghost st = state@;
    let parsed: ParsedHeader = match parse_header(buf) {
        Ok(p) => p,
        Err(e) => {
            return Err(e);
        },
    };
    let (key_frame, width, height): (bool, usize, usize) = match parsed.keyframe {
        Some(k) => (true, k.width as usize, k.height as usize),
        None => {
            if state.last.is_empty() {
                return Err(
                    Vp8Error::invalid(
                        "VP8: inter-frame before any keyframe — no reference available",
                    ),
                );
            }
            (false, state.last.width, state.last.height)
        },
    };
    assert(key_frame == frame_tag::is_key(buf@));
    if key_frame {
        state.probs = PersistentProbs::defaults();
    }
    let body: &[u8] = vstd::slice::slice_subrange(buf, parsed.compressed_offset, buf.len());
    assert(body@ =~= compressed(buf@));
    let mut dec: BoolDecoder<'_> = match BoolDecoder::new(body) {
        Ok(d) => d,
        Err(e) => {
            return Err(e);
        },
    };
    let h: FrameHeader = parse_frame_header(&mut dec, key_frame, &state.probs);
    let ghost header = frame_header_of(buf@, st).0;
    assert((h@, dec@) == frame_header_of(buf@, st)) by {
        reveal(frame_header_of);
    }
    let first: usize = parsed.compressed_offset + parsed.tag.first_partition_size as usize;
    let n: usize = partitions_for(h.coded.log2_nbr_of_dct_partitions);
    let parts: Vec<Vec<u8>> = match cut_partitions(buf, first, n) {
        Ok(p) => p,
        Err(e) => {
            return Err(e);
        },
    };
    let cols: usize = (width + 15) / 16;
    let rows: usize = (height + 15) / 16;
    let infos: Vec<MbInfo> = decode_infos(&mut dec, &h, key_frame, cols, rows);
    assert(modes::info_views(infos@) == frame_infos(buf@, st)) by {
        reveal(frame_infos);
    }
    let ghost job = FrameJob {
        h: header,
        infos: frame_infos(buf@, st),
        cols: cols as int,
        refs: st.refs,
    };
    let Rebuilt { mut planes, coded } = rebuild(
        &parts,
        &h,
        &infos,
        &state.last,
        &state.golden,
        &state.altref,
        cols,
        rows,
        Ghost(job),
    );
    assert(planes@ == frame_progress(buf@, st).planes && coded@ == frame_progress(
        buf@,
        st,
    ).coded) by {
        reveal(frame_progress);
    }
    apply_loop_filter(&h, &infos, &coded, &mut planes, key_frame);
    let picture: Picture = Picture { planes, width, height };
    assert(picture@ == decoded_picture(buf@, st));
    let f: Vp8Frame = show(&picture);
    refresh_references(state, &h.coded, key_frame, picture);
    keep_probs(&mut state.probs, &h);
    Ok(f)
}

/// Decodes a frame that needs no other.
pub fn decode_vp8(buf: &[u8]) -> (r: Result<Vp8Frame, Vp8Error>)
    ensures
        match r {
            Ok(f) => decode_fault(buf@, fresh_state()) is None && frame_shows(
                f,
                shown(decoded_picture(buf@, fresh_state())),
            ),
            Err(e) => decode_fault(buf@, fresh_state()) is Some && e.is_invalid(
                decode_fault(buf@, fresh_state())->0,
            ),
        },
{
    let mut state: DecoderState = DecoderState::new();
    decode_frame_with_state(buf, &mut state)
}

proof fn lemma_key_infos_are_intra(
    d: DecState,
    h: HeaderModel,
    cols: int,
    rows: int,
    n: nat,
    k: int,
)
    requires
        0 <= k < n,
    ensures
        read_infos(d, h, true, cols, rows, n).0.len() == n,
        read_infos(d, h, true, cols, rows, n).0[k].reference is None,
    decreases n,
{
    reveal(read_infos);
    if n == 1 {
        assert(read_infos(d, h, true, cols, rows, 0).0.len() == 0);
    } else if k < n - 1 {
        lemma_key_infos_are_intra(d, h, cols, rows, (n - 1) as nat, k);
    } else {
        lemma_key_infos_are_intra(d, h, cols, rows, (n - 1) as nat, 0);
    }
    reveal(modes::read_key_info);
}

proof fn lemma_intra_needs_no_references(a: FrameJob, b: FrameJob, start: Progress, n: nat)
    requires
        a.h == b.h,
        a.infos == b.infos,
        a.cols == b.cols,
        forall|k: int| 0 <= k < n ==> (#[trigger] a.infos[k]).reference is None,
    ensures
        after_macroblocks(a, start, n) == after_macroblocks(b, start, n),
    decreases n,
{
    if n > 0 {
        lemma_intra_needs_no_references(a, b, start, (n - 1) as nat);
        reveal(after_macroblock);
        assert(a.infos[n - 1].reference is None);
    }
}

/// A key frame comes out the same whatever was decoded before it: the same
/// fault or the same picture, and the same state for the frames that follow.
pub proof fn law_key_frame_stands_alone(buf: Seq<u8>, a: StateModel, b: StateModel)
    requires
        frame_tag::is_key(buf),
    ensures
        decode_fault(buf, a) == decode_fault(buf, b),
        decoded_picture(buf, a) == decoded_picture(buf, b),
        next_state(buf, a) == next_state(buf, b),
{
    reveal(frame_header_of);
    reveal(frame_infos);
    reveal(frame_progress);
    reveal(next_references);
    let (w, h) = frame_size(buf, a);
    let (header, d) = frame_header_of(buf, a);
    let cols = blocks_for(w);
    let rows = blocks_for(h);
    let n = (cols * rows) as nat;
    let infos = frame_infos(buf, a);
    assert forall|k: int| 0 <= k < n implies (#[trigger] infos[k]).reference is None by {
        lemma_key_infos_are_intra(d, header, cols, rows, n, k);
    }
    lemma_intra_needs_no_references(
        FrameJob { h: header, infos, cols, refs: a.refs },
        FrameJob { h: header, infos, cols, refs: b.refs },
        nothing_done(
            padded_parts(buf, tokens_start(buf), part_count(header.coded.log2_parts)),
            cols,
            rows,
        ),
        n,
    );
}

/// An inter frame that comes before any key frame is refused.
pub proof fn law_inter_frame_needs_a_key_frame(buf: Seq<u8>)
    requires
        buf.len() >= 3,
        !frame_tag::is_key(buf),
    ensures
        decode_fault(buf, fresh_state()) == Some(
            "VP8: inter-frame before any keyframe — no reference available"@,
        ),
{
    let st = fresh_state();
    assert(st.refs.last == no_picture());
    assert(st.refs.last.planes == neighbors::blank_planes(0, 0));
    assert(16int * 0 * (16int * 0) == 0) by (nonlinear_arith);
    assert(st.refs.last.planes.y.len() == 0);
    assert(frame_tag::tag_fault(buf) is None);
    assert(decode_fault(buf, st) == Some(
        "VP8: inter-frame before any keyframe — no reference available"@,
    ));
}

/// What is shown has one byte for each pixel, and none between its lines.
pub proof fn law_shown_planes_are_packed(p: PictureModel)
    requires
        p.width >= 0,
        p.height >= 0,
    ensures
        shown(p).y.len() == p.width * p.height,
        shown(p).u.len() == frame::half_up(p.width) * frame::half_up(p.height),
        shown(p).v.len() == frame::half_up(p.width) * frame::half_up(p.height),
{
    reveal(shown);
    arith::lemma_mul_bound(p.width, p.height, p.width, p.height);
    let cw = frame::half_up(p.width);
    let ch = frame::half_up(p.height);
    arith::lemma_mul_bound(cw, ch, cw, ch);
}

} // verus!
