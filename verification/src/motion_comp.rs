//! Whole-pixel motion compensation.
use crate::arith;
use crate::arith::shr3;
use crate::bool_decoder;
use crate::bool_decoder::{BoolDecoder, BoolDecoderError};
use crate::frame;
use crate::mv::Mv;
use crate::pixels::clamp_coord;
use crate::range_coder;
use crate::range_coder::DecState;
use crate::reconstruct;
use crate::reconstruct::{add_chroma, add_luma, ReconstructedMb};
use vstd::prelude::*;

verus! {

/// Frame that a macroblock is predicted from.
#[derive(Debug, Clone, Copy, PartialEq, Eq, Hash, Structural)]
pub enum RefFrame {
    Last,
    Golden,
    AltRef,
}

/// The reference frame that stands in the stream at `d`, and what follows it.
pub open spec fn read_ref_frame(d: DecState, prob_last: u8, prob_gf: u8) -> (RefFrame, DecState) {
    let d1 = range_coder::dec_next(d, prob_last);
    if !range_coder::dec_bit(d, prob_last) {
        (RefFrame::Last, d1)
    } else if !range_coder::dec_bit(d1, prob_gf) {
        (RefFrame::Golden, range_coder::dec_next(d1, prob_gf))
    } else {
        (RefFrame::AltRef, range_coder::dec_next(d1, prob_gf))
    }
}

/// What comes of reading a reference frame at `d`, and where the reader then
/// stands: behind the first boolean that ran past the end, or else behind the
/// reference frame.
pub open spec fn ref_frame_outcome(d: DecState, prob_last: u8, prob_gf: u8) -> (
    Result<RefFrame, BoolDecoderError>,
    DecState,
) {
    let first = range_coder::dec_next(d, prob_last);
    let (frame, rest) = read_ref_frame(d, prob_last, prob_gf);
    if !bool_decoder::dec_inside(first) {
        (Err(BoolDecoderError::EndOfStream), first)
    } else if !bool_decoder::dec_inside(rest) {
        (Err(BoolDecoderError::EndOfStream), rest)
    } else {
        (Ok(frame), rest)
    }
}

/// Reads the reference frame of a macroblock.
pub fn select_ref_frame(dec: &mut BoolDecoder<'_>, prob_last: u8, prob_gf: u8) -> (r: Result<
    RefFrame,
    BoolDecoderError,
>)
    requires
        old(dec).wf(),
    ensures
        final(dec).wf(),
        (r, final(dec)@) == ref_frame_outcome(old(dec)@, prob_last, prob_gf),
{
    match dec.read_bool(prob_last) {
        Err(e) => Err(e),
        Ok(false) => Ok(RefFrame::Last),
        Ok(true) => match dec.read_bool(prob_gf) {
            Err(e) => Err(e),
            Ok(false) => Ok(RefFrame::Golden),
            Ok(true) => Ok(RefFrame::AltRef),
        },
    }
}

/// Planes of a reference frame, made of whole macroblocks.
#[derive(Debug, Clone, Copy)]
pub struct ReferencePlanes<'a> {
    pub y: &'a [u8],
    pub u: &'a [u8],
    pub v: &'a [u8],
    pub y_stride: usize,
    pub uv_stride: usize,
    pub mb_cols: usize,
    pub mb_rows: usize,
}

/// Why a macroblock could not be predicted.
#[derive(Debug, Clone, Copy, PartialEq, Eq, Structural)]
pub enum MotionCompError {
    /// The vector points between pixels.
    SubPixelNotSupported,
}

/// A luma vector in eighths of a pixel, cut to 16 bits.
pub open spec fn doubled(mv: Mv) -> Mv {
    Mv { row: (2 * mv.row) as i16, col: (2 * mv.col) as i16 }
}

/// Turns a luma vector from quarters into eighths of a pixel.
pub fn stored_luma_mv(mv: Mv) -> (r: Mv)
    ensures
        r == doubled(mv),
{
    Mv { row: (2 * mv.row as i32) as i16, col: (2 * mv.col as i32) as i16 }
}

/// An eighth of a sum, rounded to the nearest, halves away from zero.
pub open spec fn avg_of_sum(s: int) -> int {
    if s >= 0 {
        (s + 4) / 8
    } else {
        -((-s + 4) / 8)
    }
}

/// Average of four luma components, as a chroma component.
pub fn avg(c1: i32, c2: i32, c3: i32, c4: i32) -> (r: i32)
    requires
        -0x7fff_fffb <= c1 + c2 + c3 + c4 <= 0x7fff_fffb,
        i32::MIN <= c1 + c2 <= i32::MAX,
        i32::MIN <= c1 + c2 + c3 <= i32::MAX,
    ensures
        r == avg_of_sum(c1 + c2 + c3 + c4),
{
    let s: i32 = c1 + c2 + c3 + c4;
    if s >= 0 {
        shr3(s + 4)
    } else {
        -shr3(-s + 4)
    }
}

/// Chroma vector of a macroblock whose luma vectors are all `mv`.
pub open spec fn chroma_of(mv: Mv) -> Mv {
    Mv { row: avg_of_sum(4 * mv.row) as i16, col: avg_of_sum(4 * mv.col) as i16 }
}

/// Chroma vector of a macroblock with one luma vector.
pub fn chroma_mv(luma_mv: Mv) -> (r: Mv)
    ensures
        r == chroma_of(luma_mv),
{
    let row: i32 = luma_mv.row as i32;
    let col: i32 = luma_mv.col as i32;
    Mv { row: avg(row, row, row, row) as i16, col: avg(col, col, col, col) as i16 }
}

/// The average of four equal components is half of one, rounded away
/// from zero.
pub proof fn law_chroma_is_half(c: int)
    ensures
        avg_of_sum(4 * c) == if c >= 0 {
            (c + 1) / 2
        } else {
            -((-c + 1) / 2)
        },
{
}

/// `x` without its fraction of a pixel.
pub open spec fn whole_part(x: int) -> int {
    8 * (x / 8)
}

pub open spec fn full_pixel_of(mv: Mv) -> Mv {
    Mv { row: whole_part(mv.row as int) as i16, col: whole_part(mv.col as int) as i16 }
}

fn floor8(x: i16) -> (r: i16)
    ensures
        r == whole_part(x as int),
{
    (8 * shr3(x as i32)) as i16
}

/// Drops the fractions of a vector.
pub fn apply_full_pixel(mv: Mv) -> (r: Mv)
    ensures
        r == full_pixel_of(mv),
        r.row == whole_part(mv.row as int),
        r.col == whole_part(mv.col as int),
{
    Mv { row: floor8(mv.row), col: floor8(mv.col) }
}

pub open spec fn is_whole(mv: Mv) -> bool {
    mv.row as int % 8 == 0 && mv.col as int % 8 == 0
}

/// Whether a vector has no fractions.
pub fn whole_pixel_fraction_is_zero(mv: Mv) -> (b: bool)
    ensures
        b == is_whole(mv),
{
    floor8(mv.row) == mv.row && floor8(mv.col) == mv.col
}

/// Dropping the fractions leaves a vector without fractions, and
/// leaves such a vector alone.
pub proof fn law_full_pixel_is_whole(mv: Mv)
    ensures
        is_whole(full_pixel_of(mv)),
        is_whole(mv) ==> full_pixel_of(mv) == mv,
{
}

/// The pixel at `(x, y)` displaced by `mv`, from the nearest one inside.
pub open spec fn fetched(
    plane: Seq<u8>,
    stride: int,
    w: int,
    h: int,
    x: int,
    y: int,
    mv: Mv,
) -> u8 {
    plane[arith::clamp_int(y + mv.row as int / 8, 0, h - 1) * stride + arith::clamp_int(
        x + mv.col as int / 8,
        0,
        w - 1,
    )]
}

/// A plane of `w` by `h` pixels lies inside the data.
pub open spec fn plane_inside(plane: Seq<u8>, stride: int, w: int, h: int) -> bool {
    w >= 1 && h >= 1 && (h - 1) * stride + w <= plane.len()
}

fn fetch_pixel(
    plane: &[u8],
    stride: usize,
    w: usize,
    h: usize,
    x: usize,
    y: usize,
    dx: i32,
    dy: i32,
    mv: Mv,
) -> (p: u8)
    requires
        plane_inside(plane@, stride as int, w as int, h as int),
        dx == mv.col as int / 8,
        dy == mv.row as int / 8,
    ensures
        p == fetched(plane@, stride as int, w as int, h as int, x as int, y as int, mv),
{
    let len: usize = plane.len();
    let sy: usize = clamp_coord(y, dy, h);
    let sx: usize = clamp_coord(x, dx, w);
    assert(0 <= sy * stride <= (h - 1) * stride) by (nonlinear_arith)
        requires
            0 <= sy <= h - 1,
            stride >= 0,
    ;
    plane[sy * stride + sx]
}

/// Fetches the 4x4 block at `(blk_x, blk_y)`, displaced by the whole pixels
/// of `mv`.
pub fn fetch_block_whole_pixel(
    plane: &[u8],
    stride: usize,
    w: usize,
    h: usize,
    blk_x: usize,
    blk_y: usize,
    mv: Mv,
) -> (b: [u8; 16])
    requires
        plane_inside(plane@, stride as int, w as int, h as int),
        blk_x + 3 <= usize::MAX,
        blk_y + 3 <= usize::MAX,
    ensures
        forall|k: int|
            0 <= k < 16 ==> #[trigger] b[k] == fetched(
                plane@,
                stride as int,
                w as int,
                h as int,
                blk_x + k % 4,
                blk_y + k / 4,
                mv,
            ),
{
    let dx: i32 = shr3(mv.col as i32);
    let dy: i32 = shr3(mv.row as i32);
    let mut b: [u8; 16] = [0u8; 16];
    let mut k: usize = 0;
    while k < 16
        invariant
            k <= 16,
            plane_inside(plane@, stride as int, w as int, h as int),
            blk_x + 3 <= usize::MAX,
            blk_y + 3 <= usize::MAX,
            dx == mv.col as int / 8,
            dy == mv.row as int / 8,
            forall|j: int|
                0 <= j < k ==> #[trigger] b[j] == fetched(
                    plane@,
                    stride as int,
                    w as int,
                    h as int,
                    blk_x + j % 4,
                    blk_y + j / 4,
                    mv,
                ),
        decreases 16 - k,
    {
        b[k] = fetch_pixel(plane, stride, w, h, blk_x + k % 4, blk_y + k / 4, dx, dy, mv);
        k = k + 1;
    }
    b
}

/// Fetches a block of `size` by `size` pixels.
fn fetch_square(
    plane: &[u8],
    stride: usize,
    w: usize,
    h: usize,
    x0: usize,
    y0: usize,
    mv: Mv,
    size: usize,
    out: &mut [u8],
)
    requires
        plane_inside(plane@, stride as int, w as int, h as int),
        size == 8 || size == 16,
        old(out)@.len() == size * size,
        x0 + size <= usize::MAX,
        y0 + size <= usize::MAX,
    ensures
        final(out)@ == fetched_square(
            plane@,
            stride as int,
            w as int,
            h as int,
            x0 as int,
            y0 as int,
            mv,
            size as int,
        ),
{
    let dx: i32 = shr3(mv.col as i32);
    let dy: i32 = shr3(mv.row as i32);
    let n: usize = out.len();
    let mut k: usize = 0;
    while k < n
        invariant
            k <= n,
            n == out@.len(),
            n == size * size,
            size == 8 || size == 16,
            plane_inside(plane@, stride as int, w as int, h as int),
            x0 + size <= usize::MAX,
            y0 + size <= usize::MAX,
            dx == mv.col as int / 8,
            dy == mv.row as int / 8,
            forall|j: int|
                0 <= j < k ==> #[trigger] out@[j] == fetched(
                    plane@,
                    stride as int,
                    w as int,
                    h as int,
                    x0 + j % (size as int),
                    y0 + j / (size as int),
                    mv,
                ),
        decreases n - k,
    {
        assert(k / size < size) by (nonlinear_arith)
            requires
                k < size * size,
                size == 8 || size == 16,
        ;
        out[k] = fetch_pixel(plane, stride, w, h, x0 + k % size, y0 + k / size, dx, dy, mv);
        k = k + 1;
    }
    assert(out@ =~= fetched_square(
        plane@,
        stride as int,
        w as int,
        h as int,
        x0 as int,
        y0 as int,
        mv,
        size as int,
    ));
}

/// The pixels of a displaced block of `size` by `size`.
pub open spec fn fetched_square(
    plane: Seq<u8>,
    stride: int,
    w: int,
    h: int,
    x0: int,
    y0: int,
    mv: Mv,
    size: int,
) -> Seq<u8> {
    Seq::new(
        (size * size) as nat,
        |k: int| fetched(plane, stride, w, h, x0 + k % size, y0 + k / size, mv),
    )
}

/// Luma vector that a macroblock is predicted with.
pub open spec fn y_vector(luma_mv: Mv, full_pixel: bool) -> Mv {
    if full_pixel {
        full_pixel_of(doubled(luma_mv))
    } else {
        doubled(luma_mv)
    }
}

/// Chroma vector that a macroblock is predicted with.
pub open spec fn uv_vector(luma_mv: Mv, full_pixel: bool) -> Mv {
    if full_pixel {
        full_pixel_of(chroma_of(doubled(luma_mv)))
    } else {
        chroma_of(doubled(luma_mv))
    }
}

/// Neither vector of a macroblock points between pixels.
pub open spec fn vectors_whole(luma_mv: Mv, full_pixel: bool) -> bool {
    is_whole(y_vector(luma_mv, full_pixel)) && is_whole(uv_vector(luma_mv, full_pixel))
}

impl<'a> ReferencePlanes<'a> {
    /// The planes hold the macroblocks that the fields announce.
    pub open spec fn inside(self) -> bool {
        &&& 16 * self.mb_cols <= usize::MAX
        &&& 16 * self.mb_rows <= usize::MAX
        &&& plane_inside(self.y@, self.y_stride as int, 16 * self.mb_cols, 16 * self.mb_rows)
        &&& plane_inside(self.u@, self.uv_stride as int, 8 * self.mb_cols, 8 * self.mb_rows)
        &&& plane_inside(self.v@, self.uv_stride as int, 8 * self.mb_cols, 8 * self.mb_rows)
    }
}

/// Pixels of the luma and the chroma planes of a predicted macroblock.
pub open spec fn predicted_y(r: ReferencePlanes, col: int, row: int, mv: Mv) -> Seq<u8> {
    fetched_square(
        r.y@,
        r.y_stride as int,
        16 * r.mb_cols,
        16 * r.mb_rows,
        16 * col,
        16 * row,
        mv,
        16,
    )
}

pub open spec fn predicted_uv(
    plane: Seq<u8>,
    r: ReferencePlanes,
    col: int,
    row: int,
    mv: Mv,
) -> Seq<u8> {
    fetched_square(
        plane,
        r.uv_stride as int,
        8 * r.mb_cols,
        8 * r.mb_rows,
        8 * col,
        8 * row,
        mv,
        8,
    )
}

/// Predicts a macroblock with one whole-pixel vector.
pub fn predict_inter_mb_whole_pixel(
    reference: &ReferencePlanes<'_>,
    mb_col: usize,
    mb_row: usize,
    luma_mv: Mv,
    full_pixel: bool,
) -> (r: Result<ReconstructedMb, MotionCompError>)
    requires
        vectors_whole(luma_mv, full_pixel) ==> reference.inside() && 16 * mb_col + 16 <= usize::MAX
            && 16 * mb_row + 16 <= usize::MAX,
    ensures
        match r {
            Ok(m) => {
                &&& vectors_whole(luma_mv, full_pixel)
                &&& m.y@ == predicted_y(
                    *reference,
                    mb_col as int,
                    mb_row as int,
                    y_vector(luma_mv, full_pixel),
                )
                &&& m.u@ == predicted_uv(
                    reference.u@,
                    *reference,
                    mb_col as int,
                    mb_row as int,
                    uv_vector(luma_mv, full_pixel),
                )
                &&& m.v@ == predicted_uv(
                    reference.v@,
                    *reference,
                    mb_col as int,
                    mb_row as int,
                    uv_vector(luma_mv, full_pixel),
                )
            },
            Err(e) => !vectors_whole(luma_mv, full_pixel) && e
                == MotionCompError::SubPixelNotSupported,
        },
{
    let mut ymv: Mv = stored_luma_mv(luma_mv);
    let mut uvmv: Mv = chroma_mv(ymv);
    if full_pixel {
        ymv = apply_full_pixel(ymv);
        uvmv = apply_full_pixel(uvmv);
    }
    if !whole_pixel_fraction_is_zero(ymv) || !whole_pixel_fraction_is_zero(uvmv) {
        return Err(MotionCompError::SubPixelNotSupported);
    }
    let lw: usize = 16 * reference.mb_cols;
    let lh: usize = 16 * reference.mb_rows;
    let cw: usize = 8 * reference.mb_cols;
    let ch: usize = 8 * reference.mb_rows;
    let mut out: ReconstructedMb = ReconstructedMb::default();
    fetch_square(
        reference.y,
        reference.y_stride,
        lw,
        lh,
        16 * mb_col,
        16 * mb_row,
        ymv,
        16,
        &mut out.y,
    );
    fetch_square(
        reference.u,
        reference.uv_stride,
        cw,
        ch,
        8 * mb_col,
        8 * mb_row,
        uvmv,
        8,
        &mut out.u,
    );
    fetch_square(
        reference.v,
        reference.uv_stride,
        cw,
        ch,
        8 * mb_col,
        8 * mb_row,
        uvmv,
        8,
        &mut out.v,
    );
    Ok(out)
}

/// Reconstructs a macroblock that is predicted with one whole-pixel vector.
pub fn reconstruct_inter_mb_whole_pixel(
    reference: &ReferencePlanes<'_>,
    mb_col: usize,
    mb_row: usize,
    luma_mv: Mv,
    full_pixel: bool,
    mb_skip_coeff: bool,
    y2_coeffs_dequant: &[i16; 16],
    y_coeffs_dequant: &[[i16; 16]; 16],
    u_coeffs_dequant: &[[i16; 16]; 4],
    v_coeffs_dequant: &[[i16; 16]; 4],
) -> (r: Result<ReconstructedMb, MotionCompError>)
    requires
        vectors_whole(luma_mv, full_pixel) ==> reference.inside() && 16 * mb_col + 16 <= usize::MAX
            && 16 * mb_row + 16 <= usize::MAX,
    ensures
        match r {
            Ok(m) => {
                let py = predicted_y(
                    *reference,
                    mb_col as int,
                    mb_row as int,
                    y_vector(luma_mv, full_pixel),
                );
                let uv = uv_vector(luma_mv, full_pixel);
                let pu = predicted_uv(reference.u@, *reference, mb_col as int, mb_row as int, uv);
                let pv = predicted_uv(reference.v@, *reference, mb_col as int, mb_row as int, uv);
                &&& vectors_whole(luma_mv, full_pixel)
                &&& m.y@ == if mb_skip_coeff {
                    py
                } else {
                    reconstruct::with_residues(
                        py,
                        4,
                        reconstruct::luma_residues(
                            true,
                            y2_coeffs_dequant@,
                            frame::block_views(y_coeffs_dequant@),
                        ),
                        16,
                    )
                }
                &&& m.u@ == if mb_skip_coeff {
                    pu
                } else {
                    reconstruct::with_residues(
                        pu,
                        2,
                        reconstruct::chroma_residues(frame::block_views(u_coeffs_dequant@)),
                        4,
                    )
                }
                &&& m.v@ == if mb_skip_coeff {
                    pv
                } else {
                    reconstruct::with_residues(
                        pv,
                        2,
                        reconstruct::chroma_residues(frame::block_views(v_coeffs_dequant@)),
                        4,
                    )
                }
            },
            Err(e) => !vectors_whole(luma_mv, full_pixel) && e
                == MotionCompError::SubPixelNotSupported,
        },
{
    let mut out: ReconstructedMb = match predict_inter_mb_whole_pixel(
        reference,
        mb_col,
        mb_row,
        luma_mv,
        full_pixel,
    ) {
        Ok(m) => m,
        Err(e) => {
            return Err(e);
        },
    };
    if mb_skip_coeff {
        return Ok(out);
    }
    add_luma(&mut out.y, true, y2_coeffs_dequant, y_coeffs_dequant);
    add_chroma(&mut out.u, u_coeffs_dequant);
    add_chroma(&mut out.v, v_coeffs_dequant);
    Ok(out)
}

} // verus!
