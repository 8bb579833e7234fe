//! Key-frame encoder.
//!
//! The macroblocks are walked in raster order. Each is predicted from what a
//! decoder will have rebuilt by then, so that the encoder ends with the planes
//! that a decoder ends with.
use crate::arith;
use crate::decoder;
use crate::encode_error;
use crate::encode_error::{EncodeError, TokenEncodeError};
use crate::encoder;
use crate::encoder::{assemble_frame, write_key_header, BoolEncoder, HeaderFields};
use crate::frame;
use crate::frame::{CoeffModel, KeyframePlanes, MbCoeffs, PlanesModel};
use crate::frame_header;
use crate::frame_header::PersistentProbs;
use crate::i420;
use crate::i420::{I420Frame, MbPixels};
use crate::loop_filter;
use crate::loop_filter::{filter_frame, FilterPlan, FrameFilterConfig};
use crate::macroblock::{IntraBmode, IntraYMode, MacroblockModes};
use crate::mb_tokens;
use crate::mb_tokens::{clear_skip_ctx, MbEntropyCtx};
use crate::mode_picker;
use crate::mode_picker::{encode_mb_block_set_with_neighbors, Candidate, Decisions, EncodedMb, Task};
use crate::mode_writer;
use crate::mode_writer::write_mode_layer;
use crate::modes;
use crate::modes::InfoModel;
use crate::neighbors;
use crate::neighbors::{gather_neighbors, write_mb};
use crate::quant;
use crate::quant::MbDequantFactors;
use crate::range_coder;
use crate::reach_law;
use crate::reconstruct;
use crate::reconstruct::{
    decode_keyframe_mb_bpred, decode_keyframe_mb_non_bpred, MbNeighbors, ReconstructedMb,
};
use crate::tables::CoeffProbs;
use crate::token_encoder;
use crate::token_encoder::encode_mb_tokens;
use crate::tokens;
use vstd::prelude::*;

verus! {

/// Probability that a macroblock has residue, as the encoder writes it.
pub const PROB_SKIP_FALSE: u8 = 128;

/// Parameters of a key frame.
#[derive(Debug, Clone, Copy, PartialEq, Eq, Structural)]
pub struct KeyframeParams {
    /// Quantizer index, at most 127.
    pub y_ac_qi: u8,
    /// Filter level, at most 63; at zero nothing is filtered.
    pub loop_filter_level: u8,
    /// Filter sharpness, at most 7.
    pub sharpness_level: u8,
    /// Number of token partitions: 1, 2, 4 or 8.
    pub nbr_of_dct_partitions: u8,
}

impl Default for KeyframeParams {
    fn default() -> (p: Self)
        ensures
            p == (KeyframeParams {
                y_ac_qi: 32,
                loop_filter_level: 0,
                sharpness_level: 0,
                nbr_of_dct_partitions: 1,
            }),
    {
        KeyframeParams {
            y_ac_qi: 32,
            loop_filter_level: 0,
            sharpness_level: 0,
            nbr_of_dct_partitions: 1,
        }
    }
}

impl KeyframeParams {
    /// What the header says.
    pub open spec fn fields(self) -> HeaderFields {
        HeaderFields {
            level: self.loop_filter_level as int,
            sharpness: self.sharpness_level as int,
            count: self.nbr_of_dct_partitions as int,
            y_ac_qi: self.y_ac_qi as int,
            prob_skip_false: PROB_SKIP_FALSE as int,
        }
    }
}

/// What is wrong with a size and with the parameters, if anything.
pub open spec fn params_fault(width: u32, height: u32, p: KeyframeParams) -> Option<EncodeError> {
    if !encode_error::valid_dims(width as int, height as int) {
        Some(EncodeError::InvalidDimensions { width, height })
    } else if p.y_ac_qi > 127 {
        Some(EncodeError::QuantIndexOutOfRange { value: p.y_ac_qi })
    } else if p.loop_filter_level > 63 {
        Some(EncodeError::LoopFilterLevelOutOfRange { value: p.loop_filter_level })
    } else if p.sharpness_level > 7 {
        Some(EncodeError::SharpnessLevelOutOfRange { value: p.sharpness_level })
    } else if !encoder::valid_count(p.nbr_of_dct_partitions as int) {
        Some(EncodeError::InvalidDctPartitionCount { value: p.nbr_of_dct_partitions })
    } else {
        None
    }
}

fn check_params(width: u32, height: u32, p: &KeyframeParams) -> (r: Result<(), EncodeError>)
    ensures
        match r {
            Ok(_) => params_fault(width, height, *p) is None,
            Err(e) => params_fault(width, height, *p) == Some(e),
        },
{
    if width == 0 || width > 0x3FFF || height == 0 || height > 0x3FFF {
        return Err(EncodeError::InvalidDimensions { width, height });
    }
    if p.y_ac_qi > 127 {
        return Err(EncodeError::QuantIndexOutOfRange { value: p.y_ac_qi });
    }
    if p.loop_filter_level > 63 {
        return Err(EncodeError::LoopFilterLevelOutOfRange { value: p.loop_filter_level });
    }
    if p.sharpness_level > 7 {
        return Err(EncodeError::SharpnessLevelOutOfRange { value: p.sharpness_level });
    }
    let n: u8 = p.nbr_of_dct_partitions;
    if n != 1 && n != 2 && n != 4 && n != 8 {
        return Err(EncodeError::InvalidDctPartitionCount { value: n });
    }
    Ok(())
}

/// The pixels of macroblock (`row`, `col`) of a picture.
pub open spec fn source_mb(f: I420Frame, row: int, col: int) -> PlanesModel {
    PlanesModel {
        y: Seq::new(
            256,
            |j: int|
                i420::pel_at(
                    f.y@,
                    f.y_stride as int,
                    f.width as int,
                    f.height as int,
                    16 * col + j % 16,
                    16 * row + j / 16,
                ),
        ),
        u: Seq::new(
            64,
            |j: int|
                i420::pel_at(
                    f.u@,
                    f.uv_stride as int,
                    f.chroma_w(),
                    f.chroma_h(),
                    8 * col + j % 8,
                    8 * row + j / 8,
                ),
        ),
        v: Seq::new(
            64,
            |j: int|
                i420::pel_at(
                    f.v@,
                    f.uv_stride as int,
                    f.chroma_w(),
                    f.chroma_h(),
                    8 * col + j % 8,
                    8 * row + j / 8,
                ),
        ),
    }
}

proof fn lemma_extracted(f: I420Frame, row: int, col: int, p: MbPixels)
    requires
        i420::extracted(f, row, col, p),
    ensures
        mode_picker::pixel_planes(p) == source_mb(f, row, col),
{
    let s = source_mb(f, row, col);
    assert(p.y@ =~= s.y);
    assert(p.u@ =~= s.u);
    assert(p.v@ =~= s.v);
}

/// Macroblocks across a picture.
pub open spec fn cols_of(f: I420Frame) -> int {
    decoder::blocks_for(f.width as int)
}

/// Macroblocks down a picture.
pub open spec fn rows_of(f: I420Frame) -> int {
    decoder::blocks_for(f.height as int)
}

/// What the choice for macroblock `k` is made from, beside what is rebuilt in
/// `planes`.
#[verifier::opaque]
pub open spec fn mb_task(f: I420Frame, qi: int, planes: PlanesModel, k: int) -> Task {
    let cols = cols_of(f);
    Task {
        pixels: source_mb(f, k / cols, k % cols),
        around: neighbors::around_mb(planes, 16 * cols, 8 * cols, cols, k / cols, k % cols),
        f: quant::factors_of(qi, quant::no_deltas()),
        probs: frame_header::default_probs().coef,
    }
}

/// The macroblock has no residue.
#[verifier::opaque]
pub open spec fn without_residue(c: CoeffModel, probs: Seq<u8>, has_y2: bool) -> bool {
    mb_tokens::write_mb(
        c,
        probs,
        has_y2,
        mb_tokens::clear_ctx(),
        mb_tokens::clear_ctx(),
    ).count == 0
}

/// How a macroblock is predicted once the choice is `d`.
pub open spec fn coded_info(t: Task, d: Decisions) -> InfoModel {
    modes::intra_info(
        without_residue(mode_picker::decided_coeffs(t, d), t.probs, !d.own),
        0,
        mode_picker::decided_y_mode(d),
        if d.own {
            d.modes
        } else {
            modes::uniform_bmodes(d.whole)
        },
        d.uv,
    )
}

/// What a decoder makes of a macroblock.
pub open spec fn rebuilt_mb(t: Task, info: InfoModel, c: CoeffModel) -> PlanesModel {
    reconstruct::intra_macroblock(
        t.around,
        info.y_mode,
        info.bmodes,
        info.uv_mode,
        reconstruct::unless_skipped(info.skip, quant::dequantized_mb(c, t.f)),
    )
}

/// A picture as far as it is encoded.
pub struct Walk {
    pub planes: PlanesModel,
    pub infos: Seq<InfoModel>,
    pub coeffs: Seq<CoeffModel>,
}

/// The picture after one more macroblock.
#[verifier::opaque]
pub open spec fn after_mb(f: I420Frame, qi: int, w: Walk, d: Decisions) -> Walk {
    let cols = cols_of(f);
    let k = w.infos.len() as int;
    let t = mb_task(f, qi, w.planes, k);
    let info = coded_info(t, d);
    let c = mode_picker::decided_coeffs(t, d);
    Walk {
        planes: neighbors::with_mb(
            w.planes,
            16 * cols,
            8 * cols,
            k / cols,
            k % cols,
            rebuilt_mb(t, info, c),
        ),
        infos: w.infos.push(info),
        coeffs: w.coeffs.push(c),
    }
}

/// The picture after the macroblocks that the choices `ds` were made for.
pub open spec fn walk(f: I420Frame, qi: int, ds: Seq<Decisions>) -> Walk
    decreases ds.len(),
{
    if ds.len() == 0 {
        Walk {
            planes: neighbors::blank_planes(cols_of(f), rows_of(f)),
            infos: Seq::empty(),
            coeffs: Seq::empty(),
        }
    } else {
        after_mb(f, qi, walk(f, qi, ds.drop_last()), ds.last())
    }
}

/// What the next choice is made from.
pub open spec fn next_task(f: I420Frame, qi: int, ds: Seq<Decisions>) -> Task {
    mb_task(f, qi, walk(f, qi, ds).planes, ds.len() as int)
}

/// `judge` made the choices `ds` one after another.
pub open spec fn all_decided<F: Fn(&Vec<Vec<Candidate>>) -> usize>(
    judge: F,
    f: I420Frame,
    qi: int,
    ds: Seq<Decisions>,
) -> bool
    decreases ds.len(),
{
    ds.len() == 0 || {
        let before = ds.drop_last();
        let t = next_task(f, qi, before);
        &&& all_decided(judge, f, qi, before)
        &&& mode_picker::decided(judge, t, ds.last())
    }
}

/// Coefficients as models.
pub open spec fn coeff_views(s: Seq<MbCoeffs>) -> Seq<CoeffModel> {
    Seq::new(s.len(), |k: int| s[k]@)
}

/// The macroblocks of a picture, encoded.
struct Walked {
    planes: KeyframePlanes,
    modes: Vec<MacroblockModes>,
    coeffs: Vec<MbCoeffs>,
    ds: Ghost<Seq<Decisions>>,
}

impl Walked {
    /// All of this is what the choices lead to.
    #[verifier::opaque]
    spec fn follows(&self, f: I420Frame, qi: int) -> bool {
        let w = walk(f, qi, self.ds@);
        &&& self.planes.wf()
        &&& self.planes.mb_cols == cols_of(f)
        &&& self.planes.mb_rows == rows_of(f)
        &&& self.planes@ == w.planes
        &&& mode_writer::infos_of(self.modes@) == w.infos
        &&& coeff_views(self.coeffs@) == w.coeffs
        &&& self.modes@.len() == self.ds@.len()
        &&& self.coeffs@.len() == self.ds@.len()
        &&& forall|k: int|
            0 <= k < self.modes@.len() ==> {
                &&& ((#[trigger] self.modes@[k]).y_mode == IntraYMode::B) == (
                self.modes@[k].subblock_modes is Some)
                &&& self.modes@[k].segment_id is None
            }
    }
}

/// Rebuilds a macroblock as a decoder does.
fn rebuild_mb(m: &EncodedMb, skip: bool, n: &MbNeighbors, f: &MbDequantFactors) -> (r:
    ReconstructedMb)
    requires
        (m.y_mode == IntraYMode::B) == (m.b_subblock_modes is Some),
    ensures
        forall|b_modes: Seq<IntraBmode>|
            (m.b_subblock_modes matches Some(s) ==> b_modes == s@) ==> r@
                == #[trigger] reconstruct::intra_macroblock(
                n@,
                m.y_mode,
                b_modes,
                m.uv_mode,
                reconstruct::unless_skipped(skip, quant::dequantized_mb(m.coeffs@, *f)),
            ),
{
    let mut dq: MbCoeffs = m.coeffs;
    f.dequantize(&mut dq);
    match &m.b_subblock_modes {
        Some(s) => decode_keyframe_mb_bpred(s, m.uv_mode, skip, n, &dq),
        None => decode_keyframe_mb_non_bpred(m.y_mode, m.uv_mode, skip, n, &dq),
    }
}

proof fn lemma_walk_push(f: I420Frame, qi: int, ds: Seq<Decisions>, d: Decisions)
    ensures
        walk(f, qi, ds.push(d)) == after_mb(f, qi, walk(f, qi, ds), d),
{
    assert(ds.push(d).drop_last() =~= ds);
}

/// A walk has as many macroblocks as choices.
pub proof fn lemma_walk_len(f: I420Frame, qi: int, ds: Seq<Decisions>)
    ensures
        walk(f, qi, ds).infos.len() == ds.len(),
        walk(f, qi, ds).coeffs.len() == ds.len(),
    decreases ds.len(),
{
    if ds.len() > 0 {
        lemma_walk_len(f, qi, ds.drop_last());
        reveal(after_mb);
    }
}

/// Lets `judge` choose for macroblock (`row`, `col`), the next one.
fn choose_next<F: Fn(&Vec<Vec<Candidate>>) -> usize>(
    frame: &I420Frame<'_>,
    qi: u8,
    probs: &CoeffProbs,
    judge: &F,
    row: usize,
    col: usize,
    neighbors: &MbNeighbors,
    Ghost(t): Ghost<Task>,
) -> (r: Result<EncodedMb, TokenEncodeError>)
    requires
        mode_picker::answers(*judge),
        frame.inside(),
        row < 0x400,
        col < 0x400,
        t.pixels == source_mb(*frame, row as int, col as int),
        t.around == neighbors@,
        t.f == quant::factors_of(qi as int, quant::no_deltas()),
        t.probs == tokens::flat_probs(*probs),
    ensures
        r matches Ok(m) && exists|d: Decisions| #[trigger]
            mode_picker::decided(*judge, t, d) && m.follows(t, d),
{
    let pixels: MbPixels = frame.extract_mb(row, col);
    proof {
        lemma_extracted(*frame, row as int, col as int, pixels);
        assert(mode_picker::task_of(pixels, *neighbors, qi as int, *probs) == t);
    }
    encode_mb_block_set_with_neighbors(&pixels, neighbors, qi, probs, judge)
}

/// What the macroblock is like that the choice `d` leads to.
proof fn lemma_coded_info(m: EncodedMb, t: Task, d: Decisions, modes: MacroblockModes)
    requires
        m.follows(t, d),
        modes == (MacroblockModes {
            segment_id: None,
            mb_skip_coeff: m.nonzero_block_count == 0,
            y_mode: m.y_mode,
            subblock_modes: m.b_subblock_modes,
            uv_mode: m.uv_mode,
        }),
        d.own || d.whole != IntraYMode::B,
    ensures
        mode_writer::info_of(modes) == coded_info(t, d),
        m.coeffs@ == mode_picker::decided_coeffs(t, d),
        (m.y_mode == IntraYMode::B) == (m.b_subblock_modes is Some),
        m.b_subblock_modes matches Some(s) ==> s@ == coded_info(t, d).bmodes,
        m.y_mode == coded_info(t, d).y_mode,
        m.uv_mode == coded_info(t, d).uv_mode,
        (m.nonzero_block_count == 0) == coded_info(t, d).skip,
        token_encoder::coeffs_fault(mode_picker::decided_coeffs(t, d), !d.own) is None,
{
    reveal(EncodedMb::follows);
    reveal(without_residue);
}

/// Enters macroblock (`row`, `col`), the next one.
fn enter_next(
    m: &EncodedMb,
    neighbors: &MbNeighbors,
    factors: &MbDequantFactors,
    row: usize,
    col: usize,
    w: &mut Walked,
    Ghost(f): Ghost<I420Frame<'_>>,
    Ghost(qi): Ghost<int>,
    Ghost(d): Ghost<Decisions>,
)
    requires
        old(w).follows(f, qi),
        row < rows_of(f),
        col < cols_of(f),
        row == old(w).ds@.len() as int / cols_of(f),
        col == old(w).ds@.len() as int % cols_of(f),
        next_task(f, qi, old(w).ds@).around == neighbors@,
        next_task(f, qi, old(w).ds@).f == *factors,
        m.follows(next_task(f, qi, old(w).ds@), d),
        d.own || d.whole != IntraYMode::B,
    ensures
        final(w).follows(f, qi),
        final(w).ds@ == old(w).ds@.push(d),
{
    let ghost ds = w.ds@;
    let ghost t = next_task(f, qi, ds);
    proof {
        reveal(Walked::follows);
    }
    let skip: bool = m.nonzero_block_count == 0;
    let modes: MacroblockModes = MacroblockModes {
        segment_id: None,
        mb_skip_coeff: skip,
        y_mode: m.y_mode,
        subblock_modes: m.b_subblock_modes,
        uv_mode: m.uv_mode,
    };
    let ghost info = coded_info(t, d);
    proof {
        lemma_coded_info(*m, t, d, modes);
    }
    let recon: ReconstructedMb = rebuild_mb(m, skip, neighbors, factors);
    assert(recon@ == rebuilt_mb(t, info, m.coeffs@));
    let ghost before = *w;
    write_mb(&mut w.planes, row, col, &recon);
    w.modes.push(modes);
    w.coeffs.push(m.coeffs);
    w.ds = Ghost(ds.push(d));
    proof {
        lemma_walk_len(f, qi, ds);
        lemma_walk_push(f, qi, ds, d);
        reveal(after_mb);
        assert(mode_writer::infos_of(w.modes@) =~= mode_writer::infos_of(before.modes@).push(info));
        assert(coeff_views(w.coeffs@) =~= coeff_views(before.coeffs@).push(m.coeffs@));
    }
}

/// Encodes macroblock (`row`, `col`), the next one.
fn encode_next<F: Fn(&Vec<Vec<Candidate>>) -> usize>(
    frame: &I420Frame<'_>,
    qi: u8,
    probs: &CoeffProbs,
    factors: &MbDequantFactors,
    judge: &F,
    row: usize,
    col: usize,
    w: &mut Walked,
) -> (r: Result<(), TokenEncodeError>)
    requires
        mode_picker::answers(*judge),
        frame.inside(),
        encode_error::valid_dims(frame.width as int, frame.height as int),
        old(w).follows(*frame, qi as int),
        all_decided(*judge, *frame, qi as int, old(w).ds@),
        row < rows_of(*frame),
        col < cols_of(*frame),
        row == old(w).ds@.len() as int / cols_of(*frame),
        col == old(w).ds@.len() as int % cols_of(*frame),
        old(w).ds@.len() < cols_of(*frame) * rows_of(*frame),
        *factors == quant::factors_of(qi as int, quant::no_deltas()),
        tokens::flat_probs(*probs) == frame_header::default_probs().coef,
    ensures
        r is Ok,
        final(w).follows(*frame, qi as int),
        all_decided(*judge, *frame, qi as int, final(w).ds@),
        final(w).ds@.len() == old(w).ds@.len() + 1,
{
    let ghost f = *frame;
    let ghost q = qi as int;
    let ghost ds = w.ds@;
    let ghost t = next_task(f, q, ds);
    proof {
        reveal(Walked::follows);
    }
    let neighbors: MbNeighbors = gather_neighbors(&w.planes, row, col);
    proof {
        reveal(mb_task);
    }
    match choose_next(frame, qi, probs, judge, row, col, &neighbors, Ghost(t)) {
        Ok(m) => {
            let ghost d = choose|d: Decisions| #[trigger]
                mode_picker::decided(*judge, t, d) && m.follows(t, d);
            proof {
                mode_picker::lemma_decided(*judge, t, d);
                assert(ds.push(d).drop_last() =~= ds);
                assert(all_decided(*judge, f, q, ds.push(d)));
            }
            enter_next(
                &m,
                &neighbors,
                factors,
                row,
                col,
                w,
                Ghost(f),
                Ghost(q),
                Ghost(d),
            );
            Ok(())
        },
        Err(e) => Err(e),
    }
}

/// Encodes the macroblocks of a picture.
fn encode_macroblocks<F: Fn(&Vec<Vec<Candidate>>) -> usize>(
    frame: &I420Frame<'_>,
    qi: u8,
    probs: &CoeffProbs,
    judge: &F,
) -> (r: Result<Walked, TokenEncodeError>)
    requires
        mode_picker::answers(*judge),
        frame.inside(),
        encode_error::valid_dims(frame.width as int, frame.height as int),
        tokens::flat_probs(*probs) == frame_header::default_probs().coef,
    ensures
        r matches Ok(w) && w.follows(*frame, qi as int) && all_decided(
            *judge,
            *frame,
            qi as int,
            w.ds@,
        ) && w.ds@.len() == cols_of(*frame) * rows_of(*frame),
{
    let cols: usize = ((frame.width + 15) / 16) as usize;
    let rows: usize = ((frame.height + 15) / 16) as usize;
    let factors: MbDequantFactors = MbDequantFactors::from_base_and_deltas(
        qi as i32,
        0,
        0,
        0,
        0,
        0,
    );
    proof {
        arith::lemma_mul_bound(cols as int, rows as int, 0x400, 0x400);
    }
    let total: usize = cols * rows;
    let mut w: Walked = Walked {
        planes: KeyframePlanes::blank(cols, rows),
        modes: Vec::new(),
        coeffs: Vec::new(),
        ds: Ghost(Seq::empty()),
    };
    assert(w.follows(*frame, qi as int)) by {
        reveal(Walked::follows);
        assert(mode_writer::infos_of(w.modes@) =~= Seq::empty());
        assert(coeff_views(w.coeffs@) =~= Seq::empty());
    }
    let mut k: usize = 0;
    while k < total
        invariant
            k <= total,
            total == cols * rows,
            cols == cols_of(*frame),
            rows == rows_of(*frame),
            mode_picker::answers(*judge),
            frame.inside(),
            encode_error::valid_dims(frame.width as int, frame.height as int),
            factors == quant::factors_of(qi as int, quant::no_deltas()),
            tokens::flat_probs(*probs) == frame_header::default_probs().coef,
            w.follows(*frame, qi as int),
            all_decided(*judge, *frame, qi as int, w.ds@),
            w.ds@.len() == k,
        decreases total - k,
    {
        proof {
            arith::lemma_place(k as int, cols as int, rows as int);
        }
        if let Err(e) = encode_next(
            frame,
            qi,
            probs,
            &factors,
            judge,
            k / cols,
            k % cols,
            &mut w,
        ) {
            return Err(e);
        }
        k = k + 1;
    }
    Ok(w)
}

/// The token partitions as far as they are written.
pub struct TokenWalk {
    /// The booleans of each partition.
    pub parts: Seq<Seq<(u8, bool)>>,
    /// Contexts above each column.
    pub above: Seq<Seq<bool>>,
    /// Context to the left.
    pub left: Seq<bool>,
}

/// The macroblock has a second-order block.
pub open spec fn has_y2(info: InfoModel) -> bool {
    info.y_mode != IntraYMode::B
}

/// The partitions after macroblock `k`: the rows of macroblocks take turns.
#[verifier::opaque]
pub open spec fn tokens_after(
    infos: Seq<InfoModel>,
    coeffs: Seq<CoeffModel>,
    cols: int,
    st: TokenWalk,
    k: int,
) -> TokenWalk {
    let col = k % cols;
    let part = k / cols % st.parts.len() as int;
    let y2 = has_y2(infos[k]);
    let left = if col == 0 {
        mb_tokens::clear_ctx()
    } else {
        st.left
    };
    if infos[k].skip {
        TokenWalk {
            parts: st.parts,
            above: st.above.update(col, mb_tokens::skipped_ctx(st.above[col], y2)),
            left: mb_tokens::skipped_ctx(left, y2),
        }
    } else {
        let w = mb_tokens::write_mb(
            coeffs[k],
            frame_header::default_probs().coef,
            y2,
            st.above[col],
            left,
        );
        TokenWalk {
            parts: st.parts.update(part, st.parts[part] + w.ops),
            above: st.above.update(col, w.above),
            left: w.left,
        }
    }
}

/// The partitions after the first `n` macroblocks.
pub open spec fn token_walk(
    infos: Seq<InfoModel>,
    coeffs: Seq<CoeffModel>,
    cols: int,
    count: int,
    n: nat,
) -> TokenWalk
    decreases n,
{
    if n == 0 {
        TokenWalk {
            parts: Seq::new(count as nat, |i: int| Seq::empty()),
            above: Seq::new(cols as nat, |i: int| mb_tokens::clear_ctx()),
            left: mb_tokens::clear_ctx(),
        }
    } else {
        tokens_after(
            infos,
            coeffs,
            cols,
            token_walk(infos, coeffs, cols, count, (n - 1) as nat),
            n - 1,
        )
    }
}

/// Encoders as the booleans they hold.
pub open spec fn encoder_views(v: Seq<BoolEncoder>) -> Seq<Seq<(u8, bool)>> {
    Seq::new(v.len(), |i: int| v[i]@)
}

/// Writes the residue of macroblock `k`.
fn write_residue(
    encs: &mut Vec<BoolEncoder>,
    above: &mut Vec<MbEntropyCtx>,
    left: &mut MbEntropyCtx,
    m: &MacroblockModes,
    c: &MbCoeffs,
    probs: &CoeffProbs,
    cols: usize,
    k: usize,
    Ghost(infos): Ghost<Seq<InfoModel>>,
    Ghost(coeffs): Ghost<Seq<CoeffModel>>,
    Ghost(st): Ghost<TokenWalk>,
) -> (r: Result<(), TokenEncodeError>)
    requires
        cols >= 1,
        old(above)@.len() == cols,
        old(encs)@.len() >= 1,
        forall|i: int| 0 <= i < old(encs)@.len() ==> (#[trigger] old(encs)@[i]).wf(),
        infos[k as int] == mode_writer::info_of(*m),
        coeffs[k as int] == c@,
        token_encoder::coeffs_fault(c@, m.y_mode != IntraYMode::B) is None,
        tokens::flat_probs(*probs) == frame_header::default_probs().coef,
        st.parts == encoder_views(old(encs)@),
        st.above == decoder::ctx_views(old(above)@),
        st.left == old(left)@,
    ensures
        r is Ok,
        final(encs)@.len() == old(encs)@.len(),
        final(above)@.len() == cols,
        forall|i: int| 0 <= i < final(encs)@.len() ==> (#[trigger] final(encs)@[i]).wf(),
        ({
            let after = tokens_after(infos, coeffs, cols as int, st, k as int);
            &&& after.parts == encoder_views(final(encs)@)
            &&& after.above == decoder::ctx_views(final(above)@)
            &&& after.left == final(left)@
        }),
{
    proof {
        reveal(tokens_after);
        arith::lemma_remainder_bound(k as int, cols as int);
    }
    let col: usize = k % cols;
    let part: usize = k / cols % encs.len();
    let use_bpred: bool = m.y_mode == IntraYMode::B;
    if col == 0 {
        *left = MbEntropyCtx::default();
    }
    let ghost encs0 = encs@;
    let ghost above0 = above@;
    let mut up: MbEntropyCtx = above[col];
    if m.mb_skip_coeff {
        clear_skip_ctx(&mut up, !use_bpred);
        clear_skip_ctx(left, !use_bpred);
    } else {
        if let Err(e) = encode_mb_tokens(
            &mut encs[part],
            c,
            use_bpred,
            probs,
            &mut up,
            left,
        ) {
            return Err(e);
        }
        assert(encoder_views(encs@) =~= encoder_views(encs0).update(
            part as int,
            encs@[part as int]@,
        ));
    }
    above[col] = up;
    assert(decoder::ctx_views(above@) =~= decoder::ctx_views(above0).update(col as int, up@));
    Ok(())
}

/// A macroblock as the encoder leaves it.
pub open spec fn coded_well(info: InfoModel, c: CoeffModel) -> bool {
    &&& mode_writer::plain_intra(info)
    &&& mb_tokens::nothing_hidden(c, has_y2(info))
    &&& token_encoder::coeffs_fault(c, has_y2(info)) is None
    &&& info.skip == without_residue(c, frame_header::default_probs().coef, has_y2(info))
}

/// Every macroblock of a walk is coded well.
pub proof fn lemma_walk_codes_well<F: Fn(&Vec<Vec<Candidate>>) -> usize>(
    judge: F,
    f: I420Frame,
    qi: int,
    ds: Seq<Decisions>,
    k: int,
)
    requires
        all_decided(judge, f, qi, ds),
        0 <= k < ds.len(),
    ensures
        coded_well(walk(f, qi, ds).infos[k], walk(f, qi, ds).coeffs[k]),
    decreases ds.len(),
{
    let before = ds.drop_last();
    let d = ds.last();
    lemma_walk_len(f, qi, before);
    reveal(after_mb);
    if k < ds.len() - 1 {
        lemma_walk_codes_well(judge, f, qi, before, k);
    } else {
        let t = next_task(f, qi, before);
        reveal(mb_task);
        mode_picker::lemma_decided(judge, t, d);
        quant::lemma_factors_valid(qi, quant::no_deltas());
        mode_picker::lemma_nothing_hidden(t, d);
        reach_law::law_macroblock_can_be_coded(t, d);
    }
}

/// Writes the residue of all macroblocks.
fn write_residues(
    modes: &Vec<MacroblockModes>,
    coeffs: &Vec<MbCoeffs>,
    probs: &CoeffProbs,
    cols: usize,
    count: usize,
) -> (r: Result<Vec<BoolEncoder>, TokenEncodeError>)
    requires
        cols >= 1,
        count >= 1,
        coeffs@.len() == modes@.len(),
        forall|k: int|
            0 <= k < modes@.len() ==> token_encoder::coeffs_fault(
                coeffs@[k]@,
                (#[trigger] modes@[k]).y_mode != IntraYMode::B,
            ) is None,
        tokens::flat_probs(*probs) == frame_header::default_probs().coef,
    ensures
        r is Ok,
        r->Ok_0@.len() == count,
        forall|i: int| 0 <= i < count ==> (#[trigger] r->Ok_0@[i]).wf(),
        encoder_views(r->Ok_0@) == token_walk(
            mode_writer::infos_of(modes@),
            coeff_views(coeffs@),
            cols as int,
            count as int,
            modes@.len(),
        ).parts,
{
    let ghost infos = mode_writer::infos_of(modes@);
    let ghost cs = coeff_views(coeffs@);
    let mut encs: Vec<BoolEncoder> = Vec::new();
    let mut i: usize = 0;
    while i < count
        invariant
            i <= count,
            encs@.len() == i,
            forall|j: int|
                0 <= j < i ==> (#[trigger] encs@[j]).wf() && encs@[j]@ == Seq::<(u8, bool)>::empty(),
        decreases count - i,
    {
        encs.push(BoolEncoder::new());
        i = i + 1;
    }
    let mut above: Vec<MbEntropyCtx> = Vec::new();
    i = 0;
    while i < cols
        invariant
            i <= cols,
            above@.len() == i,
            forall|j: int| 0 <= j < i ==> (#[trigger] above@[j])@ == mb_tokens::clear_ctx(),
        decreases cols - i,
    {
        above.push(MbEntropyCtx::default());
        i = i + 1;
    }
    let mut left: MbEntropyCtx = MbEntropyCtx::default();
    let mut k: usize = 0;
    proof {
        let st = token_walk(infos, cs, cols as int, count as int, 0);
        assert(st.parts =~= encoder_views(encs@));
        assert(st.above =~= decoder::ctx_views(above@));
    }
    while k < modes.len()
        invariant
            k <= modes@.len(),
            cols >= 1,
            count >= 1,
            coeffs@.len() == modes@.len(),
            infos == mode_writer::infos_of(modes@),
            cs == coeff_views(coeffs@),
            encs@.len() == count,
            above@.len() == cols,
            forall|j: int| 0 <= j < count ==> (#[trigger] encs@[j]).wf(),
            forall|j: int|
                0 <= j < modes@.len() ==> token_encoder::coeffs_fault(
                    coeffs@[j]@,
                    (#[trigger] modes@[j]).y_mode != IntraYMode::B,
                ) is None,
            tokens::flat_probs(*probs) == frame_header::default_probs().coef,
            ({
                let st = token_walk(infos, cs, cols as int, count as int, k as nat);
                &&& st.parts == encoder_views(encs@)
                &&& st.above == decoder::ctx_views(above@)
                &&& st.left == left@
            }),
        decreases modes@.len() - k,
    {
        let ghost st = token_walk(infos, cs, cols as int, count as int, k as nat);
        assert(modes@[k as int] == modes@[k as int]);
        if let Err(e) = write_residue(
            &mut encs,
            &mut above,
            &mut left,
            &modes[k],
            &coeffs[k],
            probs,
            cols,
            k,
            Ghost(infos),
            Ghost(cs),
            Ghost(st),
        ) {
            return Err(e);
        }
        k = k + 1;
    }
    Ok(encs)
}

/// Ends the codes of all partitions.
fn finish_all(encs: Vec<BoolEncoder>) -> (parts: Vec<Vec<u8>>)
    requires
        forall|i: int| 0 <= i < encs@.len() ==> (#[trigger] encs@[i]).wf(),
    ensures
        parts@.len() == encs@.len(),
        forall|i: int|
            0 <= i < parts@.len() ==> range_coder::is_code(
                (#[trigger] parts@[i])@,
                encoder_views(encs@)[i],
            ),
{
    let ghost all = encs@;
    let ghost views = encoder_views(all);
    let mut encs: Vec<BoolEncoder> = encs;
    let n: usize = encs.len();
    let mut parts: Vec<Vec<u8>> = Vec::new();
    let mut i: usize = 0;
    while i < n
        invariant
            i <= n,
            n == encs@.len(),
            n == all.len(),
            views == encoder_views(all),
            parts@.len() == i,
            forall|j: int| 0 <= j < n ==> (#[trigger] all[j]).wf(),
            forall|j: int| i <= j < n ==> #[trigger] encs@[j] == all[j],
            forall|j: int|
                0 <= j < i ==> range_coder::is_code((#[trigger] parts@[j])@, views[j]),
        decreases n - i,
    {
        let mut e: BoolEncoder = BoolEncoder::new();
        assert(encs@[i as int] == all[i as int]);
        std::mem::swap(&mut e, &mut encs[i]);
        assert(e == all[i as int]);
        parts.push(e.finish());
        i = i + 1;
    }
    parts
}

/// The tokens of macroblock `k` where all go into one partition.
pub open spec fn tokens_of_mb(
    infos: Seq<InfoModel>,
    coeffs: Seq<CoeffModel>,
    cols: int,
    k: int,
) -> Seq<(u8, bool)> {
    let st = token_walk(infos, coeffs, cols, 1, k as nat);
    if infos[k].skip {
        Seq::empty()
    } else {
        mb_tokens::write_mb(
            coeffs[k],
            frame_header::default_probs().coef,
            has_y2(infos[k]),
            st.above[k % cols],
            if k % cols == 0 {
                mb_tokens::clear_ctx()
            } else {
                st.left
            },
        ).ops
    }
}

/// The tokens of those of the first `n` macroblocks whose rows go into
/// partition `j` of `count`.
pub open spec fn tokens_of_part(
    infos: Seq<InfoModel>,
    coeffs: Seq<CoeffModel>,
    cols: int,
    count: int,
    j: int,
    n: nat,
) -> Seq<(u8, bool)>
    decreases n,
{
    if n == 0 {
        Seq::empty()
    } else {
        let before = tokens_of_part(infos, coeffs, cols, count, j, (n - 1) as nat);
        if (n - 1) / cols % count == j {
            before + tokens_of_mb(infos, coeffs, cols, n - 1)
        } else {
            before
        }
    }
}

/// The number of partitions changes only where the tokens of a row go: each
/// partition holds the tokens that its rows have in a single one.
pub proof fn law_partitions_share_out_rows(
    infos: Seq<InfoModel>,
    coeffs: Seq<CoeffModel>,
    cols: int,
    count: int,
    j: int,
    n: nat,
)
    requires
        cols >= 1,
        0 <= j < count,
        n <= infos.len(),
    ensures
        token_walk(infos, coeffs, cols, count, n).parts.len() == count,
        token_walk(infos, coeffs, cols, count, n).parts[j] == tokens_of_part(
            infos,
            coeffs,
            cols,
            count,
            j,
            n,
        ),
        token_walk(infos, coeffs, cols, count, n).above == token_walk(
            infos,
            coeffs,
            cols,
            1,
            n,
        ).above,
        token_walk(infos, coeffs, cols, count, n).left == token_walk(
            infos,
            coeffs,
            cols,
            1,
            n,
        ).left,
    decreases n,
{
    if n > 0 {
        let k = n - 1;
        law_partitions_share_out_rows(infos, coeffs, cols, count, j, k as nat);
        reveal(tokens_after);
        let st = token_walk(infos, coeffs, cols, count, k as nat);
        let part = k / cols % count;
        assert(0 <= part < count) by {
            vstd::arithmetic::div_mod::lemma_mod_bound(k / cols, count);
        }
        if infos[k].skip {
            assert(tokens_of_part(infos, coeffs, cols, count, j, n) =~= st.parts[j]);
        }
    }
}

/// What the loop filter does to each macroblock.
#[verifier::opaque]
pub open spec fn key_plan(infos: Seq<InfoModel>, p: KeyframeParams) -> FilterPlan {
    FilterPlan {
        levels: Seq::new(infos.len(), |k: int| p.loop_filter_level as int),
        inner: Seq::new(infos.len(), |k: int| !infos[k].skip || infos[k].y_mode == IntraYMode::B),
        sharpness: p.sharpness_level as int,
        key_frame: true,
        simple: false,
    }
}

/// The planes after the loop filter.
pub open spec fn reconstruction(f: I420Frame, p: KeyframeParams, ds: Seq<Decisions>) -> PlanesModel {
    let w = walk(f, p.y_ac_qi as int, ds);
    let cols = cols_of(f);
    if p.loop_filter_level == 0 {
        w.planes
    } else {
        loop_filter::filtered_planes(
            w.planes,
            16 * cols,
            8 * cols,
            cols,
            w.infos.len(),
            key_plan(w.infos, p),
        )
    }
}

proof fn lemma_any_coeffs(c: MbCoeffs)
    ensures
        frame::any_coeffs(c) == mb_tokens::any_nonzero(c@),
{
    let row = mb_tokens::in_row(c@);
    if frame::any_coeffs(c) {
        if frame::has_nonzero(c.y2@) {
            assert(row[24] == c.y2@);
        } else if exists|b: int| 0 <= b < 16 && frame::has_nonzero(#[trigger] c.y[b]@) {
            let b = choose|b: int| 0 <= b < 16 && frame::has_nonzero(#[trigger] c.y[b]@);
            assert(row[b] == c.y[b]@);
        } else if exists|b: int| 0 <= b < 4 && frame::has_nonzero(#[trigger] c.u[b]@) {
            let b = choose|b: int| 0 <= b < 4 && frame::has_nonzero(#[trigger] c.u[b]@);
            assert(row[16 + b] == c.u[b]@);
        } else {
            let b = choose|b: int| 0 <= b < 4 && frame::has_nonzero(#[trigger] c.v[b]@);
            assert(row[20 + b] == c.v[b]@);
        }
    }
    if mb_tokens::any_nonzero(c@) {
        let b = choose|b: int| 0 <= b < 25 && frame::has_nonzero(#[trigger] row[b]);
        if b < 16 {
            assert(row[b] == c.y[b]@);
        } else if b < 20 {
            assert(row[b] == c.u[b - 16]@);
        } else if b < 24 {
            assert(row[b] == c.v[b - 20]@);
        } else {
            assert(row[b] == c.y2@);
        }
    }
}

/// Filters the planes.
fn filter_key_frame(w: &mut Walked, p: &KeyframeParams, Ghost(f): Ghost<I420Frame<'_>>)
    requires
        old(w).follows(f, p.y_ac_qi as int),
        old(w).ds@.len() == cols_of(f) * rows_of(f),
        encode_error::valid_dims(f.width as int, f.height as int),
        p.loop_filter_level <= 63,
        forall|k: int|
            0 <= k < old(w).ds@.len() ==> coded_well(
                (#[trigger] walk(f, p.y_ac_qi as int, old(w).ds@).infos[k]),
                walk(f, p.y_ac_qi as int, old(w).ds@).coeffs[k],
            ),
    ensures
        final(w).modes == old(w).modes,
        final(w).coeffs == old(w).coeffs,
        final(w).ds == old(w).ds,
        final(w).planes.wf(),
        final(w).planes.like(&old(w).planes),
        final(w).planes@ == reconstruction(f, *p, old(w).ds@),
{
    proof {
        reveal(Walked::follows);
    }
    if p.loop_filter_level == 0 {
        return;
    }
    let config: FrameFilterConfig = FrameFilterConfig {
        simple: false,
        key_frame: true,
        loop_filter_level: p.loop_filter_level,
        sharpness_level: p.sharpness_level,
        segmentation_enabled: false,
        segment_abs: false,
        segment_lf_level: [0; 4],
        delta_enabled: false,
        ref_delta_current: 0,
        bpred_mode_delta: 0,
    };
    let ghost infos = walk(f, p.y_ac_qi as int, w.ds@).infos;
    let ghost coeffs = walk(f, p.y_ac_qi as int, w.ds@).coeffs;
    proof {
        arith::lemma_mul_bound(cols_of(f), rows_of(f), 0x400, 0x400);
        let plan = loop_filter::frame_plan(w.modes@, w.coeffs@, config);
        reveal(key_plan);
        let want = key_plan(infos, *p);
        assert forall|k: int| 0 <= k < infos.len() implies #[trigger] plan.inner[k]
            == want.inner[k] by {
            assert(coded_well(infos[k], coeffs[k]));
            assert(infos[k] == mode_writer::info_of(w.modes@[k]));
            assert(coeffs[k] == w.coeffs@[k]@);
            lemma_any_coeffs(w.coeffs@[k]);
            reveal(without_residue);
            mb_tokens::lemma_counts_nonzero(
                coeffs[k],
                frame_header::default_probs().coef,
                has_y2(infos[k]),
                mb_tokens::clear_ctx(),
                mb_tokens::clear_ctx(),
            );
        }
        assert(plan.inner =~= want.inner);
        assert(plan.levels =~= want.levels);
    }
    filter_frame(&mut w.planes, w.modes.as_slice(), w.coeffs.as_slice(), &config);
}

/// What the passes behind the walk need of it.
proof fn lemma_walked(w: Walked, f: I420Frame, qi: int)
    requires
        w.follows(f, qi),
        forall|k: int|
            0 <= k < w.ds@.len() ==> coded_well(
                (#[trigger] walk(f, qi, w.ds@).infos[k]),
                walk(f, qi, w.ds@).coeffs[k],
            ),
    ensures
        w.planes.mb_cols == cols_of(f),
        w.planes.mb_rows == rows_of(f),
        mode_writer::infos_of(w.modes@) == walk(f, qi, w.ds@).infos,
        coeff_views(w.coeffs@) == walk(f, qi, w.ds@).coeffs,
        w.modes@.len() == w.ds@.len(),
        w.coeffs@.len() == w.modes@.len(),
        forall|k: int|
            0 <= k < w.modes@.len() ==> ((#[trigger] w.modes@[k]).y_mode == IntraYMode::B) == (
            w.modes@[k].subblock_modes is Some),
        forall|k: int|
            0 <= k < w.modes@.len() ==> token_encoder::coeffs_fault(
                w.coeffs@[k]@,
                (#[trigger] w.modes@[k]).y_mode != IntraYMode::B,
            ) is None,
{
    reveal(Walked::follows);
    let infos = walk(f, qi, w.ds@).infos;
    let coeffs = walk(f, qi, w.ds@).coeffs;
    assert forall|k: int| 0 <= k < w.modes@.len() implies token_encoder::coeffs_fault(
        w.coeffs@[k]@,
        (#[trigger] w.modes@[k]).y_mode != IntraYMode::B,
    ) is None by {
        assert(coded_well(infos[k], coeffs[k]));
        assert(infos[k] == mode_writer::info_of(w.modes@[k]));
        assert(coeffs[k] == w.coeffs@[k]@);
    }
}

/// The booleans of the first partition.
pub open spec fn first_ops(f: I420Frame, p: KeyframeParams, ds: Seq<Decisions>) -> Seq<(u8, bool)> {
    let w = walk(f, p.y_ac_qi as int, ds);
    encoder::key_header_ops(p.fields()) + mode_writer::mode_ops(
        w.infos,
        cols_of(f),
        PROB_SKIP_FALSE,
        w.infos.len(),
    )
}

/// The booleans of the token partitions.
pub open spec fn part_ops(f: I420Frame, p: KeyframeParams, ds: Seq<Decisions>) -> Seq<
    Seq<(u8, bool)>,
> {
    let w = walk(f, p.y_ac_qi as int, ds);
    token_walk(
        w.infos,
        w.coeffs,
        cols_of(f),
        p.nbr_of_dct_partitions as int,
        w.infos.len(),
    ).parts
}

/// `out` is the key frame that the choices `ds` lead to.
pub open spec fn is_key_frame(
    out: Seq<u8>,
    f: I420Frame,
    p: KeyframeParams,
    ds: Seq<Decisions>,
    first: Seq<u8>,
    parts: Seq<Seq<u8>>,
) -> bool {
    &&& ds.len() == cols_of(f) * rows_of(f)
    &&& range_coder::is_code(first, first_ops(f, p, ds))
    &&& first.len() <= encoder::MAX_FIRST_PARTITION
    &&& parts.len() == p.nbr_of_dct_partitions
    &&& forall|i: int|
        0 <= i < parts.len() ==> range_coder::is_code(
            #[trigger] parts[i],
            part_ops(f, p, ds)[i],
        )
    &&& out == encoder::frame_bytes(first, parts, f.width as int, f.height as int)
}

/// `judge` leads to the key frame `out` and to the planes that a decoder will
/// rebuild from it.
pub open spec fn encodes<F: Fn(&Vec<Vec<Candidate>>) -> usize>(
    judge: F,
    f: I420Frame,
    p: KeyframeParams,
    out: Seq<u8>,
    planes: PlanesModel,
) -> bool {
    exists|ds: Seq<Decisions>, first: Seq<u8>, parts: Seq<Seq<u8>>| #[trigger]
        is_key_frame(out, f, p, ds, first, parts) && all_decided(
            judge,
            f,
            p.y_ac_qi as int,
            ds,
        ) && planes == reconstruction(f, p, ds)
}

/// `judge` leads to the key frame `out`.
pub open spec fn encodes_to<F: Fn(&Vec<Vec<Candidate>>) -> usize>(
    judge: F,
    f: I420Frame,
    p: KeyframeParams,
    out: Seq<u8>,
) -> bool {
    exists|planes: PlanesModel| #[trigger] encodes(judge, f, p, out, planes)
}

/// `judge` leads to a first partition that is too large.
pub open spec fn overflows<F: Fn(&Vec<Vec<Candidate>>) -> usize>(
    judge: F,
    f: I420Frame,
    p: KeyframeParams,
    e: EncodeError,
) -> bool {
    exists|ds: Seq<Decisions>|
        ds.len() == cols_of(f) * rows_of(f) && #[trigger] all_decided(
            judge,
            f,
            p.y_ac_qi as int,
            ds,
        ) && encoder::first_partition_fault(first_ops(f, p, ds)) == Some(e)
}

/// Why a picture is refused.
pub open spec fn refuses<F: Fn(&Vec<Vec<Candidate>>) -> usize>(
    judge: F,
    f: I420Frame,
    p: KeyframeParams,
    e: EncodeError,
) -> bool {
    let fault = params_fault(f.width, f.height, p);
    if fault is Some {
        fault == Some(e)
    } else {
        overflows(judge, f, p, e)
    }
}

/// Encodes a picture as a key frame. `judge` is shown the ways to predict each
/// part of each macroblock, and names one.
pub fn encode_keyframe<F: Fn(&Vec<Vec<Candidate>>) -> usize>(
    frame: &I420Frame<'_>,
    params: &KeyframeParams,
    judge: &F,
) -> (r: Result<Vec<u8>, EncodeError>)
    requires
        mode_picker::answers(*judge),
        encode_error::valid_dims(frame.width as int, frame.height as int) ==> frame.inside(),
    ensures
        match r {
            Ok(out) => {
                &&& params_fault(frame.width, frame.height, *params) is None
                &&& encodes_to(*judge, *frame, *params, out@)
            },
            Err(e) => refuses(*judge, *frame, *params, e),
        },
{
    match encode_keyframe_with_reconstruction(frame, params, judge) {
        Ok((out, planes)) => {
            assert(encodes(*judge, *frame, *params, out@, planes@));
            Ok(out)
        },
        Err(e) => Err(e),
    }
}

/// Encodes a picture as a key frame, and returns the planes that a decoder will
/// rebuild from it, too.
pub fn encode_keyframe_with_reconstruction<F: Fn(&Vec<Vec<Candidate>>) -> usize>(
    frame: &I420Frame<'_>,
    params: &KeyframeParams,
    judge: &F,
) -> (r: Result<(Vec<u8>, KeyframePlanes), EncodeError>)
    requires
        mode_picker::answers(*judge),
        encode_error::valid_dims(frame.width as int, frame.height as int) ==> frame.inside(),
    ensures
        match r {
            Ok((out, planes)) => {
                &&& params_fault(frame.width, frame.height, *params) is None
                &&& planes.wf()
                &&& planes.mb_cols == cols_of(*frame)
                &&& planes.mb_rows == rows_of(*frame)
                &&& encodes(*judge, *frame, *params, out@, planes@)
            },
            Err(e) => refuses(*judge, *frame, *params, e),
        },
{
    if let Err(e) = check_params(frame.width, frame.height, params) {
        return Err(e);
    }
    let ghost f = *frame;
    let ghost q = params.y_ac_qi as int;
    let cols: usize = ((frame.width + 15) / 16) as usize;
    let probs: CoeffProbs = PersistentProbs::defaults().coef_probs;
    let mut w: Walked = match encode_macroblocks(frame, params.y_ac_qi, &probs, judge) {
        Ok(w) => w,
        Err(e) => {
            return Err(EncodeError::Token(e));
        },
    };
    let ghost ds = w.ds@;
    let ghost infos = walk(f, q, ds).infos;
    let ghost coeffs = walk(f, q, ds).coeffs;
    proof {
        lemma_walk_len(f, q, ds);
        assert forall|k: int| 0 <= k < ds.len() implies coded_well(
            (#[trigger] infos[k]),
            coeffs[k],
        ) by {
            lemma_walk_codes_well(*judge, f, q, ds, k);
        }
    }
    proof {
        lemma_walked(w, f, q);
    }
    filter_key_frame(&mut w, params, Ghost(f));
    let mut hdr: BoolEncoder = match write_key_header(
        params.loop_filter_level,
        params.sharpness_level,
        params.nbr_of_dct_partitions,
        params.y_ac_qi,
        PROB_SKIP_FALSE,
    ) {
        Ok(e) => e,
        Err(e) => {
            return Err(e);
        },
    };
    write_mode_layer(&mut hdr, &w.modes, cols, PROB_SKIP_FALSE);
    let first: Vec<u8> = hdr.finish();
    assert(range_coder::is_code(first@, first_ops(f, *params, ds)));
    let encs: Vec<BoolEncoder> = match write_residues(
        &w.modes,
        &w.coeffs,
        &probs,
        cols,
        params.nbr_of_dct_partitions as usize,
    ) {
        Ok(encs) => encs,
        Err(e) => {
            return Err(EncodeError::Token(e));
        },
    };
    let parts: Vec<Vec<u8>> = finish_all(encs);
    match assemble_frame(&first, &parts, frame.width, frame.height) {
        Ok(out) => {
            assert(is_key_frame(
                out@,
                f,
                *params,
                ds,
                first@,
                encoder::byte_views(parts@),
            ));
            assert(encodes(*judge, f, *params, out@, w.planes@));
            Ok((out, w.planes))
        },
        Err(e) => {
            assert(overflows(*judge, f, *params, e));
            Err(e)
        },
    }
}

} // verus!
