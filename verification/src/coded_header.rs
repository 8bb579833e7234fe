//! Boolean-coded frame header, up to and with the skip probability.
use crate::bool_decoder;
use crate::bool_decoder::{BoolDecoder, BoolDecoderError};
use crate::range_coder;
use crate::range_coder::DecState;
use crate::tables;
use crate::tables::update_prob_at;
use vstd::prelude::*;

verus! {

/// Why a header could not be read.
#[derive(Debug, Clone, Copy, PartialEq, Eq, Structural)]
pub enum CodedHeaderError {
    /// The partition ended before the header did.
    BoolDecoder(BoolDecoderError),
}

/// Segmentation part of a header.
#[derive(Debug, Clone, Copy, PartialEq, Eq)]
pub struct UpdateSegmentation {
    pub update_mb_segmentation_map: bool,
    pub update_segment_feature_data: bool,
    /// `true` when the segment values replace the frame's, `false` when they
    /// are added to them.
    pub segment_feature_mode_absolute: bool,
    pub quantizer_update: [Option<i16>; 4],
    pub loop_filter_update: [Option<i16>; 4],
    pub segment_prob: [Option<u8>; 3],
}

/// Loop-filter adjustments of a header.
#[derive(Debug, Clone, Copy, PartialEq, Eq)]
pub struct MbLfAdjustments {
    pub loop_filter_adj_enable: bool,
    pub mode_ref_lf_delta_update: bool,
    pub ref_frame_delta_update: [Option<i16>; 4],
    pub mb_mode_delta_update: [Option<i16>; 4],
}

/// Quantizer indices of a header.
#[derive(Debug, Clone, Copy, PartialEq, Eq, Structural)]
pub struct QuantIndices {
    pub y_ac_qi: u8,
    pub y_dc_delta: Option<i8>,
    pub y2_dc_delta: Option<i8>,
    pub y2_ac_delta: Option<i8>,
    pub uv_dc_delta: Option<i8>,
    pub uv_ac_delta: Option<i8>,
}

/// New coefficient probabilities, by block type, band, context and tree node.
pub type TokenProbUpdates = [[[[Option<u8>; 11]; 3]; 8]; 4];

/// Boolean-coded frame header.
#[derive(Debug, Clone, PartialEq, Eq)]
pub struct Vp8CodedHeader {
    pub color_space: Option<bool>,
    pub clamping_type: Option<bool>,
    pub segmentation_enabled: bool,
    pub update_segmentation: Option<UpdateSegmentation>,
    /// `true` for the simple loop filter.
    pub filter_type: bool,
    pub loop_filter_level: u8,
    pub sharpness_level: u8,
    pub mb_lf_adjustments: MbLfAdjustments,
    pub log2_nbr_of_dct_partitions: u8,
    pub nbr_of_dct_partitions: u8,
    pub quant_indices: QuantIndices,
    pub refresh_entropy_probs: bool,
    pub refresh_golden_frame: Option<bool>,
    pub refresh_alternate_frame: Option<bool>,
    pub copy_buffer_to_golden: Option<u8>,
    pub copy_buffer_to_alternate: Option<u8>,
    pub sign_bias_golden: Option<bool>,
    pub sign_bias_alternate: Option<bool>,
    pub refresh_last: Option<bool>,
    pub token_prob_updates: TokenProbUpdates,
    pub mb_no_skip_coeff: bool,
    pub prob_skip_false: Option<u8>,
}

/// Model of [`UpdateSegmentation`].
pub struct SegmentationModel {
    pub update_map: bool,
    pub update_data: bool,
    pub absolute: bool,
    pub quantizer: Seq<Option<i16>>,
    pub loop_filter: Seq<Option<i16>>,
    pub prob: Seq<Option<u8>>,
}

/// Model of [`MbLfAdjustments`].
pub struct LfAdjustModel {
    pub enable: bool,
    pub update: bool,
    pub ref_frame: Seq<Option<i16>>,
    pub mode: Seq<Option<i16>>,
}

/// Reference-buffer part of a header.
pub struct RefreshModel {
    pub entropy: bool,
    pub golden: Option<bool>,
    pub alternate: Option<bool>,
    pub copy_to_golden: Option<u8>,
    pub copy_to_alternate: Option<u8>,
    pub sign_golden: Option<bool>,
    pub sign_alternate: Option<bool>,
    pub last: Option<bool>,
}

/// Model of [`Vp8CodedHeader`].
pub struct CodedHeaderModel {
    pub color_space: Option<bool>,
    pub clamping_type: Option<bool>,
    pub segmentation: Option<SegmentationModel>,
    pub filter_type: bool,
    pub level: int,
    pub sharpness: int,
    pub lf_adjust: LfAdjustModel,
    pub log2_parts: int,
    pub quant: QuantIndices,
    pub refresh: RefreshModel,
    pub token_probs: Seq<Option<u8>>,
    pub no_skip: bool,
    pub prob_skip: Option<u8>,
}

impl View for UpdateSegmentation {
    type V = SegmentationModel;

    open spec fn view(&self) -> SegmentationModel {
        SegmentationModel {
            update_map: self.update_mb_segmentation_map,
            update_data: self.update_segment_feature_data,
            absolute: self.segment_feature_mode_absolute,
            quantizer: self.quantizer_update@,
            loop_filter: self.loop_filter_update@,
            prob: self.segment_prob@,
        }
    }
}

impl View for MbLfAdjustments {
    type V = LfAdjustModel;

    open spec fn view(&self) -> LfAdjustModel {
        LfAdjustModel {
            enable: self.loop_filter_adj_enable,
            update: self.mode_ref_lf_delta_update,
            ref_frame: self.ref_frame_delta_update@,
            mode: self.mb_mode_delta_update@,
        }
    }
}

/// The entries of a four-dimensional probability table in transmission order.
pub open spec fn flat_updates(t: TokenProbUpdates) -> Seq<Option<u8>> {
    Seq::new(1056, |x: int| t[x / 264][x / 33 % 8][x / 11 % 3][x % 11])
}

impl Vp8CodedHeader {
    pub open spec fn refresh(&self) -> RefreshModel {
        RefreshModel {
            entropy: self.refresh_entropy_probs,
            golden: self.refresh_golden_frame,
            alternate: self.refresh_alternate_frame,
            copy_to_golden: self.copy_buffer_to_golden,
            copy_to_alternate: self.copy_buffer_to_alternate,
            sign_golden: self.sign_bias_golden,
            sign_alternate: self.sign_bias_alternate,
            last: self.refresh_last,
        }
    }

    /// The fields that repeat another one agree with it.
    pub open spec fn consistent(&self) -> bool {
        &&& self.segmentation_enabled == self.update_segmentation is Some
        &&& self.log2_nbr_of_dct_partitions <= 3
        &&& self.nbr_of_dct_partitions == dct_partitions(self.log2_nbr_of_dct_partitions as int)
    }
}

impl View for Vp8CodedHeader {
    type V = CodedHeaderModel;

    open spec fn view(&self) -> CodedHeaderModel {
        CodedHeaderModel {
            color_space: self.color_space,
            clamping_type: self.clamping_type,
            segmentation: match self.update_segmentation {
                Some(u) => Some(u@),
                None => None,
            },
            filter_type: self.filter_type,
            level: self.loop_filter_level as int,
            sharpness: self.sharpness_level as int,
            lf_adjust: self.mb_lf_adjustments@,
            log2_parts: self.log2_nbr_of_dct_partitions as int,
            quant: self.quant_indices,
            refresh: self.refresh(),
            token_probs: flat_updates(self.token_prob_updates),
            no_skip: self.mb_no_skip_coeff,
            prob_skip: self.prob_skip_false,
        }
    }
}

/// Number of coefficient partitions.
pub open spec fn dct_partitions(log2: int) -> int {
    if log2 == 0 {
        1
    } else if log2 == 1 {
        2
    } else if log2 == 2 {
        4
    } else {
        8
    }
}

/// A flag, and an `n`-bit signed number when it is set.
pub open spec fn read_delta(d: DecState, bits: nat) -> (Option<i16>, DecState) {
    let d1 = range_coder::dec_next(d, 128);
    if range_coder::dec_bit(d, 128) {
        (Some(bool_decoder::dec_signed(d1, bits) as i16), bool_decoder::dec_skip(d1, bits + 1))
    } else {
        (None, d1)
    }
}

/// `n` optional signed numbers.
pub open spec fn read_deltas(d: DecState, bits: nat, n: nat) -> (Seq<Option<i16>>, DecState)
    decreases n,
{
    if n == 0 {
        (Seq::empty(), d)
    } else {
        let (s, d1) = read_deltas(d, bits, (n - 1) as nat);
        let (x, d2) = read_delta(d1, bits);
        (s.push(x), d2)
    }
}

/// A flag, and a byte when it is set.
pub open spec fn read_opt_byte(d: DecState, prob: u8) -> (Option<u8>, DecState) {
    let d1 = range_coder::dec_next(d, prob);
    if range_coder::dec_bit(d, prob) {
        (Some(bool_decoder::dec_literal(d1, 8) as u8), bool_decoder::dec_skip(d1, 8))
    } else {
        (None, d1)
    }
}

/// `n` optional bytes behind flat flags.
pub open spec fn read_opt_bytes(d: DecState, n: nat) -> (Seq<Option<u8>>, DecState)
    decreases n,
{
    if n == 0 {
        (Seq::empty(), d)
    } else {
        let (s, d1) = read_opt_bytes(d, (n - 1) as nat);
        let (x, d2) = read_opt_byte(d1, 128);
        (s.push(x), d2)
    }
}

/// The first `n` coefficient probability updates.
pub open spec fn read_token_updates(d: DecState, n: nat) -> (Seq<Option<u8>>, DecState)
    decreases n,
{
    if n == 0 {
        (Seq::empty(), d)
    } else {
        let (s, d1) = read_token_updates(d, (n - 1) as nat);
        let (x, d2) = read_opt_byte(d1, tables::update_prob(n - 1));
        (s.push(x), d2)
    }
}

/// `n` absent numbers.
pub open spec fn no_deltas(n: nat) -> Seq<Option<i16>> {
    Seq::new(n, |i: int| None)
}

pub open spec fn read_segmentation(d: DecState) -> (SegmentationModel, DecState) {
    let update_map = range_coder::dec_bit(d, 128);
    let d1 = range_coder::dec_next(d, 128);
    let update_data = range_coder::dec_bit(d1, 128);
    let d2 = range_coder::dec_next(d1, 128);
    let d3 = range_coder::dec_next(d2, 128);
    let (q, d4) = read_deltas(d3, 7, 4);
    let (l, d5) = read_deltas(d4, 6, 4);
    let d6 = if update_data {
        d5
    } else {
        d2
    };
    let (p, d7) = read_opt_bytes(d6, 3);
    (
        SegmentationModel {
            update_map,
            update_data,
            absolute: update_data && range_coder::dec_bit(d2, 128),
            quantizer: if update_data {
                q
            } else {
                no_deltas(4)
            },
            loop_filter: if update_data {
                l
            } else {
                no_deltas(4)
            },
            prob: if update_map {
                p
            } else {
                Seq::new(3, |i: int| None)
            },
        },
        if update_map {
            d7
        } else {
            d6
        },
    )
}

pub open spec fn read_lf_adjust(d: DecState) -> (LfAdjustModel, DecState) {
    let enable = range_coder::dec_bit(d, 128);
    let d1 = range_coder::dec_next(d, 128);
    let d2 = range_coder::dec_next(d1, 128);
    let update = enable && range_coder::dec_bit(d1, 128);
    let (r, d3) = read_deltas(d2, 6, 4);
    let (m, d4) = read_deltas(d3, 6, 4);
    (
        LfAdjustModel {
            enable,
            update,
            ref_frame: if update {
                r
            } else {
                no_deltas(4)
            },
            mode: if update {
                m
            } else {
                no_deltas(4)
            },
        },
        if update {
            d4
        } else if enable {
            d2
        } else {
            d1
        },
    )
}

/// An optional delta as an 8-bit number.
pub open spec fn narrow(x: Option<i16>) -> Option<i8> {
    match x {
        Some(v) => Some(v as i8),
        None => None,
    }
}

pub open spec fn read_quant(d: DecState) -> (QuantIndices, DecState) {
    let (s, d1) = read_deltas(bool_decoder::dec_skip(d, 7), 4, 5);
    (
        QuantIndices {
            y_ac_qi: bool_decoder::dec_literal(d, 7) as u8,
            y_dc_delta: narrow(s[0]),
            y2_dc_delta: narrow(s[1]),
            y2_ac_delta: narrow(s[2]),
            uv_dc_delta: narrow(s[3]),
            uv_ac_delta: narrow(s[4]),
        },
        d1,
    )
}

/// Two bits, unless the buffer is refreshed.
pub open spec fn read_copy_flag(d: DecState, refreshed: bool) -> (Option<u8>, DecState) {
    if refreshed {
        (None, d)
    } else {
        (Some(bool_decoder::dec_literal(d, 2) as u8), bool_decoder::dec_skip(d, 2))
    }
}

pub open spec fn read_refresh(d: DecState, key_frame: bool) -> (RefreshModel, DecState) {
    if key_frame {
        (
            RefreshModel {
                entropy: range_coder::dec_bit(d, 128),
                golden: None,
                alternate: None,
                copy_to_golden: None,
                copy_to_alternate: None,
                sign_golden: None,
                sign_alternate: None,
                last: None,
            },
            range_coder::dec_next(d, 128),
        )
    } else {
        let golden = range_coder::dec_bit(d, 128);
        let d1 = range_coder::dec_next(d, 128);
        let alternate = range_coder::dec_bit(d1, 128);
        let d2 = range_coder::dec_next(d1, 128);
        let (copy_to_golden, d3) = read_copy_flag(d2, golden);
        let (copy_to_alternate, d4) = read_copy_flag(d3, alternate);
        let d5 = range_coder::dec_next(d4, 128);
        let d6 = range_coder::dec_next(d5, 128);
        let d7 = range_coder::dec_next(d6, 128);
        (
            RefreshModel {
                entropy: range_coder::dec_bit(d6, 128),
                golden: Some(golden),
                alternate: Some(alternate),
                copy_to_golden,
                copy_to_alternate,
                sign_golden: Some(range_coder::dec_bit(d4, 128)),
                sign_alternate: Some(range_coder::dec_bit(d5, 128)),
                last: Some(range_coder::dec_bit(d7, 128)),
            },
            range_coder::dec_next(d7, 128),
        )
    }
}

/// The whole header, as it stands in the stream at `d`.
pub open spec fn read_coded_header(d: DecState, key_frame: bool) -> (CodedHeaderModel, DecState) {
    let d1 = if key_frame {
        range_coder::dec_next(range_coder::dec_next(d, 128), 128)
    } else {
        d
    };
    let segmented = range_coder::dec_bit(d1, 128);
    let d2 = range_coder::dec_next(d1, 128);
    let (seg, ds) = read_segmentation(d2);
    let d3 = if segmented {
        ds
    } else {
        d2
    };
    let d4 = range_coder::dec_next(d3, 128);
    let d5 = bool_decoder::dec_skip(d4, 6);
    let d6 = bool_decoder::dec_skip(d5, 3);
    let (lf_adjust, d7) = read_lf_adjust(d6);
    let d8 = bool_decoder::dec_skip(d7, 2);
    let (quant, d9) = read_quant(d8);
    let (refresh, d10) = read_refresh(d9, key_frame);
    let (token_probs, d11) = read_token_updates(d10, 1056);
    let (prob_skip, d12) = read_opt_byte(d11, 128);
    (
        CodedHeaderModel {
            color_space: if key_frame {
                Some(range_coder::dec_bit(d, 128))
            } else {
                None
            },
            clamping_type: if key_frame {
                Some(range_coder::dec_bit(range_coder::dec_next(d, 128), 128))
            } else {
                None
            },
            segmentation: if segmented {
                Some(seg)
            } else {
                None
            },
            filter_type: range_coder::dec_bit(d3, 128),
            level: bool_decoder::dec_literal(d4, 6),
            sharpness: bool_decoder::dec_literal(d5, 3),
            lf_adjust,
            log2_parts: bool_decoder::dec_literal(d7, 2),
            quant,
            refresh,
            token_probs,
            no_skip: prob_skip is Some,
            prob_skip,
        },
        d12,
    )
}

/// Reads a flag, and a signed number of `n` magnitude bits when it is set.
fn read_signed_delta(dec: &mut BoolDecoder<'_>, n: u32) -> (r: Option<i16>)
    requires
        old(dec).wf(),
        n <= 7,
    ensures
        final(dec).wf(),
        (r, final(dec)@) == read_delta(old(dec)@, n as nat),
        final(dec)@.data == old(dec)@.data,
        r matches Some(v) ==> -128 < v < 128,
        n <= 4 ==> (r matches Some(v) ==> -16 < v < 16),
{
    if dec.get_flag() {
        let ghost d1 = dec@;
        proof {
            crate::bool_decoder::lemma_dec_literal_bound(d1, n as nat);
            vstd::arithmetic::power2::lemma2_to64();
            if n < 7 {
                vstd::arithmetic::power2::lemma_pow2_strictly_increases(n as nat, 7);
            }
            if n < 4 {
                vstd::arithmetic::power2::lemma_pow2_strictly_increases(n as nat, 4);
            }
        }
        let v: i32 = dec.get_signed_literal(n);
        Some(v as i16)
    } else {
        None
    }
}

/// Reads a flag at `prob`, and a byte when it is set.
fn read_optional_byte(dec: &mut BoolDecoder<'_>, prob: u8) -> (r: Option<u8>)
    requires
        old(dec).wf(),
    ensures
        final(dec).wf(),
        (r, final(dec)@) == read_opt_byte(old(dec)@, prob),
        final(dec)@.data == old(dec)@.data,
{
    if dec.get_bool(prob) {
        let v: u32 = dec.get_literal(8);
        proof {
            vstd::arithmetic::power2::lemma2_to64();
        }
        Some(v as u8)
    } else {
        None
    }
}

/// Reads four optional signed numbers.
fn read_four_deltas(dec: &mut BoolDecoder<'_>, n: u32) -> (r: [Option<i16>; 4])
    requires
        old(dec).wf(),
        n <= 7,
    ensures
        final(dec).wf(),
        (r@, final(dec)@) == read_deltas(old(dec)@, n as nat, 4),
        final(dec)@.data == old(dec)@.data,
{
    let mut r: [Option<i16>; 4] = [None; 4];
    let mut i: usize = 0;
    while i < 4
        invariant
            i <= 4,
            n <= 7,
            dec.wf(),
            dec@.data == old(dec)@.data,
            r@.take(i as int) == read_deltas(old(dec)@, n as nat, i as nat).0,
            dec@ == read_deltas(old(dec)@, n as nat, i as nat).1,
        decreases 4 - i,
    {
        let ghost before = r@;
        let x: Option<i16> = read_signed_delta(dec, n);
        r[i] = x;
        assert(r@.take(i + 1) =~= before.take(i as int).push(x));
        i = i + 1;
    }
    assert(r@.take(4) =~= r@);
    r
}

fn parse_token_prob_update(dec: &mut BoolDecoder<'_>) -> (r: TokenProbUpdates)
    requires
        old(dec).wf(),
    ensures
        final(dec).wf(),
        (flat_updates(r), final(dec)@) == read_token_updates(old(dec)@, 1056),
        final(dec)@.data == old(dec)@.data,
{
    let mut r: TokenProbUpdates = [[[[None; 11]; 3]; 8]; 4];
    let mut x: usize = 0;
    while x < 1056
        invariant
            x <= 1056,
            dec.wf(),
            dec@.data == old(dec)@.data,
            flat_updates(r).take(x as int) == read_token_updates(old(dec)@, x as nat).0,
            dec@ == read_token_updates(old(dec)@, x as nat).1,
        decreases 1056 - x,
    {
        let ghost before = r;
        let i: usize = x / 264;
        let j: usize = x / 33 % 8;
        let k: usize = x / 11 % 3;
        let t: usize = x % 11;
        let v: Option<u8> = read_optional_byte(dec, update_prob_at(x));
        r[i][j][k][t] = v;
        assert forall|y: int| 0 <= y <= x implies #[trigger] flat_updates(r)[y] == if y == x {
            v
        } else {
            flat_updates(before)[y]
        } by {
            lemma_flat_index(x as int, y);
        }
        assert(flat_updates(r).take(x + 1) =~= flat_updates(before).take(x as int).push(v));
        x = x + 1;
    }
    assert(flat_updates(r).take(1056) =~= flat_updates(r));
    r
}

/// Two positions of the flat table that agree in every index are the same.
proof fn lemma_flat_index(x: int, y: int)
    requires
        0 <= x < 1056,
        0 <= y < 1056,
    ensures
        x / 264 == y / 264 && x / 33 % 8 == y / 33 % 8 && x / 11 % 3 == y / 11 % 3 && x % 11 == y
            % 11 ==> x == y,
        0 <= x / 264 < 4,
        0 <= y / 264 < 4,
{
    assert(x / 33 / 8 == x / 264);
    assert(y / 33 / 8 == y / 264);
    assert(x / 11 / 3 == x / 33);
    assert(y / 11 / 3 == y / 33);
}

fn parse_update_segmentation(dec: &mut BoolDecoder<'_>) -> (r: UpdateSegmentation)
    requires
        old(dec).wf(),
    ensures
        final(dec).wf(),
        (r@, final(dec)@) == read_segmentation(old(dec)@),
        final(dec)@.data == old(dec)@.data,
{
    let update_mb_segmentation_map: bool = dec.get_flag();
    let update_segment_feature_data: bool = dec.get_flag();
    let mut segment_feature_mode_absolute: bool = false;
    let mut quantizer_update: [Option<i16>; 4] = [None; 4];
    let mut loop_filter_update: [Option<i16>; 4] = [None; 4];
    if update_segment_feature_data {
        segment_feature_mode_absolute = dec.get_flag();
        quantizer_update = read_four_deltas(dec, 7);
        loop_filter_update = read_four_deltas(dec, 6);
    } else {
        assert(quantizer_update@ =~= no_deltas(4));
        assert(loop_filter_update@ =~= no_deltas(4));
    }
    let ghost d6 = dec@;
    let mut segment_prob: [Option<u8>; 3] = [None; 3];
    if update_mb_segmentation_map {
        let mut i: usize = 0;
        while i < 3
            invariant
                i <= 3,
                dec.wf(),
                dec@.data == old(dec)@.data,
                segment_prob@.take(i as int) == read_opt_bytes(d6, i as nat).0,
                dec@ == read_opt_bytes(d6, i as nat).1,
            decreases 3 - i,
        {
            let ghost before = segment_prob@;
            let x: Option<u8> = read_optional_byte(dec, 128);
            segment_prob[i] = x;
            assert(segment_prob@.take(i + 1) =~= before.take(i as int).push(x));
            i = i + 1;
        }
        assert(segment_prob@.take(3) =~= segment_prob@);
    } else {
        assert(segment_prob@ =~= Seq::new(3, |i: int| None));
    }
    UpdateSegmentation {
        update_mb_segmentation_map,
        update_segment_feature_data,
        segment_feature_mode_absolute,
        quantizer_update,
        loop_filter_update,
        segment_prob,
    }
}

fn parse_mb_lf_adjustments(dec: &mut BoolDecoder<'_>) -> (r: MbLfAdjustments)
    requires
        old(dec).wf(),
    ensures
        final(dec).wf(),
        (r@, final(dec)@) == read_lf_adjust(old(dec)@),
        final(dec)@.data == old(dec)@.data,
{
    let loop_filter_adj_enable: bool = dec.get_flag();
    let mut mode_ref_lf_delta_update: bool = false;
    let mut ref_frame_delta_update: [Option<i16>; 4] = [None; 4];
    let mut mb_mode_delta_update: [Option<i16>; 4] = [None; 4];
    assert(ref_frame_delta_update@ =~= no_deltas(4));
    if loop_filter_adj_enable {
        mode_ref_lf_delta_update = dec.get_flag();
        if mode_ref_lf_delta_update {
            ref_frame_delta_update = read_four_deltas(dec, 6);
            mb_mode_delta_update = read_four_deltas(dec, 6);
        }
    }
    assert(!mode_ref_lf_delta_update ==> mb_mode_delta_update@ =~= no_deltas(4));
    MbLfAdjustments {
        loop_filter_adj_enable,
        mode_ref_lf_delta_update,
        ref_frame_delta_update,
        mb_mode_delta_update,
    }
}

fn read_quant_delta(dec: &mut BoolDecoder<'_>) -> (r: Option<i8>)
    requires
        old(dec).wf(),
    ensures
        final(dec).wf(),
        r == narrow(read_delta(old(dec)@, 4).0),
        final(dec)@ == read_delta(old(dec)@, 4).1,
        final(dec)@.data == old(dec)@.data,
{
    match read_signed_delta(dec, 4) {
        Some(v) => Some(v as i8),
        None => None,
    }
}

fn parse_quant_indices(dec: &mut BoolDecoder<'_>) -> (r: QuantIndices)
    requires
        old(dec).wf(),
    ensures
        final(dec).wf(),
        (r, final(dec)@) == read_quant(old(dec)@),
        final(dec)@.data == old(dec)@.data,
        r.y_ac_qi <= 127,
{
    let y_ac_qi: u32 = dec.get_literal(7);
    proof {
        vstd::arithmetic::power2::lemma2_to64();
        reveal_with_fuel(read_deltas, 6);
    }
    let y_dc_delta: Option<i8> = read_quant_delta(dec);
    let y2_dc_delta: Option<i8> = read_quant_delta(dec);
    let y2_ac_delta: Option<i8> = read_quant_delta(dec);
    let uv_dc_delta: Option<i8> = read_quant_delta(dec);
    let uv_ac_delta: Option<i8> = read_quant_delta(dec);
    QuantIndices {
        y_ac_qi: y_ac_qi as u8,
        y_dc_delta,
        y2_dc_delta,
        y2_ac_delta,
        uv_dc_delta,
        uv_ac_delta,
    }
}

fn parse_copy_flag(dec: &mut BoolDecoder<'_>, refreshed: bool) -> (r: Option<u8>)
    requires
        old(dec).wf(),
    ensures
        final(dec).wf(),
        (r, final(dec)@) == read_copy_flag(old(dec)@, refreshed),
        final(dec)@.data == old(dec)@.data,
{
    if refreshed {
        None
    } else {
        let v: u32 = dec.get_literal(2);
        proof {
            vstd::arithmetic::power2::lemma2_to64();
        }
        Some(v as u8)
    }
}

impl Vp8CodedHeader {
    /// Reads the header from the start of the first partition.
    pub fn parse(partition: &[u8], key_frame: bool) -> (r: Result<Self, CodedHeaderError>)
        ensures
            ({
                let (m, d) = read_coded_header(range_coder::dec_start(partition@), key_frame);
                match r {
                    Ok(h) => partition@.len() >= 2 && bool_decoder::dec_inside(d) && h@ == m && h.consistent(),
                    Err(CodedHeaderError::BoolDecoder(e)) => if partition@.len() < 2 {
                        e == BoolDecoderError::InputTooShort
                    } else {
                        !bool_decoder::dec_inside(d) && e == BoolDecoderError::EndOfStream
                    },
                }
            }),
    {
        match BoolDecoder::init(partition) {
            Err(e) => Err(CodedHeaderError::BoolDecoder(e)),
            Ok(d) => {
                let mut dec: BoolDecoder<'_> = d;
                let h: Vp8CodedHeader = Vp8CodedHeader::parse_from(&mut dec, key_frame);
                if dec.overran() {
                    Err(CodedHeaderError::BoolDecoder(BoolDecoderError::EndOfStream))
                } else {
                    Ok(h)
                }
            },
        }
    }

    /// Reads the header at the decoder's position; what lies past the end of
    /// the data reads as zeros.
    pub fn parse_from(dec: &mut BoolDecoder<'_>, key_frame: bool) -> (h: Self)
        requires
            old(dec).wf(),
        ensures
            final(dec).wf(),
            (h@, final(dec)@) == read_coded_header(old(dec)@, key_frame),
            final(dec)@.data == old(dec)@.data,
            h.consistent(),
            h.loop_filter_level <= 63,
            h.sharpness_level <= 7,
            h.quant_indices.y_ac_qi <= 127,
    {
        let mut color_space: Option<bool> = None;
        let mut clamping_type: Option<bool> = None;
        if key_frame {
            color_space = Some(dec.get_flag());
            clamping_type = Some(dec.get_flag());
        }
        let segmentation_enabled: bool = dec.get_flag();
        let mut update_segmentation: Option<UpdateSegmentation> = None;
        if segmentation_enabled {
            update_segmentation = Some(parse_update_segmentation(dec));
        }
        proof {
            vstd::arithmetic::power2::lemma2_to64();
        }
        let filter_type: bool = dec.get_flag();
        let loop_filter_level: u32 = dec.get_literal(6);
        let sharpness_level: u32 = dec.get_literal(3);
        let mb_lf_adjustments: MbLfAdjustments = parse_mb_lf_adjustments(dec);
        let log2_parts: u32 = dec.get_literal(2);
        let nbr_of_dct_partitions: u8 = if log2_parts == 0 {
            1
        } else if log2_parts == 1 {
            2
        } else if log2_parts == 2 {
            4
        } else {
            8
        };
        let quant_indices: QuantIndices = parse_quant_indices(dec);
        let mut refresh_golden_frame: Option<bool> = None;
        let mut refresh_alternate_frame: Option<bool> = None;
        let mut copy_buffer_to_golden: Option<u8> = None;
        let mut copy_buffer_to_alternate: Option<u8> = None;
        let mut sign_bias_golden: Option<bool> = None;
        let mut sign_bias_alternate: Option<bool> = None;
        let mut refresh_last: Option<bool> = None;
        let refresh_entropy_probs: bool;
        if key_frame {
            refresh_entropy_probs = dec.get_flag();
        } else {
            let golden: bool = dec.get_flag();
            let alternate: bool = dec.get_flag();
            copy_buffer_to_golden = parse_copy_flag(dec, golden);
            copy_buffer_to_alternate = parse_copy_flag(dec, alternate);
            sign_bias_golden = Some(dec.get_flag());
            sign_bias_alternate = Some(dec.get_flag());
            refresh_entropy_probs = dec.get_flag();
            refresh_last = Some(dec.get_flag());
            refresh_golden_frame = Some(golden);
            refresh_alternate_frame = Some(alternate);
        }
        let token_prob_updates: TokenProbUpdates = parse_token_prob_update(dec);
        let prob_skip_false: Option<u8> = read_optional_byte(dec, 128);
        let mb_no_skip_coeff: bool = prob_skip_false.is_some();
        Vp8CodedHeader {
            color_space,
            clamping_type,
            segmentation_enabled,
            update_segmentation,
            filter_type,
            loop_filter_level: loop_filter_level as u8,
            sharpness_level: sharpness_level as u8,
            mb_lf_adjustments,
            log2_nbr_of_dct_partitions: log2_parts as u8,
            nbr_of_dct_partitions,
            quant_indices,
            refresh_entropy_probs,
            refresh_golden_frame,
            refresh_alternate_frame,
            copy_buffer_to_golden,
            copy_buffer_to_alternate,
            sign_bias_golden,
            sign_bias_alternate,
            refresh_last,
            token_prob_updates,
            mb_no_skip_coeff,
            prob_skip_false,
        }
    }
}

} // verus!
