//! Every header that can be written reads back as it was written.
use crate::bool_decoder;
use crate::coded_header;
use crate::coded_header::{
    CodedHeaderModel, LfAdjustModel, QuantIndices, RefreshModel, SegmentationModel,
};
use crate::frame_header;
use crate::frame_header::{HeaderModel, ProbsModel};
use crate::range_coder;
use crate::range_coder::DecState;
use crate::tables;
use crate::tables::MV_UPDATE_PROBS;
use vstd::arithmetic::power2;
use vstd::prelude::*;

verus! {

/// A flag at even odds.
pub open spec fn flag_ops(b: bool) -> Seq<(u8, bool)> {
    range_coder::one_op(128, b)
}

/// A flag that says whether a number follows, and the number: magnitude, then
/// sign.
pub open spec fn delta_ops(x: Option<i16>, bits: nat) -> Seq<(u8, bool)> {
    match x {
        None => flag_ops(false),
        Some(v) => flag_ops(true) + range_coder::signed_ops(v as int, bits),
    }
}

/// A number of at most `bits` bits, if there is one.
pub open spec fn delta_fits(x: Option<i16>, bits: nat) -> bool {
    match x {
        None => true,
        Some(v) => -power2::pow2(bits) < v < power2::pow2(bits),
    }
}

/// The first `n` of such numbers.
pub open spec fn deltas_ops(s: Seq<Option<i16>>, bits: nat, n: nat) -> Seq<(u8, bool)>
    decreases n,
{
    if n == 0 {
        Seq::empty()
    } else {
        deltas_ops(s, bits, (n - 1) as nat) + delta_ops(s[n - 1], bits)
    }
}

/// `n` numbers of at most `bits` bits.
pub open spec fn deltas_fit(s: Seq<Option<i16>>, bits: nat, n: nat) -> bool {
    &&& s.len() == n
    &&& forall|i: int| 0 <= i < n ==> delta_fits(#[trigger] s[i], bits)
}

/// A flag that says whether a byte follows, and the byte.
pub open spec fn byte_ops(x: Option<u8>, prob: u8) -> Seq<(u8, bool)> {
    match x {
        None => range_coder::one_op(prob, false),
        Some(v) => range_coder::one_op(prob, true) + range_coder::literal_ops(v as int, 8),
    }
}

/// The first `n` of such bytes, at even odds.
pub open spec fn bytes_ops(s: Seq<Option<u8>>, n: nat) -> Seq<(u8, bool)>
    decreases n,
{
    if n == 0 {
        Seq::empty()
    } else {
        bytes_ops(s, (n - 1) as nat) + byte_ops(s[n - 1], 128)
    }
}

/// The first `n` new coefficient probabilities, each with odds of its own.
pub open spec fn token_ops(s: Seq<Option<u8>>, n: nat) -> Seq<(u8, bool)>
    decreases n,
{
    if n == 0 {
        Seq::empty()
    } else {
        token_ops(s, (n - 1) as nat) + byte_ops(s[n - 1], tables::update_prob(n - 1))
    }
}

proof fn lemma_delta_reads_back(d: DecState, x: Option<i16>, bits: nat)
    requires
        delta_fits(x, bits),
        range_coder::decodes(d, delta_ops(x, bits)),
    ensures
        coded_header::read_delta(d, bits) == (x, range_coder::dec_after(d, delta_ops(x, bits))),
{
    range_coder::lemma_decodes_one(d, 128, x is Some);
    if let Some(v) = x {
        let ops = range_coder::signed_ops(v as int, bits);
        range_coder::lemma_decodes_append(d, flag_ops(true), ops);
        bool_decoder::law_signed_reads_back(range_coder::dec_next(d, 128), v as int, bits);
    }
}

proof fn lemma_deltas_read_back(d: DecState, s: Seq<Option<i16>>, bits: nat, n: nat)
    requires
        n <= s.len(),
        forall|i: int| 0 <= i < n ==> delta_fits(#[trigger] s[i], bits),
        range_coder::decodes(d, deltas_ops(s, bits, n)),
    ensures
        coded_header::read_deltas(d, bits, n) == (
            s.take(n as int),
            range_coder::dec_after(d, deltas_ops(s, bits, n)),
        ),
    decreases n,
{
    if n == 0 {
        range_coder::lemma_decodes_nothing(d);
        assert(s.take(0) =~= Seq::empty());
    } else {
        let m = (n - 1) as nat;
        let before = deltas_ops(s, bits, m);
        range_coder::lemma_decodes_append(d, before, delta_ops(s[n - 1], bits));
        lemma_deltas_read_back(d, s, bits, m);
        assert(delta_fits(s[n - 1], bits));
        lemma_delta_reads_back(range_coder::dec_after(d, before), s[n - 1], bits);
        assert(s.take(n as int) =~= s.take(m as int).push(s[n - 1]));
    }
}

proof fn lemma_byte_reads_back(d: DecState, x: Option<u8>, prob: u8)
    requires
        range_coder::decodes(d, byte_ops(x, prob)),
    ensures
        coded_header::read_opt_byte(d, prob) == (x, range_coder::dec_after(d, byte_ops(x, prob))),
{
    power2::lemma2_to64();
    range_coder::lemma_decodes_one(d, prob, x is Some);
    if let Some(v) = x {
        let ops = range_coder::literal_ops(v as int, 8);
        range_coder::lemma_decodes_append(d, range_coder::one_op(prob, true), ops);
        bool_decoder::law_literal_reads_back(range_coder::dec_next(d, prob), v as int, 8);
    }
}

proof fn lemma_bytes_read_back(d: DecState, s: Seq<Option<u8>>, n: nat)
    requires
        n <= s.len(),
        range_coder::decodes(d, bytes_ops(s, n)),
    ensures
        coded_header::read_opt_bytes(d, n) == (
            s.take(n as int),
            range_coder::dec_after(d, bytes_ops(s, n)),
        ),
    decreases n,
{
    if n == 0 {
        range_coder::lemma_decodes_nothing(d);
        assert(s.take(0) =~= Seq::empty());
    } else {
        let m = (n - 1) as nat;
        let before = bytes_ops(s, m);
        range_coder::lemma_decodes_append(d, before, byte_ops(s[n - 1], 128));
        lemma_bytes_read_back(d, s, m);
        lemma_byte_reads_back(range_coder::dec_after(d, before), s[n - 1], 128);
        assert(s.take(n as int) =~= s.take(m as int).push(s[n - 1]));
    }
}

proof fn lemma_tokens_read_back(d: DecState, s: Seq<Option<u8>>, n: nat)
    requires
        n <= s.len(),
        range_coder::decodes(d, token_ops(s, n)),
    ensures
        coded_header::read_token_updates(d, n) == (
            s.take(n as int),
            range_coder::dec_after(d, token_ops(s, n)),
        ),
    decreases n,
{
    if n == 0 {
        range_coder::lemma_decodes_nothing(d);
        assert(s.take(0) =~= Seq::empty());
    } else {
        let m = (n - 1) as nat;
        let before = token_ops(s, m);
        let prob = tables::update_prob(n - 1);
        range_coder::lemma_decodes_append(d, before, byte_ops(s[n - 1], prob));
        lemma_tokens_read_back(d, s, m);
        lemma_byte_reads_back(range_coder::dec_after(d, before), s[n - 1], prob);
        assert(s.take(n as int) =~= s.take(m as int).push(s[n - 1]));
    }
}

/// How segments are written: what changes, then the values of the segments, then
/// the odds of the segment numbers.
pub open spec fn segmentation_ops(s: SegmentationModel) -> Seq<(u8, bool)> {
    flag_ops(s.update_map) + flag_ops(s.update_data) + (if s.update_data {
        flag_ops(s.absolute) + deltas_ops(s.quantizer, 7, 4) + deltas_ops(s.loop_filter, 6, 4)
    } else {
        Seq::empty()
    }) + (if s.update_map {
        bytes_ops(s.prob, 3)
    } else {
        Seq::empty()
    })
}

pub open spec fn segmentation_fits(s: SegmentationModel) -> bool {
    &&& deltas_fit(s.quantizer, 7, 4)
    &&& deltas_fit(s.loop_filter, 6, 4)
    &&& s.prob.len() == 3
    &&& !s.update_data ==> {
        &&& !s.absolute
        &&& forall|i: int| 0 <= i < 4 ==> #[trigger] s.quantizer[i] is None
        &&& forall|i: int| 0 <= i < 4 ==> #[trigger] s.loop_filter[i] is None
    }
    &&& !s.update_map ==> forall|i: int| 0 <= i < 3 ==> #[trigger] s.prob[i] is None
}

proof fn lemma_segmentation_reads_back(d: DecState, s: SegmentationModel)
    requires
        segmentation_fits(s),
        range_coder::decodes(d, segmentation_ops(s)),
    ensures
        coded_header::read_segmentation(d) == (s, range_coder::dec_after(d, segmentation_ops(s))),
{
    let a = flag_ops(s.update_map);
    let b = flag_ops(s.update_data);
    let c0 = flag_ops(s.absolute);
    let c1 = deltas_ops(s.quantizer, 7, 4);
    let c2 = deltas_ops(s.loop_filter, 6, 4);
    let c = if s.update_data {
        c0 + c1 + c2
    } else {
        Seq::empty()
    };
    let e = if s.update_map {
        bytes_ops(s.prob, 3)
    } else {
        Seq::empty()
    };
    range_coder::lemma_decodes_append(d, a + b + c, e);
    range_coder::lemma_decodes_append(d, a + b, c);
    range_coder::lemma_decodes_append(d, a, b);
    range_coder::lemma_decodes_one(d, 128, s.update_map);
    let d1 = range_coder::dec_next(d, 128);
    range_coder::lemma_decodes_one(d1, 128, s.update_data);
    let d2 = range_coder::dec_next(d1, 128);
    range_coder::lemma_decodes_nothing(d2);
    if s.update_data {
        range_coder::lemma_decodes_append(d2, c0 + c1, c2);
        range_coder::lemma_decodes_append(d2, c0, c1);
        range_coder::lemma_decodes_one(d2, 128, s.absolute);
        let d3 = range_coder::dec_next(d2, 128);
        lemma_deltas_read_back(d3, s.quantizer, 7, 4);
        lemma_deltas_read_back(range_coder::dec_after(d3, c1), s.loop_filter, 6, 4);
    }
    let d6 = range_coder::dec_after(d2, c);
    range_coder::lemma_decodes_nothing(d6);
    if s.update_map {
        lemma_bytes_read_back(d6, s.prob, 3);
    }
    assert(s.quantizer.take(4) =~= s.quantizer);
    assert(s.loop_filter.take(4) =~= s.loop_filter);
    assert(s.prob.take(3) =~= s.prob);
    let r = coded_header::read_segmentation(d).0;
    assert(r.quantizer =~= s.quantizer);
    assert(r.loop_filter =~= s.loop_filter);
    assert(r.prob =~= s.prob);
}

/// How the loop-filter deltas are written.
pub open spec fn adjust_ops(a: LfAdjustModel) -> Seq<(u8, bool)> {
    if !a.enable {
        flag_ops(false)
    } else if !a.update {
        flag_ops(true) + flag_ops(false)
    } else {
        flag_ops(true) + flag_ops(true) + deltas_ops(a.ref_frame, 6, 4) + deltas_ops(a.mode, 6, 4)
    }
}

pub open spec fn adjust_fits(a: LfAdjustModel) -> bool {
    &&& deltas_fit(a.ref_frame, 6, 4)
    &&& deltas_fit(a.mode, 6, 4)
    &&& a.update ==> a.enable
    &&& !a.update ==> {
        &&& forall|i: int| 0 <= i < 4 ==> #[trigger] a.ref_frame[i] is None
        &&& forall|i: int| 0 <= i < 4 ==> #[trigger] a.mode[i] is None
    }
}

proof fn lemma_adjust_reads_back(d: DecState, a: LfAdjustModel)
    requires
        adjust_fits(a),
        range_coder::decodes(d, adjust_ops(a)),
    ensures
        coded_header::read_lf_adjust(d) == (a, range_coder::dec_after(d, adjust_ops(a))),
{
    range_coder::lemma_decodes_one(d, 128, a.enable);
    let d1 = range_coder::dec_next(d, 128);
    let x = flag_ops(a.enable);
    let y = flag_ops(a.update);
    let r = deltas_ops(a.ref_frame, 6, 4);
    let m = deltas_ops(a.mode, 6, 4);
    range_coder::lemma_decodes_append(d, x + y + r, m);
    range_coder::lemma_decodes_append(d, x + y, r);
    range_coder::lemma_decodes_append(d, x, y);
    range_coder::lemma_decodes_one(d1, 128, a.update);
    let d2 = range_coder::dec_next(d1, 128);
    if a.update {
        lemma_deltas_read_back(d2, a.ref_frame, 6, 4);
        lemma_deltas_read_back(range_coder::dec_after(d2, r), a.mode, 6, 4);
    }
    assert(a.ref_frame.take(4) =~= a.ref_frame);
    assert(a.mode.take(4) =~= a.mode);
    let got = coded_header::read_lf_adjust(d).0;
    assert(got.ref_frame =~= a.ref_frame);
    assert(got.mode =~= a.mode);
}

/// An index offset as one of the optional numbers.
pub open spec fn wide(x: Option<i8>) -> Option<i16> {
    match x {
        None => None,
        Some(v) => Some(v as i16),
    }
}

/// The index offsets in the order in which they are written.
pub open spec fn offsets(q: QuantIndices) -> Seq<Option<i16>> {
    seq![
        wide(q.y_dc_delta),
        wide(q.y2_dc_delta),
        wide(q.y2_ac_delta),
        wide(q.uv_dc_delta),
        wide(q.uv_ac_delta),
    ]
}

/// How the quantizer indices are written.
pub open spec fn quant_ops(q: QuantIndices) -> Seq<(u8, bool)> {
    range_coder::literal_ops(q.y_ac_qi as int, 7) + deltas_ops(offsets(q), 4, 5)
}

pub open spec fn quant_fits(q: QuantIndices) -> bool {
    q.y_ac_qi < 128 && deltas_fit(offsets(q), 4, 5)
}

proof fn lemma_quant_reads_back(d: DecState, q: QuantIndices)
    requires
        quant_fits(q),
        range_coder::decodes(d, quant_ops(q)),
    ensures
        coded_header::read_quant(d) == (q, range_coder::dec_after(d, quant_ops(q))),
{
    power2::lemma2_to64();
    let a = range_coder::literal_ops(q.y_ac_qi as int, 7);
    let s = offsets(q);
    range_coder::lemma_decodes_append(d, a, deltas_ops(s, 4, 5));
    bool_decoder::law_literal_reads_back(d, q.y_ac_qi as int, 7);
    lemma_deltas_read_back(range_coder::dec_after(d, a), s, 4, 5);
    assert(s.take(5) =~= s);
    assert(delta_fits(s[0], 4) && delta_fits(s[1], 4) && delta_fits(s[2], 4) && delta_fits(s[3], 4)
        && delta_fits(s[4], 4));
}

/// How it is written which pictures a frame refreshes: golden, alternate, from
/// where each is copied if it is not refreshed, their directions, whether the
/// probabilities stay, and the last picture.
pub open spec fn refresh_ops(r: RefreshModel, key_frame: bool) -> Seq<(u8, bool)> {
    if key_frame {
        flag_ops(r.entropy)
    } else {
        flag_ops(r.golden->0) + flag_ops(r.alternate->0) + (if r.golden->0 {
            Seq::empty()
        } else {
            range_coder::literal_ops(r.copy_to_golden->0 as int, 2)
        }) + (if r.alternate->0 {
            Seq::empty()
        } else {
            range_coder::literal_ops(r.copy_to_alternate->0 as int, 2)
        }) + flag_ops(r.sign_golden->0) + flag_ops(r.sign_alternate->0) + flag_ops(r.entropy)
            + flag_ops(r.last->0)
    }
}

pub open spec fn copy_fits(copy: Option<u8>, refreshed: bool) -> bool {
    match copy {
        None => refreshed,
        Some(v) => !refreshed && v < 4,
    }
}

pub open spec fn refresh_fits(r: RefreshModel, key_frame: bool) -> bool {
    if key_frame {
        &&& r.golden is None
        &&& r.alternate is None
        &&& r.copy_to_golden is None
        &&& r.copy_to_alternate is None
        &&& r.sign_golden is None
        &&& r.sign_alternate is None
        &&& r.last is None
    } else {
        &&& r.golden is Some
        &&& r.alternate is Some
        &&& copy_fits(r.copy_to_golden, r.golden->0)
        &&& copy_fits(r.copy_to_alternate, r.alternate->0)
        &&& r.sign_golden is Some
        &&& r.sign_alternate is Some
        &&& r.last is Some
    }
}

proof fn lemma_copy_reads_back(d: DecState, copy: Option<u8>, refreshed: bool, ops: Seq<(u8, bool)>)
    requires
        copy_fits(copy, refreshed),
        ops == if refreshed {
            Seq::empty()
        } else {
            range_coder::literal_ops(copy->0 as int, 2)
        },
        range_coder::decodes(d, ops),
    ensures
        coded_header::read_copy_flag(d, refreshed) == (copy, range_coder::dec_after(d, ops)),
{
    power2::lemma2_to64();
    if refreshed {
        range_coder::lemma_decodes_nothing(d);
    } else {
        bool_decoder::law_literal_reads_back(d, copy->0 as int, 2);
    }
}

proof fn lemma_refresh_reads_back(d: DecState, r: RefreshModel, key_frame: bool)
    requires
        refresh_fits(r, key_frame),
        range_coder::decodes(d, refresh_ops(r, key_frame)),
    ensures
        coded_header::read_refresh(d, key_frame) == (
            r,
            range_coder::dec_after(d, refresh_ops(r, key_frame)),
        ),
{
    if key_frame {
        range_coder::lemma_decodes_one(d, 128, r.entropy);
    } else {
        let s1 = flag_ops(r.golden->0);
        let s2 = flag_ops(r.alternate->0);
        let s3 = if r.golden->0 {
            Seq::empty()
        } else {
            range_coder::literal_ops(r.copy_to_golden->0 as int, 2)
        };
        let s4 = if r.alternate->0 {
            Seq::empty()
        } else {
            range_coder::literal_ops(r.copy_to_alternate->0 as int, 2)
        };
        let s5 = flag_ops(r.sign_golden->0);
        let s6 = flag_ops(r.sign_alternate->0);
        let s7 = flag_ops(r.entropy);
        let s8 = flag_ops(r.last->0);
        range_coder::lemma_decodes_append(d, s1 + s2 + s3 + s4 + s5 + s6 + s7, s8);
        range_coder::lemma_decodes_append(d, s1 + s2 + s3 + s4 + s5 + s6, s7);
        range_coder::lemma_decodes_append(d, s1 + s2 + s3 + s4 + s5, s6);
        range_coder::lemma_decodes_append(d, s1 + s2 + s3 + s4, s5);
        range_coder::lemma_decodes_append(d, s1 + s2 + s3, s4);
        range_coder::lemma_decodes_append(d, s1 + s2, s3);
        range_coder::lemma_decodes_append(d, s1, s2);
        range_coder::lemma_decodes_one(d, 128, r.golden->0);
        let d1 = range_coder::dec_next(d, 128);
        range_coder::lemma_decodes_one(d1, 128, r.alternate->0);
        let d2 = range_coder::dec_next(d1, 128);
        lemma_copy_reads_back(d2, r.copy_to_golden, r.golden->0, s3);
        let d3 = range_coder::dec_after(d2, s3);
        lemma_copy_reads_back(d3, r.copy_to_alternate, r.alternate->0, s4);
        let d4 = range_coder::dec_after(d3, s4);
        range_coder::lemma_decodes_one(d4, 128, r.sign_golden->0);
        let d5 = range_coder::dec_next(d4, 128);
        range_coder::lemma_decodes_one(d5, 128, r.sign_alternate->0);
        let d6 = range_coder::dec_next(d5, 128);
        range_coder::lemma_decodes_one(d6, 128, r.entropy);
        let d7 = range_coder::dec_next(d6, 128);
        range_coder::lemma_decodes_one(d7, 128, r.last->0);
    }
}

/// How the first part of a header is written: on a key frame the colour space
/// and the clamping, then the segments.
pub open spec fn opening_ops(h: CodedHeaderModel, key_frame: bool) -> Seq<(u8, bool)> {
    (if key_frame {
        flag_ops(h.color_space->0) + flag_ops(h.clamping_type->0)
    } else {
        Seq::empty()
    }) + flag_ops(h.segmentation is Some) + (match h.segmentation {
        Some(s) => segmentation_ops(s),
        None => Seq::empty(),
    })
}

/// How the loop filter and the number of partitions are written.
pub open spec fn filter_ops(h: CodedHeaderModel) -> Seq<(u8, bool)> {
    flag_ops(h.filter_type) + range_coder::literal_ops(h.level, 6) + range_coder::literal_ops(
        h.sharpness,
        3,
    ) + adjust_ops(h.lf_adjust) + range_coder::literal_ops(h.log2_parts, 2)
}

/// How a header is written, up to and with the skip probability.
pub open spec fn coded_header_ops(h: CodedHeaderModel, key_frame: bool) -> Seq<(u8, bool)> {
    opening_ops(h, key_frame) + filter_ops(h) + quant_ops(h.quant) + refresh_ops(
        h.refresh,
        key_frame,
    ) + token_ops(h.token_probs, 1056) + byte_ops(h.prob_skip, 128)
}

/// A header that can be written.
pub open spec fn header_fits(h: CodedHeaderModel, key_frame: bool) -> bool {
    &&& h.color_space is Some <==> key_frame
    &&& h.clamping_type is Some <==> key_frame
    &&& h.segmentation is Some ==> segmentation_fits(h.segmentation->0)
    &&& 0 <= h.level <= 63
    &&& 0 <= h.sharpness <= 7
    &&& adjust_fits(h.lf_adjust)
    &&& 0 <= h.log2_parts <= 3
    &&& quant_fits(h.quant)
    &&& refresh_fits(h.refresh, key_frame)
    &&& h.token_probs.len() == 1056
    &&& h.no_skip == (h.prob_skip is Some)
}

/// What stands in the stream behind the opening of a header.
spec fn behind_opening(d: DecState, key_frame: bool) -> (
    Option<bool>,
    Option<bool>,
    Option<SegmentationModel>,
    DecState,
) {
    let d1 = if key_frame {
        range_coder::dec_next(range_coder::dec_next(d, 128), 128)
    } else {
        d
    };
    let d2 = range_coder::dec_next(d1, 128);
    let r = coded_header::read_segmentation(d2);
    (
        if key_frame {
            Some(range_coder::dec_bit(d, 128))
        } else {
            None
        },
        if key_frame {
            Some(range_coder::dec_bit(range_coder::dec_next(d, 128), 128))
        } else {
            None
        },
        if range_coder::dec_bit(d1, 128) {
            Some(r.0)
        } else {
            None
        },
        if range_coder::dec_bit(d1, 128) {
            r.1
        } else {
            d2
        },
    )
}

proof fn lemma_opening_reads_back(d: DecState, h: CodedHeaderModel, key_frame: bool)
    requires
        header_fits(h, key_frame),
        range_coder::decodes(d, opening_ops(h, key_frame)),
    ensures
        behind_opening(d, key_frame) == (
            h.color_space,
            h.clamping_type,
            h.segmentation,
            range_coder::dec_after(d, opening_ops(h, key_frame)),
        ),
{
    let x = flag_ops(h.color_space->0);
    let y = flag_ops(h.clamping_type->0);
    let a = if key_frame {
        x + y
    } else {
        Seq::empty()
    };
    let b = flag_ops(h.segmentation is Some);
    let c = match h.segmentation {
        Some(s) => segmentation_ops(s),
        None => Seq::empty(),
    };
    range_coder::lemma_decodes_append(d, a + b, c);
    range_coder::lemma_decodes_append(d, a, b);
    range_coder::lemma_decodes_nothing(d);
    if key_frame {
        range_coder::lemma_decodes_append(d, x, y);
        range_coder::lemma_decodes_one(d, 128, h.color_space->0);
        range_coder::lemma_decodes_one(
            range_coder::dec_next(d, 128),
            128,
            h.clamping_type->0,
        );
    }
    let d1 = range_coder::dec_after(d, a);
    range_coder::lemma_decodes_one(d1, 128, h.segmentation is Some);
    let d2 = range_coder::dec_next(d1, 128);
    range_coder::lemma_decodes_nothing(d2);
    if let Some(s) = h.segmentation {
        lemma_segmentation_reads_back(d2, s);
    }
}

proof fn lemma_filter_reads_back(d: DecState, h: CodedHeaderModel)
    requires
        0 <= h.level <= 63,
        0 <= h.sharpness <= 7,
        adjust_fits(h.lf_adjust),
        0 <= h.log2_parts <= 3,
        range_coder::decodes(d, filter_ops(h)),
    ensures
        ({
            let d4 = range_coder::dec_next(d, 128);
            let d5 = bool_decoder::dec_skip(d4, 6);
            let d6 = bool_decoder::dec_skip(d5, 3);
            let r = coded_header::read_lf_adjust(d6);
            &&& range_coder::dec_bit(d, 128) == h.filter_type
            &&& bool_decoder::dec_literal(d4, 6) == h.level
            &&& bool_decoder::dec_literal(d5, 3) == h.sharpness
            &&& r.0 == h.lf_adjust
            &&& bool_decoder::dec_literal(r.1, 2) == h.log2_parts
            &&& bool_decoder::dec_skip(r.1, 2) == range_coder::dec_after(d, filter_ops(h))
        }),
{
    power2::lemma2_to64();
    let a = flag_ops(h.filter_type);
    let b = range_coder::literal_ops(h.level, 6);
    let c = range_coder::literal_ops(h.sharpness, 3);
    let e = adjust_ops(h.lf_adjust);
    let g = range_coder::literal_ops(h.log2_parts, 2);
    range_coder::lemma_decodes_append(d, a + b + c + e, g);
    range_coder::lemma_decodes_append(d, a + b + c, e);
    range_coder::lemma_decodes_append(d, a + b, c);
    range_coder::lemma_decodes_append(d, a, b);
    range_coder::lemma_decodes_one(d, 128, h.filter_type);
    let d4 = range_coder::dec_next(d, 128);
    bool_decoder::law_literal_reads_back(d4, h.level, 6);
    let d5 = range_coder::dec_after(d4, b);
    bool_decoder::law_literal_reads_back(d5, h.sharpness, 3);
    let d6 = range_coder::dec_after(d5, c);
    lemma_adjust_reads_back(d6, h.lf_adjust);
    bool_decoder::law_literal_reads_back(range_coder::dec_after(d6, e), h.log2_parts, 2);
}

/// A header that can be written reads back as it was written, on key frames and
/// on inter frames, with every part that it can have.
pub proof fn law_coded_header_reads_back(d: DecState, h: CodedHeaderModel, key_frame: bool)
    requires
        header_fits(h, key_frame),
        range_coder::decodes(d, coded_header_ops(h, key_frame)),
    ensures
        coded_header::read_coded_header(d, key_frame) == (
            h,
            range_coder::dec_after(d, coded_header_ops(h, key_frame)),
        ),
{
    let s1 = opening_ops(h, key_frame);
    let s2 = filter_ops(h);
    let s3 = quant_ops(h.quant);
    let s4 = refresh_ops(h.refresh, key_frame);
    let s5 = token_ops(h.token_probs, 1056);
    let s6 = byte_ops(h.prob_skip, 128);
    range_coder::lemma_decodes_append(d, s1 + s2 + s3 + s4 + s5, s6);
    range_coder::lemma_decodes_append(d, s1 + s2 + s3 + s4, s5);
    range_coder::lemma_decodes_append(d, s1 + s2 + s3, s4);
    range_coder::lemma_decodes_append(d, s1 + s2, s3);
    range_coder::lemma_decodes_append(d, s1, s2);
    lemma_opening_reads_back(d, h, key_frame);
    let d3 = range_coder::dec_after(d, s1);
    lemma_filter_reads_back(d3, h);
    let d8 = range_coder::dec_after(d3, s2);
    lemma_quant_reads_back(d8, h.quant);
    let d9 = range_coder::dec_after(d8, s3);
    lemma_refresh_reads_back(d9, h.refresh, key_frame);
    let d10 = range_coder::dec_after(d9, s4);
    lemma_tokens_read_back(d10, h.token_probs, 1056);
    assert(h.token_probs.take(1056) =~= h.token_probs);
    lemma_byte_reads_back(range_coder::dec_after(d10, s5), h.prob_skip, 128);
}

/// What only inter frames have: the odds of intra macroblocks and of the
/// reference pictures, and new probabilities where there are any.
pub struct InterPart {
    pub intra: u8,
    pub last: u8,
    pub golden: u8,
    pub ymode: Option<Seq<u8>>,
    pub uv_mode: Option<Seq<u8>>,
    /// Seven bits of each new vector probability.
    pub row: Seq<Option<int>>,
    pub col: Seq<Option<int>>,
}

/// The first `n` bytes of `s`.
pub open spec fn all_bytes_ops(s: Seq<u8>, n: nat) -> Seq<(u8, bool)>
    decreases n,
{
    if n == 0 {
        Seq::empty()
    } else {
        all_bytes_ops(s, (n - 1) as nat) + range_coder::literal_ops(s[n - 1] as int, 8)
    }
}

/// New bytes, or a flag that says that there are none.
pub open spec fn new_bytes_ops(s: Option<Seq<u8>>) -> Seq<(u8, bool)> {
    match s {
        None => flag_ops(false),
        Some(b) => flag_ops(true) + all_bytes_ops(b, b.len()),
    }
}

/// The first `n` vector probabilities of a component.
pub open spec fn mv_probs_ops(s: Seq<Option<int>>, update: Seq<u8>, n: nat) -> Seq<(u8, bool)>
    decreases n,
{
    if n == 0 {
        Seq::empty()
    } else {
        mv_probs_ops(s, update, (n - 1) as nat) + (match s[n - 1] {
            None => range_coder::one_op(update[n - 1], false),
            Some(x) => range_coder::one_op(update[n - 1], true) + range_coder::literal_ops(x, 7),
        })
    }
}

/// How the part that only inter frames have is written.
pub open spec fn inter_part_ops(p: InterPart) -> Seq<(u8, bool)> {
    range_coder::literal_ops(p.intra as int, 8) + range_coder::literal_ops(p.last as int, 8)
        + range_coder::literal_ops(p.golden as int, 8) + new_bytes_ops(p.ymode) + new_bytes_ops(
        p.uv_mode,
    ) + mv_probs_ops(p.row, MV_UPDATE_PROBS[0]@, 19) + mv_probs_ops(
        p.col,
        MV_UPDATE_PROBS[1]@,
        19,
    )
}

pub open spec fn new_mv_probs_fit(s: Seq<Option<int>>) -> bool {
    &&& s.len() == 19
    &&& forall|i: int| 0 <= i < 19 && (#[trigger] s[i]) is Some ==> 0 <= s[i]->0 < 128
}

/// A part that can be written in place of `base`.
pub open spec fn inter_part_fits(p: InterPart, base: ProbsModel) -> bool {
    &&& p.ymode is Some ==> p.ymode->0.len() == base.ymode.len()
    &&& p.uv_mode is Some ==> p.uv_mode->0.len() == base.uv_mode.len()
    &&& base.mv.len() == 2
    &&& base.mv[0].len() == 19
    &&& base.mv[1].len() == 19
    &&& new_mv_probs_fit(p.row)
    &&& new_mv_probs_fit(p.col)
}

/// The new value where there is one, and else the old one.
pub open spec fn replaced<T>(new: Option<T>, old: T) -> T {
    match new {
        Some(x) => x,
        None => old,
    }
}

/// Twice the seven bits, or one where they are zero; and else the old
/// probability.
pub open spec fn doubled(new: Option<int>, old: u8) -> int {
    match new {
        Some(x) => if x == 0 {
            1
        } else {
            2 * x
        },
        None => old as int,
    }
}

proof fn lemma_all_bytes_read_back(d: DecState, s: Seq<u8>, n: nat)
    requires
        n <= s.len(),
        range_coder::decodes(d, all_bytes_ops(s, n)),
    ensures
        frame_header::read_bytes(d, n) == (
            s.take(n as int),
            range_coder::dec_after(d, all_bytes_ops(s, n)),
        ),
    decreases n,
{
    if n == 0 {
        range_coder::lemma_decodes_nothing(d);
        assert(s.take(0) =~= Seq::empty());
    } else {
        power2::lemma2_to64();
        let m = (n - 1) as nat;
        let before = all_bytes_ops(s, m);
        let v = s[n - 1] as int;
        range_coder::lemma_decodes_append(d, before, range_coder::literal_ops(v, 8));
        lemma_all_bytes_read_back(d, s, m);
        bool_decoder::law_literal_reads_back(range_coder::dec_after(d, before), v, 8);
        assert(s.take(n as int) =~= s.take(m as int).push(s[n - 1]));
    }
}

proof fn lemma_new_bytes_read_back(d: DecState, s: Option<Seq<u8>>, base: Seq<u8>)
    requires
        s is Some ==> s->0.len() == base.len(),
        range_coder::decodes(d, new_bytes_ops(s)),
    ensures
        frame_header::read_new_bytes(d, base) == (
            replaced(s, base),
            range_coder::dec_after(d, new_bytes_ops(s)),
        ),
{
    range_coder::lemma_decodes_one(d, 128, s is Some);
    if let Some(b) = s {
        range_coder::lemma_decodes_append(d, flag_ops(true), all_bytes_ops(b, b.len()));
        lemma_all_bytes_read_back(range_coder::dec_next(d, 128), b, b.len());
        assert(b.take(b.len() as int) =~= b);
    }
}

proof fn lemma_mv_probs_read_back(
    d: DecState,
    s: Seq<Option<int>>,
    update: Seq<u8>,
    base: Seq<u8>,
    n: nat,
)
    requires
        new_mv_probs_fit(s),
        n <= 19,
        range_coder::decodes(d, mv_probs_ops(s, update, n)),
    ensures
        ({
            let r = frame_header::read_mv_probs(d, update, base, n);
            &&& r.0.len() == n
            &&& forall|i: int| 0 <= i < n ==> #[trigger] r.0[i] == doubled(s[i], base[i])
            &&& r.1 == range_coder::dec_after(d, mv_probs_ops(s, update, n))
        }),
    decreases n,
{
    if n == 0 {
        range_coder::lemma_decodes_nothing(d);
    } else {
        power2::lemma2_to64();
        let m = (n - 1) as nat;
        let before = mv_probs_ops(s, update, m);
        let q = update[n - 1];
        let first = range_coder::one_op(q, s[n - 1] is Some);
        let ops = match s[n - 1] {
            None => first,
            Some(x) => first + range_coder::literal_ops(x, 7),
        };
        range_coder::lemma_decodes_append(d, before, ops);
        lemma_mv_probs_read_back(d, s, update, base, m);
        let d1 = range_coder::dec_after(d, before);
        range_coder::lemma_decodes_one(d1, q, s[n - 1] is Some);
        if let Some(x) = s[n - 1] {
            range_coder::lemma_decodes_append(d1, first, range_coder::literal_ops(x, 7));
            bool_decoder::law_literal_reads_back(range_coder::dec_next(d1, q), x, 7);
        }
        let r = frame_header::read_mv_probs(d, update, base, n);
        assert(r.0[n - 1] == doubled(s[n - 1], base[n - 1]));
    }
}

/// `h` holds what the part that only inter frames have says, on top of `base`.
pub open spec fn holds_inter_part(h: HeaderModel, p: InterPart, base: ProbsModel) -> bool {
    &&& h.prob_intra == p.intra
    &&& h.prob_last == p.last
    &&& h.prob_gf == p.golden
    &&& h.probs.ymode == replaced(p.ymode, base.ymode)
    &&& h.probs.uv_mode == replaced(p.uv_mode, base.uv_mode)
    &&& h.probs.mv.len() == 2
    &&& h.probs.mv[0].len() == 19
    &&& h.probs.mv[1].len() == 19
    &&& forall|i: int| 0 <= i < 19 ==> #[trigger] h.probs.mv[0][i] == doubled(p.row[i], base.mv[0][i])
    &&& forall|i: int| 0 <= i < 19 ==> #[trigger] h.probs.mv[1][i] == doubled(p.col[i], base.mv[1][i])
}

/// `h` holds what a coded header says, on top of `base`: each coefficient
/// probability and each loop-filter delta is the new one or stays.
pub open spec fn holds_updates(h: HeaderModel, coded: CodedHeaderModel, base: ProbsModel) -> bool {
    &&& h.coded == coded
    &&& h.probs.coef.len() == base.coef.len()
    &&& forall|i: int|
        0 <= i < base.coef.len() ==> #[trigger] h.probs.coef[i] == replaced(
            coded.token_probs[i],
            base.coef[i],
        )
    &&& h.probs.ref_deltas.len() == base.ref_deltas.len()
    &&& forall|i: int|
        0 <= i < base.ref_deltas.len() ==> #[trigger] h.probs.ref_deltas[i] == replaced(
            coded.lf_adjust.ref_frame[i],
            base.ref_deltas[i],
        )
    &&& h.probs.mode_deltas.len() == base.mode_deltas.len()
    &&& forall|i: int|
        0 <= i < base.mode_deltas.len() ==> #[trigger] h.probs.mode_deltas[i] == replaced(
            coded.lf_adjust.mode[i],
            base.mode_deltas[i],
        )
}

proof fn lemma_inter_part_reads_back(d: DecState, h: HeaderModel, p: InterPart)
    requires
        inter_part_fits(p, h.probs),
        range_coder::decodes(d, inter_part_ops(p)),
    ensures
        ({
            let r = frame_header::read_inter_part(d, h);
            &&& holds_inter_part(r.0, p, h.probs)
            &&& r.0.coded == h.coded
            &&& r.0.probs.coef == h.probs.coef
            &&& r.0.probs.ref_deltas == h.probs.ref_deltas
            &&& r.0.probs.mode_deltas == h.probs.mode_deltas
            &&& r.1 == range_coder::dec_after(d, inter_part_ops(p))
        }),
{
    power2::lemma2_to64();
    let s1 = range_coder::literal_ops(p.intra as int, 8);
    let s2 = range_coder::literal_ops(p.last as int, 8);
    let s3 = range_coder::literal_ops(p.golden as int, 8);
    let s4 = new_bytes_ops(p.ymode);
    let s5 = new_bytes_ops(p.uv_mode);
    let s6 = mv_probs_ops(p.row, MV_UPDATE_PROBS[0]@, 19);
    let s7 = mv_probs_ops(p.col, MV_UPDATE_PROBS[1]@, 19);
    range_coder::lemma_decodes_append(d, s1 + s2 + s3 + s4 + s5 + s6, s7);
    range_coder::lemma_decodes_append(d, s1 + s2 + s3 + s4 + s5, s6);
    range_coder::lemma_decodes_append(d, s1 + s2 + s3 + s4, s5);
    range_coder::lemma_decodes_append(d, s1 + s2 + s3, s4);
    range_coder::lemma_decodes_append(d, s1 + s2, s3);
    range_coder::lemma_decodes_append(d, s1, s2);
    bool_decoder::law_literal_reads_back(d, p.intra as int, 8);
    let d1 = range_coder::dec_after(d, s1);
    bool_decoder::law_literal_reads_back(d1, p.last as int, 8);
    let d2 = range_coder::dec_after(d1, s2);
    bool_decoder::law_literal_reads_back(d2, p.golden as int, 8);
    let d3 = range_coder::dec_after(d2, s3);
    lemma_new_bytes_read_back(d3, p.ymode, h.probs.ymode);
    let d4 = range_coder::dec_after(d3, s4);
    lemma_new_bytes_read_back(d4, p.uv_mode, h.probs.uv_mode);
    let d5 = range_coder::dec_after(d4, s5);
    lemma_mv_probs_read_back(d5, p.row, MV_UPDATE_PROBS[0]@, h.probs.mv[0], 19);
    let d6 = range_coder::dec_after(d5, s6);
    lemma_mv_probs_read_back(d6, p.col, MV_UPDATE_PROBS[1]@, h.probs.mv[1], 19);
}

/// The whole header of an inter frame reads back as it was written, on top of
/// what the frames before it left.
pub proof fn law_inter_header_reads_back(
    d: DecState,
    coded: CodedHeaderModel,
    p: InterPart,
    base: ProbsModel,
)
    requires
        header_fits(coded, false),
        inter_part_fits(p, base),
        range_coder::decodes(d, coded_header_ops(coded, false) + inter_part_ops(p)),
    ensures
        ({
            let r = frame_header::read_frame_header(d, false, base);
            &&& holds_updates(r.0, coded, base)
            &&& holds_inter_part(r.0, p, base)
            &&& r.1 == range_coder::dec_after(
                d,
                coded_header_ops(coded, false) + inter_part_ops(p),
            )
        }),
{
    reveal(frame_header::read_frame_header);
    let a = coded_header_ops(coded, false);
    range_coder::lemma_decodes_append(d, a, inter_part_ops(p));
    law_coded_header_reads_back(d, coded, false);
    let h = HeaderModel {
        coded,
        probs: ProbsModel {
            coef: frame_header::merged_bytes(base.coef, coded.token_probs),
            ref_deltas: frame_header::merged_deltas(base.ref_deltas, coded.lf_adjust.ref_frame),
            mode_deltas: frame_header::merged_deltas(base.mode_deltas, coded.lf_adjust.mode),
            ..base
        },
        prob_intra: 0,
        prob_last: 0,
        prob_gf: 0,
    };
    lemma_inter_part_reads_back(range_coder::dec_after(d, a), h, p);
}

/// The whole header of a key frame reads back as it was written, with all its
/// parts; what it does not update is as in `base`.
pub proof fn law_full_key_header_reads_back(
    d: DecState,
    coded: CodedHeaderModel,
    base: ProbsModel,
)
    requires
        header_fits(coded, true),
        range_coder::decodes(d, coded_header_ops(coded, true)),
    ensures
        ({
            let r = frame_header::read_frame_header(d, true, base);
            &&& holds_updates(r.0, coded, base)
            &&& r.0.probs.ymode == base.ymode
            &&& r.0.probs.uv_mode == base.uv_mode
            &&& r.0.probs.mv == base.mv
            &&& r.1 == range_coder::dec_after(d, coded_header_ops(coded, true))
        }),
{
    reveal(frame_header::read_frame_header);
    law_coded_header_reads_back(d, coded, true);
}

} // verus!
