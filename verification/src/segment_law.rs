//! What segments and deltas do to a macroblock.
use crate::arith;
use crate::coded_header::{CodedHeaderModel, QuantIndices};
use crate::decoder;
use crate::decoder::{FrameJob, Progress, StateModel};
use crate::frame_header::HeaderModel;
use crate::frame_tag;
use crate::inverse_transform::{AC_QLOOKUP, DC_QLOOKUP};
use crate::macroblock::IntraYMode;
use crate::modes::{InfoModel, InterMode};
use crate::motion_comp::RefFrame;
use crate::quant;
use crate::quant::QuantDeltas;
use vstd::prelude::*;

verus! {

/// `plain` is `h` without segments, at the quantizer index that `h` has for
/// segment `s`: the segment's own where those replace the frame's, and else
/// the frame's plus the segment's.
pub open spec fn at_index_of_segment(
    plain: CodedHeaderModel,
    h: CodedHeaderModel,
    s: int,
) -> bool {
    &&& plain.segmentation is None
    &&& plain.quant == (QuantIndices { y_ac_qi: plain.quant.y_ac_qi, ..h.quant })
    &&& match h.segmentation {
        None => plain.quant.y_ac_qi == h.quant.y_ac_qi,
        Some(g) => {
            let v = match g.quantizer[s] {
                Some(v) => v as int,
                None => 0,
            };
            let index = if g.absolute {
                v
            } else {
                h.quant.y_ac_qi + v
            };
            plain.quant.y_ac_qi == if index < 0 {
                0
            } else if index > 127 {
                127
            } else {
                index
            }
        },
    }
}

/// A macroblock of a segment has the steps that a frame without segments has
/// at the index of that segment.
pub proof fn law_segment_has_its_own_steps(
    plain: CodedHeaderModel,
    h: CodedHeaderModel,
    s: int,
    any: int,
)
    requires
        at_index_of_segment(plain, h, s),
        h.quant.y_ac_qi <= 127,
    ensures
        decoder::mb_factors(h, s) == decoder::mb_factors(plain, any),
{
}

/// Two macroblocks that differ in nothing but their segment.
pub open spec fn alike(a: InfoModel, b: InfoModel) -> bool {
    a == (InfoModel { segment_id: a.segment_id, ..b })
}

/// The frames `a` and `b` have the same macroblocks up to their segments, and
/// each macroblock of `a` has the index that the frame `b` has throughout.
pub open spec fn same_indices(
    a: HeaderModel,
    b: HeaderModel,
    a_infos: Seq<InfoModel>,
    b_infos: Seq<InfoModel>,
) -> bool {
    &&& a_infos.len() == b_infos.len()
    &&& a.coded.quant.y_ac_qi <= 127
    &&& forall|k: int|
        0 <= k < a_infos.len() ==> alike(#[trigger] a_infos[k], b_infos[k])
            && at_index_of_segment(b.coded, a.coded, a_infos[k].segment_id)
}

proof fn lemma_same_progress(a: FrameJob, b: FrameJob, start: Progress, n: nat)
    requires
        n <= a.infos.len(),
        a.cols == b.cols,
        a.refs == b.refs,
        a.h.probs.coef == b.h.probs.coef,
        same_indices(a.h, b.h, a.infos, b.infos),
    ensures
        decoder::after_macroblocks(a, start, n) == decoder::after_macroblocks(b, start, n),
    decreases n,
{
    if n > 0 {
        let k = n - 1;
        lemma_same_progress(a, b, start, k as nat);
        let st = decoder::after_macroblocks(a, start, k as nat);
        assert(alike(a.infos[k], b.infos[k]));
        law_segment_has_its_own_steps(
            b.h.coded,
            a.h.coded,
            a.infos[k].segment_id,
            b.infos[k].segment_id,
        );
        reveal(decoder::after_macroblock);
        assert(decoder::after_macroblock(a, st, k) == decoder::after_macroblock(b, st, k));
    }
}

/// A frame whose macroblocks are all in segments of one quantizer index decodes
/// to the same picture as a frame without segments at that index, with the
/// same modes, tokens and filter levels.
pub proof fn law_segments_only_choose_the_index(
    a: Seq<u8>,
    b: Seq<u8>,
    a_st: StateModel,
    b_st: StateModel,
)
    requires
        frame_tag::is_key(a) == frame_tag::is_key(b),
        decoder::frame_size(a, a_st) == decoder::frame_size(b, b_st),
        a_st.refs == b_st.refs,
        ({
            let (w, h) = decoder::frame_size(a, a_st);
            let ha = decoder::frame_header_of(a, a_st).0;
            let hb = decoder::frame_header_of(b, b_st).0;
            let ia = decoder::frame_infos(a, a_st);
            let ib = decoder::frame_infos(b, b_st);
            &&& ia.len() == decoder::blocks_for(w) * decoder::blocks_for(h)
            &&& same_indices(ha, hb, ia, ib)
            &&& ha.probs.coef == hb.probs.coef
            &&& decoder::padded_parts(
                a,
                decoder::tokens_start(a),
                decoder::part_count(ha.coded.log2_parts),
            ) == decoder::padded_parts(
                b,
                decoder::tokens_start(b),
                decoder::part_count(hb.coded.log2_parts),
            )
            &&& ha.coded.level == 0 <==> hb.coded.level == 0
            &&& ha.coded.sharpness == hb.coded.sharpness
            &&& ha.coded.filter_type == hb.coded.filter_type
            &&& forall|k: int|
                0 <= k < ia.len() ==> decoder::filter_level(ha, #[trigger] ia[k])
                    == decoder::filter_level(hb, ib[k])
        }),
    ensures
        decoder::decoded_picture(a, a_st) == decoder::decoded_picture(b, b_st),
{
    let (w, h) = decoder::frame_size(a, a_st);
    let cols = decoder::blocks_for(w);
    let rows = decoder::blocks_for(h);
    let ha = decoder::frame_header_of(a, a_st).0;
    let hb = decoder::frame_header_of(b, b_st).0;
    let ia = decoder::frame_infos(a, a_st);
    let ib = decoder::frame_infos(b, b_st);
    let key = frame_tag::is_key(a);
    let parts = decoder::padded_parts(
        a,
        decoder::tokens_start(a),
        decoder::part_count(ha.coded.log2_parts),
    );
    reveal(decoder::frame_progress);
    lemma_same_progress(
        FrameJob { h: ha, infos: ia, cols, refs: a_st.refs },
        FrameJob { h: hb, infos: ib, cols, refs: b_st.refs },
        decoder::nothing_done(parts, cols, rows),
        (cols * rows) as nat,
    );
    let p = decoder::frame_progress(a, a_st);
    assert(p == decoder::frame_progress(b, b_st));
    let x = decoder::filter_plan(ha, ia, p.coded, key);
    let y = decoder::filter_plan(hb, ib, p.coded, key);
    assert(x.levels =~= y.levels);
    assert forall|k: int| 0 <= k < ia.len() implies #[trigger] x.inner[k] == y.inner[k] by {
        assert(alike(ia[k], ib[k]));
    }
    assert(x.inner =~= y.inner);
    reveal(decoder::filtered);
}

/// Steps come out of the two tables at the macroblock's index plus the offset
/// for the kind of coefficient: those of the second-order block are twice and
/// one and a half times as large, the latter at least 8, and that of the first
/// chroma coefficient is at most 132.
pub proof fn law_steps_come_from_the_tables(h: CodedHeaderModel, s: int, q: int)
    requires
        h.segmentation is None,
        h.quant.y_ac_qi == q,
        q <= 127,
    ensures
        ({
            let f = decoder::mb_factors(h, s);
            let at = |d: Option<i8>|
                match d {
                    Some(d) => if q + d < 0 {
                        0
                    } else if q + d > 127 {
                        127
                    } else {
                        q + d
                    },
                    None => q,
                };
            &&& f.y1_ac == AC_QLOOKUP[q]
            &&& f.y1_dc == DC_QLOOKUP[at(h.quant.y_dc_delta)]
            &&& f.y2_dc == 2 * DC_QLOOKUP[at(h.quant.y2_dc_delta)]
            &&& f.y2_ac == 8 || f.y2_ac == AC_QLOOKUP[at(h.quant.y2_ac_delta)] * 155 / 100
            &&& f.y2_ac >= 8
            &&& f.y2_ac >= AC_QLOOKUP[at(h.quant.y2_ac_delta)] * 155 / 100
            &&& f.uv_dc == 132 || f.uv_dc == DC_QLOOKUP[at(h.quant.uv_dc_delta)]
            &&& f.uv_dc <= 132
            &&& f.uv_dc <= DC_QLOOKUP[at(h.quant.uv_dc_delta)]
            &&& f.uv_ac == AC_QLOOKUP[at(h.quant.uv_ac_delta)]
        }),
{
    let d = QuantDeltas {
        y_dc: decoder::small_or_zero(h.quant.y_dc_delta),
        y2_dc: decoder::small_or_zero(h.quant.y2_dc_delta),
        y2_ac: decoder::small_or_zero(h.quant.y2_ac_delta),
        uv_dc: decoder::small_or_zero(h.quant.uv_dc_delta),
        uv_ac: decoder::small_or_zero(h.quant.uv_ac_delta),
    };
    quant::lemma_steps(arith::clamp_int(q, 0, 127));
    quant::lemma_steps(arith::clamp_int(q + d.y_dc, 0, 127));
    quant::lemma_steps(arith::clamp_int(q + d.y2_dc, 0, 127));
    quant::lemma_steps(arith::clamp_int(q + d.y2_ac, 0, 127));
    quant::lemma_steps(arith::clamp_int(q + d.uv_dc, 0, 127));
    quant::lemma_steps(arith::clamp_int(q + d.uv_ac, 0, 127));
}

/// `plain` is `h` without segments, at the filter level that `h` has for
/// segment `s`.
pub open spec fn at_level_of_segment(plain: HeaderModel, h: HeaderModel, s: int) -> bool {
    &&& plain.coded.segmentation is None
    &&& plain.coded.lf_adjust.enable == h.coded.lf_adjust.enable
    &&& plain.probs.ref_deltas == h.probs.ref_deltas
    &&& plain.probs.mode_deltas == h.probs.mode_deltas
    &&& match h.coded.segmentation {
        None => plain.coded.level == h.coded.level,
        Some(g) => {
            let v = match g.loop_filter[s] {
                Some(v) => v as int,
                None => 0,
            };
            let sum = h.coded.level + v;
            plain.coded.level == if g.absolute {
                v
            } else if sum < 0 {
                0
            } else if sum > 63 {
                63
            } else {
                sum
            }
        },
    }
}

/// A macroblock of a segment is filtered at the level that it has in a frame
/// without segments at the level of that segment.
pub proof fn law_segment_has_its_own_level(
    plain: HeaderModel,
    h: HeaderModel,
    a: InfoModel,
    b: InfoModel,
)
    requires
        alike(a, b),
        at_level_of_segment(plain, h, a.segment_id),
    ensures
        decoder::filter_level(h, a) == decoder::filter_level(plain, b),
{
}

/// Where deltas are off, every macroblock of a frame without segments has the
/// frame's level; where they are on, it has the level that a frame without
/// deltas has whose level is higher by the delta of the macroblock's reference
/// and that of its mode.
pub proof fn law_deltas_add_to_the_level(
    plain: HeaderModel,
    h: HeaderModel,
    info: InfoModel,
    other: InfoModel,
)
    requires
        plain.coded.segmentation is None,
        !plain.coded.lf_adjust.enable,
        h.coded.segmentation is None,
        h.coded.lf_adjust.enable,
        ({
            let r = h.probs.ref_deltas;
            let m = h.probs.mode_deltas;
            let more = plain.coded.level - h.coded.level;
            &&& info.reference is None && info.y_mode != IntraYMode::B ==> more == r[0]
            &&& info.reference is None && info.y_mode == IntraYMode::B ==> more == r[0] + m[0]
            &&& info.reference == Some(RefFrame::Last) && info.inter_mode == InterMode::Zero
                ==> more == r[1] + m[1]
            &&& info.reference == Some(RefFrame::Golden) && info.inter_mode == InterMode::Zero
                ==> more == r[2] + m[1]
            &&& info.reference == Some(RefFrame::AltRef) && info.inter_mode == InterMode::Zero
                ==> more == r[3] + m[1]
            &&& info.reference == Some(RefFrame::Last) && info.inter_mode == InterMode::Split
                ==> more == r[1] + m[3]
            &&& info.reference == Some(RefFrame::Golden) && info.inter_mode == InterMode::Split
                ==> more == r[2] + m[3]
            &&& info.reference == Some(RefFrame::AltRef) && info.inter_mode == InterMode::Split
                ==> more == r[3] + m[3]
            &&& info.reference == Some(RefFrame::Last) && info.inter_mode != InterMode::Zero
                && info.inter_mode != InterMode::Split ==> more == r[1] + m[2]
            &&& info.reference == Some(RefFrame::Golden) && info.inter_mode != InterMode::Zero
                && info.inter_mode != InterMode::Split ==> more == r[2] + m[2]
            &&& info.reference == Some(RefFrame::AltRef) && info.inter_mode != InterMode::Zero
                && info.inter_mode != InterMode::Split ==> more == r[3] + m[2]
        }),
    ensures
        decoder::filter_level(h, info) == decoder::filter_level(plain, other),
        0 <= plain.coded.level <= 63 ==> decoder::filter_level(plain, other)
            == plain.coded.level,
        plain.coded.level < 0 ==> decoder::filter_level(plain, other) == 0,
        plain.coded.level > 63 ==> decoder::filter_level(plain, other) == 63,
{
}

} // verus!
