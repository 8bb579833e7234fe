//! What a decoder makes of the key frames that the encoder writes.
use crate::decoder;
use crate::decoder::{FrameJob, PictureModel, Progress, StateModel};
use crate::encode_error;
use crate::encoder;
use crate::encoder::HeaderFields;
use crate::frame;
use crate::frame::{CoeffModel, PlanesModel};
use crate::frame_header;
use crate::frame_header::HeaderModel;
use crate::frame_tag;
use crate::header_law;
use crate::i420::I420Frame;
use crate::inverse_transform;
use crate::keyframe_encoder;
use crate::keyframe_encoder::{KeyframeParams, TokenWalk};
use crate::mb_tokens;
use crate::mode_picker;
use crate::mode_picker::{Candidate, Decisions};
use crate::mode_writer;
use crate::modes::InfoModel;
use crate::neighbors;
use crate::partition_law;
use crate::quant;
use crate::quant::MbDequantFactors;
use crate::range_coder;
use crate::range_coder::DecState;
use crate::token_encoder;
use vstd::prelude::*;

verus! {

/// The walk is cut off behind its first macroblocks.
proof fn lemma_walk_prefix(f: I420Frame, qi: int, ds: Seq<Decisions>, k: int)
    requires
        0 <= k < ds.len(),
    ensures
        ({
            let t = keyframe_encoder::next_task(f, qi, ds.take(k));
            let w = keyframe_encoder::walk(f, qi, ds);
            &&& w.infos[k] == keyframe_encoder::coded_info(t, ds[k])
            &&& w.coeffs[k] == mode_picker::decided_coeffs(t, ds[k])
        }),
    decreases ds.len(),
{
    let before = ds.drop_last();
    keyframe_encoder::lemma_walk_len(f, qi, before);
    reveal(keyframe_encoder::after_mb);
    if k < ds.len() - 1 {
        lemma_walk_prefix(f, qi, before, k);
        assert(before.take(k) =~= ds.take(k));
    } else {
        assert(ds.take(k) =~= before);
    }
}

/// One step of the walk.
proof fn lemma_walk_step(f: I420Frame, qi: int, ds: Seq<Decisions>, k: int)
    requires
        0 <= k < ds.len(),
    ensures
        ({
            let cols = keyframe_encoder::cols_of(f);
            let t = keyframe_encoder::next_task(f, qi, ds.take(k));
            let w = keyframe_encoder::walk(f, qi, ds);
            keyframe_encoder::walk(f, qi, ds.take(k + 1)).planes == neighbors::with_mb(
                keyframe_encoder::walk(f, qi, ds.take(k)).planes,
                16 * cols,
                8 * cols,
                k / cols,
                k % cols,
                keyframe_encoder::rebuilt_mb(t, w.infos[k], w.coeffs[k]),
            )
        }),
{
    lemma_walk_prefix(f, qi, ds, k);
    assert(ds.take(k + 1).drop_last() =~= ds.take(k));
    assert(ds.take(k + 1).last() == ds[k]);
    keyframe_encoder::lemma_walk_len(f, qi, ds.take(k));
    reveal(keyframe_encoder::after_mb);
}

/// No coefficients times any steps are no coefficients.
pub proof fn lemma_nothing_scaled(f: MbDequantFactors)
    ensures
        quant::dequantized_mb(frame::no_coeffs(), f) == frame::no_coeffs(),
{
    let c = quant::dequantized_mb(frame::no_coeffs(), f);
    let z = frame::zero_block();
    assert forall|dc: int, ac: int| #[trigger] inverse_transform::dequantized(z, dc, ac) =~= z by {
        assert forall|i: int| 0 <= i < 16 implies #[trigger] inverse_transform::dequantized(
            z,
            dc,
            ac,
        )[i] == 0 by {
            let step = if i == 0 {
                dc
            } else {
                ac
            };
            assert(0 * step == 0);
        }
    }
    assert(c.y =~= frame::no_coeffs().y);
    assert(c.u =~= frame::no_coeffs().u);
    assert(c.v =~= frame::no_coeffs().v);
    assert(c.y2 =~= frame::no_coeffs().y2);
}

/// Steps that a reader of the header uses.
proof fn lemma_same_factors(h: HeaderModel, p: KeyframeParams)
    requires
        p.y_ac_qi <= 127,
        header_law::header_says(h, p.fields(), frame_header::default_probs()),
    ensures
        decoder::mb_factors(h.coded, 0) == quant::factors_of(
            p.y_ac_qi as int,
            quant::no_deltas(),
        ),
{
}

/// The decoder's macroblock is the encoder's.
proof fn lemma_same_pixels(
    f: I420Frame,
    p: KeyframeParams,
    job: FrameJob,
    planes: PlanesModel,
    k: int,
    c: CoeffModel,
)
    requires
        p.y_ac_qi <= 127,
        header_law::header_says(job.h, p.fields(), frame_header::default_probs()),
        job.cols == keyframe_encoder::cols_of(f),
        mode_writer::plain_intra(job.infos[k]),
    ensures
        decoder::macroblock_pixels(
            job,
            planes,
            k,
            if job.infos[k].skip {
                frame::no_coeffs()
            } else {
                c
            },
        ) == keyframe_encoder::rebuilt_mb(
            keyframe_encoder::mb_task(f, p.y_ac_qi as int, planes, k),
            job.infos[k],
            c,
        ),
{
    reveal(keyframe_encoder::mb_task);
    lemma_same_factors(job.h, p);
    lemma_nothing_scaled(quant::factors_of(p.y_ac_qi as int, quant::no_deltas()));
}

/// The decoder stands where the encoder's walks stand after `k` macroblocks.
spec fn in_step(
    st: Progress,
    tw: TokenWalk,
    starts: Seq<DecState>,
    infos: Seq<InfoModel>,
    planes: PlanesModel,
    k: int,
) -> bool {
    &&& st.parts.len() == starts.len()
    &&& tw.parts.len() == starts.len()
    &&& forall|i: int|
        0 <= i < starts.len() ==> #[trigger] st.parts[i] == range_coder::dec_after(
            starts[i],
            tw.parts[i],
        )
    &&& st.above == tw.above
    &&& st.left == tw.left
    &&& st.planes == planes
    &&& st.coded.len() == k
    &&& forall|j: int| 0 <= j < k ==> #[trigger] st.coded[j] == !infos[j].skip
}

/// Each partition reads back as far as it is written.
spec fn all_decode(starts: Seq<DecState>, tw: TokenWalk) -> bool {
    forall|i: int| 0 <= i < starts.len() ==> range_coder::decodes(starts[i], #[trigger] tw.parts[i])
}

/// The residue of a macroblock reads back.
proof fn lemma_residue_reads_back(
    d: DecState,
    info: InfoModel,
    c: CoeffModel,
    above: Seq<bool>,
    left: Seq<bool>,
)
    requires
        keyframe_encoder::coded_well(info, c),
        !info.skip,
        range_coder::decodes(
            d,
            mb_tokens::write_mb(
                c,
                frame_header::default_probs().coef,
                keyframe_encoder::has_y2(info),
                above,
                left,
            ).ops,
        ),
    ensures
        ({
            let probs = frame_header::default_probs().coef;
            let y2 = keyframe_encoder::has_y2(info);
            let w = mb_tokens::write_mb(c, probs, y2, above, left);
            let m = mb_tokens::read_mb(d, probs, y2, above, left);
            &&& mb_tokens::by_plane(m.blocks) == c
            &&& m.above == w.above
            &&& m.left == w.left
            &&& m.any
            &&& m.rest == range_coder::dec_after(d, w.ops)
        }),
{
    let probs = frame_header::default_probs().coef;
    let y2 = keyframe_encoder::has_y2(info);
    token_encoder::lemma_mb_without_fault(mb_tokens::in_row(c), y2);
    mb_tokens::law_mb_reads_back(d, c, probs, y2, above, left);
    mb_tokens::lemma_carried_whole(c, y2);
    mb_tokens::lemma_counts_nonzero(c, probs, y2, above, left);
    mb_tokens::lemma_counts_nonzero(
        c,
        probs,
        y2,
        mb_tokens::clear_ctx(),
        mb_tokens::clear_ctx(),
    );
    reveal(keyframe_encoder::without_residue);
}

/// One macroblock keeps the decoder in step.
proof fn lemma_keeps_step(
    f: I420Frame,
    p: KeyframeParams,
    ds: Seq<Decisions>,
    job: FrameJob,
    coeffs: Seq<CoeffModel>,
    st: Progress,
    tw: TokenWalk,
    starts: Seq<DecState>,
    k: int,
)
    requires
        p.y_ac_qi <= 127,
        header_law::header_says(job.h, p.fields(), frame_header::default_probs()),
        job.cols == keyframe_encoder::cols_of(f),
        job.cols >= 1,
        0 <= k < ds.len(),
        job.infos == keyframe_encoder::walk(f, p.y_ac_qi as int, ds).infos,
        coeffs == keyframe_encoder::walk(f, p.y_ac_qi as int, ds).coeffs,
        keyframe_encoder::coded_well(job.infos[k], coeffs[k]),
        starts.len() >= 1,
        in_step(
            st,
            tw,
            starts,
            job.infos,
            keyframe_encoder::walk(f, p.y_ac_qi as int, ds.take(k)).planes,
            k,
        ),
        all_decode(
            starts,
            keyframe_encoder::tokens_after(job.infos, coeffs, job.cols, tw, k),
        ),
    ensures
        in_step(
            decoder::after_macroblock(job, st, k),
            keyframe_encoder::tokens_after(job.infos, coeffs, job.cols, tw, k),
            starts,
            job.infos,
            keyframe_encoder::walk(f, p.y_ac_qi as int, ds.take(k + 1)).planes,
            k + 1,
        ),
{
    let info = job.infos[k];
    let c = coeffs[k];
    let qi = p.y_ac_qi as int;
    let planes = keyframe_encoder::walk(f, qi, ds.take(k)).planes;
    let tw1 = keyframe_encoder::tokens_after(job.infos, coeffs, job.cols, tw, k);
    let st1 = decoder::after_macroblock(job, st, k);
    lemma_walk_step(f, qi, ds, k);
    lemma_same_pixels(f, p, job, planes, k, c);
    reveal(keyframe_encoder::tokens_after);
    reveal(decoder::after_macroblock);
    let y2 = keyframe_encoder::has_y2(info);
    assert(decoder::uses_y2(info) == y2);
    if !info.skip {
        let col = k % job.cols;
        let part = k / job.cols % starts.len() as int;
        assert(0 <= part < starts.len()) by {
            vstd::arithmetic::div_mod::lemma_mod_bound(k / job.cols, starts.len() as int);
        }
        let left = if col == 0 {
            mb_tokens::clear_ctx()
        } else {
            st.left
        };
        let w = mb_tokens::write_mb(
            c,
            frame_header::default_probs().coef,
            y2,
            st.above[col],
            left,
        );
        assert(tw1.parts[part] == tw.parts[part] + w.ops);
        range_coder::lemma_decodes_append(starts[part], tw.parts[part], w.ops);
        assert(st.parts[part] == range_coder::dec_after(starts[part], tw.parts[part]));
        lemma_residue_reads_back(st.parts[part], info, c, st.above[col], left);
        assert forall|i: int| 0 <= i < starts.len() implies #[trigger] st1.parts[i]
            == range_coder::dec_after(starts[i], tw1.parts[i]) by {
            if i != part {
                assert(st1.parts[i] == st.parts[i]);
                assert(tw1.parts[i] == tw.parts[i]);
            }
        }
    } else {
        assert forall|i: int| 0 <= i < starts.len() implies #[trigger] st1.parts[i]
            == range_coder::dec_after(starts[i], tw1.parts[i]) by {
            assert(st1.parts[i] == st.parts[i]);
        }
    }
}

/// A walk of which each partition reads back reads back without its last
/// macroblock.
proof fn lemma_decodes_before(
    starts: Seq<DecState>,
    infos: Seq<InfoModel>,
    coeffs: Seq<CoeffModel>,
    cols: int,
    tw: TokenWalk,
    k: int,
)
    requires
        tw.parts.len() == starts.len(),
        all_decode(starts, keyframe_encoder::tokens_after(infos, coeffs, cols, tw, k)),
    ensures
        all_decode(starts, tw),
{
    reveal(keyframe_encoder::tokens_after);
    let tw1 = keyframe_encoder::tokens_after(infos, coeffs, cols, tw, k);
    assert forall|i: int| 0 <= i < starts.len() implies range_coder::decodes(
        starts[i],
        #[trigger] tw.parts[i],
    ) by {
        assert(range_coder::decodes(starts[i], tw1.parts[i]));
        if tw1.parts[i] != tw.parts[i] {
            let w = mb_tokens::write_mb(
                coeffs[k],
                frame_header::default_probs().coef,
                keyframe_encoder::has_y2(infos[k]),
                tw.above[k % cols],
                if k % cols == 0 {
                    mb_tokens::clear_ctx()
                } else {
                    tw.left
                },
            );
            range_coder::lemma_decodes_append(starts[i], tw.parts[i], w.ops);
        }
    }
}

proof fn lemma_walk_parts(
    infos: Seq<InfoModel>,
    coeffs: Seq<CoeffModel>,
    cols: int,
    count: int,
    n: nat,
)
    requires
        count >= 1,
    ensures
        keyframe_encoder::token_walk(infos, coeffs, cols, count, n).parts.len() == count,
    decreases n,
{
    if n > 0 {
        lemma_walk_parts(infos, coeffs, cols, count, (n - 1) as nat);
        reveal(keyframe_encoder::tokens_after);
    }
}

/// The decoder stays in step.
proof fn lemma_in_step(
    f: I420Frame,
    p: KeyframeParams,
    ds: Seq<Decisions>,
    job: FrameJob,
    parts: Seq<Seq<u8>>,
    n: nat,
)
    requires
        p.y_ac_qi <= 127,
        header_law::header_says(job.h, p.fields(), frame_header::default_probs()),
        job.cols == keyframe_encoder::cols_of(f),
        job.cols >= 1,
        n <= ds.len(),
        parts.len() == p.nbr_of_dct_partitions,
        parts.len() >= 1,
        job.infos == keyframe_encoder::walk(f, p.y_ac_qi as int, ds).infos,
        forall|k: int|
            0 <= k < n ==> keyframe_encoder::coded_well(
                #[trigger] job.infos[k],
                keyframe_encoder::walk(f, p.y_ac_qi as int, ds).coeffs[k],
            ),
        all_decode(
            Seq::new(parts.len(), |i: int| range_coder::dec_start(parts[i])),
            keyframe_encoder::token_walk(
                job.infos,
                keyframe_encoder::walk(f, p.y_ac_qi as int, ds).coeffs,
                job.cols,
                parts.len() as int,
                n,
            ),
        ),
    ensures
        in_step(
            decoder::after_macroblocks(
                job,
                decoder::nothing_done(parts, job.cols, keyframe_encoder::rows_of(f)),
                n,
            ),
            keyframe_encoder::token_walk(
                job.infos,
                keyframe_encoder::walk(f, p.y_ac_qi as int, ds).coeffs,
                job.cols,
                parts.len() as int,
                n,
            ),
            Seq::new(parts.len(), |i: int| range_coder::dec_start(parts[i])),
            job.infos,
            keyframe_encoder::walk(f, p.y_ac_qi as int, ds.take(n as int)).planes,
            n as int,
        ),
    decreases n,
{
    let qi = p.y_ac_qi as int;
    let starts = Seq::new(parts.len(), |i: int| range_coder::dec_start(parts[i]));
    let coeffs = keyframe_encoder::walk(f, qi, ds).coeffs;
    let count = parts.len() as int;
    let start = decoder::nothing_done(parts, job.cols, keyframe_encoder::rows_of(f));
    if n == 0 {
        let tw = keyframe_encoder::token_walk(job.infos, coeffs, job.cols, count, 0);
        assert(ds.take(0) =~= Seq::empty());
        assert forall|i: int| 0 <= i < starts.len() implies #[trigger] start.parts[i]
            == range_coder::dec_after(starts[i], tw.parts[i]) by {
            range_coder::lemma_decodes_nothing(starts[i]);
        }
        assert(start.above =~= tw.above);
    } else {
        let k = n - 1;
        let tw = keyframe_encoder::token_walk(job.infos, coeffs, job.cols, count, k as nat);
        let st = decoder::after_macroblocks(job, start, k as nat);
        lemma_walk_parts(job.infos, coeffs, job.cols, count, k as nat);
        lemma_decodes_before(starts, job.infos, coeffs, job.cols, tw, k);
        lemma_in_step(f, p, ds, job, parts, k as nat);
        assert(keyframe_encoder::coded_well(job.infos[k], coeffs[k]));
        lemma_keeps_step(f, p, ds, job, coeffs, st, tw, starts, k);
    }
}

/// The tag and the partitions of a frame read back.
pub proof fn law_frame_reads_apart(
    first: Seq<u8>,
    parts: Seq<Seq<u8>>,
    width: int,
    height: int,
    out: Seq<u8>,
)
    requires
        encode_error::valid_dims(width, height),
        first.len() <= encoder::MAX_FIRST_PARTITION,
        parts.len() >= 1,
        forall|j: int| 0 <= j < parts.len() - 1 ==> (#[trigger] parts[j]).len() < 0x100_0000,
        forall|j: int| 0 <= j < parts.len() ==> (#[trigger] parts[j]).len() >= 2,
        out == encoder::frame_bytes(first, parts, width, height),
    ensures
        frame_tag::tag_fault(out) is None,
        frame_tag::is_key(out),
        frame_tag::parsed(out).keyframe->0.width == width,
        frame_tag::parsed(out).keyframe->0.height == height,
        decoder::compressed(out) == first + encoder::frame_tail(parts),
        decoder::part_fault(out, decoder::tokens_start(out), parts.len() as int) is None,
        decoder::padded_parts(out, decoder::tokens_start(out), parts.len() as int) == parts,
{
    let tail = encoder::frame_tail(parts);
    let tag = encoder::bytes3(encoder::tag_number(true, 0, true, first.len() as int));
    let sizes = encoder::size_bytes(width, height, 0, 0);
    encoder::law_tag_reads_back(
        true,
        0,
        true,
        first.len() as int,
        width,
        height,
        0,
        0,
        first + tail,
    );
    let head = tag + sizes + first;
    assert(out =~= head + tail);
    assert(head.len() == 10 + first.len());
    assert(decoder::tokens_start(out) == head.len());
    partition_law::law_partitions_read_back(head, parts);
    reveal(decoder::padded_parts);
    let n = parts.len() as int;
    assert forall|i: int| 0 <= i < n implies decoder::padded_parts(
        out,
        head.len() as int,
        n,
    )[i] == #[trigger] parts[i] by {
        assert(decoder::part_bytes(out, head.len() as int, n, i) == parts[i]);
    }
    assert(decoder::padded_parts(out, head.len() as int, n) =~= parts);
}

/// The filter does to the decoder's planes what it does to the encoder's.
proof fn lemma_same_filter(
    f: I420Frame,
    p: KeyframeParams,
    ds: Seq<Decisions>,
    h: HeaderModel,
    coded: Seq<bool>,
)
    requires
        p.loop_filter_level <= 63,
        header_law::header_says(h, p.fields(), frame_header::default_probs()),
        ({
            let infos = keyframe_encoder::walk(f, p.y_ac_qi as int, ds).infos;
            &&& coded.len() == infos.len()
            &&& forall|k: int| 0 <= k < infos.len() ==> #[trigger] coded[k] == !infos[k].skip
            &&& forall|k: int|
                0 <= k < infos.len() ==> mode_writer::plain_intra(#[trigger] infos[k])
        }),
    ensures
        decoder::filtered(
            keyframe_encoder::walk(f, p.y_ac_qi as int, ds).planes,
            h,
            keyframe_encoder::walk(f, p.y_ac_qi as int, ds).infos,
            coded,
            true,
            keyframe_encoder::cols_of(f),
        ) == keyframe_encoder::reconstruction(f, p, ds),
{
    reveal(decoder::filtered);
    reveal(keyframe_encoder::key_plan);
    let infos = keyframe_encoder::walk(f, p.y_ac_qi as int, ds).infos;
    let a = decoder::filter_plan(h, infos, coded, true);
    let b = keyframe_encoder::key_plan(infos, p);
    assert forall|k: int| 0 <= k < infos.len() implies #[trigger] a.levels[k] == b.levels[k]
        && a.inner[k] == b.inner[k] by {
        assert(mode_writer::plain_intra(infos[k]));
        assert(coded[k] == !infos[k].skip);
    }
    assert(a.levels =~= b.levels);
    assert(a.inner =~= b.inner);
}

proof fn lemma_default_lengths()
    ensures
        frame_header::default_probs().coef.len() == 1056,
        frame_header::default_probs().ref_deltas.len() == 4,
        frame_header::default_probs().mode_deltas.len() == 4,
{
    reveal(frame_header::default_probs);
}

/// A first partition reads back, whatever follows it.
pub proof fn law_first_partition_reads_back(
    fields: HeaderFields,
    infos: Seq<InfoModel>,
    cols: int,
    rows: int,
    first: Seq<u8>,
    tail: Seq<u8>,
)
    requires
        encoder::valid_fields(fields),
        cols >= 1,
        range_coder::is_code(
            first,
            encoder::key_header_ops(fields) + mode_writer::mode_ops(
                infos,
                cols,
                fields.prob_skip_false as u8,
                infos.len(),
            ),
        ),
        forall|k: int| 0 <= k < infos.len() ==> mode_writer::plain_intra(#[trigger] infos[k]),
    ensures
        ({
            let (h, d) = frame_header::read_frame_header(
                range_coder::dec_start(first + tail),
                true,
                frame_header::default_probs(),
            );
            &&& header_law::header_says(h, fields, frame_header::default_probs())
            &&& decoder::read_infos(d, h, true, cols, rows, infos.len()).0 == infos
        }),
{
    let prob = fields.prob_skip_false as u8;
    let d0 = range_coder::dec_start(first + tail);
    let a = encoder::key_header_ops(fields);
    let b = mode_writer::mode_ops(infos, cols, prob, infos.len());
    range_coder::law_code_decodes_before_a_tail(first, tail, a + b);
    range_coder::lemma_decodes_append(d0, a, b);
    lemma_default_lengths();
    header_law::law_key_header_reads_back(d0, fields, frame_header::default_probs());
    let h = frame_header::read_frame_header(d0, true, frame_header::default_probs()).0;
    mode_writer::law_modes_read_back(
        range_coder::dec_after(d0, a),
        h,
        infos,
        cols,
        rows,
        prob,
        infos.len(),
    );
    assert(infos.take(infos.len() as int) =~= infos);
}

/// A decoder, whatever it decoded before, makes of an encoded picture exactly
/// the planes that the encoder rebuilt. The size of a partition that is not
/// the last has 24 bits in the frame; a partition beyond that is left out.
pub proof fn law_key_frame_decodes<F: Fn(&Vec<Vec<Candidate>>) -> usize>(
    judge: F,
    f: I420Frame,
    p: KeyframeParams,
    ds: Seq<Decisions>,
    first: Seq<u8>,
    parts: Seq<Seq<u8>>,
    out: Seq<u8>,
    st: StateModel,
)
    requires
        keyframe_encoder::params_fault(f.width, f.height, p) is None,
        keyframe_encoder::all_decided(judge, f, p.y_ac_qi as int, ds),
        keyframe_encoder::is_key_frame(out, f, p, ds, first, parts),
        forall|j: int| 0 <= j < parts.len() - 1 ==> (#[trigger] parts[j]).len() < 0x100_0000,
    ensures
        decoder::decode_fault(out, st) is None,
        decoder::decoded_picture(out, st) == (PictureModel {
            planes: keyframe_encoder::reconstruction(f, p, ds),
            width: f.width as int,
            height: f.height as int,
        }),
{
    let qi = p.y_ac_qi as int;
    let cols = keyframe_encoder::cols_of(f);
    let rows = keyframe_encoder::rows_of(f);
    let w = keyframe_encoder::walk(f, qi, ds);
    let n = ds.len();
    keyframe_encoder::lemma_walk_len(f, qi, ds);
    assert forall|k: int| 0 <= k < n implies keyframe_encoder::coded_well(
        #[trigger] w.infos[k],
        w.coeffs[k],
    ) by {
        keyframe_encoder::lemma_walk_codes_well(judge, f, qi, ds, k);
    }
    let ops = keyframe_encoder::part_ops(f, p, ds);
    assert forall|j: int| 0 <= j < parts.len() implies (#[trigger] parts[j]).len() >= 2 by {
        range_coder::law_code_in_interval(parts[j], ops[j]);
    }
    law_frame_reads_apart(first, parts, f.width as int, f.height as int, out);
    law_first_partition_reads_back(
        p.fields(),
        w.infos,
        cols,
        rows,
        first,
        encoder::frame_tail(parts),
    );
    reveal(decoder::frame_header_of);
    reveal(decoder::frame_infos);
    reveal(decoder::frame_progress);
    let (h, d) = decoder::frame_header_of(out, st);
    assert(decoder::part_count(h.coded.log2_parts) == parts.len());
    assert(decoder::compressed(out).len() >= 2) by {
        range_coder::law_code_in_interval(first, keyframe_encoder::first_ops(f, p, ds));
    }
    assert(decoder::frame_size(out, st) == (f.width as int, f.height as int));
    assert(decoder::frame_infos(out, st) == w.infos);
    let job = FrameJob { h, infos: w.infos, cols, refs: st.refs };
    let starts = Seq::new(parts.len(), |i: int| range_coder::dec_start(parts[i]));
    let tw = keyframe_encoder::token_walk(w.infos, w.coeffs, cols, parts.len() as int, n);
    assert(all_decode(starts, tw)) by {
        assert forall|i: int| 0 <= i < starts.len() implies range_coder::decodes(
            starts[i],
            #[trigger] tw.parts[i],
        ) by {
            assert(range_coder::is_code(parts[i], ops[i]));
            range_coder::law_code_decodes(parts[i], ops[i]);
        }
    }
    lemma_in_step(f, p, ds, job, parts, n);
    assert(ds.take(n as int) =~= ds);
    let progress = decoder::frame_progress(out, st);
    assert(progress == decoder::after_macroblocks(
        job,
        decoder::nothing_done(parts, cols, rows),
        n,
    ));
    lemma_same_filter(f, p, ds, h, progress.coded);
}

/// Two frames of the same choices decode to the same planes, whatever the
/// number of their partitions.
pub proof fn law_same_choices_decode_alike<F: Fn(&Vec<Vec<Candidate>>) -> usize>(
    judge: F,
    f: I420Frame,
    p: KeyframeParams,
    q: KeyframeParams,
    ds: Seq<Decisions>,
    p_first: Seq<u8>,
    p_parts: Seq<Seq<u8>>,
    p_out: Seq<u8>,
    q_first: Seq<u8>,
    q_parts: Seq<Seq<u8>>,
    q_out: Seq<u8>,
    st: StateModel,
)
    requires
        q == (KeyframeParams { nbr_of_dct_partitions: q.nbr_of_dct_partitions, ..p }),
        keyframe_encoder::params_fault(f.width, f.height, p) is None,
        keyframe_encoder::params_fault(f.width, f.height, q) is None,
        keyframe_encoder::all_decided(judge, f, p.y_ac_qi as int, ds),
        keyframe_encoder::is_key_frame(p_out, f, p, ds, p_first, p_parts),
        keyframe_encoder::is_key_frame(q_out, f, q, ds, q_first, q_parts),
        forall|j: int| 0 <= j < p_parts.len() - 1 ==> (#[trigger] p_parts[j]).len() < 0x100_0000,
        forall|j: int| 0 <= j < q_parts.len() - 1 ==> (#[trigger] q_parts[j]).len() < 0x100_0000,
    ensures
        decoder::decode_fault(p_out, st) is None,
        decoder::decode_fault(q_out, st) is None,
        decoder::decoded_picture(p_out, st) == decoder::decoded_picture(q_out, st),
{
    law_key_frame_decodes(judge, f, p, ds, p_first, p_parts, p_out, st);
    law_key_frame_decodes(judge, f, q, ds, q_first, q_parts, q_out, st);
    reveal(keyframe_encoder::key_plan);
}

} // verus!
