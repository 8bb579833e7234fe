//! What a reader makes of the header that the encoder writes.
use crate::bool_decoder;
use crate::coded_header;
use crate::coded_header::{LfAdjustModel, QuantIndices};
use crate::encoder;
use crate::encoder::HeaderFields;
use crate::frame_header;
use crate::frame_header::{HeaderModel, ProbsModel};
use crate::range_coder;
use crate::range_coder::DecState;
use crate::tables;
use vstd::prelude::*;

verus! {

/// No filter deltas.
pub open spec fn no_adjustments() -> LfAdjustModel {
    LfAdjustModel {
        enable: false,
        update: false,
        ref_frame: coded_header::no_deltas(4),
        mode: coded_header::no_deltas(4),
    }
}

/// A quantizer index without offsets.
pub open spec fn plain_quant(y_ac_qi: int) -> QuantIndices {
    QuantIndices {
        y_ac_qi: y_ac_qi as u8,
        y_dc_delta: None,
        y2_dc_delta: None,
        y2_ac_delta: None,
        uv_dc_delta: None,
        uv_ac_delta: None,
    }
}

proof fn lemma_loop_filter_reads_back(d: DecState, level: int, sharpness: int)
    requires
        0 <= level <= 63,
        0 <= sharpness <= 7,
        range_coder::decodes(d, encoder::loop_filter_ops(false, level, sharpness)),
    ensures
        ({
            let d4 = range_coder::dec_next(d, 128);
            let d5 = bool_decoder::dec_skip(d4, 6);
            let d6 = bool_decoder::dec_skip(d5, 3);
            &&& !range_coder::dec_bit(d, 128)
            &&& bool_decoder::dec_literal(d4, 6) == level
            &&& bool_decoder::dec_literal(d5, 3) == sharpness
            &&& coded_header::read_lf_adjust(d6) == (
                no_adjustments(),
                range_coder::dec_after(d, encoder::loop_filter_ops(false, level, sharpness)),
            )
        }),
{
    vstd::arithmetic::power2::lemma2_to64();
    let a = range_coder::one_op(128, false);
    let b = range_coder::literal_ops(level, 6);
    let c = range_coder::literal_ops(sharpness, 3);
    range_coder::lemma_decodes_append(d, a + b + c, a);
    range_coder::lemma_decodes_append(d, a + b, c);
    range_coder::lemma_decodes_append(d, a, b);
    range_coder::lemma_decodes_one(d, 128, false);
    let d4 = range_coder::dec_next(d, 128);
    bool_decoder::law_literal_reads_back(d4, level, 6);
    let d5 = bool_decoder::dec_skip(d4, 6);
    bool_decoder::law_literal_reads_back(d5, sharpness, 3);
    let d6 = bool_decoder::dec_skip(d5, 3);
    range_coder::lemma_decodes_one(d6, 128, false);
}

proof fn lemma_no_delta(d: DecState, bits: nat)
    requires
        range_coder::decodes(d, range_coder::one_op(128, false)),
    ensures
        coded_header::read_delta(d, bits) == (
            None::<i16>,
            range_coder::dec_after(d, range_coder::one_op(128, false)),
        ),
{
    range_coder::lemma_decodes_one(d, 128, false);
}

/// `n` unset flags at even odds.
spec fn unset(n: nat) -> Seq<(u8, bool)>
    decreases n,
{
    if n == 0 {
        Seq::empty()
    } else {
        unset((n - 1) as nat) + range_coder::one_op(128, false)
    }
}

proof fn lemma_no_deltas(d: DecState, bits: nat, n: nat)
    requires
        range_coder::decodes(d, unset(n)),
    ensures
        coded_header::read_deltas(d, bits, n) == (
            coded_header::no_deltas(n),
            range_coder::dec_after(d, unset(n)),
        ),
    decreases n,
{
    if n == 0 {
        range_coder::lemma_decodes_nothing(d);
        assert(coded_header::no_deltas(0) =~= Seq::empty());
    } else {
        let m = (n - 1) as nat;
        range_coder::lemma_decodes_append(d, unset(m), range_coder::one_op(128, false));
        lemma_no_deltas(d, bits, m);
        lemma_no_delta(range_coder::dec_after(d, unset(m)), bits);
        assert(coded_header::no_deltas(n) =~= coded_header::no_deltas(m).push(None));
    }
}

proof fn lemma_quant_reads_back(d: DecState, y_ac_qi: int)
    requires
        0 <= y_ac_qi <= 127,
        range_coder::decodes(d, encoder::quant_ops(y_ac_qi, None, None, None, None, None)),
    ensures
        coded_header::read_quant(d) == (
            plain_quant(y_ac_qi),
            range_coder::dec_after(
                d,
                encoder::quant_ops(y_ac_qi, None, None, None, None, None),
            ),
        ),
{
    vstd::arithmetic::power2::lemma2_to64();
    let a = range_coder::literal_ops(y_ac_qi, 7);
    let ops = encoder::quant_ops(y_ac_qi, None, None, None, None, None);
    reveal_with_fuel(unset, 6);
    assert(ops =~= a + unset(5));
    range_coder::lemma_decodes_append(d, a, unset(5));
    bool_decoder::law_literal_reads_back(d, y_ac_qi, 7);
    lemma_no_deltas(range_coder::dec_after(d, a), 4, 5);
}

/// `n` absent bytes.
pub open spec fn no_bytes(n: nat) -> Seq<Option<u8>> {
    Seq::new(n, |i: int| None)
}

proof fn lemma_flags_read_back(d: DecState, n: nat)
    requires
        n <= 1056,
        range_coder::decodes(d, encoder::unset_flags(encoder::update_probs()).take(n as int)),
    ensures
        coded_header::read_token_updates(d, n) == (
            no_bytes(n),
            range_coder::dec_after(
                d,
                encoder::unset_flags(encoder::update_probs()).take(n as int),
            ),
        ),
    decreases n,
{
    let ops = encoder::unset_flags(encoder::update_probs());
    if n == 0 {
        assert(ops.take(0) =~= Seq::empty());
        range_coder::lemma_decodes_nothing(d);
        assert(no_bytes(0) =~= Seq::empty());
    } else {
        let m = (n - 1) as nat;
        let p = tables::update_prob(m as int);
        let one = range_coder::one_op(p, false);
        assert(ops.take(n as int) =~= ops.take(m as int) + one);
        range_coder::lemma_decodes_append(d, ops.take(m as int), one);
        lemma_flags_read_back(d, m);
        range_coder::lemma_decodes_one(range_coder::dec_after(d, ops.take(m as int)), p, false);
        assert(no_bytes(n) =~= no_bytes(m).push(None));
    }
}

proof fn lemma_skip_prob_reads_back(d: DecState, prob: int)
    requires
        0 <= prob <= 255,
        range_coder::decodes(d, encoder::no_skip_ops(true, prob)),
    ensures
        coded_header::read_opt_byte(d, 128) == (
            Some(prob as u8),
            range_coder::dec_after(d, encoder::no_skip_ops(true, prob)),
        ),
{
    vstd::arithmetic::power2::lemma2_to64();
    let a = range_coder::one_op(128, true);
    range_coder::lemma_decodes_append(d, a, range_coder::literal_ops(prob, 8));
    range_coder::lemma_decodes_one(d, 128, true);
    bool_decoder::law_literal_reads_back(range_coder::dec_next(d, 128), prob, 8);
}

/// The header `h` says what `f` says, and leaves the probabilities `base`.
pub open spec fn header_says(h: HeaderModel, f: HeaderFields, base: ProbsModel) -> bool {
    &&& h.coded.segmentation is None
    &&& !h.coded.filter_type
    &&& h.coded.level == f.level
    &&& h.coded.sharpness == f.sharpness
    &&& h.coded.lf_adjust == no_adjustments()
    &&& h.coded.log2_parts == encoder::log2_of_count(f.count)
    &&& h.coded.quant == plain_quant(f.y_ac_qi)
    &&& h.coded.refresh.entropy
    &&& h.coded.prob_skip == Some(f.prob_skip_false as u8)
    &&& h.probs == base
}

proof fn lemma_start_reads_back(d: DecState, f: HeaderFields)
    requires
        encoder::valid_fields(f),
        range_coder::decodes(d, encoder::header_start_ops(f)),
    ensures
        ({
            let d1 = range_coder::dec_next(range_coder::dec_next(d, 128), 128);
            let d3 = range_coder::dec_next(d1, 128);
            let d4 = range_coder::dec_next(d3, 128);
            let d5 = bool_decoder::dec_skip(d4, 6);
            let d6 = bool_decoder::dec_skip(d5, 3);
            let (lf, d7) = coded_header::read_lf_adjust(d6);
            let (q, d9) = coded_header::read_quant(bool_decoder::dec_skip(d7, 2));
            &&& !range_coder::dec_bit(d1, 128)
            &&& !range_coder::dec_bit(d3, 128)
            &&& bool_decoder::dec_literal(d4, 6) == f.level
            &&& bool_decoder::dec_literal(d5, 3) == f.sharpness
            &&& lf == no_adjustments()
            &&& bool_decoder::dec_literal(d7, 2) == encoder::log2_of_count(f.count)
            &&& q == plain_quant(f.y_ac_qi)
            &&& range_coder::dec_bit(d9, 128)
            &&& range_coder::dec_next(d9, 128) == range_coder::dec_after(
                d,
                encoder::header_start_ops(f),
            )
        }),
{
    vstd::arithmetic::power2::lemma2_to64();
    let z = range_coder::one_op(128, false);
    let lf = encoder::loop_filter_ops(false, f.level, f.sharpness);
    let p = range_coder::literal_ops(encoder::log2_of_count(f.count), 2);
    let q = encoder::quant_ops(f.y_ac_qi, None, None, None, None, None);
    let t = range_coder::one_op(128, true);
    range_coder::lemma_decodes_append(d, z + z + z + lf + p + q, t);
    range_coder::lemma_decodes_append(d, z + z + z + lf + p, q);
    range_coder::lemma_decodes_append(d, z + z + z + lf, p);
    range_coder::lemma_decodes_append(d, z + z + z, lf);
    range_coder::lemma_decodes_append(d, z + z, z);
    range_coder::lemma_decodes_append(d, z, z);
    range_coder::lemma_decodes_one(d, 128, false);
    let da = range_coder::dec_next(d, 128);
    range_coder::lemma_decodes_one(da, 128, false);
    let d1 = range_coder::dec_next(da, 128);
    range_coder::lemma_decodes_one(d1, 128, false);
    let d3 = range_coder::dec_next(d1, 128);
    lemma_loop_filter_reads_back(d3, f.level, f.sharpness);
    let d7 = range_coder::dec_after(d3, lf);
    bool_decoder::law_literal_reads_back(d7, encoder::log2_of_count(f.count), 2);
    let d8 = range_coder::dec_after(d7, p);
    lemma_quant_reads_back(d8, f.y_ac_qi);
    let d9 = range_coder::dec_after(d8, q);
    range_coder::lemma_decodes_one(d9, 128, true);
}

/// A reader that meets the booleans written for the header of a key frame
/// reads the fields it was written from, keeps its probabilities, and stands
/// behind them.
pub proof fn law_key_header_reads_back(d: DecState, f: HeaderFields, base: ProbsModel)
    requires
        encoder::valid_fields(f),
        base.coef.len() == 1056,
        base.ref_deltas.len() == 4,
        base.mode_deltas.len() == 4,
        range_coder::decodes(d, encoder::key_header_ops(f)),
    ensures
        header_says(frame_header::read_frame_header(d, true, base).0, f, base),
        frame_header::read_frame_header(d, true, base).1 == range_coder::dec_after(
            d,
            encoder::key_header_ops(f),
        ),
{
    reveal(frame_header::read_frame_header);
    let a = encoder::header_start_ops(f);
    let b = encoder::unset_flags(encoder::update_probs());
    let c = encoder::no_skip_ops(true, f.prob_skip_false);
    range_coder::lemma_decodes_append(d, a + b, c);
    range_coder::lemma_decodes_append(d, a, b);
    lemma_start_reads_back(d, f);
    let d10 = range_coder::dec_after(d, a);
    assert(b.take(1056) =~= b);
    lemma_flags_read_back(d10, 1056);
    let d11 = range_coder::dec_after(d10, b);
    lemma_skip_prob_reads_back(d11, f.prob_skip_false);
    assert(frame_header::merged_bytes(base.coef, no_bytes(1056)) =~= base.coef);
    assert(frame_header::merged_deltas(base.ref_deltas, coded_header::no_deltas(4))
        =~= base.ref_deltas);
    assert(frame_header::merged_deltas(base.mode_deltas, coded_header::no_deltas(4))
        =~= base.mode_deltas);
}

} // verus!
