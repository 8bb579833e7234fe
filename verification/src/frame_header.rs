//! Frame header as the frame decoder uses it: the coded header on top of what
//! earlier frames left.
use crate::bool_decoder;
use crate::bool_decoder::BoolDecoder;
use crate::coded_header;
use crate::coded_header::{CodedHeaderModel, Vp8CodedHeader};
use crate::mv;
use crate::range_coder;
use crate::range_coder::DecState;
use crate::tables::{
    CoeffProbs, DEFAULT_COEFF_PROBS, DEFAULT_MV_CONTEXT, DEFAULT_UV_MODE_PROBS,
    DEFAULT_YMODE_PROBS, MV_UPDATE_PROBS,
};
use crate::tokens;
use vstd::prelude::*;

verus! {

/// What one frame leaves to the next.
#[derive(Clone, Copy)]
pub struct PersistentProbs {
    pub coef_probs: CoeffProbs,
    pub ymode_probs: [u8; 4],
    pub uv_mode_probs: [u8; 3],
    pub mv_context: [[u8; 19]; 2],
    pub ref_deltas: [i16; 4],
    pub mode_deltas: [i16; 4],
}

/// Model of [`PersistentProbs`].
#[verifier::ext_equal]
pub struct ProbsModel {
    pub coef: Seq<u8>,
    pub ymode: Seq<u8>,
    pub uv_mode: Seq<u8>,
    pub mv: Seq<Seq<u8>>,
    pub ref_deltas: Seq<i16>,
    pub mode_deltas: Seq<i16>,
}

impl View for PersistentProbs {
    type V = ProbsModel;

    open spec fn view(&self) -> ProbsModel {
        ProbsModel {
            coef: tokens::flat_probs(self.coef_probs),
            ymode: self.ymode_probs@,
            uv_mode: self.uv_mode_probs@,
            mv: mv::context_view(self.mv_context),
            ref_deltas: self.ref_deltas@,
            mode_deltas: self.mode_deltas@,
        }
    }
}

/// What a key frame starts from.
#[verifier::opaque]
pub open spec fn default_probs() -> ProbsModel {
    ProbsModel {
        coef: tokens::flat_probs(DEFAULT_COEFF_PROBS),
        ymode: DEFAULT_YMODE_PROBS@,
        uv_mode: DEFAULT_UV_MODE_PROBS@,
        mv: mv::context_view(DEFAULT_MV_CONTEXT),
        ref_deltas: Seq::new(4, |i: int| 0i16),
        mode_deltas: Seq::new(4, |i: int| 0i16),
    }
}

impl PersistentProbs {
    /// What a key frame starts from.
    pub fn defaults() -> (p: Self)
        ensures
            p@ == default_probs(),
    {
        let p: PersistentProbs = PersistentProbs {
            coef_probs: DEFAULT_COEFF_PROBS,
            ymode_probs: DEFAULT_YMODE_PROBS,
            uv_mode_probs: DEFAULT_UV_MODE_PROBS,
            mv_context: DEFAULT_MV_CONTEXT,
            ref_deltas: [0; 4],
            mode_deltas: [0; 4],
        };
        proof {
            reveal(default_probs);
            assert(p@ =~= default_probs());
        }
        p
    }
}

/// Header of a frame.
pub struct FrameHeader {
    pub coded: Vp8CodedHeader,
    /// Everything that this frame uses, its own updates included.
    pub probs: PersistentProbs,
    pub prob_intra: u8,
    pub prob_last: u8,
    pub prob_gf: u8,
}

/// Model of [`FrameHeader`].
pub struct HeaderModel {
    pub coded: CodedHeaderModel,
    pub probs: ProbsModel,
    pub prob_intra: u8,
    pub prob_last: u8,
    pub prob_gf: u8,
}

impl View for FrameHeader {
    type V = HeaderModel;

    open spec fn view(&self) -> HeaderModel {
        HeaderModel {
            coded: self.coded@,
            probs: self.probs@,
            prob_intra: self.prob_intra,
            prob_last: self.prob_last,
            prob_gf: self.prob_gf,
        }
    }
}

/// Each value that is there in place of the old one.
pub open spec fn merged_bytes(base: Seq<u8>, updates: Seq<Option<u8>>) -> Seq<u8> {
    Seq::new(
        base.len(),
        |i: int|
            match updates[i] {
                Some(x) => x,
                None => base[i],
            },
    )
}

/// Each value that is there in place of the old one.
pub open spec fn merged_deltas(base: Seq<i16>, updates: Seq<Option<i16>>) -> Seq<i16> {
    Seq::new(
        base.len(),
        |i: int|
            match updates[i] {
                Some(x) => x,
                None => base[i],
            },
    )
}

/// Bytes that stand in the stream one after another, and what follows them.
pub open spec fn read_bytes(d: DecState, n: nat) -> (Seq<u8>, DecState)
    decreases n,
{
    if n == 0 {
        (Seq::empty(), d)
    } else {
        let (s, d1) = read_bytes(d, (n - 1) as nat);
        (s.push(bool_decoder::dec_literal(d1, 8) as u8), bool_decoder::dec_skip(d1, 8))
    }
}

/// The old bytes, or new ones where a flag says so.
pub open spec fn read_new_bytes(d: DecState, base: Seq<u8>) -> (Seq<u8>, DecState) {
    let d1 = range_coder::dec_next(d, 128);
    if range_coder::dec_bit(d, 128) {
        read_bytes(d1, base.len())
    } else {
        (base, d1)
    }
}

/// Probability that seven bits stand for.
pub open spec fn widened(x: int) -> u8 {
    if x == 0 {
        1
    } else {
        (2 * x) as u8
    }
}

/// A vector probability, new or old.
pub open spec fn read_mv_prob(d: DecState, update: u8, base: u8) -> (u8, DecState) {
    let d1 = range_coder::dec_next(d, update);
    if range_coder::dec_bit(d, update) {
        (widened(bool_decoder::dec_literal(d1, 7)), bool_decoder::dec_skip(d1, 7))
    } else {
        (base, d1)
    }
}

/// The first `n` vector probabilities of a component.
pub open spec fn read_mv_probs(d: DecState, update: Seq<u8>, base: Seq<u8>, n: nat) -> (
    Seq<u8>,
    DecState,
)
    decreases n,
{
    if n == 0 {
        (Seq::empty(), d)
    } else {
        let (s, d1) = read_mv_probs(d, update, base, (n - 1) as nat);
        let (x, d2) = read_mv_prob(d1, update[n - 1], base[n - 1]);
        (s.push(x), d2)
    }
}

/// The part of a header that only inter frames have.
pub open spec fn read_inter_part(d: DecState, h: HeaderModel) -> (HeaderModel, DecState) {
    let d1 = bool_decoder::dec_skip(d, 8);
    let d2 = bool_decoder::dec_skip(d1, 8);
    let d3 = bool_decoder::dec_skip(d2, 8);
    let (ymode, d4) = read_new_bytes(d3, h.probs.ymode);
    let (uv_mode, d5) = read_new_bytes(d4, h.probs.uv_mode);
    let (row, d6) = read_mv_probs(d5, MV_UPDATE_PROBS[0]@, h.probs.mv[0], 19);
    let (col, d7) = read_mv_probs(d6, MV_UPDATE_PROBS[1]@, h.probs.mv[1], 19);
    (
        HeaderModel {
            prob_intra: bool_decoder::dec_literal(d, 8) as u8,
            prob_last: bool_decoder::dec_literal(d1, 8) as u8,
            prob_gf: bool_decoder::dec_literal(d2, 8) as u8,
            probs: ProbsModel { ymode, uv_mode, mv: seq![row, col], ..h.probs },
            ..h
        },
        d7,
    )
}

/// The header that stands in the stream at `d`, on top of `base`, and what
/// follows it.
#[verifier::opaque]
pub open spec fn read_frame_header(d: DecState, key_frame: bool, base: ProbsModel) -> (
    HeaderModel,
    DecState,
) {
    let (coded, d1) = coded_header::read_coded_header(d, key_frame);
    let h = HeaderModel {
        coded,
        probs: ProbsModel {
            coef: merged_bytes(base.coef, coded.token_probs),
            ref_deltas: merged_deltas(base.ref_deltas, coded.lf_adjust.ref_frame),
            mode_deltas: merged_deltas(base.mode_deltas, coded.lf_adjust.mode),
            ..base
        },
        prob_intra: 0,
        prob_last: 0,
        prob_gf: 0,
    };
    if key_frame {
        (h, d1)
    } else {
        read_inter_part(d1, h)
    }
}

fn merge_coeffs(probs: &mut CoeffProbs, h: &Vp8CodedHeader)
    ensures
        tokens::flat_probs(*final(probs)) == merged_bytes(
            tokens::flat_probs(*old(probs)),
            h@.token_probs,
        ),
{
    let ghost base = tokens::flat_probs(*probs);
    let ghost updates = h@.token_probs;
    let mut x: usize = 0;
    while x < 1056
        invariant
            x <= 1056,
            base.len() == 1056,
            updates == coded_header::flat_updates(h.token_prob_updates),
            forall|j: int|
                0 <= j < x ==> #[trigger] tokens::flat_probs(*probs)[j] == merged_bytes(
                    base,
                    updates,
                )[j],
            forall|j: int|
                x <= j < 1056 ==> #[trigger] tokens::flat_probs(*probs)[j] == base[j],
        decreases 1056 - x,
    {
        let i: usize = x / 264;
        let j: usize = x / 33 % 8;
        let k: usize = x / 11 % 3;
        let t: usize = x % 11;
        let ghost before = *probs;
        assert(updates[x as int] == h.token_prob_updates[i as int][j as int][k as int][t as int]);
        if let Some(p) = h.token_prob_updates[i][j][k][t] {
            probs[i][j][k][t] = p;
            assert forall|y: int| 0 <= y < 1056 && y != x implies #[trigger] tokens::flat_probs(
                *probs,
            )[y] == tokens::flat_probs(before)[y] by {
                if y / 264 == i && y / 33 % 8 == j && y / 11 % 3 == k {
                    assert(y % 11 != t);
                }
            }
        }
        x = x + 1;
    }
    assert(tokens::flat_probs(*probs) =~= merged_bytes(base, updates));
}

fn merge_deltas(deltas: &mut [i16; 4], updates: &[Option<i16>; 4])
    ensures
        final(deltas)@ == merged_deltas(old(deltas)@, updates@),
{
    let ghost base = deltas@;
    let mut i: usize = 0;
    while i < 4
        invariant
            i <= 4,
            base == old(deltas)@,
            forall|j: int|
                0 <= j < i ==> #[trigger] deltas@[j] == merged_deltas(base, updates@)[j],
            forall|j: int| i <= j < 4 ==> #[trigger] deltas@[j] == base[j],
        decreases 4 - i,
    {
        if let Some(v) = updates[i] {
            deltas[i] = v;
        }
        i = i + 1;
    }
    assert(deltas@ =~= merged_deltas(base, updates@));
}

fn read_byte(dec: &mut BoolDecoder<'_>) -> (b: u8)
    requires
        old(dec).wf(),
    ensures
        final(dec).wf(),
        b == bool_decoder::dec_literal(old(dec)@, 8) as u8,
        final(dec)@ == bool_decoder::dec_skip(old(dec)@, 8),
        final(dec)@.data == old(dec)@.data,
{
    dec.get_literal(8) as u8
}

fn read_new(dec: &mut BoolDecoder<'_>, probs: &mut [u8])
    requires
        old(dec).wf(),
    ensures
        final(dec).wf(),
        (final(probs)@, final(dec)@) == read_new_bytes(old(dec)@, old(probs)@),
        final(dec)@.data == old(dec)@.data,
{
    if dec.get_flag() {
        let ghost d1 = dec@;
        let n: usize = probs.len();
        let mut i: usize = 0;
        while i < n
            invariant
                i <= n,
                n == probs@.len(),
                dec.wf(),
                dec@.data == d1.data,
                dec@ == read_bytes(d1, i as nat).1,
                probs@.take(i as int) == read_bytes(d1, i as nat).0,
            decreases n - i,
        {
            let b: u8 = read_byte(dec);
            let ghost before = probs@;
            probs[i] = b;
            assert(probs@.take(i + 1) =~= before.take(i as int).push(b));
            i = i + 1;
        }
        assert(probs@.take(n as int) =~= probs@);
    }
}

fn update_mv_probs(dec: &mut BoolDecoder<'_>, update: &[u8; 19], probs: &mut [u8; 19])
    requires
        old(dec).wf(),
    ensures
        final(dec).wf(),
        (final(probs)@, final(dec)@) == read_mv_probs(old(dec)@, update@, old(probs)@, 19),
        final(dec)@.data == old(dec)@.data,
{
    let ghost base = probs@;
    let ghost d0 = dec@;
    let mut i: usize = 0;
    while i < 19
        invariant
            i <= 19,
            d0 == old(dec)@,
            base == old(probs)@,
            dec.wf(),
            dec@.data == d0.data,
            dec@ == read_mv_probs(d0, update@, base, i as nat).1,
            probs@.take(i as int) == read_mv_probs(d0, update@, base, i as nat).0,
            forall|j: int| i <= j < 19 ==> #[trigger] probs@[j] == base[j],
        decreases 19 - i,
    {
        let ghost before = probs@;
        if dec.get_bool(update[i]) {
            let ghost d1 = dec@;
            let x: u32 = dec.get_literal(7);
            proof {
                bool_decoder::lemma_dec_literal_bound(d1, 7);
                vstd::arithmetic::power2::lemma2_to64();
            }
            probs[i] = if x == 0 {
                1
            } else {
                (2 * x) as u8
            };
        }
        assert(probs@.take(i + 1) =~= before.take(i as int).push(probs@[i as int]));
        i = i + 1;
    }
    assert(probs@.take(19) =~= probs@);
}

/// Reads the header of a frame, on top of what earlier frames left.
pub fn parse_frame_header(
    dec: &mut BoolDecoder<'_>,
    key_frame: bool,
    base: &PersistentProbs,
) -> (h: FrameHeader)
    requires
        old(dec).wf(),
    ensures
        final(dec).wf(),
        (h@, final(dec)@) == read_frame_header(old(dec)@, key_frame, base@),
        final(dec)@.data == old(dec)@.data,
        h.coded.consistent(),
        h.coded.loop_filter_level <= 63,
        h.coded.sharpness_level <= 7,
        h.coded.quant_indices.y_ac_qi <= 127,
{
    proof {
        reveal(read_frame_header);
    }
    let coded: Vp8CodedHeader = Vp8CodedHeader::parse_from(dec, key_frame);
    let mut probs: PersistentProbs = *base;
    merge_coeffs(&mut probs.coef_probs, &coded);
    merge_deltas(&mut probs.ref_deltas, &coded.mb_lf_adjustments.ref_frame_delta_update);
    merge_deltas(&mut probs.mode_deltas, &coded.mb_lf_adjustments.mb_mode_delta_update);
    if key_frame {
        return FrameHeader { coded, probs, prob_intra: 0, prob_last: 0, prob_gf: 0 };
    }
    let prob_intra: u8 = read_byte(dec);
    let prob_last: u8 = read_byte(dec);
    let prob_gf: u8 = read_byte(dec);
    read_new(dec, &mut probs.ymode_probs);
    read_new(dec, &mut probs.uv_mode_probs);
    let mut row: [u8; 19] = probs.mv_context[0];
    let mut col: [u8; 19] = probs.mv_context[1];
    update_mv_probs(dec, &MV_UPDATE_PROBS[0], &mut row);
    update_mv_probs(dec, &MV_UPDATE_PROBS[1], &mut col);
    probs.mv_context = [row, col];
    assert(mv::context_view(probs.mv_context) =~= seq![row@, col@]);
    FrameHeader { coded, probs, prob_intra, prob_last, prob_gf }
}

} // verus!
