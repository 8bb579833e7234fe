//! Choosing how a macroblock is predicted.
//!
//! Each way to predict a part of a macroblock is carried out as a decoder will
//! and becomes a [`Candidate`]: the error that is left, and the booleans that
//! the way costs. What an error is worth in booleans is for the caller to
//! say: the caller is shown the candidates and names one.
use crate::bool_decoder;
use crate::encode_error::TokenEncodeError;
use crate::encoder::BoolEncoder;
use crate::forward_transform;
use crate::forward_transform::raster_to_scan;
use crate::frame;
use crate::frame::{block_has_nonzero, CoeffModel, MbCoeffs, PlanesModel};
use crate::i420::MbPixels;
use crate::intra;
use crate::macroblock;
use crate::macroblock::{b_mode_from, uv_mode_from, y_mode_from, IntraBmode, IntraUvMode, IntraYMode};
use crate::mb_coder;
use crate::mb_coder::{
    block_ssd, code_block, reconstruct_block_4x4, reconstruct_chroma_plane,
    reconstruct_whole_block_luma, transform_chroma_plane, transform_whole_block_luma,
};
use crate::mb_tokens;
use crate::mb_tokens::{MbEntropyCtx, ABOVE_CTX, LEFT_CTX};
use crate::pixels;
use crate::pixels::load_4x4;
use crate::quant;
use crate::quant::MbDequantFactors;
use crate::range_coder;
use crate::reach_law;
use crate::reconstruct;
use crate::reconstruct::{
    build_work_area, place_subblock, predict_luma, predict_subblock, predict_u, predict_v,
    MbNeighbors, NeighborModel,
};
use crate::tables::{
    CoeffProbs, BMODE_TREE, KF_BMODE_PROB, KF_UV_MODE_PROBS, KF_YMODE_PROBS, KF_YMODE_TREE,
    UV_MODE_TREE,
};
use crate::token_encoder;
use crate::token_encoder::{block_symbols, encode_mb_tokens};
use crate::tokens;
use crate::tokens::BlockType;
use crate::trees;
use crate::trees::push_leaf;
use vstd::prelude::*;

verus! {

/// One way to predict a part of a macroblock.
pub struct Candidate {
    /// Sum of the squared errors that are left.
    pub ssd: u64,
    /// The booleans of each block.
    pub tokens: Vec<Vec<(u8, bool)>>,
    /// The booleans that name the way.
    pub mode: Vec<(u8, bool)>,
}

/// Model of [`Candidate`].
#[verifier::ext_equal]
pub struct CandidateModel {
    pub ssd: int,
    pub tokens: Seq<Seq<(u8, bool)>>,
    pub mode: Seq<(u8, bool)>,
}

/// Lists of booleans as sequences.
pub open spec fn list_views(v: Seq<Vec<(u8, bool)>>) -> Seq<Seq<(u8, bool)>> {
    Seq::new(v.len(), |i: int| v[i]@)
}

impl View for Candidate {
    type V = CandidateModel;

    open spec fn view(&self) -> CandidateModel {
        CandidateModel {
            ssd: self.ssd as int,
            tokens: list_views(self.tokens@),
            mode: self.mode@,
        }
    }
}

/// The parts of an option as models.
pub open spec fn part_views(v: Seq<Candidate>) -> Seq<CandidateModel> {
    Seq::new(v.len(), |i: int| v[i]@)
}

/// Options as models.
pub open spec fn option_views(v: Seq<Vec<Candidate>>) -> Seq<Seq<CandidateModel>> {
    Seq::new(v.len(), |i: int| part_views(v[i]@))
}

/// The option that an answer names; an answer out of range names the first.
pub open spec fn named(answer: int, n: int) -> int {
    if 0 <= answer < n {
        answer
    } else {
        0
    }
}

/// `judge` was shown `options` and named option `i`.
#[verifier::opaque]
pub open spec fn chosen<F: Fn(&Vec<Vec<Candidate>>) -> usize>(
    judge: F,
    options: Seq<Seq<CandidateModel>>,
    i: int,
) -> bool {
    exists|v: Vec<Vec<Candidate>>, answer: usize|
        #![trigger call_ensures(judge, (&v,), answer)]
        option_views(v@) == options && call_ensures(judge, (&v,), answer) && i == named(
            answer as int,
            options.len() as int,
        )
}

/// `judge` answers whatever it is shown.
pub open spec fn answers<F: Fn(&Vec<Vec<Candidate>>) -> usize>(judge: F) -> bool {
    forall|v: Vec<Vec<Candidate>>| #[trigger] call_requires(judge, (&v,))
}

/// Shows `options` to `judge` and returns the option it names.
fn ask<F: Fn(&Vec<Vec<Candidate>>) -> usize>(judge: &F, options: &Vec<Vec<Candidate>>) -> (i:
    usize)
    requires
        answers(*judge),
        options@.len() >= 1,
    ensures
        i < options@.len(),
        chosen(*judge, option_views(options@), i as int),
{
    proof {
        reveal(chosen);
    }
    let answer: usize = judge(options);
    assert(call_ensures(*judge, (options,), answer));
    if answer < options.len() {
        answer
    } else {
        0
    }
}

/// Blocks of a macroblock, each as the booleans that write it.
pub struct Listing {
    pub lists: Seq<Seq<(u8, bool)>>,
    pub above: Seq<bool>,
    pub left: Seq<bool>,
}

/// `n` blocks of a macroblock on its own, from the one that comes `from`th on.
pub open spec fn listed(
    blocks: Seq<Seq<i16>>,
    probs: Seq<u8>,
    has_y2: bool,
    from: int,
    n: nat,
) -> Listing
    decreases n,
{
    if n == 0 {
        Listing {
            lists: Seq::empty(),
            above: mb_tokens::clear_ctx(),
            left: mb_tokens::clear_ctx(),
        }
    } else {
        let l = listed(blocks, probs, has_y2, from, (n - 1) as nat);
        let b = mb_tokens::block_in_order(from + n - 1);
        let kind = mb_tokens::kind_of(b, has_y2);
        let nonzero = mb_tokens::carries(blocks[b], kind);
        Listing {
            lists: l.lists.push(
                tokens::block_ops(
                    probs,
                    kind,
                    mb_tokens::block_ctx(l.above, l.left, b),
                    forward_transform::scan_order(blocks[b]),
                ),
            ),
            above: l.above.update(ABOVE_CTX[b] as int, nonzero),
            left: l.left.update(LEFT_CTX[b] as int, nonzero),
        }
    }
}

/// Whether a block carries a coefficient that is not zero.
fn block_carries(scan: &[i16; 16], kind: BlockType) -> (b: bool)
    ensures
        b == frame::has_nonzero(tokens::carried(scan@, kind)),
{
    let ghost c = tokens::carried(scan@, kind);
    let mut i: usize = kind.first_coeff();
    while i < 16
        invariant
            kind.first() <= i <= 16,
            c == tokens::carried(scan@, kind),
            forall|j: int| 0 <= j < i ==> #[trigger] c[j] == 0,
        decreases 16 - i,
    {
        if scan[i] != 0 {
            assert(c[i as int] != 0);
            return true;
        }
        i = i + 1;
    }
    false
}

/// Lists blocks of a macroblock on its own.
fn list_blocks(c: &MbCoeffs, probs: &CoeffProbs, has_y2: bool, from: usize, n: usize) -> (lists:
    Vec<Vec<(u8, bool)>>)
    requires
        from + n <= 25,
    ensures
        list_views(lists@) == listed(
            mb_tokens::in_row(c@),
            tokens::flat_probs(*probs),
            has_y2,
            from as int,
            n as nat,
        ).lists,
{
    let ghost blocks = mb_tokens::in_row(c@);
    let ghost p = tokens::flat_probs(*probs);
    let mut above: MbEntropyCtx = MbEntropyCtx::default();
    let mut left: MbEntropyCtx = MbEntropyCtx::default();
    let mut lists: Vec<Vec<(u8, bool)>> = Vec::new();
    let mut i: usize = 0;
    assert(list_views(lists@) =~= Seq::empty());
    while i < n
        invariant
            i <= n,
            from + n <= 25,
            blocks == mb_tokens::in_row(c@),
            p == tokens::flat_probs(*probs),
            ({
                let l = listed(blocks, p, has_y2, from as int, i as nat);
                &&& list_views(lists@) == l.lists
                &&& above@ == l.above
                &&& left@ == l.left
            }),
        decreases n - i,
    {
        let b: usize = if from + i == 0 {
            24
        } else {
            from + i - 1
        };
        let kind: BlockType = mb_tokens::kind_at(b, has_y2);
        let block: [i16; 16] = mb_tokens::block_of(c, b);
        let scan: [i16; 16] = raster_to_scan(&block);
        let a: usize = ABOVE_CTX[b];
        let l: usize = LEFT_CTX[b];
        let ghost before = list_views(lists@);
        let ops: Vec<(u8, bool)> = block_symbols(
            kind,
            probs,
            above.nonzero[a],
            left.nonzero[l],
            &scan,
        );
        let ghost written = ops@;
        lists.push(ops);
        assert(list_views(lists@) =~= before.push(written));
        let nonzero: bool = block_carries(&scan, kind);
        above.nonzero[a] = nonzero;
        left.nonzero[l] = nonzero;
        i = i + 1;
    }
    lists
}

/// What a choice is made for: the pixels, what stands round them, the steps
/// and the probabilities.
pub struct Task {
    pub pixels: PlanesModel,
    pub around: NeighborModel,
    pub f: MbDequantFactors,
    pub probs: Seq<u8>,
}

/// The planes of a macroblock.
pub open spec fn pixel_planes(p: MbPixels) -> PlanesModel {
    PlanesModel { y: p.y@, u: p.u@, v: p.v@ }
}

/// Luma prediction as a whole.
pub open spec fn whole_prediction(t: Task, mode: IntraYMode) -> Seq<u8> {
    reconstruct::square_from(intra::square_mode(mode), 16, t.around.y)
}

/// Coefficients of a luma prediction as a whole.
pub open spec fn whole_coeffs(t: Task, mode: IntraYMode) -> CoeffModel {
    let pred = whole_prediction(t, mode);
    CoeffModel {
        y2: mb_coder::whole_y2(t.pixels.y, pred, t.f),
        y: mb_coder::whole_y(t.pixels.y, pred, t.f),
        u: frame::no_coeffs().u,
        v: frame::no_coeffs().v,
    }
}

/// The booleans that name a luma mode.
pub open spec fn y_mode_ops(mode: IntraYMode) -> Seq<(u8, bool)> {
    trees::leaf_ops(KF_YMODE_TREE@, KF_YMODE_PROBS@, 0, mode.number())
}

/// The booleans that name a chroma mode.
pub open spec fn uv_mode_ops(mode: IntraUvMode) -> Seq<(u8, bool)> {
    trees::leaf_ops(UV_MODE_TREE@, KF_UV_MODE_PROBS@, 0, mode.number())
}

/// The booleans that name a subblock mode beside two others.
pub open spec fn b_mode_ops(above: IntraBmode, left: IntraBmode, mode: IntraBmode) -> Seq<
    (u8, bool),
> {
    trees::leaf_ops(
        BMODE_TREE@,
        KF_BMODE_PROB[above.number()][left.number()]@,
        0,
        mode.number(),
    )
}

/// A luma prediction as a whole, as a candidate.
pub open spec fn whole_candidate(t: Task, mode: IntraYMode) -> CandidateModel {
    let c = whole_coeffs(t, mode);
    CandidateModel {
        ssd: mb_coder::ssd(
            mb_coder::rebuilt_whole(whole_prediction(t, mode), c.y, c.y2, t.f),
            t.pixels.y,
            256,
        ),
        tokens: listed(mb_tokens::in_row(c), t.probs, true, 0, 17).lists,
        mode: y_mode_ops(mode),
    }
}

/// The four luma predictions as a whole.
pub open spec fn whole_options(t: Task) -> Seq<Seq<CandidateModel>> {
    Seq::new(4, |i: int| seq![whole_candidate(t, macroblock::y_mode_of(i))])
}

pub proof fn lemma_modes_reached()
    ensures
        trees::tree_ok(KF_YMODE_TREE@),
        trees::tree_ok(UV_MODE_TREE@),
        trees::tree_ok(BMODE_TREE@),
        forall|m: IntraYMode| trees::tree_path(KF_YMODE_TREE@, 0, #[trigger] m.number()) is Some,
        forall|m: IntraUvMode| trees::tree_path(UV_MODE_TREE@, 0, #[trigger] m.number()) is Some,
        forall|m: IntraBmode| trees::tree_path(BMODE_TREE@, 0, #[trigger] m.number()) is Some,
{
    assert forall|m: IntraYMode| trees::tree_path(
        KF_YMODE_TREE@,
        0,
        #[trigger] m.number(),
    ) is Some by {
        lemma_y_mode_reached(m.number());
    }
    assert forall|m: IntraUvMode| trees::tree_path(
        UV_MODE_TREE@,
        0,
        #[trigger] m.number(),
    ) is Some by {
        lemma_uv_mode_reached(m.number());
    }
    assert forall|m: IntraBmode| trees::tree_path(BMODE_TREE@, 0, #[trigger] m.number()) is Some by {
        lemma_b_mode_reached(m.number());
    }
}

proof fn lemma_y_mode_reached(n: int)
    requires
        0 <= n <= 4,
    ensures
        trees::tree_path(KF_YMODE_TREE@, 0, n) is Some,
{
    let t = KF_YMODE_TREE@;
    assert(trees::tree_path(t, 6, n) is Some <==> 2 <= n <= 3);
    assert(trees::tree_path(t, 4, n) is Some <==> 0 <= n <= 1);
    assert(trees::tree_path(t, 2, n) is Some <==> 0 <= n <= 3);
}

proof fn lemma_uv_mode_reached(n: int)
    requires
        0 <= n <= 3,
    ensures
        trees::tree_path(UV_MODE_TREE@, 0, n) is Some,
{
    let t = UV_MODE_TREE@;
    assert(trees::tree_path(t, 4, n) is Some <==> 2 <= n <= 3);
    assert(trees::tree_path(t, 2, n) is Some <==> 1 <= n <= 3);
}

proof fn lemma_b_mode_reached(n: int)
    requires
        0 <= n <= 9,
    ensures
        trees::tree_path(BMODE_TREE@, 0, n) is Some,
{
    let t = BMODE_TREE@;
    assert(trees::tree_path(t, 16, n) is Some <==> 8 <= n <= 9);
    assert(trees::tree_path(t, 14, n) is Some <==> 7 <= n <= 9);
    assert(trees::tree_path(t, 12, n) is Some <==> n == 4 || 7 <= n <= 9);
    assert(trees::tree_path(t, 10, n) is Some <==> 5 <= n <= 6);
    assert(trees::tree_path(t, 8, n) is Some <==> n == 3 || 5 <= n <= 6);
    assert(trees::tree_path(t, 6, n) is Some <==> 3 <= n <= 9);
    assert(trees::tree_path(t, 4, n) is Some <==> 2 <= n <= 9);
    assert(trees::tree_path(t, 2, n) is Some <==> 1 <= n <= 9);
}

/// A luma prediction as a whole, carried out.
struct WholeLuma {
    y: [[i16; 16]; 16],
    y2: [i16; 16],
    candidate: Candidate,
}

fn try_whole(
    pixels: &MbPixels,
    around: &MbNeighbors,
    f: &MbDequantFactors,
    probs: &CoeffProbs,
    mode: IntraYMode,
    Ghost(t): Ghost<Task>,
) -> (w: WholeLuma)
    requires
        f.valid(),
        t.pixels == pixel_planes(*pixels),
        t.around == around@,
        t.f == *f,
        t.probs == tokens::flat_probs(*probs),
    ensures
        frame::block_views(w.y@) == whole_coeffs(t, mode).y,
        w.y2@ == whole_coeffs(t, mode).y2,
        w.candidate@ == whole_candidate(t, mode),
{
    let pred: [u8; 256] = predict_luma(mode, around);
    let (y, y2) = transform_whole_block_luma(&pixels.y, &pred, f);
    let recon: [u8; 256] = reconstruct_whole_block_luma(&pred, &y, &y2, f);
    let ssd: u64 = block_ssd(&recon, &pixels.y);
    let mut c: MbCoeffs = MbCoeffs::default();
    c.y = y;
    c.y2 = y2;
    assert(c@ =~= whole_coeffs(t, mode));
    let lists: Vec<Vec<(u8, bool)>> = list_blocks(&c, probs, true, 0, 17);
    let mut ops: Vec<(u8, bool)> = Vec::new();
    proof {
        lemma_modes_reached();
        assert(trees::tree_path(KF_YMODE_TREE@, 0, mode.number()) is Some);
    }
    push_leaf(&mut ops, &KF_YMODE_TREE, &KF_YMODE_PROBS, 0, mode.leaf());
    assert(ops@ =~= y_mode_ops(mode));
    let candidate: Candidate = Candidate { ssd, tokens: lists, mode: ops };
    assert(candidate@ =~= whole_candidate(t, mode));
    WholeLuma { y, y2, candidate }
}

/// Takes option `i` out of the options.
fn take_option(options: Vec<Vec<Candidate>>, i: usize) -> (option: Vec<Candidate>)
    requires
        i < options@.len(),
    ensures
        part_views(option@) == option_views(options@)[i as int],
{
    let ghost all = options@;
    let mut rest: Vec<Vec<Candidate>> = options;
    while rest.len() > i + 1
        invariant
            i < rest@.len() <= all.len(),
            rest@ == all.take(rest@.len() as int),
        decreases rest@.len(),
    {
        let _ = rest.pop();
        assert(rest@ =~= all.take(rest@.len() as int));
    }
    match rest.pop() {
        Some(option) => option,
        None => Vec::new(),
    }
}

/// A luma prediction as a whole, once it is chosen.
struct PickedWhole {
    mode: IntraYMode,
    y: [[i16; 16]; 16],
    y2: [i16; 16],
    option: Vec<Candidate>,
}

/// Lets `judge` choose among the luma predictions as a whole.
fn pick_y16x16_mode<F: Fn(&Vec<Vec<Candidate>>) -> usize>(
    pixels: &MbPixels,
    around: &MbNeighbors,
    f: &MbDequantFactors,
    probs: &CoeffProbs,
    judge: &F,
    Ghost(t): Ghost<Task>,
) -> (w: PickedWhole)
    requires
        answers(*judge),
        f.valid(),
        t.pixels == pixel_planes(*pixels),
        t.around == around@,
        t.f == *f,
        t.probs == tokens::flat_probs(*probs),
    ensures
        w.mode != IntraYMode::B,
        chosen(*judge, whole_options(t), w.mode.number()),
        frame::block_views(w.y@) == whole_coeffs(t, w.mode).y,
        w.y2@ == whole_coeffs(t, w.mode).y2,
        part_views(w.option@) == seq![whole_candidate(t, w.mode)],
{
    let mut options: Vec<Vec<Candidate>> = Vec::new();
    let mut ys: Vec<[[i16; 16]; 16]> = Vec::new();
    let mut y2s: Vec<[i16; 16]> = Vec::new();
    let mut i: u8 = 0;
    while i < 4
        invariant
            i <= 4,
            f.valid(),
            t.pixels == pixel_planes(*pixels),
            t.around == around@,
            t.f == *f,
            t.probs == tokens::flat_probs(*probs),
            options@.len() == i,
            ys@.len() == i,
            y2s@.len() == i,
            forall|j: int|
                0 <= j < i ==> #[trigger] option_views(options@)[j] == whole_options(t)[j],
            forall|j: int|
                0 <= j < i ==> frame::block_views((#[trigger] ys@[j])@) == whole_coeffs(
                    t,
                    macroblock::y_mode_of(j),
                ).y,
            forall|j: int|
                0 <= j < i ==> (#[trigger] y2s@[j])@ == whole_coeffs(
                    t,
                    macroblock::y_mode_of(j),
                ).y2,
        decreases 4 - i,
    {
        let w: WholeLuma = try_whole(pixels, around, f, probs, y_mode_from(i), Ghost(t));
        let mut option: Vec<Candidate> = Vec::new();
        option.push(w.candidate);
        assert(part_views(option@) =~= seq![whole_candidate(t, macroblock::y_mode_of(i as int))]);
        let ghost before = options@;
        options.push(option);
        assert forall|j: int| 0 <= j <= i implies #[trigger] option_views(options@)[j]
            == whole_options(t)[j] by {
            if j < i {
                assert(option_views(before)[j] == whole_options(t)[j]);
            }
        }
        ys.push(w.y);
        y2s.push(w.y2);
        i = i + 1;
    }
    assert(option_views(options@) =~= whole_options(t));
    let best: usize = ask(judge, &options);
    let mode: IntraYMode = y_mode_from(best as u8);
    let y: [[i16; 16]; 16] = ys[best];
    let y2: [i16; 16] = y2s[best];
    let option: Vec<Candidate> = take_option(options, best);
    PickedWhole { mode, y, y2, option }
}

/// Chroma predictions.
pub open spec fn u_prediction(t: Task, mode: IntraUvMode) -> Seq<u8> {
    reconstruct::square_from(mode, 8, t.around.u)
}

pub open spec fn v_prediction(t: Task, mode: IntraUvMode) -> Seq<u8> {
    reconstruct::square_from(mode, 8, t.around.v)
}

/// Coefficients of a chroma prediction.
pub open spec fn chroma_coeffs(t: Task, mode: IntraUvMode) -> CoeffModel {
    CoeffModel {
        y2: frame::no_coeffs().y2,
        y: frame::no_coeffs().y,
        u: mb_coder::chroma_blocks(t.pixels.u, u_prediction(t, mode), t.f),
        v: mb_coder::chroma_blocks(t.pixels.v, v_prediction(t, mode), t.f),
    }
}

/// A chroma prediction as a candidate.
pub open spec fn chroma_candidate(t: Task, mode: IntraUvMode) -> CandidateModel {
    let c = chroma_coeffs(t, mode);
    CandidateModel {
        ssd: mb_coder::ssd(
            mb_coder::rebuilt_chroma(u_prediction(t, mode), c.u, t.f),
            t.pixels.u,
            64,
        ) + mb_coder::ssd(
            mb_coder::rebuilt_chroma(v_prediction(t, mode), c.v, t.f),
            t.pixels.v,
            64,
        ),
        tokens: listed(mb_tokens::in_row(c), t.probs, true, 17, 8).lists,
        mode: uv_mode_ops(mode),
    }
}

/// The four chroma predictions.
pub open spec fn chroma_options(t: Task) -> Seq<Seq<CandidateModel>> {
    Seq::new(4, |i: int| seq![chroma_candidate(t, macroblock::uv_mode_of(i))])
}

/// A chroma prediction, carried out.
struct TriedChroma {
    u: [[i16; 16]; 4],
    v: [[i16; 16]; 4],
    candidate: Candidate,
}

fn try_chroma(
    pixels: &MbPixels,
    around: &MbNeighbors,
    f: &MbDequantFactors,
    probs: &CoeffProbs,
    mode: IntraUvMode,
    Ghost(t): Ghost<Task>,
) -> (w: TriedChroma)
    requires
        f.valid(),
        t.pixels == pixel_planes(*pixels),
        t.around == around@,
        t.f == *f,
        t.probs == tokens::flat_probs(*probs),
    ensures
        frame::block_views(w.u@) == chroma_coeffs(t, mode).u,
        frame::block_views(w.v@) == chroma_coeffs(t, mode).v,
        w.candidate@ == chroma_candidate(t, mode),
{
    let u_pred: [u8; 64] = predict_u(mode, around);
    let v_pred: [u8; 64] = predict_v(mode, around);
    let u: [[i16; 16]; 4] = transform_chroma_plane(&pixels.u, &u_pred, f);
    let v: [[i16; 16]; 4] = transform_chroma_plane(&pixels.v, &v_pred, f);
    let u_recon: [u8; 64] = reconstruct_chroma_plane(&u_pred, &u, f);
    let v_recon: [u8; 64] = reconstruct_chroma_plane(&v_pred, &v, f);
    let ssd: u64 = block_ssd(&u_recon, &pixels.u) + block_ssd(&v_recon, &pixels.v);
    let mut c: MbCoeffs = MbCoeffs::default();
    c.u = u;
    c.v = v;
    assert(c@ =~= chroma_coeffs(t, mode));
    let lists: Vec<Vec<(u8, bool)>> = list_blocks(&c, probs, true, 17, 8);
    let mut ops: Vec<(u8, bool)> = Vec::new();
    proof {
        lemma_modes_reached();
        assert(trees::tree_path(UV_MODE_TREE@, 0, mode.number()) is Some);
    }
    push_leaf(&mut ops, &UV_MODE_TREE, &KF_UV_MODE_PROBS, 0, mode.leaf());
    assert(ops@ =~= uv_mode_ops(mode));
    let candidate: Candidate = Candidate { ssd, tokens: lists, mode: ops };
    assert(candidate@ =~= chroma_candidate(t, mode));
    TriedChroma { u, v, candidate }
}

/// Chroma, once its prediction is chosen.
struct PickedChroma {
    mode: IntraUvMode,
    u: [[i16; 16]; 4],
    v: [[i16; 16]; 4],
}

/// Lets `judge` choose among the chroma predictions.
fn pick_uv8x8_mode<F: Fn(&Vec<Vec<Candidate>>) -> usize>(
    pixels: &MbPixels,
    around: &MbNeighbors,
    f: &MbDequantFactors,
    probs: &CoeffProbs,
    judge: &F,
    Ghost(t): Ghost<Task>,
) -> (w: PickedChroma)
    requires
        answers(*judge),
        f.valid(),
        t.pixels == pixel_planes(*pixels),
        t.around == around@,
        t.f == *f,
        t.probs == tokens::flat_probs(*probs),
    ensures
        chosen(*judge, chroma_options(t), w.mode.number()),
        frame::block_views(w.u@) == chroma_coeffs(t, w.mode).u,
        frame::block_views(w.v@) == chroma_coeffs(t, w.mode).v,
{
    let mut options: Vec<Vec<Candidate>> = Vec::new();
    let mut us: Vec<[[i16; 16]; 4]> = Vec::new();
    let mut vs: Vec<[[i16; 16]; 4]> = Vec::new();
    let mut i: u8 = 0;
    while i < 4
        invariant
            i <= 4,
            f.valid(),
            t.pixels == pixel_planes(*pixels),
            t.around == around@,
            t.f == *f,
            t.probs == tokens::flat_probs(*probs),
            options@.len() == i,
            us@.len() == i,
            vs@.len() == i,
            forall|j: int|
                0 <= j < i ==> #[trigger] option_views(options@)[j] == chroma_options(t)[j],
            forall|j: int|
                0 <= j < i ==> frame::block_views((#[trigger] us@[j])@) == chroma_coeffs(
                    t,
                    macroblock::uv_mode_of(j),
                ).u,
            forall|j: int|
                0 <= j < i ==> frame::block_views((#[trigger] vs@[j])@) == chroma_coeffs(
                    t,
                    macroblock::uv_mode_of(j),
                ).v,
        decreases 4 - i,
    {
        let w: TriedChroma = try_chroma(pixels, around, f, probs, uv_mode_from(i), Ghost(t));
        let mut option: Vec<Candidate> = Vec::new();
        option.push(w.candidate);
        assert(part_views(option@) =~= seq![
            chroma_candidate(t, macroblock::uv_mode_of(i as int)),
        ]);
        let ghost before = options@;
        options.push(option);
        assert forall|j: int| 0 <= j <= i implies #[trigger] option_views(options@)[j]
            == chroma_options(t)[j] by {
            if j < i {
                assert(option_views(before)[j] == chroma_options(t)[j]);
            }
        }
        us.push(w.u);
        vs.push(w.v);
        i = i + 1;
    }
    assert(option_views(options@) =~= chroma_options(t));
    let best: usize = ask(judge, &options);
    PickedChroma { mode: uv_mode_from(best as u8), u: us[best], v: vs[best] }
}

/// Subblocks that are predicted one from another, as far as their modes are
/// chosen.
pub struct SubState {
    pub work: Seq<u8>,
    pub coeffs: Seq<Seq<i16>>,
}

/// Coefficients of the next subblock under mode `m`.
#[verifier::opaque]
pub open spec fn next_coeffs(t: Task, st: SubState, m: IntraBmode) -> Seq<i16> {
    let k = st.coeffs.len() as int;
    mb_coder::coded_block(
        mb_coder::tile(t.pixels.y, 4, k),
        reconstruct::subblock_prediction(st.work, k, m),
        t.f.y1_dc as int,
        t.f.y1_ac as int,
    )
}

/// What a decoder makes of the next subblock under mode `m`.
#[verifier::opaque]
pub open spec fn next_pixels(t: Task, st: SubState, m: IntraBmode) -> Seq<u8> {
    mb_coder::rebuilt_block(
        reconstruct::subblock_prediction(st.work, st.coeffs.len() as int, m),
        next_coeffs(t, st, m),
        t.f.y1_dc as int,
        t.f.y1_ac as int,
    )
}

/// The subblocks after one more mode.
pub open spec fn with_next(t: Task, st: SubState, m: IntraBmode) -> SubState {
    SubState {
        work: reconstruct::with_subblock(
            st.work,
            st.coeffs.len() as int,
            next_pixels(t, st, m),
        ),
        coeffs: st.coeffs.push(next_coeffs(t, st, m)),
    }
}

/// The subblocks under the given modes.
pub open spec fn sub_state(t: Task, modes: Seq<IntraBmode>) -> SubState
    decreases modes.len(),
{
    if modes.len() == 0 {
        SubState { work: reconstruct::work_area(t.around), coeffs: Seq::empty() }
    } else {
        with_next(t, sub_state(t, modes.drop_last()), modes.last())
    }
}

/// Mode above subblock `modes.len()` in its macroblock.
pub open spec fn mode_above(modes: Seq<IntraBmode>) -> IntraBmode {
    if modes.len() < 4 {
        IntraBmode::Dc
    } else {
        modes[modes.len() - 4]
    }
}

/// Mode to the left of subblock `modes.len()` in its macroblock.
pub open spec fn mode_left(modes: Seq<IntraBmode>) -> IntraBmode {
    if modes.len() % 4 == 0 {
        IntraBmode::Dc
    } else {
        modes.last()
    }
}

/// Number of neighbours of the next subblock that are not empty.
pub open spec fn sub_ctx(coeffs: Seq<Seq<i16>>) -> int {
    let k = coeffs.len() as int;
    bool_decoder::bit_value(k >= 4 && frame::has_nonzero(coeffs[k - 4])) + bool_decoder::bit_value(
        k % 4 > 0 && frame::has_nonzero(coeffs[k - 1]),
    )
}

/// Mode `m` for the subblock behind those that have `modes`.
#[verifier::opaque]
pub open spec fn sub_candidate(t: Task, modes: Seq<IntraBmode>, m: IntraBmode) -> CandidateModel {
    let st = sub_state(t, modes);
    let k = modes.len() as int;
    CandidateModel {
        ssd: mb_coder::ssd(next_pixels(t, st, m), mb_coder::tile(t.pixels.y, 4, k), 16),
        tokens: seq![
            tokens::block_ops(
                t.probs,
                BlockType::YNoY2,
                sub_ctx(st.coeffs),
                forward_transform::scan_order(next_coeffs(t, st, m)),
            ),
        ],
        mode: b_mode_ops(mode_above(modes), mode_left(modes), m),
    }
}

/// The ten modes for the subblock behind those that have `modes`.
#[verifier::opaque]
pub open spec fn sub_options(t: Task, modes: Seq<IntraBmode>) -> Seq<Seq<CandidateModel>> {
    Seq::new(10, |i: int| seq![sub_candidate(t, modes, macroblock::b_mode_of(i))])
}

/// `judge` chose `modes` one after another.
pub open spec fn modes_chosen<F: Fn(&Vec<Vec<Candidate>>) -> usize>(
    judge: F,
    t: Task,
    modes: Seq<IntraBmode>,
) -> bool {
    forall|k: int|
        0 <= k < modes.len() ==> chosen(
            judge,
            sub_options(t, modes.take(k)),
            (#[trigger] modes[k]).number(),
        )
}

/// Sixteen subblocks with their modes, and what it costs to say that they have
/// modes of their own.
pub open spec fn subblock_option(t: Task, modes: Seq<IntraBmode>) -> Seq<CandidateModel> {
    Seq::new(modes.len(), |k: int| sub_candidate(t, modes.take(k), modes[k])).push(
        CandidateModel { ssd: 0, tokens: Seq::empty(), mode: y_mode_ops(IntraYMode::B) },
    )
}

pub proof fn lemma_sub_state_len(t: Task, modes: Seq<IntraBmode>)
    ensures
        sub_state(t, modes).coeffs.len() == modes.len(),
    decreases modes.len(),
{
    if modes.len() > 0 {
        lemma_sub_state_len(t, modes.drop_last());
    }
}

/// A subblock prediction, carried out.
struct TriedSubblock {
    coeffs: [i16; 16],
    pixels: [u8; 16],
    candidate: Candidate,
}

fn try_subblock(
    src: &[u8; 16],
    work: &[u8; 357],
    k: usize,
    mode: IntraBmode,
    f: &MbDequantFactors,
    probs: &CoeffProbs,
    above_nonzero: bool,
    left_nonzero: bool,
    above_mode: IntraBmode,
    left_mode: IntraBmode,
    Ghost(t): Ghost<Task>,
    Ghost(modes): Ghost<Seq<IntraBmode>>,
) -> (w: TriedSubblock)
    requires
        k < 16,
        f.valid(),
        modes.len() == k,
        src@ == mb_coder::tile(t.pixels.y, 4, k as int),
        work@ == sub_state(t, modes).work,
        t.f == *f,
        t.probs == tokens::flat_probs(*probs),
        bool_decoder::bit_value(above_nonzero) + bool_decoder::bit_value(left_nonzero) == sub_ctx(
            sub_state(t, modes).coeffs,
        ),
        above_mode == mode_above(modes),
        left_mode == mode_left(modes),
    ensures
        w.coeffs@ == next_coeffs(t, sub_state(t, modes), mode),
        w.pixels@ == next_pixels(t, sub_state(t, modes), mode),
        w.candidate@ == sub_candidate(t, modes, mode),
{
    proof {
        reveal(next_coeffs);
        reveal(next_pixels);
        reveal(sub_candidate);
        lemma_sub_state_len(t, modes);
        lemma_modes_reached();
        assert(trees::tree_path(BMODE_TREE@, 0, mode.number()) is Some);
    }
    let pred: [u8; 16] = predict_subblock(work, k, mode);
    let coeffs: [i16; 16] = code_block(src, &pred, f.y1_dc, f.y1_ac);
    let pixels: [u8; 16] = reconstruct_block_4x4(&pred, &coeffs, f.y1_dc, f.y1_ac);
    let ssd: u64 = block_ssd(&pixels, src);
    let scan: [i16; 16] = raster_to_scan(&coeffs);
    let mut lists: Vec<Vec<(u8, bool)>> = Vec::new();
    lists.push(block_symbols(BlockType::YNoY2, probs, above_nonzero, left_nonzero, &scan));
    let mut ops: Vec<(u8, bool)> = Vec::new();
    push_leaf(
        &mut ops,
        &BMODE_TREE,
        &KF_BMODE_PROB[above_mode.idx()][left_mode.idx()],
        0,
        mode.idx() as u8,
    );
    assert(ops@ =~= b_mode_ops(above_mode, left_mode, mode));
    let candidate: Candidate = Candidate { ssd, tokens: lists, mode: ops };
    assert(candidate@.tokens =~= sub_candidate(t, modes, mode).tokens);
    TriedSubblock { coeffs, pixels, candidate }
}

/// A subblock, once its mode is chosen.
struct PickedSubblock {
    mode: IntraBmode,
    coeffs: [i16; 16],
    pixels: [u8; 16],
    option: Vec<Candidate>,
}

fn pick_b4x4_mode<F: Fn(&Vec<Vec<Candidate>>) -> usize>(
    src: &[u8; 16],
    work: &[u8; 357],
    k: usize,
    f: &MbDequantFactors,
    probs: &CoeffProbs,
    above_nonzero: bool,
    left_nonzero: bool,
    above_mode: IntraBmode,
    left_mode: IntraBmode,
    judge: &F,
    Ghost(t): Ghost<Task>,
    Ghost(modes): Ghost<Seq<IntraBmode>>,
) -> (w: PickedSubblock)
    requires
        answers(*judge),
        k < 16,
        f.valid(),
        modes.len() == k,
        src@ == mb_coder::tile(t.pixels.y, 4, k as int),
        work@ == sub_state(t, modes).work,
        t.f == *f,
        t.probs == tokens::flat_probs(*probs),
        bool_decoder::bit_value(above_nonzero) + bool_decoder::bit_value(left_nonzero) == sub_ctx(
            sub_state(t, modes).coeffs,
        ),
        above_mode == mode_above(modes),
        left_mode == mode_left(modes),
    ensures
        chosen(*judge, sub_options(t, modes), w.mode.number()),
        w.coeffs@ == next_coeffs(t, sub_state(t, modes), w.mode),
        w.pixels@ == next_pixels(t, sub_state(t, modes), w.mode),
        part_views(w.option@) == seq![sub_candidate(t, modes, w.mode)],
{
    let mut options: Vec<Vec<Candidate>> = Vec::new();
    let mut coeffs: Vec<[i16; 16]> = Vec::new();
    let mut pixels: Vec<[u8; 16]> = Vec::new();
    let ghost st = sub_state(t, modes);
    let mut i: u8 = 0;
    proof {
        reveal(sub_options);
    }
    while i < 10
        invariant
            i <= 10,
            k < 16,
            f.valid(),
            modes.len() == k,
            src@ == mb_coder::tile(t.pixels.y, 4, k as int),
            work@ == sub_state(t, modes).work,
            t.f == *f,
            t.probs == tokens::flat_probs(*probs),
            bool_decoder::bit_value(above_nonzero) + bool_decoder::bit_value(left_nonzero)
                == sub_ctx(sub_state(t, modes).coeffs),
            above_mode == mode_above(modes),
            left_mode == mode_left(modes),
            st == sub_state(t, modes),
            options@.len() == i,
            coeffs@.len() == i,
            pixels@.len() == i,
            forall|j: int|
                0 <= j < i ==> #[trigger] option_views(options@)[j] == sub_options(t, modes)[j],
            forall|j: int|
                0 <= j < i ==> (#[trigger] coeffs@[j])@ == next_coeffs(
                    t,
                    st,
                    macroblock::b_mode_of(j),
                ),
            forall|j: int|
                0 <= j < i ==> (#[trigger] pixels@[j])@ == next_pixels(
                    t,
                    st,
                    macroblock::b_mode_of(j),
                ),
        decreases 10 - i,
    {
        let w: TriedSubblock = try_subblock(
            src,
            work,
            k,
            b_mode_from(i),
            f,
            probs,
            above_nonzero,
            left_nonzero,
            above_mode,
            left_mode,
            Ghost(t),
            Ghost(modes),
        );
        let mut option: Vec<Candidate> = Vec::new();
        option.push(w.candidate);
        proof {
            reveal(sub_options);
        }
        assert(part_views(option@) =~= seq![
            sub_candidate(t, modes, macroblock::b_mode_of(i as int)),
        ]);
        let ghost before = options@;
        options.push(option);
        assert forall|j: int| 0 <= j <= i implies #[trigger] option_views(options@)[j]
            == sub_options(t, modes)[j] by {
            if j < i {
                assert(option_views(before)[j] == sub_options(t, modes)[j]);
            }
        }
        coeffs.push(w.coeffs);
        pixels.push(w.pixels);
        i = i + 1;
    }
    assert(option_views(options@) =~= sub_options(t, modes));
    let best: usize = ask(judge, &options);
    let c: [i16; 16] = coeffs[best];
    let p: [u8; 16] = pixels[best];
    let option: Vec<Candidate> = take_option(options, best);
    PickedSubblock { mode: b_mode_from(best as u8), coeffs: c, pixels: p, option }
}

/// Luma whose subblocks have modes of their own, once these are chosen.
struct PickedSubblocks {
    modes: [IntraBmode; 16],
    y: [[i16; 16]; 16],
    option: Vec<Candidate>,
}

/// Lets `judge` choose the modes of the subblocks, each in the light of what
/// a decoder makes of those in front of it.
fn encode_bpred_luma<F: Fn(&Vec<Vec<Candidate>>) -> usize>(
    pixels: &MbPixels,
    around: &MbNeighbors,
    f: &MbDequantFactors,
    probs: &CoeffProbs,
    judge: &F,
    Ghost(t): Ghost<Task>,
) -> (w: PickedSubblocks)
    requires
        answers(*judge),
        f.valid(),
        t.pixels == pixel_planes(*pixels),
        t.around == around@,
        t.f == *f,
        t.probs == tokens::flat_probs(*probs),
    ensures
        modes_chosen(*judge, t, w.modes@),
        frame::block_views(w.y@) == sub_state(t, w.modes@).coeffs,
        part_views(w.option@) == subblock_option(t, w.modes@),
{
    let mut work: [u8; 357] = build_work_area(around);
    let mut modes: [IntraBmode; 16] = [IntraBmode::Dc;16];
    let mut y: [[i16; 16]; 16] = [[0i16;16];16];
    let mut nonzero: [bool; 16] = [false;16];
    let mut parts: Vec<Candidate> = Vec::new();
    let mut k: usize = 0;
    assert(modes@.take(0) =~= Seq::<IntraBmode>::empty());
    assert(frame::block_views(y@).take(0) =~= sub_state(t, modes@.take(0)).coeffs);
    while k < 16
        invariant
            k <= 16,
            answers(*judge),
            f.valid(),
            t.pixels == pixel_planes(*pixels),
            t.around == around@,
            t.f == *f,
            t.probs == tokens::flat_probs(*probs),
            work@ == sub_state(t, modes@.take(k as int)).work,
            frame::block_views(y@).take(k as int) == sub_state(t, modes@.take(k as int)).coeffs,
            forall|j: int| 0 <= j < k ==> #[trigger] nonzero[j] == frame::has_nonzero(y[j]@),
            forall|j: int|
                0 <= j < k ==> chosen(
                    *judge,
                    sub_options(t, modes@.take(j)),
                    (#[trigger] modes@[j]).number(),
                ),
            parts@.len() == k,
            forall|j: int|
                0 <= j < k ==> (#[trigger] parts@[j])@ == sub_candidate(
                    t,
                    modes@.take(j),
                    modes@[j],
                ),
        decreases 16 - k,
    {
        let ghost before = modes@;
        let ghost head = modes@.take(k as int);
        let ghost st = sub_state(t, head);
        let ghost blocks = frame::block_views(y@);
        let src: [u8; 16] = load_4x4(&pixels.y, 64 * (k / 4) + 4 * (k % 4), 16);
        let above_nonzero: bool = k >= 4 && nonzero[k - 4];
        let left_nonzero: bool = k % 4 > 0 && nonzero[k - 1];
        proof {
            if k >= 4 {
                assert(blocks.take(k as int)[k - 4] == y[k - 4]@);
            }
            if k % 4 > 0 {
                assert(blocks.take(k as int)[k - 1] == y[k - 1]@);
            }
        }
        let above_mode: IntraBmode = if k < 4 {
            IntraBmode::Dc
        } else {
            modes[k - 4]
        };
        let left_mode: IntraBmode = if k % 4 == 0 {
            IntraBmode::Dc
        } else {
            modes[k - 1]
        };
        let w: PickedSubblock = pick_b4x4_mode(
            &src,
            &work,
            k,
            f,
            probs,
            above_nonzero,
            left_nonzero,
            above_mode,
            left_mode,
            judge,
            Ghost(t),
            Ghost(head),
        );
        modes[k] = w.mode;
        y[k] = w.coeffs;
        nonzero[k] = block_has_nonzero(&w.coeffs);
        place_subblock(&mut work, k, &w.pixels);
        let mut option: Vec<Candidate> = w.option;
        assert(option@.len() == part_views(option@).len());
        assert(option@[0]@ == part_views(option@)[0]);
        if let Some(part) = option.pop() {
            parts.push(part);
        }
        proof {
            lemma_sub_state_len(t, head);
            assert(modes@.take(k + 1) =~= head.push(w.mode));
            assert(modes@.take(k + 1).drop_last() =~= head);
            assert(frame::block_views(y@).take(k + 1) =~= blocks.take(k as int).push(w.coeffs@));
            assert forall|j: int| 0 <= j <= k implies #[trigger] modes@.take(j) == before.take(
                j,
            ) by {
                assert(modes@.take(j) =~= before.take(j));
            }
        }
        k = k + 1;
    }
    assert(modes@.take(16) =~= modes@);
    assert(frame::block_views(y@).take(16) =~= frame::block_views(y@));
    let mut flag: Vec<(u8, bool)> = Vec::new();
    proof {
        lemma_modes_reached();
        assert(trees::tree_path(KF_YMODE_TREE@, 0, IntraYMode::B.number()) is Some);
    }
    push_leaf(&mut flag, &KF_YMODE_TREE, &KF_YMODE_PROBS, 0, IntraYMode::B.leaf());
    assert(flag@ =~= y_mode_ops(IntraYMode::B));
    parts.push(Candidate { ssd: 0, tokens: Vec::new(), mode: flag });
    proof {
        assert(parts@[16]@.tokens =~= Seq::empty());
        assert(part_views(parts@) =~= subblock_option(t, modes@));
    }
    PickedSubblocks { modes, y, option: parts }
}

/// What was chosen for a macroblock.
pub struct Decisions {
    /// Luma prediction as a whole.
    pub whole: IntraYMode,
    /// Modes of the subblocks.
    pub modes: Seq<IntraBmode>,
    /// The subblocks have modes of their own.
    pub own: bool,
    pub uv: IntraUvMode,
}

/// The two ways to predict luma.
pub open spec fn luma_options(t: Task, d: Decisions) -> Seq<Seq<CandidateModel>> {
    seq![seq![whole_candidate(t, d.whole)], subblock_option(t, d.modes)]
}

/// `judge` decided on `d` for the macroblock `t`.
#[verifier::opaque]
pub open spec fn decided<F: Fn(&Vec<Vec<Candidate>>) -> usize>(
    judge: F,
    t: Task,
    d: Decisions,
) -> bool {
    &&& d.whole != IntraYMode::B
    &&& chosen(judge, whole_options(t), d.whole.number())
    &&& d.modes.len() == 16
    &&& modes_chosen(judge, t, d.modes)
    &&& chosen(judge, luma_options(t, d), bool_decoder::bit_value(d.own))
    &&& chosen(judge, chroma_options(t), d.uv.number())
}

/// Luma mode of a macroblock.
pub open spec fn decided_y_mode(d: Decisions) -> IntraYMode {
    if d.own {
        IntraYMode::B
    } else {
        d.whole
    }
}

/// Coefficients of a macroblock.
#[verifier::opaque]
pub open spec fn decided_coeffs(t: Task, d: Decisions) -> CoeffModel {
    CoeffModel {
        y2: if d.own {
            frame::zero_block()
        } else {
            whole_coeffs(t, d.whole).y2
        },
        y: if d.own {
            sub_state(t, d.modes).coeffs
        } else {
            whole_coeffs(t, d.whole).y
        },
        u: chroma_coeffs(t, d.uv).u,
        v: chroma_coeffs(t, d.uv).v,
    }
}

/// An encoded macroblock.
pub struct EncodedMb {
    /// Quantized coefficients.
    pub coeffs: MbCoeffs,
    /// The tokens of the macroblock on its own.
    pub bytes: Vec<u8>,
    /// Number of blocks that are not empty.
    pub nonzero_block_count: usize,
    pub y_mode: IntraYMode,
    pub uv_mode: IntraUvMode,
    /// Modes of the subblocks, where they have their own.
    pub b_subblock_modes: Option<[IntraBmode; 16]>,
}

impl EncodedMb {
    /// What the decisions `d` make of the macroblock `t`.
    #[verifier::opaque]
    pub open spec fn follows(&self, t: Task, d: Decisions) -> bool {
        let w = mb_tokens::write_mb(
            decided_coeffs(t, d),
            t.probs,
            !d.own,
            mb_tokens::clear_ctx(),
            mb_tokens::clear_ctx(),
        );
        &&& self.coeffs@ == decided_coeffs(t, d)
        &&& token_encoder::coeffs_fault(decided_coeffs(t, d), !d.own) is None
        &&& range_coder::is_code(self.bytes@, w.ops)
        &&& self.nonzero_block_count == w.count
        &&& self.y_mode == decided_y_mode(d)
        &&& self.uv_mode == d.uv
        &&& match self.b_subblock_modes {
            Some(m) => d.own && m@ == d.modes,
            None => !d.own,
        }
    }
}

/// The macroblock `pixels` beside `around` at quantizer index `yac_qi`.
pub open spec fn task_of(
    pixels: MbPixels,
    around: MbNeighbors,
    yac_qi: int,
    probs: CoeffProbs,
) -> Task {
    Task {
        pixels: pixel_planes(pixels),
        around: around@,
        f: quant::factors_of(yac_qi, quant::no_deltas()),
        probs: tokens::flat_probs(probs),
    }
}

/// A macroblock, once all is chosen.
struct PickedMb {
    coeffs: MbCoeffs,
    whole: IntraYMode,
    modes: [IntraBmode; 16],
    own: bool,
    uv: IntraUvMode,
}

impl PickedMb {
    spec fn decisions(&self) -> Decisions {
        Decisions { whole: self.whole, modes: self.modes@, own: self.own, uv: self.uv }
    }
}

/// Lets `judge` choose how a macroblock is predicted.
fn pick_macroblock<F: Fn(&Vec<Vec<Candidate>>) -> usize>(
    pixels: &MbPixels,
    around: &MbNeighbors,
    f: &MbDequantFactors,
    probs: &CoeffProbs,
    judge: &F,
    Ghost(t): Ghost<Task>,
) -> (p: PickedMb)
    requires
        answers(*judge),
        f.valid(),
        t.pixels == pixel_planes(*pixels),
        t.around == around@,
        t.f == *f,
        t.probs == tokens::flat_probs(*probs),
    ensures
        decided(*judge, t, p.decisions()),
        p.coeffs@ == decided_coeffs(t, p.decisions()),
{
    let whole: PickedWhole = pick_y16x16_mode(pixels, around, f, probs, judge, Ghost(t));
    let sub: PickedSubblocks = encode_bpred_luma(pixels, around, f, probs, judge, Ghost(t));
    let chroma: PickedChroma = pick_uv8x8_mode(pixels, around, f, probs, judge, Ghost(t));
    let mut options: Vec<Vec<Candidate>> = Vec::new();
    options.push(whole.option);
    options.push(sub.option);
    let own: bool = ask(judge, &options) == 1;
    let ghost d = Decisions { whole: whole.mode, modes: sub.modes@, own, uv: chroma.mode };
    assert(option_views(options@) =~= luma_options(t, d));
    let mut coeffs: MbCoeffs = MbCoeffs::default();
    if own {
        coeffs.y = sub.y;
    } else {
        coeffs.y = whole.y;
        coeffs.y2 = whole.y2;
    }
    coeffs.u = chroma.u;
    coeffs.v = chroma.v;
    proof {
        reveal(decided);
        reveal(decided_coeffs);
        assert(coeffs@ =~= decided_coeffs(t, d));
    }
    PickedMb { coeffs, whole: whole.mode, modes: sub.modes, own, uv: chroma.mode }
}

/// Encodes a macroblock on its own. Whatever `judge` names, that succeeds.
pub fn encode_mb_block_set<F: Fn(&Vec<Vec<Candidate>>) -> usize>(
    pixels: &MbPixels,
    yac_qi: u8,
    coeff_probs: &CoeffProbs,
    judge: &F,
) -> (r: Result<EncodedMb, TokenEncodeError>)
    requires
        answers(*judge),
    ensures
        ({
            let t = Task {
                pixels: pixel_planes(*pixels),
                around: reconstruct::nothing_around(),
                f: quant::factors_of(yac_qi as int, quant::no_deltas()),
                probs: tokens::flat_probs(*coeff_probs),
            };
            r matches Ok(m) && exists|d: Decisions| #[trigger]
                decided(*judge, t, d) && m.follows(t, d)
        }),
{
    let alone: MbNeighbors = MbNeighbors::default();
    encode_mb_block_set_with_neighbors(pixels, &alone, yac_qi, coeff_probs, judge)
}

/// Encodes a macroblock beside what stands round it. Whatever `judge` names,
/// that succeeds.
pub fn encode_mb_block_set_with_neighbors<F: Fn(&Vec<Vec<Candidate>>) -> usize>(
    pixels: &MbPixels,
    neighbors: &MbNeighbors,
    yac_qi: u8,
    coeff_probs: &CoeffProbs,
    judge: &F,
) -> (r: Result<EncodedMb, TokenEncodeError>)
    requires
        answers(*judge),
    ensures
        ({
            let t = task_of(*pixels, *neighbors, yac_qi as int, *coeff_probs);
            r matches Ok(m) && exists|d: Decisions| #[trigger]
                decided(*judge, t, d) && m.follows(t, d)
        }),
{
    let f: MbDequantFactors = MbDequantFactors::from_base_and_deltas(
        yac_qi as i32,
        0,
        0,
        0,
        0,
        0,
    );
    let ghost t = task_of(*pixels, *neighbors, yac_qi as int, *coeff_probs);
    let p: PickedMb = pick_macroblock(pixels, neighbors, &f, coeff_probs, judge, Ghost(t));
    let ghost d = p.decisions();
    let mut enc: BoolEncoder = BoolEncoder::new();
    let mut above: MbEntropyCtx = MbEntropyCtx::default();
    let mut left: MbEntropyCtx = MbEntropyCtx::default();
    let count: usize = match encode_mb_tokens(
        &mut enc,
        &p.coeffs,
        p.own,
        coeff_probs,
        &mut above,
        &mut left,
    ) {
        Ok(n) => n,
        Err(e) => {
            proof {
                lemma_decided(*judge, t, d);
                quant::lemma_factors_valid(yac_qi as int, quant::no_deltas());
                reach_law::law_macroblock_can_be_coded(t, d);
            }
            return Err(e);
        },
    };
    assert(enc@ =~= mb_tokens::write_mb(
        decided_coeffs(t, d),
        t.probs,
        !d.own,
        mb_tokens::clear_ctx(),
        mb_tokens::clear_ctx(),
    ).ops);
    let bytes: Vec<u8> = enc.finish();
    let m: EncodedMb = EncodedMb {
        coeffs: p.coeffs,
        bytes,
        nonzero_block_count: count,
        y_mode: if p.own {
            IntraYMode::B
        } else {
            p.whole
        },
        uv_mode: p.uv,
        b_subblock_modes: if p.own {
            Some(p.modes)
        } else {
            None
        },
    };
    proof {
        reveal(EncodedMb::follows);
        assert(m.follows(t, d));
    }
    Ok(m)
}

proof fn lemma_sub_coeffs(t: Task, modes: Seq<IntraBmode>)
    ensures
        sub_state(t, modes).coeffs.len() == modes.len(),
        forall|k: int|
            0 <= k < modes.len() ==> (#[trigger] sub_state(t, modes).coeffs[k]).len() == 16,
    decreases modes.len(),
{
    if modes.len() > 0 {
        lemma_sub_coeffs(t, modes.drop_last());
        reveal(next_coeffs);
    }
}

/// What every decision is like.
pub proof fn lemma_decided<F: Fn(&Vec<Vec<Candidate>>) -> usize>(judge: F, t: Task, d: Decisions)
    requires
        decided(judge, t, d),
    ensures
        d.modes.len() == 16,
        d.whole != IntraYMode::B,
{
    reveal(decided);
}

/// The coefficients of a macroblock hide nothing.
pub proof fn lemma_nothing_hidden(t: Task, d: Decisions)
    requires
        d.modes.len() == 16,
        t.f.valid(),
    ensures
        mb_tokens::nothing_hidden(decided_coeffs(t, d), !d.own),
{
    reveal(decided_coeffs);
    lemma_sub_coeffs(t, d.modes);
    let c = decided_coeffs(t, d);
    assert forall|b: int| 0 <= b < 25 implies (#[trigger] mb_tokens::in_row(c)[b]).len() == 16 by {
        if b < 16 {
            assert(mb_tokens::in_row(c)[b] == c.y[b]);
        } else if b < 20 {
            assert(mb_tokens::in_row(c)[b] == c.u[b - 16]);
        } else if b < 24 {
            assert(mb_tokens::in_row(c)[b] == c.v[b - 20]);
        } else {
            assert(mb_tokens::in_row(c)[b] == c.y2);
        }
    }
    if !d.own {
        assert forall|k: int| 0 <= k < 16 implies (#[trigger] c.y[k])[0] == 0 by {
            let step = t.f.y1_dc as int;
            assert(step / 2 / step == 0) by (nonlinear_arith)
                requires
                    step > 0,
            ;
        }
    }
}

} // verus!
