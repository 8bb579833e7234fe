//! Macroblock modes: how each macroblock of a frame is predicted.
use crate::bool_decoder;
use crate::bool_decoder::BoolDecoder;
use crate::coded_header::{CodedHeaderModel, Vp8CodedHeader};
use crate::frame_header::{FrameHeader, HeaderModel};
use crate::macroblock;
use crate::macroblock::{b_mode_from, uv_mode_from, y_mode_from, IntraBmode, IntraUvMode, IntraYMode};
use crate::motion_comp::RefFrame;
use crate::mv;
use crate::mv::{clamp_mv_to_border, decode_mv, Mv};
use crate::range_coder;
use crate::range_coder::DecState;
use crate::tables::{
    BMODE_TREE, DEFAULT_BMODE_PROBS, KF_BMODE_PROB, KF_UV_MODE_PROBS, KF_YMODE_PROBS,
    KF_YMODE_TREE, MBSPLIT_PROBS, MB_SPLITS, MB_SPLIT_COUNT, MB_SPLIT_TREE, MV_COUNTS_TO_PROBS,
    MV_REF_TREE, SUB_MV_REF_PROBS, SUB_MV_REF_TREE, UV_MODE_TREE, YMODE_TREE,
};
use crate::trees;
use crate::trees::decode_tree;
use vstd::prelude::*;

verus! {

/// How the vector of an inter macroblock is given.
#[derive(Debug, Clone, Copy, PartialEq, Eq, Structural)]
pub enum InterMode {
    Nearest,
    Near,
    Zero,
    New,
    Split,
}

/// Mode that leaf `n` stands for.
pub open spec fn inter_mode_of(n: int) -> InterMode {
    if n == 0 {
        InterMode::Nearest
    } else if n == 1 {
        InterMode::Near
    } else if n == 2 {
        InterMode::Zero
    } else if n == 3 {
        InterMode::New
    } else {
        InterMode::Split
    }
}

fn inter_mode_from(n: u8) -> (m: InterMode)
    ensures
        m == inter_mode_of(n as int),
{
    if n == 0 {
        InterMode::Nearest
    } else if n == 1 {
        InterMode::Near
    } else if n == 2 {
        InterMode::Zero
    } else if n == 3 {
        InterMode::New
    } else {
        InterMode::Split
    }
}

/// How one macroblock is predicted.
#[derive(Debug, Clone, Copy)]
pub struct MbInfo {
    pub y_mode: IntraYMode,
    pub bmodes: [IntraBmode; 16],
    pub uv_mode: IntraUvMode,
    pub skip: bool,
    pub segment_id: u8,
    /// Frame that is predicted from; nothing for an intra macroblock.
    pub reference: Option<RefFrame>,
    pub inter_mode: InterMode,
    pub mv: Mv,
    /// Vector of each subblock.
    pub sub_mvs: [Mv; 16],
}

/// Model of [`MbInfo`].
#[verifier::ext_equal]
pub struct InfoModel {
    pub y_mode: IntraYMode,
    pub bmodes: Seq<IntraBmode>,
    pub uv_mode: IntraUvMode,
    pub skip: bool,
    pub segment_id: int,
    pub reference: Option<RefFrame>,
    pub inter_mode: InterMode,
    pub mv: Mv,
    pub sub_mvs: Seq<Mv>,
}

impl View for MbInfo {
    type V = InfoModel;

    open spec fn view(&self) -> InfoModel {
        InfoModel {
            y_mode: self.y_mode,
            bmodes: self.bmodes@,
            uv_mode: self.uv_mode,
            skip: self.skip,
            segment_id: self.segment_id as int,
            reference: self.reference,
            inter_mode: self.inter_mode,
            mv: self.mv,
            sub_mvs: self.sub_mvs@,
        }
    }
}

/// The macroblocks as models.
pub open spec fn info_views(s: Seq<MbInfo>) -> Seq<InfoModel> {
    Seq::new(s.len(), |k: int| s[k]@)
}

/// Probabilities of the segment tree.
pub open spec fn segment_prob(h: CodedHeaderModel, i: int) -> u8 {
    match h.segmentation->0.prob[i] {
        Some(p) => p,
        None => 255,
    }
}

/// Segment of the macroblock that stands in the stream at `d`.
pub open spec fn read_segment(d: DecState, h: CodedHeaderModel) -> (int, DecState) {
    if h.segmentation is Some && h.segmentation->0.update_map {
        let p0 = segment_prob(h, 0);
        let high = range_coder::dec_bit(d, p0);
        let d1 = range_coder::dec_next(d, p0);
        let p1 = segment_prob(
            h,
            if high {
                2
            } else {
                1
            },
        );
        (
            2 * bool_decoder::bit_value(high) + bool_decoder::bit_value(
                range_coder::dec_bit(d1, p1),
            ),
            range_coder::dec_next(d1, p1),
        )
    } else {
        (0, d)
    }
}

/// Whether the macroblock has no residue.
pub open spec fn read_skip(d: DecState, prob: Option<u8>) -> (bool, DecState) {
    match prob {
        Some(p) => (range_coder::dec_bit(d, p), range_coder::dec_next(d, p)),
        None => (false, d),
    }
}

/// Modes of the first `n` subblocks, beside the given ones.
pub open spec fn read_bmodes(
    d: DecState,
    above: Seq<IntraBmode>,
    left: Seq<IntraBmode>,
    n: nat,
) -> (Seq<IntraBmode>, DecState)
    decreases n,
{
    if n == 0 {
        (Seq::empty(), d)
    } else {
        let i = n - 1;
        let (s, d1) = read_bmodes(d, above, left, (n - 1) as nat);
        let a = if i < 4 {
            above[i]
        } else {
            s[i - 4]
        };
        let l = if i % 4 == 0 {
            left[i / 4]
        } else {
            s[i - 1]
        };
        let (leaf, d2) = trees::read_tree_from(
            d1,
            BMODE_TREE@,
            KF_BMODE_PROB[a.number()][l.number()]@,
            0,
        );
        (s.push(macroblock::b_mode_of(leaf)), d2)
    }
}

/// Modes of the first `n` subblocks, each on its own.
pub open spec fn read_plain_bmodes(d: DecState, n: nat) -> (Seq<IntraBmode>, DecState)
    decreases n,
{
    if n == 0 {
        (Seq::empty(), d)
    } else {
        let (s, d1) = read_plain_bmodes(d, (n - 1) as nat);
        let (leaf, d2) = trees::read_tree_from(d1, BMODE_TREE@, DEFAULT_BMODE_PROBS@, 0);
        (s.push(macroblock::b_mode_of(leaf)), d2)
    }
}

/// Sixteen times the mode that stands for `mode`.
pub open spec fn uniform_bmodes(mode: IntraYMode) -> Seq<IntraBmode> {
    Seq::new(16, |i: int| macroblock::projected(mode))
}

/// Subblock modes above macroblock `k`.
pub open spec fn bmodes_above(infos: Seq<InfoModel>, k: int, cols: int) -> Seq<IntraBmode> {
    Seq::new(
        4,
        |i: int|
            if k >= cols {
                infos[k - cols].bmodes[12 + i]
            } else {
                IntraBmode::Dc
            },
    )
}

/// Subblock modes to the left of macroblock `k`.
pub open spec fn bmodes_left(infos: Seq<InfoModel>, k: int, cols: int) -> Seq<IntraBmode> {
    Seq::new(
        4,
        |i: int|
            if k % cols > 0 {
                infos[k - 1].bmodes[4 * i + 3]
            } else {
                IntraBmode::Dc
            },
    )
}

/// An intra macroblock.
pub open spec fn intra_info(
    skip: bool,
    segment_id: int,
    y_mode: IntraYMode,
    bmodes: Seq<IntraBmode>,
    uv_mode: IntraUvMode,
) -> InfoModel {
    InfoModel {
        y_mode,
        bmodes,
        uv_mode,
        skip,
        segment_id,
        reference: None,
        inter_mode: InterMode::Zero,
        mv: mv::zero_mv(),
        sub_mvs: Seq::new(16, |i: int| mv::zero_mv()),
    }
}

/// Macroblock `k` of a key frame, read after the macroblocks in `infos`.
#[verifier::opaque]
pub open spec fn read_key_info(
    d: DecState,
    h: CodedHeaderModel,
    infos: Seq<InfoModel>,
    k: int,
    cols: int,
) -> (InfoModel, DecState) {
    let (segment_id, d1) = read_segment(d, h);
    let (skip, d2) = read_skip(d1, h.prob_skip);
    let (leaf, d3) = trees::read_tree_from(d2, KF_YMODE_TREE@, KF_YMODE_PROBS@, 0);
    let y_mode = macroblock::y_mode_of(leaf);
    let (bmodes, d4) = if y_mode == IntraYMode::B {
        read_bmodes(d3, bmodes_above(infos, k, cols), bmodes_left(infos, k, cols), 16)
    } else {
        (uniform_bmodes(y_mode), d3)
    };
    let (uv_leaf, d5) = trees::read_tree_from(d4, UV_MODE_TREE@, KF_UV_MODE_PROBS@, 0);
    (intra_info(skip, segment_id, y_mode, bmodes, macroblock::uv_mode_of(uv_leaf)), d5)
}

pub proof fn lemma_mode_trees_ok()
    ensures
        trees::tree_ok(KF_YMODE_TREE@),
        trees::tree_ok(YMODE_TREE@),
        trees::tree_ok(UV_MODE_TREE@),
        trees::tree_ok(BMODE_TREE@),
        trees::tree_ok(MV_REF_TREE@),
        trees::tree_ok(MB_SPLIT_TREE@),
        trees::tree_ok(SUB_MV_REF_TREE@),
        forall|i: int| 0 <= i < 6 ==> -3 <= #[trigger] MB_SPLIT_TREE@[i],
{
}

/// Reads the segment of a macroblock.
fn decode_segment(dec: &mut BoolDecoder<'_>, h: &Vp8CodedHeader) -> (s: u8)
    requires
        old(dec).wf(),
    ensures
        final(dec).wf(),
        (s as int, final(dec)@) == read_segment(old(dec)@, h@),
        final(dec)@.data == old(dec)@.data,
        s <= 3,
{
    if let Some(u) = h.update_segmentation {
        if u.update_mb_segmentation_map {
            let high: bool = dec.get_bool(
                match u.segment_prob[0] {
                    Some(p) => p,
                    None => 255,
                },
            );
            let i: usize = if high {
                2
            } else {
                1
            };
            let low: bool = dec.get_bool(
                match u.segment_prob[i] {
                    Some(p) => p,
                    None => 255,
                },
            );
            let a: u8 = if high {
                2
            } else {
                0
            };
            let b: u8 = if low {
                1
            } else {
                0
            };
            return a + b;
        }
    }
    0
}

/// Reads whether a macroblock has no residue.
fn decode_skip(dec: &mut BoolDecoder<'_>, h: &Vp8CodedHeader) -> (s: bool)
    requires
        old(dec).wf(),
    ensures
        final(dec).wf(),
        (s, final(dec)@) == read_skip(old(dec)@, h@.prob_skip),
        final(dec)@.data == old(dec)@.data,
{
    match h.prob_skip_false {
        Some(p) => dec.get_bool(p),
        None => false,
    }
}

/// Reads the modes of the subblocks of a key-frame macroblock.
fn decode_bmodes(
    dec: &mut BoolDecoder<'_>,
    above: &[IntraBmode; 4],
    left: &[IntraBmode; 4],
) -> (m: [IntraBmode; 16])
    requires
        old(dec).wf(),
    ensures
        final(dec).wf(),
        (m@, final(dec)@) == read_bmodes(old(dec)@, above@, left@, 16),
        final(dec)@.data == old(dec)@.data,
{
    let mut m: [IntraBmode; 16] = [IntraBmode::Dc;16];
    let ghost d0 = dec@;
    proof {
        lemma_mode_trees_ok();
    }
    let mut i: usize = 0;
    while i < 16
        invariant
            i <= 16,
            d0 == old(dec)@,
            dec.wf(),
            dec@.data == d0.data,
            trees::tree_ok(BMODE_TREE@),
            dec@ == read_bmodes(d0, above@, left@, i as nat).1,
            m@.take(i as int) == read_bmodes(d0, above@, left@, i as nat).0,
        decreases 16 - i,
    {
        let ghost before = m@;
        let a: IntraBmode = if i < 4 {
            above[i]
        } else {
            m[i - 4]
        };
        let l: IntraBmode = if i % 4 == 0 {
            left[i / 4]
        } else {
            m[i - 1]
        };
        assert(i >= 4 ==> a == before.take(i as int)[i - 4]);
        assert(i % 4 != 0 ==> l == before.take(i as int)[i - 1]);
        let leaf: u8 = decode_tree(dec, &BMODE_TREE, &KF_BMODE_PROB[a.idx()][l.idx()]);
        m[i] = b_mode_from(leaf);
        assert(m@.take(i + 1) =~= before.take(i as int).push(m@[i as int]));
        i = i + 1;
    }
    assert(m@.take(16) =~= m@);
    m
}

/// Reads the modes of subblocks on an inter frame.
fn decode_plain_bmodes(dec: &mut BoolDecoder<'_>) -> (m: [IntraBmode; 16])
    requires
        old(dec).wf(),
    ensures
        final(dec).wf(),
        (m@, final(dec)@) == read_plain_bmodes(old(dec)@, 16),
        final(dec)@.data == old(dec)@.data,
{
    let mut m: [IntraBmode; 16] = [IntraBmode::Dc;16];
    let ghost d0 = dec@;
    proof {
        lemma_mode_trees_ok();
    }
    let mut i: usize = 0;
    while i < 16
        invariant
            i <= 16,
            d0 == old(dec)@,
            dec.wf(),
            dec@.data == d0.data,
            trees::tree_ok(BMODE_TREE@),
            dec@ == read_plain_bmodes(d0, i as nat).1,
            m@.take(i as int) == read_plain_bmodes(d0, i as nat).0,
        decreases 16 - i,
    {
        let ghost before = m@;
        let leaf: u8 = decode_tree(dec, &BMODE_TREE, &DEFAULT_BMODE_PROBS);
        m[i] = b_mode_from(leaf);
        assert(m@.take(i + 1) =~= before.take(i as int).push(m@[i as int]));
        i = i + 1;
    }
    assert(m@.take(16) =~= m@);
    m
}

fn make_intra(
    skip: bool,
    segment_id: u8,
    y_mode: IntraYMode,
    bmodes: [IntraBmode; 16],
    uv_mode: IntraUvMode,
) -> (info: MbInfo)
    ensures
        info@ == intra_info(skip, segment_id as int, y_mode, bmodes@, uv_mode),
{
    let info: MbInfo = MbInfo {
        y_mode,
        bmodes,
        uv_mode,
        skip,
        segment_id,
        reference: None,
        inter_mode: InterMode::Zero,
        mv: Mv { row: 0, col: 0 },
        sub_mvs: [Mv { row: 0, col: 0 };16],
    };
    assert(info@ =~= intra_info(skip, segment_id as int, y_mode, bmodes@, uv_mode));
    info
}

fn fill_bmodes(mode: IntraYMode) -> (m: [IntraBmode; 16])
    ensures
        m@ == uniform_bmodes(mode),
{
    let b: IntraBmode = mode.project_to_subblock_context();
    let m: [IntraBmode; 16] = [b;16];
    assert(m@ =~= uniform_bmodes(mode));
    m
}

/// Reads macroblock `k` of a key frame.
pub fn decode_mb_mode_info_keyframe(
    dec: &mut BoolDecoder<'_>,
    h: &Vp8CodedHeader,
    infos: &Vec<MbInfo>,
    k: usize,
    cols: usize,
) -> (info: MbInfo)
    requires
        old(dec).wf(),
        cols > 0,
        k <= infos@.len(),
    ensures
        final(dec).wf(),
        (info@, final(dec)@) == read_key_info(
            old(dec)@,
            h@,
            info_views(infos@),
            k as int,
            cols as int,
        ),
        final(dec)@.data == old(dec)@.data,
        info.segment_id <= 3,
        info.reference is None,
{
    proof {
        reveal(read_key_info);
        lemma_mode_trees_ok();
    }
    let segment_id: u8 = decode_segment(dec, h);
    let skip: bool = decode_skip(dec, h);
    let y_mode: IntraYMode = y_mode_from(decode_tree(dec, &KF_YMODE_TREE, &KF_YMODE_PROBS));
    let bmodes: [IntraBmode; 16];
    if y_mode == IntraYMode::B {
        let mut above: [IntraBmode; 4] = [IntraBmode::Dc;4];
        let mut left: [IntraBmode; 4] = [IntraBmode::Dc;4];
        if k >= cols {
            let b: [IntraBmode; 16] = infos[k - cols].bmodes;
            above = [b[12], b[13], b[14], b[15]];
        }
        if k % cols > 0 {
            proof {
                vstd::arithmetic::div_mod::lemma_small_mod(0, cols as nat);
            }
            let b: [IntraBmode; 16] = infos[k - 1].bmodes;
            left = [b[3], b[7], b[11], b[15]];
        }
        assert(above@ =~= bmodes_above(info_views(infos@), k as int, cols as int));
        assert(left@ =~= bmodes_left(info_views(infos@), k as int, cols as int));
        bmodes = decode_bmodes(dec, &above, &left);
    } else {
        bmodes = fill_bmodes(y_mode);
    }
    let uv_mode: IntraUvMode = uv_mode_from(decode_tree(dec, &UV_MODE_TREE, &KF_UV_MODE_PROBS));
    make_intra(skip, segment_id, y_mode, bmodes, uv_mode)
}

/// A neighbour of a macroblock, if the frame has it.
pub open spec fn neighbor(infos: Seq<InfoModel>, there: bool, k: int) -> Option<InfoModel> {
    if there {
        Some(infos[k])
    } else {
        None
    }
}

/// Whether vectors into a reference frame count backwards.
pub open spec fn sign_bias(h: CodedHeaderModel, f: RefFrame) -> bool {
    match f {
        RefFrame::Last => false,
        RefFrame::Golden => h.refresh.sign_golden == Some(true),
        RefFrame::AltRef => h.refresh.sign_alternate == Some(true),
    }
}

/// A vector as seen from a frame with the other sign.
pub open spec fn turned(m: Mv, turn: bool) -> Mv {
    if turn {
        Mv { row: (-(m.row as int)) as i16, col: (-(m.col as int)) as i16 }
    } else {
        m
    }
}

/// Candidates that the neighbours of a macroblock offer. Place 0 is for the
/// zero vector, the others for distinct vectors in the order in which they
/// were met.
#[verifier::ext_equal]
pub struct Candidates {
    pub mvs: Seq<Mv>,
    /// Weight of each candidate.
    pub weights: Seq<int>,
    /// Place of the last one that was met.
    pub last: int,
    /// Weight of the neighbours that are split.
    pub split: int,
}

pub open spec fn no_candidates() -> Candidates {
    Candidates {
        mvs: Seq::new(4, |i: int| mv::zero_mv()),
        weights: Seq::new(4, |i: int| 0int),
        last: 0,
        split: 0,
    }
}

/// The candidates after one more neighbour.
pub open spec fn with_neighbor(
    c: Candidates,
    h: CodedHeaderModel,
    f: RefFrame,
    n: Option<InfoModel>,
    weight: int,
) -> Candidates {
    if n is None || n->0.reference is None {
        c
    } else {
        let info = n->0;
        let m = turned(info.mv, sign_bias(h, f) != sign_bias(h, info.reference->0));
        let split = c.split + if info.inter_mode == InterMode::Split {
            weight
        } else {
            0
        };
        if m == mv::zero_mv() {
            Candidates { weights: c.weights.update(0, c.weights[0] + weight), split, ..c }
        } else {
            let at = if c.mvs[c.last] == m {
                c.last
            } else {
                c.last + 1
            };
            Candidates {
                mvs: c.mvs.update(at, m),
                weights: c.weights.update(at, c.weights[at] + weight),
                last: at,
                split,
            }
        }
    }
}

/// What the neighbours of a macroblock suggest.
pub struct NearMvs {
    pub nearest: Mv,
    pub near: Mv,
    pub best: Mv,
    pub weights: Seq<int>,
}

/// The neighbours' suggestion, from the candidates they offer.
pub open spec fn suggestion(c: Candidates) -> NearMvs {
    let first = c.weights[1] + if c.last == 3 && c.mvs[3] == c.mvs[1] {
        1int
    } else {
        0
    };
    let swap = c.weights[2] > first;
    let nearest = if swap {
        c.mvs[2]
    } else {
        c.mvs[1]
    };
    let near = if swap {
        c.mvs[1]
    } else {
        c.mvs[2]
    };
    let w1 = if swap {
        c.weights[2]
    } else {
        first
    };
    let w2 = if swap {
        first
    } else {
        c.weights[2]
    };
    NearMvs {
        nearest,
        near,
        best: if w1 >= c.weights[0] {
            nearest
        } else {
            mv::zero_mv()
        },
        weights: seq![c.weights[0], w1, w2, c.split],
    }
}

/// What stands above, to the left and above to the left of macroblock `k`
/// suggests for a vector into frame `f`.
pub open spec fn near_mvs(
    infos: Seq<InfoModel>,
    k: int,
    cols: int,
    h: CodedHeaderModel,
    f: RefFrame,
) -> NearMvs {
    let above = neighbor(infos, k >= cols, k - cols);
    let left = neighbor(infos, k % cols > 0, k - 1);
    let corner = neighbor(infos, k >= cols && k % cols > 0, k - cols - 1);
    suggestion(
        with_neighbor(
            with_neighbor(with_neighbor(no_candidates(), h, f, above, 2), h, f, left, 2),
            h,
            f,
            corner,
            1,
        ),
    )
}

/// Probabilities of the inter modes, by the weights of the neighbours.
pub open spec fn mode_probs(weights: Seq<int>) -> Seq<u8> {
    Seq::new(
        4,
        |i: int|
            MV_COUNTS_TO_PROBS[if weights[i] > 5 {
                5
            } else {
                weights[i]
            }][i],
    )
}

/// Candidates whose weights come from neighbours that weigh `total`.
spec fn weighed(c: Candidates, total: int) -> bool {
    &&& c.weights.len() == 4
    &&& c.mvs.len() == 4
    &&& 0 <= c.last <= 3
    &&& 0 <= c.weights[0] && 0 <= c.weights[1] && 0 <= c.weights[2] && 0 <= c.weights[3]
    &&& c.weights[0] + c.weights[1] + c.weights[2] + c.weights[3] <= total
    &&& 0 <= c.split <= total
    &&& c.last <= 2 ==> c.weights[3] == 0
    &&& c.last == 3 ==> c.weights[3] >= 1
}

proof fn lemma_neighbor_weighs(
    c: Candidates,
    h: CodedHeaderModel,
    f: RefFrame,
    n: Option<InfoModel>,
    weight: int,
    total: int,
)
    requires
        weighed(c, total),
        weight >= 1,
        c.last <= 2,
    ensures
        weighed(with_neighbor(c, h, f, n, weight), total + weight),
        with_neighbor(c, h, f, n, weight).last <= c.last + 1,
{
}

/// The weight of the neighbours' suggestions is at most 5, and so is that of
/// the neighbours that are split.
pub proof fn law_weights_are_small(
    infos: Seq<InfoModel>,
    k: int,
    cols: int,
    h: CodedHeaderModel,
    f: RefFrame,
    i: int,
)
    requires
        0 <= i < 4,
    ensures
        0 <= near_mvs(infos, k, cols, h, f).weights[i] <= 5,
{
    let above = neighbor(infos, k >= cols, k - cols);
    let left = neighbor(infos, k % cols > 0, k - 1);
    let corner = neighbor(infos, k >= cols && k % cols > 0, k - cols - 1);
    let c1 = with_neighbor(no_candidates(), h, f, above, 2);
    let c2 = with_neighbor(c1, h, f, left, 2);
    lemma_neighbor_weighs(no_candidates(), h, f, above, 2, 0);
    lemma_neighbor_weighs(c1, h, f, left, 2, 2);
    lemma_neighbor_weighs(c2, h, f, corner, 1, 4);
}

/// Candidates as they are collected.
struct Collected {
    mvs: [Mv; 4],
    weights: [u8; 4],
    last: usize,
    split: u8,
}

impl View for Collected {
    type V = Candidates;

    closed spec fn view(&self) -> Candidates {
        Candidates {
            mvs: self.mvs@,
            weights: Seq::new(4, |i: int| self.weights[i] as int),
            last: self.last as int,
            split: self.split as int,
        }
    }
}

impl Collected {
    /// At most `n` vectors were met, with the total weight `w`.
    closed spec fn at_most(&self, n: int, w: int) -> bool {
        &&& self.last <= n
        &&& self.split <= w
        &&& forall|i: int| 0 <= i < 4 ==> #[trigger] self.weights[i] <= w
    }
}

/// Whether vectors into a reference frame count backwards.
fn ref_frame_sign_bias(f: RefFrame, h: &Vp8CodedHeader) -> (b: bool)
    ensures
        b == sign_bias(h@, f),
{
    let flag: Option<bool> = match f {
        RefFrame::Last => None,
        RefFrame::Golden => h.sign_bias_golden,
        RefFrame::AltRef => h.sign_bias_alternate,
    };
    match flag {
        Some(b) => b,
        None => false,
    }
}

fn collect(
    c: &mut Collected,
    h: &Vp8CodedHeader,
    f: RefFrame,
    n: Option<MbInfo>,
    weight: u8,
    Ghost(met): Ghost<int>,
    Ghost(total): Ghost<int>,
)
    requires
        old(c).at_most(met, total),
        met <= 2,
        total + weight <= 5,
        0 <= met,
        0 <= total,
    ensures
        final(c).at_most(met + 1, total + weight),
        final(c)@ == with_neighbor(
            old(c)@,
            h@,
            f,
            match n {
                Some(i) => Some(i@),
                None => None,
            },
            weight as int,
        ),
{
    let info: MbInfo = match n {
        Some(i) => i,
        None => {
            return;
        },
    };
    let g: RefFrame = match info.reference {
        Some(g) => g,
        None => {
            return;
        },
    };
    let ghost c0 = c@;
    if info.inter_mode == InterMode::Split {
        c.split = c.split + weight;
    }
    let mut m: Mv = info.mv;
    if ref_frame_sign_bias(f, h) != ref_frame_sign_bias(g, h) {
        m = Mv::new(-(m.row as i32), -(m.col as i32));
    }
    if m.row == 0 && m.col == 0 {
        c.weights[0] = c.weights[0] + weight;
        assert(c@.weights =~= c0.weights.update(0, c0.weights[0] + weight));
    } else {
        if c.mvs[c.last] != m {
            c.last = c.last + 1;
            c.mvs[c.last] = m;
        }
        let at: usize = c.last;
        c.weights[at] = c.weights[at] + weight;
        assert(c@.weights =~= c0.weights.update(at as int, c0.weights[at as int] + weight));
        assert(c@.mvs =~= c0.mvs.update(at as int, m));
    }
}

/// What the neighbours of a macroblock suggest: the nearest vector, the next
/// one, the best prediction, and the weights of the candidates.
pub fn find_near_mvs(
    infos: &Vec<MbInfo>,
    k: usize,
    cols: usize,
    f: RefFrame,
    h: &Vp8CodedHeader,
) -> (r: (Mv, Mv, Mv, [u8; 4]))
    requires
        cols > 0,
        k <= infos@.len(),
    ensures
        ({
            let n = near_mvs(info_views(infos@), k as int, cols as int, h@, f);
            &&& r.0 == n.nearest
            &&& r.1 == n.near
            &&& r.2 == n.best
            &&& forall|i: int| 0 <= i < 4 ==> #[trigger] r.3[i] == n.weights[i]
            &&& forall|i: int| 0 <= i < 4 ==> #[trigger] r.3[i] <= 6
        }),
{
    let mut c: Collected = Collected {
        mvs: [Mv { row: 0, col: 0 };4],
        weights: [0;4],
        last: 0,
        split: 0,
    };
    assert(c@ =~= no_candidates());
    proof {
        vstd::arithmetic::div_mod::lemma_small_mod(0, cols as nat);
        if k >= cols {
            lemma_left_of(k as int, cols as int);
        }
    }
    let above: Option<MbInfo> = if k >= cols {
        Some(infos[k - cols])
    } else {
        None
    };
    let left: Option<MbInfo> = if k % cols > 0 {
        Some(infos[k - 1])
    } else {
        None
    };
    let corner: Option<MbInfo> = if k >= cols && k % cols > 0 {
        Some(infos[k - cols - 1])
    } else {
        None
    };
    collect(&mut c, h, f, above, 2, Ghost(0), Ghost(0));
    collect(&mut c, h, f, left, 2, Ghost(1), Ghost(2));
    collect(&mut c, h, f, corner, 1, Ghost(2), Ghost(4));
    let mut first: u8 = c.weights[1];
    if c.last == 3 && c.mvs[3] == c.mvs[1] {
        first = first + 1;
    }
    let mut nearest: Mv = c.mvs[1];
    let mut near: Mv = c.mvs[2];
    let mut second: u8 = c.weights[2];
    if second > first {
        let m: Mv = nearest;
        nearest = near;
        near = m;
        let w: u8 = first;
        first = second;
        second = w;
    }
    let best: Mv = if first >= c.weights[0] {
        nearest
    } else {
        Mv { row: 0, col: 0 }
    };
    (nearest, near, best, [c.weights[0], first, second, c.split])
}

proof fn lemma_left_of(k: int, cols: int)
    requires
        cols > 0,
        k >= cols,
    ensures
        k % cols > 0 ==> k - cols - 1 >= 0,
{
    if k == cols {
        vstd::arithmetic::div_mod::lemma_mod_self_0(cols);
    }
}

/// Probabilities of the inter modes, by the weights of the neighbours.
pub fn mv_ref_probs(cnt: &[u8; 4]) -> (p: [u8; 4])
    ensures
        p@ == mode_probs(Seq::new(4, |i: int| cnt[i] as int)),
{
    let mut p: [u8; 4] = [0u8;4];
    let mut i: usize = 0;
    let ghost weights = Seq::new(4, |i: int| cnt[i] as int);
    while i < 4
        invariant
            i <= 4,
            weights == Seq::new(4, |i: int| cnt[i] as int),
            forall|j: int| 0 <= j < i ==> #[trigger] p[j] == mode_probs(weights)[j],
        decreases 4 - i,
    {
        let n: usize = if cnt[i] > 5 {
            5
        } else {
            cnt[i] as usize
        };
        p[i] = MV_COUNTS_TO_PROBS[n][i];
        i = i + 1;
    }
    assert(p@ =~= mode_probs(weights));
    p
}

/// Vectors of the lowest subblocks of the macroblock above, or zero.
pub open spec fn mvs_above(infos: Seq<InfoModel>, k: int, cols: int) -> Seq<Mv> {
    Seq::new(
        4,
        |i: int|
            if k >= cols {
                bottom_mv(infos[k - cols], i)
            } else {
                mv::zero_mv()
            },
    )
}

/// Vectors of the rightmost subblocks of the macroblock to the left, or zero.
pub open spec fn mvs_left(infos: Seq<InfoModel>, k: int, cols: int) -> Seq<Mv> {
    Seq::new(
        4,
        |i: int|
            if k % cols > 0 {
                right_mv(infos[k - 1], i)
            } else {
                mv::zero_mv()
            },
    )
}

/// Vector of subblock `i` in the bottom row.
pub open spec fn bottom_mv(info: InfoModel, i: int) -> Mv {
    if info.reference is None {
        mv::zero_mv()
    } else if info.inter_mode == InterMode::Split {
        info.sub_mvs[12 + i]
    } else {
        info.mv
    }
}

/// Vector of subblock `i` in the rightmost column.
pub open spec fn right_mv(info: InfoModel, i: int) -> Mv {
    if info.reference is None {
        mv::zero_mv()
    } else if info.inter_mode == InterMode::Split {
        info.sub_mvs[4 * i + 3]
    } else {
        info.mv
    }
}

fn top_edge_mv(info: &MbInfo, col: usize) -> (m: Mv)
    requires
        col < 4,
    ensures
        m == bottom_mv(info@, col as int),
{
    if info.reference.is_none() {
        Mv { row: 0, col: 0 }
    } else if info.inter_mode == InterMode::Split {
        info.sub_mvs[12 + col]
    } else {
        info.mv
    }
}

fn left_edge_mv(info: &MbInfo, row: usize) -> (m: Mv)
    requires
        row < 4,
    ensures
        m == right_mv(info@, row as int),
{
    if info.reference.is_none() {
        Mv { row: 0, col: 0 }
    } else if info.inter_mode == InterMode::Split {
        info.sub_mvs[4 * row + 3]
    } else {
        info.mv
    }
}

/// Row of the part probabilities for the vectors beside a part.
pub open spec fn part_context(left: Mv, above: Mv) -> int {
    if left == above {
        if left == mv::zero_mv() {
            4
        } else {
            3
        }
    } else if above == mv::zero_mv() {
        2
    } else if left == mv::zero_mv() {
        1
    } else {
        0
    }
}

/// Row of the part probabilities for the vectors beside a part.
pub fn sub_mv_context(left: &Mv, above: &Mv) -> (r: usize)
    ensures
        r == part_context(*left, *above),
        r <= 4,
{
    let left_zero: bool = left.row == 0 && left.col == 0;
    let above_zero: bool = above.row == 0 && above.col == 0;
    let same: bool = left.row == above.row && left.col == above.col;
    if same && left_zero {
        4
    } else if same {
        3
    } else if above_zero {
        2
    } else if left_zero {
        1
    } else {
        0
    }
}

/// First subblock of part `p`, from `i` on.
pub open spec fn first_of(split: int, p: int, i: int) -> int
    decreases 16 - i,
{
    if i >= 15 {
        15
    } else if MB_SPLITS[split][i] == p {
        i
    } else {
        first_of(split, p, i + 1)
    }
}

/// A vector plus the difference that stands in the stream.
pub open spec fn offset_mv(best: Mv, delta: Mv) -> Mv {
    Mv { row: (best.row + delta.row) as i16, col: (best.col + delta.col) as i16 }
}

/// Everything that the vector of a part depends on.
pub struct SplitContext {
    pub split: int,
    pub left: Seq<Mv>,
    pub above: Seq<Mv>,
    pub best: Mv,
    pub probs: Seq<Seq<u8>>,
}

/// Vector of part `p`, when the subblocks of the parts before it have the
/// vectors `mvs`.
pub open spec fn read_part_mv(d: DecState, c: SplitContext, mvs: Seq<Mv>, p: int) -> (Mv, DecState) {
    let i = first_of(c.split, p, 0);
    let left = if i % 4 == 0 {
        c.left[i / 4]
    } else {
        mvs[i - 1]
    };
    let above = if i < 4 {
        c.above[i]
    } else {
        mvs[i - 4]
    };
    let (leaf, d1) = trees::read_tree_from(
        d,
        SUB_MV_REF_TREE@,
        SUB_MV_REF_PROBS[part_context(left, above)]@,
        0,
    );
    if leaf == 0 {
        (left, d1)
    } else if leaf == 1 {
        (above, d1)
    } else if leaf == 2 {
        (mv::zero_mv(), d1)
    } else {
        let (delta, d2) = mv::read_mv(d1, c.probs);
        (offset_mv(c.best, delta), d2)
    }
}

/// `mvs` with the vector `m` in every subblock of part `p`.
pub open spec fn with_part(mvs: Seq<Mv>, split: int, p: int, m: Mv) -> Seq<Mv> {
    Seq::new(
        16,
        |i: int|
            if MB_SPLITS[split][i] == p {
                m
            } else {
                mvs[i]
            },
    )
}

/// Vectors of the subblocks after the first `n` parts.
pub open spec fn read_part_mvs(d: DecState, c: SplitContext, n: nat) -> (Seq<Mv>, DecState)
    decreases n,
{
    if n == 0 {
        (Seq::new(16, |i: int| mv::zero_mv()), d)
    } else {
        let (mvs, d1) = read_part_mvs(d, c, (n - 1) as nat);
        let (m, d2) = read_part_mv(d1, c, mvs, n - 1);
        (with_part(mvs, c.split, n - 1, m), d2)
    }
}

/// Position of a macroblock in a frame.
pub struct Place {
    pub k: int,
    pub cols: int,
    pub rows: int,
}

pub open spec fn limited(m: Mv, at: Place) -> Mv {
    mv::clamped_mv(m, at.k % at.cols, at.k / at.cols, at.cols, at.rows)
}

/// Vectors of an inter macroblock, once its mode is known.
pub open spec fn read_vectors(
    d: DecState,
    h: HeaderModel,
    infos: Seq<InfoModel>,
    at: Place,
    near: NearMvs,
    mode: InterMode,
) -> (Seq<Mv>, DecState) {
    let best = limited(near.best, at);
    match mode {
        InterMode::Nearest => (Seq::new(16, |i: int| limited(near.nearest, at)), d),
        InterMode::Near => (Seq::new(16, |i: int| limited(near.near, at)), d),
        InterMode::Zero => (Seq::new(16, |i: int| mv::zero_mv()), d),
        InterMode::New => {
            let (delta, d1) = mv::read_mv(d, h.probs.mv);
            (Seq::new(16, |i: int| limited(offset_mv(best, delta), at)), d1)
        },
        InterMode::Split => {
            let (split, d1) = trees::read_tree_from(d, MB_SPLIT_TREE@, MBSPLIT_PROBS@, 0);
            read_part_mvs(
                d1,
                SplitContext {
                    split,
                    left: mvs_left(infos, at.k, at.cols),
                    above: mvs_above(infos, at.k, at.cols),
                    best,
                    probs: h.probs.mv,
                },
                MB_SPLIT_COUNT[split] as nat,
            )
        },
    }
}

/// Reference frame of an inter macroblock.
pub open spec fn read_reference(d: DecState, h: HeaderModel) -> (RefFrame, DecState) {
    let d1 = range_coder::dec_next(d, h.prob_last);
    if !range_coder::dec_bit(d, h.prob_last) {
        (RefFrame::Last, d1)
    } else if range_coder::dec_bit(d1, h.prob_gf) {
        (RefFrame::AltRef, range_coder::dec_next(d1, h.prob_gf))
    } else {
        (RefFrame::Golden, range_coder::dec_next(d1, h.prob_gf))
    }
}

/// The rest of an intra macroblock on an inter frame.
pub open spec fn read_intra_rest(d: DecState, h: HeaderModel, skip: bool, segment_id: int) -> (
    InfoModel,
    DecState,
) {
    let (leaf, d1) = trees::read_tree_from(d, YMODE_TREE@, h.probs.ymode, 0);
    let y_mode = macroblock::y_mode_of(leaf);
    let (bmodes, d2) = if y_mode == IntraYMode::B {
        read_plain_bmodes(d1, 16)
    } else {
        (uniform_bmodes(y_mode), d1)
    };
    let (uv_leaf, d3) = trees::read_tree_from(d2, UV_MODE_TREE@, h.probs.uv_mode, 0);
    (intra_info(skip, segment_id, y_mode, bmodes, macroblock::uv_mode_of(uv_leaf)), d3)
}

/// The rest of an inter macroblock.
pub open spec fn read_inter_rest(
    d: DecState,
    h: HeaderModel,
    infos: Seq<InfoModel>,
    at: Place,
    skip: bool,
    segment_id: int,
) -> (InfoModel, DecState) {
    let (f, d1) = read_reference(d, h);
    let near = near_mvs(infos, at.k, at.cols, h.coded, f);
    let (leaf, d2) = trees::read_tree_from(d1, MV_REF_TREE@, mode_probs(near.weights), 0);
    let mode = inter_mode_of(leaf);
    let (mvs, d3) = read_vectors(d2, h, infos, at, near, mode);
    (
        InfoModel {
            y_mode: IntraYMode::Dc,
            bmodes: Seq::new(16, |i: int| IntraBmode::Dc),
            uv_mode: IntraUvMode::Dc,
            skip,
            segment_id,
            reference: Some(f),
            inter_mode: mode,
            mv: mvs[15],
            sub_mvs: mvs,
        },
        d3,
    )
}

/// A macroblock of an inter frame, read after the macroblocks in `infos`.
#[verifier::opaque]
pub open spec fn read_inter_info(
    d: DecState,
    h: HeaderModel,
    infos: Seq<InfoModel>,
    at: Place,
) -> (InfoModel, DecState) {
    let (segment_id, d1) = read_segment(d, h.coded);
    let (skip, d2) = read_skip(d1, h.coded.prob_skip);
    let d3 = range_coder::dec_next(d2, h.prob_intra);
    if range_coder::dec_bit(d2, h.prob_intra) {
        read_inter_rest(d3, h, infos, at, skip, segment_id)
    } else {
        read_intra_rest(d3, h, skip, segment_id)
    }
}

fn decode_reference(dec: &mut BoolDecoder<'_>, h: &FrameHeader) -> (f: RefFrame)
    requires
        old(dec).wf(),
    ensures
        final(dec).wf(),
        (f, final(dec)@) == read_reference(old(dec)@, h@),
        final(dec)@.data == old(dec)@.data,
{
    if dec.get_bool(h.prob_last) {
        if dec.get_bool(h.prob_gf) {
            RefFrame::AltRef
        } else {
            RefFrame::Golden
        }
    } else {
        RefFrame::Last
    }
}

fn sum_mv(best: Mv, delta: Mv) -> (m: Mv)
    ensures
        m == offset_mv(best, delta),
{
    Mv::new(best.row as i32 + delta.row as i32, best.col as i32 + delta.col as i32)
}

fn first_subblock(split: usize, p: usize) -> (r: usize)
    requires
        split < 4,
    ensures
        r == first_of(split as int, p as int, 0),
        r < 16,
{
    let mut i: usize = 0;
    while i < 15 && MB_SPLITS[split][i] as usize != p
        invariant
            i <= 15,
            split < 4,
            first_of(split as int, p as int, i as int) == first_of(split as int, p as int, 0),
        decreases 15 - i,
    {
        i = i + 1;
    }
    i
}

fn decode_part_mv(
    dec: &mut BoolDecoder<'_>,
    h: &FrameHeader,
    split: usize,
    left: &[Mv; 4],
    above: &[Mv; 4],
    best: Mv,
    mvs: &[Mv; 16],
    p: usize,
) -> (m: Mv)
    requires
        old(dec).wf(),
        split < 4,
    ensures
        final(dec).wf(),
        (m, final(dec)@) == read_part_mv(
            old(dec)@,
            (SplitContext {
                split: split as int,
                left: left@,
                above: above@,
                best,
                probs: h@.probs.mv,
            }),
            mvs@,
            p as int,
        ),
        final(dec)@.data == old(dec)@.data,
{
    let i: usize = first_subblock(split, p);
    let left_mv: Mv = if i % 4 == 0 {
        left[i / 4]
    } else {
        mvs[i - 1]
    };
    let above_mv: Mv = if i < 4 {
        above[i]
    } else {
        mvs[i - 4]
    };
    proof {
        lemma_mode_trees_ok();
    }
    let row: usize = sub_mv_context(&left_mv, &above_mv);
    let leaf: u8 = decode_tree(dec, &SUB_MV_REF_TREE, &SUB_MV_REF_PROBS[row]);
    if leaf == 0 {
        left_mv
    } else if leaf == 1 {
        above_mv
    } else if leaf == 2 {
        Mv { row: 0, col: 0 }
    } else {
        let delta: Mv = decode_mv(dec, &h.probs.mv_context);
        sum_mv(best, delta)
    }
}

fn fill_part(mvs: &mut [Mv; 16], split: usize, p: usize, m: Mv)
    requires
        split < 4,
    ensures
        final(mvs)@ == with_part(old(mvs)@, split as int, p as int, m),
{
    let ghost m0 = mvs@;
    let mut i: usize = 0;
    while i < 16
        invariant
            i <= 16,
            split < 4,
            m0 == old(mvs)@,
            forall|j: int|
                0 <= j < i ==> #[trigger] mvs@[j] == with_part(m0, split as int, p as int, m)[j],
            forall|j: int| i <= j < 16 ==> #[trigger] mvs@[j] == m0[j],
        decreases 16 - i,
    {
        if MB_SPLITS[split][i] as usize == p {
            mvs[i] = m;
        }
        i = i + 1;
    }
    assert(mvs@ =~= with_part(m0, split as int, p as int, m));
}

fn decode_part_mvs(
    dec: &mut BoolDecoder<'_>,
    h: &FrameHeader,
    split: usize,
    left: &[Mv; 4],
    above: &[Mv; 4],
    best: Mv,
) -> (mvs: [Mv; 16])
    requires
        old(dec).wf(),
        split < 4,
    ensures
        final(dec).wf(),
        (mvs@, final(dec)@) == read_part_mvs(
            old(dec)@,
            (SplitContext {
                split: split as int,
                left: left@,
                above: above@,
                best,
                probs: h@.probs.mv,
            }),
            MB_SPLIT_COUNT[split as int] as nat,
        ),
        final(dec)@.data == old(dec)@.data,
{
    let mut mvs: [Mv; 16] = [Mv { row: 0, col: 0 };16];
    let ghost d0 = dec@;
    let ghost c = SplitContext {
        split: split as int,
        left: left@,
        above: above@,
        best,
        probs: h@.probs.mv,
    };
    let n: usize = MB_SPLIT_COUNT[split];
    let mut p: usize = 0;
    assert(mvs@ =~= read_part_mvs(d0, c, 0).0);
    while p < n
        invariant
            p <= n,
            n == MB_SPLIT_COUNT[split as int],
            split < 4,
            d0 == old(dec)@,
            dec.wf(),
            dec@.data == d0.data,
            c == (SplitContext {
                split: split as int,
                left: left@,
                above: above@,
                best,
                probs: h@.probs.mv,
            }),
            (mvs@, dec@) == read_part_mvs(d0, c, p as nat),
        decreases n - p,
    {
        let m: Mv = decode_part_mv(dec, h, split, left, above, best, &mvs, p);
        fill_part(&mut mvs, split, p, m);
        p = p + 1;
    }
    mvs
}

fn edge_mvs(infos: &Vec<MbInfo>, k: usize, cols: usize) -> (r: ([Mv; 4], [Mv; 4]))
    requires
        cols > 0,
        k <= infos@.len(),
    ensures
        r.0@ == mvs_left(info_views(infos@), k as int, cols as int),
        r.1@ == mvs_above(info_views(infos@), k as int, cols as int),
{
    let zero: Mv = Mv { row: 0, col: 0 };
    let mut left: [Mv; 4] = [zero;4];
    let mut above: [Mv; 4] = [zero;4];
    if k >= cols {
        let a: &MbInfo = &infos[k - cols];
        above = [top_edge_mv(a, 0), top_edge_mv(a, 1), top_edge_mv(a, 2), top_edge_mv(a, 3)];
    }
    if k % cols > 0 {
        proof {
            vstd::arithmetic::div_mod::lemma_small_mod(0, cols as nat);
        }
        let l: &MbInfo = &infos[k - 1];
        left = [left_edge_mv(l, 0), left_edge_mv(l, 1), left_edge_mv(l, 2), left_edge_mv(l, 3)];
    }
    assert(left@ =~= mvs_left(info_views(infos@), k as int, cols as int));
    assert(above@ =~= mvs_above(info_views(infos@), k as int, cols as int));
    (left, above)
}

fn decode_vectors(
    dec: &mut BoolDecoder<'_>,
    h: &FrameHeader,
    infos: &Vec<MbInfo>,
    k: usize,
    cols: usize,
    rows: usize,
    near: &(Mv, Mv, Mv, [u8; 4]),
    mode: InterMode,
    Ghost(model): Ghost<NearMvs>,
) -> (mvs: [Mv; 16])
    requires
        old(dec).wf(),
        0 < cols <= 0x10000,
        0 < rows <= 0x10000,
        k < cols * rows,
        k <= infos@.len(),
        near.0 == model.nearest,
        near.1 == model.near,
        near.2 == model.best,
    ensures
        final(dec).wf(),
        (mvs@, final(dec)@) == read_vectors(
            old(dec)@,
            h@,
            info_views(infos@),
            (Place { k: k as int, cols: cols as int, rows: rows as int }),
            model,
            mode,
        ),
        final(dec)@.data == old(dec)@.data,
{
    let x: usize = k % cols;
    let y: usize = k / cols;
    assert(y < rows) by (nonlinear_arith)
        requires
            k < cols * rows,
            y == k as int / cols as int,
            cols > 0,
    ;
    let ghost at = Place { k: k as int, cols: cols as int, rows: rows as int };
    let best: Mv = clamp_mv_to_border(near.2, x, y, cols, rows);
    let m: Mv = match mode {
        InterMode::Nearest => clamp_mv_to_border(near.0, x, y, cols, rows),
        InterMode::Near => clamp_mv_to_border(near.1, x, y, cols, rows),
        InterMode::Zero => Mv { row: 0, col: 0 },
        InterMode::New => {
            let delta: Mv = decode_mv(dec, &h.probs.mv_context);
            clamp_mv_to_border(sum_mv(best, delta), x, y, cols, rows)
        },
        InterMode::Split => {
            proof {
                lemma_mode_trees_ok();
                trees::lemma_leaf_bound(dec@, MB_SPLIT_TREE@, MBSPLIT_PROBS@, 0, 3);
            }
            let split: u8 = decode_tree(dec, &MB_SPLIT_TREE, &MBSPLIT_PROBS);
            let (left, above) = edge_mvs(infos, k, cols);
            return decode_part_mvs(dec, h, split as usize, &left, &above, best);
        },
    };
    let mvs: [Mv; 16] = [m;16];
    assert(mvs@ =~= read_vectors(old(dec)@, h@, info_views(infos@), at, model, mode).0);
    mvs
}

fn decode_intra_rest(dec: &mut BoolDecoder<'_>, h: &FrameHeader, skip: bool, segment_id: u8) -> (
    info: MbInfo)
    requires
        old(dec).wf(),
    ensures
        final(dec).wf(),
        (info@, final(dec)@) == read_intra_rest(old(dec)@, h@, skip, segment_id as int),
        final(dec)@.data == old(dec)@.data,
        info.segment_id == segment_id,
{
    proof {
        lemma_mode_trees_ok();
    }
    let y_mode: IntraYMode = y_mode_from(decode_tree(dec, &YMODE_TREE, &h.probs.ymode_probs));
    let bmodes: [IntraBmode; 16] = if y_mode == IntraYMode::B {
        decode_plain_bmodes(dec)
    } else {
        fill_bmodes(y_mode)
    };
    let uv_mode: IntraUvMode = uv_mode_from(
        decode_tree(dec, &UV_MODE_TREE, &h.probs.uv_mode_probs),
    );
    make_intra(skip, segment_id, y_mode, bmodes, uv_mode)
}

/// Reads macroblock `k` of an inter frame.
pub fn decode_mb_mode_info_inter(
    dec: &mut BoolDecoder<'_>,
    h: &FrameHeader,
    infos: &Vec<MbInfo>,
    k: usize,
    cols: usize,
    rows: usize,
) -> (info: MbInfo)
    requires
        old(dec).wf(),
        0 < cols <= 0x10000,
        0 < rows <= 0x10000,
        k < cols * rows,
        k <= infos@.len(),
    ensures
        final(dec).wf(),
        (info@, final(dec)@) == read_inter_info(
            old(dec)@,
            h@,
            info_views(infos@),
            (Place { k: k as int, cols: cols as int, rows: rows as int }),
        ),
        final(dec)@.data == old(dec)@.data,
        info.segment_id <= 3,
{
    proof {
        reveal(read_inter_info);
    }
    let segment_id: u8 = decode_segment(dec, &h.coded);
    let skip: bool = decode_skip(dec, &h.coded);
    if !dec.get_bool(h.prob_intra) {
        return decode_intra_rest(dec, h, skip, segment_id);
    }
    let ghost d0 = dec@;
    let ghost at = Place { k: k as int, cols: cols as int, rows: rows as int };
    let f: RefFrame = decode_reference(dec, h);
    let near: (Mv, Mv, Mv, [u8; 4]) = find_near_mvs(infos, k, cols, f, &h.coded);
    let ghost model = near_mvs(info_views(infos@), k as int, cols as int, h@.coded, f);
    let probs: [u8; 4] = mv_ref_probs(&near.3);
    assert(Seq::new(4, |i: int| near.3[i] as int) =~= model.weights);
    proof {
        lemma_mode_trees_ok();
    }
    let mode: InterMode = inter_mode_from(decode_tree(dec, &MV_REF_TREE, &probs));
    let mvs: [Mv; 16] = decode_vectors(
        dec,
        h,
        infos,
        k,
        cols,
        rows,
        &near,
        mode,
        Ghost(model),
    );
    let info: MbInfo = MbInfo {
        y_mode: IntraYMode::Dc,
        bmodes: [IntraBmode::Dc;16],
        uv_mode: IntraUvMode::Dc,
        skip,
        segment_id,
        reference: Some(f),
        inter_mode: mode,
        mv: mvs[15],
        sub_mvs: mvs,
    };
    assert(info@ =~= read_inter_rest(
        d0,
        h@,
        info_views(infos@),
        at,
        skip,
        segment_id as int,
    ).0);
    info
}

} // verus!
