//! The modes of a key frame read back as they were written, bit by bit.
use crate::coded_header::CodedHeaderModel;
use crate::inter_law;
use crate::macroblock;
use crate::macroblock::{IntraBmode, IntraYMode};
use crate::modes;
use crate::modes::InfoModel;
use crate::range_coder;
use crate::range_coder::DecState;
use crate::tables::{BMODE_TREE, KF_BMODE_PROB, KF_UV_MODE_PROBS, KF_YMODE_PROBS, KF_YMODE_TREE};
use crate::trees;
use vstd::arithmetic::div_mod;
use vstd::prelude::*;

verus! {

/// How the luma mode of a macroblock is written on a key frame.
pub open spec fn key_y_mode_ops(mode: IntraYMode) -> Seq<(u8, bool)> {
    match mode {
        IntraYMode::B => range_coder::one_op(145, false),
        IntraYMode::Dc => range_coder::one_op(145, true) + range_coder::one_op(156, false)
            + range_coder::one_op(163, false),
        IntraYMode::V => range_coder::one_op(145, true) + range_coder::one_op(156, false)
            + range_coder::one_op(163, true),
        IntraYMode::H => range_coder::one_op(145, true) + range_coder::one_op(156, true)
            + range_coder::one_op(128, false),
        IntraYMode::Tm => range_coder::one_op(145, true) + range_coder::one_op(156, true)
            + range_coder::one_op(128, true),
    }
}

/// The odds of the chroma modes on key frames.
pub open spec fn key_uv_odds() -> Seq<u8> {
    seq![142, 114, 183]
}

/// How the mode of a subblock is written, with the given odds.
pub open spec fn b_mode_bits(mode: IntraBmode, p: Seq<u8>) -> Seq<(u8, bool)> {
    let directed = range_coder::one_op(p[0], true) + range_coder::one_op(p[1], true)
        + range_coder::one_op(p[2], true);
    let right = directed + range_coder::one_op(p[3], false);
    let other = directed + range_coder::one_op(p[3], true);
    let more = other + range_coder::one_op(p[6], true);
    match mode {
        IntraBmode::Dc => range_coder::one_op(p[0], false),
        IntraBmode::Tm => range_coder::one_op(p[0], true) + range_coder::one_op(p[1], false),
        IntraBmode::Ve => range_coder::one_op(p[0], true) + range_coder::one_op(p[1], true)
            + range_coder::one_op(p[2], false),
        IntraBmode::He => right + range_coder::one_op(p[4], false),
        IntraBmode::Rd => right + range_coder::one_op(p[4], true) + range_coder::one_op(
            p[5],
            false,
        ),
        IntraBmode::Vr => right + range_coder::one_op(p[4], true) + range_coder::one_op(p[5], true),
        IntraBmode::Ld => other + range_coder::one_op(p[6], false),
        IntraBmode::Vl => more + range_coder::one_op(p[7], false),
        IntraBmode::Hd => more + range_coder::one_op(p[7], true) + range_coder::one_op(
            p[8],
            false,
        ),
        IntraBmode::Hu => more + range_coder::one_op(p[7], true) + range_coder::one_op(p[8], true),
    }
}

/// One more node of the subblock mode tree.
proof fn lemma_node(d: DecState, p: Seq<u8>, before: Seq<(u8, bool)>, t: int, bit: bool)
    requires
        0 <= t < 9,
        range_coder::decodes(d, before + range_coder::one_op(p[t], bit)),
    ensures
        ({
            let d1 = range_coder::dec_after(d, before);
            let d2 = range_coder::dec_after(d, before + range_coder::one_op(p[t], bit));
            let next = BMODE_TREE[2 * t + (if bit { 1int } else { 0 })] as int;
            &&& range_coder::decodes(d, before)
            &&& trees::read_tree_from(d1, BMODE_TREE@, p, 2 * t) == if next <= 0 {
                (-next, d2)
            } else {
                trees::read_tree_from(d2, BMODE_TREE@, p, next)
            }
        }),
{
    range_coder::lemma_decodes_append(d, before, range_coder::one_op(p[t], bit));
    range_coder::lemma_decodes_one(range_coder::dec_after(d, before), p[t], bit);
    assert((2 * t) / 2 == t);
    assert(t == 0 || t == 1 || t == 2 || t == 3 || t == 4 || t == 5 || t == 6 || t == 7 || t == 8);
}

/// The mode of a subblock reads back as it was written.
pub proof fn law_subblock_mode_reads_back(d: DecState, mode: IntraBmode, p: Seq<u8>)
    requires
        range_coder::decodes(d, b_mode_bits(mode, p)),
    ensures
        ({
            let r = trees::read_tree_from(d, BMODE_TREE@, p, 0);
            &&& macroblock::b_mode_of(r.0) == mode
            &&& r.1 == range_coder::dec_after(d, b_mode_bits(mode, p))
        }),
{
    let none = Seq::<(u8, bool)>::empty();
    let one = range_coder::one_op(p[0], true);
    let two = one + range_coder::one_op(p[1], true);
    let directed = two + range_coder::one_op(p[2], true);
    let right = directed + range_coder::one_op(p[3], false);
    let other = directed + range_coder::one_op(p[3], true);
    let more = other + range_coder::one_op(p[6], true);
    range_coder::lemma_decodes_nothing(d);
    assert(none + range_coder::one_op(p[0], true) =~= range_coder::one_op(p[0], true));
    assert(none + range_coder::one_op(p[0], false) =~= range_coder::one_op(p[0], false));
    if mode is Dc {
        lemma_node(d, p, none, 0, false);
    } else {
        if mode is Tm {
            lemma_node(d, p, one, 1, false);
        } else {
            if mode is Ve {
                lemma_node(d, p, two, 2, false);
            } else if mode is He || mode is Rd || mode is Vr {
                if mode is He {
                    lemma_node(d, p, right, 4, false);
                } else {
                    lemma_node(d, p, right + range_coder::one_op(p[4], true), 5, mode is Vr);
                    lemma_node(d, p, right, 4, true);
                }
                lemma_node(d, p, directed, 3, false);
                lemma_node(d, p, two, 2, true);
            } else {
                if mode is Ld {
                    lemma_node(d, p, other, 6, false);
                } else {
                    if mode is Vl {
                        lemma_node(d, p, more, 7, false);
                    } else {
                        lemma_node(d, p, more + range_coder::one_op(p[7], true), 8, mode is Hu);
                        lemma_node(d, p, more, 7, true);
                    }
                    lemma_node(d, p, other, 6, true);
                }
                lemma_node(d, p, directed, 3, true);
                lemma_node(d, p, two, 2, true);
            }
            lemma_node(d, p, one, 1, true);
        }
        lemma_node(d, p, none, 0, true);
    }
}

proof fn lemma_key_y_mode_reads_back(d: DecState, mode: IntraYMode)
    requires
        range_coder::decodes(d, key_y_mode_ops(mode)),
    ensures
        ({
            let r = trees::read_tree_from(d, KF_YMODE_TREE@, KF_YMODE_PROBS@, 0);
            &&& macroblock::y_mode_of(r.0) == mode
            &&& r.1 == range_coder::dec_after(d, key_y_mode_ops(mode))
        }),
{
    let second = mode is H || mode is Tm;
    let q = if second {
        128u8
    } else {
        163u8
    };
    let third = mode is V || mode is Tm;
    let a = range_coder::one_op(145, !(mode is B));
    let b = range_coder::one_op(156, second);
    let c = range_coder::one_op(q, third);
    range_coder::lemma_decodes_append(d, a + b, c);
    range_coder::lemma_decodes_append(d, a, b);
    range_coder::lemma_decodes_one(d, 145, !(mode is B));
    let d1 = range_coder::dec_next(d, 145);
    range_coder::lemma_decodes_one(d1, 156, second);
    let d2 = range_coder::dec_next(d1, 156);
    range_coder::lemma_decodes_one(d2, q, third);
    reveal_with_fuel(trees::read_tree_from, 4);
}

/// The mode of the subblock above subblock `i` of macroblock `k`: in the same
/// macroblock, in the one above it, or the mean outside the frame.
pub open spec fn mode_above(infos: Seq<InfoModel>, k: int, cols: int, i: int) -> IntraBmode {
    if i >= 4 {
        infos[k].bmodes[i - 4]
    } else if k >= cols {
        infos[k - cols].bmodes[i + 12]
    } else {
        IntraBmode::Dc
    }
}

/// The mode of the subblock to the left of subblock `i` of macroblock `k`.
pub open spec fn mode_left(infos: Seq<InfoModel>, k: int, cols: int, i: int) -> IntraBmode {
    if i % 4 > 0 {
        infos[k].bmodes[i - 1]
    } else if k % cols > 0 {
        infos[k - 1].bmodes[i + 3]
    } else {
        IntraBmode::Dc
    }
}

/// How the modes of the first `n` subblocks are written on a key frame: each
/// with odds that go by the modes above it and to its left.
pub open spec fn key_bmodes_ops(infos: Seq<InfoModel>, k: int, cols: int, n: nat) -> Seq<(u8, bool)>
    decreases n,
{
    if n == 0 {
        Seq::empty()
    } else {
        let i = n - 1;
        let a = mode_above(infos, k, cols, i).number();
        let l = mode_left(infos, k, cols, i).number();
        key_bmodes_ops(infos, k, cols, i as nat) + b_mode_bits(
            infos[k].bmodes[i],
            KF_BMODE_PROB[a][l]@,
        )
    }
}

/// How a macroblock of a key frame is written.
pub open spec fn key_mb_ops(infos: Seq<InfoModel>, k: int, cols: int, h: CodedHeaderModel) -> Seq<
    (u8, bool),
> {
    let info = infos[k];
    inter_law::segment_ops(h, info.segment_id) + inter_law::skip_ops(h, info.skip) + key_y_mode_ops(
        info.y_mode,
    ) + (if info.y_mode is B {
        key_bmodes_ops(infos, k, cols, 16)
    } else {
        Seq::empty()
    }) + inter_law::uv_mode_ops(info.uv_mode, key_uv_odds())
}

proof fn lemma_key_bmodes_read_back(
    d: DecState,
    infos: Seq<InfoModel>,
    k: int,
    cols: int,
    n: nat,
)
    requires
        0 <= k < infos.len(),
        cols >= 1,
        n <= 16,
        infos[k].bmodes.len() == 16,
        range_coder::decodes(d, key_bmodes_ops(infos, k, cols, n)),
    ensures
        modes::read_bmodes(
            d,
            modes::bmodes_above(infos.take(k), k, cols),
            modes::bmodes_left(infos.take(k), k, cols),
            n,
        ) == (
            infos[k].bmodes.take(n as int),
            range_coder::dec_after(d, key_bmodes_ops(infos, k, cols, n)),
        ),
    decreases n,
{
    let own = infos[k].bmodes;
    let past = infos.take(k);
    if k == 0 {
        div_mod::lemma_small_mod(0, cols as nat);
    }
    if n == 0 {
        range_coder::lemma_decodes_nothing(d);
        assert(own.take(0) =~= Seq::empty());
    } else {
        let i = n - 1;
        let before = key_bmodes_ops(infos, k, cols, i as nat);
        let a = mode_above(infos, k, cols, i);
        let l = mode_left(infos, k, cols, i);
        let probs = KF_BMODE_PROB[a.number()][l.number()]@;
        range_coder::lemma_decodes_append(d, before, b_mode_bits(own[i], probs));
        lemma_key_bmodes_read_back(d, infos, k, cols, i as nat);
        law_subblock_mode_reads_back(range_coder::dec_after(d, before), own[i], probs);
        let s = own.take(i);
        assert(a == if i < 4 {
            modes::bmodes_above(past, k, cols)[i]
        } else {
            s[i - 4]
        });
        assert(l == if i % 4 == 0 {
            modes::bmodes_left(past, k, cols)[i / 4]
        } else {
            s[i - 1]
        });
        assert(own.take(n as int) =~= s.push(own[i]));
    }
}

/// The modes of a macroblock of a key frame read back as they were written, and
/// the decoder stands behind them.
pub proof fn law_key_macroblock_reads_back(
    d: DecState,
    infos: Seq<InfoModel>,
    k: int,
    cols: int,
    h: CodedHeaderModel,
)
    requires
        0 <= k < infos.len(),
        cols >= 1,
        inter_law::segment_fits(h, infos[k].segment_id),
        h.prob_skip is None ==> !infos[k].skip,
        infos[k].bmodes.len() == 16,
        infos[k] == modes::intra_info(
            infos[k].skip,
            infos[k].segment_id,
            infos[k].y_mode,
            infos[k].bmodes,
            infos[k].uv_mode,
        ),
        infos[k].y_mode != IntraYMode::B ==> infos[k].bmodes == modes::uniform_bmodes(
            infos[k].y_mode,
        ),
        range_coder::decodes(d, key_mb_ops(infos, k, cols, h)),
    ensures
        modes::read_key_info(d, h, infos.take(k), k, cols) == (
            infos[k],
            range_coder::dec_after(d, key_mb_ops(infos, k, cols, h)),
        ),
{
    reveal(modes::read_key_info);
    let info = infos[k];
    let s1 = inter_law::segment_ops(h, info.segment_id);
    let s2 = inter_law::skip_ops(h, info.skip);
    let s3 = key_y_mode_ops(info.y_mode);
    let s4 = if info.y_mode is B {
        key_bmodes_ops(infos, k, cols, 16)
    } else {
        Seq::empty()
    };
    let s5 = inter_law::uv_mode_ops(info.uv_mode, key_uv_odds());
    range_coder::lemma_decodes_append(d, s1 + s2 + s3 + s4, s5);
    range_coder::lemma_decodes_append(d, s1 + s2 + s3, s4);
    range_coder::lemma_decodes_append(d, s1 + s2, s3);
    range_coder::lemma_decodes_append(d, s1, s2);
    inter_law::lemma_segment_reads_back(d, h, info.segment_id);
    let d1 = range_coder::dec_after(d, s1);
    inter_law::lemma_skip_reads_back(d1, h, info.skip);
    let d2 = range_coder::dec_after(d1, s2);
    lemma_key_y_mode_reads_back(d2, info.y_mode);
    let d3 = range_coder::dec_after(d2, s3);
    range_coder::lemma_decodes_nothing(d3);
    if info.y_mode is B {
        lemma_key_bmodes_read_back(d3, infos, k, cols, 16);
        assert(info.bmodes.take(16) =~= info.bmodes);
    }
    let d4 = range_coder::dec_after(d3, s4);
    assert(key_uv_odds() =~= KF_UV_MODE_PROBS@);
    inter_law::lemma_uv_mode_reads_back(d4, info.uv_mode, key_uv_odds());
}

} // verus!
