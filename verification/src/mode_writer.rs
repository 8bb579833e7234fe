//! Writing the macroblock modes of a key frame.
use crate::arith;
use crate::coded_header::CodedHeaderModel;
use crate::decoder;
use crate::encoder::BoolEncoder;
use crate::frame_header::HeaderModel;
use crate::macroblock::{IntraBmode, IntraYMode, MacroblockModes};
use crate::mode_picker;
use crate::modes;
use crate::modes::InfoModel;
use crate::range_coder;
use crate::range_coder::DecState;
use crate::tables::{
    BMODE_TREE, KF_BMODE_PROB, KF_UV_MODE_PROBS, KF_YMODE_PROBS, KF_YMODE_TREE, UV_MODE_TREE,
};
use crate::trees;
use vstd::prelude::*;

verus! {

/// Modes of the subblocks of a macroblock; one that is predicted as a whole
/// has the mode that stands for it sixteen times.
pub open spec fn subblock_modes(m: MacroblockModes) -> Seq<IntraBmode> {
    match m.subblock_modes {
        Some(s) => s@,
        None => modes::uniform_bmodes(m.y_mode),
    }
}

/// How a macroblock of a key frame without segments is predicted.
pub open spec fn info_of(m: MacroblockModes) -> InfoModel {
    modes::intra_info(m.mb_skip_coeff, 0, m.y_mode, subblock_modes(m), m.uv_mode)
}

/// The macroblocks as models.
pub open spec fn infos_of(s: Seq<MacroblockModes>) -> Seq<InfoModel> {
    Seq::new(s.len(), |k: int| info_of(s[k]))
}

/// Mode above subblock `i`.
pub open spec fn above_of(bmodes: Seq<IntraBmode>, above: Seq<IntraBmode>, i: int) -> IntraBmode {
    if i < 4 {
        above[i]
    } else {
        bmodes[i - 4]
    }
}

/// Mode to the left of subblock `i`.
pub open spec fn left_of(bmodes: Seq<IntraBmode>, left: Seq<IntraBmode>, i: int) -> IntraBmode {
    if i % 4 == 0 {
        left[i / 4]
    } else {
        bmodes[i - 1]
    }
}

/// The booleans that write the first `n` subblock modes beside the given ones.
pub open spec fn bmodes_ops(
    bmodes: Seq<IntraBmode>,
    above: Seq<IntraBmode>,
    left: Seq<IntraBmode>,
    n: nat,
) -> Seq<(u8, bool)>
    decreases n,
{
    if n == 0 {
        Seq::empty()
    } else {
        bmodes_ops(bmodes, above, left, (n - 1) as nat) + mode_picker::b_mode_ops(
            above_of(bmodes, above, n - 1),
            left_of(bmodes, left, n - 1),
            bmodes[n - 1],
        )
    }
}

/// The booleans that write macroblock `k`.
#[verifier::opaque]
pub open spec fn mb_mode_ops(infos: Seq<InfoModel>, k: int, cols: int, prob: u8) -> Seq<
    (u8, bool),
> {
    let info = infos[k];
    range_coder::one_op(prob, info.skip) + mode_picker::y_mode_ops(info.y_mode) + (if info.y_mode
        == IntraYMode::B {
        bmodes_ops(
            info.bmodes,
            modes::bmodes_above(infos, k, cols),
            modes::bmodes_left(infos, k, cols),
            16,
        )
    } else {
        Seq::empty()
    }) + mode_picker::uv_mode_ops(info.uv_mode)
}

/// The booleans that write the first `n` macroblocks.
pub open spec fn mode_ops(infos: Seq<InfoModel>, cols: int, prob: u8, n: nat) -> Seq<(u8, bool)>
    decreases n,
{
    if n == 0 {
        Seq::empty()
    } else {
        mode_ops(infos, cols, prob, (n - 1) as nat) + mb_mode_ops(infos, n - 1, cols, prob)
    }
}

/// Mode of subblock `i` of a macroblock, as its neighbours see it.
fn subblock_mode_at(m: &MacroblockModes, i: usize) -> (b: IntraBmode)
    requires
        i < 16,
    ensures
        b == subblock_modes(*m)[i as int],
{
    match m.subblock_modes {
        Some(s) => s[i],
        None => m.y_mode.project_to_subblock_context(),
    }
}

/// Writes sixteen subblock modes beside the given ones.
fn write_bmodes(
    enc: &mut BoolEncoder,
    sub: &[IntraBmode; 16],
    above: &[IntraBmode; 4],
    left: &[IntraBmode; 4],
)
    requires
        old(enc).wf(),
    ensures
        final(enc).wf(),
        final(enc)@ == old(enc)@ + bmodes_ops(sub@, above@, left@, 16),
{
    let mut i: usize = 0;
    assert(enc@ =~= old(enc)@ + bmodes_ops(sub@, above@, left@, 0));
    while i < 16
        invariant
            i <= 16,
            enc.wf(),
            enc@ == old(enc)@ + bmodes_ops(sub@, above@, left@, i as nat),
        decreases 16 - i,
    {
        let a: IntraBmode = if i < 4 {
            above[i]
        } else {
            sub[i - 4]
        };
        let l: IntraBmode = if i % 4 == 0 {
            left[i / 4]
        } else {
            sub[i - 1]
        };
        proof {
            mode_picker::lemma_modes_reached();
            assert(trees::tree_path(BMODE_TREE@, 0, sub[i as int].number()) is Some);
            range_coder::lemma_append_assoc(
                old(enc)@,
                bmodes_ops(sub@, above@, left@, i as nat),
                mode_picker::b_mode_ops(a, l, sub[i as int]),
            );
        }
        enc.write_leaf(&BMODE_TREE, &KF_BMODE_PROB[a.idx()][l.idx()], 0, sub[i].idx() as u8);
        i = i + 1;
    }
}

/// Writes macroblock `k`.
fn write_mb_modes(
    enc: &mut BoolEncoder,
    modes: &Vec<MacroblockModes>,
    k: usize,
    cols: usize,
    prob_skip_false: u8,
)
    requires
        old(enc).wf(),
        k < modes@.len(),
        cols >= 1,
        (modes@[k as int].y_mode == IntraYMode::B) == (modes@[k as int].subblock_modes is Some),
    ensures
        final(enc).wf(),
        final(enc)@ == old(enc)@ + mb_mode_ops(
            infos_of(modes@),
            k as int,
            cols as int,
            prob_skip_false,
        ),
{
    let mb: &MacroblockModes = &modes[k];
    let ghost infos = infos_of(modes@);
    let ghost e0 = enc@;
    let ghost a = range_coder::one_op(prob_skip_false, mb.mb_skip_coeff);
    let ghost b = mode_picker::y_mode_ops(mb.y_mode);
    let ghost d = mode_picker::uv_mode_ops(mb.uv_mode);
    proof {
        reveal(mb_mode_ops);
        mode_picker::lemma_modes_reached();
        assert(trees::tree_path(KF_YMODE_TREE@, 0, mb.y_mode.number()) is Some);
        assert(trees::tree_path(UV_MODE_TREE@, 0, mb.uv_mode.number()) is Some);
    }
    enc.write_bool(prob_skip_false, mb.mb_skip_coeff);
    enc.write_leaf(&KF_YMODE_TREE, &KF_YMODE_PROBS, 0, mb.y_mode.leaf());
    let ghost mut c: Seq<(u8, bool)> = Seq::empty();
    if let Some(sub) = &mb.subblock_modes {
        let mut above: [IntraBmode; 4] = [IntraBmode::Dc;4];
        let mut left: [IntraBmode; 4] = [IntraBmode::Dc;4];
        if k >= cols {
            let m: &MacroblockModes = &modes[k - cols];
            above = [
                subblock_mode_at(m, 12),
                subblock_mode_at(m, 13),
                subblock_mode_at(m, 14),
                subblock_mode_at(m, 15),
            ];
        }
        if k % cols > 0 {
            assert(k >= 1) by {
                arith::lemma_remainder_bound(k as int, cols as int);
            }
            let m: &MacroblockModes = &modes[k - 1];
            left = [
                subblock_mode_at(m, 3),
                subblock_mode_at(m, 7),
                subblock_mode_at(m, 11),
                subblock_mode_at(m, 15),
            ];
        }
        assert(above@ =~= modes::bmodes_above(infos, k as int, cols as int));
        assert(left@ =~= modes::bmodes_left(infos, k as int, cols as int));
        write_bmodes(enc, sub, &above, &left);
        proof {
            c = bmodes_ops(sub@, above@, left@, 16);
        }
    } else {
        assert(enc@ =~= e0 + a + b + c);
    }
    assert(enc@ == e0 + a + b + c);
    enc.write_leaf(&UV_MODE_TREE, &KF_UV_MODE_PROBS, 0, mb.uv_mode.leaf());
    proof {
        assert(e0 + a + b + c + d =~= e0 + (a + b + c + d));
        assert(infos[k as int] == info_of(*mb));
        assert(mb_mode_ops(infos, k as int, cols as int, prob_skip_false) == a + b + c + d);
    }
}

/// Writes the modes of all macroblocks.
pub fn write_mode_layer(
    enc: &mut BoolEncoder,
    modes: &Vec<MacroblockModes>,
    cols: usize,
    prob_skip_false: u8,
)
    requires
        old(enc).wf(),
        cols >= 1,
        forall|k: int|
            0 <= k < modes@.len() ==> ((#[trigger] modes@[k]).y_mode == IntraYMode::B) == (
            modes@[k].subblock_modes is Some),
    ensures
        final(enc).wf(),
        final(enc)@ == old(enc)@ + mode_ops(
            infos_of(modes@),
            cols as int,
            prob_skip_false,
            modes@.len(),
        ),
{
    let ghost infos = infos_of(modes@);
    let mut k: usize = 0;
    assert(enc@ =~= old(enc)@ + mode_ops(infos, cols as int, prob_skip_false, 0));
    while k < modes.len()
        invariant
            k <= modes@.len(),
            cols >= 1,
            enc.wf(),
            infos == infos_of(modes@),
            forall|j: int|
                0 <= j < modes@.len() ==> ((#[trigger] modes@[j]).y_mode == IntraYMode::B) == (
                modes@[j].subblock_modes is Some),
            enc@ == old(enc)@ + mode_ops(infos, cols as int, prob_skip_false, k as nat),
        decreases modes@.len() - k,
    {
        proof {
            range_coder::lemma_append_assoc(
                old(enc)@,
                mode_ops(infos, cols as int, prob_skip_false, k as nat),
                mb_mode_ops(infos, k as int, cols as int, prob_skip_false),
            );
        }
        write_mb_modes(enc, modes, k, cols, prob_skip_false);
        k = k + 1;
    }
}

/// A macroblock of a key frame without segments.
pub open spec fn plain_intra(info: InfoModel) -> bool {
    &&& info == modes::intra_info(info.skip, 0, info.y_mode, info.bmodes, info.uv_mode)
    &&& info.bmodes.len() == 16
    &&& info.y_mode != IntraYMode::B ==> info.bmodes == modes::uniform_bmodes(info.y_mode)
}

proof fn lemma_bmodes_read_back(
    d: DecState,
    bmodes: Seq<IntraBmode>,
    above: Seq<IntraBmode>,
    left: Seq<IntraBmode>,
    n: nat,
)
    requires
        n <= bmodes.len(),
        range_coder::decodes(d, bmodes_ops(bmodes, above, left, n)),
    ensures
        modes::read_bmodes(d, above, left, n) == (
            bmodes.take(n as int),
            range_coder::dec_after(d, bmodes_ops(bmodes, above, left, n)),
        ),
    decreases n,
{
    if n == 0 {
        range_coder::lemma_decodes_nothing(d);
        assert(bmodes.take(0) =~= Seq::empty());
    } else {
        let i = n - 1;
        let before = bmodes_ops(bmodes, above, left, i as nat);
        let a = above_of(bmodes, above, i);
        let l = left_of(bmodes, left, i);
        let ops = mode_picker::b_mode_ops(a, l, bmodes[i]);
        range_coder::lemma_decodes_append(d, before, ops);
        lemma_bmodes_read_back(d, bmodes, above, left, i as nat);
        let d1 = range_coder::dec_after(d, before);
        let probs = KF_BMODE_PROB[a.number()][l.number()]@;
        mode_picker::lemma_modes_reached();
        assert(trees::tree_path(BMODE_TREE@, 0, bmodes[i].number()) is Some);
        trees::law_leaf_reads_back(d1, BMODE_TREE@, probs, 0, bmodes[i].number());
        assert(bmodes.take(n as int) =~= bmodes.take(i).push(bmodes[i]));
        assert(i >= 4 ==> bmodes.take(i)[i - 4] == bmodes[i - 4]);
        assert(i % 4 != 0 ==> bmodes.take(i)[i - 1] == bmodes[i - 1]);
    }
}

/// A reader that meets the booleans written for macroblock `k` reads its
/// modes, and stands behind them.
pub proof fn law_mb_modes_read_back(
    d: DecState,
    h: CodedHeaderModel,
    infos: Seq<InfoModel>,
    k: int,
    cols: int,
    prob: u8,
)
    requires
        0 <= k < infos.len(),
        cols >= 1,
        h.segmentation is None,
        h.prob_skip == Some(prob),
        plain_intra(infos[k]),
        range_coder::decodes(d, mb_mode_ops(infos, k, cols, prob)),
    ensures
        modes::read_key_info(d, h, infos.take(k), k, cols) == (
            infos[k],
            range_coder::dec_after(d, mb_mode_ops(infos, k, cols, prob)),
        ),
{
    reveal(mb_mode_ops);
    reveal(modes::read_key_info);
    let info = infos[k];
    let a = range_coder::one_op(prob, info.skip);
    let b = mode_picker::y_mode_ops(info.y_mode);
    let above = modes::bmodes_above(infos, k, cols);
    let left = modes::bmodes_left(infos, k, cols);
    let c = if info.y_mode == IntraYMode::B {
        bmodes_ops(info.bmodes, above, left, 16)
    } else {
        Seq::empty()
    };
    let e = mode_picker::uv_mode_ops(info.uv_mode);
    range_coder::lemma_decodes_append(d, a + b + c, e);
    range_coder::lemma_decodes_append(d, a + b, c);
    range_coder::lemma_decodes_append(d, a, b);
    range_coder::lemma_decodes_one(d, prob, info.skip);
    let d2 = range_coder::dec_after(d, a);
    mode_picker::lemma_modes_reached();
    assert(trees::tree_path(KF_YMODE_TREE@, 0, info.y_mode.number()) is Some);
    assert(trees::tree_path(UV_MODE_TREE@, 0, info.uv_mode.number()) is Some);
    trees::law_leaf_reads_back(d2, KF_YMODE_TREE@, KF_YMODE_PROBS@, 0, info.y_mode.number());
    let d3 = range_coder::dec_after(d2, b);
    if info.y_mode == IntraYMode::B {
        lemma_bmodes_read_back(d3, info.bmodes, above, left, 16);
        assert(info.bmodes.take(16) =~= info.bmodes);
        if k % cols > 0 {
            arith::lemma_remainder_bound(k, cols);
        }
        assert(modes::bmodes_above(infos.take(k), k, cols) =~= above);
        assert(modes::bmodes_left(infos.take(k), k, cols) =~= left);
    } else {
        range_coder::lemma_decodes_nothing(d3);
    }
    let d4 = range_coder::dec_after(d3, c);
    trees::law_leaf_reads_back(d4, UV_MODE_TREE@, KF_UV_MODE_PROBS@, 0, info.uv_mode.number());
}

/// A reader that meets the booleans written for the macroblocks of a key frame
/// reads their modes, and stands behind them.
pub proof fn law_modes_read_back(
    d: DecState,
    h: HeaderModel,
    infos: Seq<InfoModel>,
    cols: int,
    rows: int,
    prob: u8,
    n: nat,
)
    requires
        n <= infos.len(),
        cols >= 1,
        h.coded.segmentation is None,
        h.coded.prob_skip == Some(prob),
        forall|k: int| 0 <= k < n ==> plain_intra(#[trigger] infos[k]),
        range_coder::decodes(d, mode_ops(infos, cols, prob, n)),
    ensures
        decoder::read_infos(d, h, true, cols, rows, n) == (
            infos.take(n as int),
            range_coder::dec_after(d, mode_ops(infos, cols, prob, n)),
        ),
    decreases n,
{
    reveal(decoder::read_infos);
    if n == 0 {
        range_coder::lemma_decodes_nothing(d);
        assert(infos.take(0) =~= Seq::empty());
    } else {
        let k = n - 1;
        let before = mode_ops(infos, cols, prob, k as nat);
        range_coder::lemma_decodes_append(d, before, mb_mode_ops(infos, k, cols, prob));
        law_modes_read_back(d, h, infos, cols, rows, prob, k as nat);
        law_mb_modes_read_back(
            range_coder::dec_after(d, before),
            h.coded,
            infos,
            k,
            cols,
            prob,
        );
        assert(infos.take(n as int) =~= infos.take(k).push(infos[k]));
    }
}

} // verus!
