//! Motion vectors and the modes of an inter frame read back as they were written.
use crate::coded_header::CodedHeaderModel;
use crate::decoder;
use crate::frame_header::HeaderModel;
use crate::key_law;
use crate::macroblock;
use crate::macroblock::{IntraBmode, IntraUvMode, IntraYMode};
use crate::mode_writer;
use crate::modes;
use crate::modes::{InfoModel, InterMode, NearMvs, Place, SplitContext};
use crate::motion_comp::RefFrame;
use crate::mv;
use crate::mv::{Mv, LONG_BIT_ORDER, LONG_BIT_VALUE};
use crate::range_coder;
use crate::range_coder::DecState;
use crate::tables::{
    DEFAULT_BMODE_PROBS, MBSPLIT_PROBS, MB_SPLITS, MB_SPLIT_COUNT, MB_SPLIT_TREE,
    MV_COUNTS_TO_PROBS, MV_REF_TREE, SMALL_MV_TREE, SUB_MV_REF_PROBS, SUB_MV_REF_TREE,
    UV_MODE_TREE, YMODE_TREE,
};
use crate::trees;
use vstd::prelude::*;

verus! {

/// Whether the bit that counts `w` is set in `m`.
pub open spec fn has_bit(m: int, w: int) -> bool {
    m / w % 2 == 1
}

/// A magnitude below eight: three bits, the highest first, each with the
/// probability that the bits before it lead to.
pub open spec fn short_ops(m: int, p: Seq<u8>) -> Seq<(u8, bool)> {
    range_coder::one_op(p[2], has_bit(m, 4)) + range_coder::one_op(
        p[if has_bit(m, 4) {
            6
        } else {
            3
        }],
        has_bit(m, 2),
    ) + range_coder::one_op(p[4 + m / 2 + (if has_bit(m, 4) { 1int } else { 0 })], has_bit(m, 1))
}

/// Bits of a long magnitude but the one that counts eight: the three lowest
/// from the lowest up, the others from the highest down.
pub open spec fn long_ops(m: int, p: Seq<u8>) -> Seq<(u8, bool)> {
    range_coder::one_op(p[9], has_bit(m, 1)) + range_coder::one_op(p[10], has_bit(m, 2))
        + range_coder::one_op(p[11], has_bit(m, 4)) + range_coder::one_op(p[18], has_bit(m, 512))
        + range_coder::one_op(p[17], has_bit(m, 256)) + range_coder::one_op(
        p[16],
        has_bit(m, 128),
    ) + range_coder::one_op(p[15], has_bit(m, 64)) + range_coder::one_op(p[14], has_bit(m, 32))
        + range_coder::one_op(p[13], has_bit(m, 16))
}

/// A magnitude. Of a long one the bit that counts eight comes last, and only
/// where a higher one leaves it open.
pub open spec fn magnitude_ops(m: int, p: Seq<u8>) -> Seq<(u8, bool)> {
    if m < 8 {
        range_coder::one_op(p[0], false) + short_ops(m, p)
    } else if m < 16 {
        range_coder::one_op(p[0], true) + long_ops(m, p)
    } else {
        range_coder::one_op(p[0], true) + long_ops(m, p) + range_coder::one_op(
            p[12],
            has_bit(m, 8),
        )
    }
}

/// A component: its magnitude, and its sign unless it is zero.
pub open spec fn component_ops(x: int, p: Seq<u8>) -> Seq<(u8, bool)> {
    if x == 0 {
        magnitude_ops(0, p)
    } else if x < 0 {
        magnitude_ops(-x, p) + range_coder::one_op(p[1], true)
    } else {
        magnitude_ops(x, p) + range_coder::one_op(p[1], false)
    }
}

/// A vector: its row, then its column.
pub open spec fn vector_ops(row: int, col: int, context: Seq<Seq<u8>>) -> Seq<(u8, bool)> {
    component_ops(row, context[0]) + component_ops(col, context[1])
}

#[verifier::spinoff_prover]
#[verifier::rlimit(50)]
proof fn lemma_short_reads_back(d: DecState, m: int, p: Seq<u8>)
    requires
        p.len() == 19,
        0 <= m < 8,
        range_coder::decodes(d, short_ops(m, p)),
    ensures
        trees::read_tree_from(d, SMALL_MV_TREE@, p.subrange(2, 9), 0) == (
            m,
            range_coder::dec_after(d, short_ops(m, p)),
        ),
{
    let s = p.subrange(2, 9);
    let q = p[if has_bit(m, 4) {
        6
    } else {
        3
    }];
    let r = p[4 + m / 2 + (if has_bit(m, 4) { 1int } else { 0 })];
    let a = range_coder::one_op(p[2], has_bit(m, 4));
    let b = range_coder::one_op(q, has_bit(m, 2));
    let c = range_coder::one_op(r, has_bit(m, 1));
    range_coder::lemma_decodes_append(d, a + b, c);
    range_coder::lemma_decodes_append(d, a, b);
    range_coder::lemma_decodes_one(d, p[2], has_bit(m, 4));
    let d1 = range_coder::dec_next(d, p[2]);
    range_coder::lemma_decodes_one(d1, q, has_bit(m, 2));
    let d2 = range_coder::dec_next(d1, q);
    range_coder::lemma_decodes_one(d2, r, has_bit(m, 1));
    mv::lemma_small_tree_ok();
    reveal_with_fuel(trees::read_tree_from, 4);
    assert(s[0] == p[2] && s[1] == p[3] && s[2] == p[4] && s[3] == p[5] && s[4] == p[6] && s[5]
        == p[7] && s[6] == p[8]);
    assert(m == 0 || m == 1 || m == 2 || m == 3 || m == 4 || m == 5 || m == 6 || m == 7);
}

proof fn lemma_long_bits(m: int)
    requires
        0 <= m < 1024,
    ensures
        m == (m / 512 % 2) * 512 + (m / 256 % 2) * 256 + (m / 128 % 2) * 128 + (m / 64 % 2) * 64 + (
        m / 32 % 2) * 32 + (m / 16 % 2) * 16 + (m / 8 % 2) * 8 + (m / 4 % 2) * 4 + (m / 2 % 2) * 2
            + m % 2,
        m / 1 == m,
{
    assert(m / 4 == m / 2 / 2 && m / 8 == m / 4 / 2 && m / 16 == m / 8 / 2 && m / 32 == m / 16 / 2
        && m / 64 == m / 32 / 2 && m / 128 == m / 64 / 2 && m / 256 == m / 128 / 2 && m / 512 == m
        / 256 / 2);
}

/// What a set bit adds.
spec fn worth(m: int, w: int) -> int {
    if has_bit(m, w) {
        w
    } else {
        0
    }
}

/// One more bit of a long magnitude.
proof fn lemma_long_step(d: DecState, p: Seq<u8>, n: nat, before: Seq<(u8, bool)>, bit: bool)
    requires
        n < 9,
        ({
            let q = p[9 + LONG_BIT_ORDER[n as int]];
            range_coder::decodes(d, before + range_coder::one_op(q, bit))
        }),
        mv::long_skip(d, p, n) == range_coder::dec_after(d, before),
    ensures
        ({
            let q = p[9 + LONG_BIT_ORDER[n as int]];
            let ops = before + range_coder::one_op(q, bit);
            &&& range_coder::decodes(d, before)
            &&& mv::long_skip(d, p, n + 1) == range_coder::dec_after(d, ops)
            &&& mv::long_value(d, p, n + 1) == mv::long_value(d, p, n) + if bit {
                LONG_BIT_VALUE[n as int] as int
            } else {
                0
            }
        }),
{
    let q = p[9 + LONG_BIT_ORDER[n as int]];
    range_coder::lemma_decodes_append(d, before, range_coder::one_op(q, bit));
    range_coder::lemma_decodes_one(range_coder::dec_after(d, before), q, bit);
}

#[verifier::spinoff_prover]
#[verifier::rlimit(50)]
proof fn lemma_long_reads_back(d: DecState, m: int, p: Seq<u8>)
    requires
        p.len() == 19,
        0 <= m < 1024,
        range_coder::decodes(d, long_ops(m, p)),
    ensures
        mv::long_value(d, p, 9) == m - worth(m, 8),
        mv::long_skip(d, p, 9) == range_coder::dec_after(d, long_ops(m, p)),
{
    let s0 = Seq::<(u8, bool)>::empty();
    let s1 = range_coder::one_op(p[9], has_bit(m, 1));
    let s2 = s1 + range_coder::one_op(p[10], has_bit(m, 2));
    let s3 = s2 + range_coder::one_op(p[11], has_bit(m, 4));
    let s4 = s3 + range_coder::one_op(p[18], has_bit(m, 512));
    let s5 = s4 + range_coder::one_op(p[17], has_bit(m, 256));
    let s6 = s5 + range_coder::one_op(p[16], has_bit(m, 128));
    let s7 = s6 + range_coder::one_op(p[15], has_bit(m, 64));
    let s8 = s7 + range_coder::one_op(p[14], has_bit(m, 32));
    let s9 = s8 + range_coder::one_op(p[13], has_bit(m, 16));
    assert(s9 == long_ops(m, p));
    assert(s0 + s1 =~= s1);
    range_coder::lemma_decodes_nothing(d);
    range_coder::lemma_decodes_append(d, s8, range_coder::one_op(p[13], has_bit(m, 16)));
    range_coder::lemma_decodes_append(d, s7, range_coder::one_op(p[14], has_bit(m, 32)));
    range_coder::lemma_decodes_append(d, s6, range_coder::one_op(p[15], has_bit(m, 64)));
    range_coder::lemma_decodes_append(d, s5, range_coder::one_op(p[16], has_bit(m, 128)));
    range_coder::lemma_decodes_append(d, s4, range_coder::one_op(p[17], has_bit(m, 256)));
    range_coder::lemma_decodes_append(d, s3, range_coder::one_op(p[18], has_bit(m, 512)));
    range_coder::lemma_decodes_append(d, s2, range_coder::one_op(p[11], has_bit(m, 4)));
    range_coder::lemma_decodes_append(d, s1, range_coder::one_op(p[10], has_bit(m, 2)));
    lemma_long_step(d, p, 0, s0, has_bit(m, 1));
    lemma_long_step(d, p, 1, s1, has_bit(m, 2));
    lemma_long_step(d, p, 2, s2, has_bit(m, 4));
    lemma_long_step(d, p, 3, s3, has_bit(m, 512));
    lemma_long_step(d, p, 4, s4, has_bit(m, 256));
    lemma_long_step(d, p, 5, s5, has_bit(m, 128));
    lemma_long_step(d, p, 6, s6, has_bit(m, 64));
    lemma_long_step(d, p, 7, s7, has_bit(m, 32));
    lemma_long_step(d, p, 8, s8, has_bit(m, 16));
    lemma_long_bits(m);
    assert(mv::long_value(d, p, 9) == worth(m, 1) + worth(m, 2) + worth(m, 4) + worth(m, 512)
        + worth(m, 256) + worth(m, 128) + worth(m, 64) + worth(m, 32) + worth(m, 16));
    lemma_worth(m, 1);
    lemma_worth(m, 2);
    lemma_worth(m, 4);
    lemma_worth(m, 8);
    lemma_worth(m, 16);
    lemma_worth(m, 32);
    lemma_worth(m, 64);
    lemma_worth(m, 128);
    lemma_worth(m, 256);
    lemma_worth(m, 512);
}

proof fn lemma_worth(m: int, w: int)
    requires
        w > 0,
    ensures
        worth(m, w) == (m / w % 2) * w,
{
    let b = m / w % 2;
    assert(b == 0 || b == 1);
    assert(1 * w == w && 0 * w == 0);
}

/// A magnitude reads back as it was written.
proof fn lemma_magnitude_reads_back(d: DecState, m: int, p: Seq<u8>)
    requires
        p.len() == 19,
        0 <= m < 1024,
        range_coder::decodes(d, magnitude_ops(m, p)),
    ensures
        mv::read_mv_magnitude(d, p) == (m, range_coder::dec_after(d, magnitude_ops(m, p))),
{
    let first = range_coder::one_op(p[0], m >= 8);
    range_coder::lemma_decodes_one(d, p[0], m >= 8);
    let d1 = range_coder::dec_next(d, p[0]);
    if m < 8 {
        range_coder::lemma_decodes_append(d, first, short_ops(m, p));
        lemma_short_reads_back(d1, m, p);
    } else {
        let last = range_coder::one_op(p[12], has_bit(m, 8));
        range_coder::lemma_decodes_append(d, first, long_ops(m, p));
        range_coder::lemma_decodes_append(d, first + long_ops(m, p), last);
        lemma_long_reads_back(d1, m, p);
        range_coder::lemma_decodes_one(
            range_coder::dec_after(d1, long_ops(m, p)),
            p[12],
            has_bit(m, 8),
        );
        lemma_long_bits(m);
        if m < 16 {
            assert(m / 8 == 1);
        }
    }
}

/// A component reads back as it was written.
pub proof fn law_component_reads_back(d: DecState, x: int, p: Seq<u8>)
    requires
        p.len() == 19,
        -1023 <= x <= 1023,
        range_coder::decodes(d, component_ops(x, p)),
    ensures
        mv::read_mv_component(d, p) == (x, range_coder::dec_after(d, component_ops(x, p))),
{
    let m = if x < 0 {
        -x
    } else {
        x
    };
    if x == 0 {
        lemma_magnitude_reads_back(d, 0, p);
    } else {
        let sign = range_coder::one_op(p[1], x < 0);
        range_coder::lemma_decodes_append(d, magnitude_ops(m, p), sign);
        lemma_magnitude_reads_back(d, m, p);
        range_coder::lemma_decodes_one(
            range_coder::dec_after(d, magnitude_ops(m, p)),
            p[1],
            x < 0,
        );
    }
}

/// Two components, each with probabilities of its own.
pub open spec fn vector_context(context: Seq<Seq<u8>>) -> bool {
    &&& context.len() == 2
    &&& context[0].len() == 19
    &&& context[1].len() == 19
}

/// A vector reads back as it was written, in steps of a quarter of a pixel.
pub proof fn law_vector_reads_back(d: DecState, row: int, col: int, context: Seq<Seq<u8>>)
    requires
        vector_context(context),
        -1023 <= row <= 1023,
        -1023 <= col <= 1023,
        range_coder::decodes(d, vector_ops(row, col, context)),
    ensures
        mv::read_mv(d, context) == (
            (Mv { row: (2 * row) as i16, col: (2 * col) as i16 }),
            range_coder::dec_after(d, vector_ops(row, col, context)),
        ),
{
    let a = component_ops(row, context[0]);
    let b = component_ops(col, context[1]);
    range_coder::lemma_decodes_append(d, a, b);
    law_component_reads_back(d, row, context[0]);
    law_component_reads_back(range_coder::dec_after(d, a), col, context[1]);
}

/// A vector that points at most one macroblock outside the frame, seen from
/// the macroblock in row `at.k / at.cols` and column `at.k % at.cols`.
pub open spec fn inside(m: Mv, at: Place) -> bool {
    &&& -128 * (at.k / at.cols + 1) <= m.row <= 128 * (at.rows - at.k / at.cols)
    &&& -128 * (at.k % at.cols + 1) <= m.col <= 128 * (at.cols - at.k % at.cols)
}

/// `m` can be written as a difference to `best`.
pub open spec fn within_reach(m: Mv, best: Mv) -> bool {
    &&& (m.row - best.row) % 2 == 0
    &&& (m.col - best.col) % 2 == 0
    &&& -2046 <= m.row - best.row <= 2046
    &&& -2046 <= m.col - best.col <= 2046
}

/// A vector as its difference to `best`.
pub open spec fn difference_ops(m: Mv, best: Mv, context: Seq<Seq<u8>>) -> Seq<(u8, bool)> {
    vector_ops((m.row - best.row) / 2, (m.col - best.col) / 2, context)
}

proof fn lemma_difference_reads_back(d: DecState, m: Mv, best: Mv, context: Seq<Seq<u8>>)
    requires
        vector_context(context),
        within_reach(m, best),
        range_coder::decodes(d, difference_ops(m, best, context)),
    ensures
        modes::offset_mv(best, mv::read_mv(d, context).0) == m,
        mv::read_mv(d, context).1 == range_coder::dec_after(d, difference_ops(m, best, context)),
{
    let row = (m.row - best.row) / 2;
    let col = (m.col - best.col) / 2;
    assert(2 * row == m.row - best.row && 2 * col == m.col - best.col);
    law_vector_reads_back(d, row, col, context);
}

/// A vector inside the border that was written as its difference to the best
/// prediction reads back as itself, whatever the prediction.
pub proof fn law_new_vector_reads_back(
    d: DecState,
    h: HeaderModel,
    infos: Seq<InfoModel>,
    at: Place,
    near: NearMvs,
    m: Mv,
)
    requires
        vector_context(h.probs.mv),
        inside(m, at),
        within_reach(m, modes::limited(near.best, at)),
        range_coder::decodes(
            d,
            difference_ops(m, modes::limited(near.best, at), h.probs.mv),
        ),
    ensures
        modes::read_vectors(d, h, infos, at, near, InterMode::New) == (
            Seq::new(16, |i: int| m),
            range_coder::dec_after(
                d,
                difference_ops(m, modes::limited(near.best, at), h.probs.mv),
            ),
        ),
{
    let best = modes::limited(near.best, at);
    lemma_difference_reads_back(d, m, best, h.probs.mv);
    assert(modes::limited(m, at) == m);
    let r = modes::read_vectors(d, h, infos, at, near, InterMode::New);
    assert(r.0 =~= Seq::new(16, |i: int| m));
}

/// The part that subblock `i` belongs to: halves above each other, halves
/// beside each other, quarters, or each on its own.
#[verifier::opaque]
pub open spec fn part_of(layout: int, i: int) -> int {
    if layout == 0 {
        i / 8
    } else if layout == 1 {
        i % 4 / 2
    } else if layout == 2 {
        2 * (i / 8) + i % 4 / 2
    } else {
        i
    }
}

/// Number of parts.
pub open spec fn parts_in(layout: int) -> int {
    if layout < 2 {
        2
    } else if layout == 2 {
        4
    } else {
        16
    }
}

/// The subblock with which a part starts.
#[verifier::opaque]
pub open spec fn start_of_part(layout: int, p: int) -> int {
    if layout == 0 {
        8 * p
    } else if layout == 1 {
        2 * p
    } else if layout == 2 {
        8 * (p / 2) + 2 * (p % 2)
    } else {
        p
    }
}

/// How the layout of the parts is written.
pub open spec fn layout_ops(layout: int) -> Seq<(u8, bool)> {
    if layout == 3 {
        range_coder::one_op(110, false)
    } else if layout == 2 {
        range_coder::one_op(110, true) + range_coder::one_op(111, false)
    } else {
        range_coder::one_op(110, true) + range_coder::one_op(111, true) + range_coder::one_op(
            150,
            layout == 1,
        )
    }
}

/// How the vector of a part is given.
pub enum PartMode {
    Left,
    Above,
    Zero,
    New,
}

/// What the probabilities of these ways go by: the vectors to the left of a
/// part and above it.
pub open spec fn beside(left: Mv, above: Mv) -> int {
    let zero = mv::zero_mv();
    if left == above && above == zero {
        4
    } else if left == above {
        3
    } else if above == zero {
        2
    } else if left == zero {
        1
    } else {
        0
    }
}

/// The way is written with a zero for each of those before it.
pub open spec fn part_mode_ops(mode: PartMode, left: Mv, above: Mv) -> Seq<(u8, bool)> {
    let p = SUB_MV_REF_PROBS[beside(left, above)]@;
    match mode {
        PartMode::Left => range_coder::one_op(p[0], false),
        PartMode::Above => range_coder::one_op(p[0], true) + range_coder::one_op(p[1], false),
        PartMode::Zero => range_coder::one_op(p[0], true) + range_coder::one_op(p[1], true)
            + range_coder::one_op(p[2], false),
        PartMode::New => range_coder::one_op(p[0], true) + range_coder::one_op(p[1], true)
            + range_coder::one_op(p[2], true),
    }
}

/// The vector to the left of subblock `i`.
pub open spec fn mv_left_of(mvs: Seq<Mv>, left: Seq<Mv>, i: int) -> Mv {
    if i % 4 == 0 {
        left[i / 4]
    } else {
        mvs[i - 1]
    }
}

/// The vector above subblock `i`.
pub open spec fn mv_above_of(mvs: Seq<Mv>, above: Seq<Mv>, i: int) -> Mv {
    if i < 4 {
        above[i]
    } else {
        mvs[i - 4]
    }
}

/// Part `p` has the vector that its mode gives it.
pub open spec fn part_fits(c: SplitContext, mvs: Seq<Mv>, how: Seq<PartMode>, p: int) -> bool {
    let i = start_of_part(c.split, p);
    match how[p] {
        PartMode::Left => mvs[i] == mv_left_of(mvs, c.left, i),
        PartMode::Above => mvs[i] == mv_above_of(mvs, c.above, i),
        PartMode::Zero => mvs[i] == mv::zero_mv(),
        PartMode::New => within_reach(mvs[i], c.best),
    }
}

/// Sixteen vectors, the same all over each part, that can be written.
pub open spec fn split_fits(c: SplitContext, mvs: Seq<Mv>, how: Seq<PartMode>) -> bool {
    &&& 0 <= c.split < 4
    &&& c.left.len() == 4
    &&& c.above.len() == 4
    &&& vector_context(c.probs)
    &&& mvs.len() == 16
    &&& how.len() == parts_in(c.split)
    &&& forall|i: int|
        0 <= i < 16 ==> #[trigger] mvs[i] == mvs[start_of_part(c.split, part_of(c.split, i))]
    &&& forall|p: int| 0 <= p < how.len() ==> #[trigger] part_fits(c, mvs, how, p)
}

/// How part `p` is written.
pub open spec fn part_ops(c: SplitContext, mvs: Seq<Mv>, how: Seq<PartMode>, p: int) -> Seq<
    (u8, bool),
> {
    let i = start_of_part(c.split, p);
    part_mode_ops(how[p], mv_left_of(mvs, c.left, i), mv_above_of(mvs, c.above, i)) + (
    if how[p] is New {
        difference_ops(mvs[i], c.best, c.probs)
    } else {
        Seq::empty()
    })
}

/// How the first `n` parts are written.
pub open spec fn parts_ops(c: SplitContext, mvs: Seq<Mv>, how: Seq<PartMode>, n: nat) -> Seq<
    (u8, bool),
>
    decreases n,
{
    if n == 0 {
        Seq::empty()
    } else {
        parts_ops(c, mvs, how, (n - 1) as nat) + part_ops(c, mvs, how, n - 1)
    }
}

#[verifier::spinoff_prover]
#[verifier::rlimit(50)]
proof fn lemma_layout(layout: int, i: int)
    requires
        0 <= layout < 4,
        0 <= i < 16,
    ensures
        MB_SPLITS[layout][i] == part_of(layout, i),
        MB_SPLIT_COUNT[layout] == parts_in(layout),
        0 <= part_of(layout, i) < parts_in(layout),
{
    reveal(part_of);
    assert(layout == 0 || layout == 1 || layout == 2 || layout == 3);
    assert(i == 0 || i == 1 || i == 2 || i == 3 || i == 4 || i == 5 || i == 6 || i == 7 || i == 8
        || i == 9 || i == 10 || i == 11 || i == 12 || i == 13 || i == 14 || i == 15);
}

/// A part starts with its first subblock; what stands beside that belongs to
/// the parts before it.
#[verifier::spinoff_prover]
#[verifier::rlimit(50)]
proof fn lemma_part_start(layout: int, p: int)
    requires
        0 <= layout < 4,
        0 <= p < parts_in(layout),
    ensures
        ({
            let i = start_of_part(layout, p);
            &&& 0 <= i < 16
            &&& part_of(layout, i) == p
            &&& forall|j: int| 0 <= j < i ==> #[trigger] part_of(layout, j) < p
        }),
{
    reveal(part_of);
    reveal(start_of_part);
    if layout != 3 {
        assert(p == 0 || p == 1 || p == 2 || p == 3);
    }
}

#[verifier::spinoff_prover]
#[verifier::rlimit(50)]
proof fn lemma_first_subblock(layout: int, p: int, i: int)
    requires
        0 <= layout < 4,
        0 <= p < parts_in(layout),
        0 <= i <= start_of_part(layout, p),
    ensures
        modes::first_of(layout, p, i) == start_of_part(layout, p),
    decreases 16 - i,
{
    lemma_part_start(layout, p);
    lemma_layout(layout, i);
    if i < start_of_part(layout, p) {
        lemma_first_subblock(layout, p, i + 1);
    }
}

proof fn lemma_part_mode_reads_back(d: DecState, mode: PartMode, left: Mv, above: Mv)
    requires
        range_coder::decodes(d, part_mode_ops(mode, left, above)),
    ensures
        ({
            let r = trees::read_tree_from(
                d,
                SUB_MV_REF_TREE@,
                SUB_MV_REF_PROBS[modes::part_context(left, above)]@,
                0,
            );
            &&& r.0 == match mode {
                PartMode::Left => 0int,
                PartMode::Above => 1,
                PartMode::Zero => 2,
                PartMode::New => 3,
            }
            &&& r.1 == range_coder::dec_after(d, part_mode_ops(mode, left, above))
        }),
{
    let p = SUB_MV_REF_PROBS[beside(left, above)]@;
    assert(beside(left, above) == modes::part_context(left, above));
    let a = range_coder::one_op(p[0], !(mode is Left));
    let b = range_coder::one_op(p[1], !(mode is Above));
    let c = range_coder::one_op(p[2], !(mode is Zero));
    range_coder::lemma_decodes_append(d, a + b, c);
    range_coder::lemma_decodes_append(d, a, b);
    range_coder::lemma_decodes_one(d, p[0], !(mode is Left));
    let d1 = range_coder::dec_next(d, p[0]);
    range_coder::lemma_decodes_one(d1, p[1], !(mode is Above));
    let d2 = range_coder::dec_next(d1, p[1]);
    range_coder::lemma_decodes_one(d2, p[2], !(mode is Zero));
    reveal_with_fuel(trees::read_tree_from, 4);
}

/// The vectors of the parts before `p`, and zero elsewhere.
spec fn so_far(mvs: Seq<Mv>, layout: int, p: int) -> Seq<Mv> {
    Seq::new(
        16,
        |i: int|
            if part_of(layout, i) < p {
                mvs[i]
            } else {
                mv::zero_mv()
            },
    )
}

proof fn lemma_neighbors_known(c: SplitContext, mvs: Seq<Mv>, p: int)
    requires
        0 <= c.split < 4,
        0 <= p < parts_in(c.split),
    ensures
        ({
            let i = start_of_part(c.split, p);
            let known = so_far(mvs, c.split, p);
            &&& 0 <= i < 16
            &&& mv_left_of(mvs, c.left, i) == mv_left_of(known, c.left, i)
            &&& mv_above_of(mvs, c.above, i) == mv_above_of(known, c.above, i)
        }),
{
    lemma_part_start(c.split, p);
    let i = start_of_part(c.split, p);
    if i % 4 != 0 {
        assert(part_of(c.split, i - 1) < p);
    }
    if i >= 4 {
        assert(part_of(c.split, i - 4) < p);
    }
}

proof fn lemma_one_part_reads_back(
    d: DecState,
    c: SplitContext,
    mvs: Seq<Mv>,
    how: Seq<PartMode>,
    p: int,
)
    requires
        0 <= c.split < 4,
        vector_context(c.probs),
        how.len() == parts_in(c.split),
        0 <= p < how.len(),
        part_fits(c, mvs, how, p),
        range_coder::decodes(d, part_ops(c, mvs, how, p)),
    ensures
        modes::read_part_mv(d, c, so_far(mvs, c.split, p), p) == (
            mvs[start_of_part(c.split, p)],
            range_coder::dec_after(d, part_ops(c, mvs, how, p)),
        ),
{
    let i = start_of_part(c.split, p);
    lemma_neighbors_known(c, mvs, p);
    lemma_first_subblock(c.split, p, 0);
    let left = mv_left_of(mvs, c.left, i);
    let above = mv_above_of(mvs, c.above, i);
    let first = part_mode_ops(how[p], left, above);
    let second = if how[p] is New {
        difference_ops(mvs[i], c.best, c.probs)
    } else {
        Seq::empty()
    };
    range_coder::lemma_decodes_append(d, first, second);
    lemma_part_mode_reads_back(d, how[p], left, above);
    let d1 = range_coder::dec_after(d, first);
    range_coder::lemma_decodes_nothing(d1);
    if how[p] is New {
        lemma_difference_reads_back(d1, mvs[i], c.best, c.probs);
    }
}

#[verifier::spinoff_prover]
#[verifier::rlimit(50)]
proof fn lemma_one_more_part(mvs: Seq<Mv>, layout: int, p: int)
    requires
        0 <= layout < 4,
        0 <= p < parts_in(layout),
        mvs.len() == 16,
        forall|i: int|
            0 <= i < 16 ==> #[trigger] mvs[i] == mvs[start_of_part(layout, part_of(layout, i))],
    ensures
        modes::with_part(so_far(mvs, layout, p), layout, p, mvs[start_of_part(layout, p)])
            == so_far(mvs, layout, p + 1),
{
    let m = mvs[start_of_part(layout, p)];
    let a = modes::with_part(so_far(mvs, layout, p), layout, p, m);
    let b = so_far(mvs, layout, p + 1);
    assert forall|j: int| 0 <= j < 16 implies #[trigger] a[j] == b[j] by {
        lemma_layout(layout, j);
        let x = part_of(layout, j);
        assert(mvs[j] == mvs[start_of_part(layout, x)]);
    }
    assert(a =~= b);
}

proof fn lemma_parts_read_back(
    d: DecState,
    c: SplitContext,
    mvs: Seq<Mv>,
    how: Seq<PartMode>,
    n: nat,
)
    requires
        split_fits(c, mvs, how),
        n <= how.len(),
        range_coder::decodes(d, parts_ops(c, mvs, how, n)),
    ensures
        modes::read_part_mvs(d, c, n) == (
            so_far(mvs, c.split, n as int),
            range_coder::dec_after(d, parts_ops(c, mvs, how, n)),
        ),
    decreases n,
{
    if n == 0 {
        range_coder::lemma_decodes_nothing(d);
        assert forall|i: int| 0 <= i < 16 implies #[trigger] so_far(mvs, c.split, 0)[i]
            == mv::zero_mv() by {
            lemma_layout(c.split, i);
        }
        assert(so_far(mvs, c.split, 0) =~= Seq::new(16, |i: int| mv::zero_mv()));
    } else {
        let p = n - 1;
        let before = parts_ops(c, mvs, how, p as nat);
        range_coder::lemma_decodes_append(d, before, part_ops(c, mvs, how, p));
        lemma_parts_read_back(d, c, mvs, how, p as nat);
        assert(part_fits(c, mvs, how, p));
        lemma_one_part_reads_back(range_coder::dec_after(d, before), c, mvs, how, p);
        lemma_one_more_part(mvs, c.split, p);
    }
}

proof fn lemma_layout_reads_back(d: DecState, layout: int)
    requires
        0 <= layout < 4,
        range_coder::decodes(d, layout_ops(layout)),
    ensures
        trees::read_tree_from(d, MB_SPLIT_TREE@, MBSPLIT_PROBS@, 0) == (
            layout,
            range_coder::dec_after(d, layout_ops(layout)),
        ),
{
    let a = range_coder::one_op(110, layout != 3);
    let b = range_coder::one_op(111, layout != 2);
    let c = range_coder::one_op(150, layout == 1);
    range_coder::lemma_decodes_append(d, a + b, c);
    range_coder::lemma_decodes_append(d, a, b);
    range_coder::lemma_decodes_one(d, 110, layout != 3);
    let d1 = range_coder::dec_next(d, 110);
    range_coder::lemma_decodes_one(d1, 111, layout != 2);
    let d2 = range_coder::dec_next(d1, 111);
    range_coder::lemma_decodes_one(d2, 150, layout == 1);
    reveal_with_fuel(trees::read_tree_from, 4);
}

/// The vectors of a split macroblock read back as they were written: each part
/// has the vector to its left, the one above it, zero, or the best prediction
/// plus a difference.
#[verifier::spinoff_prover]
#[verifier::rlimit(50)]
pub proof fn law_split_vectors_read_back(
    d: DecState,
    h: HeaderModel,
    infos: Seq<InfoModel>,
    at: Place,
    near: NearMvs,
    layout: int,
    mvs: Seq<Mv>,
    how: Seq<PartMode>,
)
    requires
        split_fits(split_context(h, infos, at, near, layout), mvs, how),
        range_coder::decodes(
            d,
            split_ops(split_context(h, infos, at, near, layout), mvs, how),
        ),
    ensures
        modes::read_vectors(d, h, infos, at, near, InterMode::Split) == (
            mvs,
            range_coder::dec_after(
                d,
                split_ops(split_context(h, infos, at, near, layout), mvs, how),
            ),
        ),
{
    let c = split_context(h, infos, at, near, layout);
    let n = parts_in(layout) as nat;
    range_coder::lemma_decodes_append(d, layout_ops(layout), parts_ops(c, mvs, how, n));
    lemma_layout_reads_back(d, layout);
    let d1 = range_coder::dec_after(d, layout_ops(layout));
    lemma_parts_read_back(d1, c, mvs, how, n);
    lemma_layout(layout, 0);
    assert forall|i: int| 0 <= i < 16 implies #[trigger] so_far(mvs, layout, n as int)[i]
        == mvs[i] by {
        lemma_layout(layout, i);
    }
    assert(so_far(mvs, layout, n as int) =~= mvs);
    assert(modes::mvs_left(infos, at.k, at.cols) =~= c.left);
    assert(modes::mvs_above(infos, at.k, at.cols) =~= c.above);
}

/// The vector that a neighbour shows at its subblock `i`.
pub open spec fn shown_mv(info: InfoModel, i: int) -> Mv {
    if info.reference is None {
        mv::zero_mv()
    } else if info.inter_mode == InterMode::Split {
        info.sub_mvs[i]
    } else {
        info.mv
    }
}

/// What a split macroblock is written against: the vectors in the bottom row of
/// the macroblock above, those in the right column of the one to the left, and
/// the best prediction.
pub open spec fn split_context(
    h: HeaderModel,
    infos: Seq<InfoModel>,
    at: Place,
    near: NearMvs,
    layout: int,
) -> SplitContext {
    SplitContext {
        split: layout,
        left: Seq::new(
            4,
            |i: int|
                if at.k % at.cols > 0 {
                    shown_mv(infos[at.k - 1], 4 * i + 3)
                } else {
                    mv::zero_mv()
                },
        ),
        above: Seq::new(
            4,
            |i: int|
                if at.k >= at.cols {
                    shown_mv(infos[at.k - at.cols], 12 + i)
                } else {
                    mv::zero_mv()
                },
        ),
        best: modes::limited(near.best, at),
        probs: h.probs.mv,
    }
}

/// How a split macroblock is written: the layout, then the parts.
pub open spec fn split_ops(c: SplitContext, mvs: Seq<Mv>, how: Seq<PartMode>) -> Seq<(u8, bool)> {
    layout_ops(c.split) + parts_ops(c, mvs, how, parts_in(c.split) as nat)
}

/// How the segment of a macroblock is written, where the frame says so.
pub open spec fn segment_ops(h: CodedHeaderModel, segment: int) -> Seq<(u8, bool)> {
    if h.segmentation is Some && h.segmentation->0.update_map {
        range_coder::one_op(modes::segment_prob(h, 0), segment >= 2) + range_coder::one_op(
            modes::segment_prob(
                h,
                if segment >= 2 {
                    2
                } else {
                    1
                },
            ),
            segment % 2 == 1,
        )
    } else {
        Seq::empty()
    }
}

/// The segments that can be written.
pub open spec fn segment_fits(h: CodedHeaderModel, segment: int) -> bool {
    if h.segmentation is Some && h.segmentation->0.update_map {
        0 <= segment < 4
    } else {
        segment == 0
    }
}

/// How it is written that a macroblock has no residue, where the frame says so.
pub open spec fn skip_ops(h: CodedHeaderModel, skip: bool) -> Seq<(u8, bool)> {
    match h.prob_skip {
        Some(p) => range_coder::one_op(p, skip),
        None => Seq::empty(),
    }
}

/// How the reference frame of a macroblock is written.
pub open spec fn reference_ops(h: HeaderModel, f: RefFrame) -> Seq<(u8, bool)> {
    match f {
        RefFrame::Last => range_coder::one_op(h.prob_last, false),
        RefFrame::Golden => range_coder::one_op(h.prob_last, true) + range_coder::one_op(
            h.prob_gf,
            false,
        ),
        RefFrame::AltRef => range_coder::one_op(h.prob_last, true) + range_coder::one_op(
            h.prob_gf,
            true,
        ),
    }
}

/// How the mode of an inter macroblock is written: zero, nearest, near, new and
/// split, with a one for each of those before it. Each bit has the probability
/// that the weight of the neighbours gives it.
pub open spec fn inter_mode_ops(mode: InterMode, w: Seq<int>) -> Seq<(u8, bool)> {
    let a = MV_COUNTS_TO_PROBS[w[0]][0];
    let b = MV_COUNTS_TO_PROBS[w[1]][1];
    let c = MV_COUNTS_TO_PROBS[w[2]][2];
    let d = MV_COUNTS_TO_PROBS[w[3]][3];
    match mode {
        InterMode::Zero => range_coder::one_op(a, false),
        InterMode::Nearest => range_coder::one_op(a, true) + range_coder::one_op(b, false),
        InterMode::Near => range_coder::one_op(a, true) + range_coder::one_op(b, true)
            + range_coder::one_op(c, false),
        InterMode::New => range_coder::one_op(a, true) + range_coder::one_op(b, true)
            + range_coder::one_op(c, true) + range_coder::one_op(d, false),
        InterMode::Split => range_coder::one_op(a, true) + range_coder::one_op(b, true)
            + range_coder::one_op(c, true) + range_coder::one_op(d, true),
    }
}

/// How the macroblock's own vectors are given, where it is split.
pub struct SplitChoice {
    pub layout: int,
    pub how: Seq<PartMode>,
}

/// The vectors of a macroblock can be written.
pub open spec fn vectors_fit(
    info: InfoModel,
    choice: SplitChoice,
    h: HeaderModel,
    infos: Seq<InfoModel>,
    at: Place,
    near: NearMvs,
) -> bool {
    &&& info.sub_mvs.len() == 16
    &&& info.mv == info.sub_mvs[15]
    &&& !(info.inter_mode is Split) ==> forall|i: int|
        0 <= i < 16 ==> #[trigger] info.sub_mvs[i] == info.mv
    &&& match info.inter_mode {
        InterMode::Zero => info.mv == mv::zero_mv(),
        InterMode::Nearest => info.mv == modes::limited(near.nearest, at),
        InterMode::Near => info.mv == modes::limited(near.near, at),
        InterMode::New => inside(info.mv, at) && within_reach(
            info.mv,
            modes::limited(near.best, at),
        ),
        InterMode::Split => split_fits(
            split_context(h, infos, at, near, choice.layout),
            info.sub_mvs,
            choice.how,
        ),
    }
}

/// How the vectors of a macroblock are written.
pub open spec fn info_vector_ops(
    info: InfoModel,
    choice: SplitChoice,
    h: HeaderModel,
    infos: Seq<InfoModel>,
    at: Place,
    near: NearMvs,
) -> Seq<(u8, bool)> {
    match info.inter_mode {
        InterMode::New => difference_ops(info.mv, modes::limited(near.best, at), h.probs.mv),
        InterMode::Split => split_ops(
            split_context(h, infos, at, near, choice.layout),
            info.sub_mvs,
            choice.how,
        ),
        _ => Seq::empty(),
    }
}

/// How a macroblock that is predicted from frame `f` is written.
pub open spec fn inter_mb_ops(
    info: InfoModel,
    choice: SplitChoice,
    h: HeaderModel,
    infos: Seq<InfoModel>,
    at: Place,
) -> Seq<(u8, bool)> {
    let f = info.reference->0;
    let near = modes::near_mvs(infos, at.k, at.cols, h.coded, f);
    segment_ops(h.coded, info.segment_id) + skip_ops(h.coded, info.skip) + range_coder::one_op(
        h.prob_intra,
        true,
    ) + reference_ops(h, f) + inter_mode_ops(info.inter_mode, near.weights) + info_vector_ops(
        info,
        choice,
        h,
        infos,
        at,
        near,
    )
}

pub proof fn lemma_segment_reads_back(d: DecState, h: CodedHeaderModel, segment: int)
    requires
        segment_fits(h, segment),
        range_coder::decodes(d, segment_ops(h, segment)),
    ensures
        modes::read_segment(d, h) == (
            segment,
            range_coder::dec_after(d, segment_ops(h, segment)),
        ),
{
    if h.segmentation is Some && h.segmentation->0.update_map {
        let p = modes::segment_prob(h, 0);
        let q = modes::segment_prob(
            h,
            if segment >= 2 {
                2
            } else {
                1
            },
        );
        let a = range_coder::one_op(p, segment >= 2);
        let b = range_coder::one_op(q, segment % 2 == 1);
        range_coder::lemma_decodes_append(d, a, b);
        range_coder::lemma_decodes_one(d, p, segment >= 2);
        range_coder::lemma_decodes_one(range_coder::dec_next(d, p), q, segment % 2 == 1);
    } else {
        range_coder::lemma_decodes_nothing(d);
    }
}

pub proof fn lemma_skip_reads_back(d: DecState, h: CodedHeaderModel, skip: bool)
    requires
        h.prob_skip is None ==> !skip,
        range_coder::decodes(d, skip_ops(h, skip)),
    ensures
        modes::read_skip(d, h.prob_skip) == (skip, range_coder::dec_after(d, skip_ops(h, skip))),
{
    match h.prob_skip {
        Some(p) => range_coder::lemma_decodes_one(d, p, skip),
        None => range_coder::lemma_decodes_nothing(d),
    }
}

proof fn lemma_reference_reads_back(d: DecState, h: HeaderModel, f: RefFrame)
    requires
        range_coder::decodes(d, reference_ops(h, f)),
    ensures
        modes::read_reference(d, h) == (f, range_coder::dec_after(d, reference_ops(h, f))),
{
    let a = range_coder::one_op(h.prob_last, f != RefFrame::Last);
    let b = range_coder::one_op(h.prob_gf, f == RefFrame::AltRef);
    range_coder::lemma_decodes_append(d, a, b);
    range_coder::lemma_decodes_one(d, h.prob_last, f != RefFrame::Last);
    range_coder::lemma_decodes_one(
        range_coder::dec_next(d, h.prob_last),
        h.prob_gf,
        f == RefFrame::AltRef,
    );
}

proof fn lemma_inter_mode_reads_back(d: DecState, mode: InterMode, w: Seq<int>)
    requires
        w.len() == 4,
        forall|i: int| 0 <= i < 4 ==> 0 <= #[trigger] w[i] <= 5,
        range_coder::decodes(d, inter_mode_ops(mode, w)),
    ensures
        ({
            let r = trees::read_tree_from(d, MV_REF_TREE@, modes::mode_probs(w), 0);
            &&& modes::inter_mode_of(r.0) == mode
            &&& r.1 == range_coder::dec_after(d, inter_mode_ops(mode, w))
        }),
{
    let p = modes::mode_probs(w);
    assert(w[0] <= 5 && w[1] <= 5 && w[2] <= 5 && w[3] <= 5);
    assert(p[0] == MV_COUNTS_TO_PROBS[w[0]][0]);
    assert(p[1] == MV_COUNTS_TO_PROBS[w[1]][1]);
    assert(p[2] == MV_COUNTS_TO_PROBS[w[2]][2]);
    assert(p[3] == MV_COUNTS_TO_PROBS[w[3]][3]);
    let a = range_coder::one_op(p[0], mode != InterMode::Zero);
    let b = range_coder::one_op(p[1], mode != InterMode::Nearest);
    let c = range_coder::one_op(p[2], mode != InterMode::Near);
    let e = range_coder::one_op(p[3], mode != InterMode::New);
    range_coder::lemma_decodes_append(d, a + b + c, e);
    range_coder::lemma_decodes_append(d, a + b, c);
    range_coder::lemma_decodes_append(d, a, b);
    range_coder::lemma_decodes_one(d, p[0], mode != InterMode::Zero);
    let d1 = range_coder::dec_next(d, p[0]);
    range_coder::lemma_decodes_one(d1, p[1], mode != InterMode::Nearest);
    let d2 = range_coder::dec_next(d1, p[1]);
    range_coder::lemma_decodes_one(d2, p[2], mode != InterMode::Near);
    let d3 = range_coder::dec_next(d2, p[2]);
    range_coder::lemma_decodes_one(d3, p[3], mode != InterMode::New);
    reveal_with_fuel(trees::read_tree_from, 5);
}

proof fn lemma_info_vectors_read_back(
    d: DecState,
    info: InfoModel,
    choice: SplitChoice,
    h: HeaderModel,
    infos: Seq<InfoModel>,
    at: Place,
    near: NearMvs,
)
    requires
        vector_context(h.probs.mv),
        vectors_fit(info, choice, h, infos, at, near),
        range_coder::decodes(d, info_vector_ops(info, choice, h, infos, at, near)),
    ensures
        modes::read_vectors(d, h, infos, at, near, info.inter_mode) == (
            info.sub_mvs,
            range_coder::dec_after(d, info_vector_ops(info, choice, h, infos, at, near)),
        ),
{
    let m = info.mv;
    range_coder::lemma_decodes_nothing(d);
    match info.inter_mode {
        InterMode::New => {
            law_new_vector_reads_back(d, h, infos, at, near, m);
            assert(info.sub_mvs =~= Seq::new(16, |i: int| m));
        },
        InterMode::Split => {
            law_split_vectors_read_back(
                d,
                h,
                infos,
                at,
                near,
                choice.layout,
                info.sub_mvs,
                choice.how,
            );
        },
        _ => {
            assert(info.sub_mvs =~= Seq::new(16, |i: int| m));
            let r = modes::read_vectors(d, h, infos, at, near, info.inter_mode);
            assert(r.0 =~= Seq::new(16, |i: int| m));
        },
    }
}

/// An inter macroblock has no intra modes.
pub open spec fn plain_inter(info: InfoModel) -> bool {
    &&& info.reference is Some
    &&& info.y_mode == IntraYMode::Dc
    &&& info.uv_mode == IntraUvMode::Dc
    &&& info.bmodes == Seq::new(16, |i: int| IntraBmode::Dc)
}

/// The modes and vectors of an inter macroblock read back as they were written,
/// and the decoder stands behind them.
#[verifier::spinoff_prover]
#[verifier::rlimit(50)]
pub proof fn law_inter_macroblock_reads_back(
    d: DecState,
    info: InfoModel,
    choice: SplitChoice,
    h: HeaderModel,
    infos: Seq<InfoModel>,
    at: Place,
)
    requires
        vector_context(h.probs.mv),
        plain_inter(info),
        segment_fits(h.coded, info.segment_id),
        h.coded.prob_skip is None ==> !info.skip,
        vectors_fit(
            info,
            choice,
            h,
            infos,
            at,
            modes::near_mvs(infos, at.k, at.cols, h.coded, info.reference->0),
        ),
        range_coder::decodes(d, inter_mb_ops(info, choice, h, infos, at)),
    ensures
        modes::read_inter_info(d, h, infos, at) == (
            info,
            range_coder::dec_after(d, inter_mb_ops(info, choice, h, infos, at)),
        ),
{
    reveal(modes::read_inter_info);
    let f = info.reference->0;
    let near = modes::near_mvs(infos, at.k, at.cols, h.coded, f);
    let s1 = segment_ops(h.coded, info.segment_id);
    let s2 = skip_ops(h.coded, info.skip);
    let s3 = range_coder::one_op(h.prob_intra, true);
    let s4 = reference_ops(h, f);
    let s5 = inter_mode_ops(info.inter_mode, near.weights);
    let s6 = info_vector_ops(info, choice, h, infos, at, near);
    range_coder::lemma_decodes_append(d, s1 + s2 + s3 + s4 + s5, s6);
    range_coder::lemma_decodes_append(d, s1 + s2 + s3 + s4, s5);
    range_coder::lemma_decodes_append(d, s1 + s2 + s3, s4);
    range_coder::lemma_decodes_append(d, s1 + s2, s3);
    range_coder::lemma_decodes_append(d, s1, s2);
    lemma_segment_reads_back(d, h.coded, info.segment_id);
    let d1 = range_coder::dec_after(d, s1);
    lemma_skip_reads_back(d1, h.coded, info.skip);
    let d2 = range_coder::dec_after(d1, s2);
    range_coder::lemma_decodes_one(d2, h.prob_intra, true);
    let d3 = range_coder::dec_after(d2, s3);
    lemma_reference_reads_back(d3, h, f);
    let d4 = range_coder::dec_after(d3, s4);
    assert forall|i: int| 0 <= i < 4 implies 0 <= #[trigger] near.weights[i] <= 5 by {
        modes::law_weights_are_small(infos, at.k, at.cols, h.coded, f, i);
    }
    lemma_inter_mode_reads_back(d4, info.inter_mode, near.weights);
    let d5 = range_coder::dec_after(d4, s5);
    lemma_info_vectors_read_back(d5, info, choice, h, infos, at, near);
    let r = modes::read_inter_info(d, h, infos, at);
    assert(r.0 =~= info);
}

/// How the luma mode of an intra macroblock is written on an inter frame.
pub open spec fn y_mode_ops(mode: IntraYMode, p: Seq<u8>) -> Seq<(u8, bool)> {
    match mode {
        IntraYMode::Dc => range_coder::one_op(p[0], false),
        IntraYMode::V => range_coder::one_op(p[0], true) + range_coder::one_op(p[1], false)
            + range_coder::one_op(p[2], false),
        IntraYMode::H => range_coder::one_op(p[0], true) + range_coder::one_op(p[1], false)
            + range_coder::one_op(p[2], true),
        IntraYMode::Tm => range_coder::one_op(p[0], true) + range_coder::one_op(p[1], true)
            + range_coder::one_op(p[3], false),
        IntraYMode::B => range_coder::one_op(p[0], true) + range_coder::one_op(p[1], true)
            + range_coder::one_op(p[3], true),
    }
}

/// How the chroma mode of an intra macroblock is written.
pub open spec fn uv_mode_ops(mode: IntraUvMode, p: Seq<u8>) -> Seq<(u8, bool)> {
    match mode {
        IntraUvMode::Dc => range_coder::one_op(p[0], false),
        IntraUvMode::V => range_coder::one_op(p[0], true) + range_coder::one_op(p[1], false),
        IntraUvMode::H => range_coder::one_op(p[0], true) + range_coder::one_op(p[1], true)
            + range_coder::one_op(p[2], false),
        IntraUvMode::Tm => range_coder::one_op(p[0], true) + range_coder::one_op(p[1], true)
            + range_coder::one_op(p[2], true),
    }
}

/// How the modes of the first `n` subblocks are written, each on its own.
pub open spec fn plain_bmodes_ops(bmodes: Seq<IntraBmode>, n: nat) -> Seq<(u8, bool)>
    decreases n,
{
    if n == 0 {
        Seq::empty()
    } else {
        plain_bmodes_ops(bmodes, (n - 1) as nat) + key_law::b_mode_bits(
            bmodes[n - 1],
            DEFAULT_BMODE_PROBS@,
        )
    }
}

/// How an intra macroblock is written on an inter frame.
pub open spec fn intra_mb_ops(info: InfoModel, h: HeaderModel) -> Seq<(u8, bool)> {
    segment_ops(h.coded, info.segment_id) + skip_ops(h.coded, info.skip) + range_coder::one_op(
        h.prob_intra,
        false,
    ) + y_mode_ops(info.y_mode, h.probs.ymode) + (if info.y_mode is B {
        plain_bmodes_ops(info.bmodes, 16)
    } else {
        Seq::empty()
    }) + uv_mode_ops(info.uv_mode, h.probs.uv_mode)
}

proof fn lemma_y_mode_reads_back(d: DecState, mode: IntraYMode, p: Seq<u8>)
    requires
        p.len() == 4,
        range_coder::decodes(d, y_mode_ops(mode, p)),
    ensures
        ({
            let r = trees::read_tree_from(d, YMODE_TREE@, p, 0);
            &&& macroblock::y_mode_of(r.0) == mode
            &&& r.1 == range_coder::dec_after(d, y_mode_ops(mode, p))
        }),
{
    let second = mode is Tm || mode is B;
    let q = if second {
        p[3]
    } else {
        p[2]
    };
    let third = mode is H || mode is B;
    let a = range_coder::one_op(p[0], !(mode is Dc));
    let b = range_coder::one_op(p[1], second);
    let c = range_coder::one_op(q, third);
    range_coder::lemma_decodes_append(d, a + b, c);
    range_coder::lemma_decodes_append(d, a, b);
    range_coder::lemma_decodes_one(d, p[0], !(mode is Dc));
    let d1 = range_coder::dec_next(d, p[0]);
    range_coder::lemma_decodes_one(d1, p[1], second);
    let d2 = range_coder::dec_next(d1, p[1]);
    range_coder::lemma_decodes_one(d2, q, third);
    reveal_with_fuel(trees::read_tree_from, 4);
}

pub proof fn lemma_uv_mode_reads_back(d: DecState, mode: IntraUvMode, p: Seq<u8>)
    requires
        p.len() == 3,
        range_coder::decodes(d, uv_mode_ops(mode, p)),
    ensures
        ({
            let r = trees::read_tree_from(d, UV_MODE_TREE@, p, 0);
            &&& macroblock::uv_mode_of(r.0) == mode
            &&& r.1 == range_coder::dec_after(d, uv_mode_ops(mode, p))
        }),
{
    let a = range_coder::one_op(p[0], !(mode is Dc));
    let b = range_coder::one_op(p[1], !(mode is V));
    let c = range_coder::one_op(p[2], !(mode is H));
    range_coder::lemma_decodes_append(d, a + b, c);
    range_coder::lemma_decodes_append(d, a, b);
    range_coder::lemma_decodes_one(d, p[0], !(mode is Dc));
    let d1 = range_coder::dec_next(d, p[0]);
    range_coder::lemma_decodes_one(d1, p[1], !(mode is V));
    let d2 = range_coder::dec_next(d1, p[1]);
    range_coder::lemma_decodes_one(d2, p[2], !(mode is H));
    reveal_with_fuel(trees::read_tree_from, 4);
}

proof fn lemma_plain_bmodes_read_back(d: DecState, bmodes: Seq<IntraBmode>, n: nat)
    requires
        n <= bmodes.len(),
        range_coder::decodes(d, plain_bmodes_ops(bmodes, n)),
    ensures
        modes::read_plain_bmodes(d, n) == (
            bmodes.take(n as int),
            range_coder::dec_after(d, plain_bmodes_ops(bmodes, n)),
        ),
    decreases n,
{
    if n == 0 {
        range_coder::lemma_decodes_nothing(d);
        assert(bmodes.take(0) =~= Seq::empty());
    } else {
        let i = n - 1;
        let before = plain_bmodes_ops(bmodes, i as nat);
        let ops = key_law::b_mode_bits(bmodes[i], DEFAULT_BMODE_PROBS@);
        range_coder::lemma_decodes_append(d, before, ops);
        lemma_plain_bmodes_read_back(d, bmodes, i as nat);
        key_law::law_subblock_mode_reads_back(
            range_coder::dec_after(d, before),
            bmodes[i],
            DEFAULT_BMODE_PROBS@,
        );
        assert(bmodes.take(n as int) =~= bmodes.take(i).push(bmodes[i]));
    }
}

/// The modes of an intra macroblock on an inter frame read back as they were
/// written, and the decoder stands behind them.
#[verifier::spinoff_prover]
#[verifier::rlimit(50)]
pub proof fn law_intra_macroblock_reads_back(
    d: DecState,
    info: InfoModel,
    h: HeaderModel,
    infos: Seq<InfoModel>,
    at: Place,
)
    requires
        h.probs.ymode.len() == 4,
        h.probs.uv_mode.len() == 3,
        mode_writer::plain_intra(InfoModel { segment_id: 0, ..info }),
        segment_fits(h.coded, info.segment_id),
        h.coded.prob_skip is None ==> !info.skip,
        range_coder::decodes(d, intra_mb_ops(info, h)),
    ensures
        modes::read_inter_info(d, h, infos, at) == (
            info,
            range_coder::dec_after(d, intra_mb_ops(info, h)),
        ),
{
    reveal(modes::read_inter_info);
    let s1 = segment_ops(h.coded, info.segment_id);
    let s2 = skip_ops(h.coded, info.skip);
    let s3 = range_coder::one_op(h.prob_intra, false);
    let s4 = y_mode_ops(info.y_mode, h.probs.ymode);
    let s5 = if info.y_mode is B {
        plain_bmodes_ops(info.bmodes, 16)
    } else {
        Seq::empty()
    };
    let s6 = uv_mode_ops(info.uv_mode, h.probs.uv_mode);
    range_coder::lemma_decodes_append(d, s1 + s2 + s3 + s4 + s5, s6);
    range_coder::lemma_decodes_append(d, s1 + s2 + s3 + s4, s5);
    range_coder::lemma_decodes_append(d, s1 + s2 + s3, s4);
    range_coder::lemma_decodes_append(d, s1 + s2, s3);
    range_coder::lemma_decodes_append(d, s1, s2);
    lemma_segment_reads_back(d, h.coded, info.segment_id);
    let d1 = range_coder::dec_after(d, s1);
    lemma_skip_reads_back(d1, h.coded, info.skip);
    let d2 = range_coder::dec_after(d1, s2);
    range_coder::lemma_decodes_one(d2, h.prob_intra, false);
    let d3 = range_coder::dec_after(d2, s3);
    lemma_y_mode_reads_back(d3, info.y_mode, h.probs.ymode);
    let d4 = range_coder::dec_after(d3, s4);
    range_coder::lemma_decodes_nothing(d4);
    if info.y_mode is B {
        lemma_plain_bmodes_read_back(d4, info.bmodes, 16);
        assert(info.bmodes.take(16) =~= info.bmodes);
    }
    let d5 = range_coder::dec_after(d4, s5);
    lemma_uv_mode_reads_back(d5, info.uv_mode, h.probs.uv_mode);
    let r = modes::read_inter_info(d, h, infos, at);
    assert(r.0 =~= info);
}

/// How a macroblock of an inter frame is written.
pub open spec fn mb_ops(
    info: InfoModel,
    choice: SplitChoice,
    h: HeaderModel,
    infos: Seq<InfoModel>,
    at: Place,
) -> Seq<(u8, bool)> {
    if info.reference is Some {
        inter_mb_ops(info, choice, h, infos, at)
    } else {
        intra_mb_ops(info, h)
    }
}

/// A macroblock that can be written behind those in `infos`.
pub open spec fn mb_fits(
    info: InfoModel,
    choice: SplitChoice,
    h: HeaderModel,
    infos: Seq<InfoModel>,
    at: Place,
) -> bool {
    &&& segment_fits(h.coded, info.segment_id)
    &&& h.coded.prob_skip is None ==> !info.skip
    &&& if info.reference is Some {
        &&& plain_inter(info)
        &&& vectors_fit(
            info,
            choice,
            h,
            infos,
            at,
            modes::near_mvs(infos, at.k, at.cols, h.coded, info.reference->0),
        )
    } else {
        mode_writer::plain_intra(InfoModel { segment_id: 0, ..info })
    }
}

/// How the first `n` macroblocks of an inter frame are written.
pub open spec fn inter_frame_ops(
    infos: Seq<InfoModel>,
    choices: Seq<SplitChoice>,
    h: HeaderModel,
    cols: int,
    rows: int,
    n: nat,
) -> Seq<(u8, bool)>
    decreases n,
{
    if n == 0 {
        Seq::empty()
    } else {
        let k = n - 1;
        inter_frame_ops(infos, choices, h, cols, rows, k as nat) + mb_ops(
            infos[k],
            choices[k],
            h,
            infos.take(k),
            Place { k, cols, rows },
        )
    }
}

/// All macroblocks of an inter frame read back as they were written.
pub proof fn law_inter_frame_reads_back(
    d: DecState,
    infos: Seq<InfoModel>,
    choices: Seq<SplitChoice>,
    h: HeaderModel,
    cols: int,
    rows: int,
    n: nat,
)
    requires
        n <= infos.len(),
        vector_context(h.probs.mv),
        h.probs.ymode.len() == 4,
        h.probs.uv_mode.len() == 3,
        forall|k: int|
            0 <= k < n ==> mb_fits(
                #[trigger] infos[k],
                choices[k],
                h,
                infos.take(k),
                Place { k, cols, rows },
            ),
        range_coder::decodes(d, inter_frame_ops(infos, choices, h, cols, rows, n)),
    ensures
        decoder::read_infos(d, h, false, cols, rows, n) == (
            infos.take(n as int),
            range_coder::dec_after(d, inter_frame_ops(infos, choices, h, cols, rows, n)),
        ),
    decreases n,
{
    reveal(decoder::read_infos);
    if n == 0 {
        range_coder::lemma_decodes_nothing(d);
        assert(infos.take(0) =~= Seq::empty());
    } else {
        let k = n - 1;
        let past = infos.take(k);
        let at = Place { k, cols, rows };
        let before = inter_frame_ops(infos, choices, h, cols, rows, k as nat);
        let ops = mb_ops(infos[k], choices[k], h, past, at);
        range_coder::lemma_decodes_append(d, before, ops);
        law_inter_frame_reads_back(d, infos, choices, h, cols, rows, k as nat);
        let d1 = range_coder::dec_after(d, before);
        assert(mb_fits(infos[k], choices[k], h, past, at));
        if infos[k].reference is Some {
            law_inter_macroblock_reads_back(d1, infos[k], choices[k], h, past, at);
        } else {
            law_intra_macroblock_reads_back(d1, infos[k], h, past, at);
        }
        assert(infos.take(n as int) =~= past.push(infos[k]));
    }
}

/// A macroblock of a key frame with segments: its segment, then what it has on
/// a frame without.
pub proof fn law_segmented_macroblock_reads_back(
    d: DecState,
    h: CodedHeaderModel,
    infos: Seq<InfoModel>,
    k: int,
    cols: int,
    prob: u8,
    segment: int,
)
    requires
        0 <= k < infos.len(),
        cols >= 1,
        h.prob_skip == Some(prob),
        segment_fits(h, segment),
        mode_writer::plain_intra(infos[k]),
        range_coder::decodes(
            d,
            segment_ops(h, segment) + mode_writer::mb_mode_ops(infos, k, cols, prob),
        ),
    ensures
        modes::read_key_info(d, h, infos.take(k), k, cols) == (
            InfoModel { segment_id: segment, ..infos[k] },
            range_coder::dec_after(
                d,
                segment_ops(h, segment) + mode_writer::mb_mode_ops(infos, k, cols, prob),
            ),
        ),
{
    let a = segment_ops(h, segment);
    let b = mode_writer::mb_mode_ops(infos, k, cols, prob);
    range_coder::lemma_decodes_append(d, a, b);
    lemma_segment_reads_back(d, h, segment);
    let plain = CodedHeaderModel { segmentation: None, ..h };
    let d1 = range_coder::dec_after(d, a);
    mode_writer::law_mb_modes_read_back(d1, plain, infos, k, cols, prob);
    reveal(modes::read_key_info);
}

} // verus!
