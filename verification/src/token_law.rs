//! How coefficients stand in the stream.
use crate::frame;
use crate::mb_tokens;
use crate::mb_tokens::{ABOVE_CTX, LEFT_CTX};
use crate::range_coder;
use crate::range_coder::DecState;
use crate::tables::{CAT_PROBS, COEFF_BANDS, COEFF_TREE, UNZIGZAG, ZIGZAG};
use crate::tokens;
use crate::tokens::BlockType;
use crate::trees;
use vstd::arithmetic::power2;
use vstd::prelude::*;

verus! {

/// One bit with node `t`'s probability.
pub open spec fn node_op(p: Seq<u8>, t: int, bit: bool) -> Seq<(u8, bool)> {
    range_coder::one_op(p[t], bit)
}

/// How a magnitude is written: not the end, unless that is out of the question
/// behind a zero; zero or not; one or not; and above that by classes of growing
/// size.
pub open spec fn class_ops(m: int, p: Seq<u8>, after_zero: bool) -> Seq<(u8, bool)> {
    let start = if after_zero {
        Seq::empty()
    } else {
        node_op(p, 0, true)
    };
    let some = start + node_op(p, 1, true);
    let many = some + node_op(p, 2, true);
    let few = many + node_op(p, 3, false);
    let lots = many + node_op(p, 3, true);
    if m == 0 {
        start + node_op(p, 1, false)
    } else if m == 1 {
        some + node_op(p, 2, false)
    } else if m == 2 {
        few + node_op(p, 4, false)
    } else if m <= 4 {
        few + node_op(p, 4, true) + node_op(p, 5, m == 4)
    } else if m < 11 {
        lots + node_op(p, 6, false) + node_op(p, 7, m >= 7)
    } else if m < 35 {
        lots + node_op(p, 6, true) + node_op(p, 8, false) + node_op(p, 9, m >= 19)
    } else {
        lots + node_op(p, 6, true) + node_op(p, 8, true) + node_op(p, 10, m >= 67)
    }
}

/// The bits of `x` from the highest down, with the given probabilities.
pub open spec fn bits_ops(x: int, probs: Seq<u8>) -> Seq<(u8, bool)>
    decreases probs.len(),
{
    if probs.len() == 0 {
        Seq::empty()
    } else {
        bits_ops(x / 2, probs.drop_last()) + range_coder::one_op(probs.last(), x % 2 == 1)
    }
}

/// How far a magnitude is above the least of its class.
pub open spec fn rest_ops(m: int) -> Seq<(u8, bool)> {
    if m < 5 {
        Seq::empty()
    } else if m < 7 {
        bits_ops(m - 5, seq![159])
    } else if m < 11 {
        bits_ops(m - 7, seq![165, 145])
    } else if m < 19 {
        bits_ops(m - 11, seq![173, 148, 140])
    } else if m < 35 {
        bits_ops(m - 19, seq![176, 155, 140, 135])
    } else if m < 67 {
        bits_ops(m - 35, seq![180, 157, 141, 134, 130])
    } else {
        bits_ops(m - 67, seq![254, 254, 243, 230, 196, 177, 153, 140, 133, 130, 129])
    }
}

/// One more bit.
proof fn lemma_bit(d: DecState, before: Seq<(u8, bool)>, prob: u8, bit: bool)
    requires
        range_coder::decodes(d, before + range_coder::one_op(prob, bit)),
    ensures
        range_coder::decodes(d, before),
        range_coder::dec_bit(range_coder::dec_after(d, before), prob) == bit,
        range_coder::dec_after(d, before + range_coder::one_op(prob, bit))
            == range_coder::dec_next(range_coder::dec_after(d, before), prob),
{
    range_coder::lemma_decodes_append(d, before, range_coder::one_op(prob, bit));
    range_coder::lemma_decodes_one(range_coder::dec_after(d, before), prob, bit);
}

/// One more node of the token tree.
proof fn lemma_node(d: DecState, p: Seq<u8>, before: Seq<(u8, bool)>, t: int, bit: bool)
    requires
        0 <= t < 11,
        range_coder::decodes(d, before + node_op(p, t, bit)),
    ensures
        ({
            let d1 = range_coder::dec_after(d, before);
            let d2 = range_coder::dec_after(d, before + node_op(p, t, bit));
            let next = COEFF_TREE[2 * t + (if bit { 1int } else { 0 })] as int;
            &&& range_coder::decodes(d, before)
            &&& trees::read_tree_from(d1, COEFF_TREE@, p, 2 * t) == if next <= 0 {
                (-next, d2)
            } else {
                trees::read_tree_from(d2, COEFF_TREE@, p, next)
            }
        }),
{
    lemma_bit(d, before, p[t], bit);
    assert((2 * t) / 2 == t);
    assert(t == 0 || t == 1 || t == 2 || t == 3 || t == 4 || t == 5 || t == 6 || t == 7 || t == 8
        || t == 9 || t == 10);
}

proof fn lemma_class_reads_back(d: DecState, m: int, p: Seq<u8>, after_zero: bool)
    requires
        0 <= m,
        range_coder::decodes(d, class_ops(m, p, after_zero)),
    ensures
        tokens::read_token(d, p, after_zero) == (
            tokens::token_number(m),
            range_coder::dec_after(d, class_ops(m, p, after_zero)),
        ),
{
    reveal(tokens::read_token);
    let start = if after_zero {
        Seq::empty()
    } else {
        node_op(p, 0, true)
    };
    let some = start + node_op(p, 1, true);
    let many = some + node_op(p, 2, true);
    let few = many + node_op(p, 3, false);
    let lots = many + node_op(p, 3, true);
    if m == 0 {
        lemma_node(d, p, start, 1, false);
    } else if m == 1 {
        lemma_node(d, p, some, 2, false);
        lemma_node(d, p, start, 1, true);
    } else if m == 2 {
        lemma_node(d, p, few, 4, false);
        lemma_node(d, p, many, 3, false);
        lemma_node(d, p, some, 2, true);
        lemma_node(d, p, start, 1, true);
    } else if m <= 4 {
        lemma_node(d, p, few + node_op(p, 4, true), 5, m == 4);
        lemma_node(d, p, few, 4, true);
        lemma_node(d, p, many, 3, false);
        lemma_node(d, p, some, 2, true);
        lemma_node(d, p, start, 1, true);
    } else if m < 11 {
        lemma_node(d, p, lots + node_op(p, 6, false), 7, m >= 7);
        lemma_node(d, p, lots, 6, false);
        lemma_node(d, p, many, 3, true);
        lemma_node(d, p, some, 2, true);
        lemma_node(d, p, start, 1, true);
    } else if m < 35 {
        lemma_node(d, p, lots + node_op(p, 6, true) + node_op(p, 8, false), 9, m >= 19);
        lemma_node(d, p, lots + node_op(p, 6, true), 8, false);
        lemma_node(d, p, lots, 6, true);
        lemma_node(d, p, many, 3, true);
        lemma_node(d, p, some, 2, true);
        lemma_node(d, p, start, 1, true);
    } else {
        lemma_node(d, p, lots + node_op(p, 6, true) + node_op(p, 8, true), 10, m >= 67);
        lemma_node(d, p, lots + node_op(p, 6, true), 8, true);
        lemma_node(d, p, lots, 6, true);
        lemma_node(d, p, many, 3, true);
        lemma_node(d, p, some, 2, true);
        lemma_node(d, p, start, 1, true);
    }
    range_coder::lemma_decodes_nothing(d);
    if !after_zero {
        assert(Seq::<(u8, bool)>::empty() + node_op(p, 0, true) =~= start);
        lemma_node(d, p, Seq::empty(), 0, true);
    }
}

proof fn lemma_bits_read_back(d: DecState, x: int, probs: Seq<u8>, cat: int)
    requires
        0 <= cat < 6,
        probs.len() <= 11,
        0 <= x < power2::pow2(probs.len()),
        forall|i: int| 0 <= i < probs.len() ==> #[trigger] probs[i] == CAT_PROBS[cat][i],
        range_coder::decodes(d, bits_ops(x, probs)),
    ensures
        tokens::extra_value(d, cat, probs.len()) == x,
        tokens::extra_skip(d, cat, probs.len()) == range_coder::dec_after(d, bits_ops(x, probs)),
    decreases probs.len(),
{
    power2::lemma2_to64();
    if probs.len() == 0 {
        range_coder::lemma_decodes_nothing(d);
    } else {
        let before = probs.drop_last();
        power2::lemma_pow2_unfold(probs.len());
        lemma_bit(d, bits_ops(x / 2, before), probs.last(), x % 2 == 1);
        lemma_bits_read_back(d, x / 2, before, cat);
    }
}

proof fn lemma_rest_reads_back(d: DecState, m: int)
    requires
        0 <= m < 67 + 2048,
        range_coder::decodes(d, rest_ops(m)),
    ensures
        tokens::read_magnitude(d, tokens::token_number(m)) == (
            m,
            range_coder::dec_after(d, rest_ops(m)),
        ),
{
    power2::lemma2_to64();
    if m < 5 {
        range_coder::lemma_decodes_nothing(d);
    } else if m < 7 {
        lemma_bits_read_back(d, m - 5, seq![159], 0);
    } else if m < 11 {
        lemma_bits_read_back(d, m - 7, seq![165, 145], 1);
    } else if m < 19 {
        lemma_bits_read_back(d, m - 11, seq![173, 148, 140], 2);
    } else if m < 35 {
        lemma_bits_read_back(d, m - 19, seq![176, 155, 140, 135], 3);
    } else if m < 67 {
        lemma_bits_read_back(d, m - 35, seq![180, 157, 141, 134, 130], 4);
    } else {
        lemma_bits_read_back(
            d,
            m - 67,
            seq![254, 254, 243, 230, 196, 177, 153, 140, 133, 130, 129],
            5,
        );
    }
}

/// How a coefficient is written: its magnitude, and its sign unless it is zero.
pub open spec fn value_ops(v: int, p: Seq<u8>, after_zero: bool) -> Seq<(u8, bool)> {
    let m = if v < 0 {
        -v
    } else {
        v
    };
    class_ops(m, p, after_zero) + rest_ops(m) + (if v == 0 {
        Seq::empty()
    } else {
        range_coder::one_op(128, v < 0)
    })
}

/// A coefficient reads back as it was written, by classes of magnitudes with
/// extra bits of given odds.
pub proof fn law_coefficient_reads_back(d: DecState, v: int, p: Seq<u8>, after_zero: bool)
    requires
        -2115 < v < 2115,
        range_coder::decodes(d, value_ops(v, p, after_zero)),
    ensures
        ({
            let (token, d1) = tokens::read_token(d, p, after_zero);
            &&& token != 11
            &&& tokens::read_value(d1, token) == (
                v,
                range_coder::dec_after(d, value_ops(v, p, after_zero)),
            )
        }),
{
    let m = if v < 0 {
        -v
    } else {
        v
    };
    let a = class_ops(m, p, after_zero);
    let b = rest_ops(m);
    let c = if v == 0 {
        Seq::empty()
    } else {
        range_coder::one_op(128, v < 0)
    };
    range_coder::lemma_decodes_append(d, a + b, c);
    range_coder::lemma_decodes_append(d, a, b);
    lemma_class_reads_back(d, m, p, after_zero);
    let d1 = range_coder::dec_after(d, a);
    lemma_rest_reads_back(d1, m);
    let d2 = range_coder::dec_after(d1, b);
    range_coder::lemma_decodes_nothing(d2);
    range_coder::lemma_decodes_one(d2, 128, v < 0);
}

/// The end of a block is a single bit, which does not come behind a zero.
pub proof fn law_end_reads_back(d: DecState, p: Seq<u8>)
    requires
        !range_coder::dec_bit(d, p[0]),
    ensures
        tokens::read_token(d, p, false) == (11int, range_coder::dec_next(d, p[0])),
{
    reveal(tokens::read_token);
}

/// The band of a position: the first ones and the last stand alone.
pub open spec fn band_of(i: int) -> int {
    if i <= 3 {
        i
    } else if i == 4 || 7 <= i <= 14 {
        6
    } else if i == 5 {
        4
    } else if i == 6 {
        5
    } else {
        7
    }
}

/// The probabilities of a coefficient go by the kind of its block, the band of
/// its position, and by how large the coefficient before it was: zero, one or
/// more.
pub proof fn law_probabilities_go_by_place(probs: Seq<u8>, kind: BlockType, i: int, m: int, t: int)
    requires
        0 <= i < 16,
        0 <= m,
        0 <= t < 11,
    ensures
        ({
            let k = match kind {
                BlockType::YAfterY2 => 0int,
                BlockType::Y2 => 1,
                BlockType::UV => 2,
                BlockType::YNoY2 => 3,
            };
            let size = if m > 2 {
                2
            } else {
                m
            };
            tokens::token_probs(probs, kind.plane(), i, tokens::next_ctx(m))[t] == probs[((k * 8
                + band_of(i)) * 3 + size) * 11 + t]
        }),
{
    assert(i == 0 || i == 1 || i == 2 || i == 3 || i == 4 || i == 5 || i == 6 || i == 7 || i == 8
        || i == 9 || i == 10 || i == 11 || i == 12 || i == 13 || i == 14 || i == 15);
    assert(COEFF_BANDS[i] == band_of(i));
}

/// Blocks beside each other on one edge of a macroblock: four of luma, two of
/// each chroma plane, and one of the second order.
pub open spec fn column_of(b: int) -> int {
    if b < 16 {
        b % 4
    } else if b < 20 {
        4 + b % 2
    } else if b < 24 {
        6 + b % 2
    } else {
        8
    }
}

/// Blocks above each other on one edge of a macroblock.
pub open spec fn row_of(b: int) -> int {
    if b < 16 {
        b / 4
    } else if b < 20 {
        4 + (b - 16) / 2
    } else if b < 24 {
        6 + (b - 20) / 2
    } else {
        8
    }
}

/// The context of a block is the number of its two neighbours, the one above it
/// and the one to its left in the same plane, that are not empty.
pub proof fn law_context_counts_neighbors(above: Seq<bool>, left: Seq<bool>, b: int)
    requires
        0 <= b < 25,
    ensures
        mb_tokens::block_ctx(above, left, b) == (if above[column_of(b)] {
            1int
        } else {
            0
        }) + (if left[row_of(b)] {
            1int
        } else {
            0
        }),
{
    assert(b == 0 || b == 1 || b == 2 || b == 3 || b == 4 || b == 5 || b == 6 || b == 7 || b == 8
        || b == 9 || b == 10 || b == 11 || b == 12 || b == 13 || b == 14 || b == 15 || b == 16 || b
        == 17 || b == 18 || b == 19 || b == 20 || b == 21 || b == 22 || b == 23 || b == 24);
}

/// A macroblock without residue leaves empty blocks behind; only where it has no
/// second order, the last one that had goes on to count.
pub proof fn law_skipped_macroblock_is_empty(c: Seq<bool>, has_y2: bool, i: int)
    requires
        0 <= i < 9,
    ensures
        mb_tokens::skipped_ctx(c, has_y2)[i] == (i == 8 && !has_y2 && c[8]),
        mb_tokens::skipped_ctx(c, has_y2).len() == 9,
{
}

/// The scan goes over a block along its diagonals, away from the first
/// coefficient, every other one downwards.
#[verifier::spinoff_prover]
#[verifier::rlimit(50)]
pub proof fn law_scan_follows_diagonals(i: int, j: int)
    requires
        0 <= i < j < 16,
    ensures
        ({
            let (a, b) = (ZIGZAG[i] as int, ZIGZAG[j] as int);
            let (p, q) = (a / 4 + a % 4, b / 4 + b % 4);
            &&& 0 <= a < 16
            &&& p <= q
            &&& p == q ==> if p % 2 == 1 {
                a / 4 < b / 4
            } else {
                a / 4 > b / 4
            }
        }),
{
    assert forall|k: int| 0 <= k < 16 implies #[trigger] rank(ZIGZAG[k] as int) == k by {
        assert(k == 0 || k == 1 || k == 2 || k == 3 || k == 4 || k == 5 || k == 6 || k == 7 || k
            == 8 || k == 9 || k == 10 || k == 11 || k == 12 || k == 13 || k == 14 || k == 15);
    }
    let (a, b) = (ZIGZAG[i] as int, ZIGZAG[j] as int);
    assert(rank(a) == i && rank(b) == j);
    lemma_rank(a, b);
}

/// How many positions stand before `a` in the scan.
spec fn rank(a: int) -> int {
    let (r, c) = (a / 4, a % 4);
    let n = r + c;
    let before = if n == 0 {
        0
    } else if n == 1 {
        1
    } else if n == 2 {
        3
    } else if n == 3 {
        6
    } else if n == 4 {
        10
    } else if n == 5 {
        13
    } else {
        15int
    };
    before + if n % 2 == 1 {
        r - (if n > 3 { n - 3 } else { 0 })
    } else {
        c - (if n > 3 { n - 3 } else { 0 })
    }
}

#[verifier::spinoff_prover]
#[verifier::rlimit(50)]
proof fn lemma_rank(a: int, b: int)
    requires
        0 <= a < 16,
        0 <= b < 16,
        rank(a) < rank(b),
    ensures
        ({
            let (p, q) = (a / 4 + a % 4, b / 4 + b % 4);
            &&& p <= q
            &&& p == q ==> if p % 2 == 1 {
                a / 4 < b / 4
            } else {
                a / 4 > b / 4
            }
        }),
{
    assert(a == 0 || a == 1 || a == 2 || a == 3 || a == 4 || a == 5 || a == 6 || a == 7 || a == 8
        || a == 9 || a == 10 || a == 11 || a == 12 || a == 13 || a == 14 || a == 15);
    assert(b == 0 || b == 1 || b == 2 || b == 3 || b == 4 || b == 5 || b == 6 || b == 7 || b == 8
        || b == 9 || b == 10 || b == 11 || b == 12 || b == 13 || b == 14 || b == 15);
}

/// A block that was read is put back where the scan took it from.
pub proof fn law_scan_is_put_back(scan: Seq<i16>, i: int)
    requires
        0 <= i < 16,
    ensures
        tokens::scan_to_raster(scan)[ZIGZAG[i] as int] == scan[i],
{
    assert(i == 0 || i == 1 || i == 2 || i == 3 || i == 4 || i == 5 || i == 6 || i == 7 || i == 8
        || i == 9 || i == 10 || i == 11 || i == 12 || i == 13 || i == 14 || i == 15);
    assert(UNZIGZAG[ZIGZAG[i] as int] == i);
}

/// The kinds of the blocks of a macroblock: with a second order the luma blocks
/// start behind their first coefficient; each kind has probabilities of its own.
pub proof fn law_kinds_of_blocks(b: int, has_y2: bool)
    requires
        0 <= b < 25,
    ensures
        mb_tokens::kind_of(b, has_y2).first() == if b < 16 && has_y2 {
            1int
        } else {
            0
        },
        mb_tokens::kind_of(b, has_y2).plane() == if b == 24 {
            1int
        } else if b >= 16 {
            2
        } else if has_y2 {
            0
        } else {
            3
        },
{
}

/// Where there is no second order none is read: its block is empty, and what
/// the blocks beside it said of it stays.
pub proof fn law_no_second_order_is_read(
    d: DecState,
    probs: Seq<u8>,
    above: Seq<bool>,
    left: Seq<bool>,
    n: nat,
)
    requires
        n <= 25,
        above.len() == 9,
        left.len() == 9,
    ensures
        ({
            let m = mb_tokens::read_blocks(d, probs, false, above, left, n);
            &&& m.blocks.len() == 25
            &&& m.above.len() == 9
            &&& m.left.len() == 9
            &&& m.blocks[24] == frame::zero_block()
            &&& m.above[8] == above[8]
            &&& m.left[8] == left[8]
        }),
    decreases n,
{
    if n > 0 {
        law_no_second_order_is_read(d, probs, above, left, (n - 1) as nat);
        let b = mb_tokens::block_in_order(n - 1);
        if b != 24 {
            lemma_not_the_last(b);
        }
    }
}

proof fn lemma_not_the_last(b: int)
    requires
        0 <= b < 24,
    ensures
        0 <= ABOVE_CTX[b] < 8,
        0 <= LEFT_CTX[b] < 8,
{
    assert(b == 0 || b == 1 || b == 2 || b == 3 || b == 4 || b == 5 || b == 6 || b == 7 || b == 8
        || b == 9 || b == 10 || b == 11 || b == 12 || b == 13 || b == 14 || b == 15 || b == 16 || b
        == 17 || b == 18 || b == 19 || b == 20 || b == 21 || b == 22 || b == 23);
}

} // verus!
