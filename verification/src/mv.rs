//! Motion vectors.
use crate::arith;
use crate::arith::clamp_i32;
use crate::bool_decoder::BoolDecoder;
use crate::range_coder;
use crate::range_coder::DecState;
use crate::tables::SMALL_MV_TREE;
use crate::trees;
use vstd::prelude::*;

verus! {

/// A motion vector.
#[derive(Debug, Clone, Copy, PartialEq, Eq, Structural)]
pub struct Mv {
    pub row: i16,
    pub col: i16,
}

pub open spec fn zero_mv() -> Mv {
    Mv { row: 0, col: 0 }
}

impl Default for Mv {
    fn default() -> (m: Self)
        ensures
            m == zero_mv(),
    {
        Mv { row: 0, col: 0 }
    }
}

impl Mv {
    /// A vector with each component cut to 16 bits.
    pub fn new(row: i32, col: i32) -> (m: Mv)
        ensures
            m == (Mv { row: row as i16, col: col as i16 }),
    {
        Mv { row: row as i16, col: col as i16 }
    }
}

/// Order in which the bits of a long component stand, the fourth one left out.
pub const LONG_BIT_ORDER: [usize; 9] = [0, 1, 2, 9, 8, 7, 6, 5, 4];

/// What each of these bits adds.
pub const LONG_BIT_VALUE: [i32; 9] = [1, 2, 4, 512, 256, 128, 64, 32, 16];

/// State after the first `n` bits of a long component.
pub open spec fn long_skip(d: DecState, p: Seq<u8>, n: nat) -> DecState
    decreases n,
{
    if n == 0 {
        d
    } else {
        range_coder::dec_next(
            long_skip(d, p, (n - 1) as nat),
            p[9 + LONG_BIT_ORDER[n - 1]],
        )
    }
}

/// Sum of the first `n` bits of a long component.
pub open spec fn long_value(d: DecState, p: Seq<u8>, n: nat) -> int
    decreases n,
{
    if n == 0 {
        0
    } else {
        long_value(d, p, (n - 1) as nat) + if range_coder::dec_bit(
            long_skip(d, p, (n - 1) as nat),
            p[9 + LONG_BIT_ORDER[n - 1]],
        ) {
            LONG_BIT_VALUE[n - 1] as int
        } else {
            0
        }
    }
}

/// Magnitude of the component that stands in the stream at `d`. Of a long one
/// that is otherwise below sixteen the fourth bit is set and not written.
pub open spec fn read_mv_magnitude(d: DecState, p: Seq<u8>) -> (int, DecState) {
    let d1 = range_coder::dec_next(d, p[0]);
    if !range_coder::dec_bit(d, p[0]) {
        trees::read_tree_from(d1, SMALL_MV_TREE@, p.subrange(2, 9), 0)
    } else {
        let x = long_value(d1, p, 9);
        let d2 = long_skip(d1, p, 9);
        if x < 16 {
            (x + 8, d2)
        } else if range_coder::dec_bit(d2, p[12]) {
            (x + 8, range_coder::dec_next(d2, p[12]))
        } else {
            (x, range_coder::dec_next(d2, p[12]))
        }
    }
}

/// Component that stands in the stream at `d`, and what follows it.
pub open spec fn read_mv_component(d: DecState, p: Seq<u8>) -> (int, DecState) {
    let (x, d1) = read_mv_magnitude(d, p);
    if x == 0 {
        (0, d1)
    } else if range_coder::dec_bit(d1, p[1]) {
        (-x, range_coder::dec_next(d1, p[1]))
    } else {
        (x, range_coder::dec_next(d1, p[1]))
    }
}

/// Vector that stands in the stream at `d`, in eighths of a pixel, and what
/// follows it.
pub open spec fn read_mv(d: DecState, context: Seq<Seq<u8>>) -> (Mv, DecState) {
    let (row, d1) = read_mv_component(d, context[0]);
    let (col, d2) = read_mv_component(d1, context[1]);
    (Mv { row: (2 * row) as i16, col: (2 * col) as i16 }, d2)
}

/// The probabilities of the two components.
pub open spec fn context_view(c: [[u8; 19]; 2]) -> Seq<Seq<u8>> {
    Seq::new(2, |i: int| c[i]@)
}

fn read_long(dec: &mut BoolDecoder<'_>, p: &[u8; 19]) -> (x: i32)
    requires
        old(dec).wf(),
    ensures
        final(dec).wf(),
        x == long_value(old(dec)@, p@, 9),
        final(dec)@ == long_skip(old(dec)@, p@, 9),
        final(dec)@.data == old(dec)@.data,
        0 <= x <= 1015,
{
    let mut x: i32 = 0;
    let mut n: usize = 0;
    let mut most: i32 = 0;
    while n < 9
        invariant
            n <= 9,
            dec.wf(),
            dec@.data == old(dec)@.data,
            x == long_value(old(dec)@, p@, n as nat),
            dec@ == long_skip(old(dec)@, p@, n as nat),
            0 <= x <= most,
            most == most_of(n as int),
        decreases 9 - n,
    {
        if dec.get_bool(p[9 + LONG_BIT_ORDER[n]]) {
            x = x + LONG_BIT_VALUE[n];
        }
        most = most + LONG_BIT_VALUE[n];
        n = n + 1;
    }
    x
}

/// Sum of the first `n` bit values.
spec fn most_of(n: int) -> int {
    if n <= 0 {
        0
    } else if n == 1 {
        1
    } else if n == 2 {
        3
    } else if n == 3 {
        7
    } else if n == 4 {
        519
    } else if n == 5 {
        775
    } else if n == 6 {
        903
    } else if n == 7 {
        967
    } else if n == 8 {
        999
    } else {
        1015
    }
}

fn read_short(dec: &mut BoolDecoder<'_>, p: &[u8; 19]) -> (x: i32)
    requires
        old(dec).wf(),
    ensures
        final(dec).wf(),
        (x as int, final(dec)@) == trees::read_tree_from(
            old(dec)@,
            SMALL_MV_TREE@,
            p@.subrange(2, 9),
            0,
        ),
        final(dec)@.data == old(dec)@.data,
        0 <= x <= 7,
{
    let probs: [u8; 7] = [p[2], p[3], p[4], p[5], p[6], p[7], p[8]];
    assert(probs@ =~= p@.subrange(2, 9));
    proof {
        lemma_small_tree_ok();
        trees::lemma_leaf_bound(dec@, SMALL_MV_TREE@, probs@, 0, 7);
    }
    let leaf: u8 = trees::decode_tree(dec, &SMALL_MV_TREE, &probs);
    leaf as i32
}

pub proof fn lemma_small_tree_ok()
    ensures
        trees::tree_ok(SMALL_MV_TREE@),
        forall|k: int| 0 <= k < SMALL_MV_TREE@.len() ==> -7 <= #[trigger] SMALL_MV_TREE@[k],
{
}

/// Reads one component.
fn read_component(dec: &mut BoolDecoder<'_>, p: &[u8; 19]) -> (x: i32)
    requires
        old(dec).wf(),
    ensures
        final(dec).wf(),
        (x as int, final(dec)@) == read_mv_component(old(dec)@, p@),
        final(dec)@.data == old(dec)@.data,
        -1023 <= x <= 1023,
{
    let mut x: i32;
    if dec.get_bool(p[0]) {
        x = read_long(dec, p);
        if x < 16 || dec.get_bool(p[12]) {
            x = x + 8;
        }
    } else {
        x = read_short(dec, p);
    }
    if x != 0 && dec.get_bool(p[1]) {
        -x
    } else {
        x
    }
}

/// Reads a vector, in eighths of a pixel.
pub fn decode_mv(dec: &mut BoolDecoder<'_>, context: &[[u8; 19]; 2]) -> (m: Mv)
    requires
        old(dec).wf(),
    ensures
        final(dec).wf(),
        (m, final(dec)@) == read_mv(old(dec)@, context_view(*context)),
        final(dec)@.data == old(dec)@.data,
        -2046 <= m.row <= 2046,
        -2046 <= m.col <= 2046,
{
    let row: i32 = read_component(dec, &context[0]);
    let col: i32 = read_component(dec, &context[1]);
    Mv { row: (2 * row) as i16, col: (2 * col) as i16 }
}

/// `v` moved to at most one macroblock outside a frame of `size` macroblocks,
/// seen from macroblock `at`.
pub open spec fn clamp_component(v: int, at: int, size: int) -> int {
    arith::clamp_int(v, -128 * (at + 1), 128 * (size - at))
}

/// A vector that reaches at most one macroblock outside the frame.
pub open spec fn clamped_mv(m: Mv, mb_x: int, mb_y: int, mb_w: int, mb_h: int) -> Mv {
    Mv {
        row: clamp_component(m.row as int, mb_y, mb_h) as i16,
        col: clamp_component(m.col as int, mb_x, mb_w) as i16,
    }
}

/// Limits a vector to one macroblock outside the frame.
pub fn clamp_mv_to_border(m: Mv, mb_x: usize, mb_y: usize, mb_w: usize, mb_h: usize) -> (r: Mv)
    requires
        mb_x < mb_w <= 0x10000,
        mb_y < mb_h <= 0x10000,
    ensures
        r == clamped_mv(m, mb_x as int, mb_y as int, mb_w as int, mb_h as int),
{
    let row: i32 = clamp_i32(
        m.row as i32,
        -128 * (mb_y as i32 + 1),
        128 * (mb_h as i32 - mb_y as i32),
    );
    let col: i32 = clamp_i32(
        m.col as i32,
        -128 * (mb_x as i32 + 1),
        128 * (mb_w as i32 - mb_x as i32),
    );
    Mv { row: row as i16, col: col as i16 }
}

/// A limited vector reaches at most one macroblock outside the frame, and a
/// second limiting changes nothing.
pub proof fn law_clamp_is_idempotent(m: Mv, mb_x: int, mb_y: int, mb_w: int, mb_h: int)
    requires
        0 <= mb_x < mb_w,
        0 <= mb_y < mb_h,
    ensures
        ({
            let c = clamped_mv(m, mb_x, mb_y, mb_w, mb_h);
            &&& clamped_mv(c, mb_x, mb_y, mb_w, mb_h) == c
            &&& -128 * (mb_x + 1) <= c.col <= 128 * (mb_w - mb_x)
            &&& -128 * (mb_y + 1) <= c.row <= 128 * (mb_h - mb_y)
        }),
{
}

} // verus!
