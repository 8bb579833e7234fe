//! The residue of a macroblock in a token partition: up to 25 blocks, each
//! with a context from the blocks above it and to its left.
use crate::bool_decoder;
use crate::bool_decoder::BoolDecoder;
use crate::forward_transform;
use crate::frame;
use crate::frame::{CoeffModel, MbCoeffs};
use crate::range_coder;
use crate::range_coder::DecState;
use crate::tables::{CoeffProbs, UNZIGZAG, ZIGZAG};
use crate::tokens;
use crate::tokens::{read_block, to_raster, BlockType};
use vstd::prelude::*;

verus! {

/// Place of each block in the context to the left: luma, the two chroma
/// planes, second-order luma.
pub const LEFT_CTX: [usize; 25] = [
    0, 0, 0, 0, 1, 1, 1, 1, 2, 2, 2, 2, 3, 3, 3, 3, 4, 4, 5, 5, 6, 6, 7, 7, 8,
];

/// Place of each block in the context above.
pub const ABOVE_CTX: [usize; 25] = [
    0, 1, 2, 3, 0, 1, 2, 3, 0, 1, 2, 3, 0, 1, 2, 3, 4, 5, 4, 5, 6, 7, 6, 7, 8,
];

/// Which blocks on one side of a macroblock are not empty.
#[derive(Debug, Clone, Copy, PartialEq, Eq)]
pub struct MbEntropyCtx {
    pub nonzero: [bool; 9],
}

impl View for MbEntropyCtx {
    type V = Seq<bool>;

    open spec fn view(&self) -> Seq<bool> {
        self.nonzero@
    }
}

/// Nothing but empty blocks.
pub open spec fn clear_ctx() -> Seq<bool> {
    Seq::new(9, |i: int| false)
}

impl Default for MbEntropyCtx {
    fn default() -> (c: Self)
        ensures
            c@ == clear_ctx(),
    {
        let c: MbEntropyCtx = MbEntropyCtx { nonzero: [false;9] };
        assert(c@ =~= clear_ctx());
        c
    }
}

/// What a macroblock without residue leaves in a context. One without a
/// second-order block leaves the place of that block alone.
pub open spec fn skipped_ctx(c: Seq<bool>, has_y2: bool) -> Seq<bool> {
    Seq::new(
        9,
        |i: int|
            if i == 8 && !has_y2 {
                c[i]
            } else {
                false
            },
    )
}

/// Enters a macroblock without residue into a context.
pub fn clear_skip_ctx(c: &mut MbEntropyCtx, has_y2: bool)
    ensures
        final(c)@ == skipped_ctx(old(c)@, has_y2),
{
    let last: bool = if has_y2 {
        false
    } else {
        c.nonzero[8]
    };
    c.nonzero = [false, false, false, false, false, false, false, false, last];
    assert(c@ =~= skipped_ctx(old(c)@, has_y2));
}

/// Type of block `b` of a macroblock.
pub open spec fn kind_of(b: int, has_y2: bool) -> BlockType {
    if b == 24 {
        BlockType::Y2
    } else if b >= 16 {
        BlockType::UV
    } else if has_y2 {
        BlockType::YAfterY2
    } else {
        BlockType::YNoY2
    }
}

/// Block that comes `n`th.
pub open spec fn block_in_order(n: int) -> int {
    if n == 0 {
        24
    } else {
        n - 1
    }
}

/// Number of neighbours of block `b` that are not empty.
pub open spec fn block_ctx(above: Seq<bool>, left: Seq<bool>, b: int) -> int {
    bool_decoder::bit_value(above[ABOVE_CTX[b] as int]) + bool_decoder::bit_value(
        left[LEFT_CTX[b] as int],
    )
}

/// A macroblock as far as it was read.
pub struct MbRead {
    /// Blocks in raster order: luma, the two chroma planes, second-order luma.
    pub blocks: Seq<Seq<i16>>,
    pub above: Seq<bool>,
    pub left: Seq<bool>,
    /// Some block is not empty.
    pub any: bool,
    /// What follows.
    pub rest: DecState,
}

/// The first `n` blocks of the macroblock that stands in the stream at `d`.
pub open spec fn read_blocks(
    d: DecState,
    probs: Seq<u8>,
    has_y2: bool,
    above: Seq<bool>,
    left: Seq<bool>,
    n: nat,
) -> MbRead
    decreases n,
{
    if n == 0 {
        MbRead {
            blocks: Seq::new(25, |b: int| frame::zero_block()),
            above,
            left,
            any: false,
            rest: d,
        }
    } else {
        let m = read_blocks(d, probs, has_y2, above, left, (n - 1) as nat);
        let b = block_in_order(n - 1);
        if b == 24 && !has_y2 {
            m
        } else {
            let r = tokens::read_block_at(
                m.rest,
                kind_of(b, has_y2),
                probs,
                block_ctx(m.above, m.left, b),
            );
            MbRead {
                blocks: m.blocks.update(b, tokens::scan_to_raster(r.coeffs)),
                above: m.above.update(ABOVE_CTX[b] as int, r.end > 0),
                left: m.left.update(LEFT_CTX[b] as int, r.end > 0),
                any: m.any || r.end > 0,
                rest: r.rest,
            }
        }
    }
}

/// The macroblock that stands in the stream at `d`.
pub open spec fn read_mb(
    d: DecState,
    probs: Seq<u8>,
    has_y2: bool,
    above: Seq<bool>,
    left: Seq<bool>,
) -> MbRead {
    read_blocks(d, probs, has_y2, above, left, 25)
}

/// The blocks of a macroblock by plane.
pub open spec fn by_plane(blocks: Seq<Seq<i16>>) -> CoeffModel {
    CoeffModel {
        y2: blocks[24],
        y: blocks.subrange(0, 16),
        u: blocks.subrange(16, 20),
        v: blocks.subrange(20, 24),
    }
}

/// The blocks of a macroblock in one row.
pub open spec fn in_row(c: CoeffModel) -> Seq<Seq<i16>> {
    c.y + c.u + c.v + seq![c.y2]
}

/// Block `b` of a macroblock.
pub fn block_of(c: &MbCoeffs, b: usize) -> (block: [i16; 16])
    requires
        b < 25,
    ensures
        block@ == in_row(c@)[b as int],
{
    if b == 24 {
        c.y2
    } else if b < 16 {
        c.y[b]
    } else if b < 20 {
        c.u[b - 16]
    } else {
        c.v[b - 20]
    }
}

/// Type of block `b` of a macroblock.
pub fn kind_at(b: usize, has_y2: bool) -> (kind: BlockType)
    ensures
        kind == kind_of(b as int, has_y2),
{
    if b == 24 {
        BlockType::Y2
    } else if b >= 16 {
        BlockType::UV
    } else if has_y2 {
        BlockType::YAfterY2
    } else {
        BlockType::YNoY2
    }
}

fn gather_planes(b: &[[i16; 16]; 25]) -> (c: MbCoeffs)
    ensures
        c@ == by_plane(frame::block_views(b@)),
{
    let c: MbCoeffs = MbCoeffs {
        y2: b[24],
        y: [
            b[0],
            b[1],
            b[2],
            b[3],
            b[4],
            b[5],
            b[6],
            b[7],
            b[8],
            b[9],
            b[10],
            b[11],
            b[12],
            b[13],
            b[14],
            b[15],
        ],
        u: [b[16], b[17], b[18], b[19]],
        v: [b[20], b[21], b[22], b[23]],
    };
    proof {
        let blocks = frame::block_views(b@);
        assert(c@.y =~= by_plane(blocks).y);
        assert(c@.u =~= by_plane(blocks).u);
        assert(c@.v =~= by_plane(blocks).v);
    }
    c
}

fn read_one(
    dec: &mut BoolDecoder<'_>,
    probs: &CoeffProbs,
    kind: BlockType,
    b: usize,
    above: &mut MbEntropyCtx,
    left: &mut MbEntropyCtx,
    out: &mut [i16; 16],
) -> (nonzero: bool)
    requires
        old(dec).wf(),
        b < 25,
    ensures
        final(dec).wf(),
        final(dec)@.data == old(dec)@.data,
        ({
            let r = tokens::read_block_at(
                old(dec)@,
                kind,
                tokens::flat_probs(*probs),
                block_ctx(old(above)@, old(left)@, b as int),
            );
            &&& final(dec)@ == r.rest
            &&& final(out)@ == tokens::scan_to_raster(r.coeffs)
            &&& nonzero == (r.end > 0)
            &&& final(above)@ == old(above)@.update(ABOVE_CTX[b as int] as int, r.end > 0)
            &&& final(left)@ == old(left)@.update(LEFT_CTX[b as int] as int, r.end > 0)
        }),
{
    let a: usize = ABOVE_CTX[b];
    let l: usize = LEFT_CTX[b];
    let na: usize = if above.nonzero[a] {
        1
    } else {
        0
    };
    let nl: usize = if left.nonzero[l] {
        1
    } else {
        0
    };
    let mut scan: [i16; 16] = [0i16;16];
    let end: usize = read_block(dec, kind, probs, na + nl, &mut scan);
    *out = to_raster(&scan);
    above.nonzero[a] = end > 0;
    left.nonzero[l] = end > 0;
    end > 0
}

/// Reads the residue of a macroblock, and whether any of its blocks is not
/// empty.
pub fn decode_mb_coeffs(
    dec: &mut BoolDecoder<'_>,
    probs: &CoeffProbs,
    has_y2: bool,
    above: &mut MbEntropyCtx,
    left: &mut MbEntropyCtx,
) -> (r: (MbCoeffs, bool))
    requires
        old(dec).wf(),
    ensures
        final(dec).wf(),
        final(dec)@.data == old(dec)@.data,
        ({
            let m = read_mb(
                old(dec)@,
                tokens::flat_probs(*probs),
                has_y2,
                old(above)@,
                old(left)@,
            );
            &&& r.0@ == by_plane(m.blocks)
            &&& r.1 == m.any
            &&& final(above)@ == m.above
            &&& final(left)@ == m.left
            &&& final(dec)@ == m.rest
        }),
{
    let mut blocks: [[i16; 16]; 25] = [[0i16;16];25];
    let mut any: bool = false;
    let ghost d0 = dec@;
    let ghost p = tokens::flat_probs(*probs);
    let ghost a0 = above@;
    let ghost l0 = left@;
    assert(frame::block_views(blocks@) =~~= Seq::new(25, |b: int| frame::zero_block()));
    let mut n: usize = 0;
    while n < 25
        invariant
            n <= 25,
            d0 == old(dec)@,
            a0 == old(above)@,
            l0 == old(left)@,
            p == tokens::flat_probs(*probs),
            dec.wf(),
            dec@.data == d0.data,
            ({
                let m = read_blocks(d0, p, has_y2, a0, l0, n as nat);
                &&& frame::block_views(blocks@) == m.blocks
                &&& above@ == m.above
                &&& left@ == m.left
                &&& any == m.any
                &&& dec@ == m.rest
            }),
        decreases 25 - n,
    {
        if n == 0 && !has_y2 {
        } else {
            let b: usize = if n == 0 {
                24
            } else {
                n - 1
            };
            let kind: BlockType = kind_at(b, has_y2);
            let ghost before = frame::block_views(blocks@);
            let mut block: [i16; 16] = [0i16;16];
            let nonzero: bool = read_one(dec, probs, kind, b, above, left, &mut block);
            blocks[b] = block;
            assert(frame::block_views(blocks@) =~= before.update(b as int, block@));
            any = any || nonzero;
        }
        n = n + 1;
    }
    (gather_planes(&blocks), any)
}

/// The booleans that write the first blocks of a macroblock, and what they
/// leave in the contexts.
pub struct MbWritten {
    pub ops: Seq<(u8, bool)>,
    pub above: Seq<bool>,
    pub left: Seq<bool>,
    /// Number of blocks that are not empty.
    pub count: nat,
}

/// Block `b` carries a coefficient that is not zero.
pub open spec fn carries(block: Seq<i16>, kind: BlockType) -> bool {
    frame::has_nonzero(tokens::carried(forward_transform::scan_order(block), kind))
}

/// The first `n` blocks of a macroblock, written.
pub open spec fn write_blocks(
    blocks: Seq<Seq<i16>>,
    probs: Seq<u8>,
    has_y2: bool,
    above: Seq<bool>,
    left: Seq<bool>,
    n: nat,
) -> MbWritten
    decreases n,
{
    if n == 0 {
        MbWritten { ops: Seq::empty(), above, left, count: 0 }
    } else {
        let m = write_blocks(blocks, probs, has_y2, above, left, (n - 1) as nat);
        let b = block_in_order(n - 1);
        if b == 24 && !has_y2 {
            m
        } else {
            let kind = kind_of(b, has_y2);
            let nonzero = carries(blocks[b], kind);
            MbWritten {
                ops: m.ops + tokens::block_ops(
                    probs,
                    kind,
                    block_ctx(m.above, m.left, b),
                    forward_transform::scan_order(blocks[b]),
                ),
                above: m.above.update(ABOVE_CTX[b] as int, nonzero),
                left: m.left.update(LEFT_CTX[b] as int, nonzero),
                count: m.count + if nonzero {
                    1nat
                } else {
                    0nat
                },
            }
        }
    }
}

/// A macroblock, written.
pub open spec fn write_mb(
    c: CoeffModel,
    probs: Seq<u8>,
    has_y2: bool,
    above: Seq<bool>,
    left: Seq<bool>,
) -> MbWritten {
    write_blocks(in_row(c), probs, has_y2, above, left, 25)
}

/// What a macroblock carries: with a second-order block not the first luma
/// coefficients, and without one not that block.
pub open spec fn carried_mb(blocks: Seq<Seq<i16>>, has_y2: bool) -> Seq<Seq<i16>> {
    Seq::new(
        25,
        |b: int|
            if b == 24 && !has_y2 {
                frame::zero_block()
            } else if b < 16 && has_y2 {
                blocks[b].update(0, 0)
            } else {
                blocks[b]
            },
    )
}

/// Every block is in the alphabet's reach.
pub open spec fn mb_in_reach(blocks: Seq<Seq<i16>>, has_y2: bool) -> bool {
    forall|b: int|
        0 <= b < 25 && (b < 24 || has_y2) ==> tokens::in_reach(
            forward_transform::scan_order(#[trigger] blocks[b]),
            kind_of(b, has_y2),
        )
}

proof fn lemma_scan_and_back(block: Seq<i16>, kind: BlockType)
    requires
        block.len() == 16,
    ensures
        tokens::scan_to_raster(tokens::carried(forward_transform::scan_order(block), kind))
            == if kind == BlockType::YAfterY2 {
            block.update(0, 0)
        } else {
            block
        },
{
    let s = forward_transform::scan_order(block);
    let back = tokens::scan_to_raster(tokens::carried(s, kind));
    assert forall|i: int| 0 <= i < 16 implies #[trigger] back[i] == if kind
        == BlockType::YAfterY2 && i == 0 {
        0
    } else {
        block[i]
    } by {
        let j = UNZIGZAG[i] as int;
        assert(0 <= j < 16);
        assert(ZIGZAG[j] == i);
        assert(j == 0 <==> i == 0);
    }
    if kind == BlockType::YAfterY2 {
        assert(back =~= block.update(0, 0));
    } else {
        assert(back =~= block);
    }
}

proof fn lemma_blocks_read_back(
    d: DecState,
    blocks: Seq<Seq<i16>>,
    probs: Seq<u8>,
    has_y2: bool,
    above: Seq<bool>,
    left: Seq<bool>,
    n: nat,
)
    requires
        n <= 25,
        blocks.len() == 25,
        forall|b: int| 0 <= b < 25 ==> (#[trigger] blocks[b]).len() == 16,
        mb_in_reach(blocks, has_y2),
        range_coder::decodes(d, write_blocks(blocks, probs, has_y2, above, left, n).ops),
    ensures
        ({
            let w = write_blocks(blocks, probs, has_y2, above, left, n);
            let r = read_blocks(d, probs, has_y2, above, left, n);
            &&& r.blocks.len() == 25
            &&& forall|m: int|
                0 <= m < 25 ==> #[trigger] r.blocks[block_in_order(m)] == if m < n {
                    carried_mb(blocks, has_y2)[block_in_order(m)]
                } else {
                    frame::zero_block()
                }
            &&& r.above == w.above
            &&& r.left == w.left
            &&& r.any == (w.count > 0)
            &&& r.rest == range_coder::dec_after(d, w.ops)
        }),
    decreases n,
{
    if n == 0 {
        range_coder::lemma_decodes_nothing(d);
    } else {
        let w0 = write_blocks(blocks, probs, has_y2, above, left, (n - 1) as nat);
        let w = write_blocks(blocks, probs, has_y2, above, left, n);
        let b = block_in_order(n - 1);
        if b == 24 && !has_y2 {
            lemma_blocks_read_back(d, blocks, probs, has_y2, above, left, (n - 1) as nat);
        } else {
            let kind = kind_of(b, has_y2);
            let s = forward_transform::scan_order(blocks[b]);
            let ctx = block_ctx(w0.above, w0.left, b);
            let ops = tokens::block_ops(probs, kind, ctx, s);
            range_coder::lemma_decodes_append(d, w0.ops, ops);
            lemma_blocks_read_back(d, blocks, probs, has_y2, above, left, (n - 1) as nat);
            let r0 = read_blocks(d, probs, has_y2, above, left, (n - 1) as nat);
            tokens::law_block_reads_back(r0.rest, probs, kind, ctx, s);
            lemma_scan_and_back(blocks[b], kind);
            let r = read_blocks(d, probs, has_y2, above, left, n);
            assert(tokens::read_block_at(r0.rest, kind, probs, ctx).end > 0 <==> carries(
                blocks[b],
                kind,
            )) by {
                tokens::lemma_block_end(r0.rest, kind, probs, ctx);
            }
            assert forall|m: int| 0 <= m < 25 implies #[trigger] r.blocks[block_in_order(m)]
                == if m < n {
                carried_mb(blocks, has_y2)[block_in_order(m)]
            } else {
                frame::zero_block()
            } by {
                assert(r0.blocks[block_in_order(m)] == r0.blocks[block_in_order(m)]);
            }
        }
    }
}

/// A reader that meets the booleans written for a macroblock reads the
/// coefficients that the macroblock carries, leaves the contexts as the
/// writer did, and stands behind them.
pub proof fn law_mb_reads_back(
    d: DecState,
    c: CoeffModel,
    probs: Seq<u8>,
    has_y2: bool,
    above: Seq<bool>,
    left: Seq<bool>,
)
    requires
        c.y.len() == 16,
        c.u.len() == 4,
        c.v.len() == 4,
        forall|b: int| 0 <= b < 25 ==> (#[trigger] in_row(c)[b]).len() == 16,
        mb_in_reach(in_row(c), has_y2),
        range_coder::decodes(d, write_mb(c, probs, has_y2, above, left).ops),
    ensures
        ({
            let w = write_mb(c, probs, has_y2, above, left);
            let r = read_mb(d, probs, has_y2, above, left);
            &&& r.blocks == carried_mb(in_row(c), has_y2)
            &&& r.above == w.above
            &&& r.left == w.left
            &&& r.any == (w.count > 0)
            &&& r.rest == range_coder::dec_after(d, w.ops)
        }),
{
    lemma_blocks_read_back(d, in_row(c), probs, has_y2, above, left, 25);
    let r = read_mb(d, probs, has_y2, above, left);
    let want = carried_mb(in_row(c), has_y2);
    assert forall|b: int| 0 <= b < 25 implies #[trigger] r.blocks[b] == want[b] by {
        let m = if b == 24 {
            0
        } else {
            b + 1
        };
        assert(block_in_order(m) == b);
    }
    assert(r.blocks =~= want);
}

/// A block in scan order and the block itself are empty together.
pub proof fn lemma_carries(block: Seq<i16>, kind: BlockType)
    requires
        block.len() == 16,
    ensures
        carries(block, kind) == frame::has_nonzero(
            if kind == BlockType::YAfterY2 {
                block.update(0, 0)
            } else {
                block
            },
        ),
{
    lemma_scan_and_back(block, kind);
    let c = tokens::carried(forward_transform::scan_order(block), kind);
    let back = tokens::scan_to_raster(c);
    if frame::has_nonzero(c) {
        let j = choose|j: int| 0 <= j < c.len() && c[j] != 0;
        let i = ZIGZAG[j] as int;
        assert(0 <= i < 16 && UNZIGZAG[i] == j);
        assert(back[i] != 0);
    }
    if frame::has_nonzero(back) {
        let i = choose|i: int| 0 <= i < back.len() && back[i] != 0;
        let j = UNZIGZAG[i] as int;
        assert(0 <= j < 16);
        assert(c[j] != 0);
    }
}

/// Block `b` of a macroblock is written and not empty.
pub open spec fn counted(blocks: Seq<Seq<i16>>, has_y2: bool, b: int) -> bool {
    (b < 24 || has_y2) && carries(blocks[b], kind_of(b, has_y2))
}

/// Blocks are counted whatever stands round the macroblock.
pub proof fn lemma_count(
    blocks: Seq<Seq<i16>>,
    probs: Seq<u8>,
    has_y2: bool,
    above: Seq<bool>,
    left: Seq<bool>,
    n: nat,
)
    requires
        n <= 25,
    ensures
        write_blocks(blocks, probs, has_y2, above, left, n).count > 0 <==> exists|m: int|
            0 <= m < n && #[trigger] counted(blocks, has_y2, block_in_order(m)),
    decreases n,
{
    if n > 0 {
        lemma_count(blocks, probs, has_y2, above, left, (n - 1) as nat);
        let w0 = write_blocks(blocks, probs, has_y2, above, left, (n - 1) as nat);
        if w0.count > 0 {
            let m = choose|m: int|
                0 <= m < n - 1 && #[trigger] counted(blocks, has_y2, block_in_order(m));
            assert(counted(blocks, has_y2, block_in_order(m)));
        }
        if counted(blocks, has_y2, block_in_order(n - 1)) {
            assert(write_blocks(blocks, probs, has_y2, above, left, n).count > 0);
        }
    }
}

/// Coefficients with nothing in the places that are not written.
pub open spec fn nothing_hidden(c: CoeffModel, has_y2: bool) -> bool {
    &&& c.y.len() == 16
    &&& c.u.len() == 4
    &&& c.v.len() == 4
    &&& forall|b: int| 0 <= b < 25 ==> (#[trigger] in_row(c)[b]).len() == 16
    &&& has_y2 ==> forall|k: int| 0 <= k < 16 ==> (#[trigger] c.y[k])[0] == 0
    &&& !has_y2 ==> c.y2 == frame::zero_block()
}

/// Some coefficient is not zero.
pub open spec fn any_nonzero(c: CoeffModel) -> bool {
    exists|b: int| 0 <= b < 25 && frame::has_nonzero(#[trigger] in_row(c)[b])
}

/// A macroblock that hides nothing counts a block exactly where some
/// coefficient is not zero.
pub proof fn lemma_counts_nonzero(
    c: CoeffModel,
    probs: Seq<u8>,
    has_y2: bool,
    above: Seq<bool>,
    left: Seq<bool>,
)
    requires
        nothing_hidden(c, has_y2),
    ensures
        write_mb(c, probs, has_y2, above, left).count > 0 <==> any_nonzero(c),
{
    let blocks = in_row(c);
    lemma_count(blocks, probs, has_y2, above, left, 25);
    assert forall|b: int| 0 <= b < 25 implies counted(blocks, has_y2, b) == frame::has_nonzero(
        #[trigger] blocks[b],
    ) by {
        lemma_carries(blocks[b], kind_of(b, has_y2));
        if b < 16 {
            assert(blocks[b] == c.y[b]);
            if has_y2 {
                assert(blocks[b].update(0, 0) =~= blocks[b]);
            }
        }
        if b == 24 {
            assert(blocks[b] == c.y2);
        }
    }
    if any_nonzero(c) {
        let b = choose|b: int| 0 <= b < 25 && frame::has_nonzero(#[trigger] blocks[b]);
        let m = if b == 24 {
            0
        } else {
            b + 1
        };
        assert(block_in_order(m) == b);
        assert(counted(blocks, has_y2, block_in_order(m)));
    }
    if write_mb(c, probs, has_y2, above, left).count > 0 {
        let m = choose|m: int|
            0 <= m < 25 && #[trigger] counted(blocks, has_y2, block_in_order(m));
        let b = block_in_order(m);
        assert(frame::has_nonzero(blocks[b]));
    }
}

/// A macroblock that hides nothing is carried whole.
pub proof fn lemma_carried_whole(c: CoeffModel, has_y2: bool)
    requires
        nothing_hidden(c, has_y2),
    ensures
        by_plane(carried_mb(in_row(c), has_y2)) == c,
{
    let blocks = in_row(c);
    let carried = carried_mb(blocks, has_y2);
    assert forall|b: int| 0 <= b < 25 implies #[trigger] carried[b] == blocks[b] by {
        if b < 16 {
            assert(blocks[b] == c.y[b]);
            if has_y2 {
                assert(blocks[b].update(0, 0) =~= blocks[b]);
            }
        }
        if b == 24 {
            assert(blocks[b] == c.y2);
        }
    }
    let p = by_plane(carried);
    assert(p.y =~= c.y);
    assert(p.u =~= c.u);
    assert(p.v =~= c.v);
    assert(p.y2 == c.y2);
}

} // verus!
