//! Coefficient tokens: how one block of sixteen quantized coefficients stands
//! in a token partition.
use crate::bool_decoder;
use crate::bool_decoder::{BoolDecoder, BoolDecoderError};
use crate::range_coder;
use crate::range_coder::DecState;
use crate::tables::{
    CoeffProbs, CAT_BASE, CAT_LEN, CAT_PROBS, COEFF_BANDS, COEFF_TREE, UNZIGZAG,
};
use crate::trees;
use vstd::prelude::*;

verus! {

/// What a block of coefficients belongs to.
#[derive(Debug, Clone, Copy, PartialEq, Eq, Structural)]
pub enum BlockType {
    /// Luma without its first coefficient, which the second-order block has.
    YAfterY2,
    /// Second-order luma.
    Y2,
    /// Chroma.
    UV,
    /// Luma with its first coefficient.
    YNoY2,
}

impl BlockType {
    pub open spec fn plane(self) -> int {
        match self {
            BlockType::YAfterY2 => 0,
            BlockType::Y2 => 1,
            BlockType::UV => 2,
            BlockType::YNoY2 => 3,
        }
    }

    pub open spec fn first(self) -> int {
        if self == BlockType::YAfterY2 {
            1
        } else {
            0
        }
    }

    /// Position in the first axis of the coefficient probabilities.
    pub fn plane_index(self) -> (r: usize)
        ensures
            r == self.plane(),
            r < 4,
    {
        match self {
            BlockType::YAfterY2 => 0,
            BlockType::Y2 => 1,
            BlockType::UV => 2,
            BlockType::YNoY2 => 3,
        }
    }

    /// Position of the first coefficient that the block carries.
    pub fn first_coeff(self) -> (r: usize)
        ensures
            r == self.first(),
    {
        match self {
            BlockType::YAfterY2 => 1,
            BlockType::Y2 => 0,
            BlockType::UV => 0,
            BlockType::YNoY2 => 0,
        }
    }
}

/// Alphabet of the coefficient tokens.
#[derive(Debug, Clone, Copy, PartialEq, Eq, Structural)]
pub enum DctToken {
    Dct0,
    Dct1,
    Dct2,
    Dct3,
    Dct4,
    Cat1,
    Cat2,
    Cat3,
    Cat4,
    Cat5,
    Cat6,
    /// End of the block.
    Eob,
}

impl DctToken {
    pub open spec fn number(self) -> int {
        match self {
            DctToken::Dct0 => 0,
            DctToken::Dct1 => 1,
            DctToken::Dct2 => 2,
            DctToken::Dct3 => 3,
            DctToken::Dct4 => 4,
            DctToken::Cat1 => 5,
            DctToken::Cat2 => 6,
            DctToken::Cat3 => 7,
            DctToken::Cat4 => 8,
            DctToken::Cat5 => 9,
            DctToken::Cat6 => 10,
            DctToken::Eob => 11,
        }
    }

    /// Leaf of the token tree.
    pub fn leaf(self) -> (r: u8)
        ensures
            r == self.number(),
    {
        match self {
            DctToken::Dct0 => 0,
            DctToken::Dct1 => 1,
            DctToken::Dct2 => 2,
            DctToken::Dct3 => 3,
            DctToken::Dct4 => 4,
            DctToken::Cat1 => 5,
            DctToken::Cat2 => 6,
            DctToken::Cat3 => 7,
            DctToken::Cat4 => 8,
            DctToken::Cat5 => 9,
            DctToken::Cat6 => 10,
            DctToken::Eob => 11,
        }
    }
}

/// The probabilities in one row.
pub open spec fn flat_probs(probs: CoeffProbs) -> Seq<u8> {
    Seq::new(1056, |x: int| probs[x / 264][x / 33 % 8][x / 11 % 3][x % 11])
}

/// Probabilities of the token at position `i`.
pub open spec fn token_probs(probs: Seq<u8>, plane: int, i: int, ctx: int) -> Seq<u8> {
    Seq::new(11, |t: int| probs[264 * plane + 33 * COEFF_BANDS[i] + 11 * ctx + t])
}

pub proof fn lemma_token_probs(probs: CoeffProbs, plane: int, i: int, ctx: int)
    requires
        0 <= plane < 4,
        0 <= i < 16,
        0 <= ctx < 3,
    ensures
        token_probs(flat_probs(probs), plane, i, ctx) == probs[plane][COEFF_BANDS[i] as int][ctx]@,
{
    let band = COEFF_BANDS[i] as int;
    assert(0 <= band < 8);
    assert(token_probs(flat_probs(probs), plane, i, ctx) =~= probs[plane][band][ctx]@);
}

/// Where the reading of a token starts: after a zero the end of the block
/// cannot come.
pub open spec fn token_start(after_zero: bool) -> int {
    if after_zero {
        2
    } else {
        0
    }
}

/// Context that a coefficient of this magnitude leaves for the next one.
pub open spec fn next_ctx(magnitude: int) -> int {
    if magnitude <= 1 {
        magnitude
    } else {
        2
    }
}

/// The token that stands in the stream at `d`, and what follows it.
#[verifier::opaque]
pub open spec fn read_token(d: DecState, probs: Seq<u8>, after_zero: bool) -> (int, DecState) {
    trees::read_tree_from(d, COEFF_TREE@, probs, token_start(after_zero))
}

/// The booleans that write a token.
#[verifier::opaque]
pub open spec fn token_ops(probs: Seq<u8>, after_zero: bool, token: int) -> Seq<(u8, bool)> {
    trees::leaf_ops(COEFF_TREE@, probs, token_start(after_zero), token)
}

/// State after the first `n` extra bits of a category.
pub open spec fn extra_skip(d: DecState, cat: int, n: nat) -> DecState
    decreases n,
{
    if n == 0 {
        d
    } else {
        range_coder::dec_next(extra_skip(d, cat, (n - 1) as nat), CAT_PROBS[cat][n - 1])
    }
}

/// Number that the first `n` extra bits of a category write.
pub open spec fn extra_value(d: DecState, cat: int, n: nat) -> int
    decreases n,
{
    if n == 0 {
        0
    } else {
        2 * extra_value(d, cat, (n - 1) as nat) + bool_decoder::bit_value(
            range_coder::dec_bit(
                extra_skip(d, cat, (n - 1) as nat),
                CAT_PROBS[cat][n - 1],
            ),
        )
    }
}

/// Magnitude that follows `token`, and what comes behind its extra bits.
pub open spec fn read_magnitude(d: DecState, token: int) -> (int, DecState) {
    if token <= 4 {
        (token, d)
    } else {
        let cat = token - 5;
        let n = CAT_LEN[cat] as nat;
        (CAT_BASE[cat] + extra_value(d, cat, n), extra_skip(d, cat, n))
    }
}

/// Coefficient that follows `token`, and what comes behind it.
pub open spec fn read_value(d: DecState, token: int) -> (int, DecState) {
    let (magnitude, d1) = read_magnitude(d, token);
    if magnitude == 0 {
        (0, d1)
    } else if range_coder::dec_bit(d1, 128) {
        (-magnitude, range_coder::dec_next(d1, 128))
    } else {
        (magnitude, range_coder::dec_next(d1, 128))
    }
}

pub open spec fn magnitude_of(v: int) -> int {
    if v < 0 {
        -v
    } else {
        v
    }
}

/// A block as it was read.
pub struct BlockRead {
    /// Coefficients in scan order.
    pub coeffs: Seq<i16>,
    /// Position behind the last token, or zero where the block ended at once.
    pub end: int,
    /// What follows the block.
    pub rest: DecState,
}

/// The coefficients from position `i` on, put into `acc`.
pub open spec fn read_coeffs(
    d: DecState,
    probs: Seq<u8>,
    plane: int,
    i: int,
    ctx: int,
    after_zero: bool,
    acc: Seq<i16>,
) -> BlockRead
    decreases 16 - i,
{
    if i >= 16 {
        BlockRead { coeffs: acc, end: 16, rest: d }
    } else {
        let (token, d1) = read_token(d, token_probs(probs, plane, i, ctx), after_zero);
        if token == 11 {
            BlockRead { coeffs: acc, end: i, rest: d1 }
        } else {
            let (v, d2) = read_value(d1, token);
            read_coeffs(
                d2,
                probs,
                plane,
                i + 1,
                next_ctx(magnitude_of(v)),
                v == 0,
                acc.update(i, v as i16),
            )
        }
    }
}

/// The block of type `kind` that stands in the stream at `d`.
pub open spec fn read_block_at(
    d: DecState,
    kind: BlockType,
    probs: Seq<u8>,
    ctx: int,
) -> BlockRead {
    let r = read_coeffs(
        d,
        probs,
        kind.plane(),
        kind.first(),
        ctx,
        false,
        Seq::new(16, |i: int| 0i16),
    );
    if r.end == kind.first() {
        BlockRead { end: 0, ..r }
    } else {
        r
    }
}

/// A scan-ordered block in raster order.
pub open spec fn scan_to_raster(scan: Seq<i16>) -> Seq<i16> {
    Seq::new(16, |i: int| scan[UNZIGZAG[i] as int])
}

/// Number of nonzero entries among the first `n` of `s`.
pub open spec fn nonzero_count(s: Seq<i16>, n: nat) -> nat
    decreases n,
{
    if n == 0 {
        0
    } else {
        nonzero_count(s, (n - 1) as nat) + if s[n - 1] != 0 {
            1nat
        } else {
            0nat
        }
    }
}

pub proof fn lemma_coeff_tree_ok()
    ensures
        trees::tree_ok(COEFF_TREE@),
{
}

/// Reads the extra bits of category `cat`.
fn read_extra(dec: &mut BoolDecoder<'_>, cat: usize) -> (extra: u16)
    requires
        old(dec).wf(),
        cat < 6,
    ensures
        final(dec).wf(),
        final(dec)@ == extra_skip(old(dec)@, cat as int, CAT_LEN[cat as int] as nat),
        extra == extra_value(old(dec)@, cat as int, CAT_LEN[cat as int] as nat),
        final(dec)@.data == old(dec)@.data,
        extra < 2048,
{
    let mut n: usize = 0;
    let mut extra: u16 = 0;
    let mut limit: u16 = 1;
    proof {
        vstd::arithmetic::power2::lemma2_to64();
    }
    while n < CAT_LEN[cat]
        invariant
            cat < 6,
            n <= CAT_LEN[cat as int] <= 11,
            dec.wf(),
            dec@ == extra_skip(old(dec)@, cat as int, n as nat),
            dec@.data == old(dec)@.data,
            extra == extra_value(old(dec)@, cat as int, n as nat),
            extra < limit,
            limit == vstd::arithmetic::power2::pow2(n as nat),
            limit <= 2048,
        decreases CAT_LEN[cat as int] - n,
    {
        let b: bool = dec.get_bool(CAT_PROBS[cat][n]);
        proof {
            vstd::arithmetic::power2::lemma2_to64();
            if n + 1 < 11 {
                vstd::arithmetic::power2::lemma_pow2_strictly_increases((n + 1) as nat, 11);
            }
            vstd::arithmetic::power2::lemma_pow2_unfold((n + 1) as nat);
        }
        extra = 2 * extra + if b {
            1
        } else {
            0
        };
        limit = 2 * limit;
        n = n + 1;
    }
    extra
}

/// Reads the coefficient that belongs to `token`.
fn read_coefficient(dec: &mut BoolDecoder<'_>, token: u8) -> (v: i16)
    requires
        old(dec).wf(),
        token <= 10,
    ensures
        final(dec).wf(),
        final(dec)@ == read_value(old(dec)@, token as int).1,
        v == read_value(old(dec)@, token as int).0,
        final(dec)@.data == old(dec)@.data,
        -2114 <= v <= 2114,
{
    let magnitude: i16 = if token <= 4 {
        token as i16
    } else {
        let cat: usize = token as usize - 5;
        (CAT_BASE[cat] + read_extra(dec, cat)) as i16
    };
    if magnitude == 0 {
        return 0;
    }
    if dec.get_flag() {
        -magnitude
    } else {
        magnitude
    }
}

/// Reads one token.
fn next_token(dec: &mut BoolDecoder<'_>, probs: &[u8; 11], after_zero: bool) -> (token: u8)
    requires
        old(dec).wf(),
    ensures
        final(dec).wf(),
        token == read_token(old(dec)@, probs@, after_zero).0,
        final(dec)@ == read_token(old(dec)@, probs@, after_zero).1,
        final(dec)@.data == old(dec)@.data,
        token <= 11,
{
    let start: usize = if after_zero {
        2
    } else {
        0
    };
    proof {
        reveal(read_token);
        lemma_coeff_tree_ok();
        trees::lemma_leaf_bound(dec@, COEFF_TREE@, probs@, start as int, 11);
    }
    trees::read_tree_at(dec, &COEFF_TREE, probs, start)
}

/// Reads one block in scan order, with the number of nonzero neighbours as its
/// first context, and returns the position behind its last token, or zero
/// where the block is empty.
pub fn read_block(
    dec: &mut BoolDecoder<'_>,
    kind: BlockType,
    probs: &CoeffProbs,
    ctx: usize,
    coeffs: &mut [i16; 16],
) -> (end: usize)
    requires
        old(dec).wf(),
        ctx <= 2,
    ensures
        final(dec).wf(),
        final(dec)@ == read_block_at(old(dec)@, kind, flat_probs(*probs), ctx as int).rest,
        final(coeffs)@ == read_block_at(old(dec)@, kind, flat_probs(*probs), ctx as int).coeffs,
        end == read_block_at(old(dec)@, kind, flat_probs(*probs), ctx as int).end,
        final(dec)@.data == old(dec)@.data,
        forall|i: int| 0 <= i < 16 ==> -2114 <= #[trigger] final(coeffs)@[i] <= 2114,
{
    let plane: usize = kind.plane_index();
    let first: usize = kind.first_coeff();
    *coeffs = [0i16;16];
    assert(coeffs@ =~= Seq::new(16, |i: int| 0i16));
    let ghost d0 = dec@;
    let ghost target = read_coeffs(
        dec@,
        flat_probs(*probs),
        plane as int,
        first as int,
        ctx as int,
        false,
        coeffs@,
    );
    let mut ctx3: usize = ctx;
    let mut after_zero: bool = false;
    let mut i: usize = first;
    while i < 16
        invariant
            dec.wf(),
            d0 == old(dec)@,
            dec@.data == d0.data,
            plane == kind.plane() < 4,
            first == kind.first(),
            first <= i <= 16,
            ctx3 <= 2,
            target == read_coeffs(
                dec@,
                flat_probs(*probs),
                plane as int,
                i as int,
                ctx3 as int,
                after_zero,
                coeffs@,
            ),
            target == read_coeffs(
                d0,
                flat_probs(*probs),
                plane as int,
                first as int,
                ctx as int,
                false,
                Seq::new(16, |i: int| 0i16),
            ),
            forall|k: int| 0 <= k < 16 ==> -2114 <= #[trigger] coeffs@[k] <= 2114,
        decreases 16 - i,
    {
        proof {
            lemma_token_probs(*probs, plane as int, i as int, ctx3 as int);
        }
        let token: u8 = next_token(dec, &probs[plane][COEFF_BANDS[i]][ctx3], after_zero);
        if token == 11 {
            return if i == first {
                0
            } else {
                i
            };
        }
        let v: i16 = read_coefficient(dec, token);
        coeffs[i] = v;
        ctx3 = if v == 0 {
            0
        } else if v == 1 || v == -1 {
            1
        } else {
            2
        };
        after_zero = v == 0;
        i = i + 1;
    }
    16
}

/// Number of nonzero entries of a block.
fn count_nonzero(coeffs: &[i16; 16]) -> (r: usize)
    ensures
        r == nonzero_count(coeffs@, 16),
{
    let mut n: usize = 0;
    let mut i: usize = 0;
    while i < 16
        invariant
            i <= 16,
            n <= i,
            n == nonzero_count(coeffs@, i as nat),
        decreases 16 - i,
    {
        if coeffs[i] != 0 {
            n = n + 1;
        }
        i = i + 1;
    }
    n
}

/// Reads one block in scan order and returns how many of its coefficients are
/// not zero, or reports that the stream ended first.
pub fn decode_block(
    dec: &mut BoolDecoder<'_>,
    kind: BlockType,
    probs: &CoeffProbs,
    above_has_nonzero: bool,
    left_has_nonzero: bool,
    coeffs: &mut [i16; 16],
) -> (r: Result<usize, BoolDecoderError>)
    requires
        old(dec).wf(),
    ensures
        final(dec).wf(),
        ({
            let ctx = bool_decoder::bit_value(above_has_nonzero) + bool_decoder::bit_value(
                left_has_nonzero,
            );
            let block = read_block_at(old(dec)@, kind, flat_probs(*probs), ctx);
            &&& final(dec)@ == block.rest
            &&& final(coeffs)@ == block.coeffs
            &&& match r {
                Ok(n) => bool_decoder::dec_inside(block.rest) && n == nonzero_count(
                    block.coeffs,
                    16,
                ),
                Err(e) => !bool_decoder::dec_inside(block.rest) && e
                    == BoolDecoderError::EndOfStream,
            }
        }),
{
    let above: usize = if above_has_nonzero {
        1
    } else {
        0
    };
    let left: usize = if left_has_nonzero {
        1
    } else {
        0
    };
    let _ = read_block(dec, kind, probs, above + left, coeffs);
    if dec.overran() {
        return Err(BoolDecoderError::EndOfStream);
    }
    Ok(count_nonzero(coeffs))
}

/// Puts a scan-ordered block into raster order.
pub fn to_raster(scan: &[i16; 16]) -> (r: [i16; 16])
    ensures
        r@ == scan_to_raster(scan@),
{
    let mut r: [i16; 16] = [0i16;16];
    let mut i: usize = 0;
    while i < 16
        invariant
            i <= 16,
            forall|j: int| 0 <= j < i ==> #[trigger] r[j] == scan_to_raster(scan@)[j],
        decreases 16 - i,
    {
        r[i] = scan[UNZIGZAG[i]];
        i = i + 1;
    }
    assert(r@ =~= scan_to_raster(scan@));
    r
}

/// Token that stands for a magnitude.
pub open spec fn token_number(magnitude: int) -> int {
    if magnitude <= 4 {
        magnitude
    } else if magnitude <= 6 {
        5
    } else if magnitude <= 10 {
        6
    } else if magnitude <= 18 {
        7
    } else if magnitude <= 34 {
        8
    } else if magnitude <= 66 {
        9
    } else {
        10
    }
}

/// The booleans that write the low `n` bits of `x` as extra bits.
pub open spec fn extra_ops(cat: int, x: int, n: nat) -> Seq<(u8, bool)>
    decreases n,
{
    if n == 0 {
        Seq::empty()
    } else {
        extra_ops(cat, x / 2, (n - 1) as nat) + range_coder::one_op(
            CAT_PROBS[cat][n - 1],
            x % 2 == 1,
        )
    }
}

/// The booleans that write a magnitude behind its token.
pub open spec fn magnitude_ops(magnitude: int) -> Seq<(u8, bool)> {
    if magnitude <= 4 {
        Seq::empty()
    } else {
        let cat = token_number(magnitude) - 5;
        extra_ops(cat, magnitude - CAT_BASE[cat], CAT_LEN[cat] as nat)
    }
}

/// The boolean that writes the sign of a nonzero coefficient.
pub open spec fn sign_ops(v: int) -> Seq<(u8, bool)> {
    if v == 0 {
        Seq::empty()
    } else {
        range_coder::one_op(128, v < 0)
    }
}

/// The booleans that write one coefficient.
pub open spec fn coefficient_ops(probs: Seq<u8>, after_zero: bool, v: int) -> Seq<(u8, bool)> {
    token_ops(probs, after_zero, token_number(magnitude_of(v))) + magnitude_ops(magnitude_of(v))
        + sign_ops(v)
}

/// Position of the last nonzero entry among the first `n`, or -1.
pub open spec fn last_nonzero(s: Seq<i16>, n: nat) -> int
    decreases n,
{
    if n == 0 {
        -1
    } else if s[n - 1] != 0 {
        n - 1
    } else {
        last_nonzero(s, (n - 1) as nat)
    }
}

/// The booleans that write the coefficients from position `i` on, the last
/// nonzero one being at `last`.
pub open spec fn coeff_ops(
    probs: Seq<u8>,
    plane: int,
    s: Seq<i16>,
    i: int,
    ctx: int,
    after_zero: bool,
    last: int,
) -> Seq<(u8, bool)>
    decreases 16 - i,
{
    if i >= 16 {
        Seq::empty()
    } else {
        let row = token_probs(probs, plane, i, ctx);
        if i > last {
            token_ops(row, after_zero, 11)
        } else {
            coefficient_ops(row, after_zero, s[i] as int) + coeff_ops(
                probs,
                plane,
                s,
                i + 1,
                next_ctx(magnitude_of(s[i] as int)),
                s[i] == 0,
                last,
            )
        }
    }
}

/// What a block of type `kind` carries of the coefficients in `s`.
pub open spec fn carried(s: Seq<i16>, kind: BlockType) -> Seq<i16> {
    Seq::new(
        16,
        |i: int|
            if i < kind.first() {
                0i16
            } else {
                s[i]
            },
    )
}

/// The booleans that write a block.
pub open spec fn block_ops(
    probs: Seq<u8>,
    kind: BlockType,
    ctx: int,
    s: Seq<i16>,
) -> Seq<(u8, bool)> {
    coeff_ops(
        probs,
        kind.plane(),
        carried(s, kind),
        kind.first(),
        ctx,
        false,
        last_nonzero(carried(s, kind), 16),
    )
}

/// Every coefficient that the block carries is in the alphabet's reach.
pub open spec fn in_reach(s: Seq<i16>, kind: BlockType) -> bool {
    forall|i: int| kind.first() <= i < 16 ==> -2114 <= #[trigger] s[i] <= 2114
}

/// Every token but the end of the block is reached from either start, and
/// that one from the first.
pub proof fn lemma_tokens_reached(token: int)
    requires
        0 <= token <= 11,
    ensures
        trees::tree_path(COEFF_TREE@, 0, token) is Some,
        token <= 10 ==> trees::tree_path(COEFF_TREE@, 2, token) is Some,
{
    let t = COEFF_TREE@;
    assert(trees::tree_path(t, 20, token) is Some <==> 9 <= token <= 10);
    assert(trees::tree_path(t, 18, token) is Some <==> 7 <= token <= 8);
    assert(trees::tree_path(t, 16, token) is Some <==> 7 <= token <= 10);
    assert(trees::tree_path(t, 14, token) is Some <==> 5 <= token <= 6);
    assert(trees::tree_path(t, 12, token) is Some <==> 5 <= token <= 10);
    assert(trees::tree_path(t, 10, token) is Some <==> 3 <= token <= 4);
    assert(trees::tree_path(t, 8, token) is Some <==> 2 <= token <= 4);
    assert(trees::tree_path(t, 6, token) is Some <==> 2 <= token <= 10);
    assert(trees::tree_path(t, 4, token) is Some <==> 1 <= token <= 10);
    assert(trees::tree_path(t, 2, token) is Some <==> 0 <= token <= 10);
    assert(trees::tree_path(t, 0, token) is Some <==> 0 <= token <= 11);
}

proof fn lemma_extra_reads_back(d: DecState, cat: int, x: int, n: nat)
    requires
        0 <= x < vstd::arithmetic::power2::pow2(n),
        range_coder::decodes(d, extra_ops(cat, x, n)),
    ensures
        extra_value(d, cat, n) == x,
        extra_skip(d, cat, n) == range_coder::dec_after(d, extra_ops(cat, x, n)),
    decreases n,
{
    if n == 0 {
        vstd::arithmetic::power2::lemma2_to64();
        range_coder::lemma_decodes_nothing(d);
    } else {
        vstd::arithmetic::power2::lemma_pow2_unfold(n);
        let before = extra_ops(cat, x / 2, (n - 1) as nat);
        let prob = CAT_PROBS[cat][n - 1];
        let last = range_coder::one_op(prob, x % 2 == 1);
        range_coder::lemma_decodes_append(d, before, last);
        lemma_extra_reads_back(d, cat, x / 2, (n - 1) as nat);
        range_coder::lemma_decodes_one(range_coder::dec_after(d, before), prob, x % 2 == 1);
    }
}

proof fn lemma_token_reads_back(d: DecState, probs: Seq<u8>, after_zero: bool, token: int)
    requires
        0 <= token <= 11,
        after_zero ==> token <= 10,
        range_coder::decodes(d, token_ops(probs, after_zero, token)),
    ensures
        read_token(d, probs, after_zero) == (
            token,
            range_coder::dec_after(d, token_ops(probs, after_zero, token)),
        ),
{
    reveal(read_token);
    reveal(token_ops);
    lemma_coeff_tree_ok();
    lemma_tokens_reached(token);
    trees::law_leaf_reads_back(d, COEFF_TREE@, probs, token_start(after_zero), token);
}

proof fn lemma_magnitude_reads_back(d: DecState, m: int)
    requires
        0 <= m <= 2114,
        range_coder::decodes(d, magnitude_ops(m)),
    ensures
        read_magnitude(d, token_number(m)) == (m, range_coder::dec_after(d, magnitude_ops(m))),
{
    if m > 4 {
        let cat = token_number(m) - 5;
        vstd::arithmetic::power2::lemma2_to64();
        lemma_extra_reads_back(d, cat, m - CAT_BASE[cat], CAT_LEN[cat] as nat);
    } else {
        range_coder::lemma_decodes_nothing(d);
    }
}

/// A reader that meets the booleans written for a coefficient reads it.
proof fn lemma_coefficient_reads_back(d: DecState, probs: Seq<u8>, after_zero: bool, v: int)
    requires
        -2114 <= v <= 2114,
        range_coder::decodes(d, coefficient_ops(probs, after_zero, v)),
    ensures
        ({
            let (token, d1) = read_token(d, probs, after_zero);
            &&& token == token_number(magnitude_of(v))
            &&& read_value(d1, token) == (
                v,
                range_coder::dec_after(d, coefficient_ops(probs, after_zero, v)),
            )
        }),
{
    let m = magnitude_of(v);
    let token = token_number(m);
    let leaf = token_ops(probs, after_zero, token);
    let mag = magnitude_ops(m);
    let sign = sign_ops(v);
    range_coder::lemma_decodes_append(d, leaf + mag, sign);
    range_coder::lemma_decodes_append(d, leaf, mag);
    lemma_token_reads_back(d, probs, after_zero, token);
    let d1 = range_coder::dec_after(d, leaf);
    lemma_magnitude_reads_back(d1, m);
    let d2 = range_coder::dec_after(d1, mag);
    if v != 0 {
        range_coder::lemma_decodes_one(d2, 128, v < 0);
    } else {
        range_coder::lemma_decodes_nothing(d2);
    }
}

pub proof fn lemma_last_nonzero(s: Seq<i16>, n: nat)
    requires
        n <= s.len(),
    ensures
        -1 <= last_nonzero(s, n) < n,
        last_nonzero(s, n) >= 0 ==> s[last_nonzero(s, n)] != 0,
        forall|i: int| last_nonzero(s, n) < i < n ==> #[trigger] s[i] == 0,
    decreases n,
{
    if n > 0 {
        lemma_last_nonzero(s, (n - 1) as nat);
    }
}

proof fn lemma_coeffs_read_back(
    d: DecState,
    probs: Seq<u8>,
    plane: int,
    s: Seq<i16>,
    i: int,
    ctx: int,
    after_zero: bool,
    last: int,
    acc: Seq<i16>,
)
    requires
        s.len() == 16,
        acc.len() == 16,
        0 <= i <= 16,
        -1 <= last < 16,
        last >= 0 ==> s[last] != 0,
        after_zero ==> i <= last,
        forall|j: int| last < j < 16 ==> #[trigger] s[j] == 0,
        forall|j: int| i <= j < 16 ==> -2114 <= #[trigger] s[j] <= 2114,
        forall|j: int| i <= j < 16 ==> #[trigger] acc[j] == 0,
        range_coder::decodes(d, coeff_ops(probs, plane, s, i, ctx, after_zero, last)),
    ensures
        ({
            let r = read_coeffs(d, probs, plane, i, ctx, after_zero, acc);
            &&& r.coeffs == acc.take(i) + s.skip(i)
            &&& r.end == if i <= last {
                last + 1
            } else {
                i
            }
            &&& r.rest == range_coder::dec_after(
                d,
                coeff_ops(probs, plane, s, i, ctx, after_zero, last),
            )
        }),
    decreases 16 - i,
{
    let r = read_coeffs(d, probs, plane, i, ctx, after_zero, acc);
    if i >= 16 {
        range_coder::lemma_decodes_nothing(d);
        assert(acc =~= acc.take(i) + s.skip(i));
    } else {
        let row = token_probs(probs, plane, i, ctx);
        if i > last {
            lemma_token_reads_back(d, row, after_zero, 11);
            assert(acc =~= acc.take(i) + s.skip(i));
        } else {
            let v = s[i] as int;
            let here = coefficient_ops(row, after_zero, v);
            let more = coeff_ops(
                probs,
                plane,
                s,
                i + 1,
                next_ctx(magnitude_of(v)),
                v == 0,
                last,
            );
            range_coder::lemma_decodes_append(d, here, more);
            lemma_coefficient_reads_back(d, row, after_zero, v);
            let acc1 = acc.update(i, s[i]);
            lemma_coeffs_read_back(
                range_coder::dec_after(d, here),
                probs,
                plane,
                s,
                i + 1,
                next_ctx(magnitude_of(v)),
                v == 0,
                last,
                acc1,
            );
            assert(acc1.take(i + 1) + s.skip(i + 1) =~= acc.take(i) + s.skip(i));
        }
    }
}

/// A reader that meets the booleans written for a block reads the coefficients
/// that the block carries, finds it empty exactly where they are all zero, and
/// stands behind it.
pub proof fn law_block_reads_back(
    d: DecState,
    probs: Seq<u8>,
    kind: BlockType,
    ctx: int,
    s: Seq<i16>,
)
    requires
        s.len() == 16,
        in_reach(s, kind),
        range_coder::decodes(d, block_ops(probs, kind, ctx, s)),
    ensures
        read_block_at(d, kind, probs, ctx).coeffs == carried(s, kind),
        read_block_at(d, kind, probs, ctx).end == 0 <==> (forall|i: int|
            0 <= i < 16 ==> #[trigger] carried(s, kind)[i] == 0),
        read_block_at(d, kind, probs, ctx).rest == range_coder::dec_after(
            d,
            block_ops(probs, kind, ctx, s),
        ),
{
    let c = carried(s, kind);
    let last = last_nonzero(c, 16);
    lemma_last_nonzero(c, 16);
    let zeros = Seq::new(16, |i: int| 0i16);
    lemma_coeffs_read_back(
        d,
        probs,
        kind.plane(),
        c,
        kind.first(),
        ctx,
        false,
        last,
        zeros,
    );
    assert(zeros.take(kind.first()) + c.skip(kind.first()) =~= c);
    if last >= 0 {
        assert(c[last] != 0);
    }
}

/// The end of a block is not negative.
pub proof fn lemma_block_end(d: DecState, kind: BlockType, probs: Seq<u8>, ctx: int)
    ensures
        read_block_at(d, kind, probs, ctx).end >= 0,
        read_block_at(d, kind, probs, ctx).coeffs.len() == 16,
{
    lemma_coeffs_end(
        d,
        probs,
        kind.plane(),
        kind.first(),
        ctx,
        false,
        Seq::new(16, |i: int| 0i16),
    );
}

proof fn lemma_coeffs_end(
    d: DecState,
    probs: Seq<u8>,
    plane: int,
    i: int,
    ctx: int,
    after_zero: bool,
    acc: Seq<i16>,
)
    requires
        0 <= i,
        acc.len() == 16,
    ensures
        read_coeffs(d, probs, plane, i, ctx, after_zero, acc).end >= 0,
        read_coeffs(d, probs, plane, i, ctx, after_zero, acc).coeffs.len() == 16,
    decreases 16 - i,
{
    if i < 16 {
        let (token, d1) = read_token(d, token_probs(probs, plane, i, ctx), after_zero);
        if token != 11 {
            let (v, d2) = read_value(d1, token);
            lemma_coeffs_end(
                d2,
                probs,
                plane,
                i + 1,
                next_ctx(magnitude_of(v)),
                v == 0,
                acc.update(i, v as i16),
            );
        }
    }
}

} // verus!
