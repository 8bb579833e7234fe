//! Writing coefficients as tokens.
use crate::bool_decoder;
use crate::encode_error::TokenEncodeError;
use crate::encoder::BoolEncoder;
use crate::forward_transform;
use crate::forward_transform::raster_to_scan;
use crate::frame;
use crate::frame::{CoeffModel, MbCoeffs};
use crate::mb_tokens;
use crate::mb_tokens::{block_of, kind_at, MbEntropyCtx, ABOVE_CTX, LEFT_CTX};
use crate::range_coder;
use crate::tables::{CoeffProbs, CAT_BASE, CAT_LEN, CAT_PROBS, COEFF_BANDS, COEFF_TREE};
use crate::tokens;
use crate::tokens::{BlockType, DctToken};
use crate::trees::push_leaf;
use vstd::arithmetic::power2::pow2;
use vstd::prelude::*;

verus! {

/// Token that stands for a magnitude.
pub fn classify_coeff_token(abs_value: u16) -> (t: DctToken)
    ensures
        t.number() == tokens::token_number(abs_value as int),
{
    if abs_value == 0 {
        DctToken::Dct0
    } else if abs_value == 1 {
        DctToken::Dct1
    } else if abs_value == 2 {
        DctToken::Dct2
    } else if abs_value == 3 {
        DctToken::Dct3
    } else if abs_value == 4 {
        DctToken::Dct4
    } else if abs_value <= 6 {
        DctToken::Cat1
    } else if abs_value <= 10 {
        DctToken::Cat2
    } else if abs_value <= 18 {
        DctToken::Cat3
    } else if abs_value <= 34 {
        DctToken::Cat4
    } else if abs_value <= 66 {
        DctToken::Cat5
    } else {
        DctToken::Cat6
    }
}

/// Position of the first coefficient from `i` on that is out of reach.
pub open spec fn first_out_of_reach(s: Seq<i16>, i: int) -> Option<int>
    decreases 16 - i,
{
    if i >= 16 {
        None
    } else if s[i] < -2114 || s[i] > 2114 {
        Some(i)
    } else {
        first_out_of_reach(s, i + 1)
    }
}

/// What is wrong with a block, if anything.
pub open spec fn block_fault(s: Seq<i16>, kind: BlockType) -> Option<TokenEncodeError> {
    match first_out_of_reach(s, kind.first()) {
        Some(i) => Some(
            TokenEncodeError::CoefficientOutOfRange { index: i as usize, value: s[i] },
        ),
        None => None,
    }
}

/// A block without fault is in reach.
pub proof fn lemma_no_fault_in_reach(s: Seq<i16>, kind: BlockType)
    ensures
        block_fault(s, kind) is None <==> tokens::in_reach(s, kind),
{
    lemma_in_reach_from(s, kind.first());
}

proof fn lemma_in_reach_from(s: Seq<i16>, i: int)
    requires
        0 <= i,
    ensures
        first_out_of_reach(s, i) is None <==> (forall|j: int|
            i <= j < 16 ==> -2114 <= #[trigger] s[j] <= 2114),
    decreases 16 - i,
{
    if i < 16 {
        lemma_in_reach_from(s, i + 1);
        if first_out_of_reach(s, i) is None {
            assert forall|j: int| i <= j < 16 implies -2114 <= #[trigger] s[j] <= 2114 by {
                if j > i {
                    assert(i + 1 <= j < 16);
                }
            }
        }
    }
}

fn check_reach(coeffs: &[i16; 16], first: usize) -> (r: Option<usize>)
    requires
        first <= 1,
    ensures
        match r {
            Some(i) => first_out_of_reach(coeffs@, first as int) == Some(i as int) && i < 16,
            None => first_out_of_reach(coeffs@, first as int) is None,
        },
{
    let mut i: usize = first;
    while i < 16
        invariant
            first <= i <= 16,
            first_out_of_reach(coeffs@, i as int) == first_out_of_reach(coeffs@, first as int),
        decreases 16 - i,
    {
        if coeffs[i] < -2114 || coeffs[i] > 2114 {
            return Some(i);
        }
        i = i + 1;
    }
    None
}

fn magnitude(v: i16) -> (m: u16)
    ensures
        m == tokens::magnitude_of(v as int),
{
    if v < 0 {
        (-(v as i32)) as u16
    } else {
        v as u16
    }
}

/// Writes the extra bits of category `cat`.
fn write_extra(out: &mut Vec<(u8, bool)>, cat: usize, extra: u16)
    requires
        cat < 6,
    ensures
        final(out)@ == old(out)@ + tokens::extra_ops(
            cat as int,
            extra as int,
            CAT_LEN[cat as int] as nat,
        ),
{
    let n: usize = CAT_LEN[cat];
    let value: u32 = extra as u32;
    let mut left: u32 = n as u32;
    let mut k: usize = 0;
    proof {
        vstd::arithmetic::power2::lemma_pow2_pos(n as nat);
        assert(out@ =~= out@ + tokens::extra_ops(cat as int, value as int / pow2(n as nat) as int, 0));
    }
    while k < n
        invariant
            k <= n,
            n == CAT_LEN[cat as int],
            n <= 11,
            cat < 6,
            left == n - k,
            value == extra,
            out@ == old(out)@ + tokens::extra_ops(
                cat as int,
                value as int / pow2(left as nat) as int,
                k as nat,
            ),
        decreases n - k,
    {
        let ghost high = value as int / pow2(left as nat) as int;
        let ghost before = out@;
        left = left - 1;
        let shifted: u32 = value >> left;
        proof {
            vstd::bits::lemma_u32_shr_is_div(value, left);
            vstd::arithmetic::power2::lemma_pow2_unfold((left + 1) as nat);
            vstd::arithmetic::power2::lemma_pow2_pos(left as nat);
            vstd::arithmetic::div_mod::lemma_div_denominator(
                value as int,
                pow2(left as nat) as int,
                2,
            );
            vstd::arithmetic::mul::lemma_mul_is_commutative(pow2(left as nat) as int, 2);
            assert(shifted as int / 2 == high);
        }
        out.push((CAT_PROBS[cat][k], shifted % 2 == 1));
        proof {
            assert(out@ =~= before + range_coder::one_op(
                CAT_PROBS[cat as int][k as int],
                shifted % 2 == 1,
            ));
            range_coder::lemma_append_assoc(
                old(out)@,
                tokens::extra_ops(cat as int, high, k as nat),
                range_coder::one_op(CAT_PROBS[cat as int][k as int], shifted % 2 == 1),
            );
        }
        k = k + 1;
    }
    proof {
        vstd::arithmetic::power2::lemma2_to64();
        assert(value as int / 1 == value);
    }
}

/// Writes a token.
fn write_token(out: &mut Vec<(u8, bool)>, probs: &[u8; 11], after_zero: bool, token: DctToken)
    requires
        after_zero ==> token != DctToken::Eob,
    ensures
        final(out)@ == old(out)@ + tokens::token_ops(probs@, after_zero, token.number()),
{
    let start: usize = if after_zero {
        2
    } else {
        0
    };
    proof {
        reveal(tokens::token_ops);
        tokens::lemma_coeff_tree_ok();
        tokens::lemma_tokens_reached(token.number());
    }
    push_leaf(out, &COEFF_TREE, probs, start, token.leaf());
}

/// Writes one coefficient.
fn write_coefficient(out: &mut Vec<(u8, bool)>, probs: &[u8; 11], after_zero: bool, v: i16)
    ensures
        final(out)@ == old(out)@ + tokens::coefficient_ops(probs@, after_zero, v as int),
{
    let m: u16 = magnitude(v);
    let token: DctToken = classify_coeff_token(m);
    let ghost e0 = out@;
    let ghost o0 = tokens::token_ops(probs@, after_zero, token.number());
    let ghost o1 = tokens::magnitude_ops(m as int);
    let ghost o2 = tokens::sign_ops(v as int);
    write_token(out, probs, after_zero, token);
    if m > 4 {
        let cat: usize = token.leaf() as usize - 5;
        write_extra(out, cat, m - CAT_BASE[cat]);
    } else {
        assert(out@ =~= e0 + o0 + o1);
    }
    if m != 0 {
        let ghost before = out@;
        out.push((128, v < 0));
        assert(out@ =~= before + o2);
    } else {
        assert(out@ =~= e0 + o0 + o1 + o2);
    }
    proof {
        range_coder::lemma_append_assoc(e0, o0, o1);
        range_coder::lemma_append_assoc(e0, o0 + o1, o2);
    }
}

/// Position behind the last nonzero coefficient that the block carries.
fn end_of_block(coeffs: &[i16; 16], first: usize, Ghost(kind): Ghost<BlockType>) -> (end: usize)
    requires
        first == kind.first(),
    ensures
        end == tokens::last_nonzero(tokens::carried(coeffs@, kind), 16) + 1,
        end <= 16,
        end == 0 || end > first,
{
    let ghost c = tokens::carried(coeffs@, kind);
    let mut n: usize = 16;
    while n > first
        invariant
            first <= n <= 16,
            first == kind.first(),
            c == tokens::carried(coeffs@, kind),
            tokens::last_nonzero(c, n as nat) == tokens::last_nonzero(c, 16),
        decreases n,
    {
        if coeffs[n - 1] != 0 {
            return n;
        }
        n = n - 1;
    }
    proof {
        lemma_nothing_before(c, kind);
    }
    0
}

proof fn lemma_nothing_before(c: Seq<i16>, kind: BlockType)
    requires
        c.len() == 16,
        kind.first() == 1 ==> c[0] == 0,
    ensures
        tokens::last_nonzero(c, kind.first() as nat) == -1,
{
    assert(tokens::last_nonzero(c, 0) == -1);
}

/// The booleans that write a block in scan order.
pub fn block_symbols(
    block_type: BlockType,
    coeff_probs: &CoeffProbs,
    above_has_nonzero: bool,
    left_has_nonzero: bool,
    coeffs: &[i16; 16],
) -> (ops: Vec<(u8, bool)>)
    ensures
        ops@ == tokens::block_ops(
            tokens::flat_probs(*coeff_probs),
            block_type,
            bool_decoder::bit_value(above_has_nonzero) + bool_decoder::bit_value(
                left_has_nonzero,
            ),
            coeffs@,
        ),
{
    let plane: usize = block_type.plane_index();
    let first: usize = block_type.first_coeff();
    let mut ops: Vec<(u8, bool)> = Vec::new();
    let ghost probs = tokens::flat_probs(*coeff_probs);
    let ghost c = tokens::carried(coeffs@, block_type);
    let ghost last = tokens::last_nonzero(c, 16);
    let a: usize = if above_has_nonzero {
        1
    } else {
        0
    };
    let l: usize = if left_has_nonzero {
        1
    } else {
        0
    };
    let end: usize = end_of_block(coeffs, first, Ghost(block_type));
    proof {
        tokens::lemma_last_nonzero(c, 16);
    }
    let mut ctx: usize = a + l;
    let mut after_zero: bool = false;
    let mut i: usize = first;
    let ghost all = tokens::block_ops(probs, block_type, ctx as int, coeffs@);
    assert(ops@ + all =~= all);
    while i < end
        invariant
            first <= i <= 16,
            i <= end || end == 0,
            end <= 16,
            first == block_type.first(),
            plane == block_type.plane() < 4,
            ctx <= 2,
            last == end - 1,
            last >= 0 ==> c[last] != 0,
            probs == tokens::flat_probs(*coeff_probs),
            c == tokens::carried(coeffs@, block_type),
            after_zero ==> i < end,
            all == ops@ + tokens::coeff_ops(
                probs,
                plane as int,
                c,
                i as int,
                ctx as int,
                after_zero,
                last,
            ),
        decreases end - i,
    {
        let v: i16 = coeffs[i];
        assert(c[i as int] == v);
        proof {
            tokens::lemma_token_probs(*coeff_probs, plane as int, i as int, ctx as int);
        }
        let ghost row = tokens::token_probs(probs, plane as int, i as int, ctx as int);
        let ghost here = tokens::coefficient_ops(row, after_zero, v as int);
        let ghost before = ops@;
        write_coefficient(&mut ops, &coeff_probs[plane][COEFF_BANDS[i]][ctx], after_zero, v);
        proof {
            let more = tokens::coeff_ops(
                probs,
                plane as int,
                c,
                i + 1,
                tokens::next_ctx(tokens::magnitude_of(v as int)),
                v == 0,
                last,
            );
            range_coder::lemma_append_assoc(before, here, more);
        }
        ctx = if v == 0 {
            0
        } else if v == 1 || v == -1 {
            1
        } else {
            2
        };
        after_zero = v == 0;
        i = i + 1;
    }
    if i < 16 {
        proof {
            tokens::lemma_token_probs(*coeff_probs, plane as int, i as int, ctx as int);
        }
        write_token(
            &mut ops,
            &coeff_probs[plane][COEFF_BANDS[i]][ctx],
            after_zero,
            DctToken::Eob,
        );
    } else {
        assert(ops@ =~= all);
    }
    ops
}

/// Number of coefficients that the block carries and that are not zero.
fn count_carried(coeffs: &[i16; 16], first: usize, Ghost(kind): Ghost<BlockType>) -> (n: usize)
    requires
        first == kind.first(),
    ensures
        n == tokens::nonzero_count(tokens::carried(coeffs@, kind), 16),
{
    let ghost c = tokens::carried(coeffs@, kind);
    let mut n: usize = 0;
    let mut i: usize = first;
    proof {
        lemma_count_start(c, kind);
    }
    while i < 16
        invariant
            first <= i <= 16,
            first == kind.first(),
            n <= i,
            c == tokens::carried(coeffs@, kind),
            n == tokens::nonzero_count(c, i as nat),
        decreases 16 - i,
    {
        if coeffs[i] != 0 {
            n = n + 1;
        }
        i = i + 1;
    }
    n
}

/// Writes a block in scan order and returns how many of its coefficients are
/// not zero. A coefficient out of the alphabet's reach is refused before
/// anything is written.
pub fn encode_coeff_block(
    enc: &mut BoolEncoder,
    block_type: BlockType,
    coeff_probs: &CoeffProbs,
    above_has_nonzero: bool,
    left_has_nonzero: bool,
    coeffs: &[i16; 16],
) -> (r: Result<usize, TokenEncodeError>)
    requires
        old(enc).wf(),
    ensures
        final(enc).wf(),
        match r {
            Ok(n) => {
                &&& block_fault(coeffs@, block_type) is None
                &&& n == tokens::nonzero_count(tokens::carried(coeffs@, block_type), 16)
                &&& final(enc)@ == old(enc)@ + tokens::block_ops(
                    tokens::flat_probs(*coeff_probs),
                    block_type,
                    bool_decoder::bit_value(above_has_nonzero) + bool_decoder::bit_value(
                        left_has_nonzero,
                    ),
                    coeffs@,
                )
            },
            Err(e) => {
                &&& block_fault(coeffs@, block_type) == Some(e)
                &&& final(enc)@ == old(enc)@
            },
        },
{
    let first: usize = block_type.first_coeff();
    if let Some(i) = check_reach(coeffs, first) {
        return Err(TokenEncodeError::CoefficientOutOfRange { index: i, value: coeffs[i] });
    }
    let ops: Vec<(u8, bool)> = block_symbols(
        block_type,
        coeff_probs,
        above_has_nonzero,
        left_has_nonzero,
        coeffs,
    );
    enc.write_ops(&ops);
    Ok(count_carried(coeffs, first, Ghost(block_type)))
}

proof fn lemma_count_start(c: Seq<i16>, kind: BlockType)
    requires
        c.len() == 16,
        kind.first() == 1 ==> c[0] == 0,
    ensures
        tokens::nonzero_count(c, kind.first() as nat) == 0,
{
    assert(tokens::nonzero_count(c, 0) == 0);
}

/// Writes blocks into one token partition.
pub struct TokenEncoder {
    enc: BoolEncoder,
    coeff_probs: CoeffProbs,
}

impl View for TokenEncoder {
    type V = Seq<(u8, bool)>;

    /// The booleans coded so far, each with its probability.
    closed spec fn view(&self) -> Seq<(u8, bool)> {
        self.enc@
    }
}

impl TokenEncoder {
    pub closed spec fn wf(&self) -> bool {
        self.enc.wf()
    }

    /// The probabilities in one row.
    pub closed spec fn probs(&self) -> Seq<u8> {
        tokens::flat_probs(self.coeff_probs)
    }

    pub fn new(coeff_probs: CoeffProbs) -> (e: Self)
        ensures
            e.wf(),
            e@ == Seq::<(u8, bool)>::empty(),
            e.probs() == tokens::flat_probs(coeff_probs),
    {
        TokenEncoder { enc: BoolEncoder::new(), coeff_probs }
    }

    /// Writes a block in scan order.
    pub fn encode_block(
        &mut self,
        block_type: BlockType,
        above_has_nonzero: bool,
        left_has_nonzero: bool,
        coeffs: &[i16; 16],
    ) -> (r: Result<usize, TokenEncodeError>)
        requires
            old(self).wf(),
        ensures
            final(self).wf(),
            final(self).probs() == old(self).probs(),
            match r {
                Ok(n) => {
                    &&& block_fault(coeffs@, block_type) is None
                    &&& n == tokens::nonzero_count(tokens::carried(coeffs@, block_type), 16)
                    &&& final(self)@ == old(self)@ + tokens::block_ops(
                        old(self).probs(),
                        block_type,
                        bool_decoder::bit_value(above_has_nonzero) + bool_decoder::bit_value(
                            left_has_nonzero,
                        ),
                        coeffs@,
                    )
                },
                Err(e) => {
                    &&& block_fault(coeffs@, block_type) == Some(e)
                    &&& final(self)@ == old(self)@
                },
            },
    {
        encode_coeff_block(
            &mut self.enc,
            block_type,
            &self.coeff_probs,
            above_has_nonzero,
            left_has_nonzero,
            coeffs,
        )
    }

    /// Ends the partition and returns its bytes.
    pub fn finish(self) -> (bytes: Vec<u8>)
        requires
            self.wf(),
        ensures
            range_coder::is_code(bytes@, self@),
    {
        self.enc.finish()
    }

    /// Number of bytes that have left the register.
    pub fn bytes_written(&self) -> (n: usize)
        requires
            self.wf(),
        ensures
            n == range_coder::emitted(range_coder::enc_run(self@).shifts),
    {
        self.enc.bytes_written()
    }
}

/// What is wrong with the first `n` blocks of a macroblock, if anything.
pub open spec fn mb_fault(blocks: Seq<Seq<i16>>, has_y2: bool, n: nat) -> Option<TokenEncodeError>
    decreases n,
{
    if n == 0 {
        None
    } else {
        let before = mb_fault(blocks, has_y2, (n - 1) as nat);
        let b = mb_tokens::block_in_order(n - 1);
        if before is Some || (b == 24 && !has_y2) {
            before
        } else {
            block_fault(
                forward_transform::scan_order(blocks[b]),
                mb_tokens::kind_of(b, has_y2),
            )
        }
    }
}

/// What is wrong with a macroblock, if anything.
pub open spec fn coeffs_fault(c: CoeffModel, has_y2: bool) -> Option<TokenEncodeError> {
    mb_fault(mb_tokens::in_row(c), has_y2, 25)
}

proof fn lemma_fault_stays(blocks: Seq<Seq<i16>>, has_y2: bool, n: nat, m: nat)
    requires
        n <= m,
        mb_fault(blocks, has_y2, n) is Some,
    ensures
        mb_fault(blocks, has_y2, m) == mb_fault(blocks, has_y2, n),
    decreases m,
{
    if n < m {
        lemma_fault_stays(blocks, has_y2, n, (m - 1) as nat);
    }
}

/// A macroblock without fault is in reach.
pub proof fn lemma_mb_without_fault(blocks: Seq<Seq<i16>>, has_y2: bool)
    requires
        mb_fault(blocks, has_y2, 25) is None,
    ensures
        mb_tokens::mb_in_reach(blocks, has_y2),
{
    assert forall|b: int| 0 <= b < 25 && (b < 24 || has_y2) implies tokens::in_reach(
        forward_transform::scan_order(#[trigger] blocks[b]),
        mb_tokens::kind_of(b, has_y2),
    ) by {
        let n = if b == 24 {
            1nat
        } else {
            (b + 2) as nat
        };
        assert(mb_tokens::block_in_order(n - 1) == b);
        if mb_fault(blocks, has_y2, n) is Some {
            lemma_fault_stays(blocks, has_y2, n, 25);
        }
        if mb_fault(blocks, has_y2, (n - 1) as nat) is Some {
            lemma_fault_stays(blocks, has_y2, (n - 1) as nat, 25);
        }
        lemma_no_fault_in_reach(
            forward_transform::scan_order(blocks[b]),
            mb_tokens::kind_of(b, has_y2),
        );
    }
}

/// The coefficients that a block carries are all zero exactly where their
/// count is.
proof fn lemma_count_is_zero(c: Seq<i16>, n: nat)
    requires
        n <= c.len(),
    ensures
        tokens::nonzero_count(c, n) == 0 <==> (forall|i: int| 0 <= i < n ==> #[trigger] c[i] == 0),
    decreases n,
{
    if n > 0 {
        lemma_count_is_zero(c, (n - 1) as nat);
    }
}

/// Writes block `b` of a macroblock.
fn encode_block_with_ctx(
    enc: &mut BoolEncoder,
    b: usize,
    kind: BlockType,
    probs: &CoeffProbs,
    block: &[i16; 16],
    above: &mut MbEntropyCtx,
    left: &mut MbEntropyCtx,
) -> (r: Result<bool, TokenEncodeError>)
    requires
        old(enc).wf(),
        b < 25,
    ensures
        final(enc).wf(),
        ({
            let scan = forward_transform::scan_order(block@);
            match r {
                Ok(nonzero) => {
                    &&& block_fault(scan, kind) is None
                    &&& nonzero == mb_tokens::carries(block@, kind)
                    &&& final(enc)@ == old(enc)@ + tokens::block_ops(
                        tokens::flat_probs(*probs),
                        kind,
                        mb_tokens::block_ctx(old(above)@, old(left)@, b as int),
                        scan,
                    )
                    &&& final(above)@ == old(above)@.update(ABOVE_CTX[b as int] as int, nonzero)
                    &&& final(left)@ == old(left)@.update(LEFT_CTX[b as int] as int, nonzero)
                },
                Err(e) => block_fault(scan, kind) == Some(e),
            }
        }),
{
    let a: usize = ABOVE_CTX[b];
    let l: usize = LEFT_CTX[b];
    let scan: [i16; 16] = raster_to_scan(block);
    let n: usize = match encode_coeff_block(
        enc,
        kind,
        probs,
        above.nonzero[a],
        left.nonzero[l],
        &scan,
    ) {
        Ok(n) => n,
        Err(e) => {
            return Err(e);
        },
    };
    proof {
        let c = tokens::carried(scan@, kind);
        lemma_count_is_zero(c, 16);
        if n != 0 {
            let i = choose|i: int| 0 <= i < 16 && #[trigger] c[i] != 0;
            assert(c[i] != 0);
        }
    }
    above.nonzero[a] = n != 0;
    left.nonzero[l] = n != 0;
    Ok(n != 0)
}

/// Writes the residue of a macroblock and returns how many of its blocks are
/// not empty. At a coefficient out of the alphabet's reach it stops, with the
/// blocks in front of it written.
pub fn encode_mb_tokens(
    enc: &mut BoolEncoder,
    raw_coeffs: &MbCoeffs,
    use_bpred: bool,
    coeff_probs: &CoeffProbs,
    above: &mut MbEntropyCtx,
    left: &mut MbEntropyCtx,
) -> (r: Result<usize, TokenEncodeError>)
    requires
        old(enc).wf(),
    ensures
        final(enc).wf(),
        ({
            let w = mb_tokens::write_mb(
                raw_coeffs@,
                tokens::flat_probs(*coeff_probs),
                !use_bpred,
                old(above)@,
                old(left)@,
            );
            match r {
                Ok(n) => {
                    &&& coeffs_fault(raw_coeffs@, !use_bpred) is None
                    &&& n == w.count
                    &&& final(enc)@ == old(enc)@ + w.ops
                    &&& final(above)@ == w.above
                    &&& final(left)@ == w.left
                },
                Err(e) => coeffs_fault(raw_coeffs@, !use_bpred) == Some(e),
            }
        }),
{
    let ghost blocks = mb_tokens::in_row(raw_coeffs@);
    let ghost p = tokens::flat_probs(*coeff_probs);
    let ghost a0 = above@;
    let ghost l0 = left@;
    let ghost e0 = enc@;
    let has_y2: bool = !use_bpred;
    let mut count: usize = 0;
    let mut n: usize = 0;
    assert(enc@ =~= e0 + Seq::<(u8, bool)>::empty());
    while n < 25
        invariant
            n <= 25,
            count <= n,
            has_y2 == !use_bpred,
            blocks == mb_tokens::in_row(raw_coeffs@),
            p == tokens::flat_probs(*coeff_probs),
            a0 == old(above)@,
            l0 == old(left)@,
            e0 == old(enc)@,
            enc.wf(),
            mb_fault(blocks, has_y2, n as nat) is None,
            ({
                let w = mb_tokens::write_blocks(blocks, p, has_y2, a0, l0, n as nat);
                &&& enc@ == e0 + w.ops
                &&& above@ == w.above
                &&& left@ == w.left
                &&& count == w.count
            }),
        decreases 25 - n,
    {
        if n == 0 && use_bpred {
        } else {
            let b: usize = if n == 0 {
                24
            } else {
                n - 1
            };
            let kind: BlockType = kind_at(b, has_y2);
            let block: [i16; 16] = block_of(raw_coeffs, b);
            let ghost w0 = mb_tokens::write_blocks(blocks, p, has_y2, a0, l0, n as nat);
            match encode_block_with_ctx(enc, b, kind, coeff_probs, &block, above, left) {
                Ok(nonzero) => {
                    if nonzero {
                        count = count + 1;
                    }
                },
                Err(e) => {
                    proof {
                        lemma_fault_stays(blocks, has_y2, (n + 1) as nat, 25);
                    }
                    return Err(e);
                },
            }
            proof {
                range_coder::lemma_append_assoc(
                    e0,
                    w0.ops,
                    tokens::block_ops(
                        p,
                        kind,
                        mb_tokens::block_ctx(w0.above, w0.left, b as int),
                        forward_transform::scan_order(block@),
                    ),
                );
            }
        }
        n = n + 1;
    }
    Ok(count)
}

} // verus!
