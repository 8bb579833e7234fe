//! Every coefficient that the encoder makes of pixels can be coded.
use crate::forward_transform;
use crate::macroblock::IntraBmode;
use crate::mb_coder;
use crate::mb_tokens;
use crate::mode_picker;
use crate::mode_picker::{Decisions, Task};
use crate::quant::MbDequantFactors;
use crate::tables::ZIGZAG;
use crate::token_encoder;
use vstd::prelude::*;

verus! {

/// Sixteen coefficients, none of them larger than `n`.
pub open spec fn within(c: Seq<i16>, n: int) -> bool {
    &&& c.len() == 16
    &&& forall|i: int| 0 <= i < 16 ==> -n <= #[trigger] c[i] <= n
}

/// A pass of the cosine transform grows its arguments fourfold at most.
pub proof fn lemma_dct_pass_bound(a: int, b: int, c: int, d: int, k: int, n: int)
    requires
        0 <= n <= 0x10000,
        -n <= a <= n,
        -n <= b <= n,
        -n <= c <= n,
        -n <= d <= n,
    ensures
        -(4 * n + 4) <= forward_transform::fdct_pass(a, b, c, d, k) <= 4 * n + 4,
{
    reveal(forward_transform::fdct_pass);
}

proof fn lemma_wht_pass_bound(a: int, b: int, c: int, d: int, k: int, n: int)
    requires
        -n <= a <= n,
        -n <= b <= n,
        -n <= c <= n,
        -n <= d <= n,
    ensures
        -4 * n <= forward_transform::fwht_pass(a, b, c, d, k) <= 4 * n,
{
    reveal(forward_transform::fwht_pass);
}

/// The cosine transform of differences of pixels.
pub proof fn lemma_spectrum_bound(src: Seq<u8>, pred: Seq<u8>)
    ensures
        within(mb_coder::spectrum(src, pred), 2050),
{
    let s = mb_coder::residual(src, pred);
    let c = mb_coder::spectrum(src, pred);
    assert forall|i: int| 0 <= i < 16 implies -2050 <= #[trigger] c[i] <= 2050 by {
        let row = i / 4;
        assert forall|col: int| 0 <= col < 4 implies -1024
            <= #[trigger] forward_transform::fdct_mid(s, row, col) <= 1024 by {
            lemma_dct_pass_bound(
                s[col] as int,
                s[4 + col] as int,
                s[8 + col] as int,
                s[12 + col] as int,
                row,
                255,
            );
        }
        lemma_dct_pass_bound(
            forward_transform::fdct_mid(s, row, 0),
            forward_transform::fdct_mid(s, row, 1),
            forward_transform::fdct_mid(s, row, 2),
            forward_transform::fdct_mid(s, row, 3),
            i % 4,
            1024,
        );
    }
}

/// The Walsh-Hadamard transform of first coefficients.
pub proof fn lemma_second_order_bound(s: Seq<i16>)
    requires
        within(s, 2050),
    ensures
        within(forward_transform::fwht(s), 16400),
{
    let c = forward_transform::fwht(s);
    assert forall|i: int| 0 <= i < 16 implies -16400 <= #[trigger] c[i] <= 16400 by {
        let row = i / 4;
        assert forall|col: int| 0 <= col < 4 implies -8200
            <= #[trigger] forward_transform::fwht_mid(s, row, col) <= 8200 by {
            lemma_wht_pass_bound(
                s[col] as int,
                s[4 + col] as int,
                s[8 + col] as int,
                s[12 + col] as int,
                row,
                2050,
            );
        }
        lemma_wht_pass_bound(
            forward_transform::fwht_mid(s, row, 0),
            forward_transform::fwht_mid(s, row, 1),
            forward_transform::fwht_mid(s, row, 2),
            forward_transform::fwht_mid(s, row, 3),
            i % 4,
            8200,
        );
    }
}

proof fn lemma_rounded_bound(x: int, step: int, least: int, n: int)
    requires
        1 <= least <= step,
        -(least * n) <= x <= least * n,
        0 <= n,
    ensures
        -n <= mb_coder::rounded(x, step) <= n,
{
    let m = if x >= 0 {
        x
    } else {
        -x
    };
    let q = (m + step / 2) / step;
    assert(0 <= q <= n) by (nonlinear_arith)
        requires
            q == (m + step / 2) / step,
            0 <= m <= least * n,
            1 <= least <= step,
            0 <= n,
    ;
}

/// Coefficients within bounds, divided by their steps.
proof fn lemma_quantized_bound(c: Seq<i16>, dc: int, ac: int, least: int, n: int)
    requires
        1 <= least <= dc,
        least <= ac,
        0 <= n <= 0x7fff,
        within(c, least * n),
    ensures
        within(mb_coder::quantized(c, dc, ac), n),
{
    let q = mb_coder::quantized(c, dc, ac);
    assert forall|i: int| 0 <= i < 16 implies -n <= #[trigger] q[i] <= n by {
        lemma_rounded_bound(
            c[i] as int,
            if i == 0 {
                dc
            } else {
                ac
            },
            least,
            n,
        );
    }
}

/// A predicted block, coded.
proof fn lemma_block_bound(src: Seq<u8>, pred: Seq<u8>, dc: int, ac: int)
    requires
        4 <= dc,
        4 <= ac,
    ensures
        within(mb_coder::coded_block(src, pred, dc, ac), 2114),
{
    lemma_spectrum_bound(src, pred);
    lemma_quantized_bound(mb_coder::spectrum(src, pred), dc, ac, 4, 2114);
}

/// Luma that is predicted as a whole.
proof fn lemma_whole_bound(src: Seq<u8>, pred: Seq<u8>, f: MbDequantFactors)
    requires
        f.valid(),
    ensures
        within(mb_coder::whole_y2(src, pred, f), 2114),
        forall|k: int| 0 <= k < 16 ==> within(#[trigger] mb_coder::whole_y(src, pred, f)[k], 2114),
{
    let spectra = mb_coder::luma_spectra(src, pred);
    assert forall|k: int| 0 <= k < 16 implies within(#[trigger] spectra[k], 2050) by {
        lemma_spectrum_bound(mb_coder::tile(src, 4, k), mb_coder::tile(pred, 4, k));
    }
    let firsts = mb_coder::first_ones(spectra);
    assert(within(firsts, 2050)) by {
        assert forall|k: int| 0 <= k < 16 implies -2050 <= #[trigger] firsts[k] <= 2050 by {
            assert(within(spectra[k], 2050));
        }
    }
    lemma_second_order_bound(firsts);
    lemma_quantized_bound(
        forward_transform::fwht(firsts),
        f.y2_dc as int,
        f.y2_ac as int,
        8,
        2114,
    );
    assert forall|k: int| 0 <= k < 16 implies within(
        #[trigger] mb_coder::whole_y(src, pred, f)[k],
        2114,
    ) by {
        let c = spectra[k].update(0, 0);
        assert(within(spectra[k], 2050));
        assert(within(c, 8456));
        lemma_quantized_bound(c, f.y1_dc as int, f.y1_ac as int, 4, 2114);
    }
}

/// Luma whose subblocks are predicted alone.
proof fn lemma_subblocks_bound(t: Task, modes: Seq<IntraBmode>, k: int)
    requires
        t.f.valid(),
        0 <= k < modes.len(),
    ensures
        within(mode_picker::sub_state(t, modes).coeffs[k], 2114),
    decreases modes.len(),
{
    let before = mode_picker::sub_state(t, modes.drop_last());
    mode_picker::lemma_sub_state_len(t, modes.drop_last());
    if k == modes.len() - 1 {
        reveal(mode_picker::next_coeffs);
        let n = before.coeffs.len() as int;
        lemma_block_bound(
            mb_coder::tile(t.pixels.y, 4, n),
            crate::reconstruct::subblock_prediction(before.work, n, modes.last()),
            t.f.y1_dc as int,
            t.f.y1_ac as int,
        );
    } else {
        lemma_subblocks_bound(t, modes.drop_last(), k);
    }
}

proof fn lemma_no_block_fault(c: Seq<i16>, b: int, has_y2: bool)
    requires
        within(c, 2114),
    ensures
        token_encoder::block_fault(
            forward_transform::scan_order(c),
            mb_tokens::kind_of(b, has_y2),
        ) is None,
{
    let s = forward_transform::scan_order(c);
    let kind = mb_tokens::kind_of(b, has_y2);
    assert forall|i: int| kind.first() <= i < 16 implies -2114 <= #[trigger] s[i] <= 2114 by {
        forward_transform::lemma_zigzag_range(i);
        assert(s[i] == c[ZIGZAG[i] as int]);
    }
    token_encoder::lemma_no_fault_in_reach(s, kind);
}

proof fn lemma_no_mb_fault(blocks: Seq<Seq<i16>>, has_y2: bool, n: nat)
    requires
        n <= 25,
        forall|b: int| 0 <= b < 25 ==> within(#[trigger] blocks[b], 2114),
    ensures
        token_encoder::mb_fault(blocks, has_y2, n) is None,
    decreases n,
{
    if n > 0 {
        lemma_no_mb_fault(blocks, has_y2, (n - 1) as nat);
        let b = mb_tokens::block_in_order(n - 1);
        assert(0 <= b < 25);
        lemma_no_block_fault(blocks[b], b, has_y2);
    }
}

/// Whatever is chosen for a macroblock, its coefficients can be coded.
pub proof fn law_macroblock_can_be_coded(t: Task, d: Decisions)
    requires
        t.f.valid(),
        d.modes.len() == 16,
    ensures
        token_encoder::coeffs_fault(mode_picker::decided_coeffs(t, d), !d.own) is None,
{
    reveal(mode_picker::decided_coeffs);
    let c = mode_picker::decided_coeffs(t, d);
    let blocks = mb_tokens::in_row(c);
    mode_picker::lemma_sub_state_len(t, d.modes);
    lemma_whole_bound(t.pixels.y, mode_picker::whole_prediction(t, d.whole), t.f);
    assert forall|b: int| 0 <= b < 25 implies within(#[trigger] blocks[b], 2114) by {
        if b < 16 {
            assert(blocks[b] == c.y[b]);
            if d.own {
                lemma_subblocks_bound(t, d.modes, b);
            } else {
                assert(c.y[b] == mb_coder::whole_y(
                    t.pixels.y,
                    mode_picker::whole_prediction(t, d.whole),
                    t.f,
                )[b]);
            }
        } else if b < 20 {
            assert(blocks[b] == c.u[b - 16]);
            lemma_block_bound(
                mb_coder::tile(t.pixels.u, 2, b - 16),
                mb_coder::tile(mode_picker::u_prediction(t, d.uv), 2, b - 16),
                t.f.uv_dc as int,
                t.f.uv_ac as int,
            );
        } else if b < 24 {
            assert(blocks[b] == c.v[b - 20]);
            lemma_block_bound(
                mb_coder::tile(t.pixels.v, 2, b - 20),
                mb_coder::tile(mode_picker::v_prediction(t, d.uv), 2, b - 20),
                t.f.uv_dc as int,
                t.f.uv_ac as int,
            );
        } else {
            assert(blocks[b] == c.y2);
        }
    }
    lemma_no_mb_fault(blocks, !d.own, 25);
}

} // verus!
