//! What is measured of a choice is what a decoder will see of it.
use crate::fidelity_law;
use crate::macroblock::IntraYMode;
use crate::mb_coder;
use crate::mode_picker;
use crate::mode_picker::{Decisions, Task};
use crate::quant;
use vstd::prelude::*;

verus! {

proof fn lemma_same_error(a: Seq<u8>, b: Seq<u8>, c: Seq<u8>, n: nat)
    requires
        forall|j: int| 0 <= j < n ==> #[trigger] a[j] == c[j],
    ensures
        mb_coder::ssd(a, b, n) == mb_coder::ssd(c, b, n),
    decreases n,
{
    if n > 0 {
        lemma_same_error(a, b, c, (n - 1) as nat);
        assert(a[n - 1] == c[n - 1]);
    }
}

/// Each pixel adds the square of its difference, whatever the others do.
pub proof fn law_each_pixel_adds_its_square(a: Seq<u8>, b: Seq<u8>, n: nat, i: int)
    requires
        0 <= i < n <= a.len(),
    ensures
        mb_coder::ssd(a, b, n) == mb_coder::ssd(a.update(i, b[i]), b, n) + (a[i] - b[i]) * (a[i]
            - b[i]),
    decreases n,
{
    let c = a.update(i, b[i]);
    let m = (n - 1) as nat;
    if i == m {
        lemma_same_error(a, b, c, m);
        assert((b[i] - b[i]) * (b[i] - b[i]) == 0) by (nonlinear_arith);
    } else {
        law_each_pixel_adds_its_square(a, b, m, i);
    }
}

/// Equal pixels add nothing, and it does not matter which of two is the source.
pub proof fn law_error_is_symmetric(a: Seq<u8>, b: Seq<u8>, n: nat)
    ensures
        mb_coder::ssd(a, a, n) == 0,
        mb_coder::ssd(a, b, n) == mb_coder::ssd(b, a, n),
        mb_coder::ssd(a, b, n) >= 0,
    decreases n,
{
    if n > 0 {
        law_error_is_symmetric(a, b, (n - 1) as nat);
        let (x, y) = (a[n - 1], b[n - 1]);
        assert((x - x) * (x - x) == 0 && (x - y) * (x - y) == (y - x) * (y - x) && (x - y) * (x - y)
            >= 0) by (nonlinear_arith);
    }
}

/// The error of a whole luma prediction is that of the luma that a decoder
/// rebuilds when the macroblock is coded so.
pub proof fn law_luma_error_is_what_is_seen(t: Task, d: Decisions)
    requires
        !d.own,
        d.whole != IntraYMode::B,
    ensures
        mode_picker::whole_candidate(t, d.whole).ssd == mb_coder::ssd(
            fidelity_law::rebuilt(t, d).y,
            t.pixels.y,
            256,
        ),
{
    reveal(mode_picker::decided_coeffs);
    let c = mode_picker::whole_coeffs(t, d.whole);
    let q = quant::dequantized_mb(mode_picker::decided_coeffs(t, d), t.f);
    assert(mb_coder::scaled_blocks(c.y, t.f.y1_dc as int, t.f.y1_ac as int) =~= q.y);
}

/// The error of a chroma prediction is that of both chroma planes that a decoder
/// rebuilds.
pub proof fn law_chroma_error_is_what_is_seen(t: Task, d: Decisions)
    ensures
        mode_picker::chroma_candidate(t, d.uv).ssd == mb_coder::ssd(
            fidelity_law::rebuilt(t, d).u,
            t.pixels.u,
            64,
        ) + mb_coder::ssd(fidelity_law::rebuilt(t, d).v, t.pixels.v, 64),
{
    reveal(mode_picker::decided_coeffs);
    let c = mode_picker::chroma_coeffs(t, d.uv);
    let q = quant::dequantized_mb(mode_picker::decided_coeffs(t, d), t.f);
    assert(mb_coder::scaled_blocks(c.u, t.f.uv_dc as int, t.f.uv_ac as int) =~= q.u);
    assert(mb_coder::scaled_blocks(c.v, t.f.uv_dc as int, t.f.uv_ac as int) =~= q.v);
}

} // verus!
