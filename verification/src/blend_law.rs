//! How pictures are weighed against each other.
use crate::arnr;
use crate::arnr::Block;
use crate::i420::I420Frame;
use vstd::arithmetic::div_mod;
use vstd::arithmetic::power2;
use vstd::prelude::*;

verus! {

/// `w` is the weight of a pixel that differs by `d`: sixteen where it does not
/// differ, and the less the more the square of the difference grows over the
/// scale; rounded down.
pub open spec fn weighs(w: int, d: int, scale: int) -> bool {
    w * (scale + d * d) <= 16 * scale < (w + 1) * (scale + d * d)
}

/// The weight of a pixel.
pub proof fn law_weight_falls_with_the_difference(d: int, scale: int)
    requires
        scale >= 1,
    ensures
        weighs(arnr::weight(d, scale), d, scale),
        arnr::weight(0, scale) == 16,
        arnr::weight(-d, scale) == arnr::weight(d, scale),
        0 <= arnr::weight(d, scale) <= 16,
{
    let n = scale + d * d;
    assert(d * d >= 0 && (-d) * (-d) == d * d) by (nonlinear_arith);
    div_mod::lemma_fundamental_div_mod(16 * scale, n);
    div_mod::lemma_mod_bound(16 * scale, n);
    let w = 16 * scale / n;
    assert(n * w == w * n && (w + 1) * n == w * n + n) by (nonlinear_arith);
    assert(0 <= w <= 16) by (nonlinear_arith)
        requires
            n >= scale >= 1,
            n * w <= 16 * scale < n * w + n,
    ;
    assert(0 * 0 == 0);
    div_mod::lemma_fundamental_div_mod_converse(16 * scale, scale, 16, 0);
}

/// A larger difference weighs no more.
pub proof fn law_weight_is_monotone(d: int, e: int, scale: int)
    requires
        scale >= 1,
        0 <= d <= e,
    ensures
        arnr::weight(e, scale) <= arnr::weight(d, scale),
{
    law_weight_falls_with_the_difference(d, scale);
    law_weight_falls_with_the_difference(e, scale);
    let (v, w) = (arnr::weight(d, scale), arnr::weight(e, scale));
    assert(w <= v) by (nonlinear_arith)
        requires
            0 <= d <= e,
            scale >= 1,
            w >= 0,
            w * (scale + e * e) <= 16 * scale,
            16 * scale < (v + 1) * (scale + d * d),
    {
        assert(d * d <= e * e);
        if w >= v + 1 {
            assert((v + 1) * (scale + d * d) <= w * (scale + e * e)) by (nonlinear_arith)
                requires
                    w >= v + 1,
                    w >= 0,
                    scale >= 1,
                    0 <= d * d <= e * e,
            ;
        }
    }
}

/// Each step of strength doubles the scale, from eight up.
pub proof fn law_strength_doubles_the_scale(strength: nat)
    requires
        strength <= 6,
    ensures
        arnr::strength_scale(strength as int) == 8 * power2::pow2(strength),
{
    power2::lemma2_to64();
}

/// Two pictures are blended to the mean of the centre's pixel, which weighs
/// sixteen, and the pixel that the other one lends, rounded to the nearest.
pub proof fn law_two_pictures_blend(
    frames: Seq<I420Frame>,
    scale: int,
    which: int,
    x: int,
    y: int,
    w: int,
)
    requires
        frames.len() == 2,
        scale >= 1,
        arnr::lent_pixel(frames, 0, which, x, y, 1) is Some,
        ({
            let ctr = frames[0];
            let c = arnr::plane_of(ctr, which)[y * arnr::stride_of(ctr, which) + x];
            weighs(w, arnr::lent_pixel(frames, 0, which, x, y, 1)->0 - c, scale)
        }),
    ensures
        ({
            let ctr = frames[0];
            let c = arnr::plane_of(ctr, which)[y * arnr::stride_of(ctr, which) + x];
            let p = arnr::lent_pixel(frames, 0, which, x, y, 1)->0;
            let v = arnr::blended_pixel(frames, 0, scale, which, x, y);
            let sum = 16 * c + w * p;
            let total = 16 + w;
            2 * sum - total < 2 * (total * v) <= 2 * sum + total
        }),
{
    let ctr = frames[0];
    let c = arnr::plane_of(ctr, which)[y * arnr::stride_of(ctr, which) + x];
    let p = arnr::lent_pixel(frames, 0, which, x, y, 1)->0;
    let d = p - c;
    law_weight_falls_with_the_difference(d, scale);
    let u = arnr::weight(d, scale);
    let n = scale + d * d;
    assert(d * d >= 0) by (nonlinear_arith);
    assert(u == w) by (nonlinear_arith)
        requires
            w * n <= 16 * scale < (w + 1) * n,
            u * n <= 16 * scale < (u + 1) * n,
            n >= 1,
            scale >= 1,
    {
        if u < w {
            assert((u + 1) * n <= w * n) by (nonlinear_arith)
                requires
                    u + 1 <= w,
                    n >= 1,
            ;
        }
        if w < u {
            assert((w + 1) * n <= u * n) by (nonlinear_arith)
                requires
                    w + 1 <= u,
                    n >= 1,
            ;
        }
    }
    reveal_with_fuel(arnr::blend_sums, 3);
    let sum = 16 * c + w * p;
    let total = 16 + w;
    let v = arnr::blended_pixel(frames, 0, scale, which, x, y);
    assert(v == (sum + total / 2) / total);
    div_mod::lemma_fundamental_div_mod(sum + total / 2, total);
    div_mod::lemma_mod_bound(sum + total / 2, total);
}

/// A displacement that the search may try.
pub open spec fn may_try(x: int, y: int) -> bool {
    -15 <= x <= 15 && -15 <= y <= 15
}

proof fn lemma_round(
    src: I420Frame,
    refp: I420Frame,
    b: Block,
    start: (int, int, int),
    step: int,
    n: nat,
    i: int,
)
    requires
        0 <= i < 8,
    ensures
        ({
            let m = arnr::search_round(src, refp, b, start, step, n);
            let (dx, dy) = arnr::candidate(i, step);
            &&& m.2 <= start.2
            &&& i < n && may_try(start.0 + dx, start.1 + dy) ==> m.2 <= arnr::sad(
                src,
                refp,
                b,
                start.0 + dx,
                start.1 + dy,
            )
        }),
    decreases n,
{
    if n > 0 {
        lemma_round(src, refp, b, start, step, (n - 1) as nat, i);
    }
}

/// After a round of the search nothing one step away, in any of the eight
/// directions, matches better, nor does what the round started from.
pub proof fn law_round_beats_its_neighbors(
    src: I420Frame,
    refp: I420Frame,
    b: Block,
    start: (int, int, int),
    step: int,
    u: int,
    v: int,
)
    requires
        -1 <= u <= 1,
        -1 <= v <= 1,
        u != 0 || v != 0,
        may_try(start.0 + u * step, start.1 + v * step),
    ensures
        arnr::search_round(src, refp, b, start, step, 8).2 <= arnr::sad(
            src,
            refp,
            b,
            start.0 + u * step,
            start.1 + v * step,
        ),
        arnr::search_round(src, refp, b, start, step, 8).2 <= start.2,
{
    let i = if v == -1 {
        u + 1
    } else if v == 1 {
        u + 6
    } else if u == -1 {
        3
    } else {
        4
    };
    assert(1 * step == step && -1 * step == -step && 0 * step == 0);
    lemma_round(src, refp, b, start, step, 8, i);
}

/// The match that the search ends with is no worse than none at all and than
/// those eight pixels away.
pub proof fn law_search_beats_far_displacements(
    src: I420Frame,
    refp: I420Frame,
    b: Block,
    u: int,
    v: int,
)
    requires
        -1 <= u <= 1,
        -1 <= v <= 1,
    ensures
        arnr::best_match(src, refp, b).2 <= arnr::sad(src, refp, b, 8 * u, 8 * v),
{
    let s0 = (0int, 0int, arnr::sad(src, refp, b, 0, 0));
    let s1 = arnr::search_round(src, refp, b, s0, 8, 8);
    let s2 = arnr::search_round(src, refp, b, s1, 4, 8);
    let s3 = arnr::search_round(src, refp, b, s2, 2, 8);
    lemma_round(src, refp, b, s0, 8, 8, 0);
    lemma_round(src, refp, b, s1, 4, 8, 0);
    lemma_round(src, refp, b, s2, 2, 8, 0);
    lemma_round(src, refp, b, s3, 1, 8, 0);
    if u != 0 || v != 0 {
        assert(u * 8 == 8 * u && v * 8 == 8 * v);
        law_round_beats_its_neighbors(src, refp, b, s0, 8, u, v);
    }
}

/// A block that matches worse than twelve a pixel lends nothing; any other one
/// lends the pixels at the displacement of its best match.
pub proof fn law_poor_matches_lend_nothing(ctr: I420Frame, f: I420Frame, bx: int, by: int)
    ensures
        ({
            let b = arnr::block_at(ctr.width as int, ctr.height as int, bx, by);
            let m = arnr::best_match(ctr, f, b);
            let n = b.w * b.h;
            n > 0 ==> if m.2 >= 13 * n {
                arnr::alignment(ctr, f, bx, by) is None
            } else {
                arnr::alignment(ctr, f, bx, by) == Some((m.0, m.1))
            }
        }),
{
    let b = arnr::block_at(ctr.width as int, ctr.height as int, bx, by);
    let m = arnr::best_match(ctr, f, b);
    let n = b.w * b.h;
    if n > 0 {
        div_mod::lemma_fundamental_div_mod(m.2, n);
        div_mod::lemma_mod_bound(m.2, n);
        let q = m.2 / n;
        assert(q > 12 <==> m.2 >= 13 * n) by (nonlinear_arith)
            requires
                n > 0,
                m.2 == n * q + m.2 % n,
                0 <= m.2 % n < n,
        ;
    }
}

} // verus!
