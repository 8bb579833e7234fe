//! What the kernels of the loop filter and of the interpolation do to pixels.
use crate::edge_filter;
use crate::edge_filter::Line;
use crate::inter;
use crate::tables::SIXTAP;
use vstd::prelude::*;

verus! {

/// `v`, limited to a signed byte.
pub open spec fn cut(v: int) -> int {
    if v < -128 {
        -128
    } else if v > 127 {
        127
    } else {
        v
    }
}

/// `v`, limited to a pixel.
pub open spec fn pixel(v: int) -> int {
    if v < 0 {
        0
    } else if v > 255 {
        255
    } else {
        v
    }
}

/// How far apart two pixels are.
pub open spec fn gap(a: u8, b: u8) -> int {
    if a < b {
        b - a
    } else {
        a - b
    }
}

/// Eight pixels of a line across an edge.
pub open spec fn line_of(l: Line) -> Seq<u8> {
    seq![l.p3, l.p2, l.p1, l.p0, l.q0, l.q1, l.q2, l.q3]
}

/// The line is smooth: the step over the edge and those on both sides of it are
/// within their limits.
pub open spec fn smooth(l: Line, edge: int, interior: int) -> bool {
    &&& 2 * gap(l.p0, l.q0) + gap(l.p1, l.q1) / 2 <= edge
    &&& gap(l.p3, l.p2) <= interior
    &&& gap(l.p2, l.p1) <= interior
    &&& gap(l.p1, l.p0) <= interior
    &&& gap(l.q3, l.q2) <= interior
    &&& gap(l.q2, l.q1) <= interior
    &&& gap(l.q1, l.q0) <= interior
}

/// The line is uneven close to the edge.
pub open spec fn uneven(l: Line, hev: int) -> bool {
    gap(l.p1, l.p0) > hev || gap(l.q1, l.q0) > hev
}

/// Three times the step over the edge, with or without that between the pixels
/// next to it.
pub open spec fn strength(l: Line, outer: bool) -> int {
    cut((if outer {
        cut(l.p1 - l.q1)
    } else {
        0
    }) + 3 * (l.q0 - l.p0))
}

/// What the normal filter makes of a line, between macroblocks (`wide`) or
/// inside one. A line that is not smooth stays. On an uneven one the two pixels
/// at the edge move by about an eighth of the strength, and no others. On an even
/// one between macroblocks three pixels on each side move, by about three, two
/// and one fourteenth of the strength; inside a macroblock the two at the edge
/// move by about an eighth and the next ones by half of that.
pub open spec fn becomes(
    l: Line,
    after: Seq<u8>,
    edge: int,
    interior: int,
    hev: int,
    wide: bool,
) -> bool {
    let outer = strength(l, true);
    let inner = strength(l, false);
    &&& after.len() == 8
    &&& after[0] == l.p3
    &&& after[7] == l.q3
    &&& if !smooth(l, edge, interior) {
        after == line_of(l)
    } else if uneven(l, hev) {
        &&& after[1] == l.p2
        &&& after[2] == l.p1
        &&& after[3] == pixel(l.p0 + cut(outer + 3) / 8)
        &&& after[4] == pixel(l.q0 - cut(outer + 4) / 8)
        &&& after[5] == l.q1
        &&& after[6] == l.q2
    } else if wide {
        &&& after[1] == pixel(l.p2 + (9 * outer + 63) / 128)
        &&& after[2] == pixel(l.p1 + (18 * outer + 63) / 128)
        &&& after[3] == pixel(l.p0 + (27 * outer + 63) / 128)
        &&& after[4] == pixel(l.q0 - (27 * outer + 63) / 128)
        &&& after[5] == pixel(l.q1 - (18 * outer + 63) / 128)
        &&& after[6] == pixel(l.q2 - (9 * outer + 63) / 128)
    } else {
        let half = (cut(inner + 4) / 8 + 1) / 2;
        &&& after[1] == l.p2
        &&& after[2] == pixel(l.p1 + half)
        &&& after[3] == pixel(l.p0 + cut(inner + 3) / 8)
        &&& after[4] == pixel(l.q0 - cut(inner + 4) / 8)
        &&& after[5] == pixel(l.q1 - half)
        &&& after[6] == l.q2
    }
}

proof fn lemma_moved(v: u8, by: int)
    ensures
        edge_filter::to_px(edge_filter::px(v) + by) == pixel(v + by),
        edge_filter::to_px(edge_filter::px(v) - by) == pixel(v - by),
{
    reveal(edge_filter::to_px);
}

proof fn lemma_tests(l: Line, edge: int, interior: int, hev: int)
    ensures
        edge_filter::normal_mask(l, edge, interior) == smooth(l, edge, interior),
        edge_filter::high_variance(l.p1, l.p0, l.q0, l.q1, hev) == uneven(l, hev),
{
    reveal(edge_filter::simple_mask);
    reveal(edge_filter::normal_mask);
    reveal(edge_filter::high_variance);
}

proof fn lemma_strengths(l: Line)
    ensures
        edge_filter::correction(true, l.p1, l.p0, l.q0, l.q1) == strength(l, true),
        edge_filter::correction(false, l.p1, l.p0, l.q0, l.q1) == strength(l, false),
        -128 <= strength(l, true) <= 127,
        -128 <= strength(l, false) <= 127,
{
    reveal(edge_filter::correction);
}

proof fn lemma_steps(w: int)
    requires
        -128 <= w <= 127,
    ensures
        edge_filter::q_step(w) == cut(w + 4) / 8,
        edge_filter::p_step(w) == cut(w + 3) / 8,
        edge_filter::wide_step(w, 27) == (27 * w + 63) / 128,
        edge_filter::wide_step(w, 18) == (18 * w + 63) / 128,
        edge_filter::wide_step(w, 9) == (9 * w + 63) / 128,
{
    reveal(edge_filter::q_step);
    reveal(edge_filter::p_step);
    reveal(edge_filter::wide_step);
}

/// The normal filter of one line.
#[verifier::spinoff_prover]
#[verifier::rlimit(50)]
pub proof fn law_normal_filter_of_a_line(
    l: Line,
    edge: int,
    interior: int,
    hev: int,
    wide: bool,
)
    ensures
        becomes(
            l,
            edge_filter::normal_step(line_of(l), 4, 1, edge, interior, hev, wide),
            edge,
            interior,
            hev,
            wide,
        ),
{
    let s = line_of(l);
    assert(edge_filter::line_at(s, 4, 1) == l);
    lemma_tests(l, edge, interior, hev);
    lemma_strengths(l);
    let outer = strength(l, true);
    let inner = strength(l, false);
    lemma_steps(outer);
    lemma_steps(inner);
    if smooth(l, edge, interior) {
        if uneven(l, hev) {
            lemma_moved(l.p0, cut(outer + 3) / 8);
            lemma_moved(l.q0, cut(outer + 4) / 8);
        } else if wide {
            lemma_moved(l.p0, (27 * outer + 63) / 128);
            lemma_moved(l.q0, (27 * outer + 63) / 128);
            lemma_moved(l.p1, (18 * outer + 63) / 128);
            lemma_moved(l.q1, (18 * outer + 63) / 128);
            lemma_moved(l.p2, (9 * outer + 63) / 128);
            lemma_moved(l.q2, (9 * outer + 63) / 128);
        } else {
            let half = (cut(inner + 4) / 8 + 1) / 2;
            lemma_moved(l.p0, cut(inner + 3) / 8);
            lemma_moved(l.q0, cut(inner + 4) / 8);
            lemma_moved(l.p1, half);
            lemma_moved(l.q1, half);
        }
    }
}

/// The simple filter of one line moves the two pixels at the edge, where the
/// step over it is within the limit.
pub proof fn law_simple_filter_of_a_line(p1: u8, p0: u8, q0: u8, q1: u8, edge: int)
    ensures
        ({
            let after = edge_filter::simple_step(seq![p1, p0, q0, q1], 2, 1, edge);
            let strength = cut(cut(p1 - q1) + 3 * (q0 - p0));
            &&& after.len() == 4
            &&& after[0] == p1
            &&& after[3] == q1
            &&& if 2 * gap(p0, q0) + gap(p1, q1) / 2 <= edge {
                &&& after[1] == pixel(p0 + cut(strength + 3) / 8)
                &&& after[2] == pixel(q0 - cut(strength + 4) / 8)
            } else {
                after[1] == p0 && after[2] == q0
            }
        }),
{
    reveal(edge_filter::to_px);
    reveal(edge_filter::simple_mask);
    reveal(edge_filter::correction);
    reveal(edge_filter::q_step);
    reveal(edge_filter::p_step);
}

/// A step between two even sides is smoothed: between macroblocks its halves
/// come closer in steps that add up, and the sides beyond them stay.
pub proof fn law_step_is_smoothed(a: u8, b: u8, edge: int, interior: int, hev: int)
    requires
        a < b <= a + 60,
        interior >= 0,
        hev >= 0,
        2 * (b - a) + (b - a) / 2 <= edge,
    ensures
        ({
            let l = Line { p3: a, p2: a, p1: a, p0: a, q0: b, q1: b, q2: b, q3: b };
            let s = edge_filter::normal_step(line_of(l), 4, 1, edge, interior, hev, true);
            &&& a == s[0] <= s[1] <= s[2] <= s[3]
            &&& s[4] <= s[5] <= s[6] <= s[7] == b
            &&& s[3] - a == b - s[4]
            &&& s[2] - a == b - s[5]
            &&& s[1] - a == b - s[6]
            &&& s[3] <= s[4]
        }),
{
    let l = Line { p3: a, p2: a, p1: a, p0: a, q0: b, q1: b, q2: b, q3: b };
    law_normal_filter_of_a_line(l, edge, interior, hev, true);
}

/// The taps of six pixels for a fraction of an eighth.
pub open spec fn tap(f: int, t: int) -> int {
    let row = if f == 0 {
        seq![0int, 0, 128, 0, 0, 0]
    } else if f == 1 || f == 7 {
        seq![0int, -6, 123, 12, -1, 0]
    } else if f == 2 || f == 6 {
        seq![2int, -11, 108, 36, -8, 1]
    } else if f == 3 || f == 5 {
        seq![0int, -9, 93, 50, -6, 0]
    } else {
        seq![3int, -16, 77, 77, -16, 3]
    };
    if f <= 4 {
        row[t]
    } else {
        row[5 - t]
    }
}

/// A pixel between others is the sum of the six round it, weighted by the taps
/// of its fraction; past the middle the taps stand the other way round.
pub proof fn law_fraction_weighs_six_pixels(f: int, a: u8, b: u8, c: u8, d: u8, e: u8, g: u8)
    requires
        0 <= f < 8,
    ensures
        inter::six_taps(f, a, b, c, d, e, g) == pixel(
            (tap(f, 0) * a + tap(f, 1) * b + tap(f, 2) * c + tap(f, 3) * d + tap(f, 4) * e + tap(
                f,
                5,
            ) * g + 64) / 128,
        ),
{
    reveal(inter::six_taps);
    assert(f == 0 || f == 1 || f == 2 || f == 3 || f == 4 || f == 5 || f == 6 || f == 7);
    assert(SIXTAP[f][0] == tap(f, 0) && SIXTAP[f][1] == tap(f, 1) && SIXTAP[f][2] == tap(f, 2)
        && SIXTAP[f][3] == tap(f, 3) && SIXTAP[f][4] == tap(f, 4) && SIXTAP[f][5] == tap(f, 5));
}

/// An even area stays even at every fraction.
pub proof fn law_even_area_stays_even(f: int, v: u8)
    requires
        0 <= f < 8,
    ensures
        inter::six_taps(f, v, v, v, v, v, v) == v,
{
    law_fraction_weighs_six_pixels(f, v, v, v, v, v, v);
    let (s, t, u, x, y, z) = (tap(f, 0), tap(f, 1), tap(f, 2), tap(f, 3), tap(f, 4), tap(f, 5));
    assert(s + t + u + x + y + z == 128) by {
        assert(f == 0 || f == 1 || f == 2 || f == 3 || f == 4 || f == 5 || f == 6 || f == 7);
    }
    assert(s * v + t * v + u * v + x * v + y * v + z * v == 128 * v) by (nonlinear_arith)
        requires
            s + t + u + x + y + z == 128,
    ;
}

/// Seen in a mirror, a fraction is what it lacks to a whole pixel.
pub proof fn law_fraction_mirrors(f: int, a: u8, b: u8, c: u8, d: u8, e: u8, g: u8)
    requires
        1 <= f < 8,
    ensures
        inter::six_taps(f, a, b, c, d, e, g) == inter::six_taps(8 - f, g, e, d, c, b, a),
{
    law_fraction_weighs_six_pixels(f, a, b, c, d, e, g);
    law_fraction_weighs_six_pixels(8 - f, g, e, d, c, b, a);
    assert(tap(f, 0) == tap(8 - f, 5) && tap(f, 1) == tap(8 - f, 4) && tap(f, 2) == tap(8 - f, 3)
        && tap(f, 3) == tap(8 - f, 2) && tap(f, 4) == tap(8 - f, 1) && tap(f, 5) == tap(8 - f, 0));
}

} // verus!
