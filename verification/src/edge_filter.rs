//! Loop-filter kernels and their application along one block edge.
//!
//! An edge lies in front of a pixel; `across` is the distance between two
//! neighbouring pixels on a line that crosses the edge, and `along` the
//! distance between two such lines.
use crate::arith;
use crate::arith::{clamp_i32, shr1, shr3, shr7};
use vstd::prelude::*;

verus! {

/// `v` limited to a signed byte.
pub open spec fn s8(v: int) -> int {
    arith::clamp_int(v, -128, 127)
}

/// A pixel as a signed number.
pub open spec fn px(v: u8) -> int {
    v - 128
}

/// A signed number as a pixel.
#[verifier::opaque]
pub open spec fn to_px(v: int) -> u8 {
    (s8(v) + 128) as u8
}

pub open spec fn abs_int(x: int) -> int {
    if x < 0 {
        -x
    } else {
        x
    }
}

/// The step over the edge is small enough to be filtered away.
#[verifier::opaque]
pub open spec fn simple_mask(p1: u8, p0: u8, q0: u8, q1: u8, edge: int) -> bool {
    abs_int(p0 - q0) * 2 + abs_int(p1 - q1) / 2 <= edge
}

/// The pixels of a line that crosses an edge, `p3` farthest in front of it
/// and `q3` farthest behind it.
pub struct Line {
    pub p3: u8,
    pub p2: u8,
    pub p1: u8,
    pub p0: u8,
    pub q0: u8,
    pub q1: u8,
    pub q2: u8,
    pub q3: u8,
}

/// The line is smooth enough on both sides for the normal filter.
#[verifier::opaque]
pub open spec fn normal_mask(l: Line, edge: int, interior: int) -> bool {
    &&& simple_mask(l.p1, l.p0, l.q0, l.q1, edge)
    &&& abs_int(l.p3 - l.p2) <= interior
    &&& abs_int(l.p2 - l.p1) <= interior
    &&& abs_int(l.p1 - l.p0) <= interior
    &&& abs_int(l.q3 - l.q2) <= interior
    &&& abs_int(l.q2 - l.q1) <= interior
    &&& abs_int(l.q1 - l.q0) <= interior
}

/// The pixels next to the edge differ strongly from their neighbours.
#[verifier::opaque]
pub open spec fn high_variance(p1: u8, p0: u8, q0: u8, q1: u8, threshold: int) -> bool {
    abs_int(p1 - p0) > threshold || abs_int(q1 - q0) > threshold
}

/// Base of the correction, with or without the outer pixels.
#[verifier::opaque]
pub open spec fn correction(outer: bool, p1: u8, p0: u8, q0: u8, q1: u8) -> int {
    s8((if outer { s8(px(p1) - px(q1)) } else { 0 }) + 3 * (px(q0) - px(p0)))
}

/// Correction of the pixel behind the edge.
#[verifier::opaque]
pub open spec fn q_step(a: int) -> int {
    s8(a + 4) / 8
}

/// Correction of the pixel in front of the edge.
#[verifier::opaque]
pub open spec fn p_step(a: int) -> int {
    s8(a + 3) / 8
}

/// A weighted correction of the wide filter.
#[verifier::opaque]
pub open spec fn wide_step(w: int, weight: int) -> int {
    s8((weight * w + 63) / 128)
}

/// Simple filter of the line in front of `i`.
pub open spec fn simple_step(plane: Seq<u8>, i: int, across: int, edge: int) -> Seq<u8> {
    let p1 = plane[i - 2 * across];
    let p0 = plane[i - across];
    let q0 = plane[i];
    let q1 = plane[i + across];
    if simple_mask(p1, p0, q0, q1, edge) {
        adjusted(plane, i, across, true)
    } else {
        plane
    }
}

/// The two pixels next to the edge, corrected.
pub open spec fn adjusted(plane: Seq<u8>, i: int, across: int, outer: bool) -> Seq<u8> {
    let p0 = plane[i - across];
    let q0 = plane[i];
    let a = correction(outer, plane[i - 2 * across], p0, q0, plane[i + across]);
    plane.update(i, to_px(px(q0) - q_step(a))).update(i - across, to_px(px(p0) + p_step(a)))
}

pub open spec fn line_at(plane: Seq<u8>, i: int, across: int) -> Line {
    Line {
        p3: plane[i - 4 * across],
        p2: plane[i - 3 * across],
        p1: plane[i - 2 * across],
        p0: plane[i - across],
        q0: plane[i],
        q1: plane[i + across],
        q2: plane[i + 2 * across],
        q3: plane[i + 3 * across],
    }
}

/// Normal filter of the line in front of `i`; `wide` for macroblock edges.
pub open spec fn normal_step(
    plane: Seq<u8>,
    i: int,
    across: int,
    edge: int,
    interior: int,
    hev: int,
    wide: bool,
) -> Seq<u8> {
    let l = line_at(plane, i, across);
    let high = high_variance(l.p1, l.p0, l.q0, l.q1, hev);
    if !normal_mask(l, edge, interior) {
        plane
    } else if wide && !high {
        let w = correction(true, l.p1, l.p0, l.q0, l.q1);
        plane.update(i, to_px(px(l.q0) - wide_step(w, 27))).update(
            i - across,
            to_px(px(l.p0) + wide_step(w, 27)),
        ).update(i + across, to_px(px(l.q1) - wide_step(w, 18))).update(
            i - 2 * across,
            to_px(px(l.p1) + wide_step(w, 18)),
        ).update(i + 2 * across, to_px(px(l.q2) - wide_step(w, 9))).update(
            i - 3 * across,
            to_px(px(l.p2) + wide_step(w, 9)),
        )
    } else if wide {
        adjusted(plane, i, across, true)
    } else if high {
        adjusted(plane, i, across, true)
    } else {
        let a = (q_step(correction(false, l.p1, l.p0, l.q0, l.q1)) + 1) / 2;
        adjusted(plane, i, across, false).update(i + across, to_px(px(l.q1) - a)).update(
            i - 2 * across,
            to_px(px(l.p1) + a),
        )
    }
}

/// Simple filter of the first `n` lines of an edge.
pub open spec fn simple_edge(
    plane: Seq<u8>,
    start: int,
    along: int,
    across: int,
    n: nat,
    edge: int,
) -> Seq<u8>
    decreases n,
{
    if n == 0 {
        plane
    } else {
        simple_step(
            simple_edge(plane, start, along, across, (n - 1) as nat, edge),
            start + (n - 1) * along,
            across,
            edge,
        )
    }
}

/// Normal filter of the first `n` lines of an edge.
pub open spec fn normal_edge(
    plane: Seq<u8>,
    start: int,
    along: int,
    across: int,
    n: nat,
    edge: int,
    interior: int,
    hev: int,
    wide: bool,
) -> Seq<u8>
    decreases n,
{
    if n == 0 {
        plane
    } else {
        normal_step(
            normal_edge(plane, start, along, across, (n - 1) as nat, edge, interior, hev, wide),
            start + (n - 1) * along,
            across,
            edge,
            interior,
            hev,
            wide,
        )
    }
}

/// The `n` lines of an edge, with `back` pixels in front of it and `ahead`
/// past the first behind it, lie inside `len` pixels.
pub open spec fn edge_inside(
    len: int,
    start: int,
    along: int,
    across: int,
    n: int,
    back: int,
    ahead: int,
) -> bool {
    n > 0 ==> start >= back * across && start + (n - 1) * along + ahead * across < len
}

fn s8_i32(v: i32) -> (r: i32)
    ensures
        r == s8(v as int),
        -128 <= r <= 127,
{
    clamp_i32(v, -128, 127)
}

fn to_px_u8(v: i32) -> (r: u8)
    ensures
        r == to_px(v as int),
{
    proof {
        reveal(to_px);
    }
    (clamp_i32(v, -128, 127) + 128) as u8
}

fn px_i32(v: u8) -> (r: i32)
    ensures
        r == px(v),
{
    v as i32 - 128
}

fn abs_diff_i32(a: u8, b: u8) -> (r: i32)
    ensures
        r == abs_int(a - b),
        0 <= r <= 255,
{
    if a < b {
        b as i32 - a as i32
    } else {
        a as i32 - b as i32
    }
}

/// Whether the step over the edge is small enough.
pub fn simple_threshold(p1: u8, p0: u8, q0: u8, q1: u8, edge_limit: i32) -> (b: bool)
    ensures
        b == simple_mask(p1, p0, q0, q1, edge_limit as int),
{
    proof {
        reveal(simple_mask);
    }
    abs_diff_i32(p0, q0) * 2 + abs_diff_i32(p1, q1) / 2 <= edge_limit
}

/// Whether the line is smooth enough on both sides.
pub fn normal_threshold(l: &Line, edge_limit: i32, interior_limit: i32) -> (b: bool)
    ensures
        b == normal_mask(*l, edge_limit as int, interior_limit as int),
{
    proof {
        reveal(normal_mask);
    }
    simple_threshold(l.p1, l.p0, l.q0, l.q1, edge_limit) && abs_diff_i32(l.p3, l.p2)
        <= interior_limit && abs_diff_i32(l.p2, l.p1) <= interior_limit && abs_diff_i32(l.p1, l.p0)
        <= interior_limit && abs_diff_i32(l.q1, l.q0) <= interior_limit && abs_diff_i32(l.q2, l.q1)
        <= interior_limit && abs_diff_i32(l.q3, l.q2) <= interior_limit
}

/// Whether the pixels next to the edge differ strongly from their neighbours.
pub fn high_edge_variance(p1: u8, p0: u8, q0: u8, q1: u8, hev: i32) -> (b: bool)
    ensures
        b == high_variance(p1, p0, q0, q1, hev as int),
{
    proof {
        reveal(high_variance);
    }
    abs_diff_i32(p1, p0) > hev || abs_diff_i32(q1, q0) > hev
}

fn correction_i32(outer: bool, p1: u8, p0: u8, q0: u8, q1: u8) -> (a: i32)
    ensures
        a == correction(outer, p1, p0, q0, q1),
        -128 <= a <= 127,
{
    proof {
        reveal(correction);
    }
    let o: i32 = if outer {
        s8_i32(px_i32(p1) - px_i32(q1))
    } else {
        0
    };
    s8_i32(o + 3 * (px_i32(q0) - px_i32(p0)))
}

/// Corrects the two pixels next to the edge in front of `i`; returns the
/// correction of the one behind it.
pub fn adjust_at(plane: &mut [u8], i: usize, across: usize, outer: bool) -> (f: i32)
    requires
        i >= 2 * across,
        i + across < old(plane)@.len(),
    ensures
        final(plane)@ == adjusted(old(plane)@, i as int, across as int, outer),
        f == q_step(
            correction(
                outer,
                old(plane)@[i - 2 * across],
                old(plane)@[i - across],
                old(plane)@[i as int],
                old(plane)@[i + across],
            ),
        ),
        -16 <= f <= 15,
{
    proof {
        reveal(q_step);
        reveal(p_step);
    }
    let p0: u8 = plane[i - across];
    let q0: u8 = plane[i];
    let p1: u8 = plane[i - across - across];
    let q1: u8 = plane[i + across];
    let a: i32 = correction_i32(outer, p1, p0, q0, q1);
    let b: i32 = shr3(s8_i32(a + 3));
    let f: i32 = shr3(s8_i32(a + 4));
    plane[i] = to_px_u8(px_i32(q0) - f);
    plane[i - across] = to_px_u8(px_i32(p0) + b);
    f
}

/// Simple filter of one line.
pub fn simple_at(plane: &mut [u8], i: usize, across: usize, edge_limit: i32)
    requires
        i >= 2 * across,
        i + across < old(plane)@.len(),
    ensures
        final(plane)@ == simple_step(old(plane)@, i as int, across as int, edge_limit as int),
        final(plane)@.len() == old(plane)@.len(),
{
    if simple_threshold(
        plane[i - across - across],
        plane[i - across],
        plane[i],
        plane[i + across],
        edge_limit,
    ) {
        adjust_at(plane, i, across, true);
    }
}

fn wide_i32(w: i32, weight: i32) -> (r: i32)
    requires
        -128 <= w <= 127,
        weight == 27 || weight == 18 || weight == 9,
    ensures
        r == wide_step(w as int, weight as int),
        -128 <= r <= 127,
{
    proof {
        reveal(wide_step);
    }
    assert(-27 * 128 <= weight * w <= 27 * 128) by (nonlinear_arith)
        requires
            -128 <= w <= 127,
            0 <= weight <= 27,
    ;
    s8_i32(shr7(weight * w + 63))
}

/// Normal filter of one line.
pub fn normal_at(
    plane: &mut [u8],
    i: usize,
    across: usize,
    edge_limit: i32,
    interior_limit: i32,
    hev_threshold: i32,
    wide: bool,
)
    requires
        i >= 4 * across,
        i + 3 * across < old(plane)@.len(),
    ensures
        final(plane)@ == normal_step(
            old(plane)@,
            i as int,
            across as int,
            edge_limit as int,
            interior_limit as int,
            hev_threshold as int,
            wide,
        ),
        final(plane)@.len() == old(plane)@.len(),
{
    let len: usize = plane.len();
    assert(i + 3 * across < len);
    let b1: usize = i - across;
    let b2: usize = b1 - across;
    let b3: usize = b2 - across;
    let a1: usize = i + across;
    let a2: usize = a1 + across;
    let l: Line = Line {
        p3: plane[b3 - across],
        p2: plane[b3],
        p1: plane[b2],
        p0: plane[b1],
        q0: plane[i],
        q1: plane[a1],
        q2: plane[a2],
        q3: plane[a2 + across],
    };
    if !normal_threshold(&l, edge_limit, interior_limit) {
        return;
    }
    let high: bool = high_edge_variance(l.p1, l.p0, l.q0, l.q1, hev_threshold);
    if wide && !high {
        let w: i32 = correction_i32(true, l.p1, l.p0, l.q0, l.q1);
        let s3: i32 = wide_i32(w, 27);
        let s2: i32 = wide_i32(w, 18);
        let s1: i32 = wide_i32(w, 9);
        plane[i] = to_px_u8(px_i32(l.q0) - s3);
        plane[b1] = to_px_u8(px_i32(l.p0) + s3);
        plane[a1] = to_px_u8(px_i32(l.q1) - s2);
        plane[b2] = to_px_u8(px_i32(l.p1) + s2);
        plane[a2] = to_px_u8(px_i32(l.q2) - s1);
        plane[b3] = to_px_u8(px_i32(l.p2) + s1);
    } else if wide || high {
        adjust_at(plane, i, across, true);
    } else {
        let f: i32 = adjust_at(plane, i, across, false);
        let a: i32 = shr1(f + 1);
        plane[a1] = to_px_u8(px_i32(l.q1) - a);
        plane[b2] = to_px_u8(px_i32(l.p1) + a);
    }
}

proof fn lemma_line_inside(
    len: int,
    start: int,
    along: int,
    across: int,
    n: int,
    back: int,
    ahead: int,
    k: int,
)
    requires
        edge_inside(len, start, along, across, n, back, ahead),
        0 <= k < n,
        along >= 0,
    ensures
        start + k * along >= back * across,
        start + k * along + ahead * across < len,
        (k + 1) * along == k * along + along,
        k * along >= 0,
{
    assert(0 <= k * along <= (n - 1) * along) by (nonlinear_arith)
        requires
            0 <= k <= n - 1,
            along >= 0,
    ;
    assert((k + 1) * along == k * along + along) by (nonlinear_arith);
}

/// Simple filter of `count` lines.
pub fn filter_simple_edge(
    plane: &mut [u8],
    start: usize,
    along: usize,
    across: usize,
    count: usize,
    edge_limit: i32,
)
    requires
        edge_inside(
            old(plane)@.len() as int,
            start as int,
            along as int,
            across as int,
            count as int,
            2,
            1,
        ),
    ensures
        final(plane)@ == simple_edge(
            old(plane)@,
            start as int,
            along as int,
            across as int,
            count as nat,
            edge_limit as int,
        ),
        final(plane)@.len() == old(plane)@.len(),
{
    let len: usize = plane.len();
    let mut k: usize = 0;
    let mut i: usize = start;
    let ghost p0 = plane@;
    assert(0 * along == 0) by (nonlinear_arith);
    while k < count
        invariant
            k <= count,
            k < count ==> i == start + k * along,
            p0.len() == plane@.len(),
            len == p0.len(),
            edge_inside(
                p0.len() as int,
                start as int,
                along as int,
                across as int,
                count as int,
                2,
                1,
            ),
            plane@ == simple_edge(
                p0,
                start as int,
                along as int,
                across as int,
                k as nat,
                edge_limit as int,
            ),
        decreases count - k,
    {
        proof {
            lemma_line_inside(
                p0.len() as int,
                start as int,
                along as int,
                across as int,
                count as int,
                2,
                1,
                k as int,
            );
        }
        simple_at(plane, i, across, edge_limit);
        k = k + 1;
        if k < count {
            proof {
                lemma_line_inside(
                    p0.len() as int,
                    start as int,
                    along as int,
                    across as int,
                    count as int,
                    2,
                    1,
                    k as int,
                );
            }
            i = i + along;
        }
    }
}

/// Normal filter of `count` lines.
pub fn filter_normal_edge(
    plane: &mut [u8],
    start: usize,
    along: usize,
    across: usize,
    count: usize,
    edge_limit: i32,
    interior_limit: i32,
    hev_threshold: i32,
    wide: bool,
)
    requires
        edge_inside(
            old(plane)@.len() as int,
            start as int,
            along as int,
            across as int,
            count as int,
            4,
            3,
        ),
    ensures
        final(plane)@ == normal_edge(
            old(plane)@,
            start as int,
            along as int,
            across as int,
            count as nat,
            edge_limit as int,
            interior_limit as int,
            hev_threshold as int,
            wide,
        ),
        final(plane)@.len() == old(plane)@.len(),
{
    let len: usize = plane.len();
    let mut k: usize = 0;
    let mut i: usize = start;
    let ghost p0 = plane@;
    assert(0 * along == 0) by (nonlinear_arith);
    while k < count
        invariant
            k <= count,
            k < count ==> i == start + k * along,
            p0.len() == plane@.len(),
            len == p0.len(),
            edge_inside(
                p0.len() as int,
                start as int,
                along as int,
                across as int,
                count as int,
                4,
                3,
            ),
            plane@ == normal_edge(
                p0,
                start as int,
                along as int,
                across as int,
                k as nat,
                edge_limit as int,
                interior_limit as int,
                hev_threshold as int,
                wide,
            ),
        decreases count - k,
    {
        proof {
            lemma_line_inside(
                p0.len() as int,
                start as int,
                along as int,
                across as int,
                count as int,
                4,
                3,
                k as int,
            );
        }
        normal_at(plane, i, across, edge_limit, interior_limit, hev_threshold, wide);
        k = k + 1;
        if k < count {
            proof {
                lemma_line_inside(
                    p0.len() as int,
                    start as int,
                    along as int,
                    across as int,
                    count as int,
                    4,
                    3,
                    k as int,
                );
            }
            i = i + along;
        }
    }
}

/// The filters of one line look at eight pixels and change none but the
/// inner six, so that where the line starts makes no difference.
pub proof fn law_line_filter_is_local(
    s: Seq<u8>,
    i: int,
    edge: int,
    interior: int,
    hev: int,
    wide: bool,
)
    requires
        4 <= i <= s.len() - 4,
    ensures
        normal_step(s, i, 1, edge, interior, hev, wide) == s.subrange(0, i - 4) + normal_step(
            s.subrange(i - 4, i + 4),
            4,
            1,
            edge,
            interior,
            hev,
            wide,
        ) + s.subrange(i + 4, s.len() as int),
        simple_step(s, i, 1, edge) == s.subrange(0, i - 4) + simple_step(
            s.subrange(i - 4, i + 4),
            4,
            1,
            edge,
        ) + s.subrange(i + 4, s.len() as int),
{
    let w = s.subrange(i - 4, i + 4);
    assert(line_at(w, 4, 1) == line_at(s, i, 1));
    assert(normal_step(s, i, 1, edge, interior, hev, wide) =~= s.subrange(0, i - 4) + normal_step(
        w,
        4,
        1,
        edge,
        interior,
        hev,
        wide,
    ) + s.subrange(i + 4, s.len() as int));
    assert(simple_step(s, i, 1, edge) =~= s.subrange(0, i - 4) + simple_step(w, 4, 1, edge)
        + s.subrange(i + 4, s.len() as int));
}

/// A pixel turned into a signed number and back is the same pixel.
pub proof fn law_pixel_round_trip(v: u8)
    ensures
        to_px(px(v)) == v,
{
    reveal(to_px);
}

} // verus!
