//! Flat planes: what leaves them as they are.
use crate::edge_filter;
use crate::frame;
use crate::frame::PlanesModel;
use crate::loop_filter;
use crate::loop_filter::{FilterPlan, LoopFilterParams};
use vstd::prelude::*;

verus! {

/// Every pixel is `v`.
pub open spec fn flat(plane: Seq<u8>, v: u8) -> bool {
    forall|i: int| 0 <= i < plane.len() ==> #[trigger] plane[i] == v
}

proof fn lemma_no_correction(v: u8)
    ensures
        edge_filter::correction(true, v, v, v, v) == 0,
        edge_filter::correction(false, v, v, v, v) == 0,
        edge_filter::q_step(0) == 0,
        edge_filter::p_step(0) == 0,
        edge_filter::wide_step(0, 27) == 0,
        edge_filter::wide_step(0, 18) == 0,
        edge_filter::wide_step(0, 9) == 0,
        edge_filter::to_px(edge_filter::px(v)) == v,
{
    reveal(edge_filter::correction);
    reveal(edge_filter::q_step);
    reveal(edge_filter::p_step);
    reveal(edge_filter::wide_step);
    reveal(edge_filter::to_px);
}

proof fn lemma_flat_step(
    plane: Seq<u8>,
    v: u8,
    i: int,
    across: int,
    edge: int,
    interior: int,
    hev: int,
    wide: bool,
)
    requires
        flat(plane, v),
        across >= 1,
        4 * across <= i,
        i + 3 * across < plane.len(),
    ensures
        edge_filter::simple_step(plane, i, across, edge) == plane,
        edge_filter::normal_step(plane, i, across, edge, interior, hev, wide) == plane,
{
    lemma_no_correction(v);
    assert(plane[i - 4 * across] == v && plane[i - 3 * across] == v && plane[i - 2 * across] == v);
    assert(plane[i - across] == v && plane[i] == v && plane[i + across] == v);
    assert(plane[i + 2 * across] == v && plane[i + 3 * across] == v);
    assert(edge_filter::adjusted(plane, i, across, true) =~= plane);
    assert(edge_filter::adjusted(plane, i, across, false) =~= plane);
    assert(edge_filter::simple_step(plane, i, across, edge) =~= plane);
    assert(edge_filter::normal_step(plane, i, across, edge, interior, hev, wide) =~= plane);
}

proof fn lemma_flat_lines(
    plane: Seq<u8>,
    v: u8,
    start: int,
    along: int,
    across: int,
    n: nat,
    edge: int,
    interior: int,
    hev: int,
    wide: bool,
)
    requires
        flat(plane, v),
        across >= 1,
        along >= 0,
        edge_filter::edge_inside(plane.len() as int, start, along, across, n as int, 4, 3),
    ensures
        edge_filter::simple_edge(plane, start, along, across, n, edge) == plane,
        edge_filter::normal_edge(plane, start, along, across, n, edge, interior, hev, wide)
            == plane,
    decreases n,
{
    if n > 0 {
        assert((n - 1) * along - along == (n - 2) * along) by (nonlinear_arith);
        lemma_flat_lines(
            plane,
            v,
            start,
            along,
            across,
            (n - 1) as nat,
            edge,
            interior,
            hev,
            wide,
        );
        assert((n - 1) * along >= 0) by (nonlinear_arith)
            requires
                n >= 1,
                along >= 0,
        ;
        lemma_flat_step(plane, v, start + (n - 1) * along, across, edge, interior, hev, wide);
    }
}

proof fn lemma_flat_edge(
    plane: Seq<u8>,
    v: u8,
    start: int,
    along: int,
    across: int,
    n: nat,
    p: LoopFilterParams,
    simple: bool,
    wide: bool,
)
    requires
        flat(plane, v),
        across >= 1,
        along >= 0,
        edge_filter::edge_inside(plane.len() as int, start, along, across, n as int, 4, 3),
    ensures
        loop_filter::block_edge(plane, start, along, across, n, p, simple, wide) == plane,
{
    let limit = if wide {
        p.mbedge_limit as int
    } else {
        p.sub_bedge_limit as int
    };
    lemma_flat_lines(
        plane,
        v,
        start,
        along,
        across,
        n,
        limit,
        p.interior_limit as int,
        p.hev_threshold as int,
        wide,
    );
}

proof fn lemma_flat_block(
    plane: Seq<u8>,
    v: u8,
    stride: int,
    x0: int,
    y0: int,
    size: nat,
    inner: bool,
    p: LoopFilterParams,
    simple: bool,
)
    requires
        flat(plane, v),
        size == 8 || size == 16,
        x0 >= 0,
        y0 >= 0,
        x0 == 0 || x0 >= 4,
        y0 == 0 || y0 >= 4,
        x0 + size <= stride,
        (y0 + size) * stride <= plane.len(),
    ensures
        loop_filter::filtered_block(plane, stride, x0, y0, size, inner, p, simple) == plane,
{
    let len = plane.len() as int;
    let start = y0 * stride + x0;
    loop_filter::lemma_block_edges(len, stride, x0, y0, size as int, 0);
    assert(0 * (4 * stride) == 0);
    if x0 > 0 {
        lemma_flat_edge(plane, v, start, stride, 1, size, p, simple, true);
    }
    if y0 > 0 {
        lemma_flat_edge(plane, v, start, 1, stride, size, p, simple, true);
    }
    let n = (size / 4 - 1) as nat;
    lemma_flat_inner(plane, v, stride, x0, y0, size, p, simple, n);
}

proof fn lemma_flat_inner(
    plane: Seq<u8>,
    v: u8,
    stride: int,
    x0: int,
    y0: int,
    size: nat,
    p: LoopFilterParams,
    simple: bool,
    q: nat,
)
    requires
        flat(plane, v),
        size == 8 || size == 16,
        x0 >= 0,
        y0 >= 0,
        q <= size / 4 - 1,
        x0 + size <= stride,
        (y0 + size) * stride <= plane.len(),
    ensures
        ({
            let start = y0 * stride + x0;
            &&& loop_filter::inner_edges(plane, start, 4, stride, 1, size, q, p, simple) == plane
            &&& loop_filter::inner_edges(
                plane,
                start,
                4 * stride,
                1,
                stride,
                size,
                q,
                p,
                simple,
            ) == plane
        }),
    decreases q,
{
    if q > 0 {
        let start = y0 * stride + x0;
        lemma_flat_inner(plane, v, stride, x0, y0, size, p, simple, (q - 1) as nat);
        loop_filter::lemma_block_edges(
            plane.len() as int,
            stride,
            x0,
            y0,
            size as int,
            q as int,
        );
        assert(q * 4 == 4 * q);
        lemma_flat_edge(plane, v, start + q * 4, stride, 1, size, p, simple, false);
        lemma_flat_edge(plane, v, start + q * (4 * stride), 1, stride, size, p, simple, false);
    }
}

/// The loop filter leaves a frame of flat planes as it is.
pub proof fn law_flat_frame_is_kept(
    p: PlanesModel,
    a: u8,
    b: u8,
    c: u8,
    ys: int,
    cs: int,
    cols: int,
    rows: int,
    n: nat,
    plan: FilterPlan,
)
    requires
        flat(p.y, a),
        flat(p.u, b),
        flat(p.v, c),
        frame::planes_hold(p, ys, cs, cols, rows),
        cols > 0,
        n <= cols * rows,
    ensures
        loop_filter::filtered_planes(p, ys, cs, cols, n, plan) == p,
    decreases n,
{
    if n > 0 {
        let k = n - 1;
        law_flat_frame_is_kept(p, a, b, c, ys, cs, cols, rows, k as nat, plan);
        reveal(loop_filter::filtered_macroblock);
        let col = k % cols;
        let row = k / cols;
        let params = loop_filter::params_of(plan.levels[k], plan.sharpness, plan.key_frame);
        let inner = plan.inner[k];
        loop_filter::lemma_block_inside(p.y, ys, cols, rows, 16, k);
        loop_filter::lemma_block_inside(p.u, cs, cols, rows, 8, k);
        loop_filter::lemma_block_inside(p.v, cs, cols, rows, 8, k);
        lemma_flat_block(p.y, a, ys, 16 * col, 16 * row, 16, inner, params, plan.simple);
        lemma_flat_block(p.u, b, cs, 8 * col, 8 * row, 8, inner, params, false);
        lemma_flat_block(p.v, c, cs, 8 * col, 8 * row, 8, inner, params, false);
    }
}

} // verus!
