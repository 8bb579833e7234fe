//! The loop filter of whole frames, on key frames and inter frames alike.
use crate::arith;
use crate::decoder;
use crate::decoder::StateModel;
use crate::edge_law;
use crate::frame::PlanesModel;
use crate::frame_header::HeaderModel;
use crate::frame_tag;
use crate::loop_filter;
use crate::loop_filter::{FilterPlan, FrameFilterConfig};
use crate::loopfilter;
use crate::loopfilter::EdgeFilter;
use crate::macroblock::IntraYMode;
use crate::modes::{InfoModel, InterMode};
use vstd::arithmetic::div_mod;
use vstd::prelude::*;

verus! {

/// Macroblock `k` has inner edges: it has a residue, or blocks or vectors of its
/// own.
pub open spec fn has_inner_edges(infos: Seq<InfoModel>, coded: Seq<bool>, k: int) -> bool {
    ||| coded[k]
    ||| infos[k].y_mode == IntraYMode::B
    ||| infos[k].inter_mode == InterMode::Split
}

/// What is filtered in a frame: each macroblock at its own level, with one
/// sharpness and one kind of filter.
pub open spec fn plan_for(
    plan: FilterPlan,
    h: HeaderModel,
    infos: Seq<InfoModel>,
    coded: Seq<bool>,
) -> bool {
    &&& plan.levels.len() == infos.len()
    &&& plan.inner.len() == infos.len()
    &&& forall|k: int|
        0 <= k < infos.len() ==> #[trigger] plan.levels[k] == decoder::filter_level(h, infos[k])
    &&& forall|k: int|
        0 <= k < infos.len() ==> #[trigger] plan.inner[k] == has_inner_edges(infos, coded, k)
    &&& plan.sharpness == h.coded.sharpness
    &&& plan.simple == h.coded.filter_type
}

/// Every frame with a level above zero, key frame or not, is filtered
/// macroblock by macroblock.
pub proof fn law_every_frame_is_filtered(buf: Seq<u8>, st: StateModel, plan: FilterPlan)
    requires
        decoder::frame_header_of(buf, st).0.coded.level != 0,
        plan_for(
            plan,
            decoder::frame_header_of(buf, st).0,
            decoder::frame_infos(buf, st),
            decoder::frame_progress(buf, st).coded,
        ),
        plan.key_frame == frame_tag::is_key(buf),
    ensures
        ({
            let cols = decoder::blocks_for(decoder::frame_size(buf, st).0);
            decoder::decoded_picture(buf, st).planes == loop_filter::filtered_planes(
                decoder::frame_progress(buf, st).planes,
                16 * cols,
                8 * cols,
                cols,
                decoder::frame_infos(buf, st).len(),
                plan,
            )
        }),
{
    reveal(decoder::filtered);
    let h = decoder::frame_header_of(buf, st).0;
    let infos = decoder::frame_infos(buf, st);
    let coded = decoder::frame_progress(buf, st).coded;
    let other = decoder::filter_plan(h, infos, coded, frame_tag::is_key(buf));
    assert(plan.levels =~= other.levels);
    assert(plan.inner =~= other.inner);
}

proof fn lemma_same_thresholds(
    p: PlanesModel,
    ys: int,
    cs: int,
    cols: int,
    n: nat,
    plan: FilterPlan,
    other: FilterPlan,
)
    requires
        other == (FilterPlan { key_frame: other.key_frame, ..plan }),
        forall|k: int| 0 <= k < n ==> 0 <= #[trigger] plan.levels[k] < 20,
    ensures
        loop_filter::filtered_planes(p, ys, cs, cols, n, plan) == loop_filter::filtered_planes(
            p,
            ys,
            cs,
            cols,
            n,
            other,
        ),
    decreases n,
{
    if n > 0 {
        let k = n - 1;
        lemma_same_thresholds(p, ys, cs, cols, k as nat, plan, other);
        reveal(loop_filter::filtered_macroblock);
        assert(0 <= plan.levels[k] < 20);
        assert(loop_filter::params_of(plan.levels[k], plan.sharpness, plan.key_frame)
            == loop_filter::params_of(other.levels[k], other.sharpness, other.key_frame));
    }
}

/// The kind of a frame bears on one threshold only, and on that from level 20
/// on: below it the same planes are filtered alike.
pub proof fn law_kind_of_frame_bears_on_high_levels_only(
    planes: PlanesModel,
    h: HeaderModel,
    infos: Seq<InfoModel>,
    coded: Seq<bool>,
    cols: int,
)
    requires
        forall|k: int|
            0 <= k < infos.len() ==> decoder::filter_level(h, #[trigger] infos[k]) < 20,
    ensures
        decoder::filtered(planes, h, infos, coded, true, cols) == decoder::filtered(
            planes,
            h,
            infos,
            coded,
            false,
            cols,
        ),
{
    reveal(decoder::filtered);
    let a = decoder::filter_plan(h, infos, coded, true);
    let b = decoder::filter_plan(h, infos, coded, false);
    assert forall|k: int| 0 <= k < infos.len() implies 0 <= #[trigger] a.levels[k] < 20 by {
        assert(decoder::filter_level(h, infos[k]) < 20);
    }
    lemma_same_thresholds(planes, 16 * cols, 8 * cols, cols, infos.len(), a, b);
}

/// The limit on the steps between the pixels on one side of an edge: the level,
/// halved or quartered and cut as the sharpness grows, but at least one.
pub open spec fn inner_limit(level: int, sharpness: int) -> int {
    let l = if sharpness == 0 {
        level
    } else if sharpness <= 4 {
        arith::clamp_int(level / 2, 0, 9 - sharpness)
    } else {
        arith::clamp_int(level / 4, 0, 9 - sharpness)
    };
    if l < 1 {
        1
    } else {
        l
    }
}

/// The threshold from which on a line counts as uneven.
pub open spec fn uneven_from(level: int, key_frame: bool) -> int {
    if level < 15 {
        0
    } else if level < 20 || key_frame && level < 40 {
        1
    } else if level < 40 || key_frame {
        2
    } else {
        3
    }
}

/// The filter between two macroblocks at a level.
pub open spec fn outer_filter(
    level: int,
    sharpness: int,
    key_frame: bool,
    simple: bool,
) -> EdgeFilter {
    EdgeFilter {
        edge: 2 * (level + 2) + inner_limit(level, sharpness),
        interior: inner_limit(level, sharpness),
        hev: uneven_from(level, key_frame),
        normal: !simple,
        wide: true,
    }
}

/// The filter inside a macroblock at a level.
pub open spec fn own_filter(
    level: int,
    sharpness: int,
    key_frame: bool,
    simple: bool,
) -> EdgeFilter {
    EdgeFilter {
        edge: 2 * level + inner_limit(level, sharpness),
        wide: false,
        ..outer_filter(level, sharpness, key_frame, simple)
    }
}

/// A level and a sharpness that a frame can have.
pub open spec fn in_range(level: int, sharpness: int) -> bool {
    0 <= level <= 63 && 0 <= sharpness <= 7
}

proof fn lemma_limits(level: int, sharpness: int, key_frame: bool)
    requires
        in_range(level, sharpness),
    ensures
        ({
            let p = loop_filter::params_of(level, sharpness, key_frame);
            &&& p.interior_limit == inner_limit(level, sharpness)
            &&& p.hev_threshold == uneven_from(level, key_frame)
            &&& p.mbedge_limit == 2 * (level + 2) + inner_limit(level, sharpness)
            &&& p.sub_bedge_limit == 2 * level + inner_limit(level, sharpness)
        }),
{
}

proof fn lemma_edge_is_filtered(
    plane: Seq<u8>,
    start: int,
    along: int,
    across: int,
    n: nat,
    level: int,
    sharpness: int,
    key_frame: bool,
    simple: bool,
)
    requires
        in_range(level, sharpness),
    ensures
        ({
            let p = loop_filter::params_of(level, sharpness, key_frame);
            &&& loop_filter::block_edge(plane, start, along, across, n, p, simple, true)
                == loopfilter::filtered_edge(
                plane,
                start,
                along,
                across,
                n,
                outer_filter(level, sharpness, key_frame, simple),
            )
            &&& loop_filter::block_edge(plane, start, along, across, n, p, simple, false)
                == loopfilter::filtered_edge(
                plane,
                start,
                along,
                across,
                n,
                own_filter(level, sharpness, key_frame, simple),
            )
        }),
{
    lemma_limits(level, sharpness, key_frame);
}

/// The column at which macroblock `c` of a row begins.
pub open spec fn begin_of(size: int, c: int) -> int {
    size * c
}

/// Pixel `at` lies within reach of the edge in front of a macroblock.
pub open spec fn in_reach(at: int, size: int, c: int, f: EdgeFilter) -> bool {
    begin_of(size, c) - f.reach() <= at < begin_of(size, c) + f.reach()
}

/// The filter of the edge in front of macroblock `k` of a frame.
pub open spec fn filter_before(plan: FilterPlan, k: int) -> EdgeFilter {
    outer_filter(plan.levels[k], plan.sharpness, plan.key_frame, plan.simple)
}

/// A plane one macroblock high in which the edges in front of the first `n`
/// macroblocks are filtered: each line across an edge is what the filter of one
/// line makes of it, at the level of the macroblock behind the edge, and all
/// other pixels are as they were.
pub open spec fn row_is_filtered(
    plane: Seq<u8>,
    after: Seq<u8>,
    stride: int,
    size: int,
    n: int,
    plan: FilterPlan,
) -> bool {
    &&& after.len() == plane.len()
    &&& forall|c: int|
        1 <= c < n && plan.levels[c] != 0 ==> edge_law::rows_are_filtered(
            plane,
            after,
            stride,
            #[trigger] begin_of(size, c),
            size,
            filter_before(plan, c),
        )
    &&& forall|i: int|
        0 <= i < plane.len() && (forall|c: int|
            1 <= c < n && plan.levels[c] != 0 ==> !#[trigger] in_reach(
                i % stride,
                size,
                c,
                filter_before(plan, c),
            )) ==> #[trigger] after[i] == plane[i]
}

/// A plan without inner edges for a frame of `n` macroblocks.
pub open spec fn edges_only(plan: FilterPlan, n: int) -> bool {
    &&& 0 <= plan.sharpness <= 7
    &&& forall|k: int| 0 <= k < n ==> 0 <= #[trigger] plan.levels[k] <= 63
    &&& forall|k: int| 0 <= k < n ==> !#[trigger] plan.inner[k]
}

proof fn lemma_edges_apart(size: int, b: int, c: int, at: int, f: EdgeFilter, g: EdgeFilter)
    requires
        size >= 8,
        b != c,
        in_reach(at, size, b, f),
    ensures
        !in_reach(at, size, c, g),
{
    if b < c {
        assert(size * (b + 1) <= size * c) by (nonlinear_arith)
            requires
                b + 1 <= c,
                size >= 0,
        ;
        assert(size * (b + 1) == size * b + size) by (nonlinear_arith);
    } else {
        assert(size * (c + 1) <= size * b) by (nonlinear_arith)
            requires
                c + 1 <= b,
                size >= 0,
        ;
        assert(size * (c + 1) == size * c + size) by (nonlinear_arith);
    }
}

/// One more edge of a row.
proof fn lemma_next_edge(
    plane: Seq<u8>,
    before: Seq<u8>,
    stride: int,
    size: int,
    cols: int,
    n: int,
    plan: FilterPlan,
)
    requires
        size == 8 || size == 16,
        1 <= n < cols,
        stride == size * cols,
        plane.len() == size * stride,
        row_is_filtered(plane, before, stride, size, n, plan),
        0 < plan.levels[n] <= 63,
        0 <= plan.sharpness <= 7,
    ensures
        row_is_filtered(
            plane,
            loopfilter::vertical_edge(
                before,
                stride,
                begin_of(size, n),
                stride,
                size,
                filter_before(plan, n),
            ),
            stride,
            size,
            n + 1,
            plan,
        ),
{
    let f = filter_before(plan, n);
    let x = begin_of(size, n);
    let after = loopfilter::vertical_edge(before, stride, x, stride, size, f);
    let r = f.reach();
    assert(size <= x <= stride - size) by (nonlinear_arith)
        requires
            1 <= n < cols,
            x == size * n,
            stride == size * cols,
            size >= 0,
    ;
    edge_law::law_vertical_edge_by_rows(before, stride, x, stride, size, f);
    assert forall|c: int| 1 <= c < n + 1 && plan.levels[c] != 0 implies edge_law::rows_are_filtered(
        plane,
        after,
        stride,
        #[trigger] begin_of(size, c),
        size,
        filter_before(plan, c),
    ) by {
        let g = filter_before(plan, c);
        let z = begin_of(size, c);
        assert(g.reach() == r);
        assert(size <= z <= x) by (nonlinear_arith)
            requires
                1 <= c <= n,
                x == size * n,
                z == size * c,
                size >= 0,
        ;
        assert forall|j: int| 0 <= j < size implies after.subrange(
            #[trigger] edge_law::row_start(stride, z, j, g),
            edge_law::row_start(stride, z, j, g) + 2 * g.reach(),
        ) == edge_law::filtered_line(
            plane.subrange(
                edge_law::row_start(stride, z, j, g),
                edge_law::row_start(stride, z, j, g) + 2 * g.reach(),
            ),
            g.reach(),
            1,
            g,
        ) by {
            let at = edge_law::row_start(stride, z, j, g);
            lemma_row_inside(plane.len() as int, stride, size, z, j, r);
            if c == n {
                let old_line = plane.subrange(at, at + 2 * r);
                let new_line = before.subrange(at, at + 2 * r);
                assert(old_line =~= new_line) by {
                    assert forall|t: int| 0 <= t < 2 * r implies #[trigger] old_line[t]
                        == new_line[t] by {
                        lemma_in_row(stride, j, z - r + t);
                        let i = at + t;
                        assert(in_reach(i % stride, size, n, f));
                        assert forall|b: int| 1 <= b < n && plan.levels[b] != 0 implies
                            !#[trigger] in_reach(
                            i % stride,
                            size,
                            b,
                            filter_before(plan, b),
                        ) by {
                            lemma_edges_apart(size, n, b, i % stride, f, filter_before(plan, b));
                        }
                        assert(before[i] == plane[i]);
                    }
                }
                assert(edge_law::row_start(stride, x, j, f) == at);
            } else {
                assert(edge_law::rows_are_filtered(plane, before, stride, z, size, g));
                let old_line = before.subrange(at, at + 2 * r);
                let new_line = after.subrange(at, at + 2 * r);
                assert(old_line =~= new_line) by {
                    assert forall|t: int| 0 <= t < 2 * r implies #[trigger] old_line[t]
                        == new_line[t] by {
                        lemma_in_row(stride, j, z - r + t);
                        let i = at + t;
                        assert(in_reach(i % stride, size, c, g));
                        lemma_edges_apart(size, c, n, i % stride, g, f);
                        assert(after[i] == before[i]);
                    }
                }
            }
        }
    }
    assert forall|i: int|
        0 <= i < plane.len() && (forall|c: int|
            1 <= c < n + 1 && plan.levels[c] != 0 ==> !#[trigger] in_reach(
                i % stride,
                size,
                c,
                filter_before(plan, c),
            )) implies #[trigger] after[i] == plane[i] by {
        assert(!in_reach(i % stride, size, n, f));
        assert(after[i] == before[i]);
    }
}

proof fn lemma_in_row(stride: int, j: int, x: int)
    requires
        0 <= x < stride,
        0 <= j,
    ensures
        (j * stride + x) % stride == x,
        (j * stride + x) / stride == j,
{
    div_mod::lemma_fundamental_div_mod_converse(j * stride + x, stride, j, x);
}

proof fn lemma_row_inside(len: int, stride: int, size: int, x: int, j: int, r: int)
    requires
        len == size * stride,
        0 <= j < size,
        0 <= r <= x,
        x + r <= stride,
    ensures
        0 <= x + j * stride - r,
        x + j * stride + r <= len,
        x + j * stride == j * stride + x,
{
    assert(0 <= j * stride && j * stride + stride <= size * stride) by (nonlinear_arith)
        requires
            0 <= j,
            j + 1 <= size,
            stride >= 0,
    ;
}

/// One plane of a frame that is one macroblock high, after the first `n`
/// macroblocks.
spec fn row_plane(
    plane: Seq<u8>,
    stride: int,
    size: nat,
    cols: int,
    n: nat,
    plan: FilterPlan,
) -> Seq<u8>
    decreases n,
{
    if n == 0 {
        plane
    } else {
        let k = n - 1;
        let before = row_plane(plane, stride, size, cols, k as nat, plan);
        if plan.levels[k] == 0 {
            before
        } else {
            loop_filter::filtered_block(
                before,
                stride,
                size * (k % cols),
                size * (k / cols),
                size,
                plan.inner[k],
                loop_filter::params_of(plan.levels[k], plan.sharpness, plan.key_frame),
                plan.simple,
            )
        }
    }
}

proof fn lemma_planes_apart(p: PlanesModel, cols: int, n: nat, plan: FilterPlan)
    ensures
        ({
            let after = loop_filter::filtered_planes(p, 16 * cols, 8 * cols, cols, n, plan);
            &&& after.y == row_plane(p.y, 16 * cols, 16, cols, n, plan)
            &&& after.u == if plan.simple {
                p.u
            } else {
                row_plane(p.u, 8 * cols, 8, cols, n, plan)
            }
            &&& after.v == if plan.simple {
                p.v
            } else {
                row_plane(p.v, 8 * cols, 8, cols, n, plan)
            }
        }),
    decreases n,
{
    if n > 0 {
        lemma_planes_apart(p, cols, (n - 1) as nat, plan);
        reveal(loop_filter::filtered_macroblock);
    }
}

proof fn lemma_row_plane(
    plane: Seq<u8>,
    stride: int,
    size: nat,
    cols: int,
    n: nat,
    plan: FilterPlan,
)
    requires
        size == 8 || size == 16,
        n <= cols,
        stride == size * cols,
        plane.len() == size * stride,
        edges_only(plan, cols),
    ensures
        row_is_filtered(
            plane,
            row_plane(plane, stride, size, cols, n, plan),
            stride,
            size as int,
            n as int,
            plan,
        ),
    decreases n,
{
    if n > 0 {
        let k = n - 1;
        let before = row_plane(plane, stride, size, cols, k as nat, plan);
        let after = row_plane(plane, stride, size, cols, n, plan);
        lemma_row_plane(plane, stride, size, cols, k as nat, plan);
        div_mod::lemma_small_mod(k as nat, cols as nat);
        div_mod::lemma_basic_div(k, cols);
        assert(0 <= plan.levels[k] <= 63);
        assert(!plan.inner[k]);
        if k == 0 {
            assert(size * 0 == 0);
            assert(after == before);
        } else if plan.levels[k] == 0 {
            assert(row_is_filtered(plane, before, stride, size as int, k, plan));
        } else {
            lemma_next_edge(plane, before, stride, size as int, cols, k, plan);
            let x = size * k;
            assert(size <= x <= stride - size) by (nonlinear_arith)
                requires
                    1 <= k < cols,
                    x == size * k,
                    stride == size * cols,
                    size >= 0,
            ;
            lemma_edge_is_filtered(
                before,
                x,
                stride,
                1,
                size,
                plan.levels[k],
                plan.sharpness,
                plan.key_frame,
                plan.simple,
            );
            assert(size * 0 == 0);
            assert(0 * stride + x == x);
            assert(after == loopfilter::vertical_edge(
                before,
                stride,
                begin_of(size as int, k),
                stride,
                size as int,
                filter_before(plan, k),
            ));
        }
    }
}

/// In a frame one macroblock high whose macroblocks have no inner edges, key
/// frame or not, each edge between two macroblocks is filtered line by line, at
/// the level of the macroblock to its right, and nothing else changes. The
/// simple filter leaves chroma alone.
pub proof fn law_row_of_macroblocks_is_filtered(p: PlanesModel, cols: int, plan: FilterPlan)
    requires
        cols >= 1,
        p.y.len() == 16 * (16 * cols),
        p.u.len() == 8 * (8 * cols),
        p.v.len() == 8 * (8 * cols),
        edges_only(plan, cols),
    ensures
        ({
            let after = loop_filter::filtered_planes(
                p,
                16 * cols,
                8 * cols,
                cols,
                cols as nat,
                plan,
            );
            &&& row_is_filtered(p.y, after.y, 16 * cols, 16, cols, plan)
            &&& !plan.simple ==> row_is_filtered(p.u, after.u, 8 * cols, 8, cols, plan)
            &&& !plan.simple ==> row_is_filtered(p.v, after.v, 8 * cols, 8, cols, plan)
            &&& plan.simple ==> after.u == p.u && after.v == p.v
        }),
{
    lemma_planes_apart(p, cols, cols as nat, plan);
    lemma_row_plane(p.y, 16 * cols, 16, cols, cols as nat, plan);
    lemma_row_plane(p.u, 8 * cols, 8, cols, cols as nat, plan);
    lemma_row_plane(p.v, 8 * cols, 8, cols, cols as nat, plan);
}

/// A plane one macroblock wide in which the edges above the first `n`
/// macroblocks are filtered.
pub open spec fn column_is_filtered(
    plane: Seq<u8>,
    after: Seq<u8>,
    size: int,
    n: int,
    plan: FilterPlan,
) -> bool {
    &&& after.len() == plane.len()
    &&& forall|r: int|
        1 <= r < n && plan.levels[r] != 0 ==> edge_law::columns_are_filtered(
            plane,
            after,
            size,
            #[trigger] begin_of(size, r),
            size,
            filter_before(plan, r),
        )
    &&& forall|i: int|
        0 <= i < plane.len() && (forall|r: int|
            1 <= r < n && plan.levels[r] != 0 ==> !#[trigger] in_reach(
                i / size,
                size,
                r,
                filter_before(plan, r),
            )) ==> #[trigger] after[i] == plane[i]
}

/// Two planes that agree on the rows within reach of an edge agree on the lines
/// across it.
proof fn lemma_same_line(a: Seq<u8>, b: Seq<u8>, size: int, y: int, j: int, f: EdgeFilter)
    requires
        a.len() == b.len(),
        size >= 8,
        0 <= j < size,
        f.reach() <= y,
        (y + f.reach()) * size <= a.len(),
        forall|i: int|
            0 <= i < a.len() && y - f.reach() <= i / size < y + f.reach() ==> #[trigger] a[i] == b[i],
    ensures
        edge_law::line_pixels(a, edge_law::crossing(y * size, 1, j), size, f.normal)
            == edge_law::line_pixels(b, edge_law::crossing(y * size, 1, j), size, f.normal),
{
    let r = f.reach();
    let at = edge_law::crossing(y * size, 1, j);
    assert forall|t: int| -r <= t < r implies #[trigger] a[at + t * size] == b[at + t * size] by {
        let i = at + t * size;
        assert(i == (y + t) * size + j) by (nonlinear_arith)
            requires
                i == y * size + j + t * size,
        ;
        assert(0 <= (y + t) * size && (y + t) * size + size <= (y + r) * size) by (nonlinear_arith)
            requires
                0 <= y + t,
                t + 1 <= r,
                size >= 0,
        ;
        lemma_in_row(size, y + t, j);
    }
    assert(a[at + (-2) * size] == b[at + (-2) * size]);
    assert(a[at + (-1) * size] == b[at + (-1) * size]);
    assert(a[at + 0 * size] == b[at + 0 * size]);
    assert(a[at + 1 * size] == b[at + 1 * size]);
    if f.normal {
        assert(a[at + (-4) * size] == b[at + (-4) * size]);
        assert(a[at + (-3) * size] == b[at + (-3) * size]);
        assert(a[at + 2 * size] == b[at + 2 * size]);
        assert(a[at + 3 * size] == b[at + 3 * size]);
    }
}

/// One more edge of a column.
proof fn lemma_next_edge_down(
    plane: Seq<u8>,
    before: Seq<u8>,
    size: int,
    rows: int,
    n: int,
    plan: FilterPlan,
)
    requires
        size == 8 || size == 16,
        1 <= n < rows,
        plane.len() == size * rows * size,
        column_is_filtered(plane, before, size, n, plan),
        0 < plan.levels[n] <= 63,
        0 <= plan.sharpness <= 7,
    ensures
        column_is_filtered(
            plane,
            loopfilter::horizontal_edge(
                before,
                size,
                begin_of(size, n),
                size,
                size * rows,
                filter_before(plan, n),
            ),
            size,
            n + 1,
            plan,
        ),
{
    let f = filter_before(plan, n);
    let y = begin_of(size, n);
    let height = size * rows;
    let after = loopfilter::horizontal_edge(before, size, y, size, height, f);
    let r = f.reach();
    assert(size <= y <= height - size) by (nonlinear_arith)
        requires
            1 <= n < rows,
            y == size * n,
            height == size * rows,
            size >= 0,
    ;
    edge_law::law_horizontal_edge_by_columns(before, size, y, size, height, f);
    assert forall|c: int| 1 <= c < n + 1 && plan.levels[c]
        != 0 implies edge_law::columns_are_filtered(
        plane,
        after,
        size,
        #[trigger] begin_of(size, c),
        size,
        filter_before(plan, c),
    ) by {
        let g = filter_before(plan, c);
        let z = begin_of(size, c);
        assert(g.reach() == r);
        assert(size <= z <= y) by (nonlinear_arith)
            requires
                1 <= c <= n,
                y == size * n,
                z == size * c,
                size >= 0,
        ;
        assert((z + r) * size <= height * size) by (nonlinear_arith)
            requires
                z + r <= height,
                size >= 0,
        ;
        assert forall|j: int| 0 <= j < size implies edge_law::line_pixels(
            after,
            #[trigger] edge_law::crossing(z * size, 1, j),
            size,
            g.normal,
        ) == edge_law::filtered_line(
            edge_law::line_pixels(plane, edge_law::crossing(z * size, 1, j), size, g.normal),
            g.reach(),
            1,
            g,
        ) by {
            if c == n {
                assert forall|i: int|
                    0 <= i < plane.len() && y - r <= i / size < y + r implies #[trigger] before[i]
                    == plane[i] by {
                    assert(in_reach(i / size, size, n, f));
                    assert forall|b: int| 1 <= b < n && plan.levels[b] != 0 implies
                        !#[trigger] in_reach(i / size, size, b, filter_before(plan, b)) by {
                        lemma_edges_apart(size, n, b, i / size, f, filter_before(plan, b));
                    }
                }
                lemma_same_line(before, plane, size, y, j, f);
            } else {
                assert(edge_law::columns_are_filtered(plane, before, size, z, size, g));
                assert forall|i: int|
                    0 <= i < plane.len() && z - r <= i / size < z + r implies #[trigger] after[i]
                    == before[i] by {
                    assert(in_reach(i / size, size, c, g));
                    lemma_edges_apart(size, c, n, i / size, g, f);
                }
                lemma_same_line(after, before, size, z, j, g);
            }
        }
    }
    assert forall|i: int|
        0 <= i < plane.len() && (forall|c: int|
            1 <= c < n + 1 && plan.levels[c] != 0 ==> !#[trigger] in_reach(
                i / size,
                size,
                c,
                filter_before(plan, c),
            )) implies #[trigger] after[i] == plane[i] by {
        assert(!in_reach(i / size, size, n, f));
        assert(after[i] == before[i]);
    }
}

proof fn lemma_column_plane(plane: Seq<u8>, size: nat, rows: int, n: nat, plan: FilterPlan)
    requires
        size == 8 || size == 16,
        n <= rows,
        plane.len() == size * rows * size,
        edges_only(plan, rows),
    ensures
        column_is_filtered(
            plane,
            row_plane(plane, size as int, size, 1, n, plan),
            size as int,
            n as int,
            plan,
        ),
    decreases n,
{
    if n > 0 {
        let k = n - 1;
        let before = row_plane(plane, size as int, size, 1, k as nat, plan);
        let after = row_plane(plane, size as int, size, 1, n, plan);
        lemma_column_plane(plane, size, rows, k as nat, plan);
        assert(k % 1 == 0 && k / 1 == k);
        assert(size * 0 == 0);
        assert(0 <= plan.levels[k] <= 63);
        assert(!plan.inner[k]);
        if k == 0 {
            assert(after == before);
        } else if plan.levels[k] == 0 {
            assert(column_is_filtered(plane, before, size as int, k, plan));
        } else {
            lemma_next_edge_down(plane, before, size as int, rows, k, plan);
            let y = size * k;
            assert(size <= y <= size * rows - size) by (nonlinear_arith)
                requires
                    1 <= k < rows,
                    y == size * k,
                    size >= 0,
            ;
            lemma_edge_is_filtered(
                before,
                y * size,
                1,
                size as int,
                size,
                plan.levels[k],
                plan.sharpness,
                plan.key_frame,
                plan.simple,
            );
            assert(after == loopfilter::horizontal_edge(
                before,
                size as int,
                begin_of(size as int, k),
                size as int,
                size * rows,
                filter_before(plan, k),
            ));
        }
    }
}

/// The same of a frame one macroblock wide: each edge between two macroblocks is
/// filtered column by column, at the level of the macroblock below it.
pub proof fn law_column_of_macroblocks_is_filtered(p: PlanesModel, rows: int, plan: FilterPlan)
    requires
        rows >= 1,
        p.y.len() == 16 * rows * 16,
        p.u.len() == 8 * rows * 8,
        p.v.len() == 8 * rows * 8,
        edges_only(plan, rows),
    ensures
        ({
            let after = loop_filter::filtered_planes(p, 16, 8, 1, rows as nat, plan);
            &&& column_is_filtered(p.y, after.y, 16, rows, plan)
            &&& !plan.simple ==> column_is_filtered(p.u, after.u, 8, rows, plan)
            &&& !plan.simple ==> column_is_filtered(p.v, after.v, 8, rows, plan)
            &&& plan.simple ==> after.u == p.u && after.v == p.v
        }),
{
    lemma_planes_apart(p, 1, rows as nat, plan);
    lemma_column_plane(p.y, 16, rows, rows as nat, plan);
    lemma_column_plane(p.u, 8, rows, rows as nat, plan);
    lemma_column_plane(p.v, 8, rows, rows as nat, plan);
}

/// A plane of one macroblock after the filters of its inner edges, first those
/// that stand upright, from left to right, then those that lie, from the top
/// down.
pub open spec fn inner_filtered(plane: Seq<u8>, size: int, f: EdgeFilter) -> Seq<u8> {
    let a = loopfilter::vertical_edge(plane, size, 4, size, size, f);
    let b = if size == 16 {
        loopfilter::vertical_edge(
            loopfilter::vertical_edge(a, size, 8, size, size, f),
            size,
            12,
            size,
            size,
            f,
        )
    } else {
        a
    };
    let c = loopfilter::horizontal_edge(b, size, 4, size, size, f);
    if size == 16 {
        loopfilter::horizontal_edge(
            loopfilter::horizontal_edge(c, size, 8, size, size, f),
            size,
            12,
            size,
            size,
            f,
        )
    } else {
        c
    }
}

proof fn lemma_inner_plane(plane: Seq<u8>, size: nat, plan: FilterPlan)
    requires
        size == 8 || size == 16,
        plan.inner[0],
        0 < plan.levels[0] <= 63,
        0 <= plan.sharpness <= 7,
    ensures
        row_plane(plane, size as int, size, 1, 1, plan) == inner_filtered(
            plane,
            size as int,
            own_filter(plan.levels[0], plan.sharpness, plan.key_frame, plan.simple),
        ),
{
    let (l, s, k) = (plan.levels[0], plan.sharpness, plan.key_frame);
    let p = loop_filter::params_of(l, s, k);
    reveal_with_fuel(row_plane, 2);
    reveal_with_fuel(loop_filter::inner_edges, 4);
    assert(size * 0 == 0);
    assert(0int % 1 == 0 && 0int / 1 == 0);
    let n = size as int;
    assert(0 * n + 0 == 0);
    let at = 0 * n + 0;
    assert forall|q: Seq<u8>, start: int, along: int, across: int| #[trigger]
        loop_filter::block_edge(q, start, along, across, size, p, plan.simple, false)
        == loopfilter::filtered_edge(
        q,
        start,
        along,
        across,
        size,
        own_filter(l, s, k, plan.simple),
    ) by {
        lemma_edge_is_filtered(q, start, along, across, size, l, s, k, plan.simple);
    }
    assert(at + 1 * 4 == 4 && at + 2 * 4 == 8 && at + 3 * 4 == 12);
    assert(at + 1 * (4 * n) == 4 * n && at + 2 * (4 * n) == 8 * n && at + 3 * (4 * n) == 12 * n);
}

/// A single macroblock is filtered along its inner edges where it has any, and
/// not at all where it has none.
pub proof fn law_single_macroblock_is_filtered_inside(p: PlanesModel, plan: FilterPlan)
    requires
        p.y.len() == 256,
        p.u.len() == 64,
        p.v.len() == 64,
        0 < plan.levels[0] <= 63,
        0 <= plan.sharpness <= 7,
    ensures
        ({
            let after = loop_filter::filtered_planes(p, 16, 8, 1, 1, plan);
            let f = own_filter(plan.levels[0], plan.sharpness, plan.key_frame, plan.simple);
            &&& plan.inner[0] ==> after.y == inner_filtered(p.y, 16, f)
            &&& plan.inner[0] && !plan.simple ==> after.u == inner_filtered(p.u, 8, f) && after.v
                == inner_filtered(p.v, 8, f)
            &&& !plan.inner[0] ==> after == p
            &&& plan.simple ==> after.u == p.u && after.v == p.v
        }),
{
    lemma_planes_apart(p, 1, 1, plan);
    if plan.inner[0] {
        lemma_inner_plane(p.y, 16, plan);
        lemma_inner_plane(p.u, 8, plan);
        lemma_inner_plane(p.v, 8, plan);
    } else {
        reveal_with_fuel(row_plane, 2);
        assert(0int % 1 == 0 && 0int / 1 == 0);
    }
}

/// What holds of the filter holds of a frame's planes: on a frame one macroblock
/// high and with a level above zero, key frame or not, every edge between two
/// macroblocks without inner edges is filtered line by line.
pub proof fn law_row_frame_is_filtered(
    planes: PlanesModel,
    h: HeaderModel,
    infos: Seq<InfoModel>,
    coded: Seq<bool>,
    key_frame: bool,
    plan: FilterPlan,
)
    requires
        infos.len() >= 1,
        h.coded.level != 0,
        0 <= h.coded.sharpness <= 7,
        plan_for(plan, h, infos, coded),
        plan.key_frame == key_frame,
        forall|k: int| 0 <= k < infos.len() ==> !#[trigger] has_inner_edges(infos, coded, k),
        planes.y.len() == 16 * (16 * infos.len()),
        planes.u.len() == 8 * (8 * infos.len()),
        planes.v.len() == 8 * (8 * infos.len()),
    ensures
        ({
            let cols = infos.len() as int;
            let after = decoder::filtered(planes, h, infos, coded, key_frame, cols);
            &&& row_is_filtered(planes.y, after.y, 16 * cols, 16, cols, plan)
            &&& !plan.simple ==> row_is_filtered(planes.u, after.u, 8 * cols, 8, cols, plan)
            &&& !plan.simple ==> row_is_filtered(planes.v, after.v, 8 * cols, 8, cols, plan)
            &&& plan.simple ==> after.u == planes.u && after.v == planes.v
        }),
{
    reveal(decoder::filtered);
    let other = decoder::filter_plan(h, infos, coded, key_frame);
    assert(plan.levels =~= other.levels);
    assert(plan.inner =~= other.inner);
    assert forall|k: int| 0 <= k < infos.len() implies 0 <= #[trigger] plan.levels[k] <= 63 by {}
    assert forall|k: int| 0 <= k < infos.len() implies !#[trigger] plan.inner[k] by {
        assert(!has_inner_edges(infos, coded, k));
    }
    law_row_of_macroblocks_is_filtered(planes, infos.len() as int, plan);
}

/// The level of a macroblock of a key frame is the same whether it comes from
/// the configuration of the frame's filter or from its header, as long as the
/// levels of its segments are levels.
pub proof fn law_both_levels_agree(
    c: FrameFilterConfig,
    h: HeaderModel,
    info: InfoModel,
    segment: u8,
)
    requires
        segment <= 3,
        info.segment_id == segment,
        info.reference is None,
        c.loop_filter_level == h.coded.level,
        0 <= h.coded.level <= 63,
        c.segmentation_enabled == (h.coded.segmentation is Some),
        h.coded.segmentation is Some ==> {
            let s = h.coded.segmentation->0;
            &&& c.segment_abs == s.absolute
            &&& c.segment_lf_level[segment as int] == decoder::or_zero(s.loop_filter[segment as int])
            &&& s.absolute ==> 0 <= c.segment_lf_level[segment as int] <= 63
        },
        c.delta_enabled == h.coded.lf_adjust.enable,
        c.delta_enabled ==> c.ref_delta_current == h.probs.ref_deltas[0] && c.bpred_mode_delta
            == h.probs.mode_deltas[0],
    ensures
        loop_filter::mb_level(c, Some(segment), info.y_mode == IntraYMode::B)
            == decoder::filter_level(h, info),
{
}

/// A block after the filters of its edges, in order: the one to its left, the
/// inner ones that stand upright from left to right, the one above it, and the
/// inner ones that lie from the top down. There is no edge at the sides of the
/// plane.
pub open spec fn edges_in_order(
    plane: Seq<u8>,
    stride: int,
    x: int,
    y: int,
    size: nat,
    inner: bool,
    outer: EdgeFilter,
    own: EdgeFilter,
) -> Seq<u8> {
    let s = y * stride + x;
    let a = if x > 0 {
        loopfilter::filtered_edge(plane, s, stride, 1, size, outer)
    } else {
        plane
    };
    let b1 = loopfilter::filtered_edge(a, s + 4, stride, 1, size, own);
    let b2 = loopfilter::filtered_edge(b1, s + 8, stride, 1, size, own);
    let b3 = loopfilter::filtered_edge(b2, s + 12, stride, 1, size, own);
    let b = if !inner {
        a
    } else if size == 8 {
        b1
    } else {
        b3
    };
    let c = if y > 0 {
        loopfilter::filtered_edge(b, s, 1, stride, size, outer)
    } else {
        b
    };
    let d1 = loopfilter::filtered_edge(c, s + 4 * stride, 1, stride, size, own);
    let d2 = loopfilter::filtered_edge(d1, s + 8 * stride, 1, stride, size, own);
    let d3 = loopfilter::filtered_edge(d2, s + 12 * stride, 1, stride, size, own);
    if !inner {
        c
    } else if size == 8 {
        d1
    } else {
        d3
    }
}

/// The edges of every macroblock, wherever it stands, are filtered in this
/// order, the outer ones with the wide filter and the inner ones with the narrow
/// one.
pub proof fn law_edges_come_in_order(
    plane: Seq<u8>,
    stride: int,
    x: int,
    y: int,
    size: nat,
    inner: bool,
    level: int,
    sharpness: int,
    key_frame: bool,
    simple: bool,
)
    requires
        size == 8 || size == 16,
        in_range(level, sharpness),
    ensures
        loop_filter::filtered_block(
            plane,
            stride,
            x,
            y,
            size,
            inner,
            loop_filter::params_of(level, sharpness, key_frame),
            simple,
        ) == edges_in_order(
            plane,
            stride,
            x,
            y,
            size,
            inner,
            outer_filter(level, sharpness, key_frame, simple),
            own_filter(level, sharpness, key_frame, simple),
        ),
{
    let p = loop_filter::params_of(level, sharpness, key_frame);
    let s = y * stride + x;
    reveal_with_fuel(loop_filter::inner_edges, 4);
    assert forall|q: Seq<u8>, start: int, along: int, across: int| #[trigger]
        loop_filter::block_edge(q, start, along, across, size, p, simple, false)
        == loopfilter::filtered_edge(
        q,
        start,
        along,
        across,
        size,
        own_filter(level, sharpness, key_frame, simple),
    ) by {
        lemma_edge_is_filtered(q, start, along, across, size, level, sharpness, key_frame, simple);
    }
    assert forall|q: Seq<u8>, start: int, along: int, across: int| #[trigger]
        loop_filter::block_edge(q, start, along, across, size, p, simple, true)
        == loopfilter::filtered_edge(
        q,
        start,
        along,
        across,
        size,
        outer_filter(level, sharpness, key_frame, simple),
    ) by {
        lemma_edge_is_filtered(q, start, along, across, size, level, sharpness, key_frame, simple);
    }
    assert(s + 1 * 4 == s + 4 && s + 2 * 4 == s + 8 && s + 3 * 4 == s + 12);
    assert(1 * (4 * stride) == 4 * stride && 2 * (4 * stride) == 8 * stride && 3 * (4 * stride)
        == 12 * stride);
}

/// The thresholds of the plane filters are those of the frame's filter.
pub proof fn law_thresholds_are_the_same(level: int, sharpness: int, key_frame: bool)
    requires
        in_range(level, sharpness),
    ensures
        loopfilter::edge_limit_of(level, sharpness, true) == outer_filter(
            level,
            sharpness,
            key_frame,
            false,
        ).edge,
        loopfilter::edge_limit_of(level, sharpness, false) == own_filter(
            level,
            sharpness,
            key_frame,
            false,
        ).edge,
        loopfilter::interior_limit_of(level, sharpness) == inner_limit(level, sharpness),
        loopfilter::hev_threshold_of(level, key_frame) == uneven_from(level, key_frame),
{
}

} // verus!
