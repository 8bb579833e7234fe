//! Loop filter of a whole frame.
use crate::arith;
use crate::arith::clamp_i32;
use crate::coded_header::Vp8CodedHeader;
use crate::edge_filter;
use crate::edge_filter::{adjust_at, filter_normal_edge, filter_simple_edge, normal_at, simple_at};
use crate::frame;
use crate::frame::{mb_has_coeffs, KeyframePlanes, MbCoeffs, PlanesModel};
use crate::loopfilter;
use crate::loopfilter::FilterParams;
use crate::macroblock::{IntraYMode, MacroblockModes};
use vstd::prelude::*;

verus! {

/// Thresholds of the filter for one macroblock.
#[derive(Debug, Clone, Copy, PartialEq, Eq, Structural)]
pub struct LoopFilterParams {
    pub interior_limit: u8,
    pub hev_threshold: u8,
    pub mbedge_limit: u8,
    pub sub_bedge_limit: u8,
}

/// Thresholds for a level.
pub open spec fn params_of(level: int, sharpness: int, key_frame: bool) -> LoopFilterParams {
    LoopFilterParams {
        interior_limit: loopfilter::interior_limit_of(level, sharpness) as u8,
        hev_threshold: loopfilter::hev_threshold_of(level, key_frame) as u8,
        mbedge_limit: arith::clamp_int(loopfilter::edge_limit_of(level, sharpness, true), 0, 255) as u8,
        sub_bedge_limit: arith::clamp_int(loopfilter::edge_limit_of(level, sharpness, false), 0, 255) as u8,
    }
}

impl LoopFilterParams {
    /// Thresholds for a level.
    pub fn derive(loop_filter_level: u8, sharpness_level: u8, key_frame: bool) -> (p: Self)
        ensures
            p == params_of(loop_filter_level as int, sharpness_level as int, key_frame),
    {
        let mb: FilterParams = FilterParams::for_mb_typed(
            loop_filter_level,
            sharpness_level,
            true,
            key_frame,
        );
        let sub: FilterParams = FilterParams::for_mb_typed(
            loop_filter_level,
            sharpness_level,
            false,
            key_frame,
        );
        LoopFilterParams {
            interior_limit: mb.interior_limit as u8,
            hev_threshold: mb.hev_threshold as u8,
            mbedge_limit: clamp_i32(mb.edge_limit, 0, 255) as u8,
            sub_bedge_limit: clamp_i32(sub.edge_limit, 0, 255) as u8,
        }
    }
}

/// `v` limited to a signed byte.
pub fn clamp_s8(v: i32) -> (r: i8)
    ensures
        r == edge_filter::s8(v as int),
{
    clamp_i32(v, -128, 127) as i8
}

/// A pixel as a signed number.
pub fn u2s(v: u8) -> (r: i8)
    ensures
        r == edge_filter::px(v),
{
    (v as i16 - 128) as i8
}

/// A signed number as a pixel.
pub fn s2u(v: i32) -> (r: u8)
    ensures
        r == edge_filter::to_px(v as int),
        r == edge_filter::s8(v as int) + 128,
{
    proof {
        reveal(edge_filter::to_px);
    }
    (clamp_s8(v) as i16 + 128) as u8
}

/// Corrects the two pixels next to the edge in the middle of the four pixels
/// from `base` on; returns the correction of the one behind it.
pub fn common_adjust(use_outer_taps: bool, seg: &mut [u8], base: usize) -> (a: i32)
    requires
        base + 3 < old(seg)@.len(),
    ensures
        final(seg)@ == edge_filter::adjusted(old(seg)@, base + 2, 1, use_outer_taps),
        a == edge_filter::q_step(
            edge_filter::correction(
                use_outer_taps,
                old(seg)@[base as int],
                old(seg)@[base + 1],
                old(seg)@[base + 2],
                old(seg)@[base + 3],
            ),
        ),
{
    let len: usize = seg.len();
    assert(base + 3 < len);
    adjust_at(seg, base + 2, 1, use_outer_taps)
}

/// Simple filter of the four pixels from `base` on.
pub fn simple_segment(edge_limit: u8, seg: &mut [u8], base: usize)
    requires
        base + 3 < old(seg)@.len(),
    ensures
        final(seg)@ == edge_filter::simple_step(old(seg)@, base + 2, 1, edge_limit as int),
{
    let len: usize = seg.len();
    assert(base + 3 < len);
    simple_at(seg, base + 2, 1, edge_limit as i32);
}

/// Filter between two subblocks of the eight pixels from `base` on.
pub fn subblock_filter(
    hev_threshold: u8,
    interior_limit: u8,
    edge_limit: u8,
    seg: &mut [u8],
    base: usize,
)
    requires
        base + 7 < old(seg)@.len(),
    ensures
        final(seg)@ == edge_filter::normal_step(
            old(seg)@,
            base + 4,
            1,
            edge_limit as int,
            interior_limit as int,
            hev_threshold as int,
            false,
        ),
{
    let len: usize = seg.len();
    assert(base + 7 < len);
    normal_at(
        seg,
        base + 4,
        1,
        edge_limit as i32,
        interior_limit as i32,
        hev_threshold as i32,
        false,
    );
}

/// Filter between two macroblocks of the eight pixels from `base` on.
pub fn mb_filter(
    hev_threshold: u8,
    interior_limit: u8,
    edge_limit: u8,
    seg: &mut [u8],
    base: usize,
)
    requires
        base + 7 < old(seg)@.len(),
    ensures
        final(seg)@ == edge_filter::normal_step(
            old(seg)@,
            base + 4,
            1,
            edge_limit as int,
            interior_limit as int,
            hev_threshold as int,
            true,
        ),
{
    let len: usize = seg.len();
    assert(base + 7 < len);
    normal_at(
        seg,
        base + 4,
        1,
        edge_limit as i32,
        interior_limit as i32,
        hev_threshold as i32,
        true,
    );
}

pub const MAX_REF_LF_DELTAS: usize = 4;

pub const MAX_MODE_LF_DELTAS: usize = 4;

pub const MAX_MB_SEGMENTS: usize = 4;

/// What decides the filter level of each macroblock of a frame.
#[derive(Debug, Clone, Copy, PartialEq, Eq)]
pub struct FrameFilterConfig {
    pub simple: bool,
    pub key_frame: bool,
    pub loop_filter_level: u8,
    pub sharpness_level: u8,
    pub segmentation_enabled: bool,
    /// Segment levels replace the frame's instead of being added to it.
    pub segment_abs: bool,
    pub segment_lf_level: [i16; 4],
    pub delta_enabled: bool,
    pub ref_delta_current: i16,
    pub bpred_mode_delta: i16,
}

/// The value, or zero where there is none.
pub open spec fn or_zero(x: Option<i16>) -> i16 {
    match x {
        Some(v) => v,
        None => 0,
    }
}

fn unwrap_or_zero(x: Option<i16>) -> (r: i16)
    ensures
        r == or_zero(x),
{
    match x {
        Some(v) => v,
        None => 0,
    }
}

impl FrameFilterConfig {
    /// Configuration of a key frame.
    pub fn keyframe(header: &Vp8CodedHeader) -> (c: Self)
        ensures
            c.simple == header.filter_type,
            c.key_frame,
            c.loop_filter_level == header.loop_filter_level,
            c.sharpness_level == header.sharpness_level,
            c.segmentation_enabled == header.segmentation_enabled,
            c.segment_abs == (header.segmentation_enabled && (header.update_segmentation matches Some(
                s,
            ) && s.segment_feature_mode_absolute)),
            forall|i: int|
                0 <= i < 4 ==> #[trigger] c.segment_lf_level[i] == (
                if header.segmentation_enabled && header.update_segmentation is Some {
                    or_zero(header.update_segmentation->0.loop_filter_update[i])
                } else {
                    0
                }),
            c.delta_enabled == header.mb_lf_adjustments.loop_filter_adj_enable,
            c.ref_delta_current == (if c.delta_enabled {
                or_zero(header.mb_lf_adjustments.ref_frame_delta_update[0])
            } else {
                0
            }),
            c.bpred_mode_delta == (if c.delta_enabled {
                or_zero(header.mb_lf_adjustments.mb_mode_delta_update[0])
            } else {
                0
            }),
    {
        let mut segment_lf_level: [i16; 4] = [0i16; 4];
        let mut segment_abs: bool = false;
        if header.segmentation_enabled {
            if let Some(seg) = header.update_segmentation {
                segment_abs = seg.segment_feature_mode_absolute;
                let mut i: usize = 0;
                while i < 4
                    invariant
                        i <= 4,
                        forall|j: int|
                            0 <= j < i ==> #[trigger] segment_lf_level[j] == or_zero(
                                seg.loop_filter_update[j],
                            ),
                    decreases 4 - i,
                {
                    segment_lf_level[i] = unwrap_or_zero(seg.loop_filter_update[i]);
                    i = i + 1;
                }
            }
        }
        let lf = &header.mb_lf_adjustments;
        let mut ref_delta_current: i16 = 0;
        let mut bpred_mode_delta: i16 = 0;
        if lf.loop_filter_adj_enable {
            ref_delta_current = unwrap_or_zero(lf.ref_frame_delta_update[0]);
            bpred_mode_delta = unwrap_or_zero(lf.mb_mode_delta_update[0]);
        }
        FrameFilterConfig {
            simple: header.filter_type,
            key_frame: true,
            loop_filter_level: header.loop_filter_level,
            sharpness_level: header.sharpness_level,
            segmentation_enabled: header.segmentation_enabled,
            segment_abs,
            segment_lf_level,
            delta_enabled: lf.loop_filter_adj_enable,
            ref_delta_current,
            bpred_mode_delta,
        }
    }
}

/// Filter level of a macroblock: the frame's level, changed by its segment,
/// limited, changed by the deltas, limited again.
pub open spec fn mb_level(c: FrameFilterConfig, segment_id: Option<u8>, bpred: bool) -> int {
    let seg = match segment_id {
        Some(s) => if s > 3 {
            3
        } else {
            s as int
        },
        None => 0,
    };
    let base = if !c.segmentation_enabled {
        c.loop_filter_level as int
    } else if c.segment_abs {
        c.segment_lf_level[seg] as int
    } else {
        c.loop_filter_level + c.segment_lf_level[seg]
    };
    let limited = arith::clamp_int(base, 0, 63);
    if c.delta_enabled {
        arith::clamp_int(
            limited + c.ref_delta_current + if bpred {
                c.bpred_mode_delta as int
            } else {
                0
            },
            0,
            63,
        )
    } else {
        limited
    }
}

/// Filter level of a macroblock.
pub fn calculate_mb_filter_level(
    config: &FrameFilterConfig,
    segment_id: Option<u8>,
    y_mode: IntraYMode,
) -> (level: u8)
    ensures
        level == mb_level(*config, segment_id, y_mode == IntraYMode::B),
        level <= 63,
{
    let mut level: i32 = config.loop_filter_level as i32;
    if config.segmentation_enabled {
        let seg: usize = match segment_id {
            Some(s) => if s > 3 {
                3
            } else {
                s as usize
            },
            None => 0,
        };
        if config.segment_abs {
            level = config.segment_lf_level[seg] as i32;
        } else {
            level = level + config.segment_lf_level[seg] as i32;
        }
    }
    level = clamp_i32(level, 0, 63);
    if config.delta_enabled {
        level = level + config.ref_delta_current as i32;
        if y_mode == IntraYMode::B {
            level = level + config.bpred_mode_delta as i32;
        }
    }
    clamp_i32(level, 0, 63) as u8
}

/// One edge of a block, filtered; `wide` for an edge between macroblocks.
pub open spec fn block_edge(
    plane: Seq<u8>,
    start: int,
    along: int,
    across: int,
    n: nat,
    p: LoopFilterParams,
    simple: bool,
    wide: bool,
) -> Seq<u8> {
    let limit = if wide {
        p.mbedge_limit as int
    } else {
        p.sub_bedge_limit as int
    };
    if simple {
        edge_filter::simple_edge(plane, start, along, across, n, limit)
    } else {
        edge_filter::normal_edge(
            plane,
            start,
            along,
            across,
            n,
            limit,
            p.interior_limit as int,
            p.hev_threshold as int,
            wide,
        )
    }
}

/// The first `n` inner edges of a block, `step` pixels apart, filtered.
pub open spec fn inner_edges(
    plane: Seq<u8>,
    start: int,
    step: int,
    along: int,
    across: int,
    size: nat,
    n: nat,
    p: LoopFilterParams,
    simple: bool,
) -> Seq<u8>
    decreases n,
{
    if n == 0 {
        plane
    } else {
        block_edge(
            inner_edges(plane, start, step, along, across, size, (n - 1) as nat, p, simple),
            start + n * step,
            along,
            across,
            size,
            p,
            simple,
            false,
        )
    }
}

/// One macroblock of a plane, filtered: its left edge, the vertical edges
/// inside, its top edge, the horizontal edges inside.
pub open spec fn filtered_block(
    plane: Seq<u8>,
    stride: int,
    x0: int,
    y0: int,
    size: nat,
    inner: bool,
    p: LoopFilterParams,
    simple: bool,
) -> Seq<u8> {
    let start = y0 * stride + x0;
    let n = (size / 4 - 1) as nat;
    let p1 = if x0 > 0 {
        block_edge(plane, start, stride, 1, size, p, simple, true)
    } else {
        plane
    };
    let p2 = if inner {
        inner_edges(p1, start, 4, stride, 1, size, n, p, simple)
    } else {
        p1
    };
    let p3 = if y0 > 0 {
        block_edge(p2, start, 1, stride, size, p, simple, true)
    } else {
        p2
    };
    if inner {
        inner_edges(p3, start, 4 * stride, 1, stride, size, n, p, simple)
    } else {
        p3
    }
}

/// What the filter does to each macroblock of a frame.
pub struct FilterPlan {
    pub levels: Seq<int>,
    pub inner: Seq<bool>,
    pub sharpness: int,
    pub key_frame: bool,
    pub simple: bool,
}

/// The plan with the given level of, and inner edges in, each macroblock.
pub open spec fn plan_of(
    levels: Seq<u8>,
    inner: Seq<bool>,
    sharpness: int,
    key_frame: bool,
    simple: bool,
) -> FilterPlan {
    FilterPlan {
        levels: Seq::new(levels.len(), |k: int| levels[k] as int),
        inner,
        sharpness,
        key_frame,
        simple,
    }
}

/// The first `n` macroblocks of a frame, filtered in raster order.
pub open spec fn filtered_planes(
    p: PlanesModel,
    ys: int,
    cs: int,
    cols: int,
    n: nat,
    plan: FilterPlan,
) -> PlanesModel
    decreases n,
{
    if n == 0 {
        p
    } else {
        let k = n - 1;
        filtered_macroblock(filtered_planes(p, ys, cs, cols, (n - 1) as nat, plan), ys, cs, cols, k, plan)
    }
}

/// Macroblock `k` of a frame, filtered.
#[verifier::opaque]
pub open spec fn filtered_macroblock(
    p: PlanesModel,
    ys: int,
    cs: int,
    cols: int,
    k: int,
    plan: FilterPlan,
) -> PlanesModel {
    let col = k % cols;
    let row = k / cols;
    let params = params_of(plan.levels[k], plan.sharpness, plan.key_frame);
    let inner = plan.inner[k];
    if plan.levels[k] == 0 {
        p
    } else {
        PlanesModel {
            y: filtered_block(p.y, ys, 16 * col, 16 * row, 16, inner, params, plan.simple),
            u: if plan.simple {
                p.u
            } else {
                filtered_block(p.u, cs, 8 * col, 8 * row, 8, inner, params, false)
            },
            v: if plan.simple {
                p.v
            } else {
                filtered_block(p.v, cs, 8 * col, 8 * row, 8, inner, params, false)
            },
        }
    }
}

fn filter_block_edge(
    plane: &mut Vec<u8>,
    start: usize,
    along: usize,
    across: usize,
    count: usize,
    p: &LoopFilterParams,
    simple: bool,
    wide: bool,
)
    requires
        edge_filter::edge_inside(
            old(plane)@.len() as int,
            start as int,
            along as int,
            across as int,
            count as int,
            4,
            3,
        ),
    ensures
        final(plane)@ == block_edge(
            old(plane)@,
            start as int,
            along as int,
            across as int,
            count as nat,
            *p,
            simple,
            wide,
        ),
        final(plane)@.len() == old(plane)@.len(),
{
    let limit: i32 = if wide {
        p.mbedge_limit as i32
    } else {
        p.sub_bedge_limit as i32
    };
    if simple {
        filter_simple_edge(plane.as_mut_slice(), start, along, across, count, limit);
    } else {
        filter_normal_edge(
            plane.as_mut_slice(),
            start,
            along,
            across,
            count,
            limit,
            p.interior_limit as i32,
            p.hev_threshold as i32,
            wide,
        );
    }
}

/// The edges of a block that lies inside a plane lie inside it too.
pub proof fn lemma_block_edges(len: int, stride: int, x0: int, y0: int, size: int, q: int)
    requires
        0 <= x0,
        0 <= y0,
        size == 8 || size == 16,
        0 <= q <= size / 4 - 1,
        x0 + size <= stride,
        (y0 + size) * stride <= len,
    ensures
        x0 + 4 * q >= 4 ==> edge_filter::edge_inside(len, y0 * stride + x0 + 4 * q, stride, 1, size, 4, 3),
        y0 + 4 * q >= 4 ==> edge_filter::edge_inside(
            len,
            y0 * stride + x0 + q * (4 * stride),
            1,
            stride,
            size,
            4,
            3,
        ),
        0 <= y0 * stride + x0 + 4 * q <= len,
        0 <= y0 * stride + x0 + q * (4 * stride) <= len,
        4 * stride <= len,
{
    assert(y0 * stride >= 0) by (nonlinear_arith)
        requires
            y0 >= 0,
            stride >= 0,
    ;
    assert((y0 + size) * stride == y0 * stride + size * stride) by (nonlinear_arith);
    assert((size - 1) * stride == size * stride - stride) by (nonlinear_arith);
    assert(q * (4 * stride) == 4 * (q * stride)) by (nonlinear_arith);
    if size == 8 {
        assert(q == 0 || q == 1);
    } else {
        assert(q == 0 || q == 1 || q == 2 || q == 3);
    }
    if y0 + 4 * q >= 4 {
        assert(y0 * stride + 4 * (q * stride) == (y0 + 4 * q) * stride) by (nonlinear_arith);
        assert((y0 + 4 * q) * stride >= 4 * stride) by (nonlinear_arith)
            requires
                y0 + 4 * q >= 4,
                stride >= 0,
        ;
    }
}

/// Filters one macroblock of a plane.
fn filter_block(
    plane: &mut Vec<u8>,
    stride: usize,
    x0: usize,
    y0: usize,
    size: usize,
    inner: bool,
    p: &LoopFilterParams,
    simple: bool,
)
    requires
        size == 8 || size == 16,
        x0 % 4 == 0,
        y0 % 4 == 0,
        x0 + size <= stride,
        (y0 + size) * stride <= old(plane)@.len(),
    ensures
        final(plane)@ == filtered_block(
            old(plane)@,
            stride as int,
            x0 as int,
            y0 as int,
            size as nat,
            inner,
            *p,
            simple,
        ),
        final(plane)@.len() == old(plane)@.len(),
{
    let len: usize = plane.len();
    let ghost before = plane@;
    proof {
        lemma_block_edges(len as int, stride as int, x0 as int, y0 as int, size as int, 0);
        assert(y0 * stride <= (y0 + size) * stride) by (nonlinear_arith)
            requires
                size >= 0,
                stride >= 0,
        ;
    }
    let start: usize = y0 * stride + x0;
    let edges: usize = size / 4 - 1;
    if x0 > 0 {
        filter_block_edge(plane, start, stride, 1, size, p, simple, true);
    }
    let ghost p1 = plane@;
    if inner {
        let mut q: usize = 0;
        while q < edges
            invariant
                q <= edges,
                edges == size / 4 - 1,
                size == 8 || size == 16,
                start == y0 * stride + x0,
                x0 + size <= stride,
                (y0 + size) * stride <= len,
                len == plane@.len(),
                plane@ == inner_edges(
                    p1,
                    start as int,
                    4,
                    stride as int,
                    1,
                    size as nat,
                    q as nat,
                    *p,
                    simple,
                ),
            decreases edges - q,
        {
            q = q + 1;
            proof {
                lemma_block_edges(
                    len as int,
                    stride as int,
                    x0 as int,
                    y0 as int,
                    size as int,
                    q as int,
                );
            }
            filter_block_edge(plane, start + 4 * q, stride, 1, size, p, simple, false);
        }
    }
    let ghost p2 = plane@;
    if y0 > 0 {
        filter_block_edge(plane, start, 1, stride, size, p, simple, true);
    }
    let ghost p3 = plane@;
    if inner {
        let mut q: usize = 0;
        let mut at: usize = start;
        assert(0 * (4 * stride) == 0) by (nonlinear_arith);
        while q < edges
            invariant
                q <= edges,
                edges == size / 4 - 1,
                size == 8 || size == 16,
                start == y0 * stride + x0,
                at == start + q * (4 * stride),
                x0 + size <= stride,
                (y0 + size) * stride <= len,
                len == plane@.len(),
                plane@ == inner_edges(
                    p3,
                    start as int,
                    4 * stride,
                    1,
                    stride as int,
                    size as nat,
                    q as nat,
                    *p,
                    simple,
                ),
            decreases edges - q,
        {
            q = q + 1;
            proof {
                lemma_block_edges(
                    len as int,
                    stride as int,
                    x0 as int,
                    y0 as int,
                    size as int,
                    q as int,
                );
                assert(q * (4 * stride) == (q - 1) * (4 * stride) + 4 * stride) by (
                nonlinear_arith);
            }
            at = at + 4 * stride;
            filter_block_edge(plane, at, 1, stride, size, p, simple, false);
        }
    }
}

/// A macroblock of a frame lies inside its planes.
pub proof fn lemma_block_inside(plane: Seq<u8>, stride: int, cols: int, rows: int, size: int, k: int)
    requires
        frame::plane_holds(plane, stride, cols, rows, size),
        cols > 0,
        size > 0,
        0 <= k < cols * rows,
    ensures
        0 <= k % cols < cols,
        0 <= k / cols < rows,
        size * (k % cols) + size <= stride,
        (size * (k / cols) + size) * stride <= plane.len(),
        k == (k / cols) * cols + k % cols,
{
    vstd::arithmetic::div_mod::lemma_fundamental_div_mod(k, cols);
    vstd::arithmetic::mul::lemma_mul_is_commutative(cols, k / cols);
    let r = k / cols;
    let c = k % cols;
    assert(0 <= r < rows) by (nonlinear_arith)
        requires
            k == r * cols + c,
            0 <= c < cols,
            0 <= k < cols * rows,
    ;
    assert(size * c + size <= size * cols) by (nonlinear_arith)
        requires
            c + 1 <= cols,
            size > 0,
    ;
    assert((size * r + size) * stride <= size * rows * stride) by (nonlinear_arith)
        requires
            r + 1 <= rows,
            size > 0,
            stride >= 0,
    {
        assert(size * r + size <= size * rows);
    }
}

/// Filters macroblock `k` of a frame.
fn filter_macroblock(
    y: &mut Vec<u8>,
    u: &mut Vec<u8>,
    v: &mut Vec<u8>,
    ys: usize,
    cs: usize,
    cols: usize,
    rows: usize,
    k: usize,
    level: u8,
    inner: bool,
    sharpness: u8,
    key_frame: bool,
    simple: bool,
    Ghost(plan): Ghost<FilterPlan>,
)
    requires
        cols > 0,
        k < cols * rows,
        frame::planes_hold(
            PlanesModel { y: old(y)@, u: old(u)@, v: old(v)@ },
            ys as int,
            cs as int,
            cols as int,
            rows as int,
        ),
        plan.levels[k as int] == level,
        plan.inner[k as int] == inner,
        plan.sharpness == sharpness,
        plan.key_frame == key_frame,
        plan.simple == simple,
    ensures
        (PlanesModel { y: final(y)@, u: final(u)@, v: final(v)@ }) == filtered_macroblock(
            PlanesModel { y: old(y)@, u: old(u)@, v: old(v)@ },
            ys as int,
            cs as int,
            cols as int,
            k as int,
            plan,
        ),
        final(y)@.len() == old(y)@.len(),
        final(u)@.len() == old(u)@.len(),
        final(v)@.len() == old(v)@.len(),
{
    proof {
        reveal(filtered_macroblock);
        lemma_block_inside(y@, ys as int, cols as int, rows as int, 16, k as int);
        lemma_block_inside(u@, cs as int, cols as int, rows as int, 8, k as int);
        lemma_block_inside(v@, cs as int, cols as int, rows as int, 8, k as int);
        lemma_macroblock_fits(y@.len() as int, ys as int, cols as int, rows as int, k as int);
    }
    if level != 0 {
        let params: LoopFilterParams = LoopFilterParams::derive(level, sharpness, key_frame);
        let col: usize = k % cols;
        let row: usize = k / cols;
        let len: usize = y.len();
        assert(16 * col <= len && 16 * row <= len);
        filter_block(y, ys, 16 * col, 16 * row, 16, inner, &params, simple);
        if !simple {
            filter_block(u, cs, 8 * col, 8 * row, 8, inner, &params, false);
            filter_block(v, cs, 8 * col, 8 * row, 8, inner, &params, false);
        }
    }
}

/// Filters all macroblocks of a frame in raster order.
pub fn filter_planes(
    y: &mut Vec<u8>,
    u: &mut Vec<u8>,
    v: &mut Vec<u8>,
    ys: usize,
    cs: usize,
    cols: usize,
    rows: usize,
    levels: &Vec<u8>,
    inner: &Vec<bool>,
    sharpness: u8,
    key_frame: bool,
    simple: bool,
)
    requires
        cols > 0,
        frame::planes_hold(
            PlanesModel { y: old(y)@, u: old(u)@, v: old(v)@ },
            ys as int,
            cs as int,
            cols as int,
            rows as int,
        ),
        levels@.len() == cols * rows,
        inner@.len() == cols * rows,
    ensures
        (PlanesModel { y: final(y)@, u: final(u)@, v: final(v)@ }) == filtered_planes(
            PlanesModel { y: old(y)@, u: old(u)@, v: old(v)@ },
            ys as int,
            cs as int,
            cols as int,
            (cols * rows) as nat,
            plan_of(levels@, inner@, sharpness as int, key_frame, simple),
        ),
        final(y)@.len() == old(y)@.len(),
        final(u)@.len() == old(u)@.len(),
        final(v)@.len() == old(v)@.len(),
{
    let ghost p0 = PlanesModel { y: y@, u: u@, v: v@ };
    let ghost plan = plan_of(levels@, inner@, sharpness as int, key_frame, simple);
    let n: usize = levels.len();
    let mut k: usize = 0;
    while k < n
        invariant
            k <= n,
            n == cols * rows,
            cols > 0,
            levels@.len() == n,
            inner@.len() == n,
            frame::planes_hold(p0, ys as int, cs as int, cols as int, rows as int),
            y@.len() == p0.y.len(),
            u@.len() == p0.u.len(),
            v@.len() == p0.v.len(),
            plan == plan_of(levels@, inner@, sharpness as int, key_frame, simple),
            (PlanesModel { y: y@, u: u@, v: v@ }) == filtered_planes(
                p0,
                ys as int,
                cs as int,
                cols as int,
                k as nat,
                plan,
            ),
        decreases n - k,
    {
        assert(plan.levels[k as int] == levels[k as int]);
        filter_macroblock(
            y,
            u,
            v,
            ys,
            cs,
            cols,
            rows,
            k,
            levels[k],
            inner[k],
            sharpness,
            key_frame,
            simple,
            Ghost(plan),
        );
        k = k + 1;
    }
}

/// Pixel coordinates of a macroblock stay below the size of its plane.
proof fn lemma_macroblock_fits(len: int, stride: int, cols: int, rows: int, k: int)
    requires
        cols > 0,
        0 <= k < cols * rows,
        16 * cols <= stride,
        16 * rows * stride <= len,
        0 <= k % cols < cols,
        0 <= k / cols < rows,
    ensures
        16 * (k % cols) <= len,
        16 * (k / cols) <= len,
{
    assert(16 * rows * stride >= stride && 16 * rows * stride >= 16 * rows) by (nonlinear_arith)
        requires
            rows >= 1,
            stride >= 1,
    ;
}

/// What [`filter_frame`] does to each macroblock.
pub open spec fn frame_plan(
    modes: Seq<MacroblockModes>,
    coeffs: Seq<MbCoeffs>,
    c: FrameFilterConfig,
) -> FilterPlan {
    FilterPlan {
        levels: Seq::new(
            modes.len(),
            |k: int| mb_level(c, modes[k].segment_id, modes[k].y_mode == IntraYMode::B),
        ),
        inner: Seq::new(
            modes.len(),
            |k: int| modes[k].y_mode == IntraYMode::B || frame::any_coeffs(coeffs[k]),
        ),
        sharpness: c.sharpness_level as int,
        key_frame: c.key_frame,
        simple: c.simple,
    }
}

/// Filters a frame; leaves it alone when the macroblock data is not for it.
pub fn filter_frame(
    planes: &mut KeyframePlanes,
    modes: &[MacroblockModes],
    coeffs: &[MbCoeffs],
    config: &FrameFilterConfig,
)
    requires
        old(planes).mb_cols * old(planes).mb_rows <= usize::MAX,
        ({
            let n = old(planes).mb_cols * old(planes).mb_rows;
            modes@.len() == n && coeffs@.len() == n && n > 0 ==> frame::planes_hold(
                old(planes)@,
                old(planes).y_stride as int,
                old(planes).uv_stride as int,
                old(planes).mb_cols as int,
                old(planes).mb_rows as int,
            )
        }),
    ensures
        final(planes)@ == ({
            let n = old(planes).mb_cols * old(planes).mb_rows;
            if modes@.len() == n && coeffs@.len() == n {
                filtered_planes(
                    old(planes)@,
                    old(planes).y_stride as int,
                    old(planes).uv_stride as int,
                    old(planes).mb_cols as int,
                    n as nat,
                    frame_plan(modes@, coeffs@, *config),
                )
            } else {
                old(planes)@
            }
        }),
        final(planes).y_stride == old(planes).y_stride,
        final(planes).uv_stride == old(planes).uv_stride,
        final(planes).mb_cols == old(planes).mb_cols,
        final(planes).mb_rows == old(planes).mb_rows,
        final(planes)@.y.len() == old(planes)@.y.len(),
        final(planes)@.u.len() == old(planes)@.u.len(),
        final(planes)@.v.len() == old(planes)@.v.len(),
{
    let cols: usize = planes.mb_cols;
    let rows: usize = planes.mb_rows;
    assert(cols == 0 || rows == 0 ==> cols * rows == 0) by (nonlinear_arith);
    assert(cols > 0 && rows > 0 ==> cols * rows > 0) by (nonlinear_arith);
    if cols == 0 || rows == 0 {
        return;
    }
    let expected: usize = cols * rows;
    if modes.len() != expected || coeffs.len() != expected {
        return;
    }
    let mut levels: Vec<u8> = Vec::new();
    let mut inner: Vec<bool> = Vec::new();
    let ghost plan = frame_plan(modes@, coeffs@, *config);
    let mut k: usize = 0;
    while k < expected
        invariant
            k <= expected,
            modes@.len() == expected,
            coeffs@.len() == expected,
            plan == frame_plan(modes@, coeffs@, *config),
            levels@.len() == k,
            inner@.len() == k,
            forall|j: int| 0 <= j < k ==> #[trigger] levels@[j] == plan.levels[j],
            forall|j: int| 0 <= j < k ==> #[trigger] inner@[j] == plan.inner[j],
        decreases expected - k,
    {
        levels.push(calculate_mb_filter_level(config, modes[k].segment_id, modes[k].y_mode));
        inner.push(modes[k].y_mode == IntraYMode::B || mb_has_coeffs(&coeffs[k]));
        k = k + 1;
    }
    assert(inner@ =~= plan.inner);
    assert(Seq::new(levels@.len(), |k: int| levels@[k] as int) =~= plan.levels);
    let ys: usize = planes.y_stride;
    let cs: usize = planes.uv_stride;
    filter_planes(
        &mut planes.y,
        &mut planes.u,
        &mut planes.v,
        ys,
        cs,
        cols,
        rows,
        &levels,
        &inner,
        config.sharpness_level,
        config.key_frame,
        config.simple,
    );
}

/// Macroblocks at level zero leave the frame as it is.
pub proof fn law_level_zero_is_noop(
    p: PlanesModel,
    ys: int,
    cs: int,
    cols: int,
    n: nat,
    plan: FilterPlan,
)
    requires
        forall|k: int| 0 <= k < n ==> #[trigger] plan.levels[k] == 0,
    ensures
        filtered_planes(p, ys, cs, cols, n, plan) == p,
    decreases n,
{
    if n > 0 {
        law_level_zero_is_noop(p, ys, cs, cols, (n - 1) as nat, plan);
        reveal(filtered_macroblock);
        assert(plan.levels[n - 1] == 0);
    }
}

/// The simple filter never touches the chroma planes.
pub proof fn law_simple_keeps_chroma(
    p: PlanesModel,
    ys: int,
    cs: int,
    cols: int,
    n: nat,
    plan: FilterPlan,
)
    requires
        plan.simple,
    ensures
        filtered_planes(p, ys, cs, cols, n, plan).u == p.u,
        filtered_planes(p, ys, cs, cols, n, plan).v == p.v,
    decreases n,
{
    if n > 0 {
        law_simple_keeps_chroma(p, ys, cs, cols, (n - 1) as nat, plan);
        reveal(filtered_macroblock);
    }
}

} // verus!
