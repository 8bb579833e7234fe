//! Loop filter on whole plane edges.
use crate::edge_filter;
use crate::edge_filter::{filter_normal_edge, filter_simple_edge};
use vstd::prelude::*;

verus! {

/// Limit on the differences inside a block.
pub open spec fn interior_limit_of(level: int, sharpness: int) -> int {
    let cut = level / if sharpness > 4 { 4int } else { 2 };
    let cap = 9 - sharpness;
    let limited = if sharpness <= 0 {
        level
    } else if cut > cap {
        cap
    } else {
        cut
    };
    if limited < 1 {
        1
    } else {
        limited
    }
}

/// Threshold above which the variance at an edge counts as high.
pub open spec fn hev_threshold_of(level: int, key_frame: bool) -> int {
    if key_frame {
        if level >= 40 {
            2
        } else if level >= 15 {
            1
        } else {
            0
        }
    } else if level >= 40 {
        3
    } else if level >= 20 {
        2
    } else if level >= 15 {
        1
    } else {
        0
    }
}

/// Limit on the step over an edge.
pub open spec fn edge_limit_of(level: int, sharpness: int, mb_edge: bool) -> int {
    2 * (if mb_edge { level + 2 } else { level }) + interior_limit_of(level, sharpness)
}

/// Thresholds of the filter at one kind of edge.
#[derive(Clone, Copy, Debug)]
pub struct FilterParams {
    pub edge_limit: i32,
    pub interior_limit: i32,
    pub hev_threshold: i32,
}

impl FilterParams {
    /// Thresholds on a key frame.
    pub fn for_mb(level: u8, sharpness: u8, mb_edge: bool) -> (p: Self)
        ensures
            p.edge_limit == edge_limit_of(level as int, sharpness as int, mb_edge),
            p.interior_limit == interior_limit_of(level as int, sharpness as int),
            p.hev_threshold == hev_threshold_of(level as int, true),
    {
        FilterParams::for_mb_typed(level, sharpness, mb_edge, true)
    }

    /// Thresholds on a key frame or an inter frame.
    pub fn for_mb_typed(level: u8, sharpness: u8, mb_edge: bool, key_frame: bool) -> (p: Self)
        ensures
            p.edge_limit == edge_limit_of(level as int, sharpness as int, mb_edge),
            p.interior_limit == interior_limit_of(level as int, sharpness as int),
            p.hev_threshold == hev_threshold_of(level as int, key_frame),
    {
        let l: i32 = level as i32;
        let mut interior: i32 = l;
        if sharpness > 0 {
            interior = if sharpness > 4 {
                l / 4
            } else {
                l / 2
            };
            let cap: i32 = 9 - sharpness as i32;
            if interior > cap {
                interior = cap;
            }
        }
        if interior < 1 {
            interior = 1;
        }
        let edge_limit: i32 = if mb_edge {
            (l + 2) * 2 + interior
        } else {
            l * 2 + interior
        };
        let hev_threshold: i32 = if key_frame {
            if l >= 40 {
                2
            } else if l >= 15 {
                1
            } else {
                0
            }
        } else if l >= 40 {
            3
        } else if l >= 20 {
            2
        } else if l >= 15 {
            1
        } else {
            0
        };
        FilterParams { edge_limit, interior_limit: interior, hev_threshold }
    }
}

/// A filter of an edge and its thresholds.
pub struct EdgeFilter {
    pub edge: int,
    pub interior: int,
    pub hev: int,
    /// The normal filter, or the simple one.
    pub normal: bool,
    /// Between two macroblocks, or inside one.
    pub wide: bool,
}

impl EdgeFilter {
    /// How many pixels on each side of the edge the filter looks at.
    pub open spec fn reach(self) -> int {
        if self.normal {
            4
        } else {
            2
        }
    }

    /// How far those pixels reach, `across` apart from each other.
    pub open spec fn span(self, across: int) -> int {
        if self.normal {
            4 * across
        } else {
            2 * across
        }
    }
}

impl FilterParams {
    /// The simple filter with these thresholds.
    pub open spec fn simple(self) -> EdgeFilter {
        EdgeFilter {
            edge: self.edge_limit as int,
            interior: self.interior_limit as int,
            hev: self.hev_threshold as int,
            normal: false,
            wide: false,
        }
    }

    /// The normal filter with these thresholds.
    pub open spec fn normal(self, wide: bool) -> EdgeFilter {
        EdgeFilter {
            edge: self.edge_limit as int,
            interior: self.interior_limit as int,
            hev: self.hev_threshold as int,
            normal: true,
            wide,
        }
    }
}

/// The first `n` lines of an edge, filtered.
pub open spec fn filtered_edge(
    plane: Seq<u8>,
    start: int,
    along: int,
    across: int,
    n: nat,
    f: EdgeFilter,
) -> Seq<u8> {
    if f.normal {
        edge_filter::normal_edge(
            plane,
            start,
            along,
            across,
            n,
            f.edge,
            f.interior,
            f.hev,
            f.wide,
        )
    } else {
        edge_filter::simple_edge(plane, start, along, across, n, f.edge)
    }
}

/// A plane whose vertical edge at `x` is filtered, unless that lies too close
/// to the sides.
pub open spec fn vertical_edge(
    plane: Seq<u8>,
    stride: int,
    x: int,
    width: int,
    height: int,
    f: EdgeFilter,
) -> Seq<u8> {
    if f.reach() <= x <= width - f.reach() {
        filtered_edge(plane, x, stride, 1, height as nat, f)
    } else {
        plane
    }
}

/// A plane whose horizontal edge at `y` is filtered, unless that lies too
/// close to the ends.
pub open spec fn horizontal_edge(
    plane: Seq<u8>,
    stride: int,
    y: int,
    width: int,
    height: int,
    f: EdgeFilter,
) -> Seq<u8> {
    if f.reach() <= y <= height - f.reach() {
        filtered_edge(plane, y * stride, 1, stride, width as nat, f)
    } else {
        plane
    }
}

/// Simple filter of the first `height` lines of the vertical edge at `x`,
/// unless it lies too close to the sides of a plane of `width`.
pub fn filter_simple_vertical(
    plane: &mut [u8],
    stride: usize,
    x: usize,
    width: usize,
    height: usize,
    params: FilterParams,
)
    requires
        2 <= x <= width - 2 && height > 0 ==> (height - 1) * stride + x + 1 < old(plane)@.len(),
    ensures
        final(plane)@ == vertical_edge(
            old(plane)@,
            stride as int,
            x as int,
            width as int,
            height as int,
            params.simple(),
        ),
{
    if x < 2 || width < 2 || x > width - 2 {
        return;
    }
    filter_simple_edge(plane, x, stride, 1, height, params.edge_limit);
}

/// Simple filter of the first `width` lines of the horizontal edge at `y`,
/// unless it lies too close to the ends of a plane of `height`.
pub fn filter_simple_horizontal(
    plane: &mut [u8],
    stride: usize,
    y: usize,
    width: usize,
    height: usize,
    params: FilterParams,
)
    requires
        2 <= y <= height - 2 && width > 0 ==> (y + 1) * stride + width - 1 < old(plane)@.len(),
    ensures
        final(plane)@ == horizontal_edge(
            old(plane)@,
            stride as int,
            y as int,
            width as int,
            height as int,
            params.simple(),
        ),
{
    if y < 2 || height < 2 || y > height - 2 || width == 0 {
        return;
    }
    let len: usize = plane.len();
    assert((y + 1) * stride == y * stride + stride) by (nonlinear_arith);
    assert(y * stride >= 2 * stride) by (nonlinear_arith)
        requires
            y >= 2,
            stride >= 0,
    ;
    filter_simple_edge(plane, y * stride, 1, stride, width, params.edge_limit);
}

/// Normal filter of the first `height` lines of the vertical edge at `x`,
/// unless it lies too close to the sides of a plane of `width`.
pub fn filter_normal_vertical(
    plane: &mut [u8],
    stride: usize,
    x: usize,
    width: usize,
    height: usize,
    params: FilterParams,
    is_mb_edge: bool,
)
    requires
        4 <= x <= width - 4 && height > 0 ==> (height - 1) * stride + x + 3 < old(plane)@.len(),
    ensures
        final(plane)@ == vertical_edge(
            old(plane)@,
            stride as int,
            x as int,
            width as int,
            height as int,
            params.normal(is_mb_edge),
        ),
{
    if x < 4 || width < 4 || x > width - 4 {
        return;
    }
    filter_normal_edge(
        plane,
        x,
        stride,
        1,
        height,
        params.edge_limit,
        params.interior_limit,
        params.hev_threshold,
        is_mb_edge,
    );
}

/// Normal filter of the first `width` lines of the horizontal edge at `y`,
/// unless it lies too close to the ends of a plane of `height`.
pub fn filter_normal_horizontal(
    plane: &mut [u8],
    stride: usize,
    y: usize,
    width: usize,
    height: usize,
    params: FilterParams,
    is_mb_edge: bool,
)
    requires
        4 <= y <= height - 4 && width > 0 ==> (y + 3) * stride + width - 1 < old(plane)@.len(),
    ensures
        final(plane)@ == horizontal_edge(
            old(plane)@,
            stride as int,
            y as int,
            width as int,
            height as int,
            params.normal(is_mb_edge),
        ),
{
    if y < 4 || height < 4 || y > height - 4 || width == 0 {
        return;
    }
    let len: usize = plane.len();
    assert((y + 3) * stride == y * stride + 3 * stride) by (nonlinear_arith);
    assert(y * stride >= 4 * stride) by (nonlinear_arith)
        requires
            y >= 4,
            stride >= 0,
    ;
    filter_normal_edge(
        plane,
        y * stride,
        1,
        stride,
        width,
        params.edge_limit,
        params.interior_limit,
        params.hev_threshold,
        is_mb_edge,
    );
}

} // verus!
