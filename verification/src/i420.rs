//! Borrowed pictures and the macroblocks cut out of them.
use crate::arith;
use crate::frame;
use crate::motion_comp;
use vstd::prelude::*;

verus! {

/// A picture of one luma and two chroma planes.
#[derive(Debug, Clone, Copy)]
pub struct I420Frame<'a> {
    pub width: u32,
    pub height: u32,
    pub y: &'a [u8],
    pub u: &'a [u8],
    pub v: &'a [u8],
    pub y_stride: usize,
    pub uv_stride: usize,
}

/// Half of a dimension, rounded up.
pub fn div_ceil2(n: u32) -> (r: usize)
    ensures
        r == frame::half_up(n as int),
{
    (n / 2 + n % 2) as usize
}

/// Pixels of one macroblock.
#[derive(Debug, Clone, Copy, PartialEq, Eq)]
pub struct MbPixels {
    pub y: [u8; 256],
    pub u: [u8; 64],
    pub v: [u8; 64],
}

/// The pixel at `(x, y)`, or the nearest one inside.
pub open spec fn pel_at(plane: Seq<u8>, stride: int, w: int, h: int, x: int, y: int) -> u8 {
    plane[arith::clamp_int(y, 0, h - 1) * stride + arith::clamp_int(x, 0, w - 1)]
}

impl<'a> I420Frame<'a> {
    pub open spec fn chroma_w(self) -> int {
        frame::half_up(self.width as int)
    }

    pub open spec fn chroma_h(self) -> int {
        frame::half_up(self.height as int)
    }

    /// The planes hold the pixels that the fields announce.
    pub open spec fn inside(self) -> bool {
        &&& motion_comp::plane_inside(self.y@, self.y_stride as int, self.width as int, self.height as int)
        &&& motion_comp::plane_inside(self.u@, self.uv_stride as int, self.chroma_w(), self.chroma_h())
        &&& motion_comp::plane_inside(self.v@, self.uv_stride as int, self.chroma_w(), self.chroma_h())
    }

    /// A picture whose rows follow each other without a gap.
    pub fn packed(width: u32, height: u32, y: &'a [u8], u: &'a [u8], v: &'a [u8]) -> (f: Self)
        ensures
            f.width == width,
            f.height == height,
            f.y == y,
            f.u == u,
            f.v == v,
            f.y_stride == width,
            f.uv_stride == frame::half_up(width as int),
    {
        I420Frame {
            width,
            height,
            y,
            u,
            v,
            y_stride: width as usize,
            uv_stride: div_ceil2(width),
        }
    }

    /// The luma pixel at `(x, py)`, repeating the last column and row.
    pub fn y_at(&self, x: usize, py: usize) -> (p: u8)
        requires
            self.inside(),
        ensures
            p == pel_at(
                self.y@,
                self.y_stride as int,
                self.width as int,
                self.height as int,
                x as int,
                py as int,
            ),
    {
        clamped_pixel(self.y, self.y_stride, self.width as usize, self.height as usize, x, py)
    }

    /// The chroma pixel at `(x, py)`, repeating the last column and row.
    pub fn uv_at(&self, x: usize, py: usize, is_v: bool) -> (p: u8)
        requires
            self.inside(),
        ensures
            p == pel_at(
                if is_v {
                    self.v@
                } else {
                    self.u@
                },
                self.uv_stride as int,
                self.chroma_w(),
                self.chroma_h(),
                x as int,
                py as int,
            ),
    {
        let cw: usize = div_ceil2(self.width);
        let ch: usize = div_ceil2(self.height);
        if is_v {
            clamped_pixel(self.v, self.uv_stride, cw, ch, x, py)
        } else {
            clamped_pixel(self.u, self.uv_stride, cw, ch, x, py)
        }
    }

    /// The pixels of a macroblock, repeating the last column and row.
    pub fn extract_mb(&self, mb_row: usize, mb_col: usize) -> (p: MbPixels)
        requires
            self.inside(),
            16 * mb_row + 16 <= usize::MAX,
            16 * mb_col + 16 <= usize::MAX,
        ensures
            extracted(*self, mb_row as int, mb_col as int, p),
    {
        let mut p: MbPixels = MbPixels { y: [0u8; 256], u: [0u8; 64], v: [0u8; 64] };
        let x0: usize = 16 * mb_col;
        let y0: usize = 16 * mb_row;
        let mut k: usize = 0;
        while k < 256
            invariant
                k <= 256,
                self.inside(),
                x0 == 16 * mb_col,
                y0 == 16 * mb_row,
                x0 + 16 <= usize::MAX,
                y0 + 16 <= usize::MAX,
                forall|j: int|
                    0 <= j < k ==> #[trigger] p.y[j] == pel_at(
                        self.y@,
                        self.y_stride as int,
                        self.width as int,
                        self.height as int,
                        16 * mb_col + j % 16,
                        16 * mb_row + j / 16,
                    ),
            decreases 256 - k,
        {
            p.y[k] = self.y_at(x0 + k % 16, y0 + k / 16);
            k = k + 1;
        }
        let cx0: usize = 8 * mb_col;
        let cy0: usize = 8 * mb_row;
        k = 0;
        while k < 64
            invariant
                k <= 64,
                self.inside(),
                cx0 == 8 * mb_col,
                cy0 == 8 * mb_row,
                cx0 + 8 <= usize::MAX,
                cy0 + 8 <= usize::MAX,
                forall|j: int|
                    0 <= j < 256 ==> #[trigger] p.y[j] == pel_at(
                        self.y@,
                        self.y_stride as int,
                        self.width as int,
                        self.height as int,
                        16 * mb_col + j % 16,
                        16 * mb_row + j / 16,
                    ),
                forall|j: int|
                    0 <= j < k ==> #[trigger] p.u[j] == pel_at(
                        self.u@,
                        self.uv_stride as int,
                        self.chroma_w(),
                        self.chroma_h(),
                        8 * mb_col + j % 8,
                        8 * mb_row + j / 8,
                    ),
                forall|j: int|
                    0 <= j < k ==> #[trigger] p.v[j] == pel_at(
                        self.v@,
                        self.uv_stride as int,
                        self.chroma_w(),
                        self.chroma_h(),
                        8 * mb_col + j % 8,
                        8 * mb_row + j / 8,
                    ),
            decreases 64 - k,
        {
            p.u[k] = self.uv_at(cx0 + k % 8, cy0 + k / 8, false);
            p.v[k] = self.uv_at(cx0 + k % 8, cy0 + k / 8, true);
            k = k + 1;
        }
        p
    }
}

/// `p` is the macroblock at `(row, col)` of `f`.
pub open spec fn extracted(f: I420Frame, row: int, col: int, p: MbPixels) -> bool {
    &&& forall|j: int|
        0 <= j < 256 ==> #[trigger] p.y[j] == pel_at(
            f.y@,
            f.y_stride as int,
            f.width as int,
            f.height as int,
            16 * col + j % 16,
            16 * row + j / 16,
        )
    &&& forall|j: int|
        0 <= j < 64 ==> #[trigger] p.u[j] == pel_at(
            f.u@,
            f.uv_stride as int,
            f.chroma_w(),
            f.chroma_h(),
            8 * col + j % 8,
            8 * row + j / 8,
        )
    &&& forall|j: int|
        0 <= j < 64 ==> #[trigger] p.v[j] == pel_at(
            f.v@,
            f.uv_stride as int,
            f.chroma_w(),
            f.chroma_h(),
            8 * col + j % 8,
            8 * row + j / 8,
        )
}

fn clamped_pixel(plane: &[u8], stride: usize, w: usize, h: usize, x: usize, y: usize) -> (p: u8)
    requires
        motion_comp::plane_inside(plane@, stride as int, w as int, h as int),
    ensures
        p == pel_at(plane@, stride as int, w as int, h as int, x as int, y as int),
{
    let len: usize = plane.len();
    let cx: usize = if x > w - 1 {
        w - 1
    } else {
        x
    };
    let cy: usize = if y > h - 1 {
        h - 1
    } else {
        y
    };
    assert(0 <= cy * stride <= (h - 1) * stride) by (nonlinear_arith)
        requires
            0 <= cy <= h - 1,
            stride >= 0,
    ;
    plane[cy * stride + cx]
}

} // verus!
