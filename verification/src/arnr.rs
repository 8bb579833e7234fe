//! Motion-compensated temporal noise reduction of a picture.
use crate::arith;
use crate::edge_filter;
use crate::encode_error;
use crate::encode_error::EncodeError;
use crate::frame;
use crate::i420;
use crate::i420::{div_ceil2, I420Frame};
use crate::motion_comp;
use vstd::prelude::*;

verus! {

/// Weight of the centre picture.
const W_MAX: u32 = 16;

/// Mean difference per pixel above which a block is left out.
const BLOCK_SAD_PER_PIXEL_CUTOFF: u32 = 12;

/// How strongly pictures are blended, `0..=6`; zero copies the centre.
#[derive(Debug, Clone, Copy, PartialEq, Eq, Structural)]
pub struct ArnrConfig {
    pub strength: u8,
}

impl ArnrConfig {
    pub const MAX_STRENGTH: u8 = 6;

    /// A configuration with its strength limited to the maximum.
    pub fn new(strength: u8) -> (c: Self)
        ensures
            c.strength == arith::clamp_int(strength as int, 0, 6),
    {
        ArnrConfig {
            strength: if strength > 6 {
                6
            } else {
                strength
            },
        }
    }
}

impl Default for ArnrConfig {
    fn default() -> (c: Self)
        ensures
            c.strength == 3,
    {
        ArnrConfig { strength: 3 }
    }
}

/// A blended picture.
#[derive(Debug, Clone, PartialEq, Eq)]
pub struct ArnrPicture {
    pub width: u32,
    pub height: u32,
    pub y: Vec<u8>,
    pub u: Vec<u8>,
    pub v: Vec<u8>,
}

impl ArnrPicture {
    /// The picture as a borrowed one.
    pub fn as_i420(&self) -> (f: I420Frame<'_>)
        ensures
            f.width == self.width,
            f.height == self.height,
            f.y@ == self.y@,
            f.u@ == self.u@,
            f.v@ == self.v@,
            f.y_stride == self.width,
            f.uv_stride == frame::half_up(self.width as int),
    {
        I420Frame::packed(
            self.width,
            self.height,
            self.y.as_slice(),
            self.u.as_slice(),
            self.v.as_slice(),
        )
    }
}

/// The pixel at `(x, y)`, or the nearest one inside.
fn pel(plane: &[u8], stride: usize, w: i32, h: i32, x: i32, y: i32) -> (p: u8)
    requires
        motion_comp::plane_inside(plane@, stride as int, w as int, h as int),
    ensures
        p == i420::pel_at(plane@, stride as int, w as int, h as int, x as int, y as int),
{
    let len: usize = plane.len();
    let cx: usize = crate::arith::clamp_i32(x, 0, w - 1) as usize;
    let cy: usize = crate::arith::clamp_i32(y, 0, h - 1) as usize;
    assert(0 <= cy * stride <= (h - 1) * stride) by (nonlinear_arith)
        requires
            0 <= cy <= h - 1,
            stride >= 0,
    ;
    plane[cy * stride + cx]
}

/// A block of luma pixels.
#[derive(Clone, Copy)]
pub struct Block {
    pub x: usize,
    pub y: usize,
    pub w: usize,
    pub h: usize,
}

/// Difference of pixel `k` of a block from its displaced counterpart.
pub open spec fn pixel_difference(
    src: I420Frame,
    refp: I420Frame,
    b: Block,
    mvx: int,
    mvy: int,
    k: int,
) -> int {
    let x = b.x + k % (b.w as int);
    let y = b.y + k / (b.w as int);
    edge_filter::abs_int(
        src.y@[y * src.y_stride + x] - i420::pel_at(
            refp.y@,
            refp.y_stride as int,
            src.width as int,
            src.height as int,
            x + mvx,
            y + mvy,
        ),
    )
}

/// Sum of the differences of the first `n` pixels.
pub open spec fn difference_sum(
    src: I420Frame,
    refp: I420Frame,
    b: Block,
    mvx: int,
    mvy: int,
    n: nat,
) -> int
    decreases n,
{
    if n == 0 {
        0
    } else {
        difference_sum(src, refp, b, mvx, mvy, (n - 1) as nat) + pixel_difference(
            src,
            refp,
            b,
            mvx,
            mvy,
            n - 1,
        )
    }
}

/// Sum of absolute differences of a block from its displaced counterpart.
pub open spec fn sad(src: I420Frame, refp: I420Frame, b: Block, mvx: int, mvy: int) -> int {
    difference_sum(src, refp, b, mvx, mvy, (b.w * b.h) as nat)
}

/// Two pictures of one size that hold their luma pixels.
pub open spec fn comparable(src: I420Frame, refp: I420Frame) -> bool {
    &&& encode_error::valid_dims(src.width as int, src.height as int)
    &&& motion_comp::plane_inside(src.y@, src.y_stride as int, src.width as int, src.height as int)
    &&& motion_comp::plane_inside(refp.y@, refp.y_stride as int, src.width as int, src.height as int)
}

/// A block of at most 16 by 16 pixels inside a picture.
pub open spec fn block_in(src: I420Frame, b: Block) -> bool {
    &&& 1 <= b.w <= 16
    &&& 1 <= b.h <= 16
    &&& b.x + b.w <= src.width
    &&& b.y + b.h <= src.height
}

fn block_sad(src: &I420Frame<'_>, refp: &I420Frame<'_>, b: Block, mvx: i32, mvy: i32) -> (s: u32)
    requires
        comparable(*src, *refp),
        block_in(*src, b),
        -15 <= mvx <= 15,
        -15 <= mvy <= 15,
    ensures
        s == sad(*src, *refp, b, mvx as int, mvy as int),
        s <= 65280,
{
    let w: i32 = src.width as i32;
    let h: i32 = src.height as i32;
    let len: usize = src.y.len();
    assert(b.w * b.h <= 256) by (nonlinear_arith)
        requires
            1 <= b.w <= 16,
            1 <= b.h <= 16,
    ;
    let n: usize = b.w * b.h;
    let mut total: u32 = 0;
    let mut k: usize = 0;
    while k < n
        invariant
            k <= n <= 256,
            n == b.w * b.h,
            len == src.y@.len(),
            comparable(*src, *refp),
            block_in(*src, b),
            -15 <= mvx <= 15,
            -15 <= mvy <= 15,
            w == src.width,
            h == src.height,
            total == difference_sum(*src, *refp, b, mvx as int, mvy as int, k as nat),
            total <= 255 * k,
        decreases n - k,
    {
        let c: usize = k % b.w;
        let r: usize = k / b.w;
        assert(r < b.h) by (nonlinear_arith)
            requires
                k < b.w * b.h,
                r == k / b.w,
                b.w >= 1,
        ;
        let x: usize = b.x + c;
        let y: usize = b.y + r;
        assert(0 <= y * src.y_stride <= (h - 1) * src.y_stride) by (nonlinear_arith)
            requires
                0 <= y <= h - 1,
                src.y_stride >= 0,
        ;
        let s: u8 = src.y[y * src.y_stride + x];
        let p: u8 = pel(refp.y, refp.y_stride, w, h, x as i32 + mvx, y as i32 + mvy);
        let d: u32 = if s < p {
            (p - s) as u32
        } else {
            (s - p) as u32
        };
        total = total + d;
        k = k + 1;
    }
    total
}

/// Offset of the candidates that a round of the search tries, in order.
pub open spec fn candidate(i: int, step: int) -> (int, int) {
    if i == 0 {
        (-step, -step)
    } else if i == 1 {
        (0, -step)
    } else if i == 2 {
        (step, -step)
    } else if i == 3 {
        (-step, 0)
    } else if i == 4 {
        (step, 0)
    } else if i == 5 {
        (-step, step)
    } else if i == 6 {
        (0, step)
    } else {
        (step, step)
    }
}

/// The better of the best match so far and one candidate.
pub open spec fn probed(
    src: I420Frame,
    refp: I420Frame,
    b: Block,
    best: (int, int, int),
    x: int,
    y: int,
) -> (int, int, int) {
    if edge_filter::abs_int(x) > 15 || edge_filter::abs_int(y) > 15 {
        best
    } else if sad(src, refp, b, x, y) < best.2 {
        (x, y, sad(src, refp, b, x, y))
    } else {
        best
    }
}

/// Best match after the first `n` candidates round `(start.0, start.1)`.
pub open spec fn search_round(
    src: I420Frame,
    refp: I420Frame,
    b: Block,
    start: (int, int, int),
    step: int,
    n: nat,
) -> (int, int, int)
    decreases n,
{
    if n == 0 {
        start
    } else {
        let best = search_round(src, refp, b, start, step, (n - 1) as nat);
        let (dx, dy) = candidate(n - 1, step);
        probed(src, refp, b, best, start.0 + dx, start.1 + dy)
    }
}

/// Best displacement of a block, and its sum of differences: four rounds
/// of eight candidates, at distances 8, 4, 2 and 1.
pub open spec fn best_match(src: I420Frame, refp: I420Frame, b: Block) -> (int, int, int) {
    let s0 = (0, 0, sad(src, refp, b, 0, 0));
    let s1 = search_round(src, refp, b, s0, 8, 8);
    let s2 = search_round(src, refp, b, s1, 4, 8);
    let s3 = search_round(src, refp, b, s2, 2, 8);
    search_round(src, refp, b, s3, 1, 8)
}

pub open spec fn match_model(m: (i32, i32, u32)) -> (int, int, int) {
    (m.0 as int, m.1 as int, m.2 as int)
}

fn search_step(src: &I420Frame<'_>, refp: &I420Frame<'_>, b: Block, start: (i32, i32, u32), step: i32) -> (r: (
    i32,
    i32,
    u32,
))
    requires
        comparable(*src, *refp),
        block_in(*src, b),
        -15 <= start.0 <= 15,
        -15 <= start.1 <= 15,
        start.2 <= 65280,
        1 <= step <= 8,
    ensures
        match_model(r) == search_round(*src, *refp, b, match_model(start), step as int, 8),
        -15 <= r.0 <= 15,
        -15 <= r.1 <= 15,
        r.2 <= 65280,
{
    let mut best: (i32, i32, u32) = start;
    let mut i: usize = 0;
    while i < 8
        invariant
            i <= 8,
            comparable(*src, *refp),
            block_in(*src, b),
            -15 <= start.0 <= 15,
            -15 <= start.1 <= 15,
            -15 <= best.0 <= 15,
            -15 <= best.1 <= 15,
            best.2 <= 65280,
            1 <= step <= 8,
            match_model(best) == search_round(
                *src,
                *refp,
                b,
                match_model(start),
                step as int,
                i as nat,
            ),
        decreases 8 - i,
    {
        let dx: i32 = if i == 0 || i == 3 || i == 5 {
            -step
        } else if i == 1 || i == 6 {
            0
        } else {
            step
        };
        let dy: i32 = if i < 3 {
            -step
        } else if i < 5 {
            0
        } else {
            step
        };
        assert((dx as int, dy as int) == candidate(i as int, step as int));
        let x: i32 = start.0 + dx;
        let y: i32 = start.1 + dy;
        if -15 <= x && x <= 15 && -15 <= y && y <= 15 {
            let s: u32 = block_sad(src, refp, b, x, y);
            if s < best.2 {
                best = (x, y, s);
            }
        }
        i = i + 1;
    }
    best
}

/// Finds the best displacement of a block.
fn refine_search(src: &I420Frame<'_>, refp: &I420Frame<'_>, b: Block) -> (r: (i32, i32, u32))
    requires
        comparable(*src, *refp),
        block_in(*src, b),
    ensures
        match_model(r) == best_match(*src, *refp, b),
        -15 <= r.0 <= 15,
        -15 <= r.1 <= 15,
        r.2 <= 65280,
{
    let s0: (i32, i32, u32) = (0, 0, block_sad(src, refp, b, 0, 0));
    let s1: (i32, i32, u32) = search_step(src, refp, b, s0, 8);
    let s2: (i32, i32, u32) = search_step(src, refp, b, s1, 4);
    let s3: (i32, i32, u32) = search_step(src, refp, b, s2, 2);
    search_step(src, refp, b, s3, 1)
}

/// Weight of a pixel that differs by `d` from the centre.
pub open spec fn weight(d: int, scale: int) -> int {
    16 * scale / (scale + d * d)
}

fn pixel_weight(d: i32, s_scale: u32) -> (w: u32)
    requires
        -255 <= d <= 255,
        1 <= s_scale <= 512,
    ensures
        w == weight(d as int, s_scale as int),
        w <= 16,
{
    assert(0 <= d * d <= 65025) by (nonlinear_arith)
        requires
            -255 <= d <= 255,
    ;
    let q: u32 = (d * d) as u32;
    assert(16 * s_scale / (s_scale + q) <= 16) by (nonlinear_arith)
        requires
            s_scale >= 1,
            q >= 0,
    ;
    W_MAX * s_scale / (s_scale + q)
}

/// The luma block with the given block coordinates.
pub open spec fn block_at(width: int, height: int, bx: int, by: int) -> Block {
    Block {
        x: (16 * bx) as usize,
        y: (16 * by) as usize,
        w: arith::clamp_int(width - 16 * bx, 0, 16) as usize,
        h: arith::clamp_int(height - 16 * by, 0, 16) as usize,
    }
}

/// Displacement of a block in another picture, or none where even the best
/// match differs too much.
pub open spec fn alignment(ctr: I420Frame, f: I420Frame, bx: int, by: int) -> Option<(int, int)> {
    let b = block_at(ctr.width as int, ctr.height as int, bx, by);
    let (x, y, s) = best_match(ctr, f, b);
    if s / (b.w * b.h) > 12 {
        None
    } else {
        Some((x, y))
    }
}

/// `m / 2`, rounded towards zero.
pub open spec fn half_toward_zero(m: int) -> int {
    if m >= 0 {
        m / 2
    } else {
        -((-m) / 2)
    }
}

/// Plane `which` of a picture: luma, then the two chroma planes.
pub open spec fn plane_of(f: I420Frame, which: int) -> Seq<u8> {
    if which == 0 {
        f.y@
    } else if which == 1 {
        f.u@
    } else {
        f.v@
    }
}

pub open spec fn stride_of(f: I420Frame, which: int) -> int {
    if which == 0 {
        f.y_stride as int
    } else {
        f.uv_stride as int
    }
}

pub open spec fn plane_w(f: I420Frame, which: int) -> int {
    if which == 0 {
        f.width as int
    } else {
        f.chroma_w()
    }
}

pub open spec fn plane_h(f: I420Frame, which: int) -> int {
    if which == 0 {
        f.height as int
    } else {
        f.chroma_h()
    }
}

pub open spec fn block_size(which: int) -> int {
    if which == 0 {
        16
    } else {
        8
    }
}

/// The pixel that picture `i` lends to the blend at `(x, y)` of a plane.
pub open spec fn lent_pixel(
    frames: Seq<I420Frame>,
    center: int,
    which: int,
    x: int,
    y: int,
    i: int,
) -> Option<u8> {
    let ctr = frames[center];
    let f = frames[i];
    if i == center {
        None
    } else {
        match alignment(ctr, f, x / block_size(which), y / block_size(which)) {
            None => None,
            Some((mx, my)) => {
                let dx = if which == 0 {
                    mx
                } else {
                    half_toward_zero(mx)
                };
                let dy = if which == 0 {
                    my
                } else {
                    half_toward_zero(my)
                };
                Some(
                    i420::pel_at(
                        plane_of(f, which),
                        stride_of(f, which),
                        plane_w(ctr, which),
                        plane_h(ctr, which),
                        x + dx,
                        y + dy,
                    ),
                )
            },
        }
    }
}

/// Weighted sum of a pixel and what the first `n` pictures lend, and the
/// sum of the weights.
pub open spec fn blend_sums(
    frames: Seq<I420Frame>,
    center: int,
    scale: int,
    which: int,
    x: int,
    y: int,
    c: u8,
    n: nat,
) -> (int, int)
    decreases n,
{
    if n == 0 {
        (16 * c as int, 16)
    } else {
        let (a, w) = blend_sums(frames, center, scale, which, x, y, c, (n - 1) as nat);
        match lent_pixel(frames, center, which, x, y, n - 1) {
            None => (a, w),
            Some(p) => (a + weight(p - c, scale) * p, w + weight(p - c, scale)),
        }
    }
}

/// The blended pixel at `(x, y)` of a plane: the rounded weighted mean.
pub open spec fn blended_pixel(
    frames: Seq<I420Frame>,
    center: int,
    scale: int,
    which: int,
    x: int,
    y: int,
) -> int {
    let ctr = frames[center];
    let c = plane_of(ctr, which)[y * stride_of(ctr, which) + x];
    let (a, w) = blend_sums(frames, center, scale, which, x, y, c, frames.len());
    (a + w / 2) / w
}

/// Scale of the weights at a strength.
pub open spec fn strength_scale(strength: int) -> int {
    let s = arith::clamp_int(strength, 0, 6);
    if s == 0 {
        8
    } else if s == 1 {
        16
    } else if s == 2 {
        32
    } else if s == 3 {
        64
    } else if s == 4 {
        128
    } else if s == 5 {
        256
    } else {
        512
    }
}

/// A plane of a picture without gaps between its rows.
pub open spec fn packed_plane(plane: Seq<u8>, stride: int, w: int, h: int) -> Seq<u8> {
    Seq::new((w * h) as nat, |i: int| plane[(i / w) * stride + i % w])
}

/// Whether all pictures have the size of the centre.
pub open spec fn same_dims(frames: Seq<I420Frame>, center: int) -> bool {
    forall|i: int|
        0 <= i < frames.len() ==> (#[trigger] frames[i]).width == frames[center].width
            && frames[i].height == frames[center].height
}

/// The first picture that has not the size of the centre.
pub open spec fn first_mismatch(frames: Seq<I420Frame>, center: int, i: int) -> bool {
    &&& 0 <= i < frames.len()
    &&& frames[i].width != frames[center].width || frames[i].height != frames[center].height
    &&& forall|j: int|
        0 <= j < i ==> (#[trigger] frames[j]).width == frames[center].width && frames[j].height
            == frames[center].height
}

/// A plane of the result.
pub open spec fn blended_plane(
    frames: Seq<I420Frame>,
    center: int,
    strength: int,
    which: int,
) -> Seq<u8> {
    let ctr = frames[center];
    if strength == 0 || frames.len() < 2 {
        packed_plane(
            plane_of(ctr, which),
            stride_of(ctr, which),
            plane_w(ctr, which),
            plane_h(ctr, which),
        )
    } else {
        Seq::new(
            (plane_w(ctr, which) * plane_h(ctr, which)) as nat,
            |i: int|
                blended_pixel(
                    frames,
                    center,
                    strength_scale(strength),
                    which,
                    i % plane_w(ctr, which),
                    i / plane_w(ctr, which),
                ) as u8,
        )
    }
}

fn copy_plane(plane: &[u8], stride: usize, w: usize, h: usize) -> (out: Vec<u8>)
    requires
        motion_comp::plane_inside(plane@, stride as int, w as int, h as int),
        w * h <= 0x1000_0000,
    ensures
        out@ == packed_plane(plane@, stride as int, w as int, h as int),
{
    let len: usize = plane.len();
    let mut out: Vec<u8> = Vec::new();
    let n: usize = w * h;
    let mut i: usize = 0;
    while i < n
        invariant
            i <= n,
            n == w * h,
            w >= 1,
            len == plane@.len(),
            motion_comp::plane_inside(plane@, stride as int, w as int, h as int),
            out@.len() == i,
            forall|j: int|
                0 <= j < i ==> #[trigger] out@[j] == plane@[(j / (w as int)) * stride + j % (
                w as int)],
        decreases n - i,
    {
        let y: usize = i / w;
        assert(y < h) by (nonlinear_arith)
            requires
                i < w * h,
                y == i / w,
                w >= 1,
        ;
        assert(0 <= y * stride <= (h - 1) * stride) by (nonlinear_arith)
            requires
                0 <= y <= h - 1,
                stride >= 0,
        ;
        out.push(plane[y * stride + i % w]);
        i = i + 1;
    }
    assert(out@ =~= packed_plane(plane@, stride as int, w as int, h as int));
    out
}

/// What a picture's blocks are displaced by, in raster order.
fn align_blocks(ctr: &I420Frame<'_>, f: &I420Frame<'_>, cols: usize, rows: usize) -> (t: Vec<
    Option<(i32, i32)>,
>)
    requires
        comparable(*ctr, *f),
        16 * cols - 15 <= ctr.width <= 16 * cols,
        16 * rows - 15 <= ctr.height <= 16 * rows,
    ensures
        t@.len() == cols * rows,
        forall|bx: int, by: int|
            #![trigger alignment(*ctr, *f, bx, by)]
            0 <= bx < cols && 0 <= by < rows ==> model_mv(t@[by * cols + bx]) == alignment(
                *ctr,
                *f,
                bx,
                by,
            ) && mv_small(t@[by * cols + bx]),
{
    let w: usize = ctr.width as usize;
    let h: usize = ctr.height as usize;
    let mut t: Vec<Option<(i32, i32)>> = Vec::new();
    let mut by: usize = 0;
    assert(0 * cols == 0) by (nonlinear_arith);
    while by < rows
        invariant
            by <= rows,
            comparable(*ctr, *f),
            w == ctr.width,
            h == ctr.height,
            16 * cols - 15 <= w <= 16 * cols,
            16 * rows - 15 <= h <= 16 * rows,
            t@.len() == by * cols,
            forall|x: int, y: int|
                #![trigger alignment(*ctr, *f, x, y)]
                0 <= x < cols && 0 <= y < by ==> model_mv(t@[y * cols + x]) == alignment(
                    *ctr,
                    *f,
                    x,
                    y,
                ) && mv_small(t@[y * cols + x]),
        decreases rows - by,
    {
        let mut bx: usize = 0;
        while bx < cols
            invariant
                bx <= cols,
                by < rows,
                comparable(*ctr, *f),
                w == ctr.width,
                h == ctr.height,
                16 * cols - 15 <= w <= 16 * cols,
                16 * rows - 15 <= h <= 16 * rows,
                t@.len() == by * cols + bx,
                forall|x: int, y: int|
                    #![trigger alignment(*ctr, *f, x, y)]
                    0 <= x < cols && 0 <= y <= by && (y < by || x < bx) ==> model_mv(
                        t@[y * cols + x],
                    ) == alignment(*ctr, *f, x, y) && mv_small(t@[y * cols + x]),
            decreases cols - bx,
        {
            let b: Block = Block {
                x: 16 * bx,
                y: 16 * by,
                w: if w - 16 * bx > 16 {
                    16
                } else {
                    w - 16 * bx
                },
                h: if h - 16 * by > 16 {
                    16
                } else {
                    h - 16 * by
                },
            };
            assert(b == block_at(w as int, h as int, bx as int, by as int));
            let (mx, my, s): (i32, i32, u32) = refine_search(ctr, f, b);
            assert(1 <= b.w * b.h <= 256) by (nonlinear_arith)
                requires
                    1 <= b.w <= 16,
                    1 <= b.h <= 16,
            ;
            let area: u32 = (b.w * b.h) as u32;
            let ghost before = t@;
            if s / area > BLOCK_SAD_PER_PIXEL_CUTOFF {
                t.push(None);
            } else {
                t.push(Some((mx, my)));
            }
            assert(model_mv(t@[by * cols + bx]) == alignment(*ctr, *f, bx as int, by as int));
            assert forall|x: int, y: int|
                #![trigger alignment(*ctr, *f, x, y)]
                0 <= x < cols && 0 <= y <= by && (y < by || x < bx + 1) implies model_mv(
                t@[y * cols + x],
            ) == alignment(*ctr, *f, x, y) && mv_small(t@[y * cols + x]) by {
                if y < by || x < bx {
                    assert(0 <= y * cols + x < by * cols + bx) by (nonlinear_arith)
                        requires
                            0 <= x < cols,
                            0 <= y <= by,
                            y < by || x < bx,
                            cols >= 1,
                    ;
                    assert(before[y * cols + x] == t@[y * cols + x]);
                } else {
                    assert(y == by && x == bx);
                }
            }
            bx = bx + 1;
        }
        assert((by + 1) * cols == by * cols + cols) by (nonlinear_arith);
        by = by + 1;
    }
    assert(rows * cols == cols * rows) by (nonlinear_arith);
    t
}

spec fn model_mv(m: Option<(i32, i32)>) -> Option<(int, int)> {
    match m {
        Some((x, y)) => Some((x as int, y as int)),
        None => None,
    }
}

spec fn mv_small(m: Option<(i32, i32)>) -> bool {
    m matches Some((x, y)) ==> -15 <= x <= 15 && -15 <= y <= 15
}

fn half_i32(m: i32) -> (r: i32)
    requires
        -15 <= m <= 15,
    ensures
        r == half_toward_zero(m as int),
        -15 <= r <= 15,
{
    if m >= 0 {
        m / 2
    } else {
        -((-m) / 2)
    }
}

/// Every picture can be aligned to the centre and blended with it.
spec fn blendable(frames: Seq<I420Frame>, center: int) -> bool {
    &&& 0 <= center < frames.len()
    &&& encode_error::valid_dims(frames[center].width as int, frames[center].height as int)
    &&& same_dims(frames, center)
    &&& forall|i: int| 0 <= i < frames.len() ==> (#[trigger] frames[i]).inside()
}

/// The displacements of the blocks of every picture but the centre.
spec fn aligned_table(
    frames: Seq<I420Frame>,
    center: int,
    table: Seq<Vec<Option<(i32, i32)>>>,
    cols: int,
    rows: int,
) -> bool {
    &&& table.len() == frames.len()
    &&& forall|i: int, bx: int, by: int|
        #![trigger alignment(frames[center], frames[i], bx, by)]
        0 <= i < frames.len() && i != center && 0 <= bx < cols && 0 <= by < rows ==> {
            &&& 0 <= by * cols + bx < table[i]@.len()
            &&& model_mv(table[i]@[by * cols + bx]) == alignment(frames[center], frames[i], bx, by)
            &&& mv_small(table[i]@[by * cols + bx])
        }
}

fn plane_ref<'a>(f: &I420Frame<'a>, which: usize) -> (r: (&'a [u8], usize))
    ensures
        r.0@ == plane_of(*f, which as int),
        r.1 == stride_of(*f, which as int),
{
    if which == 0 {
        (f.y, f.y_stride)
    } else if which == 1 {
        (f.u, f.uv_stride)
    } else {
        (f.v, f.uv_stride)
    }
}

/// Blends one pixel.
fn blend_one(
    frames: &[I420Frame<'_>],
    center: usize,
    scale: u32,
    which: usize,
    x: usize,
    y: usize,
    table: &Vec<Vec<Option<(i32, i32)>>>,
    cols: usize,
    rows: usize,
) -> (p: u8)
    requires
        blendable(frames@, center as int),
        aligned_table(frames@, center as int, table@, cols as int, rows as int),
        1 <= scale <= 512,
        which <= 2,
        x < plane_w(frames@[center as int], which as int),
        y < plane_h(frames@[center as int], which as int),
        frames@[center as int].width <= 16 * cols,
        frames@[center as int].height <= 16 * rows,
        cols <= 1024,
        rows <= 1024,
    ensures
        p == blended_pixel(frames@, center as int, scale as int, which as int, x as int, y as int),
{
    let ctr = &frames[center];
    let ghost g = frames@;
    let ghost ci = center as int;
    let ghost wi = which as int;
    let w: i32 = if which == 0 {
        ctr.width as i32
    } else {
        div_ceil2(ctr.width) as i32
    };
    let h: i32 = if which == 0 {
        ctr.height as i32
    } else {
        div_ceil2(ctr.height) as i32
    };
    let size: usize = if which == 0 {
        16
    } else {
        8
    };
    let (cp, cstride): (&[u8], usize) = plane_ref(ctr, which);
    let clen: usize = cp.len();
    assert(g[ci].inside());
    assert(0 <= y * cstride <= (h - 1) * cstride) by (nonlinear_arith)
        requires
            0 <= y <= h - 1,
            cstride >= 0,
    ;
    let c: u8 = cp[y * cstride + x];
    let bx: usize = x / size;
    let by: usize = y / size;
    assert(bx < cols);
    assert(by < rows);
    assert(0 <= by * cols + bx <= 1024 * 1024) by (nonlinear_arith)
        requires
            0 <= by <= 1023,
            0 <= cols <= 1024,
            0 <= bx <= 1023,
    ;
    let slot: usize = by * cols + bx;
    let mut acc: u128 = W_MAX as u128 * c as u128;
    let mut wsum: u128 = W_MAX as u128;
    let n: usize = frames.len();
    let mut i: usize = 0;
    while i < n
        invariant
            i <= n,
            n == frames@.len(),
            g == frames@,
            ci == center,
            wi == which,
            which <= 2,
            blendable(g, ci),
            aligned_table(g, ci, table@, cols as int, rows as int),
            1 <= scale <= 512,
            w == plane_w(g[ci], wi),
            h == plane_h(g[ci], wi),
            x < w,
            y < h,
            bx == x as int / block_size(wi),
            by == y as int / block_size(wi),
            bx < cols,
            by < rows,
            slot == by * cols + bx,
            acc <= 4080 * (i + if i > center { 0int } else { 1 }),
            16 <= wsum <= 16 * (i + if i > center { 0int } else { 1 }),
            (acc as int, wsum as int) == blend_sums(
                g,
                ci,
                scale as int,
                wi,
                x as int,
                y as int,
                c,
                i as nat,
            ),
        decreases n - i,
    {
        if i != center {
            let ghost a = alignment(g[ci], g[i as int], bx as int, by as int);
            let m: Option<(i32, i32)> = table[i][slot];
            assert(model_mv(m) == a);
            if let Some((mx, my)) = m {
                let f = &frames[i];
                assert(g[i as int].inside());
                let dx: i32 = if which == 0 {
                    mx
                } else {
                    half_i32(mx)
                };
                let dy: i32 = if which == 0 {
                    my
                } else {
                    half_i32(my)
                };
                let (fp, fstride): (&[u8], usize) = plane_ref(f, which);
                let p: u8 = pel(fp, fstride, w, h, x as i32 + dx, y as i32 + dy);
                let wt: u32 = pixel_weight(p as i32 - c as i32, scale);
                assert(wt * p <= 4080) by (nonlinear_arith)
                    requires
                        wt <= 16,
                        p <= 255,
                ;
                acc = acc + (wt * p as u32) as u128;
                wsum = wsum + wt as u128;
            }
        }
        i = i + 1;
    }
    proof {
        lemma_mean_is_pixel(g, ci, scale as int, wi, x as int, y as int, c, n as nat);
    }
    ((acc + wsum / 2) / wsum) as u8
}

/// The weighted sum never exceeds the brightest pixel times the weights.
proof fn lemma_mean_is_pixel(
    frames: Seq<I420Frame>,
    center: int,
    scale: int,
    which: int,
    x: int,
    y: int,
    c: u8,
    n: nat,
)
    requires
        scale >= 1,
    ensures
        ({
            let (a, w) = blend_sums(frames, center, scale, which, x, y, c, n);
            &&& 0 <= a <= 255 * w
            &&& w >= 16
            &&& 0 <= (a + w / 2) / w <= 255
        }),
    decreases n,
{
    if n > 0 {
        lemma_mean_is_pixel(frames, center, scale, which, x, y, c, (n - 1) as nat);
        match lent_pixel(frames, center, which, x, y, n - 1) {
            None => {},
            Some(p) => {
                let d = p - c;
                assert(d * d >= 0) by (nonlinear_arith);
                let wt = weight(d, scale);
                assert(wt >= 0) by {
                    vstd::arithmetic::div_mod::lemma_div_pos_is_pos(16 * scale, scale + d * d);
                }
                assert(0 <= wt * p <= 255 * wt) by (nonlinear_arith)
                    requires
                        wt >= 0,
                        0 <= p <= 255,
                ;
            },
        }
    }
    let (a, w) = blend_sums(frames, center, scale, which, x, y, c, n);
    assert(0 <= (a + w / 2) / w <= 255) by (nonlinear_arith)
        requires
            0 <= a <= 255 * w,
            w >= 16,
    {
        assert(a + w / 2 < 256 * w);
    }
}

fn blend_plane(
    frames: &[I420Frame<'_>],
    center: usize,
    strength: u8,
    which: usize,
    table: &Vec<Vec<Option<(i32, i32)>>>,
    cols: usize,
    rows: usize,
) -> (out: Vec<u8>)
    requires
        blendable(frames@, center as int),
        frames@.len() >= 2,
        strength > 0,
        aligned_table(frames@, center as int, table@, cols as int, rows as int),
        which <= 2,
        frames@[center as int].width <= 16 * cols,
        frames@[center as int].height <= 16 * rows,
        cols <= 1024,
        rows <= 1024,
    ensures
        out@ == blended_plane(frames@, center as int, strength as int, which as int),
{
    let ctr = &frames[center];
    let w: usize = if which == 0 {
        ctr.width as usize
    } else {
        div_ceil2(ctr.width)
    };
    let h: usize = if which == 0 {
        ctr.height as usize
    } else {
        div_ceil2(ctr.height)
    };
    let scale: u32 = if strength <= 1 {
        16
    } else if strength == 2 {
        32
    } else if strength == 3 {
        64
    } else if strength == 4 {
        128
    } else if strength == 5 {
        256
    } else {
        512
    };
    assert(w * h <= 0x1000_0000) by (nonlinear_arith)
        requires
            0 <= w <= 0x3fff,
            0 <= h <= 0x3fff,
    ;
    let n: usize = w * h;
    let mut out: Vec<u8> = Vec::new();
    let mut i: usize = 0;
    while i < n
        invariant
            i <= n,
            n == w * h,
            w >= 1,
            blendable(frames@, center as int),
            aligned_table(frames@, center as int, table@, cols as int, rows as int),
            which <= 2,
            w == plane_w(frames@[center as int], which as int),
            h == plane_h(frames@[center as int], which as int),
            frames@[center as int].width <= 16 * cols,
            frames@[center as int].height <= 16 * rows,
            cols <= 1024,
            rows <= 1024,
            scale == strength_scale(strength as int),
            out@.len() == i,
            forall|j: int|
                0 <= j < i ==> #[trigger] out@[j] == blended_pixel(
                    frames@,
                    center as int,
                    scale as int,
                    which as int,
                    j % (w as int),
                    j / (w as int),
                ) as u8,
        decreases n - i,
    {
        let y: usize = i / w;
        assert(y < h) by (nonlinear_arith)
            requires
                i < w * h,
                y == i / w,
                w >= 1,
        ;
        out.push(blend_one(frames, center, scale, which, i % w, y, table, cols, rows));
        i = i + 1;
    }
    assert(out@ =~= blended_plane(frames@, center as int, strength as int, which as int));
    out
}

/// Blends a window of pictures into its centre picture.
pub fn build_arnr_altref(frames: &[I420Frame<'_>], center: usize, cfg: &ArnrConfig) -> (r: Result<
    ArnrPicture,
    EncodeError,
>)
    requires
        center < frames@.len(),
        ({
            let ctr = frames@[center as int];
            encode_error::valid_dims(ctr.width as int, ctr.height as int) && same_dims(frames@, center as int)
                ==> {
                &&& ctr.inside()
                &&& cfg.strength > 0 && frames@.len() >= 2 ==> forall|i: int|
                    0 <= i < frames@.len() ==> (#[trigger] frames@[i]).inside()
            }
        }),
    ensures
        ({
            let ctr = frames@[center as int];
            match r {
                Ok(p) => {
                    &&& encode_error::valid_dims(ctr.width as int, ctr.height as int)
                    &&& same_dims(frames@, center as int)
                    &&& p.width == ctr.width
                    &&& p.height == ctr.height
                    &&& p.y@ == blended_plane(frames@, center as int, cfg.strength as int, 0)
                    &&& p.u@ == blended_plane(frames@, center as int, cfg.strength as int, 1)
                    &&& p.v@ == blended_plane(frames@, center as int, cfg.strength as int, 2)
                },
                Err(e) => if !encode_error::valid_dims(ctr.width as int, ctr.height as int) {
                    e == EncodeError::InvalidDimensions { width: ctr.width, height: ctr.height }
                } else {
                    exists|i: int| #[trigger]
                        first_mismatch(frames@, center as int, i) && e
                            == EncodeError::ReferenceDimensionsMismatch {
                            source: (ctr.width, ctr.height),
                            reference: (frames@[i].width, frames@[i].height),
                        }
                },
            }
        }),
{
    let ctr: I420Frame<'_> = frames[center];
    if ctr.width == 0 || ctr.height == 0 || ctr.width > 0x3FFF || ctr.height > 0x3FFF {
        return Err(EncodeError::InvalidDimensions { width: ctr.width, height: ctr.height });
    }
    let n: usize = frames.len();
    let mut i: usize = 0;
    while i < n
        invariant
            i <= n,
            n == frames@.len(),
            center < n,
            ctr == frames@[center as int],
            encode_error::valid_dims(ctr.width as int, ctr.height as int),
            forall|j: int|
                0 <= j < i ==> (#[trigger] frames@[j]).width == ctr.width && frames@[j].height
                    == ctr.height,
        decreases n - i,
    {
        if frames[i].width != ctr.width || frames[i].height != ctr.height {
            assert(first_mismatch(frames@, center as int, i as int));
            return Err(
                EncodeError::ReferenceDimensionsMismatch {
                    source: (ctr.width, ctr.height),
                    reference: (frames[i].width, frames[i].height),
                },
            );
        }
        i = i + 1;
    }
    let w: usize = ctr.width as usize;
    let h: usize = ctr.height as usize;
    let cw: usize = div_ceil2(ctr.width);
    let ch: usize = div_ceil2(ctr.height);
    assert(w * h <= 0x1000_0000 && cw * ch <= 0x1000_0000) by (nonlinear_arith)
        requires
            0 <= w <= 0x3fff,
            0 <= h <= 0x3fff,
            0 <= cw <= 0x3fff,
            0 <= ch <= 0x3fff,
    ;
    if cfg.strength == 0 || n < 2 {
        return Ok(
            ArnrPicture {
                width: ctr.width,
                height: ctr.height,
                y: copy_plane(ctr.y, ctr.y_stride, w, h),
                u: copy_plane(ctr.u, ctr.uv_stride, cw, ch),
                v: copy_plane(ctr.v, ctr.uv_stride, cw, ch),
            },
        );
    }
    let cols: usize = (w + 15) / 16;
    let rows: usize = (h + 15) / 16;
    let mut table: Vec<Vec<Option<(i32, i32)>>> = Vec::new();
    i = 0;
    while i < n
        invariant
            i <= n,
            n == frames@.len(),
            center < n,
            ctr == frames@[center as int],
            blendable(frames@, center as int),
            cols == (ctr.width + 15) / 16,
            rows == (ctr.height + 15) / 16,
            table@.len() == i,
            forall|k: int, bx: int, by: int|
                #![trigger alignment(frames@[center as int], frames@[k], bx, by)]
                0 <= k < i && k != center && 0 <= bx < cols && 0 <= by < rows ==> {
                    &&& 0 <= by * cols + bx < table@[k]@.len()
                    &&& model_mv(table@[k]@[by * cols + bx]) == alignment(
                        frames@[center as int],
                        frames@[k],
                        bx,
                        by,
                    )
                    &&& mv_small(table@[k]@[by * cols + bx])
                },
        decreases n - i,
    {
        if i == center {
            table.push(Vec::new());
        } else {
            assert(frames@[i as int].inside());
            assert(frames@[center as int].inside());
            let t: Vec<Option<(i32, i32)>> = align_blocks(&ctr, &frames[i], cols, rows);
            let ghost before = table@;
            table.push(t);
            assert forall|k: int, bx: int, by: int|
                #![trigger alignment(frames@[center as int], frames@[k], bx, by)]
                0 <= k < i + 1 && k != center && 0 <= bx < cols && 0 <= by < rows implies {
                &&& 0 <= by * cols + bx < table@[k]@.len()
                &&& model_mv(table@[k]@[by * cols + bx]) == alignment(
                    frames@[center as int],
                    frames@[k],
                    bx,
                    by,
                )
                &&& mv_small(table@[k]@[by * cols + bx])
            } by {
                if k < i {
                    assert(table@[k] == before[k]);
                } else {
                    assert(0 <= by * cols + bx < cols * rows) by (nonlinear_arith)
                        requires
                            0 <= bx < cols,
                            0 <= by < rows,
                    ;
                }
            }
        }
        i = i + 1;
    }
    Ok(
        ArnrPicture {
            width: ctr.width,
            height: ctr.height,
            y: blend_plane(frames, center, cfg.strength, 0, &table, cols, rows),
            u: blend_plane(frames, center, cfg.strength, 1, &table, cols, rows),
            v: blend_plane(frames, center, cfg.strength, 2, &table, cols, rows),
        },
    )
}

/// At strength zero, or with a single picture, the result is the
/// centre picture.
pub proof fn law_pass_through(frames: Seq<I420Frame>, center: int, strength: int, which: int)
    requires
        0 <= center < frames.len(),
        strength == 0 || frames.len() == 1,
    ensures
        blended_plane(frames, center, strength, which) == packed_plane(
            plane_of(frames[center], which),
            stride_of(frames[center], which),
            plane_w(frames[center], which),
            plane_h(frames[center], which),
        ),
{
}

/// Where no other picture matches, the blended pixel is the centre's.
pub proof fn law_unmatched_pixel_is_kept(
    frames: Seq<I420Frame>,
    center: int,
    scale: int,
    which: int,
    x: int,
    y: int,
)
    requires
        0 <= center < frames.len(),
        forall|i: int| 0 <= i < frames.len() ==> lent_pixel(frames, center, which, x, y, i) is None,
    ensures
        blended_pixel(frames, center, scale, which, x, y) == plane_of(frames[center], which)[y
            * stride_of(frames[center], which) + x],
{
    let c = plane_of(frames[center], which)[y * stride_of(frames[center], which) + x];
    lemma_unmatched_sums(frames, center, scale, which, x, y, c, frames.len());
}

proof fn lemma_unmatched_sums(
    frames: Seq<I420Frame>,
    center: int,
    scale: int,
    which: int,
    x: int,
    y: int,
    c: u8,
    n: nat,
)
    requires
        n <= frames.len(),
        forall|i: int| 0 <= i < frames.len() ==> lent_pixel(frames, center, which, x, y, i) is None,
    ensures
        blend_sums(frames, center, scale, which, x, y, c, n) == (16 * c as int, 16int),
    decreases n,
{
    if n > 0 {
        lemma_unmatched_sums(frames, center, scale, which, x, y, c, (n - 1) as nat);
        assert(lent_pixel(frames, center, which, x, y, n - 1) is None);
    }
}

/// A match no farther off than the search goes, with its own difference, and
/// no worse than no displacement.
pub open spec fn sound_match(src: I420Frame, refp: I420Frame, b: Block, m: (int, int, int)) -> bool {
    &&& -15 <= m.0 <= 15
    &&& -15 <= m.1 <= 15
    &&& m.2 == sad(src, refp, b, m.0, m.1)
    &&& m.2 <= sad(src, refp, b, 0, 0)
}

proof fn lemma_round_is_sound(
    src: I420Frame,
    refp: I420Frame,
    b: Block,
    start: (int, int, int),
    step: int,
    n: nat,
)
    requires
        sound_match(src, refp, b, start),
    ensures
        sound_match(src, refp, b, search_round(src, refp, b, start, step, n)),
    decreases n,
{
    if n > 0 {
        lemma_round_is_sound(src, refp, b, start, step, (n - 1) as nat);
    }
}

/// The search ends within fifteen pixels in each direction, with the
/// difference at the place it names, which is at most that of the same place.
pub proof fn law_search_is_sound(src: I420Frame, refp: I420Frame, b: Block)
    ensures
        sound_match(src, refp, b, best_match(src, refp, b)),
{
    let s0 = (0int, 0int, sad(src, refp, b, 0, 0));
    let s1 = search_round(src, refp, b, s0, 8, 8);
    let s2 = search_round(src, refp, b, s1, 4, 8);
    let s3 = search_round(src, refp, b, s2, 2, 8);
    lemma_round_is_sound(src, refp, b, s0, 8, 8);
    lemma_round_is_sound(src, refp, b, s1, 4, 8);
    lemma_round_is_sound(src, refp, b, s2, 2, 8);
    lemma_round_is_sound(src, refp, b, s3, 1, 8);
}

proof fn lemma_agreeing_sums(
    frames: Seq<I420Frame>,
    center: int,
    scale: int,
    which: int,
    x: int,
    y: int,
    c: u8,
    n: nat,
)
    requires
        n <= frames.len(),
        scale >= 1,
        forall|i: int|
            0 <= i < frames.len() ==> (#[trigger] lent_pixel(frames, center, which, x, y, i)
                matches Some(p) ==> p == c),
    ensures
        ({
            let (a, w) = blend_sums(frames, center, scale, which, x, y, c, n);
            a == w * c && w >= 16
        }),
    decreases n,
{
    if n > 0 {
        lemma_agreeing_sums(frames, center, scale, which, x, y, c, (n - 1) as nat);
        let (a, w) = blend_sums(frames, center, scale, which, x, y, c, (n - 1) as nat);
        if let Some(p) = lent_pixel(frames, center, which, x, y, n - 1) {
            assert(p == c);
            let m = weight(0, scale);
            assert(m >= 0) by (nonlinear_arith)
                requires
                    m == 16 * scale / (scale + 0 * 0),
                    scale >= 1,
            ;
            assert(w * c + m * c == (w + m) * c) by (nonlinear_arith);
        }
    }
}

/// Where every picture that matches lends the centre's pixel, that pixel is
/// kept.
pub proof fn law_agreed_pixel_is_kept(
    frames: Seq<I420Frame>,
    center: int,
    scale: int,
    which: int,
    x: int,
    y: int,
)
    requires
        0 <= center < frames.len(),
        scale >= 1,
        forall|i: int|
            0 <= i < frames.len() ==> (#[trigger] lent_pixel(frames, center, which, x, y, i)
                matches Some(p) ==> p == plane_of(frames[center], which)[y * stride_of(
                frames[center],
                which,
            ) + x]),
    ensures
        blended_pixel(frames, center, scale, which, x, y) == plane_of(frames[center], which)[y
            * stride_of(frames[center], which) + x],
{
    let c = plane_of(frames[center], which)[y * stride_of(frames[center], which) + x];
    lemma_agreeing_sums(frames, center, scale, which, x, y, c, frames.len());
    let (a, w) = blend_sums(frames, center, scale, which, x, y, c, frames.len());
    vstd::arithmetic::div_mod::lemma_fundamental_div_mod_converse(
        a + w / 2,
        w,
        c as int,
        w / 2,
    );
}

/// Pixel (`x`, `y`) of a plane of a picture.
pub open spec fn visible(f: I420Frame, which: int, x: int, y: int) -> u8 {
    plane_of(f, which)[y * stride_of(f, which) + x]
}

/// Two pictures show the same: they have one size, and equal pixels in each
/// plane. What lies between the rows in memory does not matter.
pub open spec fn look_alike(f: I420Frame, g: I420Frame) -> bool {
    &&& f.width == g.width
    &&& f.height == g.height
    &&& forall|which: int, x: int, y: int|
        0 <= which < 3 && 0 <= x < plane_w(f, which) && 0 <= y < plane_h(f, which)
            ==> #[trigger] visible(f, which, x, y) == visible(g, which, x, y)
}

proof fn lemma_no_difference(f: I420Frame, g: I420Frame, b: Block, n: nat)
    requires
        look_alike(f, g),
        block_in(f, b),
        n <= b.w * b.h,
    ensures
        difference_sum(f, g, b, 0, 0, n) == 0,
    decreases n,
{
    if n > 0 {
        lemma_no_difference(f, g, b, (n - 1) as nat);
        arith::lemma_place(n - 1, b.w as int, b.h as int);
        let x = b.x + (n - 1) % (b.w as int);
        let y = b.y + (n - 1) / (b.w as int);
        assert(visible(f, 0, x, y) == visible(g, 0, x, y));
        assert(pixel_difference(f, g, b, 0, 0, n - 1) == 0);
    }
}

proof fn lemma_difference_is_positive(
    src: I420Frame,
    refp: I420Frame,
    b: Block,
    x: int,
    y: int,
    n: nat,
)
    ensures
        difference_sum(src, refp, b, x, y, n) >= 0,
    decreases n,
{
    if n > 0 {
        lemma_difference_is_positive(src, refp, b, x, y, (n - 1) as nat);
    }
}

proof fn lemma_nothing_is_better(f: I420Frame, g: I420Frame, b: Block, step: int, n: nat)
    ensures
        search_round(f, g, b, (0, 0, 0), step, n) == (0int, 0int, 0int),
    decreases n,
{
    if n > 0 {
        lemma_nothing_is_better(f, g, b, step, (n - 1) as nat);
        let (dx, dy) = candidate(n - 1, step);
        lemma_difference_is_positive(f, g, b, dx, dy, (b.w * b.h) as nat);
    }
}

/// A picture that looks like the centre matches it without displacement, and
/// lends its very pixels.
pub proof fn law_equal_picture_lends_its_pixels(
    frames: Seq<I420Frame>,
    center: int,
    which: int,
    x: int,
    y: int,
    i: int,
)
    requires
        0 <= center < frames.len(),
        0 <= i < frames.len(),
        i != center,
        look_alike(frames[center], frames[i]),
        encode_error::valid_dims(frames[center].width as int, frames[center].height as int),
        0 <= which < 3,
        0 <= x < plane_w(frames[center], which),
        0 <= y < plane_h(frames[center], which),
    ensures
        lent_pixel(frames, center, which, x, y, i) == Some(visible(frames[center], which, x, y)),
{
    let f = frames[center];
    let g = frames[i];
    let b = block_at(
        f.width as int,
        f.height as int,
        x / block_size(which),
        y / block_size(which),
    );
    assert(block_in(f, b));
    lemma_no_difference(f, g, b, (b.w * b.h) as nat);
    lemma_nothing_is_better(f, g, b, 8, 8);
    lemma_nothing_is_better(f, g, b, 4, 8);
    lemma_nothing_is_better(f, g, b, 2, 8);
    lemma_nothing_is_better(f, g, b, 1, 8);
    assert(best_match(f, g, b) == (0int, 0int, 0int));
    arith::lemma_mul_bound(1, 1, b.w as int, b.h as int);
    assert(0int / (b.w * b.h) == 0) by {
        vstd::arithmetic::div_mod::lemma_div_basics(b.w * b.h);
    }
    assert(visible(f, which, x, y) == visible(g, which, x, y));
}

proof fn lemma_equal_pictures_keep_a_pixel(
    frames: Seq<I420Frame>,
    center: int,
    scale: int,
    which: int,
    x: int,
    y: int,
)
    requires
        0 <= center < frames.len(),
        scale >= 1,
        forall|i: int|
            0 <= i < frames.len() ==> look_alike(frames[center], #[trigger] frames[i]),
        encode_error::valid_dims(frames[center].width as int, frames[center].height as int),
        0 <= which < 3,
        0 <= x < plane_w(frames[center], which),
        0 <= y < plane_h(frames[center], which),
    ensures
        blended_pixel(frames, center, scale, which, x, y) == visible(frames[center], which, x, y),
{
    assert forall|i: int| 0 <= i < frames.len() implies (#[trigger] lent_pixel(
        frames,
        center,
        which,
        x,
        y,
        i,
    ) matches Some(p) ==> p == visible(frames[center], which, x, y)) by {
        assert(look_alike(frames[center], frames[i]));
        if i != center {
            law_equal_picture_lends_its_pixels(frames, center, which, x, y, i);
        }
    }
    law_agreed_pixel_is_kept(frames, center, scale, which, x, y);
}

/// Blending a picture with others that look like it gives the picture, at
/// every strength.
pub proof fn law_equal_pictures_blend_to_themselves(
    frames: Seq<I420Frame>,
    center: int,
    strength: int,
    which: int,
)
    requires
        0 <= center < frames.len(),
        forall|i: int|
            0 <= i < frames.len() ==> look_alike(frames[center], #[trigger] frames[i]),
        encode_error::valid_dims(frames[center].width as int, frames[center].height as int),
        0 <= which < 3,
    ensures
        blended_plane(frames, center, strength, which) == packed_plane(
            plane_of(frames[center], which),
            stride_of(frames[center], which),
            plane_w(frames[center], which),
            plane_h(frames[center], which),
        ),
{
    let f = frames[center];
    let w = plane_w(f, which);
    let h = plane_h(f, which);
    let blended = blended_plane(frames, center, strength, which);
    let packed = packed_plane(plane_of(f, which), stride_of(f, which), w, h);
    if strength != 0 && frames.len() >= 2 {
        assert forall|i: int| 0 <= i < blended.len() implies blended[i] == packed[i] by {
            arith::lemma_place(i, w, h);
            lemma_equal_pictures_keep_a_pixel(
                frames,
                center,
                strength_scale(strength),
                which,
                i % w,
                i / w,
            );
        }
        assert(blended =~= packed);
    }
}

/// All that is lent to a pixel lies between `lo` and `hi`.
pub open spec fn lent_between(
    frames: Seq<I420Frame>,
    center: int,
    which: int,
    x: int,
    y: int,
    lo: int,
    hi: int,
) -> bool {
    forall|i: int|
        0 <= i < frames.len() ==> (#[trigger] lent_pixel(frames, center, which, x, y, i)
            matches Some(p) ==> lo <= p <= hi)
}

proof fn lemma_bounded_sums(
    frames: Seq<I420Frame>,
    center: int,
    scale: int,
    which: int,
    x: int,
    y: int,
    c: u8,
    lo: int,
    hi: int,
    n: nat,
)
    requires
        n <= frames.len(),
        scale >= 1,
        lo <= c <= hi,
        lent_between(frames, center, which, x, y, lo, hi),
    ensures
        ({
            let (a, w) = blend_sums(frames, center, scale, which, x, y, c, n);
            lo * w <= a && a <= hi * w && w >= 16
        }),
    decreases n,
{
    if n > 0 {
        lemma_bounded_sums(frames, center, scale, which, x, y, c, lo, hi, (n - 1) as nat);
        let (a, w) = blend_sums(frames, center, scale, which, x, y, c, (n - 1) as nat);
        if let Some(p) = lent_pixel(frames, center, which, x, y, n - 1) {
            let d = p - c;
            assert(d * d >= 0) by (nonlinear_arith);
            let m = weight(d, scale);
            assert(m >= 0) by {
                vstd::arithmetic::div_mod::lemma_div_pos_is_pos(16 * scale, scale + d * d);
            }
            assert(lo * m <= m * p && m * p <= hi * m) by (nonlinear_arith)
                requires
                    lo <= p <= hi,
                    m >= 0,
            ;
            assert(lo * (w + m) == lo * w + lo * m) by (nonlinear_arith);
            assert(hi * (w + m) == hi * w + hi * m) by (nonlinear_arith);
        }
    }
}

/// Where the centre's pixel and all that is lent to it lie between two values,
/// so does the blended pixel.
pub proof fn law_blend_stays_between(
    frames: Seq<I420Frame>,
    center: int,
    scale: int,
    which: int,
    x: int,
    y: int,
    lo: int,
    hi: int,
)
    requires
        0 <= center < frames.len(),
        scale >= 1,
        lo <= visible(frames[center], which, x, y) <= hi,
        lent_between(frames, center, which, x, y, lo, hi),
    ensures
        lo <= blended_pixel(frames, center, scale, which, x, y) <= hi,
{
    let c = visible(frames[center], which, x, y);
    lemma_bounded_sums(frames, center, scale, which, x, y, c, lo, hi, frames.len());
    let (a, w) = blend_sums(frames, center, scale, which, x, y, c, frames.len());
    let s = a + w / 2;
    let q = s / w;
    let r = s % w;
    vstd::arithmetic::div_mod::lemma_fundamental_div_mod(s, w);
    assert(q >= lo) by (nonlinear_arith)
        requires
            s == w * q + r,
            0 <= r < w,
            lo * w <= s,
            w >= 16,
    ;
    assert(q <= hi) by (nonlinear_arith)
        requires
            s == w * q + r,
            0 <= r < w,
            s < hi * w + w,
            w >= 16,
    ;
}

/// Every visible pixel of a plane lies between `lo` and `hi`.
pub open spec fn plane_between(f: I420Frame, which: int, lo: int, hi: int) -> bool {
    forall|x: int, y: int|
        0 <= x < plane_w(f, which) && 0 <= y < plane_h(f, which) ==> lo <= #[trigger] visible(
            f,
            which,
            x,
            y,
        ) <= hi
}

/// No pixel of the result is darker than the darkest or brighter than the
/// brightest that its plane has in any of the pictures.
pub proof fn law_blended_plane_stays_between(
    frames: Seq<I420Frame>,
    center: int,
    strength: int,
    which: int,
    lo: int,
    hi: int,
    k: int,
)
    requires
        0 <= center < frames.len(),
        same_dims(frames, center),
        encode_error::valid_dims(frames[center].width as int, frames[center].height as int),
        0 <= which < 3,
        forall|i: int|
            0 <= i < frames.len() ==> plane_between(#[trigger] frames[i], which, lo, hi),
        0 <= k < blended_plane(frames, center, strength, which).len(),
    ensures
        lo <= blended_plane(frames, center, strength, which)[k] <= hi,
{
    let f = frames[center];
    let w = plane_w(f, which);
    let h = plane_h(f, which);
    arith::lemma_mul_bound(1, 1, w, h);
    arith::lemma_place(k, w, h);
    let x = k % w;
    let y = k / w;
    assert(plane_between(f, which, lo, hi));
    assert(lo <= visible(f, which, x, y) <= hi);
    if strength != 0 && frames.len() >= 2 {
        let scale = strength_scale(strength);
        assert forall|i: int| 0 <= i < frames.len() implies (#[trigger] lent_pixel(
            frames,
            center,
            which,
            x,
            y,
            i,
        ) matches Some(p) ==> lo <= p <= hi) by {
            let g = frames[i];
            assert(plane_between(g, which, lo, hi));
            assert(plane_w(g, which) == w && plane_h(g, which) == h);
            if let Some((mx, my)) = alignment(f, g, x / block_size(which), y / block_size(which)) {
                let dx = if which == 0 {
                    mx
                } else {
                    half_toward_zero(mx)
                };
                let dy = if which == 0 {
                    my
                } else {
                    half_toward_zero(my)
                };
                let cx = arith::clamp_int(x + dx, 0, w - 1);
                let cy = arith::clamp_int(y + dy, 0, h - 1);
                assert(lo <= visible(g, which, cx, cy) <= hi);
            }
        }
        law_blend_stays_between(frames, center, scale, which, x, y, lo, hi);
        lemma_mean_is_pixel(
            frames,
            center,
            scale,
            which,
            x,
            y,
            visible(f, which, x, y),
            frames.len(),
        );
    }
}

} // verus!
