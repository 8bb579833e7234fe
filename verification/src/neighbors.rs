//! What a frame in progress holds round a macroblock.
use crate::frame;
use crate::frame::{KeyframePlanes, PlanesModel};
use crate::pixels;
use crate::pixels::store_block;
use crate::reconstruct;
use crate::reconstruct::{Edges, MbNeighbors, NeighborModel, ReconstructedMb};
use vstd::prelude::*;

verus! {

/// `n` pixels from `start` on, `step` apart.
pub open spec fn line(plane: Seq<u8>, start: int, step: int, n: nat) -> Seq<u8> {
    Seq::new(n, |i: int| plane[start + i * step])
}

/// The pixels round the square of `size` pixels at block row `row` and column
/// `col`. Left of the frame, beside a row that exists, the corner is 129.
pub open spec fn edges_at(plane: Seq<u8>, stride: int, size: nat, row: int, col: int) -> Edges {
    let at = size * row * stride + size * col;
    Edges {
        above: if row > 0 {
            Some(line(plane, at - stride, 1, size))
        } else {
            None
        },
        left: if col > 0 {
            Some(line(plane, at - 1, stride, size))
        } else {
            None
        },
        corner: if row > 0 && col > 0 {
            Some(plane[at - stride - 1])
        } else if row > 0 {
            Some(129)
        } else {
            None
        },
    }
}

/// The four pixels above a macroblock and to the right; past the frame the
/// last pixel above it stands for them.
pub open spec fn above_right_at(
    plane: Seq<u8>,
    stride: int,
    cols: int,
    row: int,
    col: int,
) -> Option<Seq<u8>> {
    let above = 16 * row * stride + 16 * col - stride;
    if row == 0 {
        None
    } else if col + 1 < cols {
        Some(line(plane, above + 16, 1, 4))
    } else {
        Some(line(plane, above + 15, 0, 4))
    }
}

/// What stands round macroblock (`row`, `col`).
pub open spec fn around_mb(
    p: PlanesModel,
    ys: int,
    cs: int,
    cols: int,
    row: int,
    col: int,
) -> NeighborModel {
    NeighborModel {
        y: edges_at(p.y, ys, 16, row, col),
        y_above_right: above_right_at(p.y, ys, cols, row, col),
        u: edges_at(p.u, cs, 8, row, col),
        v: edges_at(p.v, cs, 8, row, col),
    }
}

/// The planes with macroblock (`row`, `col`) replaced.
pub open spec fn with_mb(
    p: PlanesModel,
    ys: int,
    cs: int,
    row: int,
    col: int,
    m: PlanesModel,
) -> PlanesModel {
    PlanesModel {
        y: pixels::stored(p.y, 16 * row * ys + 16 * col, ys, 16, m.y, 16),
        u: pixels::stored(p.u, 8 * row * cs + 8 * col, cs, 8, m.u, 8),
        v: pixels::stored(p.v, 8 * row * cs + 8 * col, cs, 8, m.v, 8),
    }
}

/// Planes of `cols` by `rows` macroblocks, all zero.
pub open spec fn blank_planes(cols: int, rows: int) -> PlanesModel {
    PlanesModel {
        y: Seq::new((16 * cols * (16 * rows)) as nat, |i: int| 0u8),
        u: Seq::new((8 * cols * (8 * rows)) as nat, |i: int| 0u8),
        v: Seq::new((8 * cols * (8 * rows)) as nat, |i: int| 0u8),
    }
}

impl KeyframePlanes {
    /// The planes are exactly as large as their macroblocks ask.
    pub open spec fn wf(&self) -> bool {
        &&& self.y_stride == 16 * self.mb_cols
        &&& self.uv_stride == 8 * self.mb_cols
        &&& self.y@.len() == 16 * self.mb_rows * self.y_stride
        &&& self.u@.len() == 8 * self.mb_rows * self.uv_stride
        &&& self.v@.len() == 8 * self.mb_rows * self.uv_stride
    }

    /// Same sizes.
    pub open spec fn like(&self, other: &KeyframePlanes) -> bool {
        &&& self.y_stride == other.y_stride
        &&& self.uv_stride == other.uv_stride
        &&& self.mb_cols == other.mb_cols
        &&& self.mb_rows == other.mb_rows
    }

    /// Planes of zeros.
    pub fn blank(cols: usize, rows: usize) -> (p: Self)
        requires
            cols <= 0x400,
            rows <= 0x400,
        ensures
            p.wf(),
            p.mb_cols == cols,
            p.mb_rows == rows,
            p@ == blank_planes(cols as int, rows as int),
    {
        assert(16 * cols * (16 * rows) <= 0x1000_0000) by (nonlinear_arith)
            requires
                cols <= 0x400,
                rows <= 0x400,
        ;
        assert(8 * cols * (8 * rows) <= 0x400_0000) by (nonlinear_arith)
            requires
                cols <= 0x400,
                rows <= 0x400,
        ;
        let ys: usize = 16 * cols;
        let cs: usize = 8 * cols;
        let y: Vec<u8> = vec![0u8; ys * (16 * rows)];
        let u: Vec<u8> = vec![0u8; cs * (8 * rows)];
        let v: Vec<u8> = vec![0u8; cs * (8 * rows)];
        let p: KeyframePlanes = KeyframePlanes {
            y,
            u,
            v,
            y_stride: ys,
            uv_stride: cs,
            mb_cols: cols,
            mb_rows: rows,
        };
        assert(ys * (16 * rows) == 16 * rows * ys) by (nonlinear_arith);
        assert(cs * (8 * rows) == 8 * rows * cs) by (nonlinear_arith);
        assert(p.y@ =~= blank_planes(cols as int, rows as int).y);
        assert(p.u@ =~= blank_planes(cols as int, rows as int).u);
        assert(p.v@ =~= blank_planes(cols as int, rows as int).v);
        p
    }
}

/// A block of a plane lies inside it.
pub proof fn lemma_block_fits(
    len: int,
    stride: int,
    cols: int,
    rows: int,
    size: int,
    row: int,
    col: int,
)
    requires
        size == 16 || size == 8,
        stride == size * cols,
        len == size * rows * stride,
        0 <= row < rows,
        0 <= col < cols,
    ensures
        0 <= size * row * stride,
        size * row * stride + size * col + (size - 1) * stride + size <= len,
        row > 0 ==> stride <= size * row * stride,
        size * col + size <= stride,
{
    assert(size * row * stride + size * stride <= size * rows * stride) by (nonlinear_arith)
        requires
            row + 1 <= rows,
            size > 0,
            stride >= 0,
    {
        assert(size * row + size <= size * rows);
    }
    assert(size * col + size <= stride) by (nonlinear_arith)
        requires
            stride == size * cols,
            col + 1 <= cols,
            size > 0,
    ;
    assert(0 <= size * row * stride) by (nonlinear_arith)
        requires
            row >= 0,
            size > 0,
            stride >= 0,
    ;
    if row > 0 {
        assert(stride <= size * row * stride) by (nonlinear_arith)
            requires
                row >= 1,
                size >= 1,
                stride >= 0,
        {
            assert(size * row >= 1);
        }
    }
    assert(size * stride == (size - 1) * stride + stride) by (nonlinear_arith);
}

fn load16(plane: &Vec<u8>, start: usize, step: usize) -> (e: [u8; 16])
    requires
        start + 15 * step < plane@.len(),
    ensures
        e@ == line(plane@, start as int, step as int, 16),
{
    let len: usize = plane.len();
    let mut e: [u8; 16] = [0u8;16];
    let mut i: usize = 0;
    let mut at: usize = start;
    while i < 16
        invariant
            i <= 16,
            len == plane@.len(),
            start + 15 * step < len,
            i < 16 ==> at == start + i * step,
            forall|j: int| 0 <= j < i ==> #[trigger] e[j] == plane@[start + j * step],
        decreases 16 - i,
    {
        assert(i * step <= 15 * step) by (nonlinear_arith)
            requires
                i <= 15,
        ;
        e[i] = plane[at];
        i = i + 1;
        if i < 16 {
            assert(i * step <= 15 * step && i * step == (i - 1) * step + step)
                by (nonlinear_arith)
                requires
                    1 <= i <= 15,
            ;
            at = at + step;
        }
    }
    assert(e@ =~= line(plane@, start as int, step as int, 16));
    e
}

fn load8(plane: &Vec<u8>, start: usize, step: usize) -> (e: [u8; 8])
    requires
        start + 7 * step < plane@.len(),
    ensures
        e@ == line(plane@, start as int, step as int, 8),
{
    let len: usize = plane.len();
    let mut e: [u8; 8] = [0u8;8];
    let mut i: usize = 0;
    let mut at: usize = start;
    while i < 8
        invariant
            i <= 8,
            len == plane@.len(),
            start + 7 * step < len,
            i < 8 ==> at == start + i * step,
            forall|j: int| 0 <= j < i ==> #[trigger] e[j] == plane@[start + j * step],
        decreases 8 - i,
    {
        assert(i * step <= 7 * step) by (nonlinear_arith)
            requires
                i <= 7,
        ;
        e[i] = plane[at];
        i = i + 1;
        if i < 8 {
            assert(i * step <= 7 * step && i * step == (i - 1) * step + step)
                by (nonlinear_arith)
                requires
                    1 <= i <= 7,
            ;
            at = at + step;
        }
    }
    assert(e@ =~= line(plane@, start as int, step as int, 8));
    e
}

/// Gathers what stands round macroblock (`row`, `col`).
pub fn gather_neighbors(planes: &KeyframePlanes, row: usize, col: usize) -> (n: MbNeighbors)
    requires
        planes.wf(),
        row < planes.mb_rows,
        col < planes.mb_cols,
    ensures
        n@ == around_mb(
            planes@,
            planes.y_stride as int,
            planes.uv_stride as int,
            planes.mb_cols as int,
            row as int,
            col as int,
        ),
{
    let ys: usize = planes.y_stride;
    let cs: usize = planes.uv_stride;
    let y_len: usize = planes.y.len();
    let u_len: usize = planes.u.len();
    let v_len: usize = planes.v.len();
    proof {
        let cols = planes.mb_cols as int;
        let rows = planes.mb_rows as int;
        lemma_block_fits(y_len as int, ys as int, cols, rows, 16, row as int, col as int);
        lemma_block_fits(u_len as int, cs as int, cols, rows, 8, row as int, col as int);
        assert(16 * row * ys <= y_len && 8 * row * cs <= u_len);
        lemma_row_fits(row as int, ys as int, 16);
        lemma_row_fits(row as int, cs as int, 8);
    }
    let at: usize = 16 * row * ys + 16 * col;
    let cat: usize = 8 * row * cs + 8 * col;
    let mut n: MbNeighbors = MbNeighbors::default();
    if row > 0 {
        n.y_above = Some(load16(&planes.y, at - ys, 1));
        n.u_above = Some(load8(&planes.u, cat - cs, 1));
        n.v_above = Some(load8(&planes.v, cat - cs, 1));
        if col > 0 {
            n.y_topleft = Some(planes.y[at - ys - 1]);
            n.u_topleft = Some(planes.u[cat - cs - 1]);
            n.v_topleft = Some(planes.v[cat - cs - 1]);
        } else {
            n.y_topleft = Some(129);
            n.u_topleft = Some(129);
            n.v_topleft = Some(129);
        }
        let right: [u8; 4];
        if col + 1 < planes.mb_cols {
            assert(16 * col + 32 <= ys);
            let a: usize = at - ys + 16;
            right = [planes.y[a], planes.y[a + 1], planes.y[a + 2], planes.y[a + 3]];
            assert(right@ =~= line(planes.y@, at - ys + 16, 1, 4));
        } else {
            let p: u8 = planes.y[at - ys + 15];
            right = [p, p, p, p];
            assert(right@ =~= line(planes.y@, at - ys + 15, 0, 4));
        }
        n.y_above_right = Some(right);
    }
    if col > 0 {
        n.y_left = Some(load16(&planes.y, at - 1, ys));
        n.u_left = Some(load8(&planes.u, cat - 1, cs));
        n.v_left = Some(load8(&planes.v, cat - 1, cs));
    }
    n
}

proof fn lemma_row_fits(row: int, stride: int, size: int)
    requires
        row >= 0,
        stride >= 0,
        size == 16 || size == 8,
    ensures
        size * row <= size * row * stride || stride == 0,
{
    if stride > 0 {
        assert(size * row <= size * row * stride) by (nonlinear_arith)
            requires
                stride >= 1,
                row >= 0,
                size > 0,
        {
            assert(size * row >= 0);
        }
    }
}

/// Puts a macroblock into the planes.
pub fn write_mb(planes: &mut KeyframePlanes, row: usize, col: usize, m: &ReconstructedMb)
    requires
        old(planes).wf(),
        row < old(planes).mb_rows,
        col < old(planes).mb_cols,
    ensures
        final(planes).wf(),
        final(planes).like(old(planes)),
        final(planes)@ == with_mb(
            old(planes)@,
            old(planes).y_stride as int,
            old(planes).uv_stride as int,
            row as int,
            col as int,
            m@,
        ),
{
    let ys: usize = planes.y_stride;
    let cs: usize = planes.uv_stride;
    let y_len: usize = planes.y.len();
    let u_len: usize = planes.u.len();
    let v_len: usize = planes.v.len();
    proof {
        let cols = planes.mb_cols as int;
        let rows = planes.mb_rows as int;
        lemma_block_fits(y_len as int, ys as int, cols, rows, 16, row as int, col as int);
        lemma_block_fits(u_len as int, cs as int, cols, rows, 8, row as int, col as int);
        lemma_row_fits(row as int, ys as int, 16);
        lemma_row_fits(row as int, cs as int, 8);
    }
    let at: usize = 16 * row * ys + 16 * col;
    let cat: usize = 8 * row * cs + 8 * col;
    store_block(planes.y.as_mut_slice(), at, ys, 16, 16, &m.y);
    store_block(planes.u.as_mut_slice(), cat, cs, 8, 8, &m.u);
    store_block(planes.v.as_mut_slice(), cat, cs, 8, 8, &m.v);
}

} // verus!
