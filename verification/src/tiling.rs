//! Planes that are filled block by block.
use crate::arith;
use crate::pixels;
use vstd::prelude::*;

verus! {

/// Pixel (`dy`, `dx`) of the block at (`r`, `c`).
pub open spec fn pixel_at(
    plane: Seq<u8>,
    stride: int,
    size: int,
    r: int,
    c: int,
    dy: int,
    dx: int,
) -> u8 {
    plane[(size * r + dy) * stride + size * c + dx]
}

/// Pixel (`dy`, `dx`) of a block of width `w`.
pub open spec fn block_pixel(vals: Seq<u8>, w: int, dy: int, dx: int) -> u8 {
    vals[dy * w + dx]
}

/// The first `h` rows of a block are what `target` has from `start` on.
pub open spec fn taken_from(
    vals: Seq<u8>,
    target: Seq<u8>,
    start: int,
    stride: int,
    w: int,
    h: int,
) -> bool {
    forall|dy: int, dx: int|
        0 <= dy < h && 0 <= dx < w ==> #[trigger] block_pixel(vals, w, dy, dx) == target[start + dy
            * stride + dx]
}

/// The first `k` blocks of two planes are equal.
pub open spec fn agrees(
    plane: Seq<u8>,
    target: Seq<u8>,
    stride: int,
    size: int,
    cols: int,
    k: int,
) -> bool {
    forall|r: int, c: int, dy: int, dx: int|
        0 <= r && 0 <= c < cols && r * cols + c < k && 0 <= dy < size && 0 <= dx < size
            ==> #[trigger] pixel_at(plane, stride, size, r, c, dy, dx) == pixel_at(
            target,
            stride,
            size,
            r,
            c,
            dy,
            dx,
        )
}

pub proof fn lemma_agrees_from_nothing(
    plane: Seq<u8>,
    target: Seq<u8>,
    stride: int,
    size: int,
    cols: int,
)
    ensures
        agrees(plane, target, stride, size, cols, 0),
{
    assert forall|r: int, c: int, dy: int, dx: int|
        0 <= r && 0 <= c < cols && r * cols + c < 0 && 0 <= dy < size && 0 <= dx
            < size implies #[trigger] pixel_at(plane, stride, size, r, c, dy, dx) == pixel_at(
        target,
        stride,
        size,
        r,
        c,
        dy,
        dx,
    ) by {
        arith::lemma_mul_bound(r, cols, r, cols);
    }
}

/// Where a block out of `target` is stored, a pixel is as it was or as in
/// `target`.
pub proof fn lemma_stored_either(
    plane: Seq<u8>,
    target: Seq<u8>,
    start: int,
    stride: int,
    w: int,
    vals: Seq<u8>,
    h: nat,
    i: int,
)
    requires
        w >= 0,
        taken_from(vals, target, start, stride, w, h as int),
        h * w <= vals.len(),
        0 <= i < plane.len(),
    ensures
        pixels::stored(plane, start, stride, w, vals, h).len() == plane.len(),
        pixels::stored(plane, start, stride, w, vals, h)[i] == plane[i] || pixels::stored(
            plane,
            start,
            stride,
            w,
            vals,
            h,
        )[i] == target[i],
    decreases h,
{
    if h > 0 {
        assert((h - 1) * w + w == h * w) by (nonlinear_arith);
        assert((h - 1) * w >= 0) by (nonlinear_arith)
            requires
                h >= 1,
                w >= 0,
        ;
        lemma_stored_either(plane, target, start, stride, w, vals, (h - 1) as nat, i);
        let row = vals.subrange((h - 1) * w, h * w);
        let at = start + (h - 1) * stride;
        if at <= i < at + w {
            assert(row[i - at] == block_pixel(vals, w, h - 1, i - at));
        }
    }
}

/// Where a block out of `target` is stored, its own pixels are those of
/// `target`.
pub proof fn lemma_stored_hit(
    plane: Seq<u8>,
    target: Seq<u8>,
    start: int,
    stride: int,
    w: int,
    vals: Seq<u8>,
    h: nat,
    dy: int,
    dx: int,
)
    requires
        0 <= dy < h,
        0 <= dx < w,
        taken_from(vals, target, start, stride, w, h as int),
        h * w <= vals.len(),
        0 <= start + dy * stride + dx < plane.len(),
    ensures
        pixels::stored(plane, start, stride, w, vals, h)[start + dy * stride + dx] == target[start
            + dy * stride + dx],
    decreases h,
{
    let i = start + dy * stride + dx;
    assert((h - 1) * w + w == h * w) by (nonlinear_arith);
    assert((h - 1) * w >= 0) by (nonlinear_arith)
        requires
            h >= 1,
            w >= 0,
    ;
    let row = vals.subrange((h - 1) * w, h * w);
    let at = start + (h - 1) * stride;
    lemma_stored_either(plane, target, start, stride, w, vals, (h - 1) as nat, i);
    if dy < h - 1 {
        lemma_stored_hit(plane, target, start, stride, w, vals, (h - 1) as nat, dy, dx);
    }
    if at <= i < at + w {
        assert(row[i - at] == block_pixel(vals, w, h - 1, i - at));
    }
}

pub proof fn lemma_row_bound(r: int, c: int, row: int, col: int, cols: int)
    requires
        0 <= r,
        0 <= c < cols,
        0 <= col < cols,
        r * cols + c < row * cols + col + 1,
    ensures
        r <= row,
{
    assert(r <= row) by (nonlinear_arith)
        requires
            0 <= c < cols,
            0 <= col < cols,
            r * cols + c < row * cols + col + 1,
    ;
}

pub proof fn lemma_same_place(r: int, c: int, row: int, col: int, cols: int)
    requires
        0 <= c < cols,
        0 <= col < cols,
        r * cols + c == row * cols + col,
    ensures
        r == row,
        c == col,
{
    assert(r == row) by (nonlinear_arith)
        requires
            0 <= c < cols,
            0 <= col < cols,
            r * cols + c == row * cols + col,
    ;
}

pub proof fn lemma_pixel_inside(
    len: int,
    stride: int,
    size: int,
    cols: int,
    rows: int,
    r: int,
    c: int,
    dy: int,
    dx: int,
)
    requires
        stride == size * cols,
        len == size * rows * stride,
        0 <= r < rows,
        0 <= c < cols,
        0 <= dy < size,
        0 <= dx < size,
    ensures
        0 <= (size * r + dy) * stride + size * c + dx < len,
        0 <= size * r + dy < size * rows,
        0 <= size * c + dx < stride,
{
    let y = size * r + dy;
    let x = size * c + dx;
    assert(0 <= x < stride) by (nonlinear_arith)
        requires
            x == size * c + dx,
            stride == size * cols,
            0 <= c,
            c + 1 <= cols,
            0 <= dx < size,
    ;
    assert(0 <= y < size * rows) by (nonlinear_arith)
        requires
            y == size * r + dy,
            0 <= r,
            r + 1 <= rows,
            0 <= dy < size,
    ;
    assert(0 <= y * stride + x < size * rows * stride) by (nonlinear_arith)
        requires
            0 <= x < stride,
            0 <= y,
            y + 1 <= size * rows,
    ;
}

/// With one more block out of `target`, one more block agrees.
pub proof fn lemma_one_more(
    plane: Seq<u8>,
    target: Seq<u8>,
    stride: int,
    size: nat,
    cols: int,
    rows: int,
    row: int,
    col: int,
    vals: Seq<u8>,
)
    requires
        stride == size * cols,
        plane.len() == size * rows * stride,
        0 <= row < rows,
        0 <= col < cols,
        vals.len() == size * size,
        taken_from(
            vals,
            target,
            size * row * stride + size * col,
            stride,
            size as int,
            size as int,
        ),
        agrees(plane, target, stride, size as int, cols, row * cols + col),
    ensures
        ({
            let after = pixels::stored(
                plane,
                size * row * stride + size * col,
                stride,
                size as int,
                vals,
                size,
            );
            &&& after.len() == plane.len()
            &&& agrees(after, target, stride, size as int, cols, row * cols + col + 1)
        }),
{
    let start = size * row * stride + size * col;
    let n = size as int;
    let after = pixels::stored(plane, start, stride, n, vals, size);
    pixels::lemma_stored_len(plane, start, stride, n, vals, size);
    assert forall|r: int, c: int, dy: int, dx: int|
        0 <= r && 0 <= c < cols && r * cols + c < row * cols + col + 1 && 0 <= dy < n && 0 <= dx
            < n implies #[trigger] pixel_at(after, stride, n, r, c, dy, dx) == pixel_at(
        target,
        stride,
        n,
        r,
        c,
        dy,
        dx,
    ) by {
        lemma_row_bound(r, c, row, col, cols);
        lemma_pixel_inside(plane.len() as int, stride, n, cols, rows, r, c, dy, dx);
        let i = (n * r + dy) * stride + n * c + dx;
        if r * cols + c < row * cols + col {
            assert(pixel_at(plane, stride, n, r, c, dy, dx) == pixel_at(
                target,
                stride,
                n,
                r,
                c,
                dy,
                dx,
            ));
            lemma_stored_either(plane, target, start, stride, n, vals, size, i);
        } else {
            lemma_same_place(r, c, row, col, cols);
            assert((n * row + dy) * stride == n * row * stride + dy * stride)
                by (nonlinear_arith);
            lemma_stored_hit(plane, target, start, stride, n, vals, size, dy, dx);
        }
    }
}

/// Two planes whose blocks are all equal are equal.
pub proof fn lemma_all_agree(
    plane: Seq<u8>,
    target: Seq<u8>,
    stride: int,
    size: int,
    cols: int,
    rows: int,
)
    requires
        size >= 1,
        cols >= 1,
        rows >= 1,
        stride == size * cols,
        plane.len() == size * rows * stride,
        target.len() == plane.len(),
        agrees(plane, target, stride, size, cols, cols * rows),
    ensures
        plane == target,
{
    assert forall|i: int| 0 <= i < plane.len() implies #[trigger] plane[i] == target[i] by {
        arith::lemma_mul_bound(1, cols, size, cols);
        arith::lemma_mul_bound(1, rows, size, rows);
        assert(stride * (size * rows) == size * rows * stride) by (nonlinear_arith);
        arith::lemma_place(i, stride, size * rows);
        let y = i / stride;
        let x = i % stride;
        arith::lemma_place(y, size, rows);
        arith::lemma_place(x, size, cols);
        let r = y / size;
        let c = x / size;
        assert(r * size == size * r && c * size == size * c) by (nonlinear_arith);
        assert(r * cols + c < cols * rows) by (nonlinear_arith)
            requires
                r + 1 <= rows,
                0 <= c < cols,
        ;
        assert(pixel_at(plane, stride, size, r, c, y % size, x % size) == pixel_at(
            target,
            stride,
            size,
            r,
            c,
            y % size,
            x % size,
        ));
    }
    assert(plane =~= target);
}

} // verus!
