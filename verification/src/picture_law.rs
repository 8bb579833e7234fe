//! Whole pictures: what is put where, what is shown, and how near the source.
use crate::arith;
use crate::decoder;
use crate::decoder::{PictureModel, StateModel};
use crate::exact_law;
use crate::fidelity_law;
use crate::frame;
use crate::frame::{CoeffModel, PlanesModel};
use crate::i420;
use crate::i420::I420Frame;
use crate::keyframe_encoder;
use crate::keyframe_encoder::KeyframeParams;
use crate::macroblock::IntraYMode;
use crate::mb_tokens;
use crate::mode_picker;
use crate::mode_picker::{Candidate, Decisions, Task};
use crate::neighbors;
use crate::pixels;
use crate::round_trip;
use crate::tiling;
use vstd::arithmetic::div_mod;
use vstd::prelude::*;

verus! {

/// Pixel `i` of a plane lies in the square of `size` pixels in row `row` and
/// column `col`.
pub open spec fn in_square(i: int, stride: int, size: int, row: int, col: int) -> bool {
    &&& size * row <= i / stride < size * row + size
    &&& size * col <= i % stride < size * col + size
}

/// A plane with one square replaced.
pub open spec fn with_square(
    plane: Seq<u8>,
    stride: int,
    size: int,
    row: int,
    col: int,
    vals: Seq<u8>,
) -> Seq<u8> {
    Seq::new(
        plane.len(),
        |i: int|
            if in_square(i, stride, size, row, col) {
                vals[(i / stride - size * row) * size + i % stride - size * col]
            } else {
                plane[i]
            },
    )
}

proof fn lemma_square_put(
    plane: Seq<u8>,
    stride: int,
    size: nat,
    cols: int,
    rows: int,
    row: int,
    col: int,
    vals: Seq<u8>,
)
    requires
        size == 8 || size == 16,
        stride == size * cols,
        plane.len() == size * rows * stride,
        0 <= row < rows,
        0 <= col < cols,
        vals.len() == size * size,
    ensures
        pixels::stored(
            plane,
            size * row * stride + size * col,
            stride,
            size as int,
            vals,
            size,
        ) == with_square(plane, stride, size as int, row, col, vals),
{
    let n = size as int;
    let start = n * row * stride + n * col;
    let after = pixels::stored(plane, start, stride, n, vals, size);
    let target = with_square(plane, stride, n, row, col, vals);
    pixels::lemma_stored_len(plane, start, stride, n, vals, size);
    assert forall|dy: int, dx: int| 0 <= dy < n && 0 <= dx < n implies #[trigger] tiling::block_pixel(
        vals,
        n,
        dy,
        dx,
    ) == target[start + dy * stride + dx] by {
        tiling::lemma_pixel_inside(plane.len() as int, stride, n, cols, rows, row, col, dy, dx);
        let y = n * row + dy;
        let x = n * col + dx;
        assert(y * stride == n * row * stride + dy * stride) by (nonlinear_arith)
            requires
                y == n * row + dy,
        ;
        let i = start + dy * stride + dx;
        assert(i == y * stride + x);
        div_mod::lemma_fundamental_div_mod_converse(i, stride, y, x);
    }
    assert forall|i: int| 0 <= i < plane.len() implies #[trigger] after[i] == target[i] by {
        tiling::lemma_stored_either(plane, target, start, stride, n, vals, size, i);
        if in_square(i, stride, n, row, col) {
            let dy = i / stride - n * row;
            let dx = i % stride - n * col;
            tiling::lemma_pixel_inside(plane.len() as int, stride, n, cols, rows, row, col, dy, dx);
            div_mod::lemma_fundamental_div_mod(i, stride);
            let y = i / stride;
            assert(stride * y == n * row * stride + dy * stride) by (nonlinear_arith)
                requires
                    y == n * row + dy,
            ;
            assert(start + dy * stride + dx == i);
            tiling::lemma_stored_hit(plane, target, start, stride, n, vals, size, dy, dx);
        }
    }
    assert(after =~= target);
}

/// Planes of `cols` by `rows` macroblocks.
pub open spec fn planes_of_size(p: PlanesModel, cols: int, rows: int) -> bool {
    &&& p.y.len() == 16 * rows * (16 * cols)
    &&& p.u.len() == 8 * rows * (8 * cols)
    &&& p.v.len() == 8 * rows * (8 * cols)
}

/// A macroblock is put into its own square of each plane, row by row, and
/// everything else stays.
pub proof fn law_macroblock_is_put_in_its_place(
    p: PlanesModel,
    cols: int,
    rows: int,
    row: int,
    col: int,
    m: PlanesModel,
)
    requires
        planes_of_size(p, cols, rows),
        0 <= row < rows,
        0 <= col < cols,
        fidelity_law::full_size(m),
    ensures
        ({
            let after = neighbors::with_mb(p, 16 * cols, 8 * cols, row, col, m);
            &&& after.y == with_square(p.y, 16 * cols, 16, row, col, m.y)
            &&& after.u == with_square(p.u, 8 * cols, 8, row, col, m.u)
            &&& after.v == with_square(p.v, 8 * cols, 8, row, col, m.v)
        }),
{
    lemma_square_put(p.y, 16 * cols, 16, cols, rows, row, col, m.y);
    lemma_square_put(p.u, 8 * cols, 8, cols, rows, row, col, m.u);
    lemma_square_put(p.v, 8 * cols, 8, cols, rows, row, col, m.v);
}

/// Half, rounded up.
pub open spec fn half(n: int) -> int {
    (n + 1) / 2
}

proof fn lemma_cropped(plane: Seq<u8>, stride: int, w: int, h: int, x: int, y: int)
    requires
        0 <= x < w,
        0 <= y < h,
    ensures
        0 <= y * w + x < decoder::cropped(plane, stride, w, h).len(),
        decoder::cropped(plane, stride, w, h)[y * w + x] == plane[y * stride + x],
{
    div_mod::lemma_fundamental_div_mod_converse(y * w + x, w, y, x);
    assert(0 <= y * w + x < w * h) by (nonlinear_arith)
        requires
            0 <= x < w,
            0 <= y,
            y + 1 <= h,
    ;
}

/// What is shown of a picture is its upper left part, pixel by pixel: as many
/// luma pixels as it is wide and high, and half as many of each chroma plane.
pub proof fn law_shown_pixels_are_the_pictures(p: PictureModel, x: int, y: int)
    requires
        0 <= x < p.width,
        0 <= y < p.height,
    ensures
        ({
            let f = decoder::shown(p);
            let cols = decoder::blocks_for(p.width);
            &&& f.width == p.width
            &&& f.height == p.height
            &&& f.y[y * p.width + x] == p.planes.y[y * (16 * cols) + x]
            &&& x < half(p.width) && y < half(p.height) ==> {
                &&& f.u[y * half(p.width) + x] == p.planes.u[y * (8 * cols) + x]
                &&& f.v[y * half(p.width) + x] == p.planes.v[y * (8 * cols) + x]
            }
        }),
{
    reveal(decoder::shown);
    let cols = decoder::blocks_for(p.width);
    lemma_cropped(p.planes.y, 16 * cols, p.width, p.height, x, y);
    if x < half(p.width) && y < half(p.height) {
        lemma_cropped(p.planes.u, 8 * cols, half(p.width), half(p.height), x, y);
        lemma_cropped(p.planes.v, 8 * cols, half(p.width), half(p.height), x, y);
    }
}

/// A plane of the source with its last pixels going on past its sides, as wide
/// and high as whole macroblocks.
pub open spec fn spread(
    data: Seq<u8>,
    stride: int,
    w: int,
    h: int,
    width: int,
    len: nat,
) -> Seq<u8> {
    Seq::new(len, |i: int| i420::pel_at(data, stride, w, h, i % width, i / width))
}

/// The planes of the source in whole macroblocks.
pub open spec fn spread_planes(f: I420Frame) -> PlanesModel {
    let cols = keyframe_encoder::cols_of(f);
    let rows = keyframe_encoder::rows_of(f);
    PlanesModel {
        y: spread(
            f.y@,
            f.y_stride as int,
            f.width as int,
            f.height as int,
            16 * cols,
            (16 * rows * (16 * cols)) as nat,
        ),
        u: spread(
            f.u@,
            f.uv_stride as int,
            f.chroma_w(),
            f.chroma_h(),
            8 * cols,
            (8 * rows * (8 * cols)) as nat,
        ),
        v: spread(
            f.v@,
            f.uv_stride as int,
            f.chroma_w(),
            f.chroma_h(),
            8 * cols,
            (8 * rows * (8 * cols)) as nat,
        ),
    }
}

/// The first `k` squares of a plane are at most eleven off those of another.
#[verifier::opaque]
spec fn near_so_far(plane: Seq<u8>, src: Seq<u8>, stride: int, size: int, cols: int, k: int) -> bool {
    &&& plane.len() == src.len()
    &&& forall|i: int|
        0 <= i < plane.len() && (i / stride / size) * cols + i % stride / size < k ==> -11
            <= #[trigger] plane[i] - src[i] <= 11
}

pub proof fn lemma_square_of(i: int, stride: int, size: int, cols: int, row: int, col: int)
    requires
        size == 8 || size == 16,
        cols >= 1,
        stride == size * cols,
        0 <= i,
        0 <= row,
        0 <= col < cols,
    ensures
        0 <= i / stride,
        0 <= i % stride < stride,
        0 <= i % stride / size < cols,
        in_square(i, stride, size, row, col) <==> (i / stride / size) * cols + i % stride / size
            == row * cols + col,
{
    let y = i / stride;
    let x = i % stride;
    assert(stride >= 1) by (nonlinear_arith)
        requires
            stride == size * cols,
            size >= 1,
            cols >= 1,
    ;
    div_mod::lemma_fundamental_div_mod(i, stride);
    div_mod::lemma_mod_bound(i, stride);
    div_mod::lemma_div_pos_is_pos(i, stride);
    let r = y / size;
    let c = x / size;
    assert(0 <= c < cols) by (nonlinear_arith)
        requires
            0 <= x < size * cols,
            x == size * c + x % size,
            0 <= x % size < size,
            size >= 1,
    ;
    if r * cols + c == row * cols + col {
        tiling::lemma_same_place(r, c, row, col, cols);
    }
    if in_square(i, stride, size, row, col) {
        if size == 8 {
            assert(r == row && c == col);
        } else {
            assert(r == row && c == col);
        }
    }
}

/// One more square near the source.
proof fn lemma_one_more_near(
    plane: Seq<u8>,
    src: Seq<u8>,
    stride: int,
    size: int,
    cols: int,
    rows: int,
    row: int,
    col: int,
    vals: Seq<u8>,
)
    requires
        size == 8 || size == 16,
        cols >= 1,
        stride == size * cols,
        plane.len() == size * rows * stride,
        0 <= row < rows,
        0 <= col < cols,
        near_so_far(plane, src, stride, size, cols, row * cols + col),
        vals.len() == size * size,
        forall|i: int|
            0 <= i < plane.len() && in_square(i, stride, size, row, col) ==> -11 <= vals[(i / stride
                - size * row) * size + i % stride - size * col] - #[trigger] src[i] <= 11,
    ensures
        near_so_far(
            with_square(plane, stride, size, row, col, vals),
            src,
            stride,
            size,
            cols,
            row * cols + col + 1,
        ),
{
    reveal(near_so_far);
    let after = with_square(plane, stride, size, row, col, vals);
    assert forall|i: int|
        0 <= i < plane.len() && (i / stride / size) * cols + i % stride / size < row * cols + col
            + 1 implies -11 <= #[trigger] after[i] - src[i] <= 11 by {
        lemma_square_of(i, stride, size, cols, row, col);
        if !in_square(i, stride, size, row, col) {
            assert(-11 <= plane[i] - src[i] <= 11);
        }
    }
}

proof fn lemma_all_near(
    plane: Seq<u8>,
    src: Seq<u8>,
    stride: int,
    size: int,
    cols: int,
    rows: int,
)
    requires
        size == 8 || size == 16,
        cols >= 1,
        rows >= 1,
        stride == size * cols,
        plane.len() == size * rows * stride,
        near_so_far(plane, src, stride, size, cols, cols * rows),
    ensures
        fidelity_law::off_by(plane, src, 11),
{
    reveal(near_so_far);
    assert forall|i: int| 0 <= i < plane.len() implies -11 <= #[trigger] plane[i] - src[i] <= 11 by {
        lemma_square_of(i, stride, size, cols, 0, 0);
        assert(stride * (size * rows) == size * rows * stride) by (nonlinear_arith);
        arith::lemma_mul_bound(1, cols, size, cols);
        arith::lemma_mul_bound(1, rows, size, rows);
        arith::lemma_place(i, stride, size * rows);
        let r = i / stride / size;
        let c = i % stride / size;
        let y = i / stride;
        arith::lemma_place(y, size, rows);
        assert(r * cols + c < cols * rows) by (nonlinear_arith)
            requires
                0 <= r,
                r + 1 <= rows,
                0 <= c < cols,
        ;
    }
}

/// A macroblock without residue has no coefficients.
proof fn lemma_nothing_left(c: CoeffModel, has_y2: bool)
    requires
        mb_tokens::nothing_hidden(c, has_y2),
        !mb_tokens::any_nonzero(c),
        c.y2.len() == 16,
    ensures
        c == frame::no_coeffs(),
{
    let z = frame::zero_block();
    assert forall|b: int| 0 <= b < 25 implies #[trigger] mb_tokens::in_row(c)[b] == z by {
        let s = mb_tokens::in_row(c)[b];
        assert(s.len() == 16);
        assert(!frame::has_nonzero(s));
        assert forall|i: int| 0 <= i < 16 implies #[trigger] s[i] == 0 by {}
        assert(s =~= z);
    }
    assert forall|k: int| 0 <= k < 16 implies #[trigger] c.y[k] == z by {
        assert(mb_tokens::in_row(c)[k] == c.y[k]);
    }
    assert forall|k: int| 0 <= k < 4 implies #[trigger] c.u[k] == z by {
        assert(mb_tokens::in_row(c)[16 + k] == c.u[k]);
    }
    assert forall|k: int| 0 <= k < 4 implies #[trigger] c.v[k] == z by {
        assert(mb_tokens::in_row(c)[20 + k] == c.v[k]);
    }
    assert(mb_tokens::in_row(c)[24] == c.y2);
    assert(c.y =~= frame::no_coeffs().y);
    assert(c.u =~= frame::no_coeffs().u);
    assert(c.v =~= frame::no_coeffs().v);
}

/// The macroblock that goes into the frame is the one that is near the source.
proof fn lemma_same_rebuilt(t: Task, d: Decisions)
    requires
        t.f.valid(),
        d.modes.len() == 16,
        d.whole != IntraYMode::B,
    ensures
        ({
            let m = keyframe_encoder::rebuilt_mb(
                t,
                keyframe_encoder::coded_info(t, d),
                mode_picker::decided_coeffs(t, d),
            );
            let r = fidelity_law::rebuilt(t, d);
            &&& m.y == r.y
            &&& m.u == r.u
            &&& m.v == r.v
        }),
{
    let c = mode_picker::decided_coeffs(t, d);
    mode_picker::lemma_nothing_hidden(t, d);
    if keyframe_encoder::without_residue(c, t.probs, !d.own) {
        reveal(keyframe_encoder::without_residue);
        mb_tokens::lemma_counts_nonzero(
            c,
            t.probs,
            !d.own,
            mb_tokens::clear_ctx(),
            mb_tokens::clear_ctx(),
        );
        assert(mb_tokens::in_row(c)[24] == c.y2);
        lemma_nothing_left(c, !d.own);
        round_trip::lemma_nothing_scaled(t.f);
    }
}

proof fn lemma_source_square(
    data: Seq<u8>,
    stride: int,
    w: int,
    h: int,
    width: int,
    size: int,
    row: int,
    col: int,
    len: nat,
    i: int,
)
    requires
        size == 8 || size == 16,
        0 <= i < len,
        in_square(i, width, size, row, col),
    ensures
        ({
            let j = (i / width - size * row) * size + i % width - size * col;
            &&& 0 <= j < size * size
            &&& spread(data, stride, w, h, width, len)[i] == i420::pel_at(
                data,
                stride,
                w,
                h,
                size * col + j % size,
                size * row + j / size,
            )
        }),
{
    let dy = i / width - size * row;
    let dx = i % width - size * col;
    let j = dy * size + dx;
    div_mod::lemma_fundamental_div_mod_converse(j, size, dy, dx);
    assert(0 <= j < size * size) by (nonlinear_arith)
        requires
            0 <= dy,
            dy + 1 <= size,
            0 <= dx < size,
            j == dy * size + dx,
    ;
}

/// The macroblocks that were encoded so far are near the source.
proof fn lemma_walk_is_near<F: Fn(&Vec<Vec<Candidate>>) -> usize>(
    judge: F,
    f: I420Frame,
    ds: Seq<Decisions>,
)
    requires
        f.width >= 1,
        f.height >= 1,
        ds.len() <= keyframe_encoder::cols_of(f) * keyframe_encoder::rows_of(f),
        keyframe_encoder::all_decided(judge, f, 0, ds),
    ensures
        ({
            let cols = keyframe_encoder::cols_of(f);
            let rows = keyframe_encoder::rows_of(f);
            let p = keyframe_encoder::walk(f, 0, ds).planes;
            let s = spread_planes(f);
            let k = ds.len() as int;
            &&& planes_of_size(p, cols, rows)
            &&& near_so_far(p.y, s.y, 16 * cols, 16, cols, k)
            &&& near_so_far(p.u, s.u, 8 * cols, 8, cols, k)
            &&& near_so_far(p.v, s.v, 8 * cols, 8, cols, k)
        }),
    decreases ds.len(),
{
    let cols = keyframe_encoder::cols_of(f);
    let rows = keyframe_encoder::rows_of(f);
    let s = spread_planes(f);
    let p = keyframe_encoder::walk(f, 0, ds).planes;
    assert(cols >= 1 && rows >= 1);
    arith::lemma_mul_bound(16 * rows, 16 * cols, 16 * rows, 16 * cols);
    arith::lemma_mul_bound(8 * rows, 8 * cols, 8 * rows, 8 * cols);
    if ds.len() == 0 {
        assert(16 * cols * (16 * rows) == 16 * rows * (16 * cols)) by (nonlinear_arith);
        assert(8 * cols * (8 * rows) == 8 * rows * (8 * cols)) by (nonlinear_arith);
        lemma_nothing_yet(p.y, s.y, 16 * cols, 16, cols);
        lemma_nothing_yet(p.u, s.u, 8 * cols, 8, cols);
        lemma_nothing_yet(p.v, s.v, 8 * cols, 8, cols);
    } else {
        let past = ds.drop_last();
        let d = ds.last();
        let k = past.len() as int;
        lemma_walk_is_near(judge, f, past);
        keyframe_encoder::lemma_walk_len(f, 0, past);
        let w = keyframe_encoder::walk(f, 0, past);
        let t = keyframe_encoder::mb_task(f, 0, w.planes, k);
        let (row, col) = (k / cols, k % cols);
        arith::lemma_place(k, cols, rows);
        reveal(keyframe_encoder::after_mb);
        reveal(keyframe_encoder::mb_task);
        assert(t == keyframe_encoder::next_task(f, 0, past));
        mode_picker::lemma_decided(judge, t, d);
        exact_law::lemma_finest();
        lemma_same_rebuilt(t, d);
        fidelity_law::law_finest_is_near_the_source(t, d);
        let m = keyframe_encoder::rebuilt_mb(
            t,
            keyframe_encoder::coded_info(t, d),
            mode_picker::decided_coeffs(t, d),
        );
        law_macroblock_is_put_in_its_place(w.planes, cols, rows, row, col, m);
        lemma_near_plane(
            w.planes.y,
            s.y,
            f.y@,
            f.y_stride as int,
            f.width as int,
            f.height as int,
            16,
            cols,
            rows,
            row,
            col,
            m.y,
            t.pixels.y,
        );
        lemma_near_plane(
            w.planes.u,
            s.u,
            f.u@,
            f.uv_stride as int,
            f.chroma_w(),
            f.chroma_h(),
            8,
            cols,
            rows,
            row,
            col,
            m.u,
            t.pixels.u,
        );
        lemma_near_plane(
            w.planes.v,
            s.v,
            f.v@,
            f.uv_stride as int,
            f.chroma_w(),
            f.chroma_h(),
            8,
            cols,
            rows,
            row,
            col,
            m.v,
            t.pixels.v,
        );
    }
}

proof fn lemma_nothing_yet(plane: Seq<u8>, src: Seq<u8>, stride: int, size: int, cols: int)
    requires
        size == 8 || size == 16,
        cols >= 1,
        stride == size * cols,
        plane.len() == src.len(),
    ensures
        near_so_far(plane, src, stride, size, cols, 0),
{
    reveal(near_so_far);
    assert forall|i: int|
        0 <= i < plane.len() && (i / stride / size) * cols + i % stride / size < 0 implies -11
        <= #[trigger] plane[i] - src[i] <= 11 by {
        lemma_square_of(i, stride, size, cols, 0, 0);
        let r = i / stride / size;
        arith::lemma_mul_bound(0, cols, r, cols);
    }
}

proof fn lemma_near_plane(
    plane: Seq<u8>,
    src: Seq<u8>,
    data: Seq<u8>,
    stride: int,
    w: int,
    h: int,
    size: nat,
    cols: int,
    rows: int,
    row: int,
    col: int,
    vals: Seq<u8>,
    pixels: Seq<u8>,
)
    requires
        size == 8 || size == 16,
        cols >= 1,
        0 <= row < rows,
        0 <= col < cols,
        plane.len() == size * rows * (size * cols),
        src == spread(data, stride, w, h, size * cols, plane.len()),
        near_so_far(plane, src, size * cols, size as int, cols, row * cols + col),
        pixels == Seq::new(
            size * size,
            |j: int|
                i420::pel_at(
                    data,
                    stride,
                    w,
                    h,
                    size * col + j % size as int,
                    size * row + j / size as int,
                ),
        ),
        fidelity_law::off_by(vals, pixels, 11),
    ensures
        near_so_far(
            with_square(plane, size * cols, size as int, row, col, vals),
            src,
            size * cols,
            size as int,
            cols,
            row * cols + col + 1,
        ),
{
    let n = size as int;
    assert forall|i: int|
        0 <= i < plane.len() && in_square(i, n * cols, n, row, col) implies -11 <= vals[(i / (n
        * cols) - n * row) * n + i % (n * cols) - n * col] - #[trigger] src[i] <= 11 by {
        lemma_source_square(data, stride, w, h, n * cols, n, row, col, plane.len(), i);
        let j = (i / (n * cols) - n * row) * n + i % (n * cols) - n * col;
        assert(-11 <= vals[j] - pixels[j] <= 11);
    }
    lemma_one_more_near(plane, src, n * cols, n, cols, rows, row, col, vals);
}

/// A key frame that was encoded at the finest quantizer and without the loop
/// filter decodes to a picture whose pixels are all within eleven of the
/// source's, whatever the source and whatever modes were chosen.
pub proof fn law_finest_key_frame_is_near_the_source<F: Fn(&Vec<Vec<Candidate>>) -> usize>(
    judge: F,
    f: I420Frame,
    p: KeyframeParams,
    ds: Seq<Decisions>,
    first: Seq<u8>,
    parts: Seq<Seq<u8>>,
    out: Seq<u8>,
    st: StateModel,
)
    requires
        keyframe_encoder::params_fault(f.width, f.height, p) is None,
        keyframe_encoder::all_decided(judge, f, p.y_ac_qi as int, ds),
        keyframe_encoder::is_key_frame(out, f, p, ds, first, parts),
        forall|j: int| 0 <= j < parts.len() - 1 ==> (#[trigger] parts[j]).len() < 0x100_0000,
        p.y_ac_qi == 0,
        p.loop_filter_level == 0,
    ensures
        decoder::decode_fault(out, st) is None,
        ({
            let picture = decoder::decoded_picture(out, st).planes;
            &&& fidelity_law::off_by(picture.y, spread_planes(f).y, 11)
            &&& fidelity_law::off_by(picture.u, spread_planes(f).u, 11)
            &&& fidelity_law::off_by(picture.v, spread_planes(f).v, 11)
        }),
{
    round_trip::law_key_frame_decodes(judge, f, p, ds, first, parts, out, st);
    let cols = keyframe_encoder::cols_of(f);
    let rows = keyframe_encoder::rows_of(f);
    lemma_walk_is_near(judge, f, ds);
    let w = keyframe_encoder::walk(f, 0, ds).planes;
    let s = spread_planes(f);
    lemma_all_near(w.y, s.y, 16 * cols, 16, cols, rows);
    lemma_all_near(w.u, s.u, 8 * cols, 8, cols, rows);
    lemma_all_near(w.v, s.v, 8 * cols, 8, cols, rows);
}

} // verus!
