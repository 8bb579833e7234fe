//! The loop filter of an edge, line by line.
use crate::edge_filter;
use crate::loopfilter;
use crate::loopfilter::EdgeFilter;
use vstd::prelude::*;

verus! {

/// The pixels of the line that crosses an edge in front of `i`: four on each
/// side for the normal filter, two for the simple one.
pub open spec fn line_pixels(plane: Seq<u8>, i: int, across: int, normal: bool) -> Seq<u8> {
    if normal {
        seq![
            plane[i - 4 * across],
            plane[i - 3 * across],
            plane[i - 2 * across],
            plane[i - across],
            plane[i],
            plane[i + across],
            plane[i + 2 * across],
            plane[i + 3 * across],
        ]
    } else {
        seq![plane[i - 2 * across], plane[i - across], plane[i], plane[i + across]]
    }
}

/// Pixel `k` is not on the line.
pub open spec fn off_line(k: int, i: int, across: int, normal: bool) -> bool {
    &&& k != i - 2 * across
    &&& k != i - across
    &&& k != i
    &&& k != i + across
    &&& normal ==> k != i - 4 * across && k != i - 3 * across && k != i + 2 * across && k != i + 3
        * across
}

/// Two lines have no pixel in common.
#[verifier::opaque]
spec fn apart(a: int, b: int, across: int, normal: bool) -> bool {
    &&& off_line(a - 2 * across, b, across, normal)
    &&& off_line(a - across, b, across, normal)
    &&& off_line(a, b, across, normal)
    &&& off_line(a + across, b, across, normal)
    &&& normal ==> off_line(a - 4 * across, b, across, normal) && off_line(
        a - 3 * across,
        b,
        across,
        normal,
    ) && off_line(a + 2 * across, b, across, normal) && off_line(
        a + 3 * across,
        b,
        across,
        normal,
    )
}

/// Where line `j` of an edge crosses it.
pub open spec fn crossing(start: int, along: int, j: int) -> int {
    start + j * along
}

/// One line, filtered.
pub open spec fn filtered_line(plane: Seq<u8>, i: int, across: int, f: EdgeFilter) -> Seq<u8> {
    if f.normal {
        edge_filter::normal_step(plane, i, across, f.edge, f.interior, f.hev, f.wide)
    } else {
        edge_filter::simple_step(plane, i, across, f.edge)
    }
}

proof fn lemma_one_line(plane: Seq<u8>, i: int, across: int, f: EdgeFilter)
    requires
        across >= 1,
        f.span(across) <= i,
        i + f.span(across) - across < plane.len(),
    ensures
        filtered_line(plane, i, across, f).len() == plane.len(),
        line_pixels(filtered_line(plane, i, across, f), i, across, f.normal) == filtered_line(
            line_pixels(plane, i, across, f.normal),
            f.reach(),
            1,
            f,
        ),
        forall|k: int|
            0 <= k < plane.len() && #[trigger] off_line(k, i, across, f.normal) ==> filtered_line(
                plane,
                i,
                across,
                f,
            )[k] == plane[k],
{
    let l = line_pixels(plane, i, across, f.normal);
    if f.normal {
        assert(edge_filter::line_at(l, 4, 1) == edge_filter::line_at(plane, i, across));
    }
    assert(line_pixels(filtered_line(plane, i, across, f), i, across, f.normal) =~= filtered_line(
        l,
        f.reach(),
        1,
        f,
    ));
}

/// Lines that have nothing in common are filtered each by itself.
proof fn lemma_all_lines(
    plane: Seq<u8>,
    start: int,
    along: int,
    across: int,
    n: nat,
    f: EdgeFilter,
)
    requires
        across >= 1,
        forall|j: int|
            0 <= j < n ==> f.span(across) <= #[trigger] crossing(start, along, j) && crossing(
                start,
                along,
                j,
            ) + f.span(across) - across < plane.len(),
        forall|j: int, m: int|
            0 <= j < m < n ==> apart(
                #[trigger] crossing(start, along, j),
                #[trigger] crossing(start, along, m),
                across,
                f.normal,
            ),
    ensures
        loopfilter::filtered_edge(plane, start, along, across, n, f).len() == plane.len(),
        forall|j: int|
            0 <= j < n ==> line_pixels(
                loopfilter::filtered_edge(plane, start, along, across, n, f),
                #[trigger] crossing(start, along, j),
                across,
                f.normal,
            ) == filtered_line(line_pixels(plane, crossing(start, along, j), across, f.normal), f.reach(), 1, f),
        forall|k: int|
            0 <= k < plane.len() && (forall|j: int|
                0 <= j < n ==> off_line(k, #[trigger] crossing(start, along, j), across, f.normal))
                ==> #[trigger] loopfilter::filtered_edge(plane, start, along, across, n, f)[k] == plane[k],
    decreases n,
{
    reveal(apart);
    if n > 0 {
        let last = n - 1;
        lemma_all_lines(plane, start, along, across, last as nat, f);
        let before = loopfilter::filtered_edge(plane, start, along, across, last as nat, f);
        let after = loopfilter::filtered_edge(plane, start, along, across, n, f);
        let at = crossing(start, along, last);
        assert(after == filtered_line(before, at, across, f));
        lemma_one_line(before, at, across, f);
        assert forall|k: int| 0 <= k < plane.len() && !off_line(k, at, across, f.normal) implies
            #[trigger] before[k] == plane[k] by {
            assert forall|j: int| 0 <= j < last implies off_line(
                k,
                #[trigger] crossing(start, along, j),
                across,
                f.normal,
            ) by {
                assert(apart(crossing(start, along, j), at, across, f.normal));
            }
        }
        assert(line_pixels(before, at, across, f.normal) =~= line_pixels(plane, at, across, f.normal));
        assert forall|j: int| 0 <= j < n implies line_pixels(
            after,
            #[trigger] crossing(start, along, j),
            across,
            f.normal,
        ) == filtered_line(line_pixels(plane, crossing(start, along, j), across, f.normal), f.reach(), 1, f) by {
            if j < last {
                let i = crossing(start, along, j);
                assert(apart(i, at, across, f.normal));
                assert(line_pixels(after, i, across, f.normal) =~= line_pixels(before, i, across, f.normal));
            }
        }
        assert forall|k: int|
            0 <= k < plane.len() && (forall|j: int|
                0 <= j < n ==> off_line(
                    k,
                    #[trigger] crossing(start, along, j),
                    across,
                    f.normal,
                )) implies #[trigger] after[k] == plane[k] by {
            assert(off_line(k, at, across, f.normal));
            assert(before[k] == plane[k]);
        }
    }
}

proof fn lemma_row_pixels(plane: Seq<u8>, i: int, f: EdgeFilter)
    requires
        f.reach() <= i,
        i + f.reach() <= plane.len(),
    ensures
        plane.subrange(i - f.reach(), i + f.reach()) == line_pixels(plane, i, 1, f.normal),
{
    assert(plane.subrange(i - f.reach(), i + f.reach()) =~= line_pixels(plane, i, 1, f.normal));
}

proof fn lemma_off_row(k: int, stride: int, x: int, j: int, f: EdgeFilter)
    requires
        f.reach() <= x <= stride - f.reach(),
        k / stride != j || !(x - f.reach() <= k % stride < x + f.reach()),
    ensures
        off_line(k, crossing(x, stride, j), 1, f.normal),
{
    let i = crossing(x, stride, j);
    if i - f.reach() <= k < i + f.reach() {
        lemma_row_of(k, j, stride, k - j * stride);
    }
}

proof fn lemma_rows_apart(stride: int, x: int, j: int, m: int, f: EdgeFilter)
    requires
        2 * f.reach() <= stride,
        j < m,
    ensures
        apart(crossing(x, stride, j), crossing(x, stride, m), 1, f.normal),
{
    reveal(apart);
    assert(j * stride + stride <= m * stride) by (nonlinear_arith)
        requires
            j + 1 <= m,
            stride >= 0,
    ;
}

proof fn lemma_row_fits(len: int, stride: int, x: int, height: int, j: int)
    requires
        0 <= x <= stride,
        height * stride <= len,
        0 <= j < height,
    ensures
        crossing(x, stride, j) == j * stride + x,
        0 <= j * stride,
        j * stride + stride <= len,
{
    assert(0 <= j * stride && j * stride + stride <= height * stride) by (nonlinear_arith)
        requires
            0 <= j,
            j + 1 <= height,
            stride >= 0,
    ;
}

/// Where the pixels of line `j` of a vertical edge begin.
pub open spec fn row_start(stride: int, x: int, j: int, f: EdgeFilter) -> int {
    crossing(x, stride, j) - f.reach()
}

/// Every row of a vertical edge becomes what the filter of one line makes of
/// it.
pub open spec fn rows_are_filtered(
    plane: Seq<u8>,
    after: Seq<u8>,
    stride: int,
    x: int,
    height: int,
    f: EdgeFilter,
) -> bool {
    forall|j: int|
        0 <= j < height ==> after.subrange(
            #[trigger] row_start(stride, x, j, f),
            row_start(stride, x, j, f) + 2 * f.reach(),
        ) == filtered_line(
            plane.subrange(
                row_start(stride, x, j, f),
                row_start(stride, x, j, f) + 2 * f.reach(),
            ),
            f.reach(),
            1,
            f,
        )
}

/// Every column of a horizontal edge becomes what the filter of one line makes
/// of it.
pub open spec fn columns_are_filtered(
    plane: Seq<u8>,
    after: Seq<u8>,
    stride: int,
    y: int,
    width: int,
    f: EdgeFilter,
) -> bool {
    forall|j: int|
        0 <= j < width ==> line_pixels(
            after,
            #[trigger] crossing(y * stride, 1, j),
            stride,
            f.normal,
        ) == filtered_line(
            line_pixels(plane, crossing(y * stride, 1, j), stride, f.normal),
            f.reach(),
            1,
            f,
        )
}

/// The plane filters of a vertical edge change, in each row, the pixels around
/// the edge as the filter of one line does, and no others. Too close to the
/// sides of the plane they change nothing.
pub proof fn law_vertical_edge_by_rows(
    plane: Seq<u8>,
    stride: int,
    x: int,
    width: int,
    height: int,
    f: EdgeFilter,
)
    requires
        0 <= height,
        width <= stride,
        height * stride <= plane.len(),
    ensures
        ({
            let after = loopfilter::vertical_edge(plane, stride, x, width, height, f);
            let inside = f.reach() <= x <= width - f.reach();
            &&& after.len() == plane.len()
            &&& !inside ==> after == plane
            &&& inside ==> rows_are_filtered(plane, after, stride, x, height, f)
            &&& forall|k: int|
                0 <= k < plane.len() && (k / stride >= height || !(x - f.reach() <= k % stride < x
                    + f.reach())) ==> #[trigger] after[k] == plane[k]
        }),
{
    let len = plane.len() as int;
    let n = height as nat;
    let r = f.reach();
    let after = loopfilter::vertical_edge(plane, stride, x, width, height, f);
    if r <= x <= width - r {
        assert forall|j: int| 0 <= j < n implies f.span(1) <= #[trigger] crossing(x, stride, j)
            && crossing(x, stride, j) + f.span(1) - 1 < len by {
            lemma_row_fits(len, stride, x, height, j);
        }
        assert forall|j: int, m: int| 0 <= j < m < n implies apart(
            #[trigger] crossing(x, stride, j),
            #[trigger] crossing(x, stride, m),
            1,
            f.normal,
        ) by {
            lemma_rows_apart(stride, x, j, m, f);
        }
        lemma_all_lines(plane, x, stride, 1, n, f);
        assert forall|j: int| 0 <= j < height implies after.subrange(
            #[trigger] row_start(stride, x, j, f),
            row_start(stride, x, j, f) + 2 * r,
        ) == filtered_line(
            plane.subrange(row_start(stride, x, j, f), row_start(stride, x, j, f) + 2 * r),
            r,
            1,
            f,
        ) by {
            let i = crossing(x, stride, j);
            assert(r <= i && i + r - 1 < len);
            lemma_row_pixels(after, i, f);
            lemma_row_pixels(plane, i, f);
        }
        assert forall|k: int|
            0 <= k < plane.len() && (k / stride >= height || !(x - r <= k % stride < x
                + r)) implies #[trigger] after[k] == plane[k] by {
            assert forall|j: int| 0 <= j < n implies off_line(
                k,
                #[trigger] crossing(x, stride, j),
                1,
                f.normal,
            ) by {
                lemma_off_row(k, stride, x, j, f);
            }
        }
    }
}

/// The plane filters of a horizontal edge change, in each column, the pixels
/// around the edge as the filter of one line does, and no others. Too close to
/// the ends of the plane they change nothing.
pub proof fn law_horizontal_edge_by_columns(
    plane: Seq<u8>,
    stride: int,
    y: int,
    width: int,
    height: int,
    f: EdgeFilter,
)
    requires
        0 <= width <= stride,
        height * stride <= plane.len(),
    ensures
        ({
            let after = loopfilter::horizontal_edge(plane, stride, y, width, height, f);
            let inside = f.reach() <= y <= height - f.reach();
            &&& after.len() == plane.len()
            &&& !inside ==> after == plane
            &&& inside ==> columns_are_filtered(plane, after, stride, y, width, f)
            &&& forall|k: int|
                0 <= k < plane.len() && (k % stride >= width || !(y - f.reach() <= k / stride < y
                    + f.reach())) ==> #[trigger] after[k] == plane[k]
        }),
{
    let len = plane.len() as int;
    let start = y * stride;
    let n = width as nat;
    let r = f.reach();
    let after = loopfilter::horizontal_edge(plane, stride, y, width, height, f);
    if r <= y <= height - r && n > 0 {
        assert(r * stride <= start && start + r * stride <= len) by (nonlinear_arith)
            requires
                start == y * stride,
                r <= y,
                y + r <= height,
                height * stride <= len,
                stride >= 0,
        ;
        reveal(apart);
        lemma_all_lines(plane, start, 1, stride, n, f);
        assert forall|k: int|
            0 <= k < plane.len() && (k % stride >= width || !(y - r <= k / stride < y
                + r)) implies #[trigger] after[k] == plane[k] by {
            assert forall|j: int| 0 <= j < n implies off_line(
                k,
                #[trigger] crossing(start, 1, j),
                stride,
                f.normal,
            ) by {
                lemma_off_column(k, y, stride, j, f);
            }
        }
    }
}

proof fn lemma_row_of(k: int, row: int, stride: int, j: int)
    requires
        0 <= j < stride,
        k == row * stride + j,
    ensures
        k / stride == row,
        k % stride == j,
{
    vstd::arithmetic::div_mod::lemma_fundamental_div_mod_converse(k, stride, row, j);
}

proof fn lemma_off_column(k: int, y: int, stride: int, j: int, f: EdgeFilter)
    requires
        0 <= j < stride,
        k % stride != j || !(y - f.reach() <= k / stride < y + f.reach()),
    ensures
        off_line(k, crossing(y * stride, 1, j), stride, f.normal),
{
    let start = y * stride;
    assert((y - 4) * stride == start - 4 * stride && (y - 3) * stride == start - 3 * stride && (y
        - 2) * stride == start - 2 * stride && (y - 1) * stride == start - stride && (y + 1)
        * stride == start + stride && (y + 2) * stride == start + 2 * stride && (y + 3) * stride
        == start + 3 * stride) by (nonlinear_arith)
        requires
            start == y * stride,
    ;
    if k == start + j - 4 * stride {
        lemma_row_of(k, y - 4, stride, j);
    }
    if k == start + j - 3 * stride {
        lemma_row_of(k, y - 3, stride, j);
    }
    if k == start + j - 2 * stride {
        lemma_row_of(k, y - 2, stride, j);
    }
    if k == start + j - stride {
        lemma_row_of(k, y - 1, stride, j);
    }
    if k == start + j {
        lemma_row_of(k, y, stride, j);
    }
    if k == start + j + stride {
        lemma_row_of(k, y + 1, stride, j);
    }
    if k == start + j + 2 * stride {
        lemma_row_of(k, y + 2, stride, j);
    }
    if k == start + j + 3 * stride {
        lemma_row_of(k, y + 3, stride, j);
    }
}

} // verus!
