//! Where the pixels of an intra prediction come from.
use crate::exact_law;
use crate::fidelity_law;
use crate::frame::{CoeffModel, PlanesModel};
use crate::intra;
use crate::inverse_transform;
use crate::macroblock::{IntraBmode, IntraUvMode, IntraYMode};
use crate::neighbors;
use crate::reconstruct;
use vstd::arithmetic::div_mod;
use vstd::prelude::*;

verus! {

/// The pixel in column `x` and row `y` of a plane; above the plane 127, and to
/// the left of it 129.
pub open spec fn seen(plane: Seq<u8>, stride: int, x: int, y: int) -> int {
    if y < 0 {
        127
    } else if x < 0 {
        129
    } else {
        plane[y * stride + x] as int
    }
}

/// `v`, limited to what a pixel can be.
pub open spec fn as_pixel(v: int) -> int {
    if v < 0 {
        0
    } else if v > 255 {
        255
    } else {
        v
    }
}

/// Sum of the first `n` pixels of the row above a square.
pub open spec fn sum_above(plane: Seq<u8>, stride: int, x: int, y: int, n: nat) -> int
    decreases n,
{
    if n == 0 {
        0
    } else {
        sum_above(plane, stride, x, y, (n - 1) as nat) + seen(plane, stride, x + n - 1, y - 1)
    }
}

/// Sum of the first `n` pixels of the column to the left of a square.
pub open spec fn sum_left(plane: Seq<u8>, stride: int, x: int, y: int, n: nat) -> int
    decreases n,
{
    if n == 0 {
        0
    } else {
        sum_left(plane, stride, x, y, (n - 1) as nat) + seen(plane, stride, x - 1, y + n - 1)
    }
}

/// `v` is `sum / n` to the nearest whole number, halves rounded up.
pub open spec fn is_mean(v: int, sum: int, n: int) -> bool {
    2 * sum - n < 2 * n * v <= 2 * sum + n
}

/// What prediction mode `mode` puts at row `r` and column `c` of the square of
/// `n` pixels whose first pixel is (`x`, `y`): the pixel above its column, the
/// one to the left of its row, their sum less the one at the corner, or the
/// mean of those above and to the left that are inside the plane.
pub open spec fn predicts(
    v: u8,
    mode: IntraUvMode,
    plane: Seq<u8>,
    stride: int,
    n: nat,
    x: int,
    y: int,
    r: int,
    c: int,
) -> bool {
    let above = seen(plane, stride, x + c, y - 1);
    let left = seen(plane, stride, x - 1, y + r);
    let corner = seen(plane, stride, x - 1, y - 1);
    match mode {
        IntraUvMode::V => v == above,
        IntraUvMode::H => v == left,
        IntraUvMode::Tm => v == as_pixel(left + above - corner),
        IntraUvMode::Dc => {
            let a = sum_above(plane, stride, x, y, n);
            let l = sum_left(plane, stride, x, y, n);
            if x > 0 && y > 0 {
                is_mean(v as int, a + l, 2 * n as int)
            } else if y > 0 {
                is_mean(v as int, a, n as int)
            } else if x > 0 {
                is_mean(v as int, l, n as int)
            } else {
                v == 128
            }
        },
    }
}

proof fn lemma_sums(plane: Seq<u8>, stride: int, n: nat, row: int, col: int, m: nat)
    requires
        0 <= row,
        0 <= col,
        n > 0,
        m <= n,
    ensures
        ({
            let e = neighbors::edges_at(plane, stride, n, row, col);
            &&& row > 0 ==> intra::pixel_sum(e.above->0, m) == sum_above(
                plane,
                stride,
                n * col,
                n * row,
                m,
            )
            &&& col > 0 ==> intra::pixel_sum(e.left->0, m) == sum_left(
                plane,
                stride,
                n * col,
                n * row,
                m,
            )
            &&& 0 <= intra::pixel_sum(e.above->0, m) <= 255 * m
            &&& 0 <= intra::pixel_sum(e.left->0, m) <= 255 * m
        }),
    decreases m,
{
    if m > 0 {
        let i = m - 1;
        lemma_sums(plane, stride, n, row, col, i as nat);
        lemma_edge_places(plane, stride, n, row, col, i);
    }
}

/// The pixels round a square are those of the plane.
proof fn lemma_edge_places(plane: Seq<u8>, stride: int, n: nat, row: int, col: int, i: int)
    requires
        0 <= row,
        0 <= col,
        0 <= i < n,
    ensures
        ({
            let e = neighbors::edges_at(plane, stride, n, row, col);
            let (x, y) = (n * col, n * row);
            &&& e.above is Some <==> row > 0
            &&& e.left is Some <==> col > 0
            &&& y > 0 <==> row > 0
            &&& x > 0 <==> col > 0
            &&& intra::edge_pixel(e.above, i, 127) == seen(plane, stride, x + i, y - 1)
            &&& intra::edge_pixel(e.left, i, 129) == seen(plane, stride, x - 1, y + i)
            &&& reconstruct::corner_of(e.corner) == seen(plane, stride, x - 1, y - 1)
            &&& row > 0 ==> e.above->0[i] == seen(plane, stride, x + i, y - 1)
            &&& col > 0 ==> e.left->0[i] == seen(plane, stride, x - 1, y + i)
        }),
{
    let at = n * row * stride + n * col;
    let y = n * row;
    assert(n * row >= 0 && n * col >= 0 && (row > 0 ==> n * row >= n) && (col > 0 ==> n * col
        >= n) && (row == 0 ==> n * row == 0) && (col == 0 ==> n * col == 0)) by (nonlinear_arith)
        requires
            0 <= row,
            0 <= col,
            0 < n,
    ;
    assert((y - 1) * stride == y * stride - stride) by (nonlinear_arith);
    assert((y + i) * stride == y * stride + i * stride) by (nonlinear_arith);
}

proof fn lemma_rounded_mean(sum: int, n: int)
    requires
        n > 0,
        n % 2 == 0,
        0 <= sum <= 255 * n,
    ensures
        is_mean((sum + n / 2) / n, sum, n),
        0 <= (sum + n / 2) / n <= 255,
{
    let v = (sum + n / 2) / n;
    div_mod::lemma_fundamental_div_mod(sum + n / 2, n);
    assert(2 * (n * v) == 2 * n * v) by (nonlinear_arith);
    assert(0 <= v <= 255) by (nonlinear_arith)
        requires
            n > 0,
            0 <= (sum + n / 2) % n < n,
            sum + n / 2 == n * v + (sum + n / 2) % n,
            0 <= sum <= 255 * n,
    ;
}

/// Every pixel of a square that is predicted as a whole comes from the pixels
/// round it, in the way its mode says.
pub proof fn law_square_is_predicted(
    mode: IntraUvMode,
    plane: Seq<u8>,
    stride: int,
    n: nat,
    row: int,
    col: int,
    r: int,
    c: int,
)
    requires
        n == 8 || n == 16,
        0 <= row,
        0 <= col,
        0 <= r < n,
        0 <= c < n,
    ensures
        ({
            let p = reconstruct::square_from(
                mode,
                n,
                neighbors::edges_at(plane, stride, n, row, col),
            );
            &&& p.len() == n * n
            &&& predicts(p[r * n + c], mode, plane, stride, n, n * col, n * row, r, c)
        }),
{
    reveal(intra::predicted_square);
    let e = neighbors::edges_at(plane, stride, n, row, col);
    let k = r * n + c;
    div_mod::lemma_fundamental_div_mod_converse(k, n as int, r, c);
    assert(0 <= k < n * n) by (nonlinear_arith)
        requires
            0 <= r,
            r + 1 <= n,
            0 <= c < n,
            k == r * n + c,
    ;
    lemma_edge_places(plane, stride, n, row, col, r);
    lemma_edge_places(plane, stride, n, row, col, c);
    lemma_sums(plane, stride, n, row, col, n);
    if mode is Dc {
        if row > 0 && col > 0 {
            let s = intra::pixel_sum(e.above->0, n) + intra::pixel_sum(e.left->0, n);
            lemma_rounded_mean(s, 2 * n as int);
        } else if row > 0 {
            lemma_rounded_mean(intra::pixel_sum(e.above->0, n), n as int);
        } else if col > 0 {
            lemma_rounded_mean(intra::pixel_sum(e.left->0, n), n as int);
        }
    }
}

/// The mean of three pixels, the middle one counted twice.
pub open spec fn mean_of_three(a: int, b: int, c: int) -> int {
    (a + 2 * b + c + 2) / 4
}

/// The mean of two pixels.
pub open spec fn mean_of_two(a: int, b: int) -> int {
    (a + b + 1) / 2
}

/// The pixels round a subblock, counted from the one at the corner: along the
/// top to the right, and down the left side for negative places. Past either
/// end the last pixel goes on.
pub open spec fn round_about(above: Seq<u8>, left: Seq<u8>, corner: u8, i: int) -> int {
    if i == 0 {
        corner as int
    } else if i > 8 {
        above[7] as int
    } else if i > 0 {
        above[i - 1] as int
    } else if i < -4 {
        left[3] as int
    } else {
        left[-i - 1] as int
    }
}

/// What a directional mode puts at row `r` and column `c` of a subblock: the
/// pixel, between or among those round the block, to which the direction of the
/// mode leads.
pub open spec fn led_to(
    mode: IntraBmode,
    above: Seq<u8>,
    left: Seq<u8>,
    corner: u8,
    r: int,
    c: int,
) -> int {
    let at = |i: int| round_about(above, left, corner, i);
    let three = |i: int| mean_of_three(at(i - 1), at(i), at(i + 1));
    let two = |i: int| mean_of_two(at(i), at(i + 1));
    match mode {
        IntraBmode::Ve => three(c + 1),
        IntraBmode::He => three(-r - 1),
        IntraBmode::Ld => three(r + c + 2),
        IntraBmode::Rd => three(c - r),
        IntraBmode::Vr => if 2 * c - r < -1 {
            three(2 * c - r + 1)
        } else if r % 2 == 0 {
            two(c - r / 2)
        } else {
            three(c - r / 2)
        },
        IntraBmode::Hd => if 2 * r - c < -1 {
            three(c - 2 * r - 1)
        } else if c % 2 == 0 {
            two(c / 2 - r - 1)
        } else {
            three(c / 2 - r)
        },
        IntraBmode::Vl => if c == 3 && r >= 2 {
            three(r + 4)
        } else if r % 2 == 0 {
            two(c + r / 2 + 1)
        } else {
            three(c + r / 2 + 2)
        },
        IntraBmode::Hu => if c + 2 * r >= 6 {
            left[3] as int
        } else if c % 2 == 0 {
            two(-(c / 2 + r) - 2)
        } else {
            three(-(c / 2 + r) - 2)
        },
        _ => 0,
    }
}

#[verifier::spinoff_prover]
#[verifier::rlimit(50)]
proof fn lemma_directions(
    mode: IntraBmode,
    above: Seq<u8>,
    left: Seq<u8>,
    corner: u8,
    r: int,
    c: int,
)
    requires
        above.len() == 8,
        left.len() == 4,
        0 <= r < 4,
        0 <= c < 4,
        !(mode is Dc) && !(mode is Tm),
    ensures
        intra::subblock_pixel(mode, above, left, corner, 4 * r + c) == led_to(
            mode,
            above,
            left,
            corner,
            r,
            c,
        ),
{
    let x = intra::around(above, left, corner);
    assert(forall|i: int| 0 <= i < 15 ==> #[trigger] x[i] == round_about(above, left, corner, i - 5));
    assert(r == 0 || r == 1 || r == 2 || r == 3);
    assert(c == 0 || c == 1 || c == 2 || c == 3);
}

proof fn lemma_sum_of_four(s: Seq<u8>)
    ensures
        intra::pixel_sum(s, 4) == s[0] + s[1] + s[2] + s[3],
{
    reveal_with_fuel(intra::pixel_sum, 5);
}

/// Every pixel of a subblock that is predicted in a direction is the mean of
/// the two or three pixels round the block to which that direction leads; the
/// other two modes take the mean of eight pixels, and the pixel above plus the
/// one to the left less the one at the corner.
pub proof fn law_subblock_is_predicted(
    mode: IntraBmode,
    above: Seq<u8>,
    left: Seq<u8>,
    corner: u8,
    r: int,
    c: int,
)
    requires
        above.len() == 8,
        left.len() == 4,
        0 <= r < 4,
        0 <= c < 4,
    ensures
        ({
            let p = intra::predicted_subblock(mode, above, left, corner);
            let v = p[4 * r + c] as int;
            &&& p.len() == 16
            &&& match mode {
                IntraBmode::Dc => is_mean(
                    v,
                    above[0] + above[1] + above[2] + above[3] + left[0] + left[1] + left[2]
                        + left[3],
                    8,
                ),
                IntraBmode::Tm => v == as_pixel(left[r] + above[c] - corner),
                _ => v == led_to(mode, above, left, corner, r, c),
            }
        }),
{
    reveal(intra::predicted_subblock);
    let k = 4 * r + c;
    assert(k / 4 == r && k % 4 == c);
    if mode is Dc {
        lemma_sum_of_four(above);
        lemma_sum_of_four(left);
        lemma_rounded_mean(
            above[0] + above[1] + above[2] + above[3] + left[0] + left[1] + left[2] + left[3],
            8,
        );
    } else if mode is Tm {
        assert(left[k / 4] == left[r] && above[k % 4] == above[c]);
    } else {
        lemma_directions(mode, above, left, corner, r, c);
    }
}

#[verifier::spinoff_prover]
#[verifier::rlimit(50)]
proof fn lemma_turned_over(above: Seq<u8>, left: Seq<u8>, corner: u8, more: Seq<u8>, r: int, c: int)
    requires
        above.len() == 8,
        left.len() == 4,
        more.len() == 4,
        0 <= r < 4,
        0 <= c < 4,
    ensures
        ({
            let over = above.take(4);
            let side = left + more;
            &&& led_to(IntraBmode::Rd, above, left, corner, r, c) == led_to(
                IntraBmode::Rd,
                side,
                over,
                corner,
                c,
                r,
            )
            &&& led_to(IntraBmode::Vr, above, left, corner, r, c) == led_to(
                IntraBmode::Hd,
                side,
                over,
                corner,
                c,
                r,
            )
        }),
{
    let over = above.take(4);
    let side = left + more;
    assert forall|i: int| -4 <= i <= 4 implies #[trigger] round_about(above, left, corner, i)
        == round_about(side, over, corner, -i) by {}
    assert(r == 0 || r == 1 || r == 2 || r == 3);
    assert(c == 0 || c == 1 || c == 2 || c == 3);
}

/// Turning a block over its diagonal turns the predictions that go down to the
/// right into each other.
pub proof fn law_predictions_turn_over(
    above: Seq<u8>,
    left: Seq<u8>,
    corner: u8,
    more: Seq<u8>,
    r: int,
    c: int,
)
    requires
        above.len() == 8,
        left.len() == 4,
        more.len() == 4,
        0 <= r < 4,
        0 <= c < 4,
    ensures
        intra::predicted_subblock(IntraBmode::Rd, above, left, corner)[4 * r + c]
            == intra::predicted_subblock(IntraBmode::Rd, left + more, above.take(4), corner)[4 * c
            + r],
        intra::predicted_subblock(IntraBmode::Vr, above, left, corner)[4 * r + c]
            == intra::predicted_subblock(IntraBmode::Hd, left + more, above.take(4), corner)[4 * c
            + r],
{
    let over = above.take(4);
    let side = left + more;
    law_subblock_is_predicted(IntraBmode::Rd, above, left, corner, r, c);
    law_subblock_is_predicted(IntraBmode::Vr, above, left, corner, r, c);
    law_subblock_is_predicted(IntraBmode::Rd, side, over, corner, c, r);
    law_subblock_is_predicted(IntraBmode::Hd, side, over, corner, c, r);
    lemma_turned_over(above, left, corner, more, r, c);
}

/// What stands round a macroblock before its first subblock is predicted: the
/// pixels above and to the left of it, and to the right of each row of
/// subblocks the four pixels above the macroblock and to the right. Past the
/// right side of the plane its last pixel goes on.
pub proof fn law_subblocks_see_the_plane(p: PlanesModel, cols: int, row: int, col: int, i: int)
    requires
        0 <= row,
        0 <= col < cols,
    ensures
        ({
            let stride = 16 * cols;
            let (x, y) = (16 * col, 16 * row);
            let work = reconstruct::work_area(
                neighbors::around_mb(p, stride, 8 * cols, cols, row, col),
            );
            &&& work.len() == 357
            &&& 0 <= i <= 16 ==> work[i] == seen(p.y, stride, x + i - 1, y - 1)
            &&& 0 <= i < 16 ==> work[21 * (i + 1)] == seen(p.y, stride, x - 1, y + i)
            &&& 0 <= i < 16 ==> work[84 * (i / 4) + 17 + i % 4] == if col + 1 < cols {
                seen(p.y, stride, x + 16 + i % 4, y - 1)
            } else {
                seen(p.y, stride, x + 15, y - 1)
            }
        }),
{
    reveal(reconstruct::work_area);
    let stride = 16 * cols;
    if 0 <= i < 16 {
        lemma_edge_places(p.y, stride, 16, row, col, i);
        let j = 21 * (i + 1);
        div_mod::lemma_fundamental_div_mod_converse(j, 21, i + 1, 0);
        let k = 84 * (i / 4) + 17 + i % 4;
        div_mod::lemma_fundamental_div_mod_converse(k, 21, 4 * (i / 4), 17 + i % 4);
        assert(4 * (i / 4) % 4 == 0 && 4 * (i / 4) <= 12);
        if row > 0 {
            assert((16 * row - 1) * stride == 16 * row * stride - stride) by (nonlinear_arith);
            assert((i % 4) * 0 == 0);
        }
    }
    if 1 <= i <= 16 {
        lemma_edge_places(p.y, stride, 16, row, col, i - 1);
    }
}

/// The 4x4 block in which row `r` and column `c` of a square stand.
pub open spec fn block_with(per_row: int, r: int, c: int) -> int {
    per_row * (r / 4) + c / 4
}

/// Row `r` and column `c` of a square, counted from the start of their block.
pub open spec fn place_in_block(r: int, c: int) -> int {
    4 * (r % 4) + c % 4
}

proof fn lemma_counted(per_row: int, r: int, c: int, a: int, h: int, b: int, d: int)
    requires
        r == 4 * a + h,
        c == 4 * b + d,
    ensures
        per_row == 4 ==> 64 * a + 4 * b + 16 * h + d == 16 * r + c,
        per_row == 2 ==> 32 * a + 4 * b + 8 * h + d == 8 * r + c,
{
}

/// Two ways to count to the same pixel.
pub proof fn lemma_same_pixel(per_row: int, r: int, c: int)
    requires
        exact_law::across(per_row),
        0 <= r < 4 * per_row,
        0 <= c < 4 * per_row,
    ensures
        ({
            let k = block_with(per_row, r, c);
            &&& 0 <= k < exact_law::blocks_in(per_row)
            &&& exact_law::row_pixel(exact_law::start_of(per_row, k), 4 * per_row, r % 4, c % 4) == 4
                * per_row * r + c
        }),
{
    reveal(exact_law::start_of);
    let k = block_with(per_row, r, c);
    let start = exact_law::start_of(per_row, k);
    if per_row == 4 {
        assert(k == 4 * (r / 4) + c / 4);
        assert(k / 4 == r / 4 && k % 4 == c / 4);
        assert(start == 64 * (r / 4) + 4 * (c / 4));
        assert((r % 4) * (4 * per_row) == 16 * (r % 4) && 4 * per_row * r == 16 * r)
            by (nonlinear_arith)
            requires
                per_row == 4,
        ;
        assert(r == 4 * (r / 4) + r % 4 && c == 4 * (c / 4) + c % 4);
        lemma_counted(4, r, c, r / 4, r % 4, c / 4, c % 4);
        assert(exact_law::row_pixel(start, 4 * per_row, r % 4, c % 4) == 16 * r + c);
        assert(0 <= k < 16);
    } else {
        assert(k == 2 * (r / 4) + c / 4);
        assert(k / 2 == r / 4 && k % 2 == c / 4);
        assert(start == 32 * (r / 4) + 4 * (c / 4));
        assert((r % 4) * (4 * per_row) == 8 * (r % 4) && 4 * per_row * r == 8 * r)
            by (nonlinear_arith)
            requires
                per_row == 2,
        ;
        assert(r == 4 * (r / 4) + r % 4 && c == 4 * (c / 4) + c % 4);
        lemma_counted(2, r, c, r / 4, r % 4, c / 4, c % 4);
        assert(exact_law::row_pixel(start, 4 * per_row, r % 4, c % 4) == 8 * r + c);
        assert(0 <= k < 4);
    }
}

/// A block of luma coefficients with its first one taken from the second order.
pub open spec fn with_first(y: Seq<i16>, first: i16) -> Seq<i16> {
    Seq::new(
        16,
        |i: int|
            if i == 0 {
                first
            } else {
                y[i]
            },
    )
}

/// Every luma pixel of an intra macroblock that is predicted as a whole is its
/// prediction from the pixels round the macroblock plus the residue of the block
/// it stands in.
pub proof fn law_whole_luma_is_predicted(
    p: PlanesModel,
    cols: int,
    row: int,
    col: int,
    y_mode: IntraYMode,
    b_modes: Seq<IntraBmode>,
    uv_mode: IntraUvMode,
    q: CoeffModel,
    r: int,
    c: int,
)
    requires
        0 <= row,
        0 <= col < cols,
        y_mode != IntraYMode::B,
        q.y.len() == 16,
        forall|k: int| 0 <= k < 16 ==> (#[trigger] q.y[k]).len() == 16,
        0 <= r < 16,
        0 <= c < 16,
    ensures
        ({
            let n = neighbors::around_mb(p, 16 * cols, 8 * cols, cols, row, col);
            let m = reconstruct::intra_macroblock(n, y_mode, b_modes, uv_mode, q);
            let k = block_with(4, r, c);
            let residue = inverse_transform::idct(
                with_first(q.y[k], inverse_transform::iwht(q.y2)[k]),
            )[place_in_block(r, c)];
            let mode = match y_mode {
                IntraYMode::V => IntraUvMode::V,
                IntraYMode::H => IntraUvMode::H,
                IntraYMode::Tm => IntraUvMode::Tm,
                _ => IntraUvMode::Dc,
            };
            exists|v: u8|
                #![trigger as_pixel(v + residue)]
                m.y[16 * r + c] == as_pixel(v + residue) && predicts(
                    v,
                    mode,
                    p.y,
                    16 * cols,
                    16,
                    16 * col,
                    16 * row,
                    r,
                    c,
                )
        }),
{
    let n = neighbors::around_mb(p, 16 * cols, 8 * cols, cols, row, col);
    let mode = intra::square_mode(y_mode);
    let square = reconstruct::square_from(mode, 16, n.y);
    let residues = reconstruct::luma_residues(true, q.y2, q.y);
    let k = block_with(4, r, c);
    law_square_is_predicted(mode, p.y, 16 * cols, 16, row, col, r, c);
    lemma_same_pixel(4, r, c);
    fidelity_law::lemma_residue_added(square, 4, residues, 16, k, r % 4, c % 4);
    assert(reconstruct::seeded(q.y[k], q.y2, k) =~= with_first(
        q.y[k],
        inverse_transform::iwht(q.y2)[k],
    ));
    let v = square[16 * r + c];
    let residue = inverse_transform::idct(
        with_first(q.y[k], inverse_transform::iwht(q.y2)[k]),
    )[place_in_block(r, c)];
    assert(inverse_transform::add_clamped(v, residue) == as_pixel(v + residue));
}

/// Every chroma pixel of an intra macroblock is its prediction from the pixels
/// round the macroblock plus the residue of the block it stands in.
pub proof fn law_chroma_is_predicted(
    p: PlanesModel,
    cols: int,
    row: int,
    col: int,
    y_mode: IntraYMode,
    b_modes: Seq<IntraBmode>,
    uv_mode: IntraUvMode,
    q: CoeffModel,
    r: int,
    c: int,
)
    requires
        0 <= row,
        0 <= col < cols,
        0 <= r < 8,
        0 <= c < 8,
    ensures
        ({
            let n = neighbors::around_mb(p, 16 * cols, 8 * cols, cols, row, col);
            let m = reconstruct::intra_macroblock(n, y_mode, b_modes, uv_mode, q);
            let k = block_with(2, r, c);
            let at = place_in_block(r, c);
            let u_residue = inverse_transform::idct(q.u[k])[at];
            let v_residue = inverse_transform::idct(q.v[k])[at];
            &&& exists|v: u8|
                #![trigger as_pixel(v + u_residue)]
                m.u[8 * r + c] == as_pixel(v + u_residue) && predicts(
                    v,
                    uv_mode,
                    p.u,
                    8 * cols,
                    8,
                    8 * col,
                    8 * row,
                    r,
                    c,
                )
            &&& exists|v: u8|
                #![trigger as_pixel(v + v_residue)]
                m.v[8 * r + c] == as_pixel(v + v_residue) && predicts(
                    v,
                    uv_mode,
                    p.v,
                    8 * cols,
                    8,
                    8 * col,
                    8 * row,
                    r,
                    c,
                )
        }),
{
    let n = neighbors::around_mb(p, 16 * cols, 8 * cols, cols, row, col);
    let k = block_with(2, r, c);
    let at = place_in_block(r, c);
    let us = reconstruct::square_from(uv_mode, 8, n.u);
    let vs = reconstruct::square_from(uv_mode, 8, n.v);
    law_square_is_predicted(uv_mode, p.u, 8 * cols, 8, row, col, r, c);
    law_square_is_predicted(uv_mode, p.v, 8 * cols, 8, row, col, r, c);
    lemma_same_pixel(2, r, c);
    fidelity_law::lemma_residue_added(
        us,
        2,
        reconstruct::chroma_residues(q.u),
        4,
        k,
        r % 4,
        c % 4,
    );
    fidelity_law::lemma_residue_added(
        vs,
        2,
        reconstruct::chroma_residues(q.v),
        4,
        k,
        r % 4,
        c % 4,
    );
    let a = us[8 * r + c];
    let b = vs[8 * r + c];
    let u_residue = inverse_transform::idct(q.u[k])[at];
    let v_residue = inverse_transform::idct(q.v[k])[at];
    assert(inverse_transform::add_clamped(a, u_residue) == as_pixel(a + u_residue));
    assert(inverse_transform::add_clamped(b, v_residue) == as_pixel(b + v_residue));
}

} // verus!
