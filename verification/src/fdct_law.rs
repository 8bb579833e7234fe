//! The inverse transforms undo the forward transforms of [`crate::fdct`].
use crate::fdct;
use crate::inverse_law;
use crate::inverse_transform;
use vstd::prelude::*;

verus! {

/// Sixteen values, none of them larger than `n`.
pub open spec fn small_values(s: Seq<i32>, n: int) -> bool {
    &&& s.len() == 16
    &&& forall|i: int| 0 <= i < 16 ==> -n <= #[trigger] s[i] <= n
}

/// A block is nowhere more than `n` off the values.
pub open spec fn near_values(b: Seq<i16>, s: Seq<i32>, n: int) -> bool {
    &&& b.len() == 16
    &&& forall|i: int| 0 <= i < 16 ==> -n <= #[trigger] b[i] - #[trigger] s[i] <= n
}

/// The Walsh-Hadamard transform as a block.
pub open spec fn wht_block(s: Seq<i32>) -> Seq<i16> {
    Seq::new(16, |i: int| fdct::wht_at(s, i) as i16)
}

/// The cosine transform as a block.
pub open spec fn dct_block(s: Seq<i32>) -> Seq<i16> {
    Seq::new(16, |i: int| fdct::dct_at(s, i) as i16)
}

/// An inverse pass of the Walsh-Hadamard transform over a column that was
/// coded.
proof fn lemma_wht_column(t0: int, t1: int, t2: int, t3: int, r: int)
    requires
        0 <= r < 4,
    ensures
        ({
            let w = inverse_transform::iwht_pass(
                fdct::wht_column(t0, t1, t2, t3, 0),
                fdct::wht_column(t0, t1, t2, t3, 1),
                fdct::wht_column(t0, t1, t2, t3, 2),
                fdct::wht_column(t0, t1, t2, t3, 3),
                r,
            );
            -4 <= 2 * w - inverse_law::one_of(t0, t1, t2, t3, r) <= 4
        }),
{
    reveal(fdct::wht_column);
}

/// An inverse pass of the Walsh-Hadamard transform over a row.
proof fn lemma_wht_row(s: (int, int, int, int), w: (int, int, int, int), k: int)
    requires
        0 <= k < 4,
        -4 <= 2 * w.0 - fdct::wht_row(s.0, s.1, s.2, s.3, 0) <= 4,
        -4 <= 2 * w.1 - fdct::wht_row(s.0, s.1, s.2, s.3, 1) <= 4,
        -4 <= 2 * w.2 - fdct::wht_row(s.0, s.1, s.2, s.3, 2) <= 4,
        -4 <= 2 * w.3 - fdct::wht_row(s.0, s.1, s.2, s.3, 3) <= 4,
    ensures
        -8 <= inverse_transform::iwht_pass(w.0, w.1, w.2, w.3, k) - 8 * inverse_law::one_of(
            s.0,
            s.1,
            s.2,
            s.3,
            k,
        ) <= 8,
{
    reveal(fdct::wht_row);
}

proof fn lemma_wht_mid_bound(s: Seq<i32>, p: int, j: int)
    requires
        small_values(s, 4000),
        0 <= p < 4,
        0 <= j < 4,
    ensures
        -64001 <= fdct::wht_mid(s, p, j) <= 64001,
{
    reveal(fdct::wht_row);
    assert(-4000 <= s[4 * p] <= 4000 && -4000 <= s[4 * p + 1] <= 4000);
    assert(-4000 <= s[4 * p + 2] <= 4000 && -4000 <= s[4 * p + 3] <= 4000);
}

proof fn lemma_wht_coeff(s: Seq<i32>, r: int, j: int)
    requires
        small_values(s, 4000),
        0 <= r < 4,
        0 <= j < 4,
    ensures
        wht_block(s)[4 * r + j] == fdct::wht_column(
            fdct::wht_mid(s, 0, j),
            fdct::wht_mid(s, 1, j),
            fdct::wht_mid(s, 2, j),
            fdct::wht_mid(s, 3, j),
            r,
        ),
{
    lemma_wht_mid_bound(s, 0, j);
    lemma_wht_mid_bound(s, 1, j);
    lemma_wht_mid_bound(s, 2, j);
    lemma_wht_mid_bound(s, 3, j);
    reveal(fdct::wht_column);
    let i = 4 * r + j;
    assert(i / 4 == r && i % 4 == j);
}

proof fn lemma_wht_down(s: Seq<i32>, r: int, j: int)
    requires
        small_values(s, 4000),
        0 <= r < 4,
        0 <= j < 4,
    ensures
        -4 <= 2 * inverse_transform::iwht_mid(wht_block(s), r, j) - fdct::wht_mid(s, r, j) <= 4,
{
    lemma_wht_coeff(s, 0, j);
    lemma_wht_coeff(s, 1, j);
    lemma_wht_coeff(s, 2, j);
    lemma_wht_coeff(s, 3, j);
    lemma_wht_column(
        fdct::wht_mid(s, 0, j),
        fdct::wht_mid(s, 1, j),
        fdct::wht_mid(s, 2, j),
        fdct::wht_mid(s, 3, j),
        r,
    );
}

/// The inverse Walsh-Hadamard transform gives back what the forward one was
/// made of, to within one.
pub proof fn law_fwht_is_undone(s: Seq<i32>)
    requires
        small_values(s, 4000),
    ensures
        near_values(inverse_transform::iwht(wht_block(s)), s, 1),
{
    let c = wht_block(s);
    let t = inverse_transform::iwht(c);
    assert forall|i: int| 0 <= i < 16 implies -1 <= #[trigger] t[i] - #[trigger] s[i] <= 1 by {
        let r = i / 4;
        lemma_wht_down(s, r, 0);
        lemma_wht_down(s, r, 1);
        lemma_wht_down(s, r, 2);
        lemma_wht_down(s, r, 3);
        lemma_wht_row(
            (
                s[4 * r] as int,
                s[4 * r + 1] as int,
                s[4 * r + 2] as int,
                s[4 * r + 3] as int,
            ),
            (
                inverse_transform::iwht_mid(c, r, 0),
                inverse_transform::iwht_mid(c, r, 1),
                inverse_transform::iwht_mid(c, r, 2),
                inverse_transform::iwht_mid(c, r, 3),
            ),
            i % 4,
        );
        assert(-4000 <= s[i] <= 4000);
    }
}

/// A column pass before it is rounded, times 4096.
#[verifier::opaque]
spec fn column_form(a: int, b: int, c: int, d: int, k: int) -> int {
    if k == 0 {
        32768 * a + 32768 * b + 32768 * c + 32768 * d
    } else if k == 1 {
        42816 * a + 17736 * b - 17736 * c - 42816 * d
    } else if k == 2 {
        32768 * a - 32768 * b - 32768 * c + 32768 * d
    } else {
        17736 * a - 42816 * b + 42816 * c - 17736 * d
    }
}

/// A row pass before it is rounded, times 65536.
#[verifier::opaque]
spec fn row_form(a: int, b: int, c: int, d: int, k: int) -> int {
    if k == 0 {
        4096 * a + 4096 * b + 4096 * c + 4096 * d
    } else if k == 1 {
        5352 * a + 2217 * b - 2217 * c - 5352 * d
    } else if k == 2 {
        4096 * a - 4096 * b - 4096 * c + 4096 * d
    } else {
        2217 * a - 5352 * b + 5352 * c - 2217 * d
    }
}

proof fn lemma_column_pass(a: int, b: int, c: int, d: int)
    ensures
        4096 * fdct::dct_column(a, b, c, d, 0) == column_form(a, b, c, d, 0),
        10405 <= 4096 * fdct::dct_column(a, b, c, d, 1) - column_form(a, b, c, d, 1) <= 14500,
        4096 * fdct::dct_column(a, b, c, d, 2) == column_form(a, b, c, d, 2),
        3405 <= 4096 * fdct::dct_column(a, b, c, d, 3) - column_form(a, b, c, d, 3) <= 7500,
{
    reveal(column_form);
    reveal(fdct::dct_column);
}

proof fn lemma_row_pass(a: int, b: int, c: int, d: int)
    ensures
        -32768 <= 65536 * fdct::dct_row(a, b, c, d, 0) - row_form(a, b, c, d, 0) <= 28672,
        -53535 <= 65536 * fdct::dct_row(a, b, c, d, 1) - row_form(a, b, c, d, 1) <= 77536,
        -32768 <= 65536 * fdct::dct_row(a, b, c, d, 2) - row_form(a, b, c, d, 2) <= 28672,
        -14535 <= 65536 * fdct::dct_row(a, b, c, d, 3) - row_form(a, b, c, d, 3) <= 51000,
{
    reveal(row_form);
    reveal(fdct::dct_row);
}

/// The inverse form of row forms multiplies by almost a power of two.
proof fn lemma_row_forms(a: int, b: int, c: int, d: int, n: int, k: int)
    requires
        0 <= k < 4,
        -n <= a <= n,
        -n <= b <= n,
        -n <= c <= n,
        -n <= d <= n,
    ensures
        ({
            let v = inverse_law::inverse_form(
                row_form(a, b, c, d, 0),
                row_form(a, b, c, d, 1),
                row_form(a, b, c, d, 2),
                row_form(a, b, c, d, 3),
                k,
            );
            let x = inverse_law::one_of(a, b, c, d, k);
            -95342 * n <= v - 0x4000_0000 * x <= 95342 * n
        }),
{
    reveal(row_form);
    reveal(inverse_law::inverse_form);
}

/// The same of column forms.
proof fn lemma_column_forms(a: int, b: int, c: int, d: int, n: int, k: int)
    requires
        0 <= k < 4,
        -n <= a <= n,
        -n <= b <= n,
        -n <= c <= n,
        -n <= d <= n,
    ensures
        ({
            let v = inverse_law::inverse_form(
                column_form(a, b, c, d, 0),
                column_form(a, b, c, d, 1),
                column_form(a, b, c, d, 2),
                column_form(a, b, c, d, 3),
                k,
            );
            let x = inverse_law::one_of(a, b, c, d, k);
            -762736 * n <= v - 0x2_0000_0000 * x <= 762736 * n
        }),
{
    reveal(column_form);
    reveal(inverse_law::inverse_form);
}

/// What the rounding of a row can take away from its inverse form.
spec fn least_off(k: int) -> int {
    if k == 0 {
        -155230
    } else if k == 1 {
        -168930
    } else if k == 2 {
        -134275
    } else {
        -206325
    }
}

/// What the rounding of a row can add to its inverse form.
spec fn most_off(k: int) -> int {
    if k == 0 {
        198135
    } else if k == 1 {
        134275
    } else if k == 2 {
        168930
    } else {
        147040
    }
}

/// The inverse form of coefficients that are rounded from row forms `f`, where
/// that of the row forms is almost `x`.
proof fn lemma_rounded_row(c: (int, int, int, int), f: (int, int, int, int), x: int, k: int)
    requires
        0 <= k < 4,
        -32768 <= 65536 * c.0 - f.0 <= 28672,
        -53535 <= 65536 * c.1 - f.1 <= 77536,
        -32768 <= 65536 * c.2 - f.2 <= 28672,
        -14535 <= 65536 * c.3 - f.3 <= 51000,
        -778276746 <= inverse_law::inverse_form(f.0, f.1, f.2, f.3, k) - 0x4000_0000 * x
            <= 778276746,
    ensures
        least_off(k) <= inverse_law::inverse_form(c.0, c.1, c.2, c.3, k) - 16384 * x <= most_off(k),
{
    reveal(inverse_law::inverse_form);
}

/// The inverse form of coefficients that four values led to.
proof fn lemma_dct_across(m: (int, int, int, int), k: int)
    requires
        0 <= k < 4,
        -8163 <= m.0 <= 8163,
        -8163 <= m.1 <= 8163,
        -8163 <= m.2 <= 8163,
        -8163 <= m.3 <= 8163,
    ensures
        ({
            let x = inverse_law::inverse_form(
                fdct::dct_row(m.0, m.1, m.2, m.3, 0),
                fdct::dct_row(m.0, m.1, m.2, m.3, 1),
                fdct::dct_row(m.0, m.1, m.2, m.3, 2),
                fdct::dct_row(m.0, m.1, m.2, m.3, 3),
                k,
            );
            least_off(k) <= x - 16384 * inverse_law::one_of(m.0, m.1, m.2, m.3, k) <= most_off(k)
        }),
{
    lemma_row_pass(m.0, m.1, m.2, m.3);
    lemma_row_forms(m.0, m.1, m.2, m.3, 8163, k);
    lemma_rounded_row(
        (
            fdct::dct_row(m.0, m.1, m.2, m.3, 0),
            fdct::dct_row(m.0, m.1, m.2, m.3, 1),
            fdct::dct_row(m.0, m.1, m.2, m.3, 2),
            fdct::dct_row(m.0, m.1, m.2, m.3, 3),
        ),
        (
            row_form(m.0, m.1, m.2, m.3, 0),
            row_form(m.0, m.1, m.2, m.3, 1),
            row_form(m.0, m.1, m.2, m.3, 2),
            row_form(m.0, m.1, m.2, m.3, 3),
        ),
        inverse_law::one_of(m.0, m.1, m.2, m.3, k),
        k,
    );
}

/// A pixel, from the inverse forms of the rows: `f` are the inverse forms of
/// the columns, `w` what their passes give, `out` what the last pass gives.
proof fn lemma_dct_end(
    s: (int, int, int, int),
    x: (int, int, int, int),
    f: (int, int, int, int),
    w: (int, int, int, int),
    out: int,
    r: int,
    k: int,
)
    requires
        0 <= k < 4,
        0 <= r < 4,
        -255 <= s.0 <= 255,
        -255 <= s.1 <= 255,
        -255 <= s.2 <= 255,
        -255 <= s.3 <= 255,
        least_off(k) <= x.0 - 16384 * fdct::dct_column(s.0, s.1, s.2, s.3, 0) <= most_off(k),
        least_off(k) <= x.1 - 16384 * fdct::dct_column(s.0, s.1, s.2, s.3, 1) <= most_off(k),
        least_off(k) <= x.2 - 16384 * fdct::dct_column(s.0, s.1, s.2, s.3, 2) <= most_off(k),
        least_off(k) <= x.3 - 16384 * fdct::dct_column(s.0, s.1, s.2, s.3, 3) <= most_off(k),
        inverse_law::inverse_form(f.0, f.1, f.2, f.3, k) == inverse_law::inverse_form(
            x.0,
            x.1,
            x.2,
            x.3,
            r,
        ),
        -inverse_law::short_by(r) <= 65536 * w.0 - f.0 <= inverse_law::short_by(3 - r),
        -inverse_law::short_by(r) <= 65536 * w.1 - f.1 <= inverse_law::short_by(3 - r),
        -inverse_law::short_by(r) <= 65536 * w.2 - f.2 <= inverse_law::short_by(3 - r),
        -inverse_law::short_by(r) <= 65536 * w.3 - f.3 <= inverse_law::short_by(3 - r),
        -inverse_law::short_by(k) <= 65536 * out - inverse_law::inverse_form(
            w.0,
            w.1,
            w.2,
            w.3,
            k,
        ) <= inverse_law::short_by(3 - k),
    ensures
        -20 <= out - 8 * inverse_law::one_of(s.0, s.1, s.2, s.3, r) <= 19,
{
    lemma_column_pass(s.0, s.1, s.2, s.3);
    lemma_column_forms(s.0, s.1, s.2, s.3, 255, r);
    reveal(inverse_law::inverse_form);
    assert(k == 0 || k == 1 || k == 2 || k == 3);
    assert(r == 0 || r == 1 || r == 2 || r == 3);
}

proof fn lemma_dct_mid_bound(s: Seq<i32>, p: int, j: int)
    requires
        small_values(s, 255),
        0 <= p < 4,
        0 <= j < 4,
    ensures
        -8163 <= fdct::dct_mid(s, p, j) <= 8163,
{
    reveal(fdct::dct_column);
    assert(-255 <= s[j] <= 255 && -255 <= s[4 + j] <= 255);
    assert(-255 <= s[8 + j] <= 255 && -255 <= s[12 + j] <= 255);
}

proof fn lemma_dct_coeff(s: Seq<i32>, p: int, j: int)
    requires
        small_values(s, 255),
        0 <= p < 4,
        0 <= j < 4,
    ensures
        dct_block(s)[4 * p + j] == fdct::dct_row(
            fdct::dct_mid(s, p, 0),
            fdct::dct_mid(s, p, 1),
            fdct::dct_mid(s, p, 2),
            fdct::dct_mid(s, p, 3),
            j,
        ),
{
    lemma_dct_mid_bound(s, p, 0);
    lemma_dct_mid_bound(s, p, 1);
    lemma_dct_mid_bound(s, p, 2);
    lemma_dct_mid_bound(s, p, 3);
    reveal(fdct::dct_row);
    let i = 4 * p + j;
    assert(i / 4 == p && i % 4 == j);
}

proof fn lemma_dct_row(s: Seq<i32>, p: int, k: int)
    requires
        small_values(s, 255),
        0 <= p < 4,
        0 <= k < 4,
    ensures
        least_off(k) <= inverse_law::across_dct(dct_block(s), p, k) - 16384 * fdct::dct_mid(s, p, k)
            <= most_off(k),
{
    lemma_dct_mid_bound(s, p, 0);
    lemma_dct_mid_bound(s, p, 1);
    lemma_dct_mid_bound(s, p, 2);
    lemma_dct_mid_bound(s, p, 3);
    lemma_dct_coeff(s, p, 0);
    lemma_dct_coeff(s, p, 1);
    lemma_dct_coeff(s, p, 2);
    lemma_dct_coeff(s, p, 3);
    lemma_dct_across(
        (
            fdct::dct_mid(s, p, 0),
            fdct::dct_mid(s, p, 1),
            fdct::dct_mid(s, p, 2),
            fdct::dct_mid(s, p, 3),
        ),
        k,
    );
}

proof fn lemma_dct_pixel(s: Seq<i32>, r: int, k: int)
    requires
        small_values(s, 255),
        0 <= r < 4,
        0 <= k < 4,
    ensures
        -2 <= inverse_transform::idct(dct_block(s))[4 * r + k] - s[4 * r + k] <= 2,
{
    let c = dct_block(s);
    let w0 = inverse_transform::idct_mid(c, r, 0);
    let w1 = inverse_transform::idct_mid(c, r, 1);
    let w2 = inverse_transform::idct_mid(c, r, 2);
    let w3 = inverse_transform::idct_mid(c, r, 3);
    lemma_dct_row(s, 0, k);
    lemma_dct_row(s, 1, k);
    lemma_dct_row(s, 2, k);
    lemma_dct_row(s, 3, k);
    inverse_law::lemma_dct_swap(c, r, k);
    inverse_law::lemma_inverse_pass(c[0] as int, c[4] as int, c[8] as int, c[12] as int, r);
    inverse_law::lemma_inverse_pass(c[1] as int, c[5] as int, c[9] as int, c[13] as int, r);
    inverse_law::lemma_inverse_pass(c[2] as int, c[6] as int, c[10] as int, c[14] as int, r);
    inverse_law::lemma_inverse_pass(c[3] as int, c[7] as int, c[11] as int, c[15] as int, r);
    inverse_law::lemma_inverse_pass(w0, w1, w2, w3, k);
    lemma_dct_end(
        (s[k] as int, s[4 + k] as int, s[8 + k] as int, s[12 + k] as int),
        (
            inverse_law::across_dct(c, 0, k),
            inverse_law::across_dct(c, 1, k),
            inverse_law::across_dct(c, 2, k),
            inverse_law::across_dct(c, 3, k),
        ),
        (
            inverse_law::down_dct(c, 0, r),
            inverse_law::down_dct(c, 1, r),
            inverse_law::down_dct(c, 2, r),
            inverse_law::down_dct(c, 3, r),
        ),
        (w0, w1, w2, w3),
        inverse_transform::idct_pass(w0, w1, w2, w3, k),
        r,
        k,
    );
    let i = 4 * r + k;
    assert(i / 4 == r && i % 4 == k);
    assert(-255 <= s[i] <= 255);
}

/// The inverse cosine transform gives back the differences of pixels that the
/// forward one was made of, to within two.
pub proof fn law_fdct_is_undone(s: Seq<i32>)
    requires
        small_values(s, 255),
    ensures
        near_values(inverse_transform::idct(dct_block(s)), s, 2),
{
    let t = inverse_transform::idct(dct_block(s));
    assert forall|i: int| 0 <= i < 16 implies -2 <= #[trigger] t[i] - #[trigger] s[i] <= 2 by {
        lemma_dct_pixel(s, i / 4, i % 4);
        assert(i == 4 * (i / 4) + i % 4);
    }
}

} // verus!
