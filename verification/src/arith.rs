//! Arithmetic helpers: floor division by shifting, clamping, narrowing.
use vstd::prelude::*;

verus! {

/// `floor(x / 2)`
pub fn shr1(x: i32) -> (r: i32)
    ensures
        r == x as int / 2,
{
    assert(x >> 1u32 == x / 2) by (bit_vector);
    x >> 1
}

/// `floor(x / 8)`
pub fn shr3(x: i32) -> (r: i32)
    ensures
        r == x as int / 8,
{
    assert((x >> 3) * 8 <= x && x < (x >> 3) * 8 + 8) by (bit_vector);
    x >> 3
}

/// `floor(x / 16)`
pub fn shr4(x: i32) -> (r: i32)
    ensures
        r == x as int / 16,
{
    assert((x >> 4) * 16 <= x && x < (x >> 4) * 16 + 16) by (bit_vector);
    x >> 4
}

/// `floor(x / 128)`
pub fn shr7(x: i32) -> (r: i32)
    ensures
        r == x as int / 128,
{
    assert((x >> 7) * 128 <= x && x < (x >> 7) * 128 + 128) by (bit_vector);
    x >> 7
}

/// `floor(x / 4096)`
pub fn shr12(x: i32) -> (r: i32)
    ensures
        r == x as int / 4096,
{
    assert((x >> 12) * 4096 <= x && x < (x >> 12) * 4096 + 4096) by (bit_vector);
    x >> 12
}

/// `floor(x / 65536)`
pub fn shr16(x: i64) -> (r: i64)
    ensures
        r == x as int / 65536,
{
    assert((x >> 16) * 65536 <= x && x < (x >> 16) * 65536 + 65536) by (bit_vector);
    x >> 16
}

/// `x` limited to `lo..=hi`.
pub open spec fn clamp_int(x: int, lo: int, hi: int) -> int {
    if x < lo {
        lo
    } else if x > hi {
        hi
    } else {
        x
    }
}

/// `x` limited to `lo..=hi`.
pub fn clamp_i32(x: i32, lo: i32, hi: i32) -> (r: i32)
    requires
        lo <= hi,
    ensures
        r == clamp_int(x as int, lo as int, hi as int),
{
    if x < lo {
        lo
    } else if x > hi {
        hi
    } else {
        x
    }
}

pub proof fn lemma_mul_le(a: int, b: int, c: int)
    requires
        a <= b,
        0 <= c,
    ensures
        a * c <= b * c,
{
    assert(a * c <= b * c) by (nonlinear_arith)
        requires
            a <= b,
            0 <= c,
    ;
}

pub proof fn lemma_mul_bound(a: int, b: int, x: int, y: int)
    requires
        0 <= a <= x,
        0 <= b <= y,
    ensures
        0 <= a * b <= x * y,
{
    assert(0 <= a * b <= x * y) by (nonlinear_arith)
        requires
            0 <= a <= x,
            0 <= b <= y,
    ;
}

/// Both factors of a product with something below it are positive.
pub proof fn lemma_factors_positive(k: int, a: int, b: int)
    requires
        0 <= k < a * b,
        0 <= a,
        0 <= b,
    ensures
        a > 0,
        b > 0,
{
    assert(a > 0 && b > 0) by (nonlinear_arith)
        requires
            0 <= k < a * b,
            0 <= a,
            0 <= b,
    ;
}

/// Element `k` of a table with `cols` columns and `rows` rows is in one of
/// them.
pub proof fn lemma_place(k: int, cols: int, rows: int)
    requires
        0 <= k < cols * rows,
        0 <= cols,
        0 <= rows,
    ensures
        cols > 0,
        rows > 0,
        0 <= k % cols < cols,
        0 <= k / cols < rows,
        k == (k / cols) * cols + k % cols,
{
    lemma_factors_positive(k, cols, rows);
    vstd::arithmetic::div_mod::lemma_fundamental_div_mod(k, cols);
    vstd::arithmetic::mul::lemma_mul_is_commutative(cols, k / cols);
    let r = k / cols;
    let c = k % cols;
    assert(0 <= r < rows) by (nonlinear_arith)
        requires
            k == r * cols + c,
            0 <= c < cols,
            0 <= k < cols * rows,
    ;
}

pub proof fn lemma_last_line(rows: int, stride: int)
    ensures
        (rows - 1) * stride + stride == rows * stride,
{
    assert((rows - 1) * stride + stride == rows * stride) by (nonlinear_arith);
}

pub proof fn lemma_quotient_bound(a: int, b: int)
    requires
        a >= 0,
        b > 0,
    ensures
        0 <= a / b <= a,
{
    assert(0 <= a / b <= a) by (nonlinear_arith)
        requires
            a >= 0,
            b > 0,
    ;
}

/// A number divided by a step, rounded, is at most half a step off.
pub proof fn lemma_rounding(a: int, b: int)
    requires
        a >= 0,
        b > 0,
    ensures
        -b <= 2 * (a - b * ((a + b / 2) / b)) <= b,
{
    let n = a + b / 2;
    let q = n / b;
    vstd::arithmetic::div_mod::lemma_fundamental_div_mod(n, b);
    assert(n == b * q + n % b);
    assert(0 <= n % b < b);
}

/// A number is at least its remainder.
pub proof fn lemma_remainder_bound(n: int, d: int)
    requires
        n >= 0,
        d > 0,
    ensures
        0 <= n % d <= n,
        n % d < d,
{
    assert(n % d <= n) by (nonlinear_arith)
        requires
            n >= 0,
            d > 0,
    ;
}

} // verus!
