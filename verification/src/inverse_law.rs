//! The forward and inverse transforms undo each other.
use crate::forward_transform;
use crate::inverse_transform;
use crate::reach_law;
use vstd::prelude::*;

verus! {

/// Sixteen values, none of them larger than `n`.
pub open spec fn small_block(s: Seq<i16>, n: int) -> bool {
    &&& s.len() == 16
    &&& forall|i: int| 0 <= i < 16 ==> -n <= #[trigger] s[i] <= n
}

/// Two blocks that differ by at most `n` anywhere.
pub open spec fn near(a: Seq<i16>, b: Seq<i16>, n: int) -> bool {
    &&& a.len() == 16
    &&& b.len() == 16
    &&& forall|i: int| 0 <= i < 16 ==> -n <= #[trigger] a[i] - #[trigger] b[i] <= n
}

proof fn lemma_halved(v: int)
    requires
        -65520 <= v <= 65520,
    ensures
        v - 1 <= 2 * forward_transform::halved(v) <= v + 1,
        v % 2 == 0 ==> 2 * forward_transform::halved(v) == v,
{
}

/// Four values after a forward pass of the Walsh-Hadamard transform.
proof fn lemma_wht_forward(a: int, b: int, c: int, d: int)
    ensures
        forward_transform::fwht_pass(a, b, c, d, 0) == a + b + c + d,
        forward_transform::fwht_pass(a, b, c, d, 1) == a + b - c - d,
        forward_transform::fwht_pass(a, b, c, d, 2) == a - b - c + d,
        forward_transform::fwht_pass(a, b, c, d, 3) == a - b + c - d,
{
    reveal(forward_transform::fwht_pass);
}

/// Coefficient `i` of the Walsh-Hadamard transform, up to rounding.
proof fn lemma_wht_coeff(s: Seq<i16>, i: int)
    requires
        small_block(s, 4095),
        0 <= i < 16,
    ensures
        ({
            let v = forward_transform::fwht_pass(
                forward_transform::fwht_mid(s, i / 4, 0),
                forward_transform::fwht_mid(s, i / 4, 1),
                forward_transform::fwht_mid(s, i / 4, 2),
                forward_transform::fwht_mid(s, i / 4, 3),
                i % 4,
            );
            v - 1 <= 2 * forward_transform::fwht(s)[i] <= v + 1
        }),
{
    let r = i / 4;
    let m0 = forward_transform::fwht_mid(s, r, 0);
    let m1 = forward_transform::fwht_mid(s, r, 1);
    let m2 = forward_transform::fwht_mid(s, r, 2);
    let m3 = forward_transform::fwht_mid(s, r, 3);
    lemma_wht_forward(s[0] as int, s[4] as int, s[8] as int, s[12] as int);
    lemma_wht_forward(s[1] as int, s[5] as int, s[9] as int, s[13] as int);
    lemma_wht_forward(s[2] as int, s[6] as int, s[10] as int, s[14] as int);
    lemma_wht_forward(s[3] as int, s[7] as int, s[11] as int, s[15] as int);
    assert(-16380 <= m0 <= 16380);
    assert(-16380 <= m1 <= 16380);
    assert(-16380 <= m2 <= 16380);
    assert(-16380 <= m3 <= 16380);
    lemma_wht_forward(m0, m1, m2, m3);
    lemma_halved(forward_transform::fwht_pass(m0, m1, m2, m3, i % 4));
}

/// An inverse pass of the Walsh-Hadamard transform, after a forward one that
/// was halved.
proof fn lemma_wht_undone(
    a: int,
    b: int,
    c: int,
    d: int,
    w0: int,
    w1: int,
    w2: int,
    w3: int,
    off: int,
    k: int,
)
    requires
        0 <= k < 4,
        forward_transform::fwht_pass(a, b, c, d, 0) - off <= 2 * w0,
        2 * w0 <= forward_transform::fwht_pass(a, b, c, d, 0) + off,
        forward_transform::fwht_pass(a, b, c, d, 1) - off <= 2 * w1,
        2 * w1 <= forward_transform::fwht_pass(a, b, c, d, 1) + off,
        forward_transform::fwht_pass(a, b, c, d, 2) - off <= 2 * w2,
        2 * w2 <= forward_transform::fwht_pass(a, b, c, d, 2) + off,
        forward_transform::fwht_pass(a, b, c, d, 3) - off <= 2 * w3,
        2 * w3 <= forward_transform::fwht_pass(a, b, c, d, 3) + off,
    ensures
        ({
            let x = if k == 0 {
                a
            } else if k == 1 {
                b
            } else if k == 2 {
                c
            } else {
                d
            };
            let v = inverse_transform::iwht_pass(w0, w1, w2, w3, k);
            4 * x - 4 * off <= 2 * v <= 4 * x + 4 * off
        }),
{
    lemma_wht_forward(a, b, c, d);
}

/// An inverse pass over row `p` of a block.
spec fn across_wht(c: Seq<i16>, p: int, k: int) -> int {
    inverse_transform::iwht_pass(
        c[4 * p] as int,
        c[4 * p + 1] as int,
        c[4 * p + 2] as int,
        c[4 * p + 3] as int,
        k,
    )
}

proof fn lemma_wht_across(s: Seq<i16>, p: int, k: int)
    requires
        small_block(s, 4095),
        0 <= p < 4,
        0 <= k < 4,
    ensures
        ({
            let x = across_wht(forward_transform::fwht(s), p, k);
            let m = forward_transform::fwht_mid(s, p, k);
            4 * m - 4 <= 2 * x <= 4 * m + 4
        }),
{
    let c = forward_transform::fwht(s);
    lemma_wht_coeff(s, 4 * p);
    lemma_wht_coeff(s, 4 * p + 1);
    lemma_wht_coeff(s, 4 * p + 2);
    lemma_wht_coeff(s, 4 * p + 3);
    lemma_wht_undone(
        forward_transform::fwht_mid(s, p, 0),
        forward_transform::fwht_mid(s, p, 1),
        forward_transform::fwht_mid(s, p, 2),
        forward_transform::fwht_mid(s, p, 3),
        c[4 * p] as int,
        c[4 * p + 1] as int,
        c[4 * p + 2] as int,
        c[4 * p + 3] as int,
        1,
        k,
    );
}

/// An inverse pass down the columns, after one along the rows.
#[verifier::opaque]
spec fn wht_total(c: Seq<i16>, r: int, k: int) -> int {
    inverse_transform::iwht_pass(
        across_wht(c, 0, k),
        across_wht(c, 1, k),
        across_wht(c, 2, k),
        across_wht(c, 3, k),
        r,
    )
}

/// The two inverse passes can be taken in either order.
proof fn lemma_wht_swap(c: Seq<i16>, r: int, k: int)
    requires
        0 <= r < 4,
        0 <= k < 4,
    ensures
        inverse_transform::iwht_pass(
            inverse_transform::iwht_mid(c, r, 0),
            inverse_transform::iwht_mid(c, r, 1),
            inverse_transform::iwht_mid(c, r, 2),
            inverse_transform::iwht_mid(c, r, 3),
            k,
        ) == wht_total(c, r, k),
{
    reveal(wht_total);
}

proof fn lemma_wht_total(s: Seq<i16>, r: int, k: int)
    requires
        small_block(s, 4095),
        0 <= r < 4,
        0 <= k < 4,
    ensures
        -8 <= wht_total(forward_transform::fwht(s), r, k) - 8 * s[4 * r + k] <= 8,
{
    reveal(wht_total);
    let c = forward_transform::fwht(s);
    lemma_wht_across(s, 0, k);
    lemma_wht_across(s, 1, k);
    lemma_wht_across(s, 2, k);
    lemma_wht_across(s, 3, k);
    lemma_wht_forward(s[k] as int, s[4 + k] as int, s[8 + k] as int, s[12 + k] as int);
    lemma_wht_forward(4 * s[k], 4 * s[4 + k], 4 * s[8 + k], 4 * s[12 + k]);
    lemma_wht_undone(
        4 * s[k],
        4 * s[4 + k],
        4 * s[8 + k],
        4 * s[12 + k],
        across_wht(c, 0, k),
        across_wht(c, 1, k),
        across_wht(c, 2, k),
        across_wht(c, 3, k),
        4,
        r,
    );
}

proof fn lemma_wht_pixel(s: Seq<i16>, r: int, k: int)
    requires
        small_block(s, 4095),
        0 <= r < 4,
        0 <= k < 4,
    ensures
        -1 <= inverse_transform::iwht(forward_transform::fwht(s))[4 * r + k] - s[4 * r + k] <= 1,
{
    let c = forward_transform::fwht(s);
    lemma_wht_total(s, r, k);
    lemma_wht_swap(c, r, k);
    let i = 4 * r + k;
    assert(i / 4 == r && i % 4 == k);
    assert(inverse_transform::iwht(c)[i] == ((wht_total(c, r, k) + 3) / 8) as i16);
}

/// The inverse Walsh-Hadamard transform gives back what the forward one was
/// made of, to within one.
pub proof fn law_wht_is_undone(s: Seq<i16>)
    requires
        small_block(s, 4095),
    ensures
        near(inverse_transform::iwht(forward_transform::fwht(s)), s, 1),
{
    let t = inverse_transform::iwht(forward_transform::fwht(s));
    assert forall|i: int| 0 <= i < 16 implies -1 <= #[trigger] t[i] - #[trigger] s[i] <= 1 by {
        lemma_wht_pixel(s, i / 4, i % 4);
        assert(i == 4 * (i / 4) + i % 4);
    }
}

/// Sum of the sixteen values of a block.
pub open spec fn block_sum(s: Seq<i16>) -> int {
    (s[0] + s[4] + s[8] + s[12]) + (s[1] + s[5] + s[9] + s[13]) + (s[2] + s[6] + s[10] + s[14]) + (
    s[3] + s[7] + s[11] + s[15])
}

proof fn lemma_pass_parity(a: int, b: int, c: int, d: int, k: int)
    requires
        0 <= k < 4,
    ensures
        (forward_transform::fwht_pass(a, b, c, d, k) - (a + b + c + d)) % 2 == 0,
{
    lemma_wht_forward(a, b, c, d);
    if k == 1 {
        assert(forward_transform::fwht_pass(a, b, c, d, k) - (a + b + c + d) == 2 * (-c - d));
    } else if k == 2 {
        assert(forward_transform::fwht_pass(a, b, c, d, k) - (a + b + c + d) == 2 * (-b - c));
    } else if k == 3 {
        assert(forward_transform::fwht_pass(a, b, c, d, k) - (a + b + c + d) == 2 * (-b - d));
    }
}

/// Where the sum of the block is even, no coefficient is rounded.
proof fn lemma_even_coeff(s: Seq<i16>, i: int)
    requires
        small_block(s, 4095),
        block_sum(s) % 2 == 0,
        0 <= i < 16,
    ensures
        2 * forward_transform::fwht(s)[i] == forward_transform::fwht_pass(
            forward_transform::fwht_mid(s, i / 4, 0),
            forward_transform::fwht_mid(s, i / 4, 1),
            forward_transform::fwht_mid(s, i / 4, 2),
            forward_transform::fwht_mid(s, i / 4, 3),
            i % 4,
        ),
{
    let r = i / 4;
    let m0 = forward_transform::fwht_mid(s, r, 0);
    let m1 = forward_transform::fwht_mid(s, r, 1);
    let m2 = forward_transform::fwht_mid(s, r, 2);
    let m3 = forward_transform::fwht_mid(s, r, 3);
    let v = forward_transform::fwht_pass(m0, m1, m2, m3, i % 4);
    lemma_pass_parity(s[0] as int, s[4] as int, s[8] as int, s[12] as int, r);
    lemma_pass_parity(s[1] as int, s[5] as int, s[9] as int, s[13] as int, r);
    lemma_pass_parity(s[2] as int, s[6] as int, s[10] as int, s[14] as int, r);
    lemma_pass_parity(s[3] as int, s[7] as int, s[11] as int, s[15] as int, r);
    lemma_pass_parity(m0, m1, m2, m3, i % 4);
    assert(v % 2 == 0);
    lemma_wht_forward(s[0] as int, s[4] as int, s[8] as int, s[12] as int);
    lemma_wht_forward(s[1] as int, s[5] as int, s[9] as int, s[13] as int);
    lemma_wht_forward(s[2] as int, s[6] as int, s[10] as int, s[14] as int);
    lemma_wht_forward(s[3] as int, s[7] as int, s[11] as int, s[15] as int);
    assert(-16380 <= m0 <= 16380);
    assert(-16380 <= m1 <= 16380);
    assert(-16380 <= m2 <= 16380);
    assert(-16380 <= m3 <= 16380);
    lemma_wht_forward(m0, m1, m2, m3);
    lemma_halved(v);
}

proof fn lemma_even_across(s: Seq<i16>, p: int, k: int)
    requires
        small_block(s, 4095),
        block_sum(s) % 2 == 0,
        0 <= p < 4,
        0 <= k < 4,
    ensures
        across_wht(forward_transform::fwht(s), p, k) == 2 * forward_transform::fwht_mid(s, p, k),
{
    let c = forward_transform::fwht(s);
    lemma_even_coeff(s, 4 * p);
    lemma_even_coeff(s, 4 * p + 1);
    lemma_even_coeff(s, 4 * p + 2);
    lemma_even_coeff(s, 4 * p + 3);
    lemma_wht_undone(
        forward_transform::fwht_mid(s, p, 0),
        forward_transform::fwht_mid(s, p, 1),
        forward_transform::fwht_mid(s, p, 2),
        forward_transform::fwht_mid(s, p, 3),
        c[4 * p] as int,
        c[4 * p + 1] as int,
        c[4 * p + 2] as int,
        c[4 * p + 3] as int,
        0,
        k,
    );
}

proof fn lemma_even_total(s: Seq<i16>, r: int, k: int)
    requires
        small_block(s, 4095),
        block_sum(s) % 2 == 0,
        0 <= r < 4,
        0 <= k < 4,
    ensures
        wht_total(forward_transform::fwht(s), r, k) == 8 * s[4 * r + k],
{
    reveal(wht_total);
    let c = forward_transform::fwht(s);
    lemma_even_across(s, 0, k);
    lemma_even_across(s, 1, k);
    lemma_even_across(s, 2, k);
    lemma_even_across(s, 3, k);
    lemma_wht_forward(s[k] as int, s[4 + k] as int, s[8 + k] as int, s[12 + k] as int);
    lemma_wht_forward(4 * s[k], 4 * s[4 + k], 4 * s[8 + k], 4 * s[12 + k]);
    lemma_wht_undone(
        4 * s[k],
        4 * s[4 + k],
        4 * s[8 + k],
        4 * s[12 + k],
        across_wht(c, 0, k),
        across_wht(c, 1, k),
        across_wht(c, 2, k),
        across_wht(c, 3, k),
        0,
        r,
    );
}

proof fn lemma_even_pixel(s: Seq<i16>, r: int, k: int)
    requires
        small_block(s, 4095),
        block_sum(s) % 2 == 0,
        0 <= r < 4,
        0 <= k < 4,
    ensures
        inverse_transform::iwht(forward_transform::fwht(s))[4 * r + k] == s[4 * r + k],
{
    let c = forward_transform::fwht(s);
    lemma_even_total(s, r, k);
    lemma_wht_swap(c, r, k);
    let i = 4 * r + k;
    assert(i / 4 == r && i % 4 == k);
    assert(inverse_transform::iwht(c)[i] == ((wht_total(c, r, k) + 3) / 8) as i16);
}

/// A block whose sum is even comes back unchanged from the forward and the
/// inverse Walsh-Hadamard transform.
pub proof fn law_even_wht_is_exact(s: Seq<i16>)
    requires
        small_block(s, 4095),
        block_sum(s) % 2 == 0,
    ensures
        inverse_transform::iwht(forward_transform::fwht(s)) == s,
{
    let t = inverse_transform::iwht(forward_transform::fwht(s));
    assert forall|i: int| 0 <= i < 16 implies #[trigger] t[i] == s[i] by {
        lemma_even_pixel(s, i / 4, i % 4);
        assert(i == 4 * (i / 4) + i % 4);
    }
    assert(t =~= s);
}

/// Two numbers that are at most `n` apart.
spec fn apart(a: int, b: int, n: int) -> bool {
    -n <= a - b <= n
}

/// A forward pass of the cosine transform before it is rounded, times 65536.
#[verifier::opaque]
spec fn forward_form(a: int, b: int, c: int, d: int, k: int) -> int {
    if k == 0 {
        65536 * a + 65536 * b + 65536 * c + 65536 * d
    } else if k == 1 {
        85627 * a + 35468 * b - 35468 * c - 85627 * d
    } else if k == 2 {
        65536 * a - 65536 * b - 65536 * c + 65536 * d
    } else {
        35468 * a - 85627 * b + 85627 * c - 35468 * d
    }
}

/// An inverse pass of the cosine transform before it is rounded, times 65536.
#[verifier::opaque]
pub open spec fn inverse_form(a: int, b: int, c: int, d: int, k: int) -> int {
    if k == 0 {
        65536 * a + 85627 * b + 65536 * c + 35468 * d
    } else if k == 1 {
        65536 * a + 35468 * b - 65536 * c - 85627 * d
    } else if k == 2 {
        65536 * a - 35468 * b - 65536 * c + 85627 * d
    } else {
        65536 * a - 85627 * b + 65536 * c - 35468 * d
    }
}

/// Value `k` of four.
pub open spec fn one_of(a: int, b: int, c: int, d: int, k: int) -> int {
    if k == 0 {
        a
    } else if k == 1 {
        b
    } else if k == 2 {
        c
    } else {
        d
    }
}

proof fn lemma_products_rounded(x: int)
    ensures
        85627 * x - 65535 <= 65536 * inverse_transform::cos_mul(x) <= 85627 * x,
        35468 * x - 65535 <= 65536 * inverse_transform::sin_mul(x) <= 35468 * x,
{
}

proof fn lemma_forward_pass(a: int, b: int, c: int, d: int, k: int)
    requires
        0 <= k < 4,
    ensures
        forward_form(a, b, c, d, k) - 131070 <= 65536 * forward_transform::fdct_pass(a, b, c, d, k),
        65536 * forward_transform::fdct_pass(a, b, c, d, k) <= forward_form(a, b, c, d, k) + 131070,
        k == 0 || k == 2 ==> 65536 * forward_transform::fdct_pass(a, b, c, d, k) == forward_form(
            a,
            b,
            c,
            d,
            k,
        ),
{
    reveal(forward_form);
    reveal(forward_transform::fdct_pass);
    lemma_products_rounded(a);
    lemma_products_rounded(b);
    lemma_products_rounded(c);
    lemma_products_rounded(d);
}

/// How far below its form an inverse pass can be.
pub open spec fn short_by(k: int) -> int {
    if k == 0 {
        131070
    } else if k == 3 {
        0
    } else {
        65535
    }
}

/// An inverse pass, against its form.
pub proof fn lemma_inverse_pass(a: int, b: int, c: int, d: int, k: int)
    requires
        0 <= k < 4,
    ensures
        -short_by(k) <= 65536 * inverse_transform::idct_pass(a, b, c, d, k) - inverse_form(
            a,
            b,
            c,
            d,
            k,
        ) <= short_by(3 - k),
{
    reveal(inverse_form);
    reveal(inverse_transform::idct_pass);
    lemma_products_rounded(b);
    lemma_products_rounded(d);
}

/// The inverse form of forward forms multiplies by almost a power of two.
proof fn lemma_forms(a: int, b: int, c: int, d: int, n: int, k: int)
    requires
        0 <= k < 4,
        -n <= a <= n,
        -n <= b <= n,
        -n <= c <= n,
        -n <= d <= n,
    ensures
        ({
            let v = inverse_form(
                forward_form(a, b, c, d, 0),
                forward_form(a, b, c, d, 1),
                forward_form(a, b, c, d, 2),
                forward_form(a, b, c, d, 3),
                k,
            );
            let x = one_of(a, b, c, d, k);
            0x4_0000_0000 * x - 55122 * n <= v <= 0x4_0000_0000 * x + 55122 * n
        }),
{
    reveal(forward_form);
    reveal(inverse_form);
}

/// How far apart inverse forms are whose even arguments are at most `e` apart
/// and the odd ones at most `o`.
proof fn lemma_inverse_form_apart(
    a: int,
    b: int,
    c: int,
    d: int,
    w: int,
    x: int,
    y: int,
    z: int,
    e: int,
    o: int,
    k: int,
)
    requires
        0 <= k < 4,
        apart(a, w, e),
        apart(b, x, o),
        apart(c, y, e),
        apart(d, z, o),
    ensures
        apart(
            inverse_form(a, b, c, d, k),
            inverse_form(w, x, y, z, k),
            131072 * e + 121095 * o,
        ),
{
    reveal(inverse_form);
}

/// Twice the inverse form of coefficients that four values led to.
proof fn lemma_dct_across(m: (int, int, int, int), c: (int, int, int, int), k: int)
    requires
        0 <= k < 4,
        -16004 <= m.0 <= 16004,
        -16004 <= m.1 <= 16004,
        -16004 <= m.2 <= 16004,
        -16004 <= m.3 <= 16004,
        apart(2 * c.0, forward_transform::fdct_pass(m.0, m.1, m.2, m.3, 0), 1),
        apart(2 * c.1, forward_transform::fdct_pass(m.0, m.1, m.2, m.3, 1), 1),
        apart(2 * c.2, forward_transform::fdct_pass(m.0, m.1, m.2, m.3, 2), 1),
        apart(2 * c.3, forward_transform::fdct_pass(m.0, m.1, m.2, m.3, 3), 1),
    ensures
        apart(
            2 * inverse_form(c.0, c.1, c.2, c.3, k),
            262144 * one_of(m.0, m.1, m.2, m.3, k),
            507820,
        ),
{
    lemma_forward_pass(m.0, m.1, m.2, m.3, 0);
    lemma_forward_pass(m.0, m.1, m.2, m.3, 1);
    lemma_forward_pass(m.0, m.1, m.2, m.3, 2);
    lemma_forward_pass(m.0, m.1, m.2, m.3, 3);
    lemma_forms(m.0, m.1, m.2, m.3, 16004, k);
    let f0 = forward_form(m.0, m.1, m.2, m.3, 0);
    let f1 = forward_form(m.0, m.1, m.2, m.3, 1);
    let f2 = forward_form(m.0, m.1, m.2, m.3, 2);
    let f3 = forward_form(m.0, m.1, m.2, m.3, 3);
    lemma_inverse_form_apart(
        131072 * c.0,
        131072 * c.1,
        131072 * c.2,
        131072 * c.3,
        f0,
        f1,
        f2,
        f3,
        65536,
        196606,
        k,
    );
    assert(inverse_form(131072 * c.0, 131072 * c.1, 131072 * c.2, 131072 * c.3, k) == 131072
        * inverse_form(c.0, c.1, c.2, c.3, k)) by {
        reveal(inverse_form);
    }
}

/// Twice the inverse form of what the rows led to.
proof fn lemma_dct_down(s: (int, int, int, int), x: (int, int, int, int), r: int)
    requires
        0 <= r < 4,
        -4000 <= s.0 <= 4000,
        -4000 <= s.1 <= 4000,
        -4000 <= s.2 <= 4000,
        -4000 <= s.3 <= 4000,
        apart(2 * x.0, 262144 * forward_transform::fdct_pass(s.0, s.1, s.2, s.3, 0), 507820),
        apart(2 * x.1, 262144 * forward_transform::fdct_pass(s.0, s.1, s.2, s.3, 1), 507820),
        apart(2 * x.2, 262144 * forward_transform::fdct_pass(s.0, s.1, s.2, s.3, 2), 507820),
        apart(2 * x.3, 262144 * forward_transform::fdct_pass(s.0, s.1, s.2, s.3, 3), 507820),
    ensures
        apart(
            2 * inverse_form(x.0, x.1, x.2, x.3, r),
            0x10_0000_0000 * one_of(s.0, s.1, s.2, s.3, r),
            192500000000,
        ),
{
    lemma_forward_pass(s.0, s.1, s.2, s.3, 0);
    lemma_forward_pass(s.0, s.1, s.2, s.3, 1);
    lemma_forward_pass(s.0, s.1, s.2, s.3, 2);
    lemma_forward_pass(s.0, s.1, s.2, s.3, 3);
    lemma_forms(s.0, s.1, s.2, s.3, 4000, r);
    let f0 = forward_form(s.0, s.1, s.2, s.3, 0);
    let f1 = forward_form(s.0, s.1, s.2, s.3, 1);
    let f2 = forward_form(s.0, s.1, s.2, s.3, 2);
    let f3 = forward_form(s.0, s.1, s.2, s.3, 3);
    lemma_inverse_form_apart(
        2 * x.0,
        2 * x.1,
        2 * x.2,
        2 * x.3,
        4 * f0,
        4 * f1,
        4 * f2,
        4 * f3,
        507820,
        1032100,
        r,
    );
    assert(inverse_form(2 * x.0, 2 * x.1, 2 * x.2, 2 * x.3, r) == 2 * inverse_form(
        x.0,
        x.1,
        x.2,
        x.3,
        r,
    ) && inverse_form(4 * f0, 4 * f1, 4 * f2, 4 * f3, r) == 4 * inverse_form(f0, f1, f2, f3, r))
        by {
        reveal(inverse_form);
    }
}

/// Inverse form of row `p` of a block.
pub open spec fn across_dct(c: Seq<i16>, p: int, k: int) -> int {
    inverse_form(
        c[4 * p] as int,
        c[4 * p + 1] as int,
        c[4 * p + 2] as int,
        c[4 * p + 3] as int,
        k,
    )
}

/// Inverse form of column `j` of a block.
pub open spec fn down_dct(c: Seq<i16>, j: int, r: int) -> int {
    inverse_form(c[j] as int, c[4 + j] as int, c[8 + j] as int, c[12 + j] as int, r)
}

/// The two inverse forms can be taken in either order.
pub proof fn lemma_dct_swap(c: Seq<i16>, r: int, k: int)
    requires
        0 <= r < 4,
        0 <= k < 4,
    ensures
        inverse_form(
            down_dct(c, 0, r),
            down_dct(c, 1, r),
            down_dct(c, 2, r),
            down_dct(c, 3, r),
            k,
        ) == inverse_form(
            across_dct(c, 0, k),
            across_dct(c, 1, k),
            across_dct(c, 2, k),
            across_dct(c, 3, k),
            r,
        ),
{
    reveal(inverse_form);
}

proof fn lemma_dct_mid_bound(s: Seq<i16>, row: int, col: int)
    requires
        small_block(s, 4000),
        0 <= col < 4,
    ensures
        -16004 <= forward_transform::fdct_mid(s, row, col) <= 16004,
{
    reach_law::lemma_dct_pass_bound(
        s[col] as int,
        s[4 + col] as int,
        s[8 + col] as int,
        s[12 + col] as int,
        row,
        4000,
    );
}

/// Coefficient `j` of row `p`, up to rounding.
proof fn lemma_dct_coeff(s: Seq<i16>, p: int, j: int)
    requires
        small_block(s, 4000),
        0 <= p < 4,
        0 <= j < 4,
    ensures
        apart(
            2 * forward_transform::fdct(s)[4 * p + j],
            forward_transform::fdct_pass(
                forward_transform::fdct_mid(s, p, 0),
                forward_transform::fdct_mid(s, p, 1),
                forward_transform::fdct_mid(s, p, 2),
                forward_transform::fdct_mid(s, p, 3),
                j,
            ),
            1,
        ),
{
    let m0 = forward_transform::fdct_mid(s, p, 0);
    let m1 = forward_transform::fdct_mid(s, p, 1);
    let m2 = forward_transform::fdct_mid(s, p, 2);
    let m3 = forward_transform::fdct_mid(s, p, 3);
    lemma_dct_mid_bound(s, p, 0);
    lemma_dct_mid_bound(s, p, 1);
    lemma_dct_mid_bound(s, p, 2);
    lemma_dct_mid_bound(s, p, 3);
    reach_law::lemma_dct_pass_bound(m0, m1, m2, m3, j, 16004);
    lemma_halved(forward_transform::fdct_pass(m0, m1, m2, m3, j));
    let i = 4 * p + j;
    assert(i / 4 == p && i % 4 == j);
}

proof fn lemma_dct_row(s: Seq<i16>, p: int, k: int)
    requires
        small_block(s, 4000),
        0 <= p < 4,
        0 <= k < 4,
    ensures
        apart(
            2 * across_dct(forward_transform::fdct(s), p, k),
            262144 * forward_transform::fdct_mid(s, p, k),
            507820,
        ),
{
    let c = forward_transform::fdct(s);
    lemma_dct_mid_bound(s, p, 0);
    lemma_dct_mid_bound(s, p, 1);
    lemma_dct_mid_bound(s, p, 2);
    lemma_dct_mid_bound(s, p, 3);
    lemma_dct_coeff(s, p, 0);
    lemma_dct_coeff(s, p, 1);
    lemma_dct_coeff(s, p, 2);
    lemma_dct_coeff(s, p, 3);
    lemma_dct_across(
        (
            forward_transform::fdct_mid(s, p, 0),
            forward_transform::fdct_mid(s, p, 1),
            forward_transform::fdct_mid(s, p, 2),
            forward_transform::fdct_mid(s, p, 3),
        ),
        (
            c[4 * p] as int,
            c[4 * p + 1] as int,
            c[4 * p + 2] as int,
            c[4 * p + 3] as int,
        ),
        k,
    );
}

/// The rounded inverse passes, against the forms.
proof fn lemma_dct_passes(c: Seq<i16>, r: int, k: int)
    requires
        0 <= r < 4,
        0 <= k < 4,
    ensures
        apart(
            0x1_0000_0000 * inverse_transform::idct_pass(
                inverse_transform::idct_mid(c, r, 0),
                inverse_transform::idct_mid(c, r, 1),
                inverse_transform::idct_mid(c, r, 2),
                inverse_transform::idct_mid(c, r, 3),
                k,
            ),
            inverse_form(
                down_dct(c, 0, r),
                down_dct(c, 1, r),
                down_dct(c, 2, r),
                down_dct(c, 3, r),
                k,
            ),
            41641332210,
        ),
{
    let w0 = inverse_transform::idct_mid(c, r, 0);
    let w1 = inverse_transform::idct_mid(c, r, 1);
    let w2 = inverse_transform::idct_mid(c, r, 2);
    let w3 = inverse_transform::idct_mid(c, r, 3);
    lemma_inverse_pass(c[0] as int, c[4] as int, c[8] as int, c[12] as int, r);
    lemma_inverse_pass(c[1] as int, c[5] as int, c[9] as int, c[13] as int, r);
    lemma_inverse_pass(c[2] as int, c[6] as int, c[10] as int, c[14] as int, r);
    lemma_inverse_pass(c[3] as int, c[7] as int, c[11] as int, c[15] as int, r);
    lemma_inverse_pass(w0, w1, w2, w3, k);
    lemma_inverse_form_apart(
        65536 * w0,
        65536 * w1,
        65536 * w2,
        65536 * w3,
        down_dct(c, 0, r),
        down_dct(c, 1, r),
        down_dct(c, 2, r),
        down_dct(c, 3, r),
        131070,
        131070,
        k,
    );
    assert(inverse_form(65536 * w0, 65536 * w1, 65536 * w2, 65536 * w3, k) == 65536 * inverse_form(
        w0,
        w1,
        w2,
        w3,
        k,
    )) by {
        reveal(inverse_form);
    }
}

proof fn lemma_dct_pixel(s: Seq<i16>, r: int, k: int)
    requires
        small_block(s, 4000),
        0 <= r < 4,
        0 <= k < 4,
    ensures
        -4 <= inverse_transform::idct(forward_transform::fdct(s))[4 * r + k] - s[4 * r + k] <= 4,
{
    let c = forward_transform::fdct(s);
    lemma_dct_row(s, 0, k);
    lemma_dct_row(s, 1, k);
    lemma_dct_row(s, 2, k);
    lemma_dct_row(s, 3, k);
    lemma_dct_down(
        (s[k] as int, s[4 + k] as int, s[8 + k] as int, s[12 + k] as int),
        (
            across_dct(c, 0, k),
            across_dct(c, 1, k),
            across_dct(c, 2, k),
            across_dct(c, 3, k),
        ),
        r,
    );
    lemma_dct_swap(c, r, k);
    lemma_dct_passes(c, r, k);
    let i = 4 * r + k;
    assert(i / 4 == r && i % 4 == k);
}

/// The inverse cosine transform gives back what the forward one was made of,
/// to within what the rounding of both adds up to.
pub proof fn law_dct_is_undone(s: Seq<i16>)
    requires
        small_block(s, 4000),
    ensures
        near(inverse_transform::idct(forward_transform::fdct(s)), s, 4),
{
    let t = inverse_transform::idct(forward_transform::fdct(s));
    assert forall|i: int| 0 <= i < 16 implies -4 <= #[trigger] t[i] - #[trigger] s[i] <= 4 by {
        lemma_dct_pixel(s, i / 4, i % 4);
        assert(i == 4 * (i / 4) + i % 4);
    }
}

/// Two blocks that differ by at most `dc` in the first place and by at most
/// `ac` in the others.
pub open spec fn near_by(a: Seq<i16>, b: Seq<i16>, dc: int, ac: int) -> bool {
    &&& a.len() == 16
    &&& b.len() == 16
    &&& -dc <= a[0] - b[0] <= dc
    &&& forall|i: int| 1 <= i < 16 ==> -ac <= #[trigger] a[i] - #[trigger] b[i] <= ac
}

proof fn lemma_first_apart(
    a: (int, int, int, int),
    b: (int, int, int, int),
    first: int,
    others: int,
    k: int,
)
    requires
        0 <= k < 4,
        apart(a.0, b.0, first),
        apart(a.1, b.1, others),
        apart(a.2, b.2, others),
        apart(a.3, b.3, others),
    ensures
        apart(
            inverse_form(a.0, a.1, a.2, a.3, k),
            inverse_form(b.0, b.1, b.2, b.3, k),
            65536 * first + 186631 * others,
        ),
{
    reveal(inverse_form);
}

proof fn lemma_rows_apart(a: Seq<i16>, b: Seq<i16>, dc: int, ac: int, k: int)
    requires
        near_by(a, b, dc, ac),
        0 <= k < 4,
    ensures
        apart(across_dct(a, 0, k), across_dct(b, 0, k), 65536 * dc + 186631 * ac),
        apart(across_dct(a, 1, k), across_dct(b, 1, k), 252167 * ac),
        apart(across_dct(a, 2, k), across_dct(b, 2, k), 252167 * ac),
        apart(across_dct(a, 3, k), across_dct(b, 3, k), 252167 * ac),
{
    assert forall|i: int| 1 <= i < 16 implies apart(#[trigger] a[i] as int, b[i] as int, ac) by {}
    lemma_first_apart(
        (a[0] as int, a[1] as int, a[2] as int, a[3] as int),
        (b[0] as int, b[1] as int, b[2] as int, b[3] as int),
        dc,
        ac,
        k,
    );
    assert forall|p: int| 1 <= p < 4 implies apart(
        #[trigger] across_dct(a, p, k),
        across_dct(b, p, k),
        252167 * ac,
    ) by {
        lemma_first_apart(
            (
                a[4 * p] as int,
                a[4 * p + 1] as int,
                a[4 * p + 2] as int,
                a[4 * p + 3] as int,
            ),
            (
                b[4 * p] as int,
                b[4 * p + 1] as int,
                b[4 * p + 2] as int,
                b[4 * p + 3] as int,
            ),
            ac,
            ac,
            k,
        );
    }
}

/// What the two inverse passes leave of a block, before it is divided.
spec fn passed(c: Seq<i16>, r: int, k: int) -> int {
    inverse_transform::idct_pass(
        inverse_transform::idct_mid(c, r, 0),
        inverse_transform::idct_mid(c, r, 1),
        inverse_transform::idct_mid(c, r, 2),
        inverse_transform::idct_mid(c, r, 3),
        k,
    )
}

proof fn lemma_passed_apart(a: Seq<i16>, b: Seq<i16>, dc: int, ac: int, r: int, k: int)
    requires
        near_by(a, b, dc, ac),
        0 <= dc,
        0 <= ac,
        0 <= r < 4,
        0 <= k < 4,
    ensures
        apart(passed(a, r, k), passed(b, r, k), dc + 14 * ac + 19),
{
    lemma_rows_apart(a, b, dc, ac, k);
    lemma_first_apart(
        (across_dct(a, 0, k), across_dct(a, 1, k), across_dct(a, 2, k), across_dct(a, 3, k)),
        (across_dct(b, 0, k), across_dct(b, 1, k), across_dct(b, 2, k), across_dct(b, 3, k)),
        65536 * dc + 186631 * ac,
        252167 * ac,
        r,
    );
    lemma_dct_swap(a, r, k);
    lemma_dct_swap(b, r, k);
    lemma_dct_passes(a, r, k);
    lemma_dct_passes(b, r, k);
}

proof fn lemma_dct_undivided(s: Seq<i16>, r: int, k: int)
    requires
        small_block(s, 4000),
        0 <= r < 4,
        0 <= k < 4,
    ensures
        -40000 <= passed(forward_transform::fdct(s), r, k) <= 40000,
        -4 <= (passed(forward_transform::fdct(s), r, k) + 4) / 8 - s[4 * r + k] <= 4,
{
    let c = forward_transform::fdct(s);
    lemma_dct_row(s, 0, k);
    lemma_dct_row(s, 1, k);
    lemma_dct_row(s, 2, k);
    lemma_dct_row(s, 3, k);
    lemma_dct_down(
        (s[k] as int, s[4 + k] as int, s[8 + k] as int, s[12 + k] as int),
        (
            across_dct(c, 0, k),
            across_dct(c, 1, k),
            across_dct(c, 2, k),
            across_dct(c, 3, k),
        ),
        r,
    );
    lemma_dct_swap(c, r, k);
    lemma_dct_passes(c, r, k);
}

proof fn lemma_wht_pass_apart(
    a: (int, int, int, int),
    b: (int, int, int, int),
    first: int,
    others: int,
    k: int,
)
    requires
        0 <= k < 4,
        apart(a.0, b.0, first),
        apart(a.1, b.1, others),
        apart(a.2, b.2, others),
        apart(a.3, b.3, others),
    ensures
        apart(
            inverse_transform::iwht_pass(a.0, a.1, a.2, a.3, k),
            inverse_transform::iwht_pass(b.0, b.1, b.2, b.3, k),
            first + 3 * others,
        ),
{
    reveal(inverse_transform::iwht_pass);
}

proof fn lemma_totals_apart(a: Seq<i16>, b: Seq<i16>, dc: int, ac: int, r: int, k: int)
    requires
        near_by(a, b, dc, ac),
        0 <= r < 4,
        0 <= k < 4,
    ensures
        apart(wht_total(a, r, k), wht_total(b, r, k), dc + 15 * ac),
{
    reveal(wht_total);
    assert forall|i: int| 1 <= i < 16 implies apart(#[trigger] a[i] as int, b[i] as int, ac) by {}
    lemma_wht_pass_apart(
        (a[0] as int, a[1] as int, a[2] as int, a[3] as int),
        (b[0] as int, b[1] as int, b[2] as int, b[3] as int),
        dc,
        ac,
        k,
    );
    assert forall|p: int| 1 <= p < 4 implies apart(
        #[trigger] across_wht(a, p, k),
        across_wht(b, p, k),
        4 * ac,
    ) by {
        lemma_wht_pass_apart(
            (a[4 * p] as int, a[4 * p + 1] as int, a[4 * p + 2] as int, a[4 * p + 3] as int),
            (b[4 * p] as int, b[4 * p + 1] as int, b[4 * p + 2] as int, b[4 * p + 3] as int),
            ac,
            ac,
            k,
        );
    }
    lemma_wht_pass_apart(
        (across_wht(a, 0, k), across_wht(a, 1, k), across_wht(a, 2, k), across_wht(a, 3, k)),
        (across_wht(b, 0, k), across_wht(b, 1, k), across_wht(b, 2, k), across_wht(b, 3, k)),
        dc + 3 * ac,
        4 * ac,
        r,
    );
}

/// Blocks of coefficients that are near each other are near each other after
/// the inverse cosine transform: an error in the first coefficient is spread
/// over the pixels, and so are those in the others.
pub proof fn law_near_coefficients_give_near_pixels(s: Seq<i16>, c: Seq<i16>, dc: int, ac: int)
    requires
        small_block(s, 4000),
        near_by(c, forward_transform::fdct(s), dc, ac),
        0 <= dc <= 10000,
        0 <= ac <= 1000,
    ensures
        inverse_transform::idct(c).len() == 16,
        forall|i: int|
            0 <= i < 16 ==> -(dc + 14 * ac + 58) <= 8 * (#[trigger] inverse_transform::idct(c)[i]
                - s[i]) <= dc + 14 * ac + 58,
{
    let t = forward_transform::fdct(s);
    law_dct_is_undone(s);
    assert forall|i: int| 0 <= i < 16 implies -(dc + 14 * ac + 58) <= 8 * (
    #[trigger] inverse_transform::idct(c)[i] - s[i]) <= dc + 14 * ac + 58 by {
        let r = i / 4;
        let k = i % 4;
        lemma_passed_apart(c, t, dc, ac, r, k);
        assert(inverse_transform::idct(t)[i] == ((passed(t, r, k) + 4) / 8) as i16);
        assert(inverse_transform::idct(c)[i] == ((passed(c, r, k) + 4) / 8) as i16);
        lemma_dct_undivided(s, r, k);
    }
}

/// Blocks that are near the Walsh-Hadamard transform of other ones give those
/// back nearly.
pub proof fn law_near_second_order_gives_near_first_ones(
    s: Seq<i16>,
    c: Seq<i16>,
    dc: int,
    ac: int,
)
    requires
        small_block(s, 3000),
        near_by(c, forward_transform::fwht(s), dc, ac),
        0 <= dc <= 1000,
        0 <= ac <= 1000,
    ensures
        inverse_transform::iwht(c).len() == 16,
        forall|i: int|
            0 <= i < 16 ==> -(dc + 15 * ac + 12) <= 8 * (#[trigger] inverse_transform::iwht(c)[i]
                - s[i]) <= dc + 15 * ac + 12,
{
    let t = forward_transform::fwht(s);
    assert forall|i: int| 0 <= i < 16 implies -(dc + 15 * ac + 12) <= 8 * (
    #[trigger] inverse_transform::iwht(c)[i] - s[i]) <= dc + 15 * ac + 12 by {
        let r = i / 4;
        let k = i % 4;
        lemma_wht_total(s, r, k);
        lemma_wht_swap(c, r, k);
        assert(i == 4 * r + k);
        lemma_totals_apart(c, t, dc, ac, r, k);
        assert(inverse_transform::iwht(c)[i] == ((wht_total(c, r, k) + 3) / 8) as i16);
    }
}

} // verus!
