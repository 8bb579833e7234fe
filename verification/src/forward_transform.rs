//! Forward transforms of the encoder.
use crate::arith;
use crate::arith::{clamp_i32, shr1, shr16};
use crate::inverse_transform;
use crate::tables::ZIGZAG;
use vstd::prelude::*;

verus! {

/// Half of `v`, rounded away from zero, limited to 16 bits.
pub open spec fn halved(v: int) -> i16 {
    let h = if v >= 0 {
        (v + 1) / 2
    } else {
        -((-v + 1) / 2)
    };
    arith::clamp_int(h, -32768, 32767) as i16
}

/// One pass of the forward Walsh-Hadamard transform.
#[verifier::opaque]
pub open spec fn fwht_pass(a: int, b: int, c: int, d: int, k: int) -> int {
    if k == 0 {
        a + b + (c + d)
    } else if k == 1 {
        a + b - (c + d)
    } else if k == 2 {
        a - b - (c - d)
    } else {
        a - b + (c - d)
    }
}

pub open spec fn fwht_mid(s: Seq<i16>, row: int, col: int) -> int {
    fwht_pass(s[col] as int, s[4 + col] as int, s[8 + col] as int, s[12 + col] as int, row)
}

/// Forward Walsh-Hadamard transform.
pub open spec fn fwht(s: Seq<i16>) -> Seq<i16> {
    Seq::new(
        16,
        |i: int|
            halved(
                fwht_pass(
                    fwht_mid(s, i / 4, 0),
                    fwht_mid(s, i / 4, 1),
                    fwht_mid(s, i / 4, 2),
                    fwht_mid(s, i / 4, 3),
                    i % 4,
                ),
            ),
    )
}

/// One pass of the forward cosine transform.
#[verifier::opaque]
pub open spec fn fdct_pass(a: int, b: int, c: int, d: int, k: int) -> int {
    if k == 0 {
        a + b + c + d
    } else if k == 1 {
        inverse_transform::cos_mul(a) + inverse_transform::sin_mul(b) - inverse_transform::sin_mul(c) - inverse_transform::cos_mul(d)
    } else if k == 2 {
        a - b - c + d
    } else {
        inverse_transform::sin_mul(a) - inverse_transform::cos_mul(b) + inverse_transform::cos_mul(c) - inverse_transform::sin_mul(d)
    }
}

pub open spec fn fdct_mid(s: Seq<i16>, row: int, col: int) -> int {
    fdct_pass(s[col] as int, s[4 + col] as int, s[8 + col] as int, s[12 + col] as int, row)
}

/// Forward cosine transform.
pub open spec fn fdct(s: Seq<i16>) -> Seq<i16> {
    Seq::new(
        16,
        |i: int|
            halved(
                fdct_pass(
                    fdct_mid(s, i / 4, 0),
                    fdct_mid(s, i / 4, 1),
                    fdct_mid(s, i / 4, 2),
                    fdct_mid(s, i / 4, 3),
                    i % 4,
                ),
            ),
    )
}

fn c_mul(i: i64) -> (r: i64)
    requires
        -0x10_0000 <= i <= 0x10_0000,
    ensures
        r == inverse_transform::cos_mul(i as int),
        -0x20_0000 <= r <= 0x20_0000,
{
    i + shr16(i * 20091)
}

fn s_mul(i: i64) -> (r: i64)
    requires
        -0x10_0000 <= i <= 0x10_0000,
    ensures
        r == inverse_transform::sin_mul(i as int),
        -0x10_0000 <= r <= 0x10_0000,
{
    shr16(i * 35468)
}

fn round_div2(v: i32) -> (r: i16)
    requires
        -0x4000_0000 <= v <= 0x4000_0000,
    ensures
        r == halved(v as int),
{
    let h: i32 = if v >= 0 {
        shr1(v + 1)
    } else {
        -shr1(-v + 1)
    };
    clamp_i32(h, -32768, 32767) as i16
}

fn fwht_col(i0: i16, i4: i16, i8: i16, i12: i16) -> (o: (i32, i32, i32, i32))
    ensures
        o.0 == fwht_pass(i0 as int, i4 as int, i8 as int, i12 as int, 0),
        o.1 == fwht_pass(i0 as int, i4 as int, i8 as int, i12 as int, 1),
        o.2 == fwht_pass(i0 as int, i4 as int, i8 as int, i12 as int, 2),
        o.3 == fwht_pass(i0 as int, i4 as int, i8 as int, i12 as int, 3),
        -0x10_0000 <= o.0 <= 0x10_0000,
        -0x10_0000 <= o.1 <= 0x10_0000,
        -0x10_0000 <= o.2 <= 0x10_0000,
        -0x10_0000 <= o.3 <= 0x10_0000,
{
    proof {
        reveal(fwht_pass);
    }
    let a1: i32 = i0 as i32 + i4 as i32;
    let b1: i32 = i8 as i32 + i12 as i32;
    let c1: i32 = i0 as i32 - i4 as i32;
    let d1: i32 = i8 as i32 - i12 as i32;
    (a1 + b1, a1 - b1, c1 - d1, c1 + d1)
}

fn fwht_row(r0: i32, r1: i32, r2: i32, r3: i32) -> (o: (i16, i16, i16, i16))
    requires
        -0x10_0000 <= r0 <= 0x10_0000,
        -0x10_0000 <= r1 <= 0x10_0000,
        -0x10_0000 <= r2 <= 0x10_0000,
        -0x10_0000 <= r3 <= 0x10_0000,
    ensures
        o.0 == halved(fwht_pass(r0 as int, r1 as int, r2 as int, r3 as int, 0)),
        o.1 == halved(fwht_pass(r0 as int, r1 as int, r2 as int, r3 as int, 1)),
        o.2 == halved(fwht_pass(r0 as int, r1 as int, r2 as int, r3 as int, 2)),
        o.3 == halved(fwht_pass(r0 as int, r1 as int, r2 as int, r3 as int, 3)),
{
    proof {
        reveal(fwht_pass);
    }
    let a1: i32 = r0 + r1;
    let b1: i32 = r2 + r3;
    let c1: i32 = r0 - r1;
    let d1: i32 = r2 - r3;
    (round_div2(a1 + b1), round_div2(a1 - b1), round_div2(c1 - d1), round_div2(c1 + d1))
}

fn fdct_col(i0: i16, i4: i16, i8: i16, i12: i16) -> (o: (i64, i64, i64, i64))
    ensures
        o.0 == fdct_pass(i0 as int, i4 as int, i8 as int, i12 as int, 0),
        o.1 == fdct_pass(i0 as int, i4 as int, i8 as int, i12 as int, 1),
        o.2 == fdct_pass(i0 as int, i4 as int, i8 as int, i12 as int, 2),
        o.3 == fdct_pass(i0 as int, i4 as int, i8 as int, i12 as int, 3),
        -0x10_0000 <= o.0 <= 0x10_0000,
        -0x10_0000 <= o.1 <= 0x10_0000,
        -0x10_0000 <= o.2 <= 0x10_0000,
        -0x10_0000 <= o.3 <= 0x10_0000,
{
    proof {
        reveal(fdct_pass);
    }
    let a: i64 = i0 as i64;
    let b: i64 = i4 as i64;
    let c: i64 = i8 as i64;
    let d: i64 = i12 as i64;
    (
        a + b + c + d,
        c_mul(a) + s_mul(b) - s_mul(c) - c_mul(d),
        a - b - c + d,
        s_mul(a) - c_mul(b) + c_mul(c) - s_mul(d),
    )
}

fn fdct_row(r0: i64, r1: i64, r2: i64, r3: i64) -> (o: (i16, i16, i16, i16))
    requires
        -0x10_0000 <= r0 <= 0x10_0000,
        -0x10_0000 <= r1 <= 0x10_0000,
        -0x10_0000 <= r2 <= 0x10_0000,
        -0x10_0000 <= r3 <= 0x10_0000,
    ensures
        o.0 == halved(fdct_pass(r0 as int, r1 as int, r2 as int, r3 as int, 0)),
        o.1 == halved(fdct_pass(r0 as int, r1 as int, r2 as int, r3 as int, 1)),
        o.2 == halved(fdct_pass(r0 as int, r1 as int, r2 as int, r3 as int, 2)),
        o.3 == halved(fdct_pass(r0 as int, r1 as int, r2 as int, r3 as int, 3)),
{
    proof {
        reveal(fdct_pass);
    }
    let o0: i64 = r0 + r1 + r2 + r3;
    let o1: i64 = c_mul(r0) + s_mul(r1) - s_mul(r2) - c_mul(r3);
    let o2: i64 = r0 - r1 - r2 + r3;
    let o3: i64 = s_mul(r0) - c_mul(r1) + c_mul(r2) - s_mul(r3);
    (round_div2(o0 as i32), round_div2(o1 as i32), round_div2(o2 as i32), round_div2(o3 as i32))
}

/// The first `n` columns of `tmp` have gone through the first pass of the
/// forward Walsh-Hadamard transform.
spec fn wht_columns(tmp: Seq<i32>, s: Seq<i16>, n: int) -> bool {
    forall|i: int|
        0 <= i < 16 && i % 4 < n ==> #[trigger] tmp[i] == fwht_mid(s, i / 4, i % 4) && -0x10_0000
            <= tmp[i] <= 0x10_0000
}

/// Forward Walsh-Hadamard transform of a block.
pub fn forward_wht_4x4(input: &[i16; 16], output: &mut [i16; 16])
    ensures
        final(output)@ == fwht(input@),
{
    let mut tmp: [i32; 16] = [0i32; 16];
    let mut col: usize = 0;
    while col < 4
        invariant
            col <= 4,
            wht_columns(tmp@, input@, col as int),
        decreases 4 - col,
    {
        let o: (i32, i32, i32, i32) = fwht_col(
            input[col],
            input[4 + col],
            input[8 + col],
            input[12 + col],
        );
        let ghost before = tmp@;
        tmp[col] = o.0;
        tmp[4 + col] = o.1;
        tmp[8 + col] = o.2;
        tmp[12 + col] = o.3;
        assert forall|i: int| 0 <= i < 16 && i % 4 < col + 1 implies #[trigger] tmp@[i]
            == fwht_mid(input@, i / 4, i % 4) && -0x10_0000 <= tmp@[i] <= 0x10_0000 by {
            if i % 4 < col {
                assert(tmp@[i] == before[i]);
            } else {
                assert(i == col || i == 4 + col || i == 8 + col || i == 12 + col);
            }
        }
        assert(wht_columns(tmp@, input@, col + 1));
        col = col + 1;
    }
    let mut row: usize = 0;
    while row < 4
        invariant
            row <= 4,
            wht_columns(tmp@, input@, 4),
            forall|i: int| 0 <= i < 4 * row ==> #[trigger] output[i] == fwht(input@)[i],
        decreases 4 - row,
    {
        let base: usize = row * 4;
        let ghost r = row as int;
        assert((4 * r + 0) / 4 == r && (4 * r + 0) % 4 == 0);
        assert(tmp@[4 * r + 0] == fwht_mid(input@, r, 0));
        assert((4 * r + 1) / 4 == r && (4 * r + 1) % 4 == 1);
        assert(tmp@[4 * r + 1] == fwht_mid(input@, r, 1));
        assert((4 * r + 2) / 4 == r && (4 * r + 2) % 4 == 2);
        assert(tmp@[4 * r + 2] == fwht_mid(input@, r, 2));
        assert((4 * r + 3) / 4 == r && (4 * r + 3) % 4 == 3);
        assert(tmp@[4 * r + 3] == fwht_mid(input@, r, 3));
        let o: (i16, i16, i16, i16) = fwht_row(
            tmp[base],
            tmp[base + 1],
            tmp[base + 2],
            tmp[base + 3],
        );
        let ghost before = output@;
        output[base] = o.0;
        output[base + 1] = o.1;
        output[base + 2] = o.2;
        output[base + 3] = o.3;
        assert forall|i: int| 0 <= i < 4 * (row + 1) implies #[trigger] output[i] == fwht(
            input@,
        )[i] by {
            if i < 4 * row {
                assert(before[i] == fwht(input@)[i]);
            } else {
                assert(i / 4 == r);
            }
        }
        row = row + 1;
    }
    assert(output@ =~= fwht(input@));
}

/// The first `n` columns of `tmp` have gone through the first pass of the
/// forward cosine transform.
spec fn dct_columns(tmp: Seq<i64>, s: Seq<i16>, n: int) -> bool {
    forall|i: int|
        0 <= i < 16 && i % 4 < n ==> #[trigger] tmp[i] == fdct_mid(s, i / 4, i % 4) && -0x10_0000
            <= tmp[i] <= 0x10_0000
}

/// Forward cosine transform of a block.
pub fn forward_dct_4x4(input: &[i16; 16], output: &mut [i16; 16])
    ensures
        final(output)@ == fdct(input@),
{
    let mut tmp: [i64; 16] = [0i64; 16];
    let mut col: usize = 0;
    while col < 4
        invariant
            col <= 4,
            dct_columns(tmp@, input@, col as int),
        decreases 4 - col,
    {
        let o: (i64, i64, i64, i64) = fdct_col(
            input[col],
            input[4 + col],
            input[8 + col],
            input[12 + col],
        );
        let ghost before = tmp@;
        tmp[col] = o.0;
        tmp[4 + col] = o.1;
        tmp[8 + col] = o.2;
        tmp[12 + col] = o.3;
        assert forall|i: int| 0 <= i < 16 && i % 4 < col + 1 implies #[trigger] tmp@[i]
            == fdct_mid(input@, i / 4, i % 4) && -0x10_0000 <= tmp@[i] <= 0x10_0000 by {
            if i % 4 < col {
                assert(tmp@[i] == before[i]);
            } else {
                assert(i == col || i == 4 + col || i == 8 + col || i == 12 + col);
            }
        }
        assert(dct_columns(tmp@, input@, col + 1));
        col = col + 1;
    }
    let mut row: usize = 0;
    while row < 4
        invariant
            row <= 4,
            dct_columns(tmp@, input@, 4),
            forall|i: int| 0 <= i < 4 * row ==> #[trigger] output[i] == fdct(input@)[i],
        decreases 4 - row,
    {
        let base: usize = row * 4;
        let ghost r = row as int;
        assert((4 * r + 0) / 4 == r && (4 * r + 0) % 4 == 0);
        assert(tmp@[4 * r + 0] == fdct_mid(input@, r, 0));
        assert((4 * r + 1) / 4 == r && (4 * r + 1) % 4 == 1);
        assert(tmp@[4 * r + 1] == fdct_mid(input@, r, 1));
        assert((4 * r + 2) / 4 == r && (4 * r + 2) % 4 == 2);
        assert(tmp@[4 * r + 2] == fdct_mid(input@, r, 2));
        assert((4 * r + 3) / 4 == r && (4 * r + 3) % 4 == 3);
        assert(tmp@[4 * r + 3] == fdct_mid(input@, r, 3));
        let o: (i16, i16, i16, i16) = fdct_row(
            tmp[base],
            tmp[base + 1],
            tmp[base + 2],
            tmp[base + 3],
        );
        let ghost before = output@;
        output[base] = o.0;
        output[base + 1] = o.1;
        output[base + 2] = o.2;
        output[base + 3] = o.3;
        assert forall|i: int| 0 <= i < 4 * (row + 1) implies #[trigger] output[i] == fdct(
            input@,
        )[i] by {
            if i < 4 * row {
                assert(before[i] == fdct(input@)[i]);
            } else {
                assert(i / 4 == r);
            }
        }
        row = row + 1;
    }
    assert(output@ =~= fdct(input@));
}

/// The coefficients of a raster block in scan order.
pub open spec fn scan_order(raster: Seq<i16>) -> Seq<i16> {
    Seq::new(16, |i: int| raster[ZIGZAG[i] as int])
}

/// Puts the coefficients of a block into scan order.
pub fn raster_to_scan(raster: &[i16; 16]) -> (scan: [i16; 16])
    ensures
        scan@ == scan_order(raster@),
{
    let mut scan: [i16; 16] = [0i16; 16];
    let mut i: usize = 0;
    while i < 16
        invariant
            i <= 16,
            forall|j: int| 0 <= j < i ==> #[trigger] scan[j] == raster[ZIGZAG[j] as int],
        decreases 16 - i,
    {
        proof {
            lemma_zigzag_range(i as int);
        }
        scan[i] = raster[ZIGZAG[i]];
        i = i + 1;
    }
    assert(scan@ =~= scan_order(raster@));
    scan
}

pub proof fn lemma_zigzag_range(i: int)
    requires
        0 <= i < 16,
    ensures
        0 <= ZIGZAG[i] < 16,
{
}

/// The scan order visits every position once, so that a block is
/// recovered by writing each coefficient back to its position.
pub proof fn law_zigzag_is_permutation(i: int, j: int)
    requires
        0 <= i < 16,
        0 <= j < 16,
        ZIGZAG[i] == ZIGZAG[j],
    ensures
        i == j,
{
}

/// A block whose sixteen values are equal.
pub open spec fn flat_block(v: i16) -> Seq<i16> {
    Seq::new(16, |i: int| v)
}

/// A flat block comes back unchanged from the forward and the inverse
/// Walsh-Hadamard transform.
pub proof fn law_wht_flat_round_trip(v: i16)
    requires
        -4095 <= v <= 4095,
    ensures
        fwht(flat_block(v)) == inverse_transform::dc_block((8 * v) as i16),
        inverse_transform::iwht(fwht(flat_block(v))) == flat_block(v),
{
    reveal(fwht_pass);
    assert(fwht(flat_block(v)) =~= inverse_transform::dc_block((8 * v) as i16));
    inverse_transform::law_wht_dc_only((8 * v) as i16);
    assert(inverse_transform::iwht(fwht(flat_block(v))) =~= flat_block(v));
}

/// A flat block comes back unchanged from the forward and the inverse
/// cosine transform.
pub proof fn law_dct_flat_round_trip(v: i16)
    requires
        -4095 <= v <= 4095,
    ensures
        fdct(flat_block(v)) == inverse_transform::dc_block((8 * v) as i16),
        inverse_transform::idct(fdct(flat_block(v))) == flat_block(v),
{
    reveal(fdct_pass);
    assert(fdct(flat_block(v)) =~= inverse_transform::dc_block((8 * v) as i16));
    inverse_transform::law_idct_dc_only((8 * v) as i16);
    assert(inverse_transform::idct(fdct(flat_block(v))) =~= flat_block(v));
}

} // verus!
