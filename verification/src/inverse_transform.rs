//! Dequantization, inverse transforms and residue summation.
use crate::arith;
use crate::arith::{clamp_i32, shr16, shr3};
use vstd::prelude::*;

verus! {

/// Number of quantizer indices.
pub const QINDEX_RANGE: usize = 128;

/// Step of the first coefficient, by quantizer index.
pub const DC_QLOOKUP: [i16; 128] = [
    4, 5, 6, 7, 8, 9, 10, 10, 11, 12, 13, 14, 15, 16, 17, 17,
    18, 19, 20, 20, 21, 21, 22, 22, 23, 23, 24, 25, 25, 26, 27, 28,
    29, 30, 31, 32, 33, 34, 35, 36, 37, 37, 38, 39, 40, 41, 42, 43,
    44, 45, 46, 46, 47, 48, 49, 50, 51, 52, 53, 54, 55, 56, 57, 58,
    59, 60, 61, 62, 63, 64, 65, 66, 67, 68, 69, 70, 71, 72, 73, 74,
    75, 76, 76, 77, 78, 79, 80, 81, 82, 83, 84, 85, 86, 87, 88, 89,
    91, 93, 95, 96, 98, 100, 101, 102, 104, 106, 108, 110, 112, 114, 116, 118,
    122, 124, 126, 128, 130, 132, 134, 136, 138, 140, 143, 145, 148, 151, 154, 157,
];

/// Step of the other coefficients, by quantizer index.
pub const AC_QLOOKUP: [i16; 128] = [
    4, 5, 6, 7, 8, 9, 10, 11, 12, 13, 14, 15, 16, 17, 18, 19,
    20, 21, 22, 23, 24, 25, 26, 27, 28, 29, 30, 31, 32, 33, 34, 35,
    36, 37, 38, 39, 40, 41, 42, 43, 44, 45, 46, 47, 48, 49, 50, 51,
    52, 53, 54, 55, 56, 57, 58, 60, 62, 64, 66, 68, 70, 72, 74, 76,
    78, 80, 82, 84, 86, 88, 90, 92, 94, 96, 98, 100, 102, 104, 106, 108,
    110, 112, 114, 116, 119, 122, 125, 128, 131, 134, 137, 140, 143, 146, 149, 152,
    155, 158, 161, 164, 167, 170, 173, 177, 181, 185, 189, 193, 197, 201, 205, 209,
    213, 217, 221, 225, 229, 234, 239, 245, 249, 254, 259, 264, 269, 274, 279, 284,
];

/// A quantizer index limited to the tables.
pub fn clamp_qindex(q: i32) -> (r: usize)
    ensures
        r == arith::clamp_int(q as int, 0, 127),
{
    clamp_i32(q, 0, 127) as usize
}

/// Steps of the luma coefficients.
#[derive(Debug, Clone, Copy, PartialEq, Eq, Structural)]
pub struct Y1DequantFactors {
    pub dc: i16,
    pub ac: i16,
}

impl Y1DequantFactors {
    /// Steps for a base index and an offset for the first coefficient.
    pub fn from_indices(yac_qi: i32, ydc_delta: i32) -> (f: Self)
        requires
            i32::MIN <= yac_qi + ydc_delta <= i32::MAX,
        ensures
            f.dc == DC_QLOOKUP[arith::clamp_int(yac_qi + ydc_delta, 0, 127)],
            f.ac == AC_QLOOKUP[arith::clamp_int(yac_qi as int, 0, 127)],
    {
        Y1DequantFactors {
            dc: DC_QLOOKUP[clamp_qindex(yac_qi + ydc_delta)],
            ac: AC_QLOOKUP[clamp_qindex(yac_qi)],
        }
    }
}

/// A coefficient times its step, cut to 16 bits.
pub open spec fn scaled(c: i16, factor: int) -> i16 {
    (c * factor) as i16
}

/// A block of coefficients times their steps.
pub open spec fn dequantized(c: Seq<i16>, dc: int, ac: int) -> Seq<i16> {
    Seq::new(16, |i: int| scaled(c[i], if i == 0 { dc } else { ac }))
}

/// Multiplies the coefficients of a block by their steps.
pub fn dequant_block(coeffs: &mut [i16; 16], dc_factor: i16, ac_factor: i16)
    ensures
        final(coeffs)@ == dequantized(old(coeffs)@, dc_factor as int, ac_factor as int),
{
    let mut i: usize = 0;
    let ghost c0 = coeffs@;
    while i < 16
        invariant
            i <= 16,
            c0.len() == 16,
            forall|j: int|
                0 <= j < i ==> #[trigger] coeffs[j] == scaled(
                    c0[j],
                    if j == 0 {
                        dc_factor as int
                    } else {
                        ac_factor as int
                    },
                ),
            forall|j: int| i <= j < 16 ==> #[trigger] coeffs[j] == c0[j],
        decreases 16 - i,
    {
        let f: i16 = if i == 0 {
            dc_factor
        } else {
            ac_factor
        };
        let c: i16 = coeffs[i];
        assert(-0x4000_0000 <= c * f <= 0x4000_0000) by (nonlinear_arith)
            requires
                -32768 <= c <= 32767,
                -32768 <= f <= 32767,
        ;
        coeffs[i] = (c as i32 * f as i32) as i16;
        i = i + 1;
    }
    assert(coeffs@ =~= dequantized(c0, dc_factor as int, ac_factor as int));
}

/// `v` limited to a pixel.
pub fn clamp255(v: i32) -> (r: u8)
    ensures
        r == arith::clamp_int(v as int, 0, 255),
{
    clamp_i32(v, 0, 255) as u8
}

/// One pass of the inverse Walsh-Hadamard transform.
pub open spec fn iwht_pass(a: int, b: int, c: int, d: int, k: int) -> int {
    if k == 0 {
        a + d + (b + c)
    } else if k == 1 {
        b - c + (a - d)
    } else if k == 2 {
        a + d - (b + c)
    } else {
        a - d - (b - c)
    }
}

/// Column pass of the inverse Walsh-Hadamard transform.
pub open spec fn iwht_mid(s: Seq<i16>, row: int, col: int) -> int {
    iwht_pass(s[col] as int, s[4 + col] as int, s[8 + col] as int, s[12 + col] as int, row)
}

/// Inverse Walsh-Hadamard transform.
pub open spec fn iwht(s: Seq<i16>) -> Seq<i16> {
    Seq::new(
        16,
        |i: int|
            ((iwht_pass(
                iwht_mid(s, i / 4, 0),
                iwht_mid(s, i / 4, 1),
                iwht_mid(s, i / 4, 2),
                iwht_mid(s, i / 4, 3),
                i % 4,
            ) + 3) / 8) as i16,
    )
}

/// Inverse Walsh-Hadamard transform of a block.
pub fn inverse_wht_4x4(input: &[i16; 16], output: &mut [i16; 16])
    ensures
        final(output)@ == iwht(input@),
{
    let mut tmp: [i32; 16] = [0i32; 16];
    let mut col: usize = 0;
    while col < 4
        invariant
            col <= 4,
            forall|r: int, c: int|
                #![trigger iwht_mid(input@, r, c)]
                0 <= r < 4 && 0 <= c < col ==> tmp[4 * r + c] == iwht_mid(input@, r, c)
                    && -131072 <= tmp[4 * r + c] <= 131072,
        decreases 4 - col,
    {
        let i0: i32 = input[col] as i32;
        let i4: i32 = input[4 + col] as i32;
        let i8: i32 = input[8 + col] as i32;
        let i12: i32 = input[12 + col] as i32;
        let a1: i32 = i0 + i12;
        let b1: i32 = i4 + i8;
        let c1: i32 = i4 - i8;
        let d1: i32 = i0 - i12;
        let ghost before = tmp@;
        tmp[col] = a1 + b1;
        tmp[4 + col] = c1 + d1;
        tmp[8 + col] = a1 - b1;
        tmp[12 + col] = d1 - c1;
        assert forall|r: int, c: int|
            #![trigger iwht_mid(input@, r, c)]
            0 <= r < 4 && 0 <= c < col + 1 implies tmp[4 * r + c] == iwht_mid(input@, r, c)
            && -131072 <= tmp[4 * r + c] <= 131072 by {
            if c < col {
                assert(before[4 * r + c] == iwht_mid(input@, r, c));
            }
        }
        col = col + 1;
    }
    let mut row: usize = 0;
    while row < 4
        invariant
            row <= 4,
            forall|r: int, c: int|
                #![trigger iwht_mid(input@, r, c)]
                0 <= r < 4 && 0 <= c < 4 ==> tmp[4 * r + c] == iwht_mid(input@, r, c) && -131072
                    <= tmp[4 * r + c] <= 131072,
            forall|i: int| 0 <= i < 4 * row ==> #[trigger] output[i] == iwht(input@)[i],
        decreases 4 - row,
    {
        let base: usize = row * 4;
        let ghost r = row as int;
        assert(tmp[4 * r + 0] == iwht_mid(input@, r, 0));
        assert(tmp[4 * r + 1] == iwht_mid(input@, r, 1));
        assert(tmp[4 * r + 2] == iwht_mid(input@, r, 2));
        assert(tmp[4 * r + 3] == iwht_mid(input@, r, 3));
        let r0: i32 = tmp[base];
        let r1: i32 = tmp[base + 1];
        let r2: i32 = tmp[base + 2];
        let r3: i32 = tmp[base + 3];
        let a1: i32 = r0 + r3;
        let b1: i32 = r1 + r2;
        let c1: i32 = r1 - r2;
        let d1: i32 = r0 - r3;
        let ghost before = output@;
        output[base] = shr3(a1 + b1 + 3) as i16;
        output[base + 1] = shr3(c1 + d1 + 3) as i16;
        output[base + 2] = shr3(a1 - b1 + 3) as i16;
        output[base + 3] = shr3(d1 - c1 + 3) as i16;
        assert forall|i: int| 0 <= i < 4 * (row + 1) implies #[trigger] output[i] == iwht(
            input@,
        )[i] by {
            if i < 4 * row {
                assert(before[i] == iwht(input@)[i]);
            } else {
                assert(i / 4 == r);
            }
        }
        row = row + 1;
    }
    assert(output@ =~= iwht(input@));
}

/// Inverse Walsh-Hadamard transform of a block whose only coefficient is the
/// first.
pub fn inverse_wht_4x4_dc_only(dc: i16, output: &mut [i16; 16])
    ensures
        final(output)@ == Seq::new(16, |i: int| ((dc + 3) / 8) as i16),
{
    let a1: i32 = shr3(dc as i32 + 3);
    let mut i: usize = 0;
    while i < 16
        invariant
            i <= 16,
            a1 == (dc + 3) / 8,
            forall|j: int| 0 <= j < i ==> #[trigger] output[j] == ((dc + 3) / 8) as i16,
        decreases 16 - i,
    {
        output[i] = a1 as i16;
        i = i + 1;
    }
    assert(output@ =~= Seq::new(16, |i: int| ((dc + 3) / 8) as i16));
}

/// A block with only its first coefficient.
pub open spec fn dc_block(dc: i16) -> Seq<i16> {
    Seq::new(16, |i: int| if i == 0 { dc } else { 0 })
}

/// On a block with only its first coefficient the short form of the
/// inverse Walsh-Hadamard transform agrees with the general one.
pub proof fn law_wht_dc_only(dc: i16)
    ensures
        iwht(dc_block(dc)) == Seq::new(16, |i: int| ((dc + 3) / 8) as i16),
{
    assert forall|i: int| 0 <= i < 16 implies iwht(dc_block(dc))[i] == ((dc + 3) / 8) as i16 by {
    }
    assert(iwht(dc_block(dc)) =~= Seq::new(16, |i: int| ((dc + 3) / 8) as i16));
}

/// `x` times `sqrt(2) * sin(pi / 8)`, in 16-bit fixed point.
pub open spec fn sin_mul(x: int) -> int {
    x * 35468 / 65536
}

/// `x` times `sqrt(2) * cos(pi / 8)`, in 16-bit fixed point.
pub open spec fn cos_mul(x: int) -> int {
    x + x * 20091 / 65536
}

/// One pass of the inverse cosine transform.
#[verifier::opaque]
pub open spec fn idct_pass(a: int, b: int, c: int, d: int, k: int) -> int {
    let even = if k == 0 || k == 3 {
        a + c
    } else {
        a - c
    };
    let odd = if k == 0 || k == 3 {
        cos_mul(b) + sin_mul(d)
    } else {
        sin_mul(b) - cos_mul(d)
    };
    if k < 2 {
        even + odd
    } else {
        even - odd
    }
}

/// Column pass of the inverse cosine transform.
pub open spec fn idct_mid(s: Seq<i16>, row: int, col: int) -> int {
    idct_pass(s[col] as int, s[4 + col] as int, s[8 + col] as int, s[12 + col] as int, row)
}

/// Inverse cosine transform.
pub open spec fn idct(s: Seq<i16>) -> Seq<i16> {
    Seq::new(
        16,
        |i: int|
            ((idct_pass(
                idct_mid(s, i / 4, 0),
                idct_mid(s, i / 4, 1),
                idct_mid(s, i / 4, 2),
                idct_mid(s, i / 4, 3),
                i % 4,
            ) + 4) / 8) as i16,
    )
}

fn sin_part(x: i64) -> (r: i64)
    requires
        -0x10_0000 <= x <= 0x10_0000,
    ensures
        r == sin_mul(x as int),
        -0x10_0000 <= r <= 0x10_0000,
{
    shr16(x * 35468)
}

fn cos_part(x: i64) -> (r: i64)
    requires
        -0x10_0000 <= x <= 0x10_0000,
    ensures
        r == cos_mul(x as int),
        -0x20_0000 <= r <= 0x20_0000,
{
    x + shr16(x * 20091)
}

/// Column pass of the inverse cosine transform.
fn idct_col(i0: i16, i4: i16, i8: i16, i12: i16) -> (o: (i64, i64, i64, i64))
    ensures
        o.0 == idct_pass(i0 as int, i4 as int, i8 as int, i12 as int, 0),
        o.1 == idct_pass(i0 as int, i4 as int, i8 as int, i12 as int, 1),
        o.2 == idct_pass(i0 as int, i4 as int, i8 as int, i12 as int, 2),
        o.3 == idct_pass(i0 as int, i4 as int, i8 as int, i12 as int, 3),
        -0x10_0000 <= o.0 <= 0x10_0000,
        -0x10_0000 <= o.1 <= 0x10_0000,
        -0x10_0000 <= o.2 <= 0x10_0000,
        -0x10_0000 <= o.3 <= 0x10_0000,
{
    proof {
        reveal(idct_pass);
    }
    let a1: i64 = i0 as i64 + i8 as i64;
    let b1: i64 = i0 as i64 - i8 as i64;
    let c1: i64 = sin_part(i4 as i64) - cos_part(i12 as i64);
    let d1: i64 = cos_part(i4 as i64) + sin_part(i12 as i64);
    (a1 + d1, b1 + c1, b1 - c1, a1 - d1)
}

/// Row pass of the inverse cosine transform, rounded.
fn idct_row(r0: i64, r1: i64, r2: i64, r3: i64) -> (o: (i16, i16, i16, i16))
    requires
        -0x10_0000 <= r0 <= 0x10_0000,
        -0x10_0000 <= r1 <= 0x10_0000,
        -0x10_0000 <= r2 <= 0x10_0000,
        -0x10_0000 <= r3 <= 0x10_0000,
    ensures
        o.0 == ((idct_pass(r0 as int, r1 as int, r2 as int, r3 as int, 0) + 4) / 8) as i16,
        o.1 == ((idct_pass(r0 as int, r1 as int, r2 as int, r3 as int, 1) + 4) / 8) as i16,
        o.2 == ((idct_pass(r0 as int, r1 as int, r2 as int, r3 as int, 2) + 4) / 8) as i16,
        o.3 == ((idct_pass(r0 as int, r1 as int, r2 as int, r3 as int, 3) + 4) / 8) as i16,
{
    proof {
        reveal(idct_pass);
    }
    let a1: i64 = r0 + r2;
    let b1: i64 = r0 - r2;
    let c1: i64 = sin_part(r1) - cos_part(r3);
    let d1: i64 = cos_part(r1) + sin_part(r3);
    (
        shr3((a1 + d1 + 4) as i32) as i16,
        shr3((b1 + c1 + 4) as i32) as i16,
        shr3((b1 - c1 + 4) as i32) as i16,
        shr3((a1 - d1 + 4) as i32) as i16,
    )
}

/// Inverse cosine transform of a block.
pub fn inverse_dct_4x4(input: &[i16; 16], output: &mut [i16; 16])
    ensures
        final(output)@ == idct(input@),
{
    let mut tmp: [i64; 16] = [0i64; 16];
    let mut col: usize = 0;
    while col < 4
        invariant
            col <= 4,
            forall|r: int, c: int|
                #![trigger idct_mid(input@, r, c)]
                0 <= r < 4 && 0 <= c < col ==> tmp[4 * r + c] == idct_mid(input@, r, c)
                    && -0x10_0000 <= tmp[4 * r + c] <= 0x10_0000,
        decreases 4 - col,
    {
        let o: (i64, i64, i64, i64) = idct_col(
            input[col],
            input[4 + col],
            input[8 + col],
            input[12 + col],
        );
        let ghost before = tmp@;
        tmp[col] = o.0;
        tmp[4 + col] = o.1;
        tmp[8 + col] = o.2;
        tmp[12 + col] = o.3;
        assert forall|r: int, c: int|
            #![trigger idct_mid(input@, r, c)]
            0 <= r < 4 && 0 <= c < col + 1 implies tmp[4 * r + c] == idct_mid(input@, r, c)
            && -0x10_0000 <= tmp[4 * r + c] <= 0x10_0000 by {
            if c < col {
                assert(before[4 * r + c] == idct_mid(input@, r, c));
            }
        }
        col = col + 1;
    }
    let mut row: usize = 0;
    while row < 4
        invariant
            row <= 4,
            forall|r: int, c: int|
                #![trigger idct_mid(input@, r, c)]
                0 <= r < 4 && 0 <= c < 4 ==> tmp[4 * r + c] == idct_mid(input@, r, c)
                    && -0x10_0000 <= tmp[4 * r + c] <= 0x10_0000,
            forall|i: int| 0 <= i < 4 * row ==> #[trigger] output[i] == idct(input@)[i],
        decreases 4 - row,
    {
        let base: usize = row * 4;
        let ghost r = row as int;
        assert(tmp[4 * r + 0] == idct_mid(input@, r, 0));
        assert(tmp[4 * r + 1] == idct_mid(input@, r, 1));
        assert(tmp[4 * r + 2] == idct_mid(input@, r, 2));
        assert(tmp[4 * r + 3] == idct_mid(input@, r, 3));
        let o: (i16, i16, i16, i16) = idct_row(
            tmp[base],
            tmp[base + 1],
            tmp[base + 2],
            tmp[base + 3],
        );
        let ghost before = output@;
        output[base] = o.0;
        output[base + 1] = o.1;
        output[base + 2] = o.2;
        output[base + 3] = o.3;
        assert forall|i: int| 0 <= i < 4 * (row + 1) implies #[trigger] output[i] == idct(
            input@,
        )[i] by {
            if i < 4 * row {
                assert(before[i] == idct(input@)[i]);
            } else {
                assert(i / 4 == r);
            }
        }
        row = row + 1;
    }
    assert(output@ =~= idct(input@));
}

/// The inverse cosine transform of a block with only its first
/// coefficient is flat.
pub proof fn law_idct_dc_only(dc: i16)
    ensures
        idct(dc_block(dc)) == Seq::new(16, |i: int| ((dc + 4) / 8) as i16),
{
    reveal(idct_pass);
    assert(idct(dc_block(dc)) =~= Seq::new(16, |i: int| ((dc + 4) / 8) as i16));
}

/// A predicted pixel plus its residue, limited to a pixel.
pub open spec fn add_clamped(p: u8, r: i16) -> u8 {
    arith::clamp_int(p + r, 0, 255) as u8
}

/// Pixels plus residue.
pub open spec fn residue_sum(p: Seq<u8>, r: Seq<i16>) -> Seq<u8> {
    Seq::new(p.len(), |i: int| add_clamped(p[i], r[i]))
}

/// Adds a residue to a predicted block.
pub fn add_residue_4x4(prediction: &[u8; 16], residue: &[i16; 16], out: &mut [u8; 16])
    ensures
        final(out)@ == residue_sum(prediction@, residue@),
{
    let mut i: usize = 0;
    while i < 16
        invariant
            i <= 16,
            forall|j: int| 0 <= j < i ==> #[trigger] out[j] == add_clamped(prediction[j], residue[j]),
        decreases 16 - i,
    {
        out[i] = clamp255(prediction[i] as i32 + residue[i] as i32);
        i = i + 1;
    }
    assert(out@ =~= residue_sum(prediction@, residue@));
}

/// Adds a residue to predicted pixels.
pub fn add_residue(prediction: &[u8], residue: &[i16], out: &mut [u8])
    requires
        prediction@.len() == residue@.len(),
        prediction@.len() == old(out)@.len(),
    ensures
        final(out)@ == residue_sum(prediction@, residue@),
{
    let mut i: usize = 0;
    while i < prediction.len()
        invariant
            i <= prediction@.len(),
            prediction@.len() == residue@.len(),
            prediction@.len() == out@.len(),
            forall|j: int| 0 <= j < i ==> #[trigger] out@[j] == add_clamped(prediction@[j], residue@[j]),
        decreases prediction@.len() - i,
    {
        out[i] = clamp255(prediction[i] as i32 + residue[i] as i32);
        i = i + 1;
    }
    assert(out@ =~= residue_sum(prediction@, residue@));
}

/// A zero residue leaves the prediction as it is.
pub proof fn law_zero_residue_is_identity(p: Seq<u8>)
    ensures
        residue_sum(p, Seq::new(p.len(), |i: int| 0i16)) == p,
{
    assert(residue_sum(p, Seq::new(p.len(), |i: int| 0i16)) =~= p);
}

} // verus!
