//! Forward transforms on 32-bit residuals.
use crate::arith::{shr12, shr16, shr3, shr4};
use vstd::prelude::*;

verus! {

/// `x` is a 32-bit signed number.
pub open spec fn fits32(x: int) -> bool {
    -0x8000_0000 <= x <= 0x7fff_ffff
}

/// Column pass of the forward cosine transform.
#[verifier::opaque]
pub open spec fn dct_column(s0: int, s1: int, s2: int, s3: int, k: int) -> int {
    let a = (s0 + s3) * 8;
    let b = (s1 + s2) * 8;
    let c = (s1 - s2) * 8;
    let d = (s0 - s3) * 8;
    if k == 0 {
        a + b
    } else if k == 1 {
        (c * 2217 + d * 5352 + 14500) / 4096
    } else if k == 2 {
        a - b
    } else {
        (d * 2217 - c * 5352 + 7500) / 4096
    }
}

/// Row pass of the forward cosine transform.
#[verifier::opaque]
pub open spec fn dct_row(s0: int, s1: int, s2: int, s3: int, k: int) -> int {
    let a = s0 + s3;
    let b = s1 + s2;
    let c = s1 - s2;
    let d = s0 - s3;
    if k == 0 {
        (a + b + 7) / 16
    } else if k == 1 {
        (c * 2217 + d * 5352 + 12000) / 65536 + if d != 0 { 1int } else { 0 }
    } else if k == 2 {
        (a - b + 7) / 16
    } else {
        (d * 2217 - c * 5352 + 51000) / 65536
    }
}

pub open spec fn dct_mid(s: Seq<i32>, row: int, col: int) -> int {
    dct_column(s[col] as int, s[4 + col] as int, s[8 + col] as int, s[12 + col] as int, row)
}

/// Forward cosine transform.
pub open spec fn dct_at(s: Seq<i32>, i: int) -> int {
    dct_row(
        dct_mid(s, i / 4, 0),
        dct_mid(s, i / 4, 1),
        dct_mid(s, i / 4, 2),
        dct_mid(s, i / 4, 3),
        i % 4,
    )
}

/// The rotation of `(c, d)` by the two odd basis functions stays in 32 bits.
pub open spec fn rotation_fits(c: int, d: int, even_bias: int, odd_bias: int) -> bool {
    &&& fits32(c * 2217)
    &&& fits32(d * 5352)
    &&& fits32(c * 2217 + d * 5352)
    &&& fits32(c * 2217 + d * 5352 + even_bias)
    &&& fits32(d * 2217)
    &&& fits32(c * 5352)
    &&& fits32(d * 2217 - c * 5352)
    &&& fits32(d * 2217 - c * 5352 + odd_bias)
}

/// No step of the column pass leaves 32 bits.
pub open spec fn column_fits(s0: int, s1: int, s2: int, s3: int) -> bool {
    let a = (s0 + s3) * 8;
    let b = (s1 + s2) * 8;
    let c = (s1 - s2) * 8;
    let d = (s0 - s3) * 8;
    &&& fits32(a)
    &&& fits32(b)
    &&& fits32(c)
    &&& fits32(d)
    &&& fits32(a + b)
    &&& fits32(a - b)
    &&& rotation_fits(c, d, 14500, 7500)
}

/// No step of the row pass leaves 32 bits.
pub open spec fn row_fits(s0: int, s1: int, s2: int, s3: int) -> bool {
    let a = s0 + s3;
    let b = s1 + s2;
    let c = s1 - s2;
    let d = s0 - s3;
    &&& fits32(a)
    &&& fits32(b)
    &&& fits32(c)
    &&& fits32(d)
    &&& fits32(a + b)
    &&& fits32(a + b + 7)
    &&& fits32(a - b)
    &&& fits32(a - b + 7)
    &&& rotation_fits(c, d, 12000, 51000)
}

/// No step of the transform leaves 32 bits.
pub open spec fn dct_fits(s: Seq<i32>) -> bool {
    &&& forall|col: int|
        0 <= col < 4 ==> #[trigger] column_fits(
            s[col] as int,
            s[4 + col] as int,
            s[8 + col] as int,
            s[12 + col] as int,
        )
    &&& forall|row: int|
        0 <= row < 4 ==> #[trigger] row_fits(
            dct_mid(s, row, 0),
            dct_mid(s, row, 1),
            dct_mid(s, row, 2),
            dct_mid(s, row, 3),
        )
}

/// Residuals of up to twelve bits never leave the transform's range.
pub proof fn law_small_residuals_fit(s: Seq<i32>)
    requires
        s.len() == 16,
        forall|i: int| 0 <= i < 16 ==> -4096 <= #[trigger] s[i] <= 4096,
    ensures
        dct_fits(s),
{
    reveal(dct_column);
    assert forall|row: int| 0 <= row < 4 implies #[trigger] row_fits(
        dct_mid(s, row, 0),
        dct_mid(s, row, 1),
        dct_mid(s, row, 2),
        dct_mid(s, row, 3),
    ) by {
        lemma_mid_bound(s, row, 0);
        lemma_mid_bound(s, row, 1);
        lemma_mid_bound(s, row, 2);
        lemma_mid_bound(s, row, 3);
    }
}

proof fn lemma_mid_bound(s: Seq<i32>, row: int, col: int)
    requires
        s.len() == 16,
        0 <= row < 4,
        0 <= col < 4,
        forall|i: int| 0 <= i < 16 ==> -4096 <= #[trigger] s[i] <= 4096,
    ensures
        -131072 <= dct_mid(s, row, col) <= 131072,
{
    reveal(dct_column);
    assert(-4096 <= s[col] <= 4096);
    assert(-4096 <= s[4 + col] <= 4096);
    assert(-4096 <= s[8 + col] <= 4096);
    assert(-4096 <= s[12 + col] <= 4096);
}

fn column(s0: i32, s1: i32, s2: i32, s3: i32) -> (o: (i32, i32, i32, i32))
    requires
        column_fits(s0 as int, s1 as int, s2 as int, s3 as int),
    ensures
        o.0 == dct_column(s0 as int, s1 as int, s2 as int, s3 as int, 0),
        o.1 == dct_column(s0 as int, s1 as int, s2 as int, s3 as int, 1),
        o.2 == dct_column(s0 as int, s1 as int, s2 as int, s3 as int, 2),
        o.3 == dct_column(s0 as int, s1 as int, s2 as int, s3 as int, 3),
{
    proof {
        reveal(dct_column);
    }
    let a: i32 = (s0 + s3) * 8;
    let b: i32 = (s1 + s2) * 8;
    let c: i32 = (s1 - s2) * 8;
    let d: i32 = (s0 - s3) * 8;
    (a + b, shr12(c * 2217 + d * 5352 + 14500), a - b, shr12(d * 2217 - c * 5352 + 7500))
}

fn row(s0: i32, s1: i32, s2: i32, s3: i32) -> (o: (i32, i32, i32, i32))
    requires
        row_fits(s0 as int, s1 as int, s2 as int, s3 as int),
    ensures
        o.0 == dct_row(s0 as int, s1 as int, s2 as int, s3 as int, 0),
        o.1 == dct_row(s0 as int, s1 as int, s2 as int, s3 as int, 1),
        o.2 == dct_row(s0 as int, s1 as int, s2 as int, s3 as int, 2),
        o.3 == dct_row(s0 as int, s1 as int, s2 as int, s3 as int, 3),
{
    proof {
        reveal(dct_row);
    }
    let a: i32 = s0 + s3;
    let b: i32 = s1 + s2;
    let c: i32 = s1 - s2;
    let d: i32 = s0 - s3;
    let extra: i32 = if d != 0 {
        1
    } else {
        0
    };
    (
        shr4(a + b + 7),
        shr16((c * 2217 + d * 5352 + 12000) as i64) as i32 + extra,
        shr4(a - b + 7),
        shr16((d * 2217 - c * 5352 + 51000) as i64) as i32,
    )
}

/// Forward cosine transform of a residual block.
pub fn fdct4x4(input: &[i32; 16]) -> (out: [i32; 16])
    requires
        dct_fits(input@),
    ensures
        forall|i: int| 0 <= i < 16 ==> #[trigger] out[i] == dct_at(input@, i),
{
    let mut work: [i32; 16] = [0i32; 16];
    let mut col: usize = 0;
    while col < 4
        invariant
            col <= 4,
            dct_fits(input@),
            forall|r: int, c: int|
                #![trigger dct_mid(input@, r, c)]
                0 <= r < 4 && 0 <= c < col ==> work[4 * r + c] == dct_mid(input@, r, c),
        decreases 4 - col,
    {
        assert(column_fits(
            input@[col as int] as int,
            input@[4 + col as int] as int,
            input@[8 + col as int] as int,
            input@[12 + col as int] as int,
        ));
        let o: (i32, i32, i32, i32) = column(
            input[col],
            input[col + 4],
            input[col + 8],
            input[col + 12],
        );
        let ghost before = work@;
        work[col] = o.0;
        work[col + 4] = o.1;
        work[col + 8] = o.2;
        work[col + 12] = o.3;
        assert forall|r: int, c: int|
            #![trigger dct_mid(input@, r, c)]
            0 <= r < 4 && 0 <= c < col + 1 implies work[4 * r + c] == dct_mid(input@, r, c) by {
            if c < col {
                assert(before[4 * r + c] == dct_mid(input@, r, c));
            }
        }
        col = col + 1;
    }
    let mut out: [i32; 16] = [0i32; 16];
    let mut line: usize = 0;
    while line < 4
        invariant
            line <= 4,
            dct_fits(input@),
            forall|r: int, c: int|
                #![trigger dct_mid(input@, r, c)]
                0 <= r < 4 && 0 <= c < 4 ==> work[4 * r + c] == dct_mid(input@, r, c),
            forall|i: int| 0 <= i < 4 * line ==> #[trigger] out[i] == dct_at(input@, i),
        decreases 4 - line,
    {
        let off: usize = line * 4;
        let ghost r = line as int;
        assert(work[4 * r + 0] == dct_mid(input@, r, 0));
        assert(work[4 * r + 1] == dct_mid(input@, r, 1));
        assert(work[4 * r + 2] == dct_mid(input@, r, 2));
        assert(work[4 * r + 3] == dct_mid(input@, r, 3));
        assert(row_fits(
            dct_mid(input@, r, 0),
            dct_mid(input@, r, 1),
            dct_mid(input@, r, 2),
            dct_mid(input@, r, 3),
        ));
        let o: (i32, i32, i32, i32) = row(work[off], work[off + 1], work[off + 2], work[off + 3]);
        let ghost before = out@;
        out[off] = o.0;
        out[off + 1] = o.1;
        out[off + 2] = o.2;
        out[off + 3] = o.3;
        assert forall|i: int| 0 <= i < 4 * (line + 1) implies #[trigger] out[i] == dct_at(
            input@,
            i,
        ) by {
            if i < 4 * line {
                assert(before[i] == dct_at(input@, i));
            } else {
                assert(i / 4 == r);
            }
        }
        line = line + 1;
    }
    out
}

/// Row pass of the forward Walsh-Hadamard transform.
#[verifier::opaque]
pub open spec fn wht_row(s0: int, s1: int, s2: int, s3: int, k: int) -> int {
    let a = (s0 + s2) * 4;
    let d = (s1 + s3) * 4;
    let c = (s1 - s3) * 4;
    let b = (s0 - s2) * 4;
    if k == 0 {
        a + d + if a != 0 { 1int } else { 0 }
    } else if k == 1 {
        b + c
    } else if k == 2 {
        b - c
    } else {
        a - d
    }
}

/// `x / 8` rounded to the nearest, towards zero below zero.
pub open spec fn eighth(x: int) -> int {
    (x + if x < 0 { 1int } else { 0 } + 3) / 8
}

/// Column pass of the forward Walsh-Hadamard transform.
#[verifier::opaque]
pub open spec fn wht_column(s0: int, s1: int, s2: int, s3: int, k: int) -> int {
    let a = s0 + s2;
    let d = s1 + s3;
    let c = s1 - s3;
    let b = s0 - s2;
    eighth(
        if k == 0 {
            a + d
        } else if k == 1 {
            b + c
        } else if k == 2 {
            b - c
        } else {
            a - d
        },
    )
}

pub open spec fn wht_mid(s: Seq<i32>, row: int, col: int) -> int {
    wht_row(
        s[4 * row] as int,
        s[4 * row + 1] as int,
        s[4 * row + 2] as int,
        s[4 * row + 3] as int,
        col,
    )
}

/// Forward Walsh-Hadamard transform.
pub open spec fn wht_at(s: Seq<i32>, i: int) -> int {
    wht_column(
        wht_mid(s, 0, i % 4),
        wht_mid(s, 1, i % 4),
        wht_mid(s, 2, i % 4),
        wht_mid(s, 3, i % 4),
        i / 4,
    )
}

/// No step of the row pass leaves 32 bits.
pub open spec fn wht_row_fits(s0: int, s1: int, s2: int, s3: int) -> bool {
    let a = (s0 + s2) * 4;
    let d = (s1 + s3) * 4;
    let c = (s1 - s3) * 4;
    let b = (s0 - s2) * 4;
    &&& fits32(a)
    &&& fits32(b)
    &&& fits32(c)
    &&& fits32(d)
    &&& fits32(a + d)
    &&& fits32(a + d + 1)
    &&& fits32(b + c)
    &&& fits32(b - c)
    &&& fits32(a - d)
}

/// No step of the column pass leaves 32 bits.
pub open spec fn wht_column_fits(s0: int, s1: int, s2: int, s3: int) -> bool {
    let a = s0 + s2;
    let d = s1 + s3;
    let c = s1 - s3;
    let b = s0 - s2;
    &&& fits32(a)
    &&& fits32(b)
    &&& fits32(c)
    &&& fits32(d)
    &&& fits32(a + d)
    &&& fits32(a + d + 3)
    &&& fits32(b + c)
    &&& fits32(b + c + 3)
    &&& fits32(b - c)
    &&& fits32(b - c + 3)
    &&& fits32(a - d)
    &&& fits32(a - d + 3)
}

/// No step of the transform leaves 32 bits.
pub open spec fn wht_fits(s: Seq<i32>) -> bool {
    &&& forall|row: int|
        0 <= row < 4 ==> #[trigger] wht_row_fits(
            s[4 * row] as int,
            s[4 * row + 1] as int,
            s[4 * row + 2] as int,
            s[4 * row + 3] as int,
        )
    &&& forall|col: int|
        0 <= col < 4 ==> #[trigger] wht_column_fits(
            wht_mid(s, 0, col),
            wht_mid(s, 1, col),
            wht_mid(s, 2, col),
            wht_mid(s, 3, col),
        )
}

fn wht_row_pass(s0: i32, s1: i32, s2: i32, s3: i32) -> (o: (i32, i32, i32, i32))
    requires
        wht_row_fits(s0 as int, s1 as int, s2 as int, s3 as int),
    ensures
        o.0 == wht_row(s0 as int, s1 as int, s2 as int, s3 as int, 0),
        o.1 == wht_row(s0 as int, s1 as int, s2 as int, s3 as int, 1),
        o.2 == wht_row(s0 as int, s1 as int, s2 as int, s3 as int, 2),
        o.3 == wht_row(s0 as int, s1 as int, s2 as int, s3 as int, 3),
{
    proof {
        reveal(wht_row);
    }
    let a: i32 = (s0 + s2) * 4;
    let d: i32 = (s1 + s3) * 4;
    let c: i32 = (s1 - s3) * 4;
    let b: i32 = (s0 - s2) * 4;
    let extra: i32 = if a != 0 {
        1
    } else {
        0
    };
    (a + d + extra, b + c, b - c, a - d)
}

fn round_eighth(x: i32) -> (r: i32)
    requires
        fits32(x + 3),
    ensures
        r == eighth(x as int),
{
    if x < 0 {
        shr3(x + 4)
    } else {
        shr3(x + 3)
    }
}

fn wht_column_pass(s0: i32, s1: i32, s2: i32, s3: i32) -> (o: (i32, i32, i32, i32))
    requires
        wht_column_fits(s0 as int, s1 as int, s2 as int, s3 as int),
    ensures
        o.0 == wht_column(s0 as int, s1 as int, s2 as int, s3 as int, 0),
        o.1 == wht_column(s0 as int, s1 as int, s2 as int, s3 as int, 1),
        o.2 == wht_column(s0 as int, s1 as int, s2 as int, s3 as int, 2),
        o.3 == wht_column(s0 as int, s1 as int, s2 as int, s3 as int, 3),
{
    proof {
        reveal(wht_column);
    }
    let a: i32 = s0 + s2;
    let d: i32 = s1 + s3;
    let c: i32 = s1 - s3;
    let b: i32 = s0 - s2;
    (round_eighth(a + d), round_eighth(b + c), round_eighth(b - c), round_eighth(a - d))
}

/// Forward Walsh-Hadamard transform of a block.
pub fn fwht4x4(input: &[i32; 16]) -> (out: [i32; 16])
    requires
        wht_fits(input@),
    ensures
        forall|i: int| 0 <= i < 16 ==> #[trigger] out[i] == wht_at(input@, i),
{
    let mut work: [i32; 16] = [0i32; 16];
    let mut line: usize = 0;
    while line < 4
        invariant
            line <= 4,
            wht_fits(input@),
            forall|r: int, c: int|
                #![trigger wht_mid(input@, r, c)]
                0 <= r < line && 0 <= c < 4 ==> work[4 * r + c] == wht_mid(input@, r, c),
        decreases 4 - line,
    {
        let off: usize = line * 4;
        let ghost r0 = line as int;
        assert(wht_row_fits(
            input@[4 * r0] as int,
            input@[4 * r0 + 1] as int,
            input@[4 * r0 + 2] as int,
            input@[4 * r0 + 3] as int,
        ));
        let o: (i32, i32, i32, i32) = wht_row_pass(
            input[off],
            input[off + 1],
            input[off + 2],
            input[off + 3],
        );
        let ghost before = work@;
        work[off] = o.0;
        work[off + 1] = o.1;
        work[off + 2] = o.2;
        work[off + 3] = o.3;
        assert forall|r: int, c: int|
            #![trigger wht_mid(input@, r, c)]
            0 <= r < line + 1 && 0 <= c < 4 implies work[4 * r + c] == wht_mid(input@, r, c) by {
            if r < line {
                assert(before[4 * r + c] == wht_mid(input@, r, c));
            }
        }
        line = line + 1;
    }
    let mut out: [i32; 16] = [0i32; 16];
    let mut col: usize = 0;
    while col < 4
        invariant
            col <= 4,
            wht_fits(input@),
            forall|r: int, c: int|
                #![trigger wht_mid(input@, r, c)]
                0 <= r < 4 && 0 <= c < 4 ==> work[4 * r + c] == wht_mid(input@, r, c),
            forall|i: int| 0 <= i < 16 && i % 4 < col ==> #[trigger] out[i] == wht_at(input@, i),
        decreases 4 - col,
    {
        let ghost c0 = col as int;
        assert(work[4 * 0 + c0] == wht_mid(input@, 0, c0));
        assert(work[4 * 1 + c0] == wht_mid(input@, 1, c0));
        assert(work[4 * 2 + c0] == wht_mid(input@, 2, c0));
        assert(work[4 * 3 + c0] == wht_mid(input@, 3, c0));
        assert(wht_column_fits(
            wht_mid(input@, 0, c0),
            wht_mid(input@, 1, c0),
            wht_mid(input@, 2, c0),
            wht_mid(input@, 3, c0),
        ));
        let o: (i32, i32, i32, i32) = wht_column_pass(
            work[col],
            work[col + 4],
            work[col + 8],
            work[col + 12],
        );
        let ghost before = out@;
        out[col] = o.0;
        out[col + 4] = o.1;
        out[col + 8] = o.2;
        out[col + 12] = o.3;
        assert forall|i: int| 0 <= i < 16 && i % 4 < col + 1 implies #[trigger] out[i] == wht_at(
            input@,
            i,
        ) by {
            if i % 4 < col {
                assert(before[i] == wht_at(input@, i));
            } else {
                assert(i % 4 == c0);
                assert(i == 4 * (i / 4) + c0);
            }
        }
        col = col + 1;
    }
    out
}

} // verus!
