//! Intra prediction from the pixels around a block.
use crate::arith;
use crate::macroblock::{IntraBmode, IntraUvMode, IntraYMode};
use vstd::prelude::*;

verus! {

/// Stands for a pixel above the frame.
pub const DEFAULT_ABOVE_PIXEL: u8 = 127;

/// Stands for a pixel to the left of the frame.
pub const DEFAULT_LEFT_PIXEL: u8 = 129;

/// Sum of the first `n` pixels.
pub open spec fn pixel_sum(s: Seq<u8>, n: nat) -> int
    decreases n,
{
    if n == 0 {
        0
    } else {
        pixel_sum(s, (n - 1) as nat) + s[n - 1]
    }
}

/// Rounded mean of the pixels above and to the left that exist.
pub open spec fn mean_edge(n: nat, above: Option<Seq<u8>>, left: Option<Seq<u8>>) -> int {
    match (above, left) {
        (Some(a), Some(l)) => (pixel_sum(a, n) + pixel_sum(l, n) + n) / (2 * n as int),
        (Some(a), None) => (pixel_sum(a, n) + n as int / 2) / n as int,
        (None, Some(l)) => (pixel_sum(l, n) + n as int / 2) / n as int,
        (None, None) => 128,
    }
}

/// Pixel `i` of an edge, or `missing` where there is no edge.
pub open spec fn edge_pixel(edge: Option<Seq<u8>>, i: int, missing: u8) -> u8 {
    match edge {
        Some(e) => e[i],
        None => missing,
    }
}

/// What stands at row `r` and column `c` of a predicted square.
pub open spec fn square_pixel(
    mode: IntraUvMode,
    n: nat,
    above: Option<Seq<u8>>,
    left: Option<Seq<u8>>,
    corner: u8,
    r: int,
    c: int,
) -> u8 {
    let a = edge_pixel(above, c, DEFAULT_ABOVE_PIXEL);
    let l = edge_pixel(left, r, DEFAULT_LEFT_PIXEL);
    match mode {
        IntraUvMode::Dc => mean_edge(n, above, left) as u8,
        IntraUvMode::V => a,
        IntraUvMode::H => l,
        IntraUvMode::Tm => arith::clamp_int(l + a - corner, 0, 255) as u8,
    }
}

/// Predicted square of `n` by `n` pixels.
#[verifier::opaque]
pub open spec fn predicted_square(
    mode: IntraUvMode,
    n: nat,
    above: Option<Seq<u8>>,
    left: Option<Seq<u8>>,
    corner: u8,
) -> Seq<u8> {
    Seq::new(
        n * n,
        |k: int| square_pixel(mode, n, above, left, corner, k / n as int, k % n as int),
    )
}

/// Prediction of a square that a luma mode for whole macroblocks names.
pub open spec fn square_mode(mode: IntraYMode) -> IntraUvMode {
    match mode {
        IntraYMode::Dc => IntraUvMode::Dc,
        IntraYMode::V => IntraUvMode::V,
        IntraYMode::H => IntraUvMode::H,
        IntraYMode::Tm => IntraUvMode::Tm,
        IntraYMode::B => IntraUvMode::Dc,
    }
}

pub open spec fn view_edge16(e: Option<&[u8; 16]>) -> Option<Seq<u8>> {
    match e {
        Some(p) => Some(p@),
        None => None,
    }
}

pub open spec fn view_edge8(e: Option<&[u8; 8]>) -> Option<Seq<u8>> {
    match e {
        Some(p) => Some(p@),
        None => None,
    }
}

pub open spec fn view_edge(e: Option<&[u8]>) -> Option<Seq<u8>> {
    match e {
        Some(p) => Some(p@),
        None => None,
    }
}

fn sum_edge(s: &[u8], n: usize) -> (r: u32)
    requires
        n <= s@.len(),
        n <= 16,
    ensures
        r == pixel_sum(s@, n as nat),
        r <= 255 * n,
{
    let mut i: usize = 0;
    let mut r: u32 = 0;
    while i < n
        invariant
            i <= n <= s@.len(),
            n <= 16,
            r == pixel_sum(s@, i as nat),
            r <= 255 * i,
        decreases n - i,
    {
        r = r + s[i] as u32;
        i = i + 1;
    }
    r
}

fn mean_of_edge(n: usize, above: Option<&[u8]>, left: Option<&[u8]>) -> (r: u8)
    requires
        n == 16 || n == 8,
        above is Some ==> above->0@.len() == n,
        left is Some ==> left->0@.len() == n,
    ensures
        r == mean_edge(n as nat, view_edge(above), view_edge(left)),
{
    let size: u32 = n as u32;
    match (above, left) {
        (Some(a), Some(l)) => ((sum_edge(a, n) + sum_edge(l, n) + size) / (2 * size)) as u8,
        (Some(a), None) => ((sum_edge(a, n) + size / 2) / size) as u8,
        (None, Some(l)) => ((sum_edge(l, n) + size / 2) / size) as u8,
        (None, None) => 128,
    }
}

fn pixel_or(edge: Option<&[u8]>, i: usize, missing: u8) -> (r: u8)
    requires
        edge is Some ==> i < edge->0@.len(),
    ensures
        r == edge_pixel(view_edge(edge), i as int, missing),
{
    match edge {
        Some(e) => e[i],
        None => missing,
    }
}

/// Predicts a square of `n` by `n` pixels into `out`.
fn predict_square(
    mode: IntraUvMode,
    n: usize,
    above: Option<&[u8]>,
    left: Option<&[u8]>,
    corner: u8,
    out: &mut [u8],
)
    requires
        n == 16 || n == 8,
        old(out)@.len() == n * n,
        above is Some ==> above->0@.len() == n,
        left is Some ==> left->0@.len() == n,
    ensures
        final(out)@ == predicted_square(
            mode,
            n as nat,
            view_edge(above),
            view_edge(left),
            corner,
        ),
{
    let mean: u8 = mean_of_edge(n, above, left);
    let total: usize = n * n;
    let mut k: usize = 0;
    while k < total
        invariant
            n == 16 || n == 8,
            total == n * n,
            k <= total,
            out@.len() == total,
            above is Some ==> above->0@.len() == n,
            left is Some ==> left->0@.len() == n,
            mean == mean_edge(n as nat, view_edge(above), view_edge(left)),
            forall|j: int|
                0 <= j < k ==> #[trigger] out@[j] == square_pixel(
                    mode,
                    n as nat,
                    view_edge(above),
                    view_edge(left),
                    corner,
                    j / n as int,
                    j % n as int,
                ),
        decreases total - k,
    {
        let r: usize = k / n;
        let c: usize = k % n;
        assert(r < n && c < n);
        let a: u8 = pixel_or(above, c, DEFAULT_ABOVE_PIXEL);
        let l: u8 = pixel_or(left, r, DEFAULT_LEFT_PIXEL);
        let p: u8 = match mode {
            IntraUvMode::Dc => mean,
            IntraUvMode::V => a,
            IntraUvMode::H => l,
            IntraUvMode::Tm => arith::clamp_i32(l as i32 + a as i32 - corner as i32, 0, 255) as u8,
        };
        out[k] = p;
        k = k + 1;
    }
    proof {
        reveal(predicted_square);
        assert(out@ =~= predicted_square(
            mode,
            n as nat,
            view_edge(above),
            view_edge(left),
            corner,
        ));
    }
}

/// Predicts the luma of a macroblock.
pub fn predict_y16x16(
    mode: IntraYMode,
    above: Option<&[u8; 16]>,
    left: Option<&[u8; 16]>,
    corner: u8,
) -> (out: [u8; 256])
    ensures
        out@ == predicted_square(
            square_mode(mode),
            16,
            view_edge16(above),
            view_edge16(left),
            corner,
        ),
{
    let mut out: [u8; 256] = [0u8;256];
    let a: Option<&[u8]> = match above {
        Some(e) => Some(e),
        None => None,
    };
    let l: Option<&[u8]> = match left {
        Some(e) => Some(e),
        None => None,
    };
    let square: IntraUvMode = match mode {
        IntraYMode::Dc => IntraUvMode::Dc,
        IntraYMode::V => IntraUvMode::V,
        IntraYMode::H => IntraUvMode::H,
        IntraYMode::Tm => IntraUvMode::Tm,
        IntraYMode::B => IntraUvMode::Dc,
    };
    predict_square(square, 16, a, l, corner, &mut out);
    out
}

/// Predicts one chroma plane of a macroblock.
pub fn predict_uv8x8(
    mode: IntraUvMode,
    above: Option<&[u8; 8]>,
    left: Option<&[u8; 8]>,
    corner: u8,
) -> (out: [u8; 64])
    ensures
        out@ == predicted_square(mode, 8, view_edge8(above), view_edge8(left), corner),
{
    let mut out: [u8; 64] = [0u8;64];
    let a: Option<&[u8]> = match above {
        Some(e) => Some(e),
        None => None,
    };
    let l: Option<&[u8]> = match left {
        Some(e) => Some(e),
        None => None,
    };
    predict_square(mode, 8, a, l, corner, &mut out);
    out
}

/// The pixels round a subblock in one row: from the lowest one on the left up
/// to the corner, then along the top. The two end pixels stand twice.
pub open spec fn around(above: Seq<u8>, left: Seq<u8>, corner: u8) -> Seq<u8> {
    seq![
        left[3],
        left[3],
        left[2],
        left[1],
        left[0],
        corner,
        above[0],
        above[1],
        above[2],
        above[3],
        above[4],
        above[5],
        above[6],
        above[7],
        above[7],
    ]
}

/// How each pixel of a subblock comes from the row of pixels round it, for
/// the modes from `Ve` on. Below 16: the weighted mean of three pixels, of
/// which this is the middle one. From 16 on: the mean of two, of which this
/// less 16 is the first.
pub const DIRECTION_TAPS: [[u8; 16]; 8] = [
    [6, 7, 8, 9, 6, 7, 8, 9, 6, 7, 8, 9, 6, 7, 8, 9],
    [4, 4, 4, 4, 3, 3, 3, 3, 2, 2, 2, 2, 1, 1, 1, 1],
    [7, 8, 9, 10, 8, 9, 10, 11, 9, 10, 11, 12, 10, 11, 12, 13],
    [5, 6, 7, 8, 4, 5, 6, 7, 3, 4, 5, 6, 2, 3, 4, 5],
    [21, 22, 23, 24, 5, 6, 7, 8, 4, 21, 22, 23, 3, 5, 6, 7],
    [22, 23, 24, 25, 7, 8, 9, 10, 23, 24, 25, 11, 8, 9, 10, 12],
    [20, 5, 6, 7, 19, 4, 20, 5, 18, 3, 19, 4, 17, 2, 18, 3],
    [19, 3, 18, 2, 18, 2, 17, 1, 17, 1, 16, 16, 16, 16, 16, 16],
];

/// Position of a directional mode in [`DIRECTION_TAPS`].
pub open spec fn direction(mode: IntraBmode) -> int {
    match mode {
        IntraBmode::Ve => 0,
        IntraBmode::He => 1,
        IntraBmode::Ld => 2,
        IntraBmode::Rd => 3,
        IntraBmode::Vr => 4,
        IntraBmode::Vl => 5,
        IntraBmode::Hd => 6,
        IntraBmode::Hu => 7,
        _ => 0,
    }
}

pub open spec fn tapped(x: Seq<u8>, tap: int) -> int {
    if tap < 16 {
        (x[tap - 1] + 2 * x[tap] + x[tap + 1] + 2) / 4
    } else {
        (x[tap - 16] + x[tap - 15] + 1) / 2
    }
}

/// Pixel `k` of a predicted subblock.
pub open spec fn subblock_pixel(
    mode: IntraBmode,
    above: Seq<u8>,
    left: Seq<u8>,
    corner: u8,
    k: int,
) -> u8 {
    match mode {
        IntraBmode::Dc => ((pixel_sum(above, 4) + pixel_sum(left, 4) + 4) / 8) as u8,
        IntraBmode::Tm => arith::clamp_int(left[k / 4] + above[k % 4] - corner, 0, 255) as u8,
        _ => tapped(around(above, left, corner), DIRECTION_TAPS[direction(mode)][k] as int) as u8,
    }
}

/// Predicted subblock.
#[verifier::opaque]
pub open spec fn predicted_subblock(
    mode: IntraBmode,
    above: Seq<u8>,
    left: Seq<u8>,
    corner: u8,
) -> Seq<u8> {
    Seq::new(16, |k: int| subblock_pixel(mode, above, left, corner, k))
}

proof fn lemma_taps(d: int, k: int)
    requires
        0 <= d < 8,
        0 <= k < 16,
    ensures
        1 <= DIRECTION_TAPS[d][k] <= 13 || 16 <= DIRECTION_TAPS[d][k] <= 29,
{
}

fn directed(x: &[u8; 15], d: usize, k: usize) -> (r: u8)
    requires
        d < 8,
        k < 16,
    ensures
        r == tapped(x@, DIRECTION_TAPS[d as int][k as int] as int),
{
    let t: usize = DIRECTION_TAPS[d][k] as usize;
    proof {
        lemma_taps(d as int, k as int);
    }
    if t < 16 {
        ((x[t - 1] as u32 + 2 * x[t] as u32 + x[t + 1] as u32 + 2) / 4) as u8
    } else {
        ((x[t - 16] as u32 + x[t - 15] as u32 + 1) / 2) as u8
    }
}

/// Predicts one luma subblock.
pub fn predict_b4x4(mode: IntraBmode, above: &[u8; 8], left: &[u8; 4], corner: u8) -> (out: [u8;
    16])
    ensures
        out@ == predicted_subblock(mode, above@, left@, corner),
{
    let mut out: [u8; 16] = [0u8;16];
    let mean: u8 = ((sum_edge(above, 4) + sum_edge(left, 4) + 4) / 8) as u8;
    let x: [u8; 15] = [
        left[3],
        left[3],
        left[2],
        left[1],
        left[0],
        corner,
        above[0],
        above[1],
        above[2],
        above[3],
        above[4],
        above[5],
        above[6],
        above[7],
        above[7],
    ];
    assert(x@ =~= around(above@, left@, corner));
    let d: usize = match mode {
        IntraBmode::Ve => 0,
        IntraBmode::He => 1,
        IntraBmode::Ld => 2,
        IntraBmode::Rd => 3,
        IntraBmode::Vr => 4,
        IntraBmode::Vl => 5,
        IntraBmode::Hd => 6,
        IntraBmode::Hu => 7,
        _ => 0,
    };
    let mut k: usize = 0;
    while k < 16
        invariant
            k <= 16,
            x@ == around(above@, left@, corner),
            d == direction(mode),
            d < 8,
            mean == (pixel_sum(above@, 4) + pixel_sum(left@, 4) + 4) / 8,
            forall|j: int|
                0 <= j < k ==> #[trigger] out[j] == subblock_pixel(
                    mode,
                    above@,
                    left@,
                    corner,
                    j,
                ),
        decreases 16 - k,
    {
        let p: u8 = match mode {
            IntraBmode::Dc => mean,
            IntraBmode::Tm => arith::clamp_i32(
                left[k / 4] as i32 + above[k % 4] as i32 - corner as i32,
                0,
                255,
            ) as u8,
            _ => directed(&x, d, k),
        };
        out[k] = p;
        k = k + 1;
    }
    proof {
        reveal(predicted_subblock);
        assert(out@ =~= predicted_subblock(mode, above@, left@, corner));
    }
    out
}

} // verus!
