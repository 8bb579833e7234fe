//! Prediction from a reference plane at fractions of a pixel.
use crate::arith;
use crate::arith::{clamp_i32, shr3, shr7};
use crate::tables::SIXTAP;
use vstd::prelude::*;

verus! {

/// A plane that is predicted from.
pub struct RefPlane<'a> {
    pub data: &'a [u8],
    pub stride: usize,
    pub width: usize,
    pub height: usize,
}

impl<'a> RefPlane<'a> {
    /// Every pixel of the plane is in its data.
    pub open spec fn inside(&self) -> bool {
        &&& 1 <= self.width <= 0x10000
        &&& 1 <= self.height <= 0x10000
        &&& (self.height - 1) * self.stride + self.width <= self.data@.len()
    }
}

/// Model of [`RefPlane`].
pub struct RefModel {
    pub data: Seq<u8>,
    pub stride: int,
    pub width: int,
    pub height: int,
}

impl<'a> View for RefPlane<'a> {
    type V = RefModel;

    open spec fn view(&self) -> RefModel {
        RefModel {
            data: self.data@,
            stride: self.stride as int,
            width: self.width as int,
            height: self.height as int,
        }
    }
}

/// The pixel at (`x`, `y`), or the nearest one of the plane.
pub open spec fn ref_pixel(r: RefModel, x: int, y: int) -> u8 {
    r.data[arith::clamp_int(y, 0, r.height - 1) * r.stride + arith::clamp_int(x, 0, r.width - 1)]
}

/// Six pixels filtered by the taps for `f` eighths of a pixel.
#[verifier::opaque]
pub open spec fn six_taps(f: int, a: u8, b: u8, c: u8, d: u8, e: u8, g: u8) -> u8 {
    arith::clamp_int(
        (SIXTAP[f][0] * a + SIXTAP[f][1] * b + SIXTAP[f][2] * c + SIXTAP[f][3] * d + SIXTAP[f][4]
            * e + SIXTAP[f][5] * g + 64) / 128,
        0,
        255,
    ) as u8
}

/// The pixel `f` eighths to the right of (`x`, `y`).
pub open spec fn across_pixel(r: RefModel, x: int, y: int, f: int) -> u8 {
    six_taps(
        f,
        ref_pixel(r, x - 2, y),
        ref_pixel(r, x - 1, y),
        ref_pixel(r, x, y),
        ref_pixel(r, x + 1, y),
        ref_pixel(r, x + 2, y),
        ref_pixel(r, x + 3, y),
    )
}

/// The pixel `fx` eighths to the right of and `fy` eighths below (`x`, `y`).
pub open spec fn fraction_pixel(r: RefModel, x: int, y: int, fx: int, fy: int) -> u8 {
    six_taps(
        fy,
        across_pixel(r, x, y - 2, fx),
        across_pixel(r, x, y - 1, fx),
        across_pixel(r, x, y, fx),
        across_pixel(r, x, y + 1, fx),
        across_pixel(r, x, y + 2, fx),
        across_pixel(r, x, y + 3, fx),
    )
}

/// The 4x4 block at (`x8`, `y8`) eighths of a pixel.
#[verifier::opaque]
pub open spec fn fraction_block(r: RefModel, x8: int, y8: int) -> Seq<u8> {
    Seq::new(
        16,
        |k: int| fraction_pixel(r, x8 / 8 + k % 4, y8 / 8 + k / 4, x8 % 8, y8 % 8),
    )
}

fn filter_six(f: usize, a: u8, b: u8, c: u8, d: u8, e: u8, g: u8) -> (p: u8)
    requires
        f < 8,
    ensures
        p == six_taps(f as int, a, b, c, d, e, g),
{
    proof {
        reveal(six_taps);
        lemma_taps_small(f as int);
        lemma_tap_product(SIXTAP[f as int][0] as int, a as int);
        lemma_tap_product(SIXTAP[f as int][1] as int, b as int);
        lemma_tap_product(SIXTAP[f as int][2] as int, c as int);
        lemma_tap_product(SIXTAP[f as int][3] as int, d as int);
        lemma_tap_product(SIXTAP[f as int][4] as int, e as int);
        lemma_tap_product(SIXTAP[f as int][5] as int, g as int);
    }
    let t: [i32; 6] = SIXTAP[f];
    let sum: i32 = t[0] * a as i32 + t[1] * b as i32 + t[2] * c as i32 + t[3] * d as i32 + t[4]
        * e as i32 + t[5] * g as i32 + 64;
    clamp_i32(shr7(sum), 0, 255) as u8
}

proof fn lemma_taps_small(f: int)
    requires
        0 <= f < 8,
    ensures
        forall|t: int| 0 <= t < 6 ==> -128 <= #[trigger] SIXTAP[f][t] <= 128,
{
}

proof fn lemma_tap_product(t: int, p: int)
    requires
        -128 <= t <= 128,
        0 <= p <= 255,
    ensures
        -32640 <= t * p <= 32640,
{
    assert(-32640 <= t * p <= 32640) by (nonlinear_arith)
        requires
            -128 <= t <= 128,
            0 <= p <= 255,
    ;
}

fn load_ref(r: &RefPlane<'_>, x: i32, y: i32) -> (p: u8)
    requires
        r.inside(),
    ensures
        p == ref_pixel(r@, x as int, y as int),
{
    let len: usize = r.data.len();
    let cx: usize = clamp_i32(x, 0, r.width as i32 - 1) as usize;
    let cy: usize = clamp_i32(y, 0, r.height as i32 - 1) as usize;
    assert(cy * r.stride <= (r.height - 1) * r.stride) by (nonlinear_arith)
        requires
            cy <= r.height - 1,
    ;
    r.data[cy * r.stride + cx]
}

fn load_across(r: &RefPlane<'_>, x: i32, y: i32, f: usize) -> (p: u8)
    requires
        r.inside(),
        -0x2000_0000 <= x <= 0x2000_0000,
        f < 8,
    ensures
        p == across_pixel(r@, x as int, y as int, f as int),
{
    filter_six(
        f,
        load_ref(r, x - 2, y),
        load_ref(r, x - 1, y),
        load_ref(r, x, y),
        load_ref(r, x + 1, y),
        load_ref(r, x + 2, y),
        load_ref(r, x + 3, y),
    )
}

/// Nine rows of four pixels, filtered along the rows, from two above (`x`,
/// `y`) on.
#[verifier::opaque]
spec fn rows_across(rows: Seq<u8>, r: RefModel, x: int, y: int, fx: int) -> bool {
    forall|j: int|
        0 <= j < 36 ==> #[trigger] rows[j] == across_pixel(r, x + j % 4, y - 2 + j / 4, fx)
}

/// Six of those rows make one pixel.
proof fn lemma_down_a_column(
    rows: Seq<u8>,
    r: RefModel,
    x: int,
    y: int,
    fx: int,
    fy: int,
    k: int,
)
    requires
        rows_across(rows, r, x, y, fx),
        0 <= k < 16,
    ensures
        six_taps(
            fy,
            rows[k],
            rows[k + 4],
            rows[k + 8],
            rows[k + 12],
            rows[k + 16],
            rows[k + 20],
        ) == fraction_pixel(r, x + k % 4, y + k / 4, fx, fy),
{
    reveal(rows_across);
    let c = x + k % 4;
    let d = y + k / 4;
    assert(rows[k] == across_pixel(r, c, d - 2, fx));
    assert(rows[k + 4] == across_pixel(r, c, d - 1, fx));
    assert(rows[k + 8] == across_pixel(r, c, d, fx));
    assert(rows[k + 12] == across_pixel(r, c, d + 1, fx));
    assert(rows[k + 16] == across_pixel(r, c, d + 2, fx));
    assert(rows[k + 20] == across_pixel(r, c, d + 3, fx));
}

/// Predicts the 4x4 block at (`x8`, `y8`) eighths of a pixel.
pub fn sixtap_predict(r: &RefPlane<'_>, x8: i32, y8: i32) -> (out: [u8; 16])
    requires
        r.inside(),
        -0x1000_0000 <= x8 <= 0x1000_0000,
        -0x1000_0000 <= y8 <= 0x1000_0000,
    ensures
        out@ == fraction_block(r@, x8 as int, y8 as int),
{
    let x: i32 = shr3(x8);
    let y: i32 = shr3(y8);
    let fx: usize = (x8 - 8 * x) as usize;
    let fy: usize = (y8 - 8 * y) as usize;
    let mut rows: [u8; 36] = [0u8;36];
    let mut k: usize = 0;
    while k < 36
        invariant
            k <= 36,
            r.inside(),
            fx < 8,
            -0x1000_0000 <= x <= 0x1000_0000,
            -0x1000_0000 <= y <= 0x1000_0000,
            forall|j: int|
                0 <= j < k ==> #[trigger] rows[j] == across_pixel(
                    r@,
                    x + j % 4,
                    y - 2 + j / 4,
                    fx as int,
                ),
        decreases 36 - k,
    {
        rows[k] = load_across(r, x + (k % 4) as i32, y - 2 + (k / 4) as i32, fx);
        k = k + 1;
    }
    proof {
        reveal(rows_across);
    }
    let mut out: [u8; 16] = [0u8;16];
    k = 0;
    while k < 16
        invariant
            k <= 16,
            fy < 8,
            rows_across(rows@, r@, x as int, y as int, fx as int),
            forall|j: int|
                0 <= j < k ==> #[trigger] out[j] == fraction_pixel(
                    r@,
                    x + j % 4,
                    y + j / 4,
                    fx as int,
                    fy as int,
                ),
        decreases 16 - k,
    {
        proof {
            lemma_down_a_column(rows@, r@, x as int, y as int, fx as int, fy as int, k as int);
        }
        out[k] = filter_six(
            fy,
            rows[k],
            rows[k + 4],
            rows[k + 8],
            rows[k + 12],
            rows[k + 16],
            rows[k + 20],
        );
        k = k + 1;
    }
    proof {
        reveal(fraction_block);
        assert(out@ =~= fraction_block(r@, x8 as int, y8 as int));
    }
    out
}

proof fn lemma_no_fraction(a: u8, b: u8, c: u8, d: u8, e: u8, g: u8)
    ensures
        six_taps(0, a, b, c, d, e, g) == c,
{
    reveal(six_taps);
    let t = SIXTAP[0];
    assert(t[0] * a + t[1] * b + t[2] * c + t[3] * d + t[4] * e + t[5] * g == 128 * c)
        by (nonlinear_arith)
        requires
            t[0] == 0 && t[1] == 0 && t[2] == 128 && t[3] == 0 && t[4] == 0 && t[5] == 0,
    ;
}

/// A vector without a fraction takes whole pixels.
pub proof fn law_whole_pixels_are_copied(r: RefModel, x8: int, y8: int, k: int)
    requires
        x8 % 8 == 0,
        y8 % 8 == 0,
        0 <= k < 16,
    ensures
        fraction_block(r, x8, y8)[k] == ref_pixel(r, x8 / 8 + k % 4, y8 / 8 + k / 4),
{
    reveal(fraction_block);
    let x = x8 / 8 + k % 4;
    let y = y8 / 8 + k / 4;
    lemma_no_fraction(
        ref_pixel(r, x - 2, y),
        ref_pixel(r, x - 1, y),
        ref_pixel(r, x, y),
        ref_pixel(r, x + 1, y),
        ref_pixel(r, x + 2, y),
        ref_pixel(r, x + 3, y),
    );
    lemma_no_fraction(
        across_pixel(r, x, y - 2, 0),
        across_pixel(r, x, y - 1, 0),
        across_pixel(r, x, y, 0),
        across_pixel(r, x, y + 1, 0),
        across_pixel(r, x, y + 2, 0),
        across_pixel(r, x, y + 3, 0),
    );
}

} // verus!
