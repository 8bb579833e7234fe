//! Blocks of pixels inside planes.
use crate::arith;
use crate::inverse_transform;
use crate::inverse_transform::add_residue_4x4;
use vstd::prelude::*;

verus! {

/// `plane` with the pixels from `at` on replaced by `s`.
pub open spec fn splice(plane: Seq<u8>, at: int, s: Seq<u8>) -> Seq<u8> {
    Seq::new(
        plane.len(),
        |i: int|
            if at <= i < at + s.len() {
                s[i - at]
            } else {
                plane[i]
            },
    )
}

/// `plane` with the first `h` rows of a block of width `w`, whose pixels are
/// `vals`, stored from `start` on.
pub open spec fn stored(
    plane: Seq<u8>,
    start: int,
    stride: int,
    w: int,
    vals: Seq<u8>,
    h: nat,
) -> Seq<u8>
    decreases h,
{
    if h == 0 {
        plane
    } else {
        splice(
            stored(plane, start, stride, w, vals, (h - 1) as nat),
            start + (h - 1) * stride,
            vals.subrange((h - 1) * w, h * w),
        )
    }
}

/// The pixels of the 4x4 block at `start`.
pub open spec fn block4(plane: Seq<u8>, start: int, stride: int) -> Seq<u8> {
    Seq::new(16, |k: int| plane[start + (k / 4) * stride + k % 4])
}

/// `plane` with a residue added to its 4x4 block at `start`.
pub open spec fn with_residue(plane: Seq<u8>, start: int, stride: int, res: Seq<i16>) -> Seq<u8> {
    stored(plane, start, stride, 4, inverse_transform::residue_sum(block4(plane, start, stride), res), 4)
}

/// A block of `w` by `h` pixels at `start` lies inside `len` pixels.
pub open spec fn block_inside(len: int, start: int, stride: int, w: int, h: int) -> bool {
    h > 0 ==> start + (h - 1) * stride + w <= len
}

pub proof fn lemma_stored_len(plane: Seq<u8>, start: int, stride: int, w: int, vals: Seq<u8>, h: nat)
    ensures
        stored(plane, start, stride, w, vals, h).len() == plane.len(),
    decreases h,
{
    if h > 0 {
        lemma_stored_len(plane, start, stride, w, vals, (h - 1) as nat);
    }
}

/// Stores a block of `w` by `h` pixels.
pub fn store_block(plane: &mut [u8], start: usize, stride: usize, w: usize, h: usize, vals: &[u8])
    requires
        block_inside(old(plane)@.len() as int, start as int, stride as int, w as int, h as int),
        vals@.len() == w * h,
    ensures
        final(plane)@ == stored(
            old(plane)@,
            start as int,
            stride as int,
            w as int,
            vals@,
            h as nat,
        ),
        final(plane)@.len() == old(plane)@.len(),
{
    let len: usize = plane.len();
    let total: usize = vals.len();
    let ghost p0 = plane@;
    let mut r: usize = 0;
    let mut at: usize = start;
    let mut off: usize = 0;
    assert(0 * stride == 0 && 0 * w == 0) by (nonlinear_arith);
    while r < h
        invariant
            r <= h,
            len == plane@.len(),
            total == w * h,
            vals@.len() == total,
            off == r * w,
            r < h ==> at == start + r * stride,
            block_inside(len as int, start as int, stride as int, w as int, h as int),
            plane@ == stored(p0, start as int, stride as int, w as int, vals@, r as nat),
        decreases h - r,
    {
        let ghost before = plane@;
        proof {
            assert(r * stride <= (h - 1) * stride) by (nonlinear_arith)
                requires
                    r <= h - 1,
                    stride >= 0,
            ;
            assert((r + 1) * w <= w * h) by (nonlinear_arith)
                requires
                    r + 1 <= h,
                    w >= 0,
            ;
            assert((r + 1) * w == r * w + w) by (nonlinear_arith);
        }
        let ghost row = vals@.subrange(r * w, (r + 1) * w);
        let mut c: usize = 0;
        assert(splice(before, at as int, row.take(0)) =~= before);
        while c < w
            invariant
                c <= w,
                len == plane@.len(),
                before.len() == len,
                at + w <= len,
                off + w <= total,
                vals@.len() == total,
                row.len() == w,
                row == vals@.subrange(off as int, off + w),
                plane@ == splice(before, at as int, row.take(c as int)),
            decreases w - c,
        {
            plane[at + c] = vals[off + c];
            assert(plane@ =~= splice(before, at as int, row.take(c + 1)));
            c = c + 1;
        }
        assert(row.take(w as int) =~= row);
        r = r + 1;
        off = off + w;
        if r < h {
            proof {
                assert(r * stride <= (h - 1) * stride) by (nonlinear_arith)
                    requires
                        r <= h - 1,
                        stride >= 0,
                ;
                assert(r * stride == (r - 1) * stride + stride) by (nonlinear_arith);
            }
            at = at + stride;
        }
    }
}

/// The pixels of the 4x4 block at `start`.
pub fn load_4x4(plane: &[u8], start: usize, stride: usize) -> (b: [u8; 16])
    requires
        block_inside(plane@.len() as int, start as int, stride as int, 4, 4),
    ensures
        b@ == block4(plane@, start as int, stride as int),
{
    let len: usize = plane.len();
    let mut b: [u8; 16] = [0u8; 16];
    let mut r: usize = 0;
    let mut at: usize = start;
    while r < 4
        invariant
            r <= 4,
            len == plane@.len(),
            start + 3 * stride + 4 <= len,
            r < 4 ==> at == start + r * stride,
            forall|k: int|
                0 <= k < 4 * r ==> #[trigger] b[k] == plane@[start + (k / 4) * stride + k % 4],
        decreases 4 - r,
    {
        assert(r * stride <= 3 * stride) by (nonlinear_arith)
            requires
                r <= 3,
                stride >= 0,
        ;
        let ghost before = b@;
        b[4 * r] = plane[at];
        b[4 * r + 1] = plane[at + 1];
        b[4 * r + 2] = plane[at + 2];
        b[4 * r + 3] = plane[at + 3];
        assert forall|k: int| 0 <= k < 4 * (r + 1) implies #[trigger] b[k] == plane@[start + (k / 4)
            * stride + k % 4] by {
            if k < 4 * r {
                assert(before[k] == plane@[start + (k / 4) * stride + k % 4]);
            } else {
                assert(k / 4 == r);
            }
        }
        r = r + 1;
        if r < 4 {
            proof {
                assert(r * stride == (r - 1) * stride + stride) by (nonlinear_arith);
                assert(r * stride <= 3 * stride) by (nonlinear_arith)
                    requires
                        r <= 3,
                        stride >= 0,
                ;
            }
            at = at + stride;
        }
    }
    assert(b@ =~= block4(plane@, start as int, stride as int));
    b
}

/// Adds a residue to the 4x4 block at `start`.
pub fn add_to_4x4(plane: &mut [u8], start: usize, stride: usize, res: &[i16; 16])
    requires
        block_inside(old(plane)@.len() as int, start as int, stride as int, 4, 4),
    ensures
        final(plane)@ == with_residue(old(plane)@, start as int, stride as int, res@),
        final(plane)@.len() == old(plane)@.len(),
{
    let pred: [u8; 16] = load_4x4(plane, start, stride);
    let mut sum: [u8; 16] = [0u8; 16];
    add_residue_4x4(&pred, res, &mut sum);
    store_block(plane, start, stride, 4, 4, &sum);
}

/// `base + off` limited to `0..size`.
pub fn clamp_coord(base: usize, off: i32, size: usize) -> (r: usize)
    requires
        size >= 1,
    ensures
        r == arith::clamp_int(base + off, 0, size - 1),
        r < size,
{
    if off < 0 {
        let back: usize = (-(off as i64)) as usize;
        if base < back {
            0
        } else if base - back >= size {
            size - 1
        } else {
            base - back
        }
    } else {
        let ahead: usize = off as usize;
        if base >= size || ahead >= size - base {
            size - 1
        } else {
            base + ahead
        }
    }
}

} // verus!
