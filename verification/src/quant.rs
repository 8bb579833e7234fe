//! Quantizer steps.
use crate::arith;
use crate::frame;
use crate::frame::{CoeffModel, MbCoeffs};
use crate::inverse_transform;
use crate::inverse_transform::{clamp_qindex, dequant_block, AC_QLOOKUP, DC_QLOOKUP};
use vstd::prelude::*;

verus! {

/// Step of the first coefficient at index `q`.
pub open spec fn dc_at(q: int) -> int {
    DC_QLOOKUP[arith::clamp_int(q, 0, 127)] as int
}

/// Step of the other coefficients at index `q`.
pub open spec fn ac_at(q: int) -> int {
    AC_QLOOKUP[arith::clamp_int(q, 0, 127)] as int
}

pub open spec fn y2_ac_at(q: int) -> int {
    if ac_at(q) * 155 / 100 < 8 {
        8
    } else {
        ac_at(q) * 155 / 100
    }
}

pub open spec fn uv_dc_at(q: int) -> int {
    if dc_at(q) > 132 {
        132
    } else {
        dc_at(q)
    }
}

pub proof fn lemma_steps(i: int)
    requires
        0 <= i < 128,
    ensures
        4 <= DC_QLOOKUP[i] <= 157,
        4 <= AC_QLOOKUP[i] <= 284,
{
}

/// Step of the first luma coefficient.
pub fn y_dc_step(q: i32) -> (r: i16)
    ensures
        r == dc_at(q as int),
        4 <= r <= 157,
{
    let i: usize = clamp_qindex(q);
    proof {
        lemma_steps(i as int);
    }
    DC_QLOOKUP[i]
}

/// Step of the other luma coefficients.
pub fn y_ac_step(q: i32) -> (r: i16)
    ensures
        r == ac_at(q as int),
        4 <= r <= 284,
{
    let i: usize = clamp_qindex(q);
    proof {
        lemma_steps(i as int);
    }
    AC_QLOOKUP[i]
}

/// Step of the first second-order coefficient.
pub fn y2_dc_step(q: i32) -> (r: i16)
    ensures
        r == 2 * dc_at(q as int),
        8 <= r <= 314,
{
    2 * y_dc_step(q)
}

/// Step of the other second-order coefficients.
pub fn y2_ac_step(q: i32) -> (r: i16)
    ensures
        r == y2_ac_at(q as int),
        8 <= r <= 440,
{
    let x: i32 = y_ac_step(q) as i32 * 155 / 100;
    if x < 8 {
        8
    } else {
        x as i16
    }
}

/// Step of the first chroma coefficient.
pub fn uv_dc_step(q: i32) -> (r: i16)
    ensures
        r == uv_dc_at(q as int),
        4 <= r <= 132,
{
    let x: i16 = y_dc_step(q);
    if x > 132 {
        132
    } else {
        x
    }
}

/// Step of the other chroma coefficients.
pub fn uv_ac_step(q: i32) -> (r: i16)
    ensures
        r == ac_at(q as int),
        4 <= r <= 284,
{
    y_ac_step(q)
}

/// Steps of one macroblock.
#[derive(Debug, Clone, Copy, PartialEq, Eq, Structural)]
pub struct MbDequantFactors {
    pub y1_dc: i16,
    pub y1_ac: i16,
    pub y2_dc: i16,
    pub y2_ac: i16,
    pub uv_dc: i16,
    pub uv_ac: i16,
}

/// Index offsets of a frame.
pub struct QuantDeltas {
    pub y_dc: int,
    pub y2_dc: int,
    pub y2_ac: int,
    pub uv_dc: int,
    pub uv_ac: int,
}

pub open spec fn no_deltas() -> QuantDeltas {
    QuantDeltas { y_dc: 0, y2_dc: 0, y2_ac: 0, uv_dc: 0, uv_ac: 0 }
}

/// Steps for a base index and the index offsets.
pub open spec fn factors_of(base: int, d: QuantDeltas) -> MbDequantFactors {
    MbDequantFactors {
        y1_dc: dc_at(base + d.y_dc) as i16,
        y1_ac: ac_at(base) as i16,
        y2_dc: (2 * dc_at(base + d.y2_dc)) as i16,
        y2_ac: y2_ac_at(base + d.y2_ac) as i16,
        uv_dc: uv_dc_at(base + d.uv_dc) as i16,
        uv_ac: ac_at(base + d.uv_ac) as i16,
    }
}

/// The steps for any index are in the tables' range.
pub proof fn lemma_factors_valid(base: int, d: QuantDeltas)
    ensures
        factors_of(base, d).valid(),
{
    lemma_steps(arith::clamp_int(base, 0, 127));
    lemma_steps(arith::clamp_int(base + d.y_dc, 0, 127));
    lemma_steps(arith::clamp_int(base + d.y2_dc, 0, 127));
    lemma_steps(arith::clamp_int(base + d.y2_ac, 0, 127));
    lemma_steps(arith::clamp_int(base + d.uv_dc, 0, 127));
    lemma_steps(arith::clamp_int(base + d.uv_ac, 0, 127));
}

/// Every coefficient times its step.
pub open spec fn dequantized_mb(c: CoeffModel, f: MbDequantFactors) -> CoeffModel {
    CoeffModel {
        y2: inverse_transform::dequantized(c.y2, f.y2_dc as int, f.y2_ac as int),
        y: Seq::new(
            16,
            |k: int| inverse_transform::dequantized(c.y[k], f.y1_dc as int, f.y1_ac as int),
        ),
        u: Seq::new(
            4,
            |k: int| inverse_transform::dequantized(c.u[k], f.uv_dc as int, f.uv_ac as int),
        ),
        v: Seq::new(
            4,
            |k: int| inverse_transform::dequantized(c.v[k], f.uv_dc as int, f.uv_ac as int),
        ),
    }
}

impl MbDequantFactors {
    /// The steps are in the tables' range.
    pub open spec fn valid(&self) -> bool {
        &&& 4 <= self.y1_dc <= 157
        &&& 4 <= self.y1_ac <= 284
        &&& 8 <= self.y2_dc <= 314
        &&& 8 <= self.y2_ac <= 440
        &&& 4 <= self.uv_dc <= 132
        &&& 4 <= self.uv_ac <= 284
    }

    /// Steps for a base index and the index offsets.
    pub fn from_base_and_deltas(
        base: i32,
        y_dc_delta: i32,
        y2_dc_delta: i32,
        y2_ac_delta: i32,
        uv_dc_delta: i32,
        uv_ac_delta: i32,
    ) -> (f: Self)
        requires
            i32::MIN <= base + y_dc_delta <= i32::MAX,
            i32::MIN <= base + y2_dc_delta <= i32::MAX,
            i32::MIN <= base + y2_ac_delta <= i32::MAX,
            i32::MIN <= base + uv_dc_delta <= i32::MAX,
            i32::MIN <= base + uv_ac_delta <= i32::MAX,
        ensures
            f == factors_of(
                base as int,
                (QuantDeltas {
                    y_dc: y_dc_delta as int,
                    y2_dc: y2_dc_delta as int,
                    y2_ac: y2_ac_delta as int,
                    uv_dc: uv_dc_delta as int,
                    uv_ac: uv_ac_delta as int,
                }),
            ),
            f.valid(),
    {
        MbDequantFactors {
            y1_dc: y_dc_step(base + y_dc_delta),
            y1_ac: y_ac_step(base),
            y2_dc: y2_dc_step(base + y2_dc_delta),
            y2_ac: y2_ac_step(base + y2_ac_delta),
            uv_dc: uv_dc_step(base + uv_dc_delta),
            uv_ac: uv_ac_step(base + uv_ac_delta),
        }
    }

    /// Multiplies the coefficients of a macroblock by their steps.
    pub fn dequantize(&self, c: &mut MbCoeffs)
        ensures
            final(c)@ == dequantized_mb(old(c)@, *self),
    {
        let ghost c0 = c@;
        dequant_block(&mut c.y2, self.y2_dc, self.y2_ac);
        let mut k: usize = 0;
        while k < 16
            invariant
                k <= 16,
                c0 == old(c)@,
                c@.y2 == dequantized_mb(c0, *self).y2,
                c@.u == c0.u,
                c@.v == c0.v,
                forall|j: int| 0 <= j < k ==> #[trigger] c@.y[j] == dequantized_mb(c0, *self).y[j],
                forall|j: int| k <= j < 16 ==> #[trigger] c@.y[j] == c0.y[j],
            decreases 16 - k,
        {
            let ghost before = c@;
            let mut block: [i16; 16] = c.y[k];
            assert(block@ == before.y[k as int]);
            dequant_block(&mut block, self.y1_dc, self.y1_ac);
            c.y[k] = block;
            assert forall|j: int| 0 <= j < 16 && j != k implies #[trigger] c@.y[j]
                == before.y[j] by {}
            k = k + 1;
        }
        assert(c@.y =~= dequantized_mb(c0, *self).y);
        k = 0;
        while k < 4
            invariant
                k <= 4,
                c0 == old(c)@,
                c@.y2 == dequantized_mb(c0, *self).y2,
                c@.y == dequantized_mb(c0, *self).y,
                forall|j: int| 0 <= j < k ==> #[trigger] c@.u[j] == dequantized_mb(c0, *self).u[j],
                forall|j: int| 0 <= j < k ==> #[trigger] c@.v[j] == dequantized_mb(c0, *self).v[j],
                forall|j: int| k <= j < 4 ==> #[trigger] c@.u[j] == c0.u[j],
                forall|j: int| k <= j < 4 ==> #[trigger] c@.v[j] == c0.v[j],
            decreases 4 - k,
        {
            let ghost before = c@;
            let mut u: [i16; 16] = c.u[k];
            let mut v: [i16; 16] = c.v[k];
            assert(u@ == before.u[k as int] && v@ == before.v[k as int]);
            dequant_block(&mut u, self.uv_dc, self.uv_ac);
            dequant_block(&mut v, self.uv_dc, self.uv_ac);
            c.u[k] = u;
            c.v[k] = v;
            assert forall|j: int| 0 <= j < 4 && j != k implies #[trigger] c@.u[j]
                == before.u[j] by {}
            assert forall|j: int| 0 <= j < 4 && j != k implies #[trigger] c@.v[j]
                == before.v[j] by {}
            k = k + 1;
        }
        assert(c@.u =~= dequantized_mb(c0, *self).u);
        assert(c@.v =~= dequantized_mb(c0, *self).v);
    }
}

} // verus!
