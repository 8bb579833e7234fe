//! Pictures and the coefficients of a macroblock.
use vstd::prelude::*;

verus! {

/// A decoded picture: three planes without padding.
#[derive(Clone, Debug)]
pub struct Vp8Frame {
    pub width: u32,
    pub height: u32,
    pub pts: Option<i64>,
    pub y: Vec<u8>,
    pub u: Vec<u8>,
    pub v: Vec<u8>,
    pub y_stride: u32,
    pub uv_stride: u32,
}

/// Half of a luma dimension, rounded up.
pub open spec fn half_up(n: int) -> int {
    (n + 1) / 2
}

impl Vp8Frame {
    /// Width of the chroma planes.
    pub fn chroma_width(&self) -> (w: u32)
        requires
            self.width < u32::MAX,
        ensures
            w == half_up(self.width as int),
    {
        (self.width + 1) / 2
    }

    /// Height of the chroma planes.
    pub fn chroma_height(&self) -> (h: u32)
        requires
            self.height < u32::MAX,
        ensures
            h == half_up(self.height as int),
    {
        (self.height + 1) / 2
    }
}

/// Planes of whole macroblocks.
#[derive(Clone, Debug, PartialEq, Eq)]
pub struct KeyframePlanes {
    pub y: Vec<u8>,
    pub u: Vec<u8>,
    pub v: Vec<u8>,
    pub y_stride: usize,
    pub uv_stride: usize,
    pub mb_cols: usize,
    pub mb_rows: usize,
}

/// The pixels of three planes.
pub struct PlanesModel {
    pub y: Seq<u8>,
    pub u: Seq<u8>,
    pub v: Seq<u8>,
}

/// A plane of `rows` blocks of `size` lines, each at least `cols` blocks wide.
pub open spec fn plane_holds(plane: Seq<u8>, stride: int, cols: int, rows: int, size: int) -> bool {
    &&& size * cols <= stride
    &&& size * rows * stride <= plane.len()
}

/// The three planes hold `cols` by `rows` macroblocks.
pub open spec fn planes_hold(p: PlanesModel, ys: int, cs: int, cols: int, rows: int) -> bool {
    &&& plane_holds(p.y, ys, cols, rows, 16)
    &&& plane_holds(p.u, cs, cols, rows, 8)
    &&& plane_holds(p.v, cs, cols, rows, 8)
}

impl View for KeyframePlanes {
    type V = PlanesModel;

    open spec fn view(&self) -> PlanesModel {
        PlanesModel { y: self.y@, u: self.u@, v: self.v@ }
    }
}

/// Coefficients of a macroblock, each block in raster order.
#[derive(Clone, Copy, Debug, PartialEq, Eq)]
pub struct MbCoeffs {
    pub y2: [i16; 16],
    pub y: [[i16; 16]; 16],
    pub u: [[i16; 16]; 4],
    pub v: [[i16; 16]; 4],
}

/// Model of [`MbCoeffs`].
#[verifier::ext_equal]
pub struct CoeffModel {
    pub y2: Seq<i16>,
    pub y: Seq<Seq<i16>>,
    pub u: Seq<Seq<i16>>,
    pub v: Seq<Seq<i16>>,
}

/// The blocks as sequences.
pub open spec fn block_views(a: Seq<[i16; 16]>) -> Seq<Seq<i16>> {
    Seq::new(a.len(), |k: int| a[k]@)
}

impl View for MbCoeffs {
    type V = CoeffModel;

    open spec fn view(&self) -> CoeffModel {
        CoeffModel {
            y2: self.y2@,
            y: block_views(self.y@),
            u: block_views(self.u@),
            v: block_views(self.v@),
        }
    }
}

/// A block of zeros.
pub open spec fn zero_block() -> Seq<i16> {
    Seq::new(16, |i: int| 0i16)
}

/// A macroblock without residue.
pub open spec fn no_coeffs() -> CoeffModel {
    CoeffModel {
        y2: zero_block(),
        y: Seq::new(16, |k: int| zero_block()),
        u: Seq::new(4, |k: int| zero_block()),
        v: Seq::new(4, |k: int| zero_block()),
    }
}

/// All coefficients are zero.
pub open spec fn zero_coeffs(c: MbCoeffs) -> bool {
    &&& forall|i: int| 0 <= i < 16 ==> c.y2[i] == 0
    &&& forall|b: int, i: int| 0 <= b < 16 && 0 <= i < 16 ==> c.y[b][i] == 0
    &&& forall|b: int, i: int| 0 <= b < 4 && 0 <= i < 16 ==> c.u[b][i] == 0
    &&& forall|b: int, i: int| 0 <= b < 4 && 0 <= i < 16 ==> c.v[b][i] == 0
}

impl Default for MbCoeffs {
    fn default() -> (c: Self)
        ensures
            zero_coeffs(c),
            c@ == no_coeffs(),
    {
        let c: MbCoeffs = MbCoeffs {
            y2: [0; 16],
            y: [[0; 16]; 16],
            u: [[0; 16]; 4],
            v: [[0; 16]; 4],
        };
        assert(c@ =~~= no_coeffs());
        c
    }
}

/// Some entry is not zero.
pub open spec fn has_nonzero(s: Seq<i16>) -> bool {
    exists|i: int| 0 <= i < s.len() && s[i] != 0
}

/// Some coefficient is not zero.
pub open spec fn any_coeffs(c: MbCoeffs) -> bool {
    ||| has_nonzero(c.y2@)
    ||| exists|b: int| 0 <= b < 16 && has_nonzero(#[trigger] c.y[b]@)
    ||| exists|b: int| 0 <= b < 4 && has_nonzero(#[trigger] c.u[b]@)
    ||| exists|b: int| 0 <= b < 4 && has_nonzero(#[trigger] c.v[b]@)
}

/// Whether some entry of a block is not zero.
pub fn block_has_nonzero(s: &[i16; 16]) -> (b: bool)
    ensures
        b == has_nonzero(s@),
{
    let mut i: usize = 0;
    while i < 16
        invariant
            i <= 16,
            forall|j: int| 0 <= j < i ==> s[j] == 0,
        decreases 16 - i,
    {
        if s[i] != 0 {
            assert(s@[i as int] != 0);
            return true;
        }
        i = i + 1;
    }
    false
}

/// Whether some coefficient of a macroblock is not zero.
pub fn mb_has_coeffs(c: &MbCoeffs) -> (b: bool)
    ensures
        b == any_coeffs(*c),
{
    if block_has_nonzero(&c.y2) {
        return true;
    }
    let mut i: usize = 0;
    while i < 16
        invariant
            i <= 16,
            forall|j: int| 0 <= j < i ==> !has_nonzero(#[trigger] c.y[j]@),
        decreases 16 - i,
    {
        if block_has_nonzero(&c.y[i]) {
            assert(has_nonzero(c.y[i as int]@));
            return true;
        }
        i = i + 1;
    }
    i = 0;
    while i < 4
        invariant
            i <= 4,
            forall|j: int| 0 <= j < i ==> !has_nonzero(#[trigger] c.u[j]@),
            forall|j: int| 0 <= j < i ==> !has_nonzero(#[trigger] c.v[j]@),
        decreases 4 - i,
    {
        if block_has_nonzero(&c.u[i]) {
            assert(has_nonzero(c.u[i as int]@));
            return true;
        }
        if block_has_nonzero(&c.v[i]) {
            assert(has_nonzero(c.v[i as int]@));
            return true;
        }
        i = i + 1;
    }
    false
}

} // verus!
