//! Prediction modes of a macroblock.
use vstd::prelude::*;

verus! {

/// Luma prediction of a whole macroblock; `B` predicts each subblock alone.
#[derive(Debug, Clone, Copy, PartialEq, Eq, Structural)]
pub enum IntraYMode {
    Dc,
    V,
    H,
    Tm,
    B,
}

/// Chroma prediction.
#[derive(Debug, Clone, Copy, PartialEq, Eq, Structural)]
pub enum IntraUvMode {
    Dc,
    V,
    H,
    Tm,
}

/// Prediction of one luma subblock.
#[derive(Debug, Clone, Copy, PartialEq, Eq, Structural)]
pub enum IntraBmode {
    Dc,
    Tm,
    Ve,
    He,
    Ld,
    Rd,
    Vr,
    Vl,
    Hd,
    Hu,
}

/// Modes of one macroblock of a key frame.
#[derive(Debug, Clone, Copy, PartialEq, Eq)]
pub struct MacroblockModes {
    pub segment_id: Option<u8>,
    pub mb_skip_coeff: bool,
    pub y_mode: IntraYMode,
    pub subblock_modes: Option<[IntraBmode; 16]>,
    pub uv_mode: IntraUvMode,
}


impl IntraYMode {
    pub open spec fn number(self) -> int {
        match self {
            IntraYMode::Dc => 0,
            IntraYMode::V => 1,
            IntraYMode::H => 2,
            IntraYMode::Tm => 3,
            IntraYMode::B => 4,
        }
    }

    /// Leaf of the luma mode trees.
    pub fn leaf(self) -> (r: u8)
        ensures
            r == self.number(),
            r < 5,
    {
        match self {
            IntraYMode::Dc => 0,
            IntraYMode::V => 1,
            IntraYMode::H => 2,
            IntraYMode::Tm => 3,
            IntraYMode::B => 4,
        }
    }
}

/// Mode that leaf `n` stands for.
pub open spec fn y_mode_of(n: int) -> IntraYMode {
    if n == 0 {
        IntraYMode::Dc
    } else if n == 1 {
        IntraYMode::V
    } else if n == 2 {
        IntraYMode::H
    } else if n == 3 {
        IntraYMode::Tm
    } else {
        IntraYMode::B
    }
}

/// Mode that leaf `n` stands for.
pub fn y_mode_from(n: u8) -> (m: IntraYMode)
    ensures
        m == y_mode_of(n as int),
{
    if n == 0 {
        IntraYMode::Dc
    } else if n == 1 {
        IntraYMode::V
    } else if n == 2 {
        IntraYMode::H
    } else if n == 3 {
        IntraYMode::Tm
    } else {
        IntraYMode::B
    }
}

impl IntraUvMode {
    pub open spec fn number(self) -> int {
        match self {
            IntraUvMode::Dc => 0,
            IntraUvMode::V => 1,
            IntraUvMode::H => 2,
            IntraUvMode::Tm => 3,
        }
    }

    /// Leaf of the chroma mode tree.
    pub fn leaf(self) -> (r: u8)
        ensures
            r == self.number(),
            r < 4,
    {
        match self {
            IntraUvMode::Dc => 0,
            IntraUvMode::V => 1,
            IntraUvMode::H => 2,
            IntraUvMode::Tm => 3,
        }
    }
}

/// Mode that leaf `n` stands for.
pub open spec fn uv_mode_of(n: int) -> IntraUvMode {
    if n == 0 {
        IntraUvMode::Dc
    } else if n == 1 {
        IntraUvMode::V
    } else if n == 2 {
        IntraUvMode::H
    } else {
        IntraUvMode::Tm
    }
}

/// Mode that leaf `n` stands for.
pub fn uv_mode_from(n: u8) -> (m: IntraUvMode)
    ensures
        m == uv_mode_of(n as int),
{
    if n == 0 {
        IntraUvMode::Dc
    } else if n == 1 {
        IntraUvMode::V
    } else if n == 2 {
        IntraUvMode::H
    } else {
        IntraUvMode::Tm
    }
}

impl IntraBmode {
    pub open spec fn number(self) -> int {
        match self {
            IntraBmode::Dc => 0,
            IntraBmode::Tm => 1,
            IntraBmode::Ve => 2,
            IntraBmode::He => 3,
            IntraBmode::Ld => 4,
            IntraBmode::Rd => 5,
            IntraBmode::Vr => 6,
            IntraBmode::Vl => 7,
            IntraBmode::Hd => 8,
            IntraBmode::Hu => 9,
        }
    }

    /// Leaf of the subblock mode tree, and position in its probabilities.
    pub fn idx(self) -> (r: usize)
        ensures
            r == self.number(),
            r < 10,
    {
        match self {
            IntraBmode::Dc => 0,
            IntraBmode::Tm => 1,
            IntraBmode::Ve => 2,
            IntraBmode::He => 3,
            IntraBmode::Ld => 4,
            IntraBmode::Rd => 5,
            IntraBmode::Vr => 6,
            IntraBmode::Vl => 7,
            IntraBmode::Hd => 8,
            IntraBmode::Hu => 9,
        }
    }
}

/// Mode that leaf `n` stands for.
pub open spec fn b_mode_of(n: int) -> IntraBmode {
    if n == 0 {
        IntraBmode::Dc
    } else if n == 1 {
        IntraBmode::Tm
    } else if n == 2 {
        IntraBmode::Ve
    } else if n == 3 {
        IntraBmode::He
    } else if n == 4 {
        IntraBmode::Ld
    } else if n == 5 {
        IntraBmode::Rd
    } else if n == 6 {
        IntraBmode::Vr
    } else if n == 7 {
        IntraBmode::Vl
    } else if n == 8 {
        IntraBmode::Hd
    } else {
        IntraBmode::Hu
    }
}

/// Mode that leaf `n` stands for.
pub fn b_mode_from(n: u8) -> (m: IntraBmode)
    ensures
        m == b_mode_of(n as int),
{
    if n == 0 {
        IntraBmode::Dc
    } else if n == 1 {
        IntraBmode::Tm
    } else if n == 2 {
        IntraBmode::Ve
    } else if n == 3 {
        IntraBmode::He
    } else if n == 4 {
        IntraBmode::Ld
    } else if n == 5 {
        IntraBmode::Rd
    } else if n == 6 {
        IntraBmode::Vr
    } else if n == 7 {
        IntraBmode::Vl
    } else if n == 8 {
        IntraBmode::Hd
    } else {
        IntraBmode::Hu
    }
}

/// Subblock mode that stands for a luma mode beside subblocks.
pub open spec fn projected(mode: IntraYMode) -> IntraBmode {
    match mode {
        IntraYMode::Dc => IntraBmode::Dc,
        IntraYMode::V => IntraBmode::Ve,
        IntraYMode::H => IntraBmode::He,
        IntraYMode::Tm => IntraBmode::Tm,
        IntraYMode::B => IntraBmode::Dc,
    }
}

impl IntraYMode {
    /// Subblock mode that stands for this mode beside subblocks.
    pub fn project_to_subblock_context(self) -> (m: IntraBmode)
        ensures
            m == projected(self),
    {
        match self {
            IntraYMode::Dc => IntraBmode::Dc,
            IntraYMode::V => IntraBmode::Ve,
            IntraYMode::H => IntraBmode::He,
            IntraYMode::Tm => IntraBmode::Tm,
            IntraYMode::B => IntraBmode::Dc,
        }
    }
}

} // verus!
