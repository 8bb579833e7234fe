//! Errors of the encoder.
use vstd::prelude::*;

verus! {

/// Why a block of coefficients cannot be coded.
#[derive(Debug, Clone, Copy, PartialEq, Eq, Structural)]
pub enum TokenEncodeError {
    /// The coefficient at `index` lies outside the token alphabet.
    CoefficientOutOfRange { index: usize, value: i16 },
}

/// Why a frame cannot be coded.
#[derive(Debug, Clone, Copy, PartialEq, Eq)]
pub enum EncodeError {
    /// A dimension is zero or needs more than 14 bits.
    InvalidDimensions { width: u32, height: u32 },
    /// The filter level needs more than 6 bits.
    LoopFilterLevelOutOfRange { value: u8 },
    /// The sharpness needs more than 3 bits.
    SharpnessLevelOutOfRange { value: u8 },
    /// The partition count is not 1, 2, 4 or 8.
    InvalidDctPartitionCount { value: u8 },
    /// The quantizer index needs more than 7 bits.
    QuantIndexOutOfRange { value: u8 },
    /// The first partition needs more than 19 bits for its size.
    FirstPartitionTooLarge { bytes: usize },
    /// A block of coefficients cannot be coded.
    Token(TokenEncodeError),
    /// Two pictures that must have the same size have not.
    ReferenceDimensionsMismatch { source: (u32, u32), reference: (u32, u32) },
}

/// A width and a height that a frame can have.
pub open spec fn valid_dims(width: int, height: int) -> bool {
    1 <= width <= 0x3fff && 1 <= height <= 0x3fff
}

} // verus!
