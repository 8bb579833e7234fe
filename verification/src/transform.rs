//! Inverse transforms that return their block.
use crate::inverse_transform;
use crate::inverse_transform::{inverse_dct_4x4, inverse_wht_4x4};
use vstd::prelude::*;

verus! {

/// Inverse cosine transform.
pub fn idct4x4(input: &[i16; 16]) -> (out: [i16; 16])
    ensures
        out@ == inverse_transform::idct(input@),
{
    let mut out: [i16; 16] = [0i16; 16];
    inverse_dct_4x4(input, &mut out);
    out
}

/// Inverse Walsh-Hadamard transform.
pub fn iwht4x4(input: &[i16; 16]) -> (out: [i16; 16])
    ensures
        out@ == inverse_transform::iwht(input@),
{
    let mut out: [i16; 16] = [0i16; 16];
    inverse_wht_4x4(input, &mut out);
    out
}

} // verus!
