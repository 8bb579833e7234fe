//! VP8 video codec: a decoder for key and inter frames, an encoder for key
//! frames, the IVF container, and what they are made of.
use vstd::prelude::*;

pub mod arith;
pub mod arnr;
pub mod bit_cost;
pub mod blend_law;
pub mod bool_decoder;
pub mod bool_encoder;
pub mod coded_header;
pub mod decoder;
pub mod edge_filter;
pub mod edge_law;
pub mod encode_error;
pub mod encoder;
pub mod error;
pub mod exact_law;
pub mod fdct;
pub mod fdct_law;
pub mod fidelity_law;
pub mod filter_law;
pub mod flat_law;
pub mod forward_transform;
pub mod frame;
pub mod frame_header;
pub mod frame_law;
pub mod frame_tag;
pub mod header_law;
pub mod i420;
pub mod inter;
pub mod intra;
pub mod inter_law;
pub mod intra_law;
pub mod inverse_law;
pub mod inverse_transform;
pub mod ivf;
pub mod judge_law;
pub mod kernel_law;
pub mod key_law;
pub mod keyframe_encoder;
pub mod loop_filter;
pub mod loopfilter;
pub mod macroblock;
pub mod mb_coder;
pub mod mb_tokens;
pub mod measure_law;
pub mod mode_picker;
pub mod mode_writer;
pub mod modes;
pub mod motion_comp;
pub mod motion_law;
pub mod mv;
pub mod neighbors;
pub mod partition_law;
pub mod picture_law;
pub mod pixels;
pub mod progress_law;
pub mod quant;
pub mod range_coder;
pub mod range_encoder;
pub mod reach_law;
pub mod reconstruct;
pub mod reference_law;
pub mod round_trip;
pub mod segment_law;
pub mod silent_law;
pub mod still_law;
pub mod stream;
pub mod syntax_law;
pub mod tables;
pub mod tiling;
pub mod token_encoder;
pub mod token_law;
pub mod tokens;
pub mod transform;
pub mod trees;
pub mod vote_law;

pub use decoder::{decode_vp8, DecoderState};
pub use encoder::{
    encode_keyframe, encode_keyframe_with_reconstruction, EncodeError, I420Frame, KeyframeParams,
};
pub use error::Vp8Error;
pub use frame::Vp8Frame;
pub use stream::StreamDecoder;

verus! {

/// Error of the entry points that have no implementation.
#[derive(Debug, Clone, Copy, PartialEq, Eq, Structural)]
pub enum Error {
    NotImplemented,
}

/// Encode a VP8 key frame from packed pixels.
pub fn encode_vp8_keyframe(_pixels: &[u8], _width: u32, _height: u32) -> (r: Result<Vec<u8>, Error>)
    ensures
        r == Err::<Vec<u8>, Error>(Error::NotImplemented),
{
    Err(Error::NotImplemented)
}

} // verus!
