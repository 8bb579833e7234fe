//! The uncompressed bytes in front of a frame.
use crate::error::Vp8Error;
use vstd::prelude::*;

verus! {

/// Whether a frame stands on its own.
#[derive(Debug, Clone, Copy, PartialEq, Eq, Structural)]
pub enum FrameType {
    Key,
    Inter,
}

/// The three bytes in front of every frame.
#[derive(Debug, Clone, Copy, PartialEq, Eq, Structural)]
pub struct FrameTag {
    pub frame_type: FrameType,
    pub version: u8,
    pub show_frame: bool,
    pub first_partition_size: u32,
}

/// The seven bytes that follow on key frames.
#[derive(Debug, Clone, Copy, PartialEq, Eq, Structural)]
pub struct KeyframeHeader {
    pub width: u16,
    pub height: u16,
    pub horizontal_scale: u8,
    pub vertical_scale: u8,
}

/// The uncompressed bytes of a frame, and where the compressed ones start.
#[derive(Debug, Clone, Copy, PartialEq, Eq, Structural)]
pub struct ParsedHeader {
    pub tag: FrameTag,
    pub keyframe: Option<KeyframeHeader>,
    pub compressed_offset: usize,
}

/// Little-endian number in three bytes.
pub open spec fn number3(buf: Seq<u8>, at: int) -> int {
    buf[at] + 256 * buf[at + 1] + 65536 * buf[at + 2]
}

/// Little-endian number in two bytes.
pub open spec fn number2(buf: Seq<u8>, at: int) -> int {
    buf[at] + 256 * buf[at + 1]
}

/// Tag that the number `n` stands for.
pub open spec fn tag_of(n: int) -> FrameTag {
    FrameTag {
        frame_type: if n % 2 == 0 {
            FrameType::Key
        } else {
            FrameType::Inter
        },
        version: (n / 2 % 8) as u8,
        show_frame: n / 16 % 2 == 1,
        first_partition_size: (n / 32) as u32,
    }
}

/// Sizes that the numbers `w` and `h` stand for.
pub open spec fn sizes_of(w: int, h: int) -> KeyframeHeader {
    KeyframeHeader {
        width: (w % 16384) as u16,
        height: (h % 16384) as u16,
        horizontal_scale: (w / 16384) as u8,
        vertical_scale: (h / 16384) as u8,
    }
}

/// The frame says that it is a key frame.
pub open spec fn is_key(buf: Seq<u8>) -> bool {
    buf[0] % 2 == 0
}

/// What is wrong with the uncompressed bytes, if anything.
pub open spec fn tag_fault(buf: Seq<u8>) -> Option<Seq<char>> {
    if buf.len() < 3 {
        Some("VP8: frame tag truncated"@)
    } else if !is_key(buf) {
        None
    } else if buf.len() < 10 {
        Some("VP8: keyframe header truncated"@)
    } else if buf[3] != 0x9d || buf[4] != 0x01 || buf[5] != 0x2a {
        Some("VP8: bad keyframe start code"@)
    } else {
        None
    }
}

/// The uncompressed bytes of a frame without fault.
pub open spec fn parsed(buf: Seq<u8>) -> ParsedHeader {
    ParsedHeader {
        tag: tag_of(number3(buf, 0)),
        keyframe: if is_key(buf) {
            Some(sizes_of(number2(buf, 6), number2(buf, 8)))
        } else {
            None
        },
        compressed_offset: if is_key(buf) {
            10
        } else {
            3
        },
    }
}

/// Reads the uncompressed bytes of a frame.
pub fn parse_header(buf: &[u8]) -> (r: Result<ParsedHeader, Vp8Error>)
    ensures
        match r {
            Ok(h) => tag_fault(buf@) is None && h == parsed(buf@),
            Err(e) => tag_fault(buf@) is Some && e.is_invalid(tag_fault(buf@)->0),
        },
{
    if buf.len() < 3 {
        return Err(Vp8Error::invalid("VP8: frame tag truncated"));
    }
    let n: u32 = buf[0] as u32 + 256 * buf[1] as u32 + 65536 * buf[2] as u32;
    let key: bool = buf[0] % 2 == 0;
    let tag: FrameTag = FrameTag {
        frame_type: if n % 2 == 0 {
            FrameType::Key
        } else {
            FrameType::Inter
        },
        version: (n / 2 % 8) as u8,
        show_frame: n / 16 % 2 == 1,
        first_partition_size: n / 32,
    };
    if !key {
        return Ok(ParsedHeader { tag, keyframe: None, compressed_offset: 3 });
    }
    if buf.len() < 10 {
        return Err(Vp8Error::invalid("VP8: keyframe header truncated"));
    }
    if buf[3] != 0x9d || buf[4] != 0x01 || buf[5] != 0x2a {
        return Err(Vp8Error::invalid("VP8: bad keyframe start code"));
    }
    let w: u16 = buf[6] as u16 + 256 * buf[7] as u16;
    let h: u16 = buf[8] as u16 + 256 * buf[9] as u16;
    Ok(
        ParsedHeader {
            tag,
            keyframe: Some(
                KeyframeHeader {
                    width: w % 16384,
                    height: h % 16384,
                    horizontal_scale: (w / 16384) as u8,
                    vertical_scale: (h / 16384) as u8,
                },
            ),
            compressed_offset: 10,
        },
    )
}

} // verus!
