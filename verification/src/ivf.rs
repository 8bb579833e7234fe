//! IVF container: a header of 32 bytes, then frames that each follow a header
//! of 12 bytes. All numbers are little-endian.
//!
//! This module turns bytes into fields and fields into bytes, and decides what
//! a writer does next; reading and writing files is for the caller.
use vstd::prelude::*;

verus! {

/// Bytes of a file header.
pub const IVF_HEADER_LEN: usize = 32;

/// Bytes of a frame header.
pub const FRAME_HEADER_LEN: usize = 12;

/// Why a file is not a VP8 stream in IVF.
#[derive(Debug, Clone, Copy, PartialEq, Eq)]
pub enum IvfError {
    BadMagic,
    UnsupportedVersion(u16),
    HeaderTooShort,
    UnsupportedFourCc([u8; 4]),
}

/// Why a stream cannot be written.
#[derive(Debug, Clone, Copy, PartialEq, Eq, Structural)]
pub enum MuxError {
    /// There must be one stream.
    NotOneStream,
    /// The stream must be video.
    NotVideo,
    /// The stream must be VP8.
    OtherCodec,
    MissingWidth,
    MissingHeight,
    DimensionsOutOfRange { width: u32, height: u32 },
    HeaderWrittenTwice,
    HeaderNotWritten,
    PacketTooLarge,
}

/// Fields of a file header.
#[derive(Debug, Clone, Copy, PartialEq, Eq, Structural)]
pub struct IvfHeader {
    /// Bytes of the header, at least 32.
    pub header_len: u16,
    pub width: u16,
    pub height: u16,
    /// Frames per second: numerator and denominator.
    pub fr_num: u32,
    pub fr_den: u32,
    /// Number of frames, or zero where it is not known.
    pub frame_count: u32,
}

/// Fields of a frame header.
#[derive(Debug, Clone, Copy, PartialEq, Eq, Structural)]
pub struct FrameEntry {
    pub size: u32,
    pub pts: u64,
}

/// The bytes "DKIF".
pub open spec fn magic() -> Seq<u8> {
    seq![0x44u8, 0x4bu8, 0x49u8, 0x46u8]
}

/// The bytes "VP80".
pub open spec fn fourcc() -> Seq<u8> {
    seq![0x56u8, 0x50u8, 0x38u8, 0x30u8]
}

/// Little-endian number in two bytes.
pub open spec fn le2(s: Seq<u8>, at: int) -> int {
    s[at] + 256 * s[at + 1]
}

/// Little-endian number in four bytes.
pub open spec fn le4(s: Seq<u8>, at: int) -> int {
    le2(s, at) + 65536 * le2(s, at + 2)
}

/// Little-endian number in eight bytes.
pub open spec fn le8(s: Seq<u8>, at: int) -> int {
    le4(s, at) + 0x1_0000_0000 * le4(s, at + 4)
}

/// The low 16 bits of a number, low byte first.
pub open spec fn to_le2(n: int) -> Seq<u8> {
    seq![(n % 256) as u8, (n / 256 % 256) as u8]
}

/// The low 32 bits of a number, low byte first.
pub open spec fn to_le4(n: int) -> Seq<u8> {
    to_le2(n) + to_le2(n / 65536)
}

/// The low 64 bits of a number, low byte first.
pub open spec fn to_le8(n: int) -> Seq<u8> {
    to_le4(n) + to_le4(n / 0x1_0000_0000)
}

/// The bytes look like a VP8 stream in IVF.
pub open spec fn looks_like_vp8(buf: Seq<u8>) -> bool {
    &&& buf.len() >= 12
    &&& buf.subrange(0, 4) == magic()
    &&& buf.subrange(8, 12) == fourcc()
}

fn is_magic(buf: &[u8]) -> (b: bool)
    requires
        buf@.len() >= 4,
    ensures
        b == (buf@.subrange(0, 4) == magic()),
{
    let b: bool = buf[0] == 0x44 && buf[1] == 0x4b && buf[2] == 0x49 && buf[3] == 0x46;
    proof {
        let s = buf@.subrange(0, 4);
        if b {
            assert(s =~= magic());
        } else {
            assert(s[0] == buf@[0] && s[1] == buf@[1] && s[2] == buf@[2] && s[3] == buf@[3]);
            assert(magic()[0] == 0x44 && magic()[1] == 0x4b && magic()[2] == 0x49 && magic()[3]
                == 0x46);
        }
    }
    b
}

fn is_fourcc(buf: &[u8]) -> (b: bool)
    requires
        buf@.len() >= 12,
    ensures
        b == (buf@.subrange(8, 12) == fourcc()),
{
    let b: bool = buf[8] == 0x56 && buf[9] == 0x50 && buf[10] == 0x38 && buf[11] == 0x30;
    proof {
        let s = buf@.subrange(8, 12);
        if b {
            assert(s =~= fourcc());
        } else {
            assert(s[0] == buf@[8] && s[1] == buf@[9] && s[2] == buf@[10] && s[3] == buf@[11]);
            assert(fourcc()[0] == 0x56 && fourcc()[1] == 0x50 && fourcc()[2] == 0x38
                && fourcc()[3] == 0x30);
        }
    }
    b
}

/// How sure one can be that the bytes are a VP8 stream in IVF, out of 100.
pub fn probe(buf: &[u8]) -> (score: u8)
    ensures
        score == if looks_like_vp8(buf@) {
            100int
        } else {
            0
        },
{
    if buf.len() < 12 {
        return 0;
    }
    if !is_magic(buf) {
        return 0;
    }
    if is_fourcc(buf) {
        100
    } else {
        0
    }
}

fn read2(buf: &[u8], at: usize) -> (n: u16)
    requires
        at + 2 <= buf@.len(),
    ensures
        n == le2(buf@, at as int),
{
    buf[at] as u16 + 256 * buf[at + 1] as u16
}

fn read4(buf: &[u8], at: usize) -> (n: u32)
    requires
        at <= 28,
        at + 4 <= buf@.len(),
    ensures
        n == le4(buf@, at as int),
{
    read2(buf, at) as u32 + 65536 * read2(buf, at + 2) as u32
}

fn read8(buf: &[u8], at: usize) -> (n: u64)
    requires
        at <= 24,
        at + 8 <= buf@.len(),
    ensures
        n == le8(buf@, at as int),
{
    read4(buf, at) as u64 + 0x1_0000_0000 * read4(buf, at + 4) as u64
}

/// What is wrong with a file header, if anything.
pub open spec fn header_fault(hdr: Seq<u8>) -> Option<IvfError> {
    if hdr.subrange(0, 4) != magic() {
        Some(IvfError::BadMagic)
    } else if le2(hdr, 4) != 0 {
        Some(IvfError::UnsupportedVersion(le2(hdr, 4) as u16))
    } else if le2(hdr, 6) < IVF_HEADER_LEN {
        Some(IvfError::HeaderTooShort)
    } else if hdr.subrange(8, 12) != fourcc() {
        Some(IvfError::UnsupportedFourCc([hdr[8], hdr[9], hdr[10], hdr[11]]))
    } else {
        None
    }
}

/// Fields of a file header without fault.
pub open spec fn header_of(hdr: Seq<u8>) -> IvfHeader {
    IvfHeader {
        header_len: le2(hdr, 6) as u16,
        width: le2(hdr, 12) as u16,
        height: le2(hdr, 14) as u16,
        fr_num: le4(hdr, 16) as u32,
        fr_den: le4(hdr, 20) as u32,
        frame_count: le4(hdr, 24) as u32,
    }
}

/// Reads a file header.
pub fn parse_header(hdr: &[u8; 32]) -> (r: Result<IvfHeader, IvfError>)
    ensures
        match r {
            Ok(h) => header_fault(hdr@) is None && h == header_of(hdr@),
            Err(e) => header_fault(hdr@) == Some(e),
        },
{
    let buf: &[u8] = hdr;
    if !is_magic(buf) {
        return Err(IvfError::BadMagic);
    }
    let version: u16 = read2(buf, 4);
    if version != 0 {
        return Err(IvfError::UnsupportedVersion(version));
    }
    let header_len: u16 = read2(buf, 6);
    if header_len < 32 {
        return Err(IvfError::HeaderTooShort);
    }
    if !is_fourcc(buf) {
        return Err(IvfError::UnsupportedFourCc([buf[8], buf[9], buf[10], buf[11]]));
    }
    Ok(
        IvfHeader {
            header_len,
            width: read2(buf, 12),
            height: read2(buf, 14),
            fr_num: read4(buf, 16),
            fr_den: read4(buf, 20),
            frame_count: read4(buf, 24),
        },
    )
}

impl IvfHeader {
    /// Header of a VP8 stream whose frames are not counted yet.
    pub fn vp8(width: u16, height: u16, fr_num: u32, fr_den: u32) -> (h: Self)
        ensures
            h == (IvfHeader { header_len: 32, width, height, fr_num, fr_den, frame_count: 0 }),
    {
        IvfHeader { header_len: 32, width, height, fr_num, fr_den, frame_count: 0 }
    }

    /// Bytes of the file header that come after the first 32.
    pub fn extra_len(&self) -> (n: u16)
        requires
            self.header_len >= 32,
        ensures
            n == self.header_len - 32,
    {
        self.header_len - 32
    }

    /// The header gives a rate.
    pub open spec fn has_rate(self) -> bool {
        self.fr_num != 0 && self.fr_den != 0
    }

    /// Seconds per tick: numerator and denominator. Without a rate a tick is a
    /// thousandth.
    pub fn time_base(&self) -> (r: (i64, i64))
        ensures
            r == if self.has_rate() {
                (self.fr_den as i64, self.fr_num as i64)
            } else {
                (1i64, 1000i64)
            },
    {
        if self.fr_num == 0 || self.fr_den == 0 {
            (1, 1000)
        } else {
            (self.fr_den as i64, self.fr_num as i64)
        }
    }

    /// Frames per second, if the header gives a rate.
    pub fn frame_rate(&self) -> (r: Option<(i64, i64)>)
        ensures
            r == if self.has_rate() {
                Some((self.fr_num as i64, self.fr_den as i64))
            } else {
                None
            },
    {
        if self.fr_num != 0 && self.fr_den != 0 {
            Some((self.fr_num as i64, self.fr_den as i64))
        } else {
            None
        }
    }
}

/// Fields of a frame header.
pub open spec fn entry_of(hdr: Seq<u8>) -> FrameEntry {
    FrameEntry { size: le4(hdr, 0) as u32, pts: le8(hdr, 4) as u64 }
}

/// Reads a frame header.
pub fn parse_frame_header(hdr: &[u8; 12]) -> (e: FrameEntry)
    ensures
        e == entry_of(hdr@),
{
    let buf: &[u8] = hdr;
    FrameEntry { size: read4(buf, 0), pts: read8(buf, 4) }
}

/// Whether the bytes of a frame say that it is a key frame.
pub fn is_key_packet(data: &[u8]) -> (b: bool)
    ensures
        b == (data@.len() > 0 && data@[0] % 2 == 0),
{
    data.len() > 0 && data[0] % 2 == 0
}

/// The bytes of a file header.
pub open spec fn header_bytes(h: IvfHeader) -> Seq<u8> {
    magic() + to_le2(0) + to_le2(h.header_len as int) + fourcc() + to_le2(h.width as int) + to_le2(
        h.height as int,
    ) + to_le4(h.fr_num as int) + to_le4(h.fr_den as int) + to_le4(h.frame_count as int) + to_le4(0)
}

fn push2(out: &mut Vec<u8>, n: u16)
    ensures
        final(out)@ == old(out)@ + to_le2(n as int),
{
    out.push((n % 256) as u8);
    out.push((n / 256 % 256) as u8);
    assert(out@ =~= old(out)@ + to_le2(n as int));
}

fn push4(out: &mut Vec<u8>, n: u32)
    ensures
        final(out)@ == old(out)@ + to_le4(n as int),
{
    proof {
        let low = (n % 65536) as int;
        assert(low % 256 == n as int % 256);
        assert(low / 256 % 256 == n as int / 256 % 256);
    }
    push2(out, (n % 65536) as u16);
    push2(out, (n / 65536) as u16);
    assert(out@ =~= old(out)@ + to_le4(n as int));
}

fn push8(out: &mut Vec<u8>, n: u64)
    ensures
        final(out)@ == old(out)@ + to_le8(n as int),
{
    let low: u32 = (n % 0x1_0000_0000) as u32;
    let high: u32 = (n / 0x1_0000_0000) as u32;
    proof {
        lemma_low_four(n as int);
    }
    push4(out, low);
    push4(out, high);
    assert(out@ =~= old(out)@ + to_le8(n as int));
}

proof fn lemma_low_two(n: int)
    requires
        n >= 0,
    ensures
        to_le2(n % 65536) == to_le2(n),
{
    let low = n % 65536;
    assert(low % 256 == n % 256);
    assert(low / 256 % 256 == n / 256 % 256);
}

proof fn lemma_low_four(n: int)
    requires
        n >= 0,
    ensures
        to_le4(n % 0x1_0000_0000) == to_le4(n),
{
    let low = n % 0x1_0000_0000;
    let high = n / 65536;
    vstd::arithmetic::div_mod::lemma_mod_breakdown(n, 65536, 65536);
    assert(low == 65536 * (high % 65536) + n % 65536);
    assert(low / 65536 == high % 65536 && low % 65536 == n % 65536) by {
        vstd::arithmetic::div_mod::lemma_fundamental_div_mod_converse(
            low,
            65536,
            high % 65536,
            n % 65536,
        );
    }
    lemma_low_two(low);
    lemma_low_two(n);
    lemma_low_two(high);
}

/// Writes a file header.
pub fn write_header(h: &IvfHeader) -> (out: Vec<u8>)
    ensures
        out@ == header_bytes(*h),
        out@.len() == 32,
{
    let mut out: Vec<u8> = Vec::new();
    out.push(0x44);
    out.push(0x4b);
    out.push(0x49);
    out.push(0x46);
    assert(out@ =~= magic());
    push2(&mut out, 0);
    push2(&mut out, h.header_len);
    let ghost before = out@;
    out.push(0x56);
    out.push(0x50);
    out.push(0x38);
    out.push(0x30);
    assert(out@ =~= before + fourcc());
    push2(&mut out, h.width);
    push2(&mut out, h.height);
    push4(&mut out, h.fr_num);
    push4(&mut out, h.fr_den);
    push4(&mut out, h.frame_count);
    push4(&mut out, 0);
    out
}

/// The bytes of a frame header.
pub open spec fn entry_bytes(e: FrameEntry) -> Seq<u8> {
    to_le4(e.size as int) + to_le8(e.pts as int)
}

/// Writes a frame header.
pub fn write_frame_header(e: FrameEntry) -> (out: Vec<u8>)
    ensures
        out@ == entry_bytes(e),
        out@.len() == 12,
{
    let mut out: Vec<u8> = Vec::new();
    push4(&mut out, e.size);
    push8(&mut out, e.pts);
    assert(out@ =~= entry_bytes(e));
    out
}

/// Appends a frame behind its header.
pub fn write_frame(out: &mut Vec<u8>, pts: u64, data: &[u8])
    requires
        data@.len() <= u32::MAX,
    ensures
        final(out)@ == old(out)@ + entry_bytes((FrameEntry { size: data@.len() as u32, pts }))
            + data@,
{
    push4(out, data.len() as u32);
    push8(out, pts);
    let ghost head = old(out)@ + entry_bytes((FrameEntry { size: data@.len() as u32, pts }));
    let mut i: usize = 0;
    assert(out@ =~= head + data@.take(0));
    while i < data.len()
        invariant
            i <= data@.len(),
            out@ == head + data@.take(i as int),
        decreases data@.len() - i,
    {
        out.push(data[i]);
        i = i + 1;
        assert(out@ =~= head + data@.take(i as int));
    }
    assert(data@.take(i as int) =~= data@);
}

proof fn lemma_le2(s: Seq<u8>, at: int, n: int)
    requires
        0 <= n < 65536,
        s[at] == to_le2(n)[0],
        s[at + 1] == to_le2(n)[1],
    ensures
        le2(s, at) == n,
{
}

proof fn lemma_le4(s: Seq<u8>, at: int, n: int)
    requires
        0 <= n < 0x1_0000_0000,
        forall|i: int| 0 <= i < 4 ==> s[at + i] == #[trigger] to_le4(n)[i],
    ensures
        le4(s, at) == n,
{
    let b = to_le4(n);
    assert(s[at + 0] == b[0] && s[at + 1] == b[1] && s[at + 2] == b[2] && s[at + 3] == b[3]);
    let low = n % 65536;
    assert(low % 256 == n % 256);
    assert(low / 256 == n / 256 % 256);
    lemma_le2(s, at, low);
    lemma_le2(s, at + 2, n / 65536);
}

proof fn lemma_header_texts(h: IvfHeader)
    ensures
        header_bytes(h).len() == 32,
        header_bytes(h).subrange(0, 4) == magic(),
        header_bytes(h).subrange(8, 12) == fourcc(),
{
    let s = header_bytes(h);
    assert(s.subrange(0, 4) =~= magic());
    assert(s.subrange(8, 12) =~= fourcc());
}

proof fn lemma_header_shorts(h: IvfHeader)
    ensures
        le2(header_bytes(h), 4) == 0,
        le2(header_bytes(h), 6) == h.header_len,
        le2(header_bytes(h), 12) == h.width,
        le2(header_bytes(h), 14) == h.height,
{
    let s = header_bytes(h);
    assert(s[4] == to_le2(0)[0] && s[5] == to_le2(0)[1]);
    lemma_le2(s, 4, 0);
    let len = h.header_len as int;
    assert(s[6] == to_le2(len)[0] && s[7] == to_le2(len)[1]);
    lemma_le2(s, 6, len);
    let w = h.width as int;
    assert(s[12] == to_le2(w)[0] && s[13] == to_le2(w)[1]);
    lemma_le2(s, 12, w);
    let t = h.height as int;
    assert(s[14] == to_le2(t)[0] && s[15] == to_le2(t)[1]);
    lemma_le2(s, 14, t);
}

proof fn lemma_header_longs(h: IvfHeader)
    ensures
        le4(header_bytes(h), 16) == h.fr_num,
        le4(header_bytes(h), 20) == h.fr_den,
        le4(header_bytes(h), 24) == h.frame_count,
{
    let s = header_bytes(h);
    let num = h.fr_num as int;
    let den = h.fr_den as int;
    let count = h.frame_count as int;
    assert forall|i: int| 0 <= i < 4 implies s[16 + i] == #[trigger] to_le4(num)[i] by {}
    lemma_le4(s, 16, num);
    assert forall|i: int| 0 <= i < 4 implies s[20 + i] == #[trigger] to_le4(den)[i] by {}
    lemma_le4(s, 20, den);
    assert forall|i: int| 0 <= i < 4 implies s[24 + i] == #[trigger] to_le4(count)[i] by {}
    lemma_le4(s, 24, count);
}

/// A file header reads back as it was written.
pub proof fn law_header_reads_back(h: IvfHeader)
    requires
        h.header_len >= 32,
    ensures
        header_bytes(h).len() == 32,
        looks_like_vp8(header_bytes(h)),
        header_fault(header_bytes(h)) is None,
        header_of(header_bytes(h)) == h,
{
    lemma_header_texts(h);
    lemma_header_shorts(h);
    lemma_header_longs(h);
}

/// A frame header reads back as it was written.
pub proof fn law_entry_reads_back(e: FrameEntry)
    ensures
        entry_bytes(e).len() == 12,
        entry_of(entry_bytes(e)) == e,
{
    let s = entry_bytes(e);
    let pts = e.pts as int;
    lemma_le4(s, 0, e.size as int);
    lemma_low_four(pts);
    let low = pts % 0x1_0000_0000;
    assert forall|i: int| 0 <= i < 4 implies s[4 + i] == #[trigger] to_le4(low)[i] by {
        assert(s[4 + i] == to_le4(pts)[i]);
    }
    lemma_le4(s, 4, low);
    lemma_le4(s, 8, pts / 0x1_0000_0000);
}

/// A frame in a file reads back as it was appended, whatever stands before and
/// behind it.
pub proof fn law_frame_reads_back(before: Seq<u8>, pts: u64, data: Seq<u8>, behind: Seq<u8>)
    requires
        data.len() <= u32::MAX,
    ensures
        ({
            let e = FrameEntry { size: data.len() as u32, pts };
            let file = before + entry_bytes(e) + data + behind;
            let at = before.len() as int;
            &&& entry_of(file.subrange(at, at + 12)) == e
            &&& file.subrange(at + 12, at + 12 + data.len()) == data
            &&& file.skip(at + 12 + data.len()) == behind
        }),
{
    let e = FrameEntry { size: data.len() as u32, pts };
    law_entry_reads_back(e);
    let file = before + entry_bytes(e) + data + behind;
    let at = before.len() as int;
    assert(file.subrange(at, at + 12) =~= entry_bytes(e));
    assert(file.subrange(at + 12, at + 12 + data.len()) =~= data);
    assert(file.skip(at + 12 + data.len()) =~= behind);
}

/// Where the frame count stands in a file header.
pub const FRAME_COUNT_AT: usize = 24;

/// A file header in which the frame count is replaced reads back with the new
/// count and else as before.
pub proof fn law_count_is_patched(h: IvfHeader, count: u32)
    requires
        h.header_len >= 32,
    ensures
        ({
            let s = header_bytes(h);
            let at = FRAME_COUNT_AT as int;
            let patched = s.take(at) + to_le4(count as int) + s.skip(at + 4);
            patched == header_bytes((IvfHeader { frame_count: count, ..h }))
        }),
{
    let s = header_bytes(h);
    let patched = s.take(24) + to_le4(count as int) + s.skip(28);
    assert(patched =~= header_bytes((IvfHeader { frame_count: count, ..h })));
}

/// A rate, or where there is none the inverse of a time base, as two unsigned
/// numbers. A numerator below zero counts as zero, a denominator below one as
/// one; of larger numbers the low 32 bits are kept.
pub open spec fn stream_rate(rate: Option<(i64, i64)>, time_base: (i64, i64)) -> (u32, u32) {
    let (num, den) = match rate {
        Some(r) => r,
        None => (time_base.1, time_base.0),
    };
    (
        ((if num < 0 {
            0
        } else {
            num as int
        }) % 0x1_0000_0000) as u32,
        ((if den < 1 {
            1
        } else {
            den as int
        }) % 0x1_0000_0000) as u32,
    )
}

/// The rate that goes into a file header.
pub fn rate_for(rate: Option<(i64, i64)>, time_base: (i64, i64)) -> (r: (u32, u32))
    ensures
        r == stream_rate(rate, time_base),
{
    let (num, den): (i64, i64) = match rate {
        Some(r) => r,
        None => (time_base.1, time_base.0),
    };
    let n: i64 = if num < 0 {
        0
    } else {
        num
    };
    let d: i64 = if den < 1 {
        1
    } else {
        den
    };
    ((n % 0x1_0000_0000) as u32, (d % 0x1_0000_0000) as u32)
}

/// A stream that is to be written.
#[derive(Debug, Clone, Copy, PartialEq, Eq)]
pub struct StreamDesc {
    /// The stream is video.
    pub video: bool,
    /// The stream is VP8.
    pub vp8: bool,
    pub width: Option<u32>,
    pub height: Option<u32>,
    /// Frames per second: numerator and denominator.
    pub rate: Option<(i64, i64)>,
    /// Seconds per tick: numerator and denominator.
    pub time_base: (i64, i64),
}

/// Why a stream cannot be written, if it cannot.
pub open spec fn stream_fault(s: StreamDesc) -> Option<MuxError> {
    if !s.video {
        Some(MuxError::NotVideo)
    } else if !s.vp8 {
        Some(MuxError::OtherCodec)
    } else {
        match (s.width, s.height) {
            (None, _) => Some(MuxError::MissingWidth),
            (_, None) => Some(MuxError::MissingHeight),
            (Some(w), Some(h)) => if 1 <= w <= 0xffff && 1 <= h <= 0xffff {
                None
            } else {
                Some(MuxError::DimensionsOutOfRange { width: w, height: h })
            },
        }
    }
}

/// Why streams cannot be written, if they cannot.
pub open spec fn streams_fault(streams: Seq<StreamDesc>) -> Option<MuxError> {
    if streams.len() != 1 {
        Some(MuxError::NotOneStream)
    } else {
        stream_fault(streams[0])
    }
}

/// What a writer has done so far.
#[derive(Debug, Clone, Copy, PartialEq, Eq, Structural)]
pub struct IvfMuxer {
    pub header: IvfHeader,
    pub header_written: bool,
    pub trailer_written: bool,
}

impl IvfMuxer {
    /// A writer before its first byte.
    pub fn new(streams: &[StreamDesc]) -> (r: Result<Self, MuxError>)
        ensures
            match r {
                Ok(m) => {
                    let s = streams@[0];
                    &&& streams_fault(streams@) is None
                    &&& m.header == (IvfHeader {
                        header_len: 32,
                        width: s.width->0 as u16,
                        height: s.height->0 as u16,
                        fr_num: stream_rate(s.rate, s.time_base).0,
                        fr_den: stream_rate(s.rate, s.time_base).1,
                        frame_count: 0,
                    })
                    &&& !m.header_written
                    &&& !m.trailer_written
                },
                Err(e) => streams_fault(streams@) == Some(e),
            },
    {
        if streams.len() != 1 {
            return Err(MuxError::NotOneStream);
        }
        let s: StreamDesc = streams[0];
        if !s.video {
            return Err(MuxError::NotVideo);
        }
        if !s.vp8 {
            return Err(MuxError::OtherCodec);
        }
        let w: u32 = match s.width {
            Some(w) => w,
            None => {
                return Err(MuxError::MissingWidth);
            },
        };
        let h: u32 = match s.height {
            Some(h) => h,
            None => {
                return Err(MuxError::MissingHeight);
            },
        };
        if w == 0 || h == 0 || w > 0xffff || h > 0xffff {
            return Err(MuxError::DimensionsOutOfRange { width: w, height: h });
        }
        let (fr_num, fr_den): (u32, u32) = rate_for(s.rate, s.time_base);
        Ok(
            IvfMuxer {
                header: IvfHeader::vp8(w as u16, h as u16, fr_num, fr_den),
                header_written: false,
                trailer_written: false,
            },
        )
    }

    /// The bytes that come first, unless they are written already.
    pub fn header_to_write(&self) -> (r: Result<Vec<u8>, MuxError>)
        ensures
            match r {
                Ok(bytes) => !self.header_written && bytes@ == header_bytes(
                    (IvfHeader { frame_count: 0, ..self.header }),
                ),
                Err(e) => self.header_written && e == MuxError::HeaderWrittenTwice,
            },
    {
        if self.header_written {
            return Err(MuxError::HeaderWrittenTwice);
        }
        let h: IvfHeader = self.header;
        Ok(
            write_header(
                &IvfHeader {
                    header_len: h.header_len,
                    width: h.width,
                    height: h.height,
                    fr_num: h.fr_num,
                    fr_den: h.fr_den,
                    frame_count: 0,
                },
            ),
        )
    }

    /// Notes that the header is written.
    pub fn header_done(&mut self)
        ensures
            *final(self) == (IvfMuxer { header_written: true, ..*old(self) }),
    {
        self.header_written = true;
    }

    /// The header of the next frame: `size` bytes with the given time, or with
    /// the number of frames before it for a time.
    pub fn frame_to_write(&self, size: usize, pts: Option<i64>) -> (r: Result<FrameEntry, MuxError>)
        ensures
            match r {
                Ok(e) => {
                    &&& self.header_written
                    &&& size <= u32::MAX
                    &&& e.size == size
                    &&& e.pts == match pts {
                        Some(t) => t as u64,
                        None => self.header.frame_count as u64,
                    }
                },
                Err(e) => if !self.header_written {
                    e == MuxError::HeaderNotWritten
                } else {
                    size > u32::MAX && e == MuxError::PacketTooLarge
                },
            },
    {
        if !self.header_written {
            return Err(MuxError::HeaderNotWritten);
        }
        if size > u32::MAX as usize {
            return Err(MuxError::PacketTooLarge);
        }
        let time: u64 = match pts {
            Some(t) => t as u64,
            None => self.header.frame_count as u64,
        };
        Ok(FrameEntry { size: size as u32, pts: time })
    }

    /// Notes that a frame is written.
    pub fn frame_done(&mut self)
        ensures
            *final(self) == (IvfMuxer {
                header: IvfHeader {
                    frame_count: if old(self).header.frame_count < u32::MAX {
                        (old(self).header.frame_count + 1) as u32
                    } else {
                        u32::MAX
                    },
                    ..old(self).header
                },
                ..*old(self)
            }),
    {
        self.header.frame_count = self.header.frame_count.saturating_add(1);
    }

    /// The frame count, to be written over the one in the header, unless that
    /// is done already.
    pub fn count_to_write(&self) -> (r: Option<Vec<u8>>)
        ensures
            match r {
                Some(bytes) => !self.trailer_written && bytes@ == to_le4(
                    self.header.frame_count as int,
                ),
                None => self.trailer_written,
            },
    {
        if self.trailer_written {
            return None;
        }
        let mut bytes: Vec<u8> = Vec::new();
        push4(&mut bytes, self.header.frame_count);
        assert(bytes@ =~= to_le4(self.header.frame_count as int));
        Some(bytes)
    }

    /// Notes that the frame count is written.
    pub fn trailer_done(&mut self)
        ensures
            *final(self) == (IvfMuxer { trailer_written: true, ..*old(self) }),
    {
        self.trailer_written = true;
    }
}

/// A rate of a file header goes into another one as it is, and so does the
/// inverse of a time base.
pub proof fn law_rate_goes_through(num: u32, den: u32, time_base: (i64, i64))
    requires
        den >= 1,
    ensures
        stream_rate(Some((num as i64, den as i64)), time_base) == (num, den),
        stream_rate(None, (den as i64, num as i64)) == (num, den),
{
}

} // verus!
