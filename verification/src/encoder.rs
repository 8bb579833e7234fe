//! Key-frame encoder: frame tags, headers, and frames without residue.
pub use crate::encode_error::{EncodeError, TokenEncodeError};
pub use crate::i420::{I420Frame, MbPixels};
pub use crate::keyframe_encoder::{
    encode_keyframe, encode_keyframe_with_reconstruction, KeyframeParams,
};
pub use crate::mode_picker::{encode_mb_block_set, encode_mb_block_set_with_neighbors, EncodedMb};
pub use crate::token_encoder::{classify_coeff_token, encode_coeff_block, TokenEncoder};
use crate::arith;
use crate::decoder;
use crate::encode_error;
use crate::frame_tag;
use crate::range_coder;
use crate::range_encoder::RangeEncoder;
use crate::tables;
use crate::tables::{
    update_prob_at, KF_UV_MODE_PROBS, KF_YMODE_PROBS, KF_YMODE_TREE, UV_MODE_TREE,
};
use crate::trees;
use crate::trees::{path_to_leaf, push_leaf};
use vstd::prelude::*;

verus! {

/// Boolean encoder that ends with its whole register.
pub struct BoolEncoder {
    core: RangeEncoder,
}

impl View for BoolEncoder {
    type V = Seq<(u8, bool)>;

    /// The booleans coded so far, each with its probability.
    closed spec fn view(&self) -> Seq<(u8, bool)> {
        self.core@
    }
}

impl Default for BoolEncoder {
    /// An encoder whose registers are all zero, which cannot write; one that
    /// can comes from [`BoolEncoder::new`].
    fn default() -> (e: Self)
        ensures
            e.blank(),
            !e.wf(),
            e@ == Seq::<(u8, bool)>::empty(),
    {
        BoolEncoder { core: RangeEncoder::zeroed() }
    }
}

impl BoolEncoder {
    /// The encoder is ready to write.
    pub closed spec fn wf(&self) -> bool {
        self.core.wf()
    }

    /// Every register is zero and nothing is written.
    pub closed spec fn blank(&self) -> bool {
        self.core.blank()
    }

    pub fn new() -> (e: Self)
        ensures
            e.wf(),
            e@ == Seq::<(u8, bool)>::empty(),
    {
        BoolEncoder { core: RangeEncoder::new() }
    }

    /// Codes one boolean at probability `prob` / 256 of being `false`.
    pub fn write_bool(&mut self, prob: u8, value: bool)
        requires
            old(self).wf(),
        ensures
            final(self).wf(),
            final(self)@ == old(self)@ + range_coder::one_op(prob, value),
    {
        self.core.write_bool(prob, value);
        assert(self@ =~= old(self)@ + range_coder::one_op(prob, value));
    }

    /// Codes an unsigned number, highest bit first, at even odds.
    /// A number of no bits leaves even an encoder that cannot write as it is.
    pub fn write_literal(&mut self, value: u32, num_bits: u32)
        requires
            num_bits > 0 ==> old(self).wf(),
            num_bits <= 32,
        ensures
            num_bits == 0 ==> *final(self) == *old(self),
            old(self).wf() ==> final(self).wf(),
            final(self)@ == old(self)@ + range_coder::literal_ops(value as int, num_bits as nat),
    {
        if num_bits > 0 {
            self.core.write_literal(value, num_bits);
        } else {
            assert(self@ =~= old(self)@ + range_coder::literal_ops(value as int, 0));
        }
    }

    /// Codes a signed number: its magnitude, then the sign.
    pub fn write_signed_literal(&mut self, value: i32, num_bits: u32)
        requires
            old(self).wf(),
            num_bits <= 31,
            -vstd::arithmetic::power2::pow2(num_bits as nat) < value
                < vstd::arithmetic::power2::pow2(num_bits as nat),
        ensures
            final(self).wf(),
            final(self)@ == old(self)@ + range_coder::signed_ops(value as int, num_bits as nat),
    {
        self.core.write_signed_literal(value, num_bits);
    }

    /// Codes a leaf of a tree, with the probability that `prob_lookup` gives
    /// for each pair on the way.
    pub fn write_treed<F>(&mut self, tree: &[i8], prob_lookup: F, leaf: u8) where F: Fn(usize) -> u8
        requires
            old(self).wf(),
            trees::tree_ok(tree@),
            trees::tree_path(tree@, 0, leaf as int) is Some,
            forall|i: usize| 2 * i < tree@.len() ==> #[trigger] call_requires(prob_lookup, (i,)),
        ensures
            final(self).wf(),
            exists|probs: Seq<u8>| #[trigger]
                looked_up(prob_lookup, trees::tree_path(tree@, 0, leaf as int)->0, probs)
                    && final(self)@ == old(self)@ + with_probs(
                    trees::tree_path(tree@, 0, leaf as int)->0,
                    probs,
                ),
    {
        let ghost way = trees::tree_path(tree@, 0, leaf as int)->0;
        let ghost mut probs: Seq<u8> = Seq::empty();
        if let Some(path) = path_to_leaf(tree, 0, leaf) {
            proof {
                trees::lemma_path_in_tree(tree@, 0, leaf as int);
            }
            let mut k: usize = 0;
            assert(self@ =~= old(self)@ + with_probs(way.take(0), probs));
            while k < path.len()
                invariant
                    k <= path@.len(),
                    path@ == way,
                    self.wf(),
                    probs.len() == k,
                    forall|j: int| 0 <= j < way.len() ==> (#[trigger] way[j]).0 * 2 < tree@.len(),
                    forall|i: usize|
                        2 * i < tree@.len() ==> #[trigger] call_requires(prob_lookup, (i,)),
                    forall|j: int|
                        0 <= j < k ==> call_ensures(prob_lookup, (way[j].0,), #[trigger] probs[j]),
                    self@ == old(self)@ + with_probs(way.take(k as int), probs),
                decreases path@.len() - k,
            {
                let step: (usize, bool) = path[k];
                assert(way[k as int].0 * 2 < tree@.len());
                let p: u8 = prob_lookup(step.0);
                let ghost before = self@;
                self.write_bool(p, step.1);
                proof {
                    let more = probs.push(p);
                    assert(with_probs(way.take(k + 1), more) =~= with_probs(
                        way.take(k as int),
                        probs,
                    ) + range_coder::one_op(p, step.1));
                    probs = more;
                    assert(self@ =~= old(self)@ + with_probs(way.take(k + 1), probs));
                }
                k = k + 1;
            }
            assert(way.take(k as int) =~= way);
            assert(looked_up(prob_lookup, way, probs));
        }
    }

    /// Codes a leaf of a tree.
    pub fn write_leaf(&mut self, tree: &[i8], probs: &[u8], start: usize, leaf: u8)
        requires
            old(self).wf(),
            trees::tree_ok(tree@),
            2 * probs@.len() >= tree@.len(),
            start < tree@.len() - 1,
            trees::tree_path(tree@, start as int, leaf as int) is Some,
        ensures
            final(self).wf(),
            final(self)@ == old(self)@ + trees::leaf_ops(
                tree@,
                probs@,
                start as int,
                leaf as int,
            ),
    {
        let mut ops: Vec<(u8, bool)> = Vec::new();
        push_leaf(&mut ops, tree, probs, start, leaf);
        assert(ops@ =~= trees::leaf_ops(tree@, probs@, start as int, leaf as int));
        self.write_ops(&ops);
    }

    /// Codes booleans one after another.
    pub fn write_ops(&mut self, ops: &Vec<(u8, bool)>)
        requires
            old(self).wf(),
        ensures
            final(self).wf(),
            final(self)@ == old(self)@ + ops@,
    {
        let mut k: usize = 0;
        assert(self@ =~= old(self)@ + ops@.take(0));
        while k < ops.len()
            invariant
                k <= ops@.len(),
                self.wf(),
                self@ == old(self)@ + ops@.take(k as int),
            decreases ops@.len() - k,
        {
            let op: (u8, bool) = ops[k];
            self.write_bool(op.0, op.1);
            k = k + 1;
            assert(self@ =~= old(self)@ + ops@.take(k as int));
        }
        assert(ops@.take(k as int) =~= ops@);
    }

    /// Ends the code and returns its bytes.
    pub fn finish(self) -> (bytes: Vec<u8>)
        requires
            self.wf(),
        ensures
            range_coder::is_code(bytes@, self@),
    {
        self.core.flush()
    }

    /// Number of bytes that have left the register.
    pub fn bytes_written(&self) -> (n: usize)
        requires
            self.wf() || self.blank(),
        ensures
            n == range_coder::emitted(range_coder::enc_run(self@).shifts),
    {
        self.core.bytes_written()
    }
}

/// `probs` are what `lookup` gave for the pairs of `path`.
pub open spec fn looked_up<F: Fn(usize) -> u8>(
    lookup: F,
    path: Seq<(usize, bool)>,
    probs: Seq<u8>,
) -> bool {
    &&& probs.len() == path.len()
    &&& forall|k: int|
        0 <= k < path.len() ==> call_ensures(lookup, (path[k].0,), #[trigger] probs[k])
}

/// The branches of `path`, each with its probability.
pub open spec fn with_probs(path: Seq<(usize, bool)>, probs: Seq<u8>) -> Seq<(u8, bool)> {
    Seq::new(path.len(), |k: int| (probs[k], path[k].1))
}

/// Scaling that a player is asked for.
#[derive(Debug, Clone, Copy, PartialEq, Eq, Structural)]
pub enum ScaleCode {
    Unscaled,
    FiveFourths,
    FiveThirds,
    Double,
}

impl ScaleCode {
    pub open spec fn number(self) -> int {
        match self {
            ScaleCode::Unscaled => 0,
            ScaleCode::FiveFourths => 1,
            ScaleCode::FiveThirds => 2,
            ScaleCode::Double => 3,
        }
    }

    /// The two bits that stand for the scaling.
    pub fn code(self) -> (r: u16)
        ensures
            r == self.number(),
    {
        match self {
            ScaleCode::Unscaled => 0,
            ScaleCode::FiveFourths => 1,
            ScaleCode::FiveThirds => 2,
            ScaleCode::Double => 3,
        }
    }
}

/// Largest size of a first partition.
pub const MAX_FIRST_PARTITION: u32 = 0x7_FFFF;

/// Number that the three tag bytes hold.
pub open spec fn tag_number(key_frame: bool, version: int, show_frame: bool, size: int) -> int {
    (if key_frame {
        0int
    } else {
        1
    }) + 2 * (version % 8) + (if show_frame {
        16int
    } else {
        0
    }) + 32 * size
}

/// The low 24 bits of a number, low byte first.
pub open spec fn bytes3(n: int) -> Seq<u8> {
    seq![(n % 256) as u8, (n / 256 % 256) as u8, (n / 65536 % 256) as u8]
}

/// The low 16 bits of a number, low byte first.
pub open spec fn bytes2(n: int) -> Seq<u8> {
    seq![(n % 256) as u8, (n / 256 % 256) as u8]
}

/// The bytes that follow the tag of a key frame.
pub open spec fn size_bytes(width: int, height: int, h_scale: int, v_scale: int) -> Seq<u8> {
    seq![0x9du8, 0x01u8, 0x2au8] + bytes2(16384 * h_scale + width) + bytes2(
        16384 * v_scale + height,
    )
}

fn push3(out: &mut Vec<u8>, n: u32)
    ensures
        final(out)@ == old(out)@ + bytes3(n as int),
{
    out.push((n % 256) as u8);
    out.push((n / 256 % 256) as u8);
    out.push((n / 65536 % 256) as u8);
    assert(out@ =~= old(out)@ + bytes3(n as int));
}

fn push2(out: &mut Vec<u8>, n: u16)
    ensures
        final(out)@ == old(out)@ + bytes2(n as int),
{
    out.push((n % 256) as u8);
    out.push((n / 256) as u8);
    assert(out@ =~= old(out)@ + bytes2(n as int));
}

/// Writes the uncompressed bytes of a frame and returns how many they are. A
/// key frame of a size that cannot be written is refused behind its tag.
pub fn write_frame_tag(
    out: &mut Vec<u8>,
    key_frame: bool,
    version: u8,
    show_frame: bool,
    first_partition_size: u32,
    width: u32,
    height: u32,
    horizontal_scale: ScaleCode,
    vertical_scale: ScaleCode,
) -> (r: Result<usize, EncodeError>)
    ensures
        ({
            let tag = bytes3(
                tag_number(
                    key_frame,
                    version as int,
                    show_frame,
                    first_partition_size as int,
                ),
            );
            if first_partition_size > MAX_FIRST_PARTITION {
                &&& r == Err::<usize, EncodeError>(
                    EncodeError::FirstPartitionTooLarge { bytes: first_partition_size as usize },
                )
                &&& final(out)@ == old(out)@
            } else if !key_frame {
                &&& r == Ok::<usize, EncodeError>(3)
                &&& final(out)@ == old(out)@ + tag
            } else if !encode_error::valid_dims(width as int, height as int) {
                &&& r == Err::<usize, EncodeError>(
                    EncodeError::InvalidDimensions { width, height },
                )
                &&& final(out)@ == old(out)@ + tag
            } else {
                &&& r == Ok::<usize, EncodeError>(10)
                &&& final(out)@ == old(out)@ + tag + size_bytes(
                    width as int,
                    height as int,
                    horizontal_scale.number(),
                    vertical_scale.number(),
                )
            }
        }),
{
    if first_partition_size > MAX_FIRST_PARTITION {
        return Err(EncodeError::FirstPartitionTooLarge { bytes: first_partition_size as usize });
    }
    let kind: u32 = if key_frame {
        0
    } else {
        1
    };
    let show: u32 = if show_frame {
        16
    } else {
        0
    };
    push3(out, kind + 2 * (version as u32 % 8) + show + 32 * first_partition_size);
    if !key_frame {
        return Ok(3);
    }
    if width == 0 || width > 0x3FFF || height == 0 || height > 0x3FFF {
        return Err(EncodeError::InvalidDimensions { width, height });
    }
    let ghost tagged = out@;
    out.push(0x9d);
    out.push(0x01);
    out.push(0x2a);
    assert(out@ =~= tagged + seq![0x9du8, 0x01u8, 0x2au8]);
    push2(out, 16384 * horizontal_scale.code() + width as u16);
    push2(out, 16384 * vertical_scale.code() + height as u16);
    assert(out@ =~= tagged + size_bytes(
        width as int,
        height as int,
        horizontal_scale.number(),
        vertical_scale.number(),
    ));
    Ok(10)
}

/// Puts another size into the tag at the start of `buf`.
pub fn patch_first_partition_size(buf: &mut [u8], size: u32) -> (r: Result<(), EncodeError>)
    requires
        size <= MAX_FIRST_PARTITION ==> old(buf)@.len() >= 3,
    ensures
        if size > MAX_FIRST_PARTITION {
            &&& r == Err::<(), EncodeError>(
                EncodeError::FirstPartitionTooLarge { bytes: size as usize },
            )
            &&& final(buf)@ == old(buf)@
        } else {
            &&& r is Ok
            &&& final(buf)@ == bytes3(old(buf)@[0] % 32 + 32 * size) + old(buf)@.skip(3)
        },
{
    if size > MAX_FIRST_PARTITION {
        return Err(EncodeError::FirstPartitionTooLarge { bytes: size as usize });
    }
    let n: u32 = buf[0] as u32 % 32 + 32 * size;
    buf[0] = (n % 256) as u8;
    buf[1] = (n / 256 % 256) as u8;
    buf[2] = (n / 65536) as u8;
    assert(buf@ =~= bytes3(n as int) + old(buf)@.skip(3));
    Ok(())
}

/// A tag that was written reads back with every field that it was given, and a
/// size that can be written reads back, too.
pub proof fn law_tag_reads_back(
    key_frame: bool,
    version: u8,
    show_frame: bool,
    size: int,
    width: int,
    height: int,
    h_scale: int,
    v_scale: int,
    rest: Seq<u8>,
)
    requires
        0 <= size <= MAX_FIRST_PARTITION,
        encode_error::valid_dims(width, height),
        0 <= h_scale <= 3,
        0 <= v_scale <= 3,
    ensures
        ({
            let tag = bytes3(tag_number(key_frame, version as int, show_frame, size));
            let buf = if key_frame {
                tag + size_bytes(width, height, h_scale, v_scale) + rest
            } else {
                tag + rest
            };
            let p = frame_tag::parsed(buf);
            &&& frame_tag::tag_fault(buf) is None
            &&& frame_tag::is_key(buf) == key_frame
            &&& p.tag.version == version % 8
            &&& p.tag.show_frame == show_frame
            &&& p.tag.first_partition_size == size
            &&& key_frame ==> p.keyframe->0.width == width && p.keyframe->0.height == height
                && p.keyframe->0.horizontal_scale == h_scale && p.keyframe->0.vertical_scale
                == v_scale
            &&& buf.skip(p.compressed_offset as int) == rest
        }),
{
    let n = tag_number(key_frame, version as int, show_frame, size);
    let tag = bytes3(n);
    let s = size_bytes(width, height, h_scale, v_scale);
    let buf = if key_frame {
        tag + s + rest
    } else {
        tag + rest
    };
    assert(buf[0] == tag[0] && buf[1] == tag[1] && buf[2] == tag[2]);
    lemma_three_bytes(n);
    assert(frame_tag::number3(buf, 0) == n);
    assert(n % 2 == if key_frame {
        0int
    } else {
        1
    });
    if key_frame {
        assert(buf[3] == s[0] && buf[4] == s[1] && buf[5] == s[2]);
        assert(buf[6] == s[3] && buf[7] == s[4] && buf[8] == s[5] && buf[9] == s[6]);
        assert(frame_tag::number2(buf, 6) == 16384 * h_scale + width);
        assert(frame_tag::number2(buf, 8) == 16384 * v_scale + height);
        assert(buf.skip(10) =~= rest);
    } else {
        assert(buf.skip(3) =~= rest);
    }
}

proof fn lemma_low_five(x: int, y: int)
    requires
        x >= 0,
        y >= 0,
        x % 32 == y % 32,
    ensures
        x % 2 == y % 2,
        x / 2 % 8 == y / 2 % 8,
        x / 16 % 2 == y / 16 % 2,
{
    let q = x / 32;
    let r = y / 32;
    let m = x % 32;
    assert(x == 32 * q + m && y == 32 * r + m);
    assert(x / 2 == 16 * q + m / 2 && y / 2 == 16 * r + m / 2);
    assert(x / 16 == 2 * q + m / 16 && y / 16 == 2 * r + m / 16);
}

/// Tags that agree in their low five bits differ in the size alone.
proof fn lemma_same_but_the_size(x: int, y: int)
    requires
        0 <= x < 0x100_0000,
        0 <= y < 0x100_0000,
        x % 32 == y % 32,
    ensures
        frame_tag::tag_of(x).frame_type == frame_tag::tag_of(y).frame_type,
        frame_tag::tag_of(x).version == frame_tag::tag_of(y).version,
        frame_tag::tag_of(x).show_frame == frame_tag::tag_of(y).show_frame,
        frame_tag::tag_of(y).first_partition_size == y / 32,
{
    lemma_low_five(x, y);
}

proof fn lemma_patched_number(a: int, b: int, c: int, size: int)
    requires
        0 <= a < 256,
        0 <= b < 256,
        0 <= c < 256,
        0 <= size <= 0x7ffff,
    ensures
        0 <= a % 32 + 32 * size < 0x100_0000,
        (a + 256 * b + 65536 * c) % 32 == (a % 32 + 32 * size) % 32,
        (a % 32 + 32 * size) / 32 == size,
{
}

proof fn lemma_three_bytes(n: int)
    requires
        0 <= n < 0x100_0000,
    ensures
        n % 256 + 256 * (n / 256 % 256) + 65536 * (n / 65536 % 256) == n,
{
}

/// Another size in a tag leaves its other fields alone.
pub proof fn law_patch_keeps_the_tag(buf: Seq<u8>, size: int)
    requires
        buf.len() >= 3,
        0 <= size <= MAX_FIRST_PARTITION,
    ensures
        ({
            let patched = bytes3(buf[0] % 32 + 32 * size) + buf.skip(3);
            let old_tag = frame_tag::parsed(buf).tag;
            let new_tag = frame_tag::parsed(patched).tag;
            &&& new_tag.frame_type == old_tag.frame_type
            &&& new_tag.version == old_tag.version
            &&& new_tag.show_frame == old_tag.show_frame
            &&& new_tag.first_partition_size == size
            &&& patched.skip(3) == buf.skip(3)
        }),
{
    let n = buf[0] % 32 + 32 * size;
    let patched = bytes3(n) + buf.skip(3);
    let before = frame_tag::number3(buf, 0);
    lemma_patched_number(buf[0] as int, buf[1] as int, buf[2] as int, size);
    assert(patched[0] == bytes3(n)[0] && patched[1] == bytes3(n)[1] && patched[2] == bytes3(n)[2]);
    lemma_three_bytes(n);
    assert(frame_tag::number3(patched, 0) == n);
    lemma_same_but_the_size(before, n);
    assert(frame_tag::parsed(buf).tag == frame_tag::tag_of(before));
    assert(frame_tag::parsed(patched).tag == frame_tag::tag_of(n));
    assert(patched.skip(3) =~= buf.skip(3));
}

/// The booleans that write the loop-filter part of a header.
pub open spec fn loop_filter_ops(simple: bool, level: int, sharpness: int) -> Seq<(u8, bool)> {
    range_coder::one_op(128, simple) + range_coder::literal_ops(level, 6)
        + range_coder::literal_ops(sharpness, 3) + range_coder::one_op(128, false)
}

/// The booleans that write a quantizer offset.
pub open spec fn delta_ops(delta: Option<i8>) -> Seq<(u8, bool)> {
    match delta {
        Some(d) => range_coder::one_op(128, true) + range_coder::signed_ops(d as int, 4),
        None => range_coder::one_op(128, false),
    }
}

/// The booleans that write the quantizer part of a header.
pub open spec fn quant_ops(
    y_ac_qi: int,
    y_dc: Option<i8>,
    y2_dc: Option<i8>,
    y2_ac: Option<i8>,
    uv_dc: Option<i8>,
    uv_ac: Option<i8>,
) -> Seq<(u8, bool)> {
    range_coder::literal_ops(y_ac_qi, 7) + delta_ops(y_dc) + delta_ops(y2_dc) + delta_ops(y2_ac)
        + delta_ops(uv_dc) + delta_ops(uv_ac)
}

/// The booleans that write that no macroblock is, or some are, without residue.
pub open spec fn no_skip_ops(enabled: bool, prob_skip_false: int) -> Seq<(u8, bool)> {
    if enabled {
        range_coder::one_op(128, true) + range_coder::literal_ops(prob_skip_false, 8)
    } else {
        range_coder::one_op(128, false)
    }
}

/// A flag that is not set at each of the probabilities.
pub open spec fn unset_flags(probs: Seq<u8>) -> Seq<(u8, bool)> {
    Seq::new(probs.len(), |i: int| (probs[i], false))
}

/// Base-2 logarithm of a partition count.
pub open spec fn log2_of_count(count: int) -> int {
    if count == 1 {
        0
    } else if count == 2 {
        1
    } else if count == 4 {
        2
    } else {
        3
    }
}

pub open spec fn valid_count(count: int) -> bool {
    count == 1 || count == 2 || count == 4 || count == 8
}

/// Writes that a frame has no segments.
pub fn write_segment_update_flags(enc: &mut BoolEncoder, enabled: bool)
    requires
        old(enc).wf(),
        !enabled,
    ensures
        final(enc).wf(),
        final(enc)@ == old(enc)@ + range_coder::one_op(128, false),
{
    enc.write_bool(128, enabled);
}

/// Writes the loop-filter part of a header, without deltas.
pub fn write_loop_filter(
    enc: &mut BoolEncoder,
    filter_type: bool,
    loop_filter_level: u8,
    sharpness_level: u8,
    loop_filter_adj_enable: bool,
) -> (r: Result<(), EncodeError>)
    requires
        old(enc).wf(),
        loop_filter_level <= 63 && sharpness_level <= 7 ==> !loop_filter_adj_enable,
    ensures
        final(enc).wf(),
        if loop_filter_level > 63 {
            &&& r == Err::<(), EncodeError>(
                EncodeError::LoopFilterLevelOutOfRange { value: loop_filter_level },
            )
            &&& final(enc)@ == old(enc)@
        } else if sharpness_level > 7 {
            &&& r == Err::<(), EncodeError>(
                EncodeError::SharpnessLevelOutOfRange { value: sharpness_level },
            )
            &&& final(enc)@ == old(enc)@
        } else {
            &&& r is Ok
            &&& final(enc)@ == old(enc)@ + loop_filter_ops(
                filter_type,
                loop_filter_level as int,
                sharpness_level as int,
            )
        },
{
    if loop_filter_level > 63 {
        return Err(EncodeError::LoopFilterLevelOutOfRange { value: loop_filter_level });
    }
    if sharpness_level > 7 {
        return Err(EncodeError::SharpnessLevelOutOfRange { value: sharpness_level });
    }
    enc.write_bool(128, filter_type);
    enc.write_literal(loop_filter_level as u32, 6);
    enc.write_literal(sharpness_level as u32, 3);
    enc.write_bool(128, loop_filter_adj_enable);
    assert(enc@ =~= old(enc)@ + loop_filter_ops(
        filter_type,
        loop_filter_level as int,
        sharpness_level as int,
    ));
    Ok(())
}

/// Writes the number of token partitions.
pub fn write_token_partition_count(enc: &mut BoolEncoder, count: u8) -> (r: Result<
    (),
    EncodeError,
>)
    requires
        old(enc).wf(),
    ensures
        final(enc).wf(),
        if valid_count(count as int) {
            &&& r is Ok
            &&& final(enc)@ == old(enc)@ + range_coder::literal_ops(
                log2_of_count(count as int),
                2,
            )
        } else {
            &&& r == Err::<(), EncodeError>(
                EncodeError::InvalidDctPartitionCount { value: count },
            )
            &&& final(enc)@ == old(enc)@
        },
{
    let log2: u32 = match count {
        1 => 0,
        2 => 1,
        4 => 2,
        8 => 3,
        other => {
            return Err(EncodeError::InvalidDctPartitionCount { value: other });
        },
    };
    enc.write_literal(log2, 2);
    Ok(())
}

/// A quantizer offset fits its four bits.
pub open spec fn small_delta(delta: Option<i8>) -> bool {
    delta is Some ==> -16 < delta->0 < 16
}

fn write_delta(enc: &mut BoolEncoder, delta: Option<i8>)
    requires
        old(enc).wf(),
        small_delta(delta),
    ensures
        final(enc).wf(),
        final(enc)@ == old(enc)@ + delta_ops(delta),
{
    match delta {
        Some(d) => {
            proof {
                vstd::arithmetic::power2::lemma2_to64();
            }
            enc.write_bool(128, true);
            enc.write_signed_literal(d as i32, 4);
            assert(enc@ =~= old(enc)@ + delta_ops(delta));
        },
        None => {
            enc.write_bool(128, false);
        },
    }
}

/// Writes the quantizer part of a header.
pub fn write_quant_indices(
    enc: &mut BoolEncoder,
    y_ac_qi: u8,
    y_dc_delta: Option<i8>,
    y2_dc_delta: Option<i8>,
    y2_ac_delta: Option<i8>,
    uv_dc_delta: Option<i8>,
    uv_ac_delta: Option<i8>,
) -> (r: Result<(), EncodeError>)
    requires
        old(enc).wf(),
        y_ac_qi <= 127 ==> small_delta(y_dc_delta) && small_delta(y2_dc_delta) && small_delta(
            y2_ac_delta,
        ) && small_delta(uv_dc_delta) && small_delta(uv_ac_delta),
    ensures
        final(enc).wf(),
        if y_ac_qi > 127 {
            &&& r == Err::<(), EncodeError>(EncodeError::QuantIndexOutOfRange { value: y_ac_qi })
            &&& final(enc)@ == old(enc)@
        } else {
            &&& r is Ok
            &&& final(enc)@ == old(enc)@ + quant_ops(
                y_ac_qi as int,
                y_dc_delta,
                y2_dc_delta,
                y2_ac_delta,
                uv_dc_delta,
                uv_ac_delta,
            )
        },
{
    if y_ac_qi > 127 {
        return Err(EncodeError::QuantIndexOutOfRange { value: y_ac_qi });
    }
    let ghost e0 = enc@;
    let ghost o0 = range_coder::literal_ops(y_ac_qi as int, 7);
    let ghost o1 = o0 + delta_ops(y_dc_delta);
    let ghost o2 = o1 + delta_ops(y2_dc_delta);
    let ghost o3 = o2 + delta_ops(y2_ac_delta);
    let ghost o4 = o3 + delta_ops(uv_dc_delta);
    enc.write_literal(y_ac_qi as u32, 7);
    write_delta(enc, y_dc_delta);
    write_delta(enc, y2_dc_delta);
    write_delta(enc, y2_ac_delta);
    write_delta(enc, uv_dc_delta);
    write_delta(enc, uv_ac_delta);
    proof {
        range_coder::lemma_append_assoc(e0, o0, delta_ops(y_dc_delta));
        range_coder::lemma_append_assoc(e0, o1, delta_ops(y2_dc_delta));
        range_coder::lemma_append_assoc(e0, o2, delta_ops(y2_ac_delta));
        range_coder::lemma_append_assoc(e0, o3, delta_ops(uv_dc_delta));
        range_coder::lemma_append_assoc(e0, o4, delta_ops(uv_ac_delta));
    }
    Ok(())
}

/// Writes whether macroblocks may be without residue, and how likely they are
/// to have one.
pub fn write_mb_no_skip_coeff(enc: &mut BoolEncoder, enabled: bool, prob_skip_false: u8)
    requires
        old(enc).wf(),
    ensures
        final(enc).wf(),
        final(enc)@ == old(enc)@ + no_skip_ops(enabled, prob_skip_false as int),
{
    enc.write_bool(128, enabled);
    if enabled {
        enc.write_literal(prob_skip_false as u32, 8);
        assert(enc@ =~= old(enc)@ + no_skip_ops(enabled, prob_skip_false as int));
    }
}

/// Writes that no coefficient probability changes.
pub fn write_no_token_prob_updates(enc: &mut BoolEncoder, flag_probs: &[u8; 1056])
    requires
        old(enc).wf(),
    ensures
        final(enc).wf(),
        final(enc)@ == old(enc)@ + unset_flags(flag_probs@),
{
    let mut i: usize = 0;
    assert(enc@ =~= old(enc)@ + unset_flags(flag_probs@.take(0)));
    while i < 1056
        invariant
            i <= 1056,
            enc.wf(),
            enc@ == old(enc)@ + unset_flags(flag_probs@.take(i as int)),
        decreases 1056 - i,
    {
        enc.write_bool(flag_probs[i], false);
        assert(unset_flags(flag_probs@.take(i + 1)) =~= unset_flags(flag_probs@.take(i as int))
            + range_coder::one_op(flag_probs@[i as int], false));
        assert(enc@ =~= old(enc)@ + unset_flags(flag_probs@.take(i + 1)));
        i = i + 1;
    }
    assert(flag_probs@.take(1056) =~= flag_probs@);
}

/// The probabilities of the update flags, in transmission order.
pub open spec fn update_probs() -> Seq<u8> {
    Seq::new(1056, |x: int| tables::update_prob(x))
}

/// The probabilities of the update flags, in transmission order.
pub fn coeff_update_probs_flat() -> (flat: [u8; 1056])
    ensures
        flat@ == update_probs(),
{
    let mut flat: [u8; 1056] = [0u8;1056];
    let mut x: usize = 0;
    while x < 1056
        invariant
            x <= 1056,
            forall|j: int| 0 <= j < x ==> #[trigger] flat[j] == tables::update_prob(j),
        decreases 1056 - x,
    {
        flat[x] = update_prob_at(x);
        x = x + 1;
    }
    assert(flat@ =~= update_probs());
    flat
}

/// What the header of an encoded key frame says.
pub struct HeaderFields {
    pub level: int,
    pub sharpness: int,
    pub count: int,
    pub y_ac_qi: int,
    pub prob_skip_false: int,
}

/// Every field fits its bits.
pub open spec fn valid_fields(f: HeaderFields) -> bool {
    &&& 0 <= f.level <= 63
    &&& 0 <= f.sharpness <= 7
    &&& valid_count(f.count)
    &&& 0 <= f.y_ac_qi <= 127
    &&& 0 <= f.prob_skip_false <= 255
}

/// The part of a header in front of the update flags.
pub open spec fn header_start_ops(f: HeaderFields) -> Seq<(u8, bool)> {
    range_coder::one_op(128, false) + range_coder::one_op(128, false) + range_coder::one_op(
        128,
        false,
    ) + loop_filter_ops(false, f.level, f.sharpness) + range_coder::literal_ops(
        log2_of_count(f.count),
        2,
    ) + quant_ops(f.y_ac_qi, None, None, None, None, None) + range_coder::one_op(128, true)
}

/// The booleans that write the header of a key frame: no segments, the normal
/// filter without deltas, no quantizer offsets, all probabilities as they are.
pub open spec fn key_header_ops(f: HeaderFields) -> Seq<(u8, bool)> {
    header_start_ops(f) + unset_flags(update_probs()) + no_skip_ops(true, f.prob_skip_false)
}

/// What is wrong with the fields of a header, looked at in the order in which
/// they are written.
pub open spec fn header_fault(level: u8, sharpness: u8, count: u8, y_ac_qi: u8) -> Option<
    EncodeError,
> {
    if level > 63 {
        Some(EncodeError::LoopFilterLevelOutOfRange { value: level })
    } else if sharpness > 7 {
        Some(EncodeError::SharpnessLevelOutOfRange { value: sharpness })
    } else if !valid_count(count as int) {
        Some(EncodeError::InvalidDctPartitionCount { value: count })
    } else if y_ac_qi > 127 {
        Some(EncodeError::QuantIndexOutOfRange { value: y_ac_qi })
    } else {
        None
    }
}

/// Writes the header of a key frame into a fresh encoder.
pub fn write_key_header(
    level: u8,
    sharpness: u8,
    count: u8,
    y_ac_qi: u8,
    prob_skip_false: u8,
) -> (r: Result<BoolEncoder, EncodeError>)
    ensures
        match r {
            Ok(enc) => {
                &&& header_fault(level, sharpness, count, y_ac_qi) is None
                &&& enc.wf()
                &&& enc@ == key_header_ops(
                    (HeaderFields {
                        level: level as int,
                        sharpness: sharpness as int,
                        count: count as int,
                        y_ac_qi: y_ac_qi as int,
                        prob_skip_false: prob_skip_false as int,
                    }),
                )
            },
            Err(e) => header_fault(level, sharpness, count, y_ac_qi) == Some(e),
        },
{
    let mut enc: BoolEncoder = BoolEncoder::new();
    enc.write_bool(128, false);
    enc.write_bool(128, false);
    write_segment_update_flags(&mut enc, false);
    assert(enc@ =~= range_coder::one_op(128, false) + range_coder::one_op(128, false)
        + range_coder::one_op(128, false));
    if let Err(e) = write_loop_filter(&mut enc, false, level, sharpness, false) {
        return Err(e);
    }
    if let Err(e) = write_token_partition_count(&mut enc, count) {
        return Err(e);
    }
    if let Err(e) = write_quant_indices(&mut enc, y_ac_qi, None, None, None, None, None) {
        return Err(e);
    }
    enc.write_bool(128, true);
    let flags: [u8; 1056] = coeff_update_probs_flat();
    write_no_token_prob_updates(&mut enc, &flags);
    write_mb_no_skip_coeff(&mut enc, true, prob_skip_false);
    Ok(enc)
}

/// The sizes of the first `n` partitions, three bytes each.
pub open spec fn size_table(parts: Seq<Seq<u8>>, n: nat) -> Seq<u8>
    decreases n,
{
    if n == 0 {
        Seq::empty()
    } else {
        size_table(parts, (n - 1) as nat) + bytes3(parts[n - 1].len() as int)
    }
}

/// The first `n` partitions one after another.
pub open spec fn joined(parts: Seq<Seq<u8>>, n: nat) -> Seq<u8>
    decreases n,
{
    if n == 0 {
        Seq::empty()
    } else {
        joined(parts, (n - 1) as nat) + parts[n - 1]
    }
}

/// What follows the first partition of a frame.
pub open spec fn frame_tail(parts: Seq<Seq<u8>>) -> Seq<u8> {
    size_table(parts, (parts.len() - 1) as nat) + joined(parts, parts.len())
}

/// The bytes of a key frame with the given partitions.
pub open spec fn frame_bytes(
    first: Seq<u8>,
    parts: Seq<Seq<u8>>,
    width: int,
    height: int,
) -> Seq<u8> {
    bytes3(tag_number(true, 0, true, first.len() as int)) + size_bytes(width, height, 0, 0) + (
    first + frame_tail(parts))
}

fn append(out: &mut Vec<u8>, bytes: &Vec<u8>)
    ensures
        final(out)@ == old(out)@ + bytes@,
{
    let mut i: usize = 0;
    assert(out@ =~= old(out)@ + bytes@.take(0));
    while i < bytes.len()
        invariant
            i <= bytes@.len(),
            out@ == old(out)@ + bytes@.take(i as int),
        decreases bytes@.len() - i,
    {
        out.push(bytes[i]);
        i = i + 1;
        assert(out@ =~= old(out)@ + bytes@.take(i as int));
    }
    assert(bytes@.take(i as int) =~= bytes@);
}

/// Byte strings as sequences.
pub open spec fn byte_views(v: Seq<Vec<u8>>) -> Seq<Seq<u8>> {
    Seq::new(v.len(), |i: int| v[i]@)
}

/// Puts the partitions of a key frame together.
pub fn assemble_frame(
    first: &Vec<u8>,
    parts: &Vec<Vec<u8>>,
    width: u32,
    height: u32,
) -> (r: Result<Vec<u8>, EncodeError>)
    requires
        parts@.len() >= 1,
        encode_error::valid_dims(width as int, height as int),
    ensures
        match r {
            Ok(out) => first@.len() <= MAX_FIRST_PARTITION && out@ == frame_bytes(
                first@,
                byte_views(parts@),
                width as int,
                height as int,
            ),
            Err(e) => first@.len() > MAX_FIRST_PARTITION && e
                == EncodeError::FirstPartitionTooLarge { bytes: first@.len() as usize },
        },
{
    if first.len() > MAX_FIRST_PARTITION as usize {
        return Err(EncodeError::FirstPartitionTooLarge { bytes: first.len() });
    }
    let mut out: Vec<u8> = Vec::new();
    if let Err(e) = write_frame_tag(
        &mut out,
        true,
        0,
        true,
        first.len() as u32,
        width,
        height,
        ScaleCode::Unscaled,
        ScaleCode::Unscaled,
    ) {
        return Err(e);
    }
    let ghost head = bytes3(tag_number(true, 0, true, first@.len() as int)) + size_bytes(
        width as int,
        height as int,
        0,
        0,
    );
    assert(out@ =~= head);
    append(&mut out, first);
    let ghost views = byte_views(parts@);
    let mut i: usize = 0;
    assert(out@ =~= head + first@ + size_table(views, 0));
    while i < parts.len() - 1
        invariant
            parts@.len() >= 1,
            i <= parts@.len() - 1,
            views == byte_views(parts@),
            out@ == head + first@ + size_table(views, i as nat),
        decreases parts@.len() - i,
    {
        let size: usize = parts[i].len();
        let low: u32 = (size % 0x100_0000) as u32;
        proof {
            lemma_low_three(size as int);
        }
        push3(&mut out, low);
        assert(views[i as int].len() == size);
        assert(out@ =~= head + first@ + size_table(views, (i + 1) as nat));
        i = i + 1;
    }
    let ghost table = size_table(views, (views.len() - 1) as nat);
    i = 0;
    assert(out@ =~= head + first@ + table + joined(views, 0));
    while i < parts.len()
        invariant
            i <= parts@.len(),
            views == byte_views(parts@),
            out@ == head + first@ + table + joined(views, i as nat),
        decreases parts@.len() - i,
    {
        append(&mut out, &parts[i]);
        assert(out@ =~= head + first@ + table + joined(views, (i + 1) as nat));
        i = i + 1;
    }
    assert(out@ =~= frame_bytes(first@, views, width as int, height as int));
    Ok(out)
}

proof fn lemma_low_three(size: int)
    requires
        size >= 0,
    ensures
        bytes3(size % 0x100_0000) == bytes3(size),
{
    let low = size % 0x100_0000;
    let q = size / 0x100_0000;
    assert(size == 0x100_0000 * q + low);
    assert(size / 256 == 65536 * q + low / 256);
    assert(size / 65536 == 256 * q + low / 65536);
    assert(low % 256 == size % 256);
    assert(low / 256 % 256 == size / 256 % 256);
    assert(low / 65536 % 256 == size / 65536 % 256);
}

/// Parameters of a frame without residue.
#[derive(Debug, Clone, Copy, PartialEq, Eq, Structural)]
pub struct SilentKeyframeParams {
    pub width: u32,
    pub height: u32,
    pub loop_filter_level: u8,
    pub sharpness_level: u8,
    pub y_ac_qi: u8,
    pub nbr_of_dct_partitions: u8,
}

impl Default for SilentKeyframeParams {
    fn default() -> (p: Self)
        ensures
            p == (SilentKeyframeParams {
                width: 16,
                height: 16,
                loop_filter_level: 0,
                sharpness_level: 0,
                y_ac_qi: 0,
                nbr_of_dct_partitions: 1,
            }),
    {
        SilentKeyframeParams {
            width: 16,
            height: 16,
            loop_filter_level: 0,
            sharpness_level: 0,
            y_ac_qi: 0,
            nbr_of_dct_partitions: 1,
        }
    }
}

impl SilentKeyframeParams {
    /// The given size, and else what the default says.
    pub fn new(width: u32, height: u32) -> (p: Self)
        ensures
            p == (SilentKeyframeParams {
                width,
                height,
                loop_filter_level: 0,
                sharpness_level: 0,
                y_ac_qi: 0,
                nbr_of_dct_partitions: 1,
            }),
    {
        let d: SilentKeyframeParams = SilentKeyframeParams::default();
        SilentKeyframeParams {
            width,
            height,
            loop_filter_level: d.loop_filter_level,
            sharpness_level: d.sharpness_level,
            y_ac_qi: d.y_ac_qi,
            nbr_of_dct_partitions: d.nbr_of_dct_partitions,
        }
    }

    /// What the header says.
    pub open spec fn fields(self) -> HeaderFields {
        HeaderFields {
            level: self.loop_filter_level as int,
            sharpness: self.sharpness_level as int,
            count: self.nbr_of_dct_partitions as int,
            y_ac_qi: self.y_ac_qi as int,
            prob_skip_false: 1,
        }
    }
}

/// The booleans of a macroblock without residue that is predicted from the
/// mean of its surroundings.
pub open spec fn silent_mb_ops() -> Seq<(u8, bool)> {
    range_coder::one_op(1, true) + trees::leaf_ops(KF_YMODE_TREE@, KF_YMODE_PROBS@, 0, 0)
        + trees::leaf_ops(UV_MODE_TREE@, KF_UV_MODE_PROBS@, 0, 0)
}

/// The booleans of `n` such macroblocks.
pub open spec fn silent_ops(n: nat) -> Seq<(u8, bool)>
    decreases n,
{
    if n == 0 {
        Seq::empty()
    } else {
        silent_ops((n - 1) as nat) + silent_mb_ops()
    }
}

/// What is wrong with the parameters, if anything.
pub open spec fn silent_fault(p: SilentKeyframeParams) -> Option<EncodeError> {
    let fault = header_fault(
        p.loop_filter_level,
        p.sharpness_level,
        p.nbr_of_dct_partitions,
        p.y_ac_qi,
    );
    if !encode_error::valid_dims(p.width as int, p.height as int) {
        Some(EncodeError::InvalidDimensions { width: p.width, height: p.height })
    } else if fault is Some {
        fault
    } else {
        first_partition_fault(silent_frame_ops(p))
    }
}

/// A first partition that holds `ops` may be too large for the tag.
pub open spec fn first_partition_fault(ops: Seq<(u8, bool)>) -> Option<EncodeError> {
    if range_coder::code_len(ops) > MAX_FIRST_PARTITION {
        Some(EncodeError::FirstPartitionTooLarge { bytes: range_coder::code_len(ops) as usize })
    } else {
        None
    }
}

/// Everything that the first partition of a frame without residue holds.
pub open spec fn silent_frame_ops(p: SilentKeyframeParams) -> Seq<(u8, bool)> {
    let cols = decoder::blocks_for(p.width as int);
    let rows = decoder::blocks_for(p.height as int);
    key_header_ops(p.fields()) + silent_ops((cols * rows) as nat)
}

/// `out` is the frame without residue that `p` asks for.
pub open spec fn is_silent_frame(
    out: Seq<u8>,
    p: SilentKeyframeParams,
    first: Seq<u8>,
    parts: Seq<Seq<u8>>,
) -> bool {
    &&& range_coder::is_code(first, silent_frame_ops(p))
    &&& parts.len() == p.nbr_of_dct_partitions
    &&& forall|i: int|
        0 <= i < parts.len() ==> range_coder::is_code(#[trigger] parts[i], Seq::empty())
    &&& out == frame_bytes(first, parts, p.width as int, p.height as int)
}

proof fn lemma_mean_modes_reached()
    ensures
        trees::tree_ok(KF_YMODE_TREE@),
        trees::tree_ok(UV_MODE_TREE@),
        trees::tree_path(KF_YMODE_TREE@, 0, 0) is Some,
        trees::tree_path(UV_MODE_TREE@, 0, 0) is Some,
{
    assert(trees::tree_path(KF_YMODE_TREE@, 4, 0) is Some);
    assert(trees::tree_path(KF_YMODE_TREE@, 2, 0) is Some);
    assert(trees::tree_path(KF_YMODE_TREE@, 0, 0) is Some);
    assert(trees::tree_path(UV_MODE_TREE@, 0, 0) is Some);
}

fn write_silent_mbs(enc: &mut BoolEncoder, n: usize)
    requires
        old(enc).wf(),
    ensures
        final(enc).wf(),
        final(enc)@ == old(enc)@ + silent_ops(n as nat),
{
    proof {
        lemma_mean_modes_reached();
    }
    let mut i: usize = 0;
    assert(enc@ =~= old(enc)@ + silent_ops(0));
    while i < n
        invariant
            i <= n,
            enc.wf(),
            trees::tree_ok(KF_YMODE_TREE@),
            trees::tree_ok(UV_MODE_TREE@),
            trees::tree_path(KF_YMODE_TREE@, 0, 0) is Some,
            trees::tree_path(UV_MODE_TREE@, 0, 0) is Some,
            enc@ == old(enc)@ + silent_ops(i as nat),
        decreases n - i,
    {
        let ghost before = enc@;
        enc.write_bool(1, true);
        enc.write_leaf(&KF_YMODE_TREE, &KF_YMODE_PROBS, 0, 0);
        enc.write_leaf(&UV_MODE_TREE, &KF_UV_MODE_PROBS, 0, 0);
        proof {
            let a = range_coder::one_op(1, true);
            let b = trees::leaf_ops(KF_YMODE_TREE@, KF_YMODE_PROBS@, 0, 0);
            let c = trees::leaf_ops(UV_MODE_TREE@, KF_UV_MODE_PROBS@, 0, 0);
            range_coder::lemma_append_assoc(before, a, b);
            range_coder::lemma_append_assoc(before, a + b, c);
            range_coder::lemma_append_assoc(old(enc)@, silent_ops(i as nat), silent_mb_ops());
        }
        i = i + 1;
    }
}

/// Encodes a key frame without residue.
pub fn encode_silent_keyframe(params: SilentKeyframeParams) -> (r: Result<Vec<u8>, EncodeError>)
    ensures
        match r {
            Ok(out) => {
                &&& silent_fault(params) is None
                &&& exists|first: Seq<u8>, parts: Seq<Seq<u8>>| #[trigger]
                    is_silent_frame(out@, params, first, parts)
            },
            Err(e) => silent_fault(params) == Some(e),
        },
{
    if params.width == 0 || params.width > 0x3FFF || params.height == 0 || params.height
        > 0x3FFF {
        return Err(
            EncodeError::InvalidDimensions { width: params.width, height: params.height },
        );
    }
    let cols: usize = ((params.width + 15) / 16) as usize;
    let rows: usize = ((params.height + 15) / 16) as usize;
    let mut enc: BoolEncoder = match write_key_header(
        params.loop_filter_level,
        params.sharpness_level,
        params.nbr_of_dct_partitions,
        params.y_ac_qi,
        1,
    ) {
        Ok(e) => e,
        Err(e) => {
            return Err(e);
        },
    };
    proof {
        arith::lemma_mul_bound(cols as int, rows as int, 0x400, 0x400);
    }
    write_silent_mbs(&mut enc, cols * rows);
    let first: Vec<u8> = enc.finish();
    let n: usize = params.nbr_of_dct_partitions as usize;
    let mut parts: Vec<Vec<u8>> = Vec::new();
    let mut i: usize = 0;
    while i < n
        invariant
            i <= n,
            parts@.len() == i,
            forall|j: int|
                0 <= j < i ==> range_coder::is_code((#[trigger] parts@[j])@, Seq::empty()),
        decreases n - i,
    {
        let empty: BoolEncoder = BoolEncoder::new();
        parts.push(empty.finish());
        i = i + 1;
    }
    assert(range_coder::is_code(first@, silent_frame_ops(params)));
    let r: Result<Vec<u8>, EncodeError> = assemble_frame(
        &first,
        &parts,
        params.width,
        params.height,
    );
    proof {
        if r is Ok {
            assert(is_silent_frame(r->Ok_0@, params, first@, byte_views(parts@)));
        }
    }
    r
}

/// Makes an encoder.
pub fn make_encoder() -> (e: SilentKeyframeEncoder)
    ensures
        e == SilentKeyframeEncoder,
{
    SilentKeyframeEncoder
}

/// Encoder that writes frames without residue.
#[derive(Debug, Clone, Copy, PartialEq, Eq, Structural)]
pub struct SilentKeyframeEncoder;

impl Default for SilentKeyframeEncoder {
    fn default() -> (e: Self)
        ensures
            e == SilentKeyframeEncoder,
    {
        SilentKeyframeEncoder
    }
}

impl SilentKeyframeEncoder {
    /// Encodes a key frame of the given size; the pixels are not looked at.
    pub fn encode_keyframe(&self, _pixels: &[u8], width: u32, height: u32) -> (r: Result<
        Vec<u8>,
        EncodeError,
    >)
        ensures
            ({
                let params = SilentKeyframeParams {
                    width,
                    height,
                    loop_filter_level: 0,
                    sharpness_level: 0,
                    y_ac_qi: 0,
                    nbr_of_dct_partitions: 1,
                };
                match r {
                    Ok(out) => {
                        &&& silent_fault(params) is None
                        &&& exists|first: Seq<u8>, parts: Seq<Seq<u8>>| #[trigger]
                            is_silent_frame(out@, params, first, parts)
                    },
                    Err(e) => silent_fault(params) == Some(e),
                }
            }),
    {
        encode_silent_keyframe(SilentKeyframeParams::new(width, height))
    }
}

} // verus!
