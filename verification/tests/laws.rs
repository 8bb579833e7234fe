//! The library's laws on concrete values.
use oxideav_vp8::arnr::{build_arnr_altref, ArnrConfig};
use oxideav_vp8::bool_decoder::{BoolDecoder, BoolDecoderError};
use oxideav_vp8::bool_encoder;
use oxideav_vp8::bool_encoder::{bool_cost_x256, BoolCounter};
use oxideav_vp8::decoder::{decode_frame_with_state, decode_vp8, DecoderState};
use oxideav_vp8::encode_error::{EncodeError, TokenEncodeError};
use oxideav_vp8::encoder::{
    assemble_frame, encode_silent_keyframe, patch_first_partition_size, BoolEncoder,
    SilentKeyframeParams,
};
use oxideav_vp8::forward_transform::forward_wht_4x4;
use oxideav_vp8::frame::{KeyframePlanes, Vp8Frame};
use oxideav_vp8::frame_tag::{parse_header, FrameType};
use oxideav_vp8::i420::{I420Frame, MbPixels};
use oxideav_vp8::inter::{sixtap_predict, RefPlane};
use oxideav_vp8::inverse_transform::inverse_wht_4x4;
use oxideav_vp8::keyframe_encoder::{
    encode_keyframe, encode_keyframe_with_reconstruction, KeyframeParams,
};
use oxideav_vp8::loop_filter::{
    filter_planes, mb_filter, simple_segment, subblock_filter, LoopFilterParams,
};
use oxideav_vp8::loopfilter::{
    filter_normal_horizontal, filter_normal_vertical, filter_simple_horizontal,
    filter_simple_vertical, FilterParams,
};
use oxideav_vp8::macroblock::{IntraUvMode, IntraYMode};
use oxideav_vp8::mb_coder::{code_block, enc_quantize_block, reconstruct_block_4x4};
use oxideav_vp8::mb_tokens::{decode_mb_coeffs, MbEntropyCtx};
use oxideav_vp8::mode_picker::{encode_mb_block_set, Candidate};
use oxideav_vp8::motion_comp::{
    apply_full_pixel, chroma_mv, select_ref_frame, whole_pixel_fraction_is_zero,
};
use oxideav_vp8::mv::{clamp_mv_to_border, Mv};
use oxideav_vp8::quant::MbDequantFactors;
use oxideav_vp8::reconstruct::{
    decode_keyframe_mb_bpred, decode_keyframe_mb_non_bpred, MbNeighbors,
};
use oxideav_vp8::stream::StreamDecoder;
use oxideav_vp8::tables::{
    BMODE_TREE, DEFAULT_COEFF_PROBS, KF_BMODE_PROB, KF_YMODE_PROBS, KF_YMODE_TREE, UNZIGZAG,
    ZIGZAG,
};
use oxideav_vp8::token_encoder::encode_coeff_block;
use oxideav_vp8::tokens::BlockType;
use oxideav_vp8::trees::decode_tree;
use oxideav_vp8::{encode_vp8_keyframe, Error, Vp8Error};

/// A picture with edges, ramps and noise.
fn picture(w: usize, h: usize) -> (Vec<u8>, Vec<u8>, Vec<u8>) {
    let (cw, ch) = (w.div_ceil(2), h.div_ceil(2));
    let mut seed = 1u32;
    let mut noise = || {
        seed = seed.wrapping_mul(1_664_525).wrapping_add(1_013_904_223);
        (seed >> 27) as usize
    };
    let mut y = vec![0u8; w * h];
    for r in 0..h {
        for c in 0..w {
            let edge = if (c / 7 + r / 5) % 2 == 0 { 40 } else { 150 };
            y[r * w + c] = (edge + 2 * (c % 16) + noise()).min(255) as u8;
        }
    }
    let mut u = vec![0u8; cw * ch];
    let mut v = vec![0u8; cw * ch];
    for i in 0..cw * ch {
        u[i] = (90 + 3 * (i % cw) + noise()).min(255) as u8;
        v[i] = (200usize.saturating_sub(2 * (i / cw)) + noise()).min(255) as u8;
    }
    (y, u, v)
}

/// Names the option with the least error.
fn least_error(options: &Vec<Vec<Candidate>>) -> usize {
    let mut best = 0;
    let mut least = u64::MAX;
    for (i, option) in options.iter().enumerate() {
        let error = option.iter().map(|c| c.ssd).sum();
        if error < least {
            least = error;
            best = i;
        }
    }
    best
}

/// Names the option with the fewest booleans.
fn fewest_booleans(options: &Vec<Vec<Candidate>>) -> usize {
    let count = |o: &Vec<Candidate>| -> usize {
        o.iter()
            .map(|c| c.mode.len() + c.tokens.iter().map(|t| t.len()).sum::<usize>())
            .sum()
    };
    (0..options.len()).min_by_key(|&i| count(&options[i])).unwrap()
}

/// What is shown of whole macroblocks.
fn visible(p: &KeyframePlanes, w: usize, h: usize) -> (Vec<u8>, Vec<u8>, Vec<u8>) {
    let cut = |plane: &[u8], stride: usize, w: usize, h: usize| {
        let mut out = Vec::new();
        for r in 0..h {
            out.extend_from_slice(&plane[r * stride..r * stride + w]);
        }
        out
    };
    let (cw, ch) = (w.div_ceil(2), h.div_ceil(2));
    (
        cut(&p.y, p.y_stride, w, h),
        cut(&p.u, p.uv_stride, cw, ch),
        cut(&p.v, p.uv_stride, cw, ch),
    )
}

fn planes_of(f: Vp8Frame) -> (Vec<u8>, Vec<u8>, Vec<u8>) {
    (f.y, f.u, f.v)
}

fn params(q: u8, level: u8, sharpness: u8, partitions: u8) -> KeyframeParams {
    KeyframeParams {
        y_ac_qi: q,
        loop_filter_level: level,
        sharpness_level: sharpness,
        nbr_of_dct_partitions: partitions,
    }
}

#[test]
fn decoder_rebuilds_what_the_encoder_rebuilt() {
    for (w, h) in [(1usize, 1usize), (16, 16), (33, 50), (70, 31)] {
        let (y, u, v) = picture(w, h);
        let frame = I420Frame::packed(w as u32, h as u32, &y, &u, &v);
        for (q, level, sharpness) in [(0, 0, 0), (20, 12, 0), (90, 63, 7), (127, 30, 3)] {
            let p = params(q, level, sharpness, 1);
            let (bytes, planes) =
                encode_keyframe_with_reconstruction(&frame, &p, &least_error).unwrap();
            let shown = decode_vp8(&bytes).unwrap();
            assert_eq!((shown.width, shown.height), (w as u32, h as u32));
            assert_eq!(shown.y.len(), w * h);
            assert_eq!(shown.u.len(), w.div_ceil(2) * h.div_ceil(2));
            assert_eq!(shown.v.len(), shown.u.len());
            assert_eq!(planes_of(shown), visible(&planes, w, h));
        }
    }
}

#[test]
fn decoder_follows_any_judge() {
    let (w, h) = (48, 35);
    let (y, u, v) = picture(w, h);
    let frame = I420Frame::packed(w as u32, h as u32, &y, &u, &v);
    let p = params(40, 20, 2, 2);
    let last = |o: &Vec<Vec<Candidate>>| o.len() - 1;
    let none = |o: &Vec<Vec<Candidate>>| o.len();
    let first = |_: &Vec<Vec<Candidate>>| 0;
    for (bytes, planes) in [
        encode_keyframe_with_reconstruction(&frame, &p, &last).unwrap(),
        encode_keyframe_with_reconstruction(&frame, &p, &none).unwrap(),
        encode_keyframe_with_reconstruction(&frame, &p, &fewest_booleans).unwrap(),
    ] {
        assert_eq!(planes_of(decode_vp8(&bytes).unwrap()), visible(&planes, w, h));
    }
    assert_eq!(
        encode_keyframe(&frame, &p, &none).unwrap(),
        encode_keyframe(&frame, &p, &first).unwrap()
    );
}

#[test]
fn partition_count_does_not_show() {
    let (w, h) = (40, 150);
    let (y, u, v) = picture(w, h);
    let frame = I420Frame::packed(w as u32, h as u32, &y, &u, &v);
    let one = encode_keyframe(&frame, &params(30, 8, 1, 1), &least_error).unwrap();
    let shown = planes_of(decode_vp8(&one).unwrap());
    for n in [2u8, 4, 8] {
        let bytes = encode_keyframe(&frame, &params(30, 8, 1, n), &least_error).unwrap();
        assert_ne!(bytes, one);
        assert_eq!(planes_of(decode_vp8(&bytes).unwrap()), shown);
    }
}

#[test]
fn finer_quantizer_is_closer_to_the_source() {
    let (w, h) = (64, 48);
    let (y, u, v) = picture(w, h);
    let frame = I420Frame::packed(w as u32, h as u32, &y, &u, &v);
    let error = |q: u8| -> i64 {
        let bytes = encode_keyframe(&frame, &params(q, 0, 0, 1), &least_error).unwrap();
        let shown = decode_vp8(&bytes).unwrap();
        shown.y.iter().zip(&y).map(|(&a, &b)| (a as i64 - b as i64).pow(2)).sum()
    };
    let fine = error(0);
    assert!(fine < 4 * (w * h) as i64);
    assert!(fine < error(127));
}

#[test]
fn silent_frame_is_gray() {
    for (w, h, level) in [(16u32, 16u32, 0u8), (17, 9, 63), (100, 1, 32)] {
        let mut p = SilentKeyframeParams::new(w, h);
        p.loop_filter_level = level;
        let shown = decode_vp8(&encode_silent_keyframe(p).unwrap()).unwrap();
        assert_eq!((shown.width, shown.height), (w, h));
        assert!(shown.y.iter().chain(&shown.u).chain(&shown.v).all(|&p| p == 128));
        assert_eq!((shown.chroma_width(), shown.chroma_height()), (w.div_ceil(2), h.div_ceil(2)));
    }
}

#[test]
fn key_frame_stands_alone() {
    let (y, u, v) = picture(20, 20);
    let frame = I420Frame::packed(20, 20, &y, &u, &v);
    let bytes = encode_keyframe(&frame, &params(10, 5, 0, 1), &least_error).unwrap();
    let mut state = DecoderState::new();
    let first = decode_frame_with_state(&bytes, &mut state).unwrap();
    let other = encode_silent_keyframe(SilentKeyframeParams::new(64, 8)).unwrap();
    decode_frame_with_state(&other, &mut state).unwrap();
    assert_eq!(decode_frame_with_state(&bytes, &mut state).unwrap().y, first.y);
    assert_eq!(decode_vp8(&bytes).unwrap().y, first.y);
}

#[test]
fn hidden_frames_are_never_taken() {
    let mut bytes = encode_silent_keyframe(SilentKeyframeParams::new(16, 16)).unwrap();
    let mut stream = StreamDecoder::new();
    stream.send(&bytes, Some(5)).unwrap();
    bytes[0] &= !0x10;
    assert!(!parse_header(&bytes).unwrap().tag.show_frame);
    stream.send(&bytes, Some(6)).unwrap();
    bytes[0] |= 0x10;
    stream.send(&bytes, None).unwrap();
    assert_eq!(stream.receive().unwrap().pts, Some(5));
    assert_eq!(stream.receive().unwrap().pts, None);
    assert!(stream.receive().is_none());
    stream.send(&bytes, Some(7)).unwrap();
    stream.reset();
    assert!(stream.receive().is_none());
}

#[test]
fn broken_frames_are_refused() {
    let good = encode_silent_keyframe(SilentKeyframeParams::new(16, 16)).unwrap();
    let fault = |bytes: &[u8]| match decode_vp8(bytes) {
        Err(Vp8Error::InvalidData(s)) => s,
        _ => panic!("not refused"),
    };
    assert_eq!(fault(&[]), "VP8: frame tag truncated");
    assert_eq!(fault(&good[..9]), "VP8: keyframe header truncated");
    let mut bad = good.clone();
    bad[3] = 0;
    assert_eq!(fault(&bad), "VP8: bad keyframe start code");
    assert_eq!(fault(&good[..11]), "VP8: boolean partition too short");
    assert_eq!(fault(&good[..14]), "VP8: first partition extends past end");
    let mut params = SilentKeyframeParams::new(16, 16);
    params.nbr_of_dct_partitions = 2;
    let two = encode_silent_keyframe(params).unwrap();
    let size = parse_header(&two).unwrap().tag.first_partition_size as usize;
    assert_eq!(fault(&two[..10 + size + 2]), "VP8: partition size table truncated");
    assert_eq!(fault(&two[..10 + size + 3]), "VP8: partition extends past end");
    let mut inter = good;
    inter[0] |= 1;
    assert_eq!(parse_header(&inter).unwrap().tag.frame_type, FrameType::Inter);
    assert_eq!(
        fault(&inter),
        "VP8: inter-frame before any keyframe — no reference available"
    );
}

#[test]
fn errors_have_texts() {
    assert_eq!(Vp8Error::invalid("x").message(), "invalid data: x");
    assert_eq!(Vp8Error::unsupported("x").message(), "unsupported: x");
    assert_eq!(Vp8Error::Eof.message(), "end of stream");
    assert_eq!(Vp8Error::NeedMore.message(), "need more data");
}

#[test]
fn encoder_refuses_what_a_frame_cannot_hold() {
    let (y, u, v) = picture(16, 16);
    let frame = I420Frame::packed(16, 16, &y, &u, &v);
    let fault = |p: KeyframeParams| encode_keyframe(&frame, &p, &least_error).unwrap_err();
    assert_eq!(
        fault(params(128, 0, 0, 1)),
        EncodeError::QuantIndexOutOfRange { value: 128 }
    );
    assert_eq!(
        fault(params(0, 64, 0, 1)),
        EncodeError::LoopFilterLevelOutOfRange { value: 64 }
    );
    assert_eq!(
        fault(params(0, 0, 8, 1)),
        EncodeError::SharpnessLevelOutOfRange { value: 8 }
    );
    assert_eq!(
        fault(params(0, 0, 0, 3)),
        EncodeError::InvalidDctPartitionCount { value: 3 }
    );
    for (width, height) in [(0u32, 16u32), (16, 0), (0x4000, 16), (16, 0x4000)] {
        let frame = I420Frame::packed(width, height, &[], &[], &[]);
        assert_eq!(
            encode_keyframe(&frame, &KeyframeParams::default(), &least_error).unwrap_err(),
            EncodeError::InvalidDimensions { width, height }
        );
    }
    let first = vec![0u8; 0x8_0000];
    assert_eq!(
        assemble_frame(&first, &vec![vec![0u8; 4]], 16, 16).unwrap_err(),
        EncodeError::FirstPartitionTooLarge { bytes: 0x8_0000 }
    );
    let mut tag = [0x10u8, 0, 0];
    assert_eq!(
        patch_first_partition_size(&mut tag, 0x8_0000).unwrap_err(),
        EncodeError::FirstPartitionTooLarge { bytes: 0x8_0000 }
    );
    assert_eq!(tag, [0x10, 0, 0]);
    patch_first_partition_size(&mut tag, 0x7_ffff).unwrap();
    assert_eq!(tag, [0xf0, 0xff, 0xff]);
}

#[test]
fn coefficients_past_the_alphabet_are_refused() {
    let mut c = [0i16; 16];
    c[4] = -2115;
    let mut enc = BoolEncoder::new();
    let r = encode_coeff_block(&mut enc, BlockType::Y2, &DEFAULT_COEFF_PROBS, false, false, &c);
    assert_eq!(
        r,
        Err(TokenEncodeError::CoefficientOutOfRange {
            index: 4,
            value: -2115
        })
    );
}

#[test]
fn flat_macroblock_is_exact_at_the_finest_quantizer() {
    for (y, u, v) in [(0u8, 255u8, 1u8), (255, 0, 128), (127, 129, 130), (17, 200, 90)] {
        let pixels = MbPixels {
            y: [y; 256],
            u: [u; 64],
            v: [v; 64],
        };
        for mode in 0..4usize {
            // The second question has two options: as a whole, or by subblocks.
            let judge = |o: &Vec<Vec<Candidate>>| if o.len() == 4 { mode } else { 0 };
            let m = encode_mb_block_set(&pixels, 0, &DEFAULT_COEFF_PROBS, &judge).unwrap();
            let want = [IntraYMode::Dc, IntraYMode::V, IntraYMode::H, IntraYMode::Tm][mode];
            assert_eq!(m.y_mode, want);
            let mut dec = BoolDecoder::init(&m.bytes).unwrap();
            let mut above = MbEntropyCtx::default();
            let mut left = MbEntropyCtx::default();
            let (mut c, _) =
                decode_mb_coeffs(&mut dec, &DEFAULT_COEFF_PROBS, true, &mut above, &mut left);
            assert_eq!(c, m.coeffs);
            MbDequantFactors::from_base_and_deltas(0, 0, 0, 0, 0, 0).dequantize(&mut c);
            let around = MbNeighbors::default();
            let r = decode_keyframe_mb_non_bpred(m.y_mode, m.uv_mode, false, &around, &c);
            assert_eq!((r.y, r.u, r.v), (pixels.y, pixels.u, pixels.v));
        }
    }
}

#[test]
fn subblocks_rebuild_as_the_encoder_did() {
    let mut pixels = MbPixels {
        y: [0; 256],
        u: [77; 64],
        v: [99; 64],
    };
    for i in 0..256 {
        pixels.y[i] = ((i % 16) * 9 + (i / 16) * 5) as u8;
    }
    // Subblocks with their own modes: of two options the second.
    let judge = |o: &Vec<Vec<Candidate>>| if o.len() == 2 { 1 } else { least_error(o) };
    let m = encode_mb_block_set(&pixels, 0, &DEFAULT_COEFF_PROBS, &judge).unwrap();
    assert_eq!(m.y_mode, IntraYMode::B);
    let mut c = m.coeffs;
    MbDequantFactors::from_base_and_deltas(0, 0, 0, 0, 0, 0).dequantize(&mut c);
    let modes = m.b_subblock_modes.unwrap();
    let r = decode_keyframe_mb_bpred(&modes, m.uv_mode, false, &MbNeighbors::default(), &c);
    for i in 0..256 {
        assert!((r.y[i] as i32 - pixels.y[i] as i32).abs() <= 3);
    }
    assert_eq!((r.u, r.v), (pixels.u, pixels.v));
    let skipped = decode_keyframe_mb_non_bpred(
        IntraYMode::V,
        IntraUvMode::H,
        true,
        &MbNeighbors::default(),
        &c,
    );
    assert_eq!(skipped.y, [127; 256]);
    assert_eq!(skipped.u, [129; 64]);
}

#[test]
fn quantizer_is_at_most_half_a_step_off() {
    for step in [4i16, 7, 8, 157] {
        for c in (-2000..2000).step_by(37) {
            let mut block = [c; 16];
            enc_quantize_block(&mut block, step, step);
            let off = (c as i32 - step as i32 * block[0] as i32).abs();
            assert!(2 * off <= step as i32);
        }
    }
    let mut halves = [6i16; 16];
    halves[1] = -6;
    enc_quantize_block(&mut halves, 4, 4);
    assert_eq!(halves[..3], [2, -2, 2]);
}

#[test]
fn flat_block_is_coded_by_its_first_coefficient() {
    let c = code_block(&[200; 16], &[180; 16], 4, 4);
    assert_eq!(c[0], 40);
    assert!(c[1..].iter().all(|&x| x == 0));
    assert_eq!(reconstruct_block_4x4(&[180; 16], &c, 4, 4), [200; 16]);
}

#[test]
fn scan_orders_undo_each_other() {
    for i in 0..16 {
        assert_eq!(UNZIGZAG[ZIGZAG[i]], i);
        assert_eq!(ZIGZAG[UNZIGZAG[i]], i);
    }
}

#[test]
fn booleans_read_back_before_any_tail() {
    let list: Vec<(u8, bool)> = (0..500u32)
        .map(|i| ((1 + i * 53 % 255) as u8, i * i % 7 < 3))
        .collect();
    let mut enc = BoolEncoder::new();
    enc.write_ops(&list);
    let mut bytes = enc.finish();
    bytes.extend_from_slice(&[0xff; 9]);
    let mut dec = BoolDecoder::init(&bytes).unwrap();
    for &(p, b) in &list {
        assert_eq!(dec.get_bool(p), b);
    }
    assert_eq!(BoolDecoder::init(&bytes[..1]).err(), Some(BoolDecoderError::InputTooShort));
    let mut short = BoolDecoder::init(&bytes[..2]).unwrap();
    let mut ended = false;
    for _ in 0..40 {
        ended = ended || short.read_bool(128) == Err(BoolDecoderError::EndOfStream);
    }
    assert!(ended && short.overran());
}

#[test]
fn counter_matches_the_encoder() {
    let mut enc = bool_encoder::BoolEncoder::new();
    let mut count = BoolCounter::new();
    for i in 0..3000u32 {
        let (p, b) = (1 + i * 97 % 255, i % 5 == 0);
        enc.write_bool(p, b);
        count.write_bool(p, b);
    }
    let bits = count.bits();
    assert_eq!(count.bits_x256(), 256 * bits);
    let bytes = enc.bytes_written() as u64;
    assert!(8 * bytes <= bits && bits <= 8 * bytes + 32);
    assert!(enc.finish().len() as u64 >= bytes);
}

#[test]
fn likelier_booleans_cost_less() {
    for p in 1..255u8 {
        assert!(bool_cost_x256(p, false) >= bool_cost_x256(p + 1, false));
        assert!(bool_cost_x256(p, true) <= bool_cost_x256(p + 1, true));
    }
    assert_eq!(bool_cost_x256(128, false), 256);
}

#[test]
fn costs_are_rounded_to_the_nearest() {
    for p in 1..=255u8 {
        let bits = -(f64::from(p) / 256.0).log2();
        assert_eq!(f64::from(bool_cost_x256(p, false)), (256.0 * bits).round(), "at {p}");
        assert_eq!(bool_cost_x256((256 - u32::from(p)) as u8, true), bool_cost_x256(p, false));
    }
    assert_eq!(bool_cost_x256(255, false), 1);
    assert_eq!(bool_cost_x256(254, false), 3);
    assert_eq!(bool_cost_x256(182, false), 126);
    assert_eq!(bool_cost_x256(0, false), 2048);
    assert_eq!(bool_cost_x256(0, true), 0);
    let table = bool_encoder::build_prob_cost_table();
    assert_eq!((table[0][255], table[1][255], table[1][1]), (1, 2048, 1));
}

#[test]
fn blocks_of_even_sum_survive_the_walsh_hadamard_pair() {
    let mut seed = 7u32;
    for _ in 0..200 {
        let mut block = [0i16; 16];
        for v in block.iter_mut() {
            seed = seed.wrapping_mul(1_664_525).wrapping_add(1_013_904_223);
            *v = (seed >> 8) as i16 % 4095;
        }
        let odd = block.iter().map(|v| i32::from(*v)).sum::<i32>() % 2 != 0;
        if odd {
            block[5] += if block[5] < 0 { 1 } else { -1 };
        }
        let mut coeffs = [0i16; 16];
        forward_wht_4x4(&block, &mut coeffs);
        let mut back = [0i16; 16];
        inverse_wht_4x4(&coeffs, &mut back);
        assert_eq!(back, block);
    }
    let mut one = [0i16; 16];
    one[0] = 1;
    let mut coeffs = [0i16; 16];
    forward_wht_4x4(&one, &mut coeffs);
    let mut back = [0i16; 16];
    inverse_wht_4x4(&coeffs, &mut back);
    assert_ne!(back, one);
}

#[test]
fn plane_filters_work_line_by_line() {
    let (w, h, stride) = (24usize, 6usize, 27usize);
    let mut seed = 3u32;
    let plane: Vec<u8> = (0..h * stride)
        .map(|i| {
            seed = seed.wrapping_mul(1_664_525).wrapping_add(1_013_904_223);
            (100 + 6 * (i % stride / 8) as u32 + (seed >> 29)) as u8
        })
        .collect();
    let p = FilterParams { edge_limit: 60, interior_limit: 12, hev_threshold: 4 };
    for x in 0..w + 3 {
        for wide in [false, true] {
            let mut after = plane.clone();
            filter_normal_vertical(&mut after, stride, x, w, h, p, wide);
            let mut want = plane.clone();
            if 4 <= x && x + 4 <= w {
                for row in want.chunks_mut(stride) {
                    let line = &mut row[x - 4..x + 4];
                    if wide {
                        mb_filter(4, 12, 60, line, 0);
                    } else {
                        subblock_filter(4, 12, 60, line, 0);
                    }
                }
            }
            assert_eq!(after, want, "edge at {x}");
        }
        let mut after = plane.clone();
        filter_simple_vertical(&mut after, stride, x, w, h, p);
        let mut want = plane.clone();
        if 2 <= x && x + 2 <= w {
            for row in want.chunks_mut(stride) {
                simple_segment(60, &mut row[x - 2..x + 2], 0);
            }
        }
        assert_eq!(after, want, "edge at {x}");
    }
}

#[test]
fn trees_may_be_as_large_as_their_entries_allow() {
    // A chain of 63 pairs, each with one leaf; the last pair holds two.
    let mut tree = Vec::new();
    for i in 0..63i8 {
        tree.push(-i - 65);
        tree.push(if i < 62 { 2 * i + 2 } else { 0 });
    }
    let probs = vec![100u8; 63];
    for leaf in [0u8, 65, 100, 127] {
        let mut enc = BoolEncoder::new();
        enc.write_treed(&tree, |i| probs[i], leaf);
        let bytes = enc.finish();
        let mut dec = BoolDecoder::init(&bytes).unwrap();
        assert_eq!(decode_tree(&mut dec, &tree, &probs), leaf);
    }
}

#[test]
fn reference_frame_needs_bytes() {
    let mut dec = BoolDecoder::init(&[255, 255]).unwrap();
    let mut refused = 0;
    for _ in 0..40 {
        if select_ref_frame(&mut dec, 128, 128) == Err(BoolDecoderError::EndOfStream) {
            refused += 1;
        }
    }
    assert!(refused > 0);
    assert_eq!(select_ref_frame(&mut dec, 128, 128), Err(BoolDecoderError::EndOfStream));
}

#[test]
fn quantizer_indices_are_limited_however_large() {
    let far = MbDequantFactors::from_base_and_deltas(1 << 30, -(1 << 30), 5, 5, 5, 5);
    let near = MbDequantFactors::from_base_and_deltas(127, -127, 0, 0, 0, 0);
    assert_eq!((far.y1_dc, far.y1_ac), (near.y1_dc, near.y1_ac));
    assert_eq!((far.y2_dc, far.y2_ac), (near.y2_dc, near.y2_ac));
    assert_eq!((far.uv_dc, far.uv_ac), (near.uv_dc, near.uv_ac));
}

#[test]
fn leaves_read_back_through_their_trees() {
    for leaf in 0..5u8 {
        let mut enc = BoolEncoder::new();
        enc.write_treed(&KF_YMODE_TREE, |i| KF_YMODE_PROBS[i], leaf);
        let bytes = enc.finish();
        let mut dec = BoolDecoder::init(&bytes).unwrap();
        assert_eq!(decode_tree(&mut dec, &KF_YMODE_TREE, &KF_YMODE_PROBS), leaf);
    }
    for leaf in 0..10u8 {
        let probs = &KF_BMODE_PROB[3][7];
        let mut enc = BoolEncoder::new();
        enc.write_leaf(&BMODE_TREE, probs, 0, leaf);
        let bytes = enc.finish();
        let mut dec = BoolDecoder::init(&bytes).unwrap();
        assert_eq!(decode_tree(&mut dec, &BMODE_TREE, probs), leaf);
    }
}

#[test]
fn numbers_read_back() {
    let mut enc = BoolEncoder::new();
    enc.write_literal(0xdead_beef, 32);
    enc.write_signed_literal(-63, 6);
    enc.write_signed_literal(0, 4);
    enc.write_signed_literal(15, 4);
    let bytes = enc.finish();
    let mut dec = BoolDecoder::init(&bytes).unwrap();
    assert_eq!(dec.get_literal(32), 0xdead_beef);
    assert_eq!(dec.get_signed_literal(6), -63);
    assert_eq!(dec.get_signed_literal(4), 0);
    assert_eq!(dec.get_signed_literal(4), 15);
}

#[test]
fn loop_filter_keeps_flat_frames_and_does_nothing_at_level_zero() {
    let mut y = vec![90u8; 32 * 32];
    let mut u = vec![30u8; 16 * 16];
    let mut v = vec![220u8; 16 * 16];
    let inner = vec![true; 4];
    filter_planes(
        &mut y, &mut u, &mut v, 32, 16, 2, 2, &vec![63; 4], &inner, 0, true, false,
    );
    assert!(y.iter().all(|&p| p == 90));
    assert!(u.iter().all(|&p| p == 30) && v.iter().all(|&p| p == 220));
    let step = |i: usize, low: u8, high: u8| if i % 32 < 16 { low } else { high };
    let mut y: Vec<u8> = (0..32 * 32).map(|i| step(i, 100, 104)).collect();
    let before = y.clone();
    filter_planes(
        &mut y, &mut u, &mut v, 32, 16, 2, 2, &vec![0; 4], &inner, 0, true, false,
    );
    assert_eq!(y, before);
    filter_planes(
        &mut y, &mut u, &mut v, 32, 16, 2, 2, &vec![40; 4], &inner, 0, true, true,
    );
    assert_ne!(y, before);
    assert!(u.iter().all(|&p| p == 30));
}

#[test]
fn filter_limits_have_exact_values() {
    let p = LoopFilterParams::derive(32, 0, true);
    assert_eq!(p.interior_limit, 32);
    assert_eq!(p.hev_threshold, 1);
    let p = LoopFilterParams::derive(40, 5, true);
    assert_eq!(p.interior_limit, 4);
    assert_eq!(p.hev_threshold, 2);
}

#[test]
fn whole_pixels_are_copied() {
    let data: Vec<u8> = (0..=255u8).collect();
    let plane = RefPlane {
        data: &data,
        stride: 16,
        width: 16,
        height: 16,
    };
    let out = sixtap_predict(&plane, 8 * 3, 8 * 2);
    for k in 0..16 {
        assert_eq!(out[k], data[(2 + k / 4) * 16 + 3 + k % 4]);
    }
    let corner = sixtap_predict(&plane, -8 * 20, -8 * 20);
    assert_eq!(corner, [data[0]; 16]);
}

#[test]
fn vectors_stay_near_the_picture() {
    let m = Mv {
        row: -3000,
        col: 3000,
    };
    let once = clamp_mv_to_border(m, 1, 2, 4, 5);
    assert_eq!(clamp_mv_to_border(once, 1, 2, 4, 5), once);
    assert_ne!(once, m);
    let near = Mv { row: 1, col: -1 };
    assert_eq!(clamp_mv_to_border(near, 1, 2, 4, 5), near);
    let full = apply_full_pixel(chroma_mv(Mv { row: 13, col: -13 }));
    assert!(whole_pixel_fraction_is_zero(full));
}

#[test]
fn pictures_past_their_edges_repeat_the_last_pixel() {
    let y = [10u8, 20, 0, 30, 40, 0];
    let (u, v) = ([50u8, 0], [60u8, 0]);
    let f = I420Frame {
        width: 2,
        height: 2,
        y: &y,
        u: &u,
        v: &v,
        y_stride: 3,
        uv_stride: 2,
    };
    assert_eq!((f.y_at(0, 0), f.y_at(9, 0), f.y_at(0, 9), f.y_at(9, 9)), (10, 20, 30, 40));
    let mb = f.extract_mb(0, 0);
    assert_eq!((mb.y[0], mb.y[15], mb.y[240], mb.y[255]), (10, 20, 30, 40));
    assert_eq!((mb.u, mb.v), ([50; 64], [60; 64]));
}

#[test]
fn blending_equal_pictures_changes_nothing() {
    let (y, u, v) = picture(40, 24);
    let f = I420Frame::packed(40, 24, &y, &u, &v);
    let out = build_arnr_altref(&[f, f, f], 1, &ArnrConfig::new(6)).unwrap();
    assert_eq!((out.y, out.u, out.v), (y, u, v));
}

#[test]
fn bytes_between_rows_do_not_show_in_a_blend() {
    let (y, u, v) = picture(40, 24);
    let spread = |p: &[u8], w: usize, stride: usize, fill: u8| {
        let mut out = Vec::new();
        for row in p.chunks(w) {
            out.extend_from_slice(row);
            out.resize(out.len() + stride - w, fill);
        }
        out
    };
    let tight = I420Frame::packed(40, 24, &y, &u, &v);
    let (wy, wu, wv) = (spread(&y, 40, 47, 255), spread(&u, 20, 33, 0), spread(&v, 20, 33, 90));
    let wide = I420Frame {
        width: 40,
        height: 24,
        y: &wy,
        u: &wu,
        v: &wv,
        y_stride: 47,
        uv_stride: 33,
    };
    for center in 0..2 {
        let out = build_arnr_altref(&[tight, wide], center, &ArnrConfig::new(4)).unwrap();
        assert_eq!((&out.y, &out.u, &out.v), (&y, &u, &v));
    }
}

#[test]
fn blend_stays_between_the_extremes() {
    let (y, u, v) = picture(32, 32);
    let shift = |p: &[u8], d: i32| -> Vec<u8> {
        p.iter().map(|b| (i32::from(*b) + d).clamp(30, 220) as u8).collect()
    };
    let (ay, au, av) = (shift(&y, 3), shift(&u, 3), shift(&v, 3));
    let (by, bu, bv) = (shift(&y, -4), shift(&u, -4), shift(&v, -4));
    let a = I420Frame::packed(32, 32, &ay, &au, &av);
    let b = I420Frame::packed(32, 32, &by, &bu, &bv);
    let out = build_arnr_altref(&[a, b, a], 0, &ArnrConfig::new(6)).unwrap();
    let planes = [(&ay, &by, &out.y), (&au, &bu, &out.u), (&av, &bv, &out.v)];
    for (p, q, r) in planes {
        let lo = p.iter().chain(q.iter()).min().unwrap();
        let hi = p.iter().chain(q.iter()).max().unwrap();
        assert!(r.iter().all(|s| lo <= s && s <= hi));
    }
    assert_ne!(out.y, ay);
}

#[test]
fn long_windows_are_copied_at_strength_zero() {
    let f = I420Frame::packed(1, 1, &[7], &[8], &[9]);
    let window = vec![f; 1_050_700];
    let out = build_arnr_altref(&window, 3, &ArnrConfig::new(0)).unwrap();
    assert_eq!((out.y, out.u, out.v), (vec![7], vec![8], vec![9]));
}

#[test]
fn a_default_encoder_has_written_nothing() {
    let mut enc = BoolEncoder::default();
    enc.write_literal(5, 0);
    assert_eq!(enc.bytes_written(), 0);
    assert_eq!(BoolEncoder::new().finish(), vec![0; 4]);
}

#[test]
fn edges_are_filtered_along_rows_and_columns_alike() {
    let side = 16usize;
    let mut across = vec![0u8; side * side];
    let mut down = vec![0u8; side * side];
    for r in 0..side {
        for c in 0..side {
            let p = if c < 8 { 100 } else { 110 };
            across[r * side + c] = p;
            down[c * side + r] = p;
        }
    }
    let p = FilterParams::for_mb_typed(40, 0, true, true);
    let same = FilterParams::for_mb(40, 0, true);
    assert_eq!(
        (same.edge_limit, same.interior_limit, same.hev_threshold),
        (p.edge_limit, p.interior_limit, p.hev_threshold)
    );
    let turned = |v: &[u8]| -> Vec<u8> {
        (0..side * side).map(|i| v[i % side * side + i / side]).collect()
    };
    for mb_edge in [false, true] {
        let (mut a, mut d) = (across.clone(), down.clone());
        filter_normal_vertical(&mut a, side, 8, side, side, p, mb_edge);
        filter_normal_horizontal(&mut d, side, 8, side, side, p, mb_edge);
        assert_ne!(a, across);
        assert_eq!(turned(&a), d);
        for r in 0..side {
            let row = &a[r * side..(r + 1) * side];
            assert!(row.windows(2).all(|w| w[0] <= w[1]));
            assert_eq!((row[4], row[11]), (100, 110));
        }
    }
    let (mut a, mut d) = (across.clone(), down.clone());
    filter_simple_vertical(&mut a, side, 8, side, side, p);
    filter_simple_horizontal(&mut d, side, 8, side, side, p);
    assert_ne!(a, across);
    assert_eq!(turned(&a), d);
    let mut kept = across.clone();
    filter_simple_vertical(&mut kept, side, 1, side, side, p);
    filter_normal_vertical(&mut kept, side, 13, side, side, p, true);
    assert_eq!(kept, across);
}

#[test]
fn flags_are_even_booleans() {
    let mut flags = bool_encoder::BoolEncoder::new();
    let mut even = bool_encoder::BoolEncoder::new();
    for i in 0..50 {
        flags.write_flag(i % 3 == 0);
        even.write_bool(128, i % 3 == 0);
    }
    assert_eq!(flags.finish(), even.finish());
}

#[test]
fn blended_picture_can_be_encoded() {
    let (y, u, v) = picture(16, 16);
    let f = I420Frame::packed(16, 16, &y, &u, &v);
    let out = build_arnr_altref(&[f], 0, &ArnrConfig::new(3)).unwrap();
    let p = KeyframeParams::default();
    assert_eq!((p.y_ac_qi, p.loop_filter_level), (32, 0));
    assert_eq!((p.sharpness_level, p.nbr_of_dct_partitions), (0, 1));
    assert_eq!(
        encode_keyframe(&out.as_i420(), &p, &least_error).unwrap(),
        encode_keyframe(&f, &p, &least_error).unwrap()
    );
}

#[test]
fn packed_pixels_have_no_encoder() {
    assert_eq!(encode_vp8_keyframe(&[], 1, 1), Err(Error::NotImplemented));
}
