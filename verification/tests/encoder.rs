//! Key-frame encoder.
use oxideav_vp8::bool_decoder::BoolDecoder;
use oxideav_vp8::coded_header::Vp8CodedHeader;
use oxideav_vp8::decoder::decode_vp8;
use oxideav_vp8::encode_error::{EncodeError, TokenEncodeError};
use oxideav_vp8::encoder::{
    coeff_update_probs_flat, encode_silent_keyframe, make_encoder, patch_first_partition_size,
    write_frame_tag, write_loop_filter, write_quant_indices, write_token_partition_count,
    BoolEncoder, ScaleCode, SilentKeyframeParams,
};
use oxideav_vp8::frame_tag::{parse_header, FrameType};
use oxideav_vp8::i420::{I420Frame, MbPixels};
use oxideav_vp8::keyframe_encoder;
use oxideav_vp8::keyframe_encoder::KeyframeParams;
use oxideav_vp8::macroblock::{IntraBmode, IntraUvMode, IntraYMode};
use oxideav_vp8::mb_tokens::{decode_mb_coeffs, MbEntropyCtx};
use oxideav_vp8::mode_picker::{
    encode_mb_block_set, encode_mb_block_set_with_neighbors, Candidate,
};
use oxideav_vp8::modes::{decode_mb_mode_info_keyframe, MbInfo};
use oxideav_vp8::quant::MbDequantFactors;
use oxideav_vp8::reconstruct::{
    decode_keyframe_mb_bpred, decode_keyframe_mb_non_bpred, MbNeighbors,
};
use oxideav_vp8::tables::{COEFF_UPDATE_PROBS, DEFAULT_COEFF_PROBS};
use oxideav_vp8::token_encoder::{classify_coeff_token, encode_coeff_block, TokenEncoder};
use oxideav_vp8::tokens::{decode_block, BlockType, DctToken};

const KEY_FRAME_START_CODE: [u8; 3] = [0x9d, 0x01, 0x2a];

/// Bits that a boolean costs.
fn bool_bits(prob: u8, value: bool) -> f64 {
    let p0 = (prob.max(1) as f64) / 256.0;
    let p = if value { 1.0 - p0 } else { p0 };
    -p.max(1.0 / 256.0).log2()
}

fn list_bits(list: &[(u8, bool)]) -> f64 {
    list.iter().fold(0.0, |sum, &(p, b)| sum + bool_bits(p, b))
}

/// Names the option with the least sum of error and weighed bits.
fn least_cost(yac_qi: u8) -> impl Fn(&Vec<Vec<Candidate>>) -> usize {
    let factors = MbDequantFactors::from_base_and_deltas(yac_qi as i32, 0, 0, 0, 0, 0);
    let q = factors.y1_ac as f64;
    let lambda = q * q / 32.0;
    move |options: &Vec<Vec<Candidate>>| {
        let mut best = 0;
        let mut least = f64::INFINITY;
        for (i, option) in options.iter().enumerate() {
            let mut cost = 0.0;
            for part in option {
                let mut bits = 0.0;
                for block in &part.tokens {
                    bits += list_bits(block);
                }
                cost += part.ssd as f64 + lambda * (bits + list_bits(&part.mode));
            }
            if cost < least {
                least = cost;
                best = i;
            }
        }
        best
    }
}

fn encode_keyframe(frame: &I420Frame<'_>, params: &KeyframeParams) -> Result<Vec<u8>, EncodeError> {
    keyframe_encoder::encode_keyframe(frame, params, &least_cost(params.y_ac_qi))
}


#[test]
fn coeff_update_probs_flat_walk_is_consistent() {
    let flat = coeff_update_probs_flat();
    let s: u32 = flat.iter().map(|&p| p as u32).sum();
    assert!(s > 0);
    assert_eq!(
        flat[3 * 8 * 3 * 11 + 7 * 3 * 11 + 2 * 11 + 10],
        COEFF_UPDATE_PROBS[3][7][2][10]
    );
}

#[test]
fn mode_layer_roundtrips_through_decoder_parser() {
    let (w, h) = (32u32, 32u32);
    let cw = w.div_ceil(2) as usize;
    let ch = h.div_ceil(2) as usize;
    let mut y = vec![0u8; (w * h) as usize];
    for r in 0..h as usize {
        for c in 0..w as usize {
            y[r * w as usize + c] = ((r * 8 + c * 8) & 0xff) as u8;
        }
    }
    let u = vec![110u8; cw * ch];
    let v = vec![140u8; cw * ch];
    let frame = I420Frame::packed(w, h, &y, &u, &v);
    let params = KeyframeParams {
        y_ac_qi: 32,
        loop_filter_level: 0,
        sharpness_level: 0,
        nbr_of_dct_partitions: 1,
    };
    let bytes = encode_keyframe(&frame, &params).expect("encode");

    let header = parse_header(&bytes).unwrap();
    let off = header.compressed_offset;
    let size = header.tag.first_partition_size as usize;
    let first = &bytes[off..off + size];
    let mut dec = BoolDecoder::init(first).unwrap();
    let coded = Vp8CodedHeader::parse_from(&mut dec, true);
    let mut parsed: Vec<MbInfo> = Vec::new();
    for k in 0..4 {
        let info = decode_mb_mode_info_keyframe(&mut dec, &coded, &parsed, k, 2);
        parsed.push(info);
    }
    assert_eq!(parsed.len(), 4);

    for mb in &parsed {
        if mb.y_mode != IntraYMode::B {
            let projected = mb.y_mode.project_to_subblock_context();
            assert_eq!(mb.bmodes, [projected; 16]);
        }
    }

    let decoded = decode_vp8(&bytes).expect("decode");
    assert_eq!(decoded.width, w);
    assert_eq!(decoded.height, h);
}

fn natural_test_frame_64x64() -> (Vec<u8>, Vec<u8>, Vec<u8>) {
    let (w, h) = (64usize, 64usize);
    let (cw, ch) = (32usize, 32usize);
    let mut y = vec![0u8; w * h];
    let mut state: u32 = 0x1234_5678;
    let mut next = || {
        state = state.wrapping_mul(1_103_515_245).wrapping_add(12345);
        (state >> 16) & 0x1f
    };
    for r in 0..h {
        for c in 0..w {
            let base = 40 + (r + c) * 2;
            let tex = next() as usize;
            y[r * w + c] = (base + tex).min(235) as u8;
        }
    }
    let mut u = vec![0u8; cw * ch];
    let mut v = vec![0u8; cw * ch];
    for r in 0..ch {
        for c in 0..cw {
            u[r * cw + c] = (100 + r) as u8;
            v[r * cw + c] = (150 - c) as u8;
        }
    }
    (y, u, v)
}

fn keyframe_luma_psnr(bytes: &[u8], src_y: &[u8], w: usize, h: usize) -> f64 {
    let decoded = decode_vp8(bytes).expect("decode");
    psnr(&src_y[..w * h], &decoded.y[..w * h])
}

#[test]
fn rd_keyframe_holds_psnr_floor_on_natural_frame() {
    let (w, h) = (64u32, 64u32);
    let (y, u, v) = natural_test_frame_64x64();
    let frame = I420Frame::packed(w, h, &y, &u, &v);
    for qi in [16u8, 32, 48] {
        let params = KeyframeParams {
            y_ac_qi: qi,
            loop_filter_level: 0,
            sharpness_level: 0,
            nbr_of_dct_partitions: 1,
        };
        let bytes = encode_keyframe(&frame, &params).expect("encode");
        let p = keyframe_luma_psnr(&bytes, &y, w as usize, h as usize);
        assert!(
            p >= 30.0,
            "RD keyframe luma PSNR {p:.2} dB < 30 dB floor at qi={qi}"
        );
    }
}

#[test]
fn rd_beats_sad_baseline_size_and_quality() {
    let sad_baseline: [(u8, usize, f64); 5] = [
        (16, 1467, 39.293),
        (24, 1192, 36.777),
        (32, 1003, 34.561),
        (48, 731, 31.742),
        (64, 383, 29.921),
    ];
    let (w, h) = (64u32, 64u32);
    let (y, u, v) = natural_test_frame_64x64();
    let frame = I420Frame::packed(w, h, &y, &u, &v);
    for (qi, sad_bytes, sad_psnr) in sad_baseline {
        let params = KeyframeParams {
            y_ac_qi: qi,
            loop_filter_level: 0,
            sharpness_level: 0,
            nbr_of_dct_partitions: 1,
        };
        let bytes = encode_keyframe(&frame, &params).expect("encode");
        let p = keyframe_luma_psnr(&bytes, &y, w as usize, h as usize);
        assert!(
            bytes.len() <= sad_bytes,
            "RD stream at qi={qi} ({} B) must not exceed the SAD baseline ({sad_bytes} B)",
            bytes.len()
        );
        assert!(
            p >= sad_psnr - 0.05,
            "RD PSNR at qi={qi} ({p:.3} dB) must hold the SAD baseline ({sad_psnr:.3} dB)"
        );
    }
}

#[test]
fn bool_encoder_decoder_round_trip_pseudo_random_sequence() {
    let mut state: u32 = 0xCAFE_F00D;
    let mut next = || {
        state = state.wrapping_mul(1_103_515_245).wrapping_add(12345);
        state
    };
    let mut bools: Vec<(u8, bool)> = Vec::with_capacity(1024);
    for _ in 0..1024 {
        let p = ((next() >> 16) as u8).max(1);
        let v = (next() & 1) != 0;
        bools.push((p, v));
    }

    let mut enc = BoolEncoder::new();
    for (p, v) in &bools {
        enc.write_bool(*p, *v);
    }
    let bytes = enc.finish();
    assert!(bytes.len() >= 4);

    let mut dec = BoolDecoder::init(&bytes).expect("encoder always emits ≥ 2 bytes");
    for (p, v) in &bools {
        assert_eq!(dec.read_bool(*p).expect("partition underrun"), *v);
    }
}

#[test]
fn write_literal_round_trips_through_read_literal() {
    let mut enc = BoolEncoder::new();

    enc.write_literal(0xA5, 8);

    enc.write_literal(42, 6);

    enc.write_signed_literal(-5, 4);

    enc.write_signed_literal(7, 4);
    let bytes = enc.finish();
    let mut dec = BoolDecoder::init(&bytes).unwrap();
    assert_eq!(dec.read_literal(8).unwrap(), 0xA5);
    assert_eq!(dec.read_literal(6).unwrap(), 42);

    assert_eq!(dec.read_literal(4).unwrap(), 5);
    assert!(dec.read_bool(128).unwrap());
    assert_eq!(dec.read_literal(4).unwrap(), 7);
    assert!(!dec.read_bool(128).unwrap());
}

#[test]
fn frame_tag_round_trips_through_parser_key_frame() {
    let mut buf: Vec<u8> = Vec::new();
    let bytes_written = write_frame_tag(
        &mut buf,
        true,
        0,
        true,
        0x1_2345,
        640,
        480,
        ScaleCode::Unscaled,
        ScaleCode::Unscaled,
    )
    .unwrap();
    assert_eq!(bytes_written, 10);
    assert_eq!(buf.len(), 10);

    assert_eq!(&buf[3..6], &KEY_FRAME_START_CODE);
    let hdr = parse_header(&buf).unwrap();
    assert_eq!(hdr.tag.frame_type, FrameType::Key);
    assert_eq!(hdr.tag.version, 0);
    assert!(hdr.tag.show_frame);
    assert_eq!(hdr.tag.first_partition_size, 0x1_2345);
    let sizes = hdr.keyframe.unwrap();
    assert_eq!(sizes.width, 640);
    assert_eq!(sizes.height, 480);
}

#[test]
fn patch_first_partition_size_preserves_neighbouring_bits() {
    let mut buf: Vec<u8> = Vec::new();
    write_frame_tag(
        &mut buf,
        true,
        5,
        true,
        0,
        16,
        16,
        ScaleCode::Unscaled,
        ScaleCode::Unscaled,
    )
    .unwrap();
    patch_first_partition_size(&mut buf[..3], 1234).unwrap();
    let hdr = parse_header(&buf).unwrap();
    assert_eq!(hdr.tag.version, 5);
    assert!(hdr.tag.show_frame);
    assert_eq!(hdr.tag.frame_type, FrameType::Key);
    assert_eq!(hdr.tag.first_partition_size, 1234);
}

#[test]
fn rejects_oversize_dimensions() {
    let mut buf = Vec::new();
    let err = write_frame_tag(
        &mut buf,
        true,
        0,
        true,
        0,
        0x4000,
        16,
        ScaleCode::Unscaled,
        ScaleCode::Unscaled,
    )
    .unwrap_err();
    assert!(matches!(err, EncodeError::InvalidDimensions { .. }));
}

#[test]
fn rejects_out_of_range_loop_filter_inputs() {
    let mut enc = BoolEncoder::new();
    assert!(matches!(
        write_loop_filter(&mut enc, false, 64, 0, false),
        Err(EncodeError::LoopFilterLevelOutOfRange { value: 64 })
    ));
    let mut enc = BoolEncoder::new();
    assert!(matches!(
        write_loop_filter(&mut enc, false, 0, 8, false),
        Err(EncodeError::SharpnessLevelOutOfRange { value: 8 })
    ));
}

#[test]
fn rejects_illegal_partition_count() {
    let mut enc = BoolEncoder::new();
    assert!(matches!(
        write_token_partition_count(&mut enc, 3),
        Err(EncodeError::InvalidDctPartitionCount { value: 3 })
    ));
}

#[test]
fn rejects_oversize_quant_index() {
    let mut enc = BoolEncoder::new();
    assert!(matches!(
        write_quant_indices(&mut enc, 128, None, None, None, None, None),
        Err(EncodeError::QuantIndexOutOfRange { value: 128 })
    ));
}

#[test]
fn silent_keyframe_16x16_round_trips_through_own_decoder() {
    let bytes = encode_silent_keyframe(SilentKeyframeParams::new(16, 16))
        .expect("encoder should produce a valid frame");
    let decoded = decode_vp8(&bytes).expect("own decoder must accept emitted frame");
    assert_eq!(decoded.width, 16);
    assert_eq!(decoded.height, 16);
    assert_eq!(decoded.y.len(), 16 * 16);
    assert_eq!(decoded.u.len(), 8 * 8);
    assert_eq!(decoded.v.len(), 8 * 8);
}

#[test]
fn silent_keyframe_first_partition_round_trips_through_coded_header_parser() {
    let bytes = encode_silent_keyframe(SilentKeyframeParams::new(64, 64)).unwrap();
    let hdr = parse_header(&bytes).unwrap();
    let off = hdr.compressed_offset;
    let sz = hdr.tag.first_partition_size as usize;
    let partition = &bytes[off..off + sz];
    let coded = Vp8CodedHeader::parse(partition, true).unwrap();
    assert_eq!(coded.color_space, Some(false));
    assert_eq!(coded.clamping_type, Some(false));
    assert!(!coded.segmentation_enabled);
    assert!(!coded.filter_type);
    assert_eq!(coded.loop_filter_level, 0);
    assert_eq!(coded.sharpness_level, 0);
    assert!(!coded.mb_lf_adjustments.loop_filter_adj_enable);
    assert_eq!(coded.log2_nbr_of_dct_partitions, 0);
    assert_eq!(coded.nbr_of_dct_partitions, 1);
    assert_eq!(coded.quant_indices.y_ac_qi, 0);
    assert_eq!(coded.quant_indices.y_dc_delta, None);
    assert!(coded.refresh_entropy_probs);
    assert!(coded.mb_no_skip_coeff);
    assert_eq!(coded.prob_skip_false, Some(1));
}

#[test]
fn silent_keyframe_round_trips_at_all_partition_counts() {
    for &count in &[1u8, 2, 4, 8] {
        let mut params = SilentKeyframeParams::new(64, 64);
        params.nbr_of_dct_partitions = count;
        let bytes = encode_silent_keyframe(params)
            .unwrap_or_else(|e| panic!("encoder failed at count={count}: {e:?}"));
        let decoded = decode_vp8(&bytes)
            .unwrap_or_else(|e| panic!("decoder failed at count={count}: {e:?}"));
        assert_eq!(decoded.width, 64);
        assert_eq!(decoded.height, 64);
    }
}

#[test]
fn silent_keyframe_non_square_dimensions_round_trip() {
    let cases = [(16u32, 16u32), (32, 32), (48, 16), (16, 48), (32, 24)];
    for (w, h) in cases {
        let bytes = encode_silent_keyframe(SilentKeyframeParams::new(w, h))
            .unwrap_or_else(|e| panic!("encoder failed at {w}x{h}: {e:?}"));
        let decoded =
            decode_vp8(&bytes).unwrap_or_else(|e| panic!("decoder failed at {w}x{h}: {e:?}"));
        assert_eq!(decoded.width, w);
        assert_eq!(decoded.height, h);
    }
}

#[test]
fn make_encoder_factory_produces_same_bytes_as_top_level_function() {
    let enc = make_encoder();
    let from_factory = enc.encode_keyframe(&[], 32, 32).unwrap();
    let from_direct = encode_silent_keyframe(SilentKeyframeParams::new(32, 32)).unwrap();
    assert_eq!(from_factory, from_direct);
}

#[test]
fn silent_keyframe_size_is_small() {
    let bytes = encode_silent_keyframe(SilentKeyframeParams::new(16, 16)).unwrap();

    assert!(
        bytes.len() < 100,
        "silent 16×16 keyframe ballooned to {} bytes",
        bytes.len()
    );

    assert!(bytes.len() >= 10 + 4 + 4);
}

fn encode_then_decode_block(
    block_type: BlockType,
    coeffs: &[i16; 16],
    above_has_nonzero: bool,
    left_has_nonzero: bool,
) -> [i16; 16] {
    let mut enc = BoolEncoder::new();
    let nonzeros = encode_coeff_block(
        &mut enc,
        block_type,
        &DEFAULT_COEFF_PROBS,
        above_has_nonzero,
        left_has_nonzero,
        coeffs,
    )
    .expect("encode_coeff_block should accept in-range coefficients");

    let first = block_type.first_coeff();
    let expected_nz = coeffs
        .iter()
        .enumerate()
        .filter(|(i, &v)| *i >= first && v != 0)
        .count();
    assert_eq!(nonzeros, expected_nz, "non-zero count mismatch");
    let bytes = enc.finish();

    let mut dec = BoolDecoder::init(&bytes).expect("encoder emits ≥ 2 bytes");
    let mut recovered = [0i16; 16];
    let nz = decode_block(
        &mut dec,
        block_type,
        &DEFAULT_COEFF_PROBS,
        above_has_nonzero,
        left_has_nonzero,
        &mut recovered,
    )
    .expect("decode_block should consume the encoded byte stream");
    assert_eq!(nz, expected_nz);
    recovered
}

#[test]
fn classify_coeff_token_covers_full_alphabet() {
    assert_eq!(classify_coeff_token(0), DctToken::Dct0);
    assert_eq!(classify_coeff_token(1), DctToken::Dct1);
    assert_eq!(classify_coeff_token(2), DctToken::Dct2);
    assert_eq!(classify_coeff_token(3), DctToken::Dct3);
    assert_eq!(classify_coeff_token(4), DctToken::Dct4);

    assert_eq!(classify_coeff_token(5), DctToken::Cat1);
    assert_eq!(classify_coeff_token(6), DctToken::Cat1);

    assert_eq!(classify_coeff_token(7), DctToken::Cat2);
    assert_eq!(classify_coeff_token(10), DctToken::Cat2);

    assert_eq!(classify_coeff_token(11), DctToken::Cat3);
    assert_eq!(classify_coeff_token(18), DctToken::Cat3);

    assert_eq!(classify_coeff_token(19), DctToken::Cat4);
    assert_eq!(classify_coeff_token(34), DctToken::Cat4);

    assert_eq!(classify_coeff_token(35), DctToken::Cat5);
    assert_eq!(classify_coeff_token(66), DctToken::Cat5);

    assert_eq!(classify_coeff_token(67), DctToken::Cat6);
    assert_eq!(classify_coeff_token(2114), DctToken::Cat6);
}

#[test]
fn encode_coeff_block_all_zero_round_trips() {
    let coeffs = [0i16; 16];
    for &bt in &[
        BlockType::YAfterY2,
        BlockType::Y2,
        BlockType::UV,
        BlockType::YNoY2,
    ] {
        let recovered = encode_then_decode_block(bt, &coeffs, false, false);
        assert_eq!(recovered, coeffs, "all-zero round-trip failed for {bt:?}");
    }
}

#[test]
fn encode_coeff_block_single_nonzero_at_each_position() {
    for &bt in &[BlockType::Y2, BlockType::UV, BlockType::YNoY2] {
        let first = bt.first_coeff();
        for pos in first..16 {
            for &value in &[1i16, -1, 2, -3, 4, -4] {
                let mut coeffs = [0i16; 16];
                coeffs[pos] = value;
                let recovered = encode_then_decode_block(bt, &coeffs, false, false);
                assert_eq!(
                    recovered, coeffs,
                    "single-nonzero round-trip failed at {bt:?} pos={pos} value={value}"
                );
            }
        }
    }

    let bt = BlockType::YAfterY2;
    for pos in 1..16 {
        let mut coeffs = [0i16; 16];
        coeffs[pos] = 3;
        let recovered = encode_then_decode_block(bt, &coeffs, false, false);
        assert_eq!(
            recovered, coeffs,
            "single-nonzero round-trip failed at YAfterY2 pos={pos}"
        );
    }
}

#[test]
fn encode_coeff_block_each_cat_range_round_trips() {
    let cases: &[i16] = &[
        5, 6,
        7, 8, 10,
        11, 15, 18,
        19, 27, 34,
        35, 50, 66,
        67, 200, 1000, 2114,
    ];
    for &v in cases {
        for &sign in &[1i16, -1] {
            let mut coeffs = [0i16; 16];

            coeffs[3] = v * sign;
            let recovered = encode_then_decode_block(BlockType::UV, &coeffs, true, false);
            assert_eq!(
                recovered, coeffs,
                "cat-range round-trip failed for value {v}*{sign}"
            );
        }
    }
}

#[test]
fn encode_coeff_block_fully_populated_block_round_trips_with_implicit_eob() {
    let mut coeffs = [0i16; 16];

    let values = [1, -2, 3, -4, 5, -7, 11, -19, 35, -67, 1, -1, 2, -3, 4, -5];
    coeffs.copy_from_slice(&values);

    let recovered = encode_then_decode_block(BlockType::YNoY2, &coeffs, false, false);
    assert_eq!(recovered, coeffs);
}

#[test]
fn encode_coeff_block_interior_zeros_round_trip() {
    let mut coeffs = [0i16; 16];
    coeffs[0] = 3;
    coeffs[3] = 5;
    coeffs[7] = 2;
    coeffs[12] = -8;
    let recovered = encode_then_decode_block(BlockType::Y2, &coeffs, false, false);
    assert_eq!(recovered, coeffs);
}

#[test]
fn encode_coeff_block_neighbour_predictor_combinations() {
    let coeffs = {
        let mut c = [0i16; 16];
        c[0] = 4;
        c[1] = -1;
        c[5] = 2;
        c
    };
    for above in &[false, true] {
        for left in &[false, true] {
            let recovered = encode_then_decode_block(BlockType::YNoY2, &coeffs, *above, *left);
            assert_eq!(
                recovered, coeffs,
                "neighbour predictor combination ({above}, {left}) failed"
            );
        }
    }
}

#[test]
fn encode_coeff_block_rejects_out_of_range_coefficient() {
    let mut coeffs = [0i16; 16];
    coeffs[2] = 2115;
    let mut enc = BoolEncoder::new();
    let err = encode_coeff_block(
        &mut enc,
        BlockType::YNoY2,
        &DEFAULT_COEFF_PROBS,
        false,
        false,
        &coeffs,
    )
    .unwrap_err();
    assert!(matches!(
        err,
        TokenEncodeError::CoefficientOutOfRange {
            index: 2,
            value: 2115
        }
    ));
}

#[test]
fn token_encoder_wrapper_matches_free_function_bytes() {
    let mut coeffs = [0i16; 16];
    coeffs[0] = 2;
    coeffs[4] = -7;
    coeffs[9] = 15;

    let mut free_enc = BoolEncoder::new();
    encode_coeff_block(
        &mut free_enc,
        BlockType::YNoY2,
        &DEFAULT_COEFF_PROBS,
        false,
        false,
        &coeffs,
    )
    .unwrap();
    let free_bytes = free_enc.finish();

    let mut wrapper = TokenEncoder::new(DEFAULT_COEFF_PROBS);
    wrapper
        .encode_block(BlockType::YNoY2, false, false, &coeffs)
        .unwrap();
    let wrapper_bytes = wrapper.finish();

    assert_eq!(free_bytes, wrapper_bytes);
}

#[test]
fn encode_coeff_block_pseudo_random_sweep_round_trips() {
    let mut state: u32 = 0xDEAD_BEEF;
    let mut next = || {
        state = state.wrapping_mul(1_103_515_245).wrapping_add(12345);
        state
    };

    for trial in 0..64 {
        let bt = match trial % 4 {
            0 => BlockType::YAfterY2,
            1 => BlockType::Y2,
            2 => BlockType::UV,
            _ => BlockType::YNoY2,
        };
        let first = bt.first_coeff();
        let mut coeffs = [0i16; 16];

        for (i, c) in coeffs.iter_mut().enumerate().skip(first) {
            let r = next();

            if (r & 0x3) != 0 || i > 10 {
                continue;
            }

            let mag = ((r >> 8) % 100) as i16;
            let sign = if (r >> 16) & 1 == 0 { 1 } else { -1 };
            *c = mag * sign;
        }
        let above = (next() & 1) != 0;
        let left = (next() & 1) != 0;
        let recovered = encode_then_decode_block(bt, &coeffs, above, left);
        assert_eq!(
            recovered, coeffs,
            "pseudo-random round-trip failed at trial {trial}, bt={bt:?}, above={above}, left={left}"
        );
    }
}

#[test]
fn mb_block_set_roundtrip_flat_color_recovers_within_one_lsb() {
    for &pixel in &[100u8, 110, 128, 140, 160, 200] {
        let pixels = MbPixels {
            y: [pixel; 256],
            u: [pixel; 64],
            v: [pixel; 64],
        };

        let (_y_mode, _uv, _sub, y_plane, u_plane, v_plane) =
            encode_decode_bpred_aware(&pixels, &MbNeighbors::default(), 0);

        for (i, &recon) in y_plane.iter().enumerate() {
            assert!(
                (recon as i32 - pixel as i32).abs() <= 1,
                "pixel {pixel}: y recon[{i}] = {recon} differs by > 1 LSB"
            );
        }
        for (i, &recon) in u_plane.iter().enumerate() {
            assert!(
                (recon as i32 - pixel as i32).abs() <= 1,
                "pixel {pixel}: u recon[{i}] = {recon} differs by > 1 LSB"
            );
        }
        for (i, &recon) in v_plane.iter().enumerate() {
            assert!(
                (recon as i32 - pixel as i32).abs() <= 1,
                "pixel {pixel}: v recon[{i}] = {recon} differs by > 1 LSB"
            );
        }
    }
}

#[test]
fn mb_block_set_constant_128_emits_all_eob_blocks() {
    let pixels = MbPixels {
        y: [128u8; 256],
        u: [128u8; 64],
        v: [128u8; 64],
    };
    let encoded =
        encode_mb_block_set(&pixels, 0, &DEFAULT_COEFF_PROBS, &least_cost(0)).expect("encode_mb_block_set");
    assert_eq!(
        encoded.nonzero_block_count, 0,
        "constant 128 MB must produce zero non-zero blocks"
    );

    assert_eq!(encoded.y_mode, IntraYMode::Dc);
    assert_eq!(encoded.uv_mode, IntraUvMode::Dc);

    let mut dec = BoolDecoder::init(&encoded.bytes).expect("encoder emits ≥ 2 bytes");
    let mut above = MbEntropyCtx::default();
    let mut left = MbEntropyCtx::default();
    let (recovered, any) =
        decode_mb_coeffs(&mut dec, &DEFAULT_COEFF_PROBS, true, &mut above, &mut left);
    assert!(!any);
    assert_eq!(recovered.y2, [0i16; 16]);
    assert!(recovered.y.iter().all(|b| *b == [0i16; 16]));
    assert!(recovered.u.iter().all(|b| *b == [0i16; 16]));
    assert!(recovered.v.iter().all(|b| *b == [0i16; 16]));
}

#[test]
fn mb_block_set_roundtrip_flat_color_at_q16_holds_within_2_lsb() {
    let pixels = MbPixels {
        y: [160u8; 256],
        u: [120u8; 64],
        v: [140u8; 64],
    };

    let (_y_mode, _uv, _sub, y_plane, _u_plane, _v_plane) =
        encode_decode_bpred_aware(&pixels, &MbNeighbors::default(), 16);

    for (i, &recon) in y_plane.iter().enumerate() {
        assert!(
            (recon as i32 - 160i32).abs() <= 2,
            "yac_qi=16 flat 160: recon[{i}] = {recon} differs by > 2 LSB"
        );
    }
}

fn psnr(src: &[u8], recon: &[u8]) -> f64 {
    assert_eq!(src.len(), recon.len());
    let mse: f64 = src
        .iter()
        .zip(recon.iter())
        .map(|(&s, &r)| {
            let d = s as f64 - r as f64;
            d * d
        })
        .sum::<f64>()
        / src.len() as f64;
    if mse == 0.0 {
        f64::INFINITY
    } else {
        10.0 * (255.0f64 * 255.0 / mse).log10()
    }
}

fn encode_decode_with_neighbors(
    pixels: &MbPixels,
    neighbors: &MbNeighbors,
    yac_qi: u8,
) -> (IntraYMode, IntraUvMode, Vec<u8>, Vec<u8>, Vec<u8>) {
    let encoded =
        encode_mb_block_set_with_neighbors(
            pixels,
            neighbors,
            yac_qi,
            &DEFAULT_COEFF_PROBS,
            &least_cost(yac_qi),
        )
            .expect("encode_mb_block_set_with_neighbors");

    let mut dec = BoolDecoder::init(&encoded.bytes).expect("encoder emits ≥ 2 bytes");
    let mut above = MbEntropyCtx::default();
    let mut left = MbEntropyCtx::default();
    let (mut raw, _any) =
        decode_mb_coeffs(&mut dec, &DEFAULT_COEFF_PROBS, true, &mut above, &mut left);
    assert_eq!(raw, encoded.coeffs, "byte-layer roundtrip mismatch");

    let factors = MbDequantFactors::from_base_and_deltas(yac_qi as i32, 0, 0, 0, 0, 0);
    factors.dequantize(&mut raw);

    assert_ne!(encoded.y_mode, IntraYMode::B);
    let recon =
        decode_keyframe_mb_non_bpred(encoded.y_mode, encoded.uv_mode, false, neighbors, &raw);

    (
        encoded.y_mode,
        encoded.uv_mode,
        recon.y.to_vec(),
        recon.u.to_vec(),
        recon.v.to_vec(),
    )
}

fn encode_decode_bpred_aware(
    pixels: &MbPixels,
    neighbors: &MbNeighbors,
    yac_qi: u8,
) -> (
    IntraYMode,
    IntraUvMode,
    Option<[IntraBmode; 16]>,
    Vec<u8>,
    Vec<u8>,
    Vec<u8>,
) {
    let encoded =
        encode_mb_block_set_with_neighbors(
            pixels,
            neighbors,
            yac_qi,
            &DEFAULT_COEFF_PROBS,
            &least_cost(yac_qi),
        )
            .expect("encode_mb_block_set_with_neighbors");

    let is_bpred = encoded.y_mode == IntraYMode::B;

    let has_y2 = !is_bpred;

    let mut dec = BoolDecoder::init(&encoded.bytes).expect("encoder emits ≥ 2 bytes");
    let mut above = MbEntropyCtx::default();
    let mut left = MbEntropyCtx::default();
    let (mut raw, _any) =
        decode_mb_coeffs(&mut dec, &DEFAULT_COEFF_PROBS, has_y2, &mut above, &mut left);
    assert_eq!(raw, encoded.coeffs, "byte-layer roundtrip mismatch");

    let factors = MbDequantFactors::from_base_and_deltas(yac_qi as i32, 0, 0, 0, 0, 0);
    factors.dequantize(&mut raw);

    let recon = if is_bpred {
        decode_keyframe_mb_bpred(
            encoded.b_subblock_modes.as_ref().expect("sub-block modes"),
            encoded.uv_mode,
            false,
            neighbors,
            &raw,
        )
    } else {
        decode_keyframe_mb_non_bpred(encoded.y_mode, encoded.uv_mode, false, neighbors, &raw)
    };

    (
        encoded.y_mode,
        encoded.uv_mode,
        encoded.b_subblock_modes,
        recon.y.to_vec(),
        recon.u.to_vec(),
        recon.v.to_vec(),
    )
}

#[test]
fn flat_mb_keeps_whole_block_luma_mode() {
    let pixels = MbPixels {
        y: [120u8; 256],
        u: [120u8; 64],
        v: [120u8; 64],
    };

    let neighbors = MbNeighbors {
        y_above: Some([120u8; 16]),
        y_left: Some([120u8; 16]),
        y_topleft: Some(120),
        y_above_right: Some([120u8; 4]),
        u_above: Some([120u8; 8]),
        u_left: Some([120u8; 8]),
        u_topleft: Some(120),
        v_above: Some([120u8; 8]),
        v_left: Some([120u8; 8]),
        v_topleft: Some(120),
    };

    let (y_mode, _uv, sub, ry, _ru, _rv) = encode_decode_bpred_aware(&pixels, &neighbors, 8);

    assert_ne!(
        y_mode,
        IntraYMode::B,
        "a flat MB must NOT flip to B_PRED — a whole-block mode reproduces it exactly"
    );
    assert!(
        sub.is_none(),
        "whole-block luma decision must carry no sub-block modes"
    );

    let p_y = psnr(&pixels.y, &ry);
    assert!(p_y >= 30.0, "flat luma PSNR {p_y:.2} dB < 30 dB");
}

#[test]
fn diagonal_subblock_mb_picks_bpred_and_decodes_above_30db() {
    let mut y = [0u8; 256];
    for r in 0..16usize {
        for c in 0..16usize {
            let lr = r % 4;
            let lc = c % 4;

            let sb = (r / 4) * 4 + (c / 4);
            let d = if sb % 2 == 0 { lr + lc } else { 6 - (lr + lc) };
            y[r * 16 + c] = (30 + d * 35) as u8;
        }
    }

    let pixels = MbPixels {
        y,
        u: [128u8; 64],
        v: [128u8; 64],
    };
    let neighbors = MbNeighbors::default();

    let (y_mode, _uv, sub, ry, _ru, _rv) = encode_decode_bpred_aware(&pixels, &neighbors, 4);

    assert_eq!(
        y_mode,
        IntraYMode::B,
        "a per-4×4-sub-block-structured MB must pick B_PRED"
    );
    let sub = sub.expect("B_PRED MB must carry sixteen sub-block modes");
    assert_eq!(sub.len(), 16);

    let p_y = psnr(&pixels.y, &ry);
    assert!(
        p_y >= 30.0,
        "B_PRED luma reconstruction PSNR {p_y:.2} dB < 30 dB"
    );
}

#[test]
fn bpred_neighbour_evolution_roundtrips_at_low_q() {
    let mut y = [0u8; 256];
    for r in 0..16usize {
        for c in 0..16usize {
            let lr = r % 4;
            let lc = c % 4;
            let sb = (r / 4) * 4 + (c / 4);
            let d = if sb % 2 == 0 { lr + lc } else { 6 - (lr + lc) };
            y[r * 16 + c] = (30 + d * 35) as u8;
        }
    }
    let pixels = MbPixels {
        y,
        u: [128u8; 64],
        v: [128u8; 64],
    };
    let neighbors = MbNeighbors::default();

    let (y_mode, _uv, sub, ry, _ru, _rv) = encode_decode_bpred_aware(&pixels, &neighbors, 8);
    assert_eq!(y_mode, IntraYMode::B);
    assert!(sub.is_some());
    let p_y = psnr(&pixels.y, &ry);
    assert!(
        p_y >= 40.0,
        "B_PRED luma PSNR at q8 {p_y:.2} dB < 40 dB — neighbour evolution likely diverged"
    );
}

#[test]
fn mode_pick_chooses_v_pred_for_column_constant_mb() {
    let mut y_row = [0u8; 16];
    for (c, slot) in y_row.iter_mut().enumerate() {
        *slot = (40 + c * 10) as u8;
    }
    let mut u_row = [0u8; 8];
    let mut v_row = [0u8; 8];
    for c in 0..8 {
        u_row[c] = (50 + c * 12) as u8;
        v_row[c] = (200 - c * 12) as u8;
    }

    let mut y = [0u8; 256];
    for r in 0..16 {
        y[r * 16..r * 16 + 16].copy_from_slice(&y_row);
    }
    let mut u = [0u8; 64];
    let mut v = [0u8; 64];
    for r in 0..8 {
        u[r * 8..r * 8 + 8].copy_from_slice(&u_row);
        v[r * 8..r * 8 + 8].copy_from_slice(&v_row);
    }
    let pixels = MbPixels { y, u, v };

    let neighbors = MbNeighbors {
        y_above: Some(y_row),
        u_above: Some(u_row),
        v_above: Some(v_row),
        ..MbNeighbors::default()
    };

    let (y_mode, uv_mode, ry, ru, rv) = encode_decode_with_neighbors(&pixels, &neighbors, 8);

    assert_eq!(
        y_mode,
        IntraYMode::V,
        "column-constant MB must pick V_PRED for luma"
    );
    assert_eq!(
        uv_mode,
        IntraUvMode::V,
        "column-constant MB must pick V_PRED for chroma"
    );

    let p_y = psnr(&pixels.y, &ry);
    let p_u = psnr(&pixels.u, &ru);
    let p_v = psnr(&pixels.v, &rv);
    assert!(p_y >= 30.0, "V_PRED luma PSNR {p_y:.2} dB < 30 dB");
    assert!(p_u >= 30.0, "V_PRED U PSNR {p_u:.2} dB < 30 dB");
    assert!(p_v >= 30.0, "V_PRED V PSNR {p_v:.2} dB < 30 dB");
}

#[test]
fn mode_pick_chooses_h_pred_for_row_constant_mb() {
    let mut y_col = [0u8; 16];
    for (r, slot) in y_col.iter_mut().enumerate() {
        *slot = (200 - r * 10) as u8;
    }
    let mut u_col = [0u8; 8];
    let mut v_col = [0u8; 8];
    for r in 0..8 {
        u_col[r] = (60 + r * 14) as u8;
        v_col[r] = (190 - r * 14) as u8;
    }

    let mut y = [0u8; 256];
    for r in 0..16 {
        for c in 0..16 {
            y[r * 16 + c] = y_col[r];
        }
    }
    let mut u = [0u8; 64];
    let mut v = [0u8; 64];
    for r in 0..8 {
        for c in 0..8 {
            u[r * 8 + c] = u_col[r];
            v[r * 8 + c] = v_col[r];
        }
    }
    let pixels = MbPixels { y, u, v };

    let neighbors = MbNeighbors {
        y_left: Some(y_col),
        u_left: Some(u_col),
        v_left: Some(v_col),
        ..MbNeighbors::default()
    };

    let (y_mode, uv_mode, ry, ru, rv) = encode_decode_with_neighbors(&pixels, &neighbors, 8);

    assert_eq!(
        y_mode,
        IntraYMode::H,
        "row-constant MB must pick H_PRED for luma"
    );
    assert_eq!(
        uv_mode,
        IntraUvMode::H,
        "row-constant MB must pick H_PRED for chroma"
    );

    let p_y = psnr(&pixels.y, &ry);
    let p_u = psnr(&pixels.u, &ru);
    let p_v = psnr(&pixels.v, &rv);
    assert!(p_y >= 30.0, "H_PRED luma PSNR {p_y:.2} dB < 30 dB");
    assert!(p_u >= 30.0, "H_PRED U PSNR {p_u:.2} dB < 30 dB");
    assert!(p_v >= 30.0, "H_PRED V PSNR {p_v:.2} dB < 30 dB");
}

#[test]
fn mode_pick_chooses_tm_pred_for_planar_ramp_mb() {
    let corner: i32 = 100;

    let mut a = [0u8; 16];
    let mut l = [0u8; 16];
    for k in 0..16 {
        a[k] = (corner + k as i32 + 1) as u8;
        l[k] = (corner + k as i32 + 1) as u8;
    }
    let mut ua = [0u8; 8];
    let mut ul = [0u8; 8];
    let mut va = [0u8; 8];
    let mut vl = [0u8; 8];
    for k in 0..8 {
        ua[k] = (corner + k as i32 + 1) as u8;
        ul[k] = (corner + k as i32 + 1) as u8;
        va[k] = (corner + k as i32 + 1) as u8;
        vl[k] = (corner + k as i32 + 1) as u8;
    }

    let mut y = [0u8; 256];
    for i in 0..16 {
        for j in 0..16 {
            y[i * 16 + j] = (l[i] as i32 + a[j] as i32 - corner).clamp(0, 255) as u8;
        }
    }
    let mut u = [0u8; 64];
    let mut v = [0u8; 64];
    for i in 0..8 {
        for j in 0..8 {
            u[i * 8 + j] = (ul[i] as i32 + ua[j] as i32 - corner).clamp(0, 255) as u8;
            v[i * 8 + j] = (vl[i] as i32 + va[j] as i32 - corner).clamp(0, 255) as u8;
        }
    }
    let pixels = MbPixels { y, u, v };

    let neighbors = MbNeighbors {
        y_above: Some(a),
        y_left: Some(l),
        y_topleft: Some(corner as u8),
        u_above: Some(ua),
        u_left: Some(ul),
        u_topleft: Some(corner as u8),
        v_above: Some(va),
        v_left: Some(vl),
        v_topleft: Some(corner as u8),
        ..MbNeighbors::default()
    };

    let (y_mode, _uv_mode, ry, _ru, _rv) = encode_decode_with_neighbors(&pixels, &neighbors, 8);

    assert_eq!(
        y_mode,
        IntraYMode::Tm,
        "planar-ramp MB must pick TM_PRED for luma"
    );
    let p_y = psnr(&pixels.y, &ry);
    assert!(p_y >= 30.0, "TM_PRED luma PSNR {p_y:.2} dB < 30 dB");
}

#[test]
fn isolated_mb_textured_roundtrips_above_30db() {
    let mut y = [0u8; 256];
    for i in 0..16 {
        for j in 0..16 {
            y[i * 16 + j] = (120 + ((i + j) % 8) * 2) as u8;
        }
    }
    let mut u = [0u8; 64];
    let mut v = [0u8; 64];
    for i in 0..8 {
        for j in 0..8 {
            u[i * 8 + j] = (124 + ((i + j) % 4) * 2) as u8;
            v[i * 8 + j] = (132 - ((i + j) % 4) * 2) as u8;
        }
    }
    let pixels = MbPixels { y, u, v };

    let (_y_mode, _uv, _sub, ry, ru, rv) =
        encode_decode_bpred_aware(&pixels, &MbNeighbors::default(), 8);

    let p_y = psnr(&pixels.y, &ry);
    let p_u = psnr(&pixels.u, &ru);
    let p_v = psnr(&pixels.v, &rv);
    assert!(p_y >= 30.0, "isolated luma PSNR {p_y:.2} dB < 30 dB");
    assert!(p_u >= 30.0, "isolated U PSNR {p_u:.2} dB < 30 dB");
    assert!(p_v >= 30.0, "isolated V PSNR {p_v:.2} dB < 30 dB");
}
