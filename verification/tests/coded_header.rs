//! Boolean-coded frame header.
use oxideav_vp8::bool_decoder::BoolDecoderError;
use oxideav_vp8::coded_header::{CodedHeaderError, Vp8CodedHeader};
use oxideav_vp8::tables::COEFF_UPDATE_PROBS;

struct TestEncoder {
    out: Vec<u8>,
    range: u32,
    bottom: u32,
    bit_count: i32,
}

impl TestEncoder {
    fn new() -> Self {
        TestEncoder {
            out: Vec::new(),
            range: 255,
            bottom: 0,
            bit_count: 24,
        }
    }

    fn write_bool(&mut self, prob: u8, val: bool) {
        let split = 1 + (((self.range - 1) * prob as u32) >> 8);
        if val {
            self.bottom = self.bottom.wrapping_add(split);
            self.range -= split;
        } else {
            self.range = split;
        }
        while self.range < 128 {
            self.range <<= 1;
            if (self.bottom >> 31) & 1 == 1 {
                let mut i = self.out.len();
                while i > 0 {
                    i -= 1;
                    if self.out[i] == 255 {
                        self.out[i] = 0;
                    } else {
                        self.out[i] = self.out[i].wrapping_add(1);
                        break;
                    }
                }
            }
            self.bottom <<= 1;
            self.bit_count -= 1;
            if self.bit_count == 0 {
                let byte = (self.bottom >> 24) as u8;
                self.out.push(byte);
                self.bottom &= (1 << 24) - 1;
                self.bit_count = 8;
            }
        }
    }

    fn write_literal(&mut self, value: u32, num_bits: u32) {
        for i in (0..num_bits).rev() {
            let bit = ((value >> i) & 1) == 1;
            self.write_bool(128, bit);
        }
    }

    fn write_empty_token_prob_update(&mut self) {
        for plane in &COEFF_UPDATE_PROBS {
            for band in plane {
                for ctx in band {
                    for &prob in ctx {
                        self.write_bool(prob, false);
                    }
                }
            }
        }
    }

    fn finish(mut self) -> Vec<u8> {
        let c = self.bit_count;
        let mut v = self.bottom;
        if v & (1u32 << (32 - c)) != 0 {
            let mut i = self.out.len();
            while i > 0 {
                i -= 1;
                if self.out[i] == 255 {
                    self.out[i] = 0;
                } else {
                    self.out[i] = self.out[i].wrapping_add(1);
                    break;
                }
            }
        }
        v <<= c & 7;
        let mut c_shift = c >> 3;
        while c_shift > 0 {
            v <<= 8;
            c_shift -= 1;
        }
        for _ in 0..4 {
            self.out.push((v >> 24) as u8);
            v <<= 8;
        }
        self.out
    }
}

fn build_minimal_key_frame() -> Vec<u8> {
    let mut enc = TestEncoder::new();
    enc.write_bool(128, false);
    enc.write_bool(128, false);
    enc.write_bool(128, false);
    enc.write_bool(128, false);
    enc.write_literal(0, 6);
    enc.write_literal(0, 3);
    enc.write_bool(128, false);
    enc.write_literal(0, 2);
    enc.write_literal(4, 7);
    for _ in 0..5 {
        enc.write_bool(128, false);
    }
    enc.write_bool(128, true);
    enc.write_empty_token_prob_update();
    enc.write_bool(128, false);
    enc.finish()
}

#[test]
fn minimal_key_frame_round_trips() {
    let buf = build_minimal_key_frame();
    let hdr = Vp8CodedHeader::parse(&buf, true).unwrap();
    assert_eq!(hdr.color_space, Some(false));
    assert_eq!(hdr.clamping_type, Some(false));
    assert!(!hdr.segmentation_enabled);
    assert!(hdr.update_segmentation.is_none());
    assert!(!hdr.filter_type);
    assert_eq!(hdr.loop_filter_level, 0);
    assert_eq!(hdr.sharpness_level, 0);
    assert!(!hdr.mb_lf_adjustments.loop_filter_adj_enable);
    assert!(!hdr.mb_lf_adjustments.mode_ref_lf_delta_update);
    assert_eq!(hdr.log2_nbr_of_dct_partitions, 0);
    assert_eq!(hdr.nbr_of_dct_partitions, 1);
    assert_eq!(hdr.quant_indices.y_ac_qi, 4);
    assert_eq!(hdr.quant_indices.y_dc_delta, None);
    assert_eq!(hdr.quant_indices.uv_ac_delta, None);
    assert!(hdr.refresh_entropy_probs);
    assert_eq!(hdr.refresh_golden_frame, None);
    assert_eq!(hdr.refresh_alternate_frame, None);
    assert_eq!(hdr.refresh_last, None);
    assert!(!hdr.mb_no_skip_coeff);
    assert_eq!(hdr.prob_skip_false, None);
}

#[test]
fn key_frame_filter_and_partition_fields_round_trip() {
    let mut enc = TestEncoder::new();
    enc.write_bool(128, false);
    enc.write_bool(128, true);
    enc.write_bool(128, false);
    enc.write_bool(128, true);
    enc.write_literal(63, 6);
    enc.write_literal(7, 3);
    enc.write_bool(128, false);
    enc.write_literal(3, 2);
    enc.write_literal(127, 7);
    for _ in 0..5 {
        enc.write_bool(128, false);
    }
    enc.write_bool(128, false);
    enc.write_empty_token_prob_update();
    enc.write_bool(128, true);
    enc.write_literal(0xab, 8);
    let buf = enc.finish();

    let hdr = Vp8CodedHeader::parse(&buf, true).unwrap();
    assert_eq!(hdr.clamping_type, Some(true));
    assert!(hdr.filter_type);
    assert_eq!(hdr.loop_filter_level, 63);
    assert_eq!(hdr.sharpness_level, 7);
    assert_eq!(hdr.log2_nbr_of_dct_partitions, 3);
    assert_eq!(hdr.nbr_of_dct_partitions, 8);
    assert_eq!(hdr.quant_indices.y_ac_qi, 127);
    assert!(!hdr.refresh_entropy_probs);
    assert!(hdr.mb_no_skip_coeff);
    assert_eq!(hdr.prob_skip_false, Some(0xab));
}

#[test]
fn mb_lf_adjustments_full_block_round_trips() {
    let mut enc = TestEncoder::new();
    enc.write_bool(128, false);
    enc.write_bool(128, false);
    enc.write_bool(128, false);
    enc.write_bool(128, false);
    enc.write_literal(0, 6);
    enc.write_literal(0, 3);
    enc.write_bool(128, true);
    enc.write_bool(128, true);

    enc.write_bool(128, true);
    enc.write_literal(1, 6);
    enc.write_bool(128, false);
    enc.write_bool(128, false);
    enc.write_bool(128, true);
    enc.write_literal(2, 6);
    enc.write_bool(128, true);
    enc.write_bool(128, true);
    enc.write_literal(5, 6);
    enc.write_bool(128, false);

    enc.write_bool(128, false);
    enc.write_bool(128, true);
    enc.write_literal(3, 6);
    enc.write_bool(128, false);
    enc.write_bool(128, true);
    enc.write_literal(1, 6);
    enc.write_bool(128, true);
    enc.write_bool(128, false);
    enc.write_literal(0, 2);
    enc.write_literal(0, 7);
    for _ in 0..5 {
        enc.write_bool(128, false);
    }
    enc.write_bool(128, false);
    enc.write_empty_token_prob_update();
    enc.write_bool(128, false);
    let buf = enc.finish();

    let hdr = Vp8CodedHeader::parse(&buf, true).unwrap();
    let lf = hdr.mb_lf_adjustments;
    assert!(lf.loop_filter_adj_enable);
    assert!(lf.mode_ref_lf_delta_update);
    assert_eq!(
        lf.ref_frame_delta_update,
        [Some(1), None, Some(-2), Some(5)]
    );
    assert_eq!(lf.mb_mode_delta_update, [None, Some(3), Some(-1), None]);
}

#[test]
fn update_segmentation_block_round_trips() {
    let mut enc = TestEncoder::new();
    enc.write_bool(128, false);
    enc.write_bool(128, false);
    enc.write_bool(128, true);

    enc.write_bool(128, true);
    enc.write_bool(128, true);
    enc.write_bool(128, true);

    enc.write_bool(128, true);
    enc.write_literal(10, 7);
    enc.write_bool(128, false);
    enc.write_bool(128, false);
    enc.write_bool(128, false);
    enc.write_bool(128, true);
    enc.write_literal(20, 7);
    enc.write_bool(128, true);

    enc.write_bool(128, false);
    enc.write_bool(128, true);
    enc.write_literal(5, 6);
    enc.write_bool(128, false);
    enc.write_bool(128, true);
    enc.write_literal(3, 6);
    enc.write_bool(128, true);
    enc.write_bool(128, false);

    enc.write_bool(128, true);
    enc.write_literal(255, 8);
    enc.write_bool(128, false);
    enc.write_bool(128, true);
    enc.write_literal(0, 8);

    enc.write_bool(128, false);
    enc.write_literal(0, 6);
    enc.write_literal(0, 3);
    enc.write_bool(128, false);
    enc.write_literal(0, 2);
    enc.write_literal(0, 7);
    for _ in 0..5 {
        enc.write_bool(128, false);
    }
    enc.write_bool(128, false);
    enc.write_empty_token_prob_update();
    enc.write_bool(128, false);
    let buf = enc.finish();

    let hdr = Vp8CodedHeader::parse(&buf, true).unwrap();
    assert!(hdr.segmentation_enabled);
    let seg = hdr.update_segmentation.unwrap();
    assert!(seg.update_mb_segmentation_map);
    assert!(seg.update_segment_feature_data);
    assert!(seg.segment_feature_mode_absolute);
    assert_eq!(seg.quantizer_update, [Some(10), None, None, Some(-20)]);
    assert_eq!(seg.loop_filter_update, [None, Some(5), Some(-3), None]);
    assert_eq!(seg.segment_prob, [Some(255), None, Some(0)]);
}

#[test]
fn quant_indices_all_deltas_present() {
    let mut enc = TestEncoder::new();
    enc.write_bool(128, false);
    enc.write_bool(128, false);
    enc.write_bool(128, false);
    enc.write_bool(128, false);
    enc.write_literal(0, 6);
    enc.write_literal(0, 3);
    enc.write_bool(128, false);
    enc.write_literal(0, 2);
    enc.write_literal(64, 7);

    enc.write_bool(128, true);
    enc.write_literal(1, 4);
    enc.write_bool(128, false);

    enc.write_bool(128, true);
    enc.write_literal(2, 4);
    enc.write_bool(128, true);

    enc.write_bool(128, true);
    enc.write_literal(15, 4);
    enc.write_bool(128, false);

    enc.write_bool(128, true);
    enc.write_literal(15, 4);
    enc.write_bool(128, true);

    enc.write_bool(128, true);
    enc.write_literal(0, 4);
    enc.write_bool(128, false);

    enc.write_bool(128, false);
    enc.write_empty_token_prob_update();
    enc.write_bool(128, false);
    let buf = enc.finish();

    let hdr = Vp8CodedHeader::parse(&buf, true).unwrap();
    assert_eq!(hdr.quant_indices.y_ac_qi, 64);
    assert_eq!(hdr.quant_indices.y_dc_delta, Some(1));
    assert_eq!(hdr.quant_indices.y2_dc_delta, Some(-2));
    assert_eq!(hdr.quant_indices.y2_ac_delta, Some(15));
    assert_eq!(hdr.quant_indices.uv_dc_delta, Some(-15));
    assert_eq!(hdr.quant_indices.uv_ac_delta, Some(0));
}

#[test]
fn interframe_refresh_block_full_path() {
    let mut enc = TestEncoder::new();

    enc.write_bool(128, false);
    enc.write_bool(128, false);
    enc.write_literal(10, 6);
    enc.write_literal(2, 3);
    enc.write_bool(128, false);
    enc.write_literal(1, 2);
    enc.write_literal(8, 7);
    for _ in 0..5 {
        enc.write_bool(128, false);
    }

    enc.write_bool(128, false);
    enc.write_bool(128, true);
    enc.write_literal(2, 2);

    enc.write_bool(128, true);
    enc.write_bool(128, false);
    enc.write_bool(128, false);
    enc.write_bool(128, true);
    enc.write_empty_token_prob_update();
    enc.write_bool(128, true);
    enc.write_literal(200, 8);
    let buf = enc.finish();

    let hdr = Vp8CodedHeader::parse(&buf, false).unwrap();
    assert_eq!(hdr.color_space, None);
    assert_eq!(hdr.clamping_type, None);
    assert_eq!(hdr.loop_filter_level, 10);
    assert_eq!(hdr.sharpness_level, 2);
    assert_eq!(hdr.nbr_of_dct_partitions, 2);
    assert_eq!(hdr.refresh_golden_frame, Some(false));
    assert_eq!(hdr.refresh_alternate_frame, Some(true));
    assert_eq!(hdr.copy_buffer_to_golden, Some(2));
    assert_eq!(hdr.copy_buffer_to_alternate, None);
    assert_eq!(hdr.sign_bias_golden, Some(true));
    assert_eq!(hdr.sign_bias_alternate, Some(false));
    assert!(!hdr.refresh_entropy_probs);
    assert_eq!(hdr.refresh_last, Some(true));
    assert!(hdr.mb_no_skip_coeff);
    assert_eq!(hdr.prob_skip_false, Some(200));
}

#[test]
fn mb_no_skip_coeff_false_omits_prob_skip_false() {
    let buf = build_minimal_key_frame();
    let hdr = Vp8CodedHeader::parse(&buf, true).unwrap();
    assert!(!hdr.mb_no_skip_coeff);
    assert_eq!(hdr.prob_skip_false, None);
}

#[test]
fn input_too_short_surfaces_bool_decoder_error() {
    let err = Vp8CodedHeader::parse(&[], true).unwrap_err();
    assert!(matches!(
        err,
        CodedHeaderError::BoolDecoder(BoolDecoderError::InputTooShort)
    ));

    let err = Vp8CodedHeader::parse(&[0x00], true).unwrap_err();
    assert!(matches!(
        err,
        CodedHeaderError::BoolDecoder(BoolDecoderError::InputTooShort)
    ));
}

#[test]
fn parses_real_tiny_fixture_partition() {
    let partition: [u8; 23] = [
        0x00, 0x47, 0x08, 0x85, 0x85, 0x88, 0x85, 0x84, 0x88, 0x02, 0x02, 0x02, 0x75, 0xaa,
        0x03, 0xf8, 0x03, 0xfa, 0x02, 0x0d, 0x4d, 0x18, 0x00,
    ];
    let hdr = Vp8CodedHeader::parse(&partition, true).unwrap();

    assert!(hdr.color_space.is_some());
    assert!(hdr.clamping_type.is_some());
    assert!(!hdr.segmentation_enabled);
    assert!(!hdr.filter_type);
    assert_eq!(hdr.loop_filter_level, 1);
    assert_eq!(hdr.sharpness_level, 0);
    assert!(hdr.mb_lf_adjustments.loop_filter_adj_enable);
    assert_eq!(
        hdr.log2_nbr_of_dct_partitions, 0
    );
    assert_eq!(hdr.nbr_of_dct_partitions, 1);
    assert_eq!(hdr.quant_indices.y_ac_qi, 4);
    assert_eq!(hdr.quant_indices.y_dc_delta, None);
    assert_eq!(hdr.quant_indices.y2_dc_delta, None);
    assert_eq!(hdr.quant_indices.y2_ac_delta, None);
    assert_eq!(hdr.quant_indices.uv_dc_delta, None);
    assert_eq!(hdr.quant_indices.uv_ac_delta, None);
    assert!(hdr.refresh_entropy_probs);
    assert!(hdr.mb_no_skip_coeff);
    assert_eq!(hdr.prob_skip_false, Some(255));
}
