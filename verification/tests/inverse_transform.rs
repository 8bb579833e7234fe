//! Dequantization and inverse transforms.
use oxideav_vp8::inverse_transform::{
    add_residue, add_residue_4x4, clamp255, clamp_qindex, dequant_block, inverse_dct_4x4,
    inverse_wht_4x4, inverse_wht_4x4_dc_only, Y1DequantFactors, AC_QLOOKUP, DC_QLOOKUP,
    QINDEX_RANGE,
};

const SINPI8_SQRT2: i32 = 35468;
const COSPI8_SQRT2_MINUS1: i32 = 20091;

#[test]
fn qlookup_tables_have_full_range() {
    assert_eq!(DC_QLOOKUP.len(), QINDEX_RANGE);
    assert_eq!(AC_QLOOKUP.len(), QINDEX_RANGE);
}

#[test]
fn qlookup_spot_checks_match_spec() {
    assert_eq!(DC_QLOOKUP[0], 4);
    assert_eq!(DC_QLOOKUP[127], 157);
    assert_eq!(AC_QLOOKUP[0], 4);
    assert_eq!(AC_QLOOKUP[127], 284);

    assert_eq!(DC_QLOOKUP[6], 10);
    assert_eq!(DC_QLOOKUP[7], 10);
    assert_eq!(AC_QLOOKUP[6], 10);
    assert_eq!(AC_QLOOKUP[7], 11);

    assert_eq!(AC_QLOOKUP[52], 56);
    assert_eq!(AC_QLOOKUP[54], 58);
    assert_eq!(AC_QLOOKUP[55], 60);
}

#[test]
fn qindex_clamp_saturates_both_ends() {
    assert_eq!(clamp_qindex(-5), 0);
    assert_eq!(clamp_qindex(0), 0);
    assert_eq!(clamp_qindex(63), 63);
    assert_eq!(clamp_qindex(127), 127);
    assert_eq!(clamp_qindex(200), 127);
}

#[test]
fn y1_factors_use_dc_lookup_for_dc_ac_lookup_for_ac() {
    let f = Y1DequantFactors::from_indices(20, 3);
    assert_eq!(f.dc, DC_QLOOKUP[23]);
    assert_eq!(f.ac, AC_QLOOKUP[20]);

    let f2 = Y1DequantFactors::from_indices(2, -10);
    assert_eq!(f2.dc, DC_QLOOKUP[0]);
    assert_eq!(f2.ac, AC_QLOOKUP[2]);

    let f3 = Y1DequantFactors::from_indices(120, 50);
    assert_eq!(f3.dc, DC_QLOOKUP[127]);
    assert_eq!(f3.ac, AC_QLOOKUP[120]);
}

#[test]
fn dequant_block_scales_dc_and_ac_separately() {
    let mut c = [0i16; 16];
    c[0] = 3;
    c[1] = 2;
    c[15] = -4;
    dequant_block(&mut c, 7, 5);
    assert_eq!(c[0], 21);
    assert_eq!(c[1], 10);
    assert_eq!(c[15], -20);
}

#[test]
fn clamp255_matches_spec_definition() {
    assert_eq!(clamp255(-1), 0);
    assert_eq!(clamp255(-1000), 0);
    assert_eq!(clamp255(0), 0);
    assert_eq!(clamp255(128), 128);
    assert_eq!(clamp255(255), 255);
    assert_eq!(clamp255(256), 255);
    assert_eq!(clamp255(99999), 255);
}

#[test]
fn wht_dc_only_matches_general_path() {
    for dc in [0i16, 1, 3, 7, 8, -8, 100, -100, 1000] {
        let mut input = [0i16; 16];
        input[0] = dc;
        let mut general = [0i16; 16];
        inverse_wht_4x4(&input, &mut general);
        let mut fast = [0i16; 16];
        inverse_wht_4x4_dc_only(dc, &mut fast);
        assert_eq!(general, fast, "dc={dc}");

        let expect = (((dc as i32) + 3) >> 3) as i16;
        assert!(general.iter().all(|&v| v == expect), "dc={dc}");
    }
}

#[test]
fn wht_zero_input_is_zero_output() {
    let input = [0i16; 16];
    let mut output = [0i16; 16];
    inverse_wht_4x4(&input, &mut output);
    assert_eq!(output, [0i16; 16]);
}

#[test]
fn wht_hand_derived_two_value_input() {
    let mut input = [0i16; 16];
    input[0] = 8;
    input[4] = 8;
    let mut output = [0i16; 16];
    inverse_wht_4x4(&input, &mut output);
    let expect = [
        2, 2, 2, 2,
        2, 2, 2, 2,
        0, 0, 0, 0,
        0, 0, 0, 0,
    ];
    assert_eq!(output, expect);
}

#[test]
fn dct_zero_input_is_zero_output() {
    let input = [0i16; 16];
    let mut output = [0i16; 16];
    inverse_dct_4x4(&input, &mut output);
    assert_eq!(output, [0i16; 16]);
}

#[test]
fn dct_dc_only_is_uniform_block() {
    let mut input = [0i16; 16];
    input[0] = 8;
    let mut output = [0i16; 16];
    inverse_dct_4x4(&input, &mut output);
    assert_eq!(output, [1i16; 16]);
}

#[test]
fn dct_dc_rounding_with_larger_value() {
    let mut input = [0i16; 16];
    input[0] = 64;
    let mut output = [0i16; 16];
    inverse_dct_4x4(&input, &mut output);
    assert_eq!(output, [8i16; 16]);
}

#[test]
fn dct_first_ac_coefficient_uses_cosine_constants() {
    let mut input = [0i16; 16];
    input[1] = 100;
    let mut output = [0i16; 16];
    inverse_dct_4x4(&input, &mut output);

    let mut tmp = [0i32; 16];
    for col in 0..4 {
        let i0 = input[col] as i32;
        let i4 = input[4 + col] as i32;
        let i8 = input[8 + col] as i32;
        let i12 = input[12 + col] as i32;
        let a1 = i0 + i8;
        let b1 = i0 - i8;
        let t1 = (i4 * SINPI8_SQRT2) >> 16;
        let t2 = i12 + ((i12 * COSPI8_SQRT2_MINUS1) >> 16);
        let c1 = t1 - t2;
        let t1b = i4 + ((i4 * COSPI8_SQRT2_MINUS1) >> 16);
        let t2b = (i12 * SINPI8_SQRT2) >> 16;
        let d1 = t1b + t2b;
        tmp[col] = a1 + d1;
        tmp[12 + col] = a1 - d1;
        tmp[4 + col] = b1 + c1;
        tmp[8 + col] = b1 - c1;
    }
    let mut expect = [0i16; 16];
    for row in 0..4 {
        let base = row * 4;
        let r0 = tmp[base];
        let r1 = tmp[base + 1];
        let r2 = tmp[base + 2];
        let r3 = tmp[base + 3];
        let a1 = r0 + r2;
        let b1 = r0 - r2;
        let t1 = (r1 * SINPI8_SQRT2) >> 16;
        let t2 = r3 + ((r3 * COSPI8_SQRT2_MINUS1) >> 16);
        let c1 = t1 - t2;
        let t1b = r1 + ((r1 * COSPI8_SQRT2_MINUS1) >> 16);
        let t2b = (r3 * SINPI8_SQRT2) >> 16;
        let d1 = t1b + t2b;
        expect[base] = ((a1 + d1 + 4) >> 3) as i16;
        expect[base + 3] = ((a1 - d1 + 4) >> 3) as i16;
        expect[base + 1] = ((b1 + c1 + 4) >> 3) as i16;
        expect[base + 2] = ((b1 - c1 + 4) >> 3) as i16;
    }
    assert_eq!(output, expect);

    assert!(output.iter().any(|&v| v != output[0]));
}

#[test]
fn dct_is_separable_two_pass_roundtrip_shape() {
    let input = [
        16, 4, 0, -2,
        8, 1, 0, 0,
        -4, 0, 0, 0,
        2, 0, 0, 0,
    ];
    let mut output = [0i16; 16];
    inverse_dct_4x4(&input, &mut output);

    let mut tmp = [0i32; 16];
    for col in 0..4 {
        let i0 = input[col] as i32;
        let i4 = input[4 + col] as i32;
        let i8 = input[8 + col] as i32;
        let i12 = input[12 + col] as i32;
        let a1 = i0 + i8;
        let b1 = i0 - i8;
        let t1 = (i4 * SINPI8_SQRT2) >> 16;
        let t2 = i12 + ((i12 * COSPI8_SQRT2_MINUS1) >> 16);
        let c1 = t1 - t2;
        let t1b = i4 + ((i4 * COSPI8_SQRT2_MINUS1) >> 16);
        let t2b = (i12 * SINPI8_SQRT2) >> 16;
        let d1 = t1b + t2b;
        tmp[col] = a1 + d1;
        tmp[12 + col] = a1 - d1;
        tmp[4 + col] = b1 + c1;
        tmp[8 + col] = b1 - c1;
    }
    let mut expect = [0i16; 16];
    for row in 0..4 {
        let base = row * 4;
        let r0 = tmp[base];
        let r1 = tmp[base + 1];
        let r2 = tmp[base + 2];
        let r3 = tmp[base + 3];
        let a1 = r0 + r2;
        let b1 = r0 - r2;
        let t1 = (r1 * SINPI8_SQRT2) >> 16;
        let t2 = r3 + ((r3 * COSPI8_SQRT2_MINUS1) >> 16);
        let c1 = t1 - t2;
        let t1b = r1 + ((r1 * COSPI8_SQRT2_MINUS1) >> 16);
        let t2b = (r3 * SINPI8_SQRT2) >> 16;
        let d1 = t1b + t2b;
        expect[base] = ((a1 + d1 + 4) >> 3) as i16;
        expect[base + 3] = ((a1 - d1 + 4) >> 3) as i16;
        expect[base + 1] = ((b1 + c1 + 4) >> 3) as i16;
        expect[base + 2] = ((b1 - c1 + 4) >> 3) as i16;
    }
    assert_eq!(output, expect);
}

#[test]
fn add_residue_4x4_saturates() {
    let pred = [200u8; 16];
    let mut residue = [0i16; 16];
    residue[0] = 100;
    residue[1] = -250;
    residue[2] = 30;
    let mut out = [0u8; 16];
    add_residue_4x4(&pred, &residue, &mut out);
    assert_eq!(out[0], 255);
    assert_eq!(out[1], 0);
    assert_eq!(out[2], 230);
    assert_eq!(out[3], 200);
}

#[test]
fn add_residue_slice_matches_4x4() {
    let pred = [128u8; 64];
    let mut residue = [0i16; 64];
    residue[10] = 50;
    residue[20] = -200;
    residue[63] = 127;
    let mut out = [0u8; 64];
    add_residue(&pred, &residue, &mut out);
    assert_eq!(out[10], 178);
    assert_eq!(out[20], 0);
    assert_eq!(out[63], 255);
    assert_eq!(out[0], 128);
}

#[test]
fn add_residue_zero_residue_is_identity() {
    let pred = [37u8; 16];
    let residue = [0i16; 16];
    let mut out = [0u8; 16];
    add_residue_4x4(&pred, &residue, &mut out);
    assert_eq!(out, pred);
}
