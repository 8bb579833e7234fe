//! Forward transforms and the scan order.
use oxideav_vp8::forward_transform::{forward_dct_4x4, forward_wht_4x4, raster_to_scan};
use oxideav_vp8::inverse_transform::{inverse_dct_4x4, inverse_wht_4x4};
use oxideav_vp8::tables::ZIGZAG;

#[test]
fn fwht_uniform_block_concentrates_to_dc() {
    for v in [1i16, 2, 5, 8, 16, 64, 100] {
        let input = [v; 16];
        let mut out = [0i16; 16];
        forward_wht_4x4(&input, &mut out);

        assert_eq!(out[0], 8 * v, "fwht uniform v={v} DC");
        for (i, &c) in out.iter().enumerate().skip(1) {
            assert_eq!(c, 0, "fwht uniform v={v} non-DC pos {i}");
        }
    }
}

#[test]
fn fdct_uniform_block_concentrates_to_dc() {
    for v in [1i16, 2, 5, 8, 16, 64, 100] {
        let input = [v; 16];
        let mut out = [0i16; 16];
        forward_dct_4x4(&input, &mut out);
        assert_eq!(out[0], 8 * v, "fdct uniform v={v} DC");
        for (i, &c) in out.iter().enumerate().skip(1) {
            assert_eq!(c, 0, "fdct uniform v={v} non-DC pos {i}");
        }
    }
}

#[test]
fn fwht_iwht_roundtrip_uniform_block() {
    for v in [0i16, 1, 2, 3, 5, 8, 16, 32, 64, 100] {
        let input = [v; 16];
        let mut coeffs = [0i16; 16];
        forward_wht_4x4(&input, &mut coeffs);
        let mut recovered = [0i16; 16];
        inverse_wht_4x4(&coeffs, &mut recovered);
        assert_eq!(recovered, input, "iwht(fwht(uniform={v})) lost");
    }
}

#[test]
fn fdct_idct_roundtrip_uniform_block() {
    for v in [0i16, 1, 2, 3, 5, 8, 16, 32, 64, 100] {
        let input = [v; 16];
        let mut coeffs = [0i16; 16];
        forward_dct_4x4(&input, &mut coeffs);
        let mut recovered = [0i16; 16];
        inverse_dct_4x4(&coeffs, &mut recovered);
        assert_eq!(recovered, input, "idct(fdct(uniform={v})) lost");
    }
}

#[test]
fn forward_transforms_of_zero_are_zero() {
    let input = [0i16; 16];
    let mut out = [0i16; 16];
    forward_wht_4x4(&input, &mut out);
    assert_eq!(out, [0i16; 16]);
    let mut out2 = [0i16; 16];
    forward_dct_4x4(&input, &mut out2);
    assert_eq!(out2, [0i16; 16]);
}

#[test]
fn raster_to_scan_is_zigzag_inverse() {
    let mut raster = [0i16; 16];
    for (i, slot) in raster.iter_mut().enumerate() {
        *slot = (i as i16) + 1;
    }
    let scan = raster_to_scan(&raster);

    let mut back = [0i16; 16];
    for (c, &v) in scan.iter().enumerate() {
        back[ZIGZAG[c]] = v;
    }
    assert_eq!(back, raster);
}

#[test]
fn fdct_idct_roundtrip_gradient_block() {
    let mut input = [0i16; 16];
    for row in 0..4 {
        for col in 0..4 {
            input[row * 4 + col] = (row as i16) * 8;
        }
    }
    let mut coeffs = [0i16; 16];
    forward_dct_4x4(&input, &mut coeffs);

    assert_ne!(coeffs[4], 0, "column-gradient AC[4] must be non-zero");
    assert_eq!(
        coeffs[1], 0,
        "column-gradient AC[1] (horizontal) must be zero"
    );

    let mut recovered = [0i16; 16];
    inverse_dct_4x4(&coeffs, &mut recovered);

    for (i, (&a, &b)) in input.iter().zip(recovered.iter()).enumerate() {
        assert!(
            (a - b).abs() <= 1,
            "pos {i}: fdct/idct lost more than 1 LSB ({a} vs {b})"
        );
    }
}

#[test]
fn fdct_idct_random_small_inputs_have_bounded_error() {
    let mut state: u32 = 0xDEAD_BEEF;
    let mut next = || {
        state = state.wrapping_mul(1_103_515_245).wrapping_add(12345);
        state
    };
    for trial in 0..32 {
        let mut input = [0i16; 16];
        for slot in input.iter_mut() {
            let r = (next() >> 16) as i32;
            *slot = (r % 129 - 64) as i16;
        }
        let mut coeffs = [0i16; 16];
        forward_dct_4x4(&input, &mut coeffs);
        let mut recovered = [0i16; 16];
        inverse_dct_4x4(&coeffs, &mut recovered);

        for (i, (&a, &b)) in input.iter().zip(recovered.iter()).enumerate() {
            assert!(
                (a - b).abs() <= 2,
                "trial {trial} pos {i}: error {} ({a} vs {b}) exceeds 2 LSB",
                (a - b).abs()
            );
        }
    }
}
