//! Forward transforms in 32 bits.
use oxideav_vp8::fdct::{fdct4x4, fwht4x4};
use oxideav_vp8::transform::{idct4x4, iwht4x4};

#[test]
fn fdct_then_idct_recovers_constant() {
    let x = [5i32; 16];
    let coeffs = fdct4x4(&x);
    let mut c16 = [0i16; 16];
    for i in 0..16 {
        c16[i] = coeffs[i] as i16;
    }
    let out = idct4x4(&c16);
    for &v in &out {
        assert!(
            (v as i32 - 5).abs() <= 1,
            "expected ~5, got {v}, coeffs={:?}",
            coeffs
        );
    }
}

#[test]
fn fdct_then_idct_recovers_step() {
    let mut x = [0i32; 16];
    for i in 0..16 {
        x[i] = i as i32;
    }
    let coeffs = fdct4x4(&x);
    let mut c16 = [0i16; 16];
    for i in 0..16 {
        c16[i] = coeffs[i] as i16;
    }
    let out = idct4x4(&c16);

    let mut max = 0;
    for i in 0..16 {
        let d = (out[i] as i32 - x[i]).abs();
        if d > max {
            max = d;
        }
    }
    assert!(max <= 2, "round-trip error too large: {max}");
}

#[test]
fn fwht_then_iwht_recovers() {
    let mut x = [0i32; 16];
    for i in 0..16 {
        x[i] = (i as i32) * 4 - 16;
    }
    let coeffs = fwht4x4(&x);
    let mut c16 = [0i16; 16];
    for i in 0..16 {
        c16[i] = coeffs[i] as i16;
    }
    let out = iwht4x4(&c16);
    let mut max = 0;
    for i in 0..16 {
        let d = (out[i] as i32 - x[i]).abs();
        if d > max {
            max = d;
        }
    }
    assert!(max <= 2, "WHT round-trip error too large: {max}");
}
