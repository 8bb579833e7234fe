//! Temporal noise reduction.
use oxideav_vp8::arnr::{build_arnr_altref, ArnrConfig};
use oxideav_vp8::encode_error::EncodeError;
use oxideav_vp8::i420::I420Frame;

const W: usize = 48;
const H: usize = 48;

struct Lcg(u64);
impl Lcg {
    fn next(&mut self) -> u64 {
        self.0 = self.0.wrapping_mul(6364136223846793005).wrapping_add(1);
        self.0 >> 33
    }
    fn noise(&mut self, amp: i32) -> i32 {
        (self.next() % (2 * amp as u64 + 1)) as i32 - amp
    }
}

fn clean_scene() -> (Vec<u8>, Vec<u8>, Vec<u8>) {
    let mut y = vec![0u8; W * H];
    for r in 0..H {
        for c in 0..W {
            y[r * W + c] = (64 + ((r * 3 + c * 2) & 0x7f)) as u8;
        }
    }
    let (cw, ch) = (W / 2, H / 2);
    let u = vec![120u8; cw * ch];
    let v = vec![136u8; cw * ch];
    (y, u, v)
}

fn noisy(plane: &[u8], seed: u64, amp: i32) -> Vec<u8> {
    let mut rng = Lcg(seed);
    plane
        .iter()
        .map(|&p| (p as i32 + rng.noise(amp)).clamp(0, 255) as u8)
        .collect()
}

fn mse(a: &[u8], b: &[u8]) -> f64 {
    assert_eq!(a.len(), b.len());
    let sse: u64 = a
        .iter()
        .zip(b.iter())
        .map(|(&x, &y)| {
            let d = x as i64 - y as i64;
            (d * d) as u64
        })
        .sum();
    sse as f64 / a.len() as f64
}

#[test]
fn strength_zero_and_single_frame_are_identity() {
    let (y, u, v) = clean_scene();
    let f = I420Frame::packed(W as u32, H as u32, &y, &u, &v);
    let frames = [f];
    let out = build_arnr_altref(&frames, 0, &ArnrConfig::default()).unwrap();
    assert_eq!(out.y, y);
    assert_eq!(out.u, u);
    assert_eq!(out.v, v);

    let ny = noisy(&y, 7, 6);
    let f0 = I420Frame::packed(W as u32, H as u32, &ny, &u, &v);
    let f1 = I420Frame::packed(W as u32, H as u32, &y, &u, &v);
    let frames = [f0, f1];
    let out = build_arnr_altref(&frames, 0, &ArnrConfig::new(0)).unwrap();
    assert_eq!(out.y, ny, "strength 0 must be a pass-through");
}

#[test]
fn static_noisy_window_denoises_toward_the_clean_scene() {
    let (cy, cu, cv) = clean_scene();
    let noisy_planes: Vec<Vec<u8>> = (0..5).map(|i| noisy(&cy, 1000 + i, 6)).collect();
    let frames: Vec<I420Frame<'_>> = noisy_planes
        .iter()
        .map(|ny| I420Frame::packed(W as u32, H as u32, ny, &cu, &cv))
        .collect();
    let out = build_arnr_altref(&frames, 2, &ArnrConfig::default()).unwrap();
    let center_mse = mse(&noisy_planes[2], &cy);
    let filtered_mse = mse(&out.y, &cy);
    assert!(
        filtered_mse < center_mse / 2.0,
        "temporal blend must denoise: center {center_mse:.2} vs filtered {filtered_mse:.2}"
    );
}

#[test]
fn motion_compensation_tracks_a_translating_scene() {
    let (cy, cu, cv) = clean_scene();
    let mut planes: Vec<Vec<u8>> = Vec::new();
    for i in 0..3i32 {
        let dx = (i - 1) * 4;
        let mut y = vec![0u8; W * H];
        for r in 0..H {
            for c in 0..W {
                let sc = (c as i32 - dx).clamp(0, W as i32 - 1) as usize;
                y[r * W + c] = cy[r * W + sc];
            }
        }
        planes.push(noisy(&y, 2000 + i as u64, 6));
    }
    let frames: Vec<I420Frame<'_>> = planes
        .iter()
        .map(|p| I420Frame::packed(W as u32, H as u32, p, &cu, &cv))
        .collect();
    let out = build_arnr_altref(&frames, 1, &ArnrConfig::default()).unwrap();
    let center_mse = mse(&planes[1], &cy);
    let filtered_mse = mse(&out.y, &cy);
    assert!(
        filtered_mse < center_mse,
        "MC blend must denoise a translating scene: center {center_mse:.2} vs filtered {filtered_mse:.2}"
    );
}

#[test]
fn scene_change_neighbour_is_excluded() {
    let (cy, cu, cv) = clean_scene();
    let alien: Vec<u8> = cy.iter().map(|&p| 255 - p).collect();
    let f0 = I420Frame::packed(W as u32, H as u32, &cy, &cu, &cv);
    let f1 = I420Frame::packed(W as u32, H as u32, &alien, &cu, &cv);
    let frames = [f0, f1];
    let out = build_arnr_altref(&frames, 0, &ArnrConfig::new(6)).unwrap();
    assert_eq!(out.y, cy, "an unmatchable neighbour must not bleed in");
}

#[test]
fn dimension_mismatch_is_rejected() {
    let (cy, cu, cv) = clean_scene();
    let f0 = I420Frame::packed(W as u32, H as u32, &cy, &cu, &cv);
    let small_y = vec![0u8; 32 * 32];
    let small_c = vec![128u8; 16 * 16];
    let f1 = I420Frame::packed(32, 32, &small_y, &small_c, &small_c);
    let err = build_arnr_altref(&[f0, f1], 0, &ArnrConfig::default()).unwrap_err();
    assert!(matches!(
        err,
        EncodeError::ReferenceDimensionsMismatch { .. }
    ));
}

#[test]
fn config_clamps_strength() {
    assert_eq!(ArnrConfig::new(99).strength, ArnrConfig::MAX_STRENGTH);
    assert_eq!(ArnrConfig::new(2).strength, 2);
}
