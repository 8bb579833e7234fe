//! Whole-pixel motion compensation.
use oxideav_vp8::bool_decoder::BoolDecoder;
use oxideav_vp8::inverse_transform::{inverse_dct_4x4, inverse_wht_4x4};
use oxideav_vp8::motion_comp::{
    apply_full_pixel, avg, chroma_mv, fetch_block_whole_pixel, predict_inter_mb_whole_pixel,
    reconstruct_inter_mb_whole_pixel, select_ref_frame, stored_luma_mv,
    whole_pixel_fraction_is_zero, MotionCompError, RefFrame, ReferencePlanes,
};
use oxideav_vp8::mv::Mv;

struct BoolEncoder {
    out: Vec<u8>,
    range: u32,
    bottom: u32,
    bit_count: i32,
}

impl BoolEncoder {
    fn new() -> Self {
        BoolEncoder {
            out: Vec::new(),
            range: 255,
            bottom: 0,
            bit_count: 24,
        }
    }

    fn write_bool(&mut self, prob: u8, val: bool) {
        let split = 1 + (((self.range - 1) * prob as u32) >> 8);
        if val {
            self.bottom = self.bottom.wrapping_add(split);
            self.range -= split;
        } else {
            self.range = split;
        }
        while self.range < 128 {
            self.range <<= 1;
            if (self.bottom >> 31) & 1 == 1 {
                let mut i = self.out.len();
                while i > 0 {
                    i -= 1;
                    if self.out[i] == 255 {
                        self.out[i] = 0;
                    } else {
                        self.out[i] = self.out[i].wrapping_add(1);
                        break;
                    }
                }
            }
            self.bottom <<= 1;
            self.bit_count -= 1;
            if self.bit_count == 0 {
                let byte = (self.bottom >> 24) as u8;
                self.out.push(byte);
                self.bottom &= (1 << 24) - 1;
                self.bit_count = 8;
            }
        }
    }

    fn finish(mut self) -> Vec<u8> {
        let c = self.bit_count;
        let v = self.bottom;
        if v & (1u32 << (32 - c)) != 0 {
            let mut i = self.out.len();
            while i > 0 {
                i -= 1;
                if self.out[i] == 255 {
                    self.out[i] = 0;
                } else {
                    self.out[i] = self.out[i].wrapping_add(1);
                    break;
                }
            }
        }
        let mut v = v;
        v <<= c & 7;
        let mut c_shift = c >> 3;
        while c_shift > 0 {
            v <<= 8;
            c_shift -= 1;
        }
        for _ in 0..4 {
            self.out.push((v >> 24) as u8);
            v <<= 8;
        }
        while self.out.len() < 2 {
            self.out.push(0);
        }
        self.out
    }
}

#[test]
fn ref_frame_last_reads_single_zero() {
    let mut enc = BoolEncoder::new();
    enc.write_bool(128, false);
    let bytes = enc.finish();
    let mut dec = BoolDecoder::init(&bytes).unwrap();
    assert_eq!(
        select_ref_frame(&mut dec, 128, 128).unwrap(),
        RefFrame::Last
    );
}

#[test]
fn ref_frame_golden_reads_one_then_zero() {
    let mut enc = BoolEncoder::new();
    enc.write_bool(128, true);
    enc.write_bool(128, false);
    let bytes = enc.finish();
    let mut dec = BoolDecoder::init(&bytes).unwrap();
    assert_eq!(
        select_ref_frame(&mut dec, 128, 128).unwrap(),
        RefFrame::Golden
    );
}

#[test]
fn ref_frame_altref_reads_one_then_one() {
    let mut enc = BoolEncoder::new();
    enc.write_bool(128, true);
    enc.write_bool(128, true);
    let bytes = enc.finish();
    let mut dec = BoolDecoder::init(&bytes).unwrap();
    assert_eq!(
        select_ref_frame(&mut dec, 128, 128).unwrap(),
        RefFrame::AltRef
    );
}

#[test]
fn ref_frame_uses_distinct_probs() {
    let mut enc = BoolEncoder::new();
    enc.write_bool(30, true);
    enc.write_bool(200, false);
    let bytes = enc.finish();
    let mut dec = BoolDecoder::init(&bytes).unwrap();
    assert_eq!(
        select_ref_frame(&mut dec, 30, 200).unwrap(),
        RefFrame::Golden
    );
}

#[test]
fn stored_luma_doubles_each_component() {
    assert_eq!(
        stored_luma_mv(Mv { row: 3, col: -5 }),
        Mv { row: 6, col: -10 }
    );

    assert_eq!(
        stored_luma_mv(Mv {
            row: 1023,
            col: -1023
        }),
        Mv {
            row: 2046,
            col: -2046
        }
    );
}

#[test]
fn avg_matches_spec_formula() {
    assert_eq!(avg(8, 8, 8, 8), (32 + 4) >> 3);
    assert_eq!(avg(1, 1, 1, 1), (4 + 4) >> 3);
    assert_eq!(avg(0, 0, 0, 0), 0);

    assert_eq!(avg(-8, -8, -8, -8), -((32 + 4) >> 3));
    assert_eq!(avg(-1, -1, -1, -1), -((4 + 4) >> 3));

    assert_eq!(avg(5, -5, 3, -3), 0);
}

#[test]
fn chroma_mv_of_repeated_vector_is_quarter() {
    let ymv = stored_luma_mv(Mv { row: 3, col: -5 });
    let uvmv = chroma_mv(ymv);
    assert_eq!(uvmv.row, ((6 * 4 + 4) >> 3) as i16);
    assert_eq!(uvmv.col, -(((10 * 4 + 4) >> 3) as i16));
}

#[test]
fn chroma_mv_matches_reference_closed_form() {
    fn ref_form(c: i32) -> i32 {
        (c + 1 + (c >> 31) * 2) / 2
    }
    for &c in &[0i32, 2, 6, 10, 14, 100, -2, -6, -10, -14, -100, 2046, -2046] {
        let mv = Mv {
            row: c as i16,
            col: c as i16,
        };
        let got = chroma_mv(mv);
        assert_eq!(got.row as i32, ref_form(c), "row c={c}");
        assert_eq!(got.col as i32, ref_form(c), "col c={c}");
    }
}

#[test]
fn full_pixel_truncation_clears_low_three_bits() {
    assert_eq!(
        apply_full_pixel(Mv { row: 13, col: 9 }),
        Mv { row: 8, col: 8 }
    );
    assert_eq!(
        apply_full_pixel(Mv { row: 16, col: 24 }),
        Mv { row: 16, col: 24 }
    );

    assert_eq!(apply_full_pixel(Mv { row: -1, col: -9 }).row, -8);
    assert_eq!(apply_full_pixel(Mv { row: -1, col: -9 }).col, -16);
}

#[test]
fn whole_pixel_test_detects_fraction() {
    assert!(whole_pixel_fraction_is_zero(Mv { row: 16, col: -8 }));
    assert!(whole_pixel_fraction_is_zero(Mv { row: 0, col: 0 }));
    assert!(!whole_pixel_fraction_is_zero(Mv { row: 1, col: 0 }));
    assert!(!whole_pixel_fraction_is_zero(Mv { row: 0, col: 3 }));
    assert!(!whole_pixel_fraction_is_zero(Mv { row: -1, col: 0 }));
}

fn ramp_plane(w: usize, h: usize) -> Vec<u8> {
    (0..w * h).map(|i| (i % 256) as u8).collect()
}

#[test]
fn fetch_zero_mv_copies_in_place() {
    let w = 8;
    let h = 8;
    let plane = ramp_plane(w, h);

    let blk = fetch_block_whole_pixel(&plane, w, w, h, 0, 0, Mv { row: 0, col: 0 });
    let mut expect = [0u8; 16];
    for r in 0..4 {
        for c in 0..4 {
            expect[r * 4 + c] = plane[r * w + c];
        }
    }
    assert_eq!(blk, expect);
}

#[test]
fn fetch_whole_pixel_offset_shifts_origin() {
    let w = 8;
    let h = 8;
    let plane = ramp_plane(w, h);

    let blk = fetch_block_whole_pixel(&plane, w, w, h, 0, 0, Mv { row: 8, col: 16 });
    let mut expect = [0u8; 16];
    for r in 0..4 {
        for c in 0..4 {
            expect[r * 4 + c] = plane[(1 + r) * w + (2 + c)];
        }
    }
    assert_eq!(blk, expect);
}

#[test]
fn fetch_left_edge_replicates_first_column() {
    let w = 8;
    let h = 8;
    let plane = ramp_plane(w, h);

    let blk = fetch_block_whole_pixel(&plane, w, w, h, 0, 0, Mv { row: 0, col: -64 });
    for r in 0..4 {
        for c in 0..4 {
            assert_eq!(blk[r * 4 + c], plane[r * w], "row {r} col {c}");
        }
    }
}

#[test]
fn fetch_top_edge_replicates_first_row() {
    let w = 8;
    let h = 8;
    let plane = ramp_plane(w, h);

    let blk = fetch_block_whole_pixel(&plane, w, w, h, 0, 0, Mv { row: -64, col: 0 });
    for r in 0..4 {
        for c in 0..4 {
            assert_eq!(blk[r * 4 + c], plane[c], "row {r} col {c}");
        }
    }
}

#[test]
fn fetch_bottom_right_corner_replicates() {
    let w = 8;
    let h = 8;
    let plane = ramp_plane(w, h);

    let blk = fetch_block_whole_pixel(&plane, w, w, h, 4, 4, Mv { row: 64, col: 64 });
    let corner = plane[(h - 1) * w + (w - 1)];
    for px in blk {
        assert_eq!(px, corner);
    }
}

fn build_reference(mb_cols: usize, mb_rows: usize) -> (Vec<u8>, Vec<u8>, Vec<u8>) {
    let lw = mb_cols * 16;
    let lh = mb_rows * 16;
    let cw = mb_cols * 8;
    let ch = mb_rows * 8;
    let y = (0..lw * lh).map(|i| (i % 251) as u8).collect();
    let u = (0..cw * ch).map(|i| ((i * 3 + 1) % 251) as u8).collect();
    let v = (0..cw * ch).map(|i| ((i * 7 + 2) % 251) as u8).collect();
    (y, u, v)
}

#[test]
fn predict_zero_mv_copies_corresponding_mb() {
    let (y, u, v) = build_reference(2, 2);
    let reference = ReferencePlanes {
        y: &y,
        u: &u,
        v: &v,
        y_stride: 32,
        uv_stride: 16,
        mb_cols: 2,
        mb_rows: 2,
    };

    let pred =
        predict_inter_mb_whole_pixel(&reference, 1, 1, Mv { row: 0, col: 0 }, false).unwrap();

    for r in 0..16 {
        for c in 0..16 {
            let ref_px = y[(16 + r) * 32 + (16 + c)];
            assert_eq!(pred.y[r * 16 + c], ref_px, "luma ({r},{c})");
        }
    }
    for r in 0..8 {
        for c in 0..8 {
            let ru = u[(8 + r) * 16 + (8 + c)];
            let rv = v[(8 + r) * 16 + (8 + c)];
            assert_eq!(pred.u[r * 8 + c], ru, "u ({r},{c})");
            assert_eq!(pred.v[r * 8 + c], rv, "v ({r},{c})");
        }
    }
}

#[test]
fn predict_whole_pixel_offset_shifts_source() {
    let (y, u, v) = build_reference(3, 3);
    let reference = ReferencePlanes {
        y: &y,
        u: &u,
        v: &v,
        y_stride: 48,
        uv_stride: 24,
        mb_cols: 3,
        mb_rows: 3,
    };
    let mv = Mv { row: 8, col: 16 };
    let pred = predict_inter_mb_whole_pixel(&reference, 1, 1, mv, false).unwrap();

    for r in 0..16 {
        for c in 0..16 {
            let ref_px = y[(16 + 2 + r) * 48 + (16 + 4 + c)];
            assert_eq!(pred.y[r * 16 + c], ref_px, "luma ({r},{c})");
        }
    }

    for r in 0..8 {
        for c in 0..8 {
            let ru = u[(8 + 1 + r) * 24 + (8 + 2 + c)];
            let rv = v[(8 + 1 + r) * 24 + (8 + 2 + c)];
            assert_eq!(pred.u[r * 8 + c], ru, "u ({r},{c})");
            assert_eq!(pred.v[r * 8 + c], rv, "v ({r},{c})");
        }
    }
}

#[test]
fn predict_sub_pixel_vector_rejected() {
    let (y, u, v) = build_reference(1, 1);
    let reference = ReferencePlanes {
        y: &y,
        u: &u,
        v: &v,
        y_stride: 16,
        uv_stride: 8,
        mb_cols: 1,
        mb_rows: 1,
    };
    assert_eq!(
        predict_inter_mb_whole_pixel(&reference, 0, 0, Mv { row: 1, col: 0 }, false),
        Err(MotionCompError::SubPixelNotSupported)
    );
}

#[test]
fn predict_chroma_sub_pixel_vector_rejected() {
    let (y, u, v) = build_reference(1, 1);
    let reference = ReferencePlanes {
        y: &y,
        u: &u,
        v: &v,
        y_stride: 16,
        uv_stride: 8,
        mb_cols: 1,
        mb_rows: 1,
    };
    assert_eq!(
        predict_inter_mb_whole_pixel(&reference, 0, 0, Mv { row: 4, col: 0 }, false),
        Err(MotionCompError::SubPixelNotSupported)
    );
}

#[test]
fn predict_full_pixel_version_truncates_to_whole() {
    let (y, u, v) = build_reference(2, 2);
    let reference = ReferencePlanes {
        y: &y,
        u: &u,
        v: &v,
        y_stride: 32,
        uv_stride: 16,
        mb_cols: 2,
        mb_rows: 2,
    };
    let pred =
        predict_inter_mb_whole_pixel(&reference, 0, 0, Mv { row: 4, col: 0 }, true).unwrap();

    for sb in 0..4 {
        for sc in 0..4 {
            let blk =
                fetch_block_whole_pixel(&y, 32, 32, 32, sc * 4, sb * 4, Mv { row: 8, col: 0 });
            for r in 0..4 {
                for c in 0..4 {
                    let pr = sb * 4 + r;
                    let pc = sc * 4 + c;
                    assert_eq!(pred.y[pr * 16 + pc], blk[r * 4 + c], "luma ({pr},{pc})");
                }
            }
        }
    }

    for r in 0..8 {
        for c in 0..8 {
            assert_eq!(pred.u[r * 8 + c], u[r * 16 + c], "u ({r},{c})");
        }
    }
}

#[test]
fn reconstruct_skip_equals_prediction() {
    let (y, u, v) = build_reference(2, 2);
    let reference = ReferencePlanes {
        y: &y,
        u: &u,
        v: &v,
        y_stride: 32,
        uv_stride: 16,
        mb_cols: 2,
        mb_rows: 2,
    };
    let mv = Mv { row: 0, col: 0 };
    let pred = predict_inter_mb_whole_pixel(&reference, 1, 0, mv, false).unwrap();
    let recon = reconstruct_inter_mb_whole_pixel(
        &reference,
        1,
        0,
        mv,
        false,
        true,
        &[0i16; 16],
        &[[0i16; 16]; 16],
        &[[0i16; 16]; 4],
        &[[0i16; 16]; 4],
    )
    .unwrap();
    assert_eq!(recon, pred);
}

#[test]
fn reconstruct_adds_dc_residue() {
    let (y, u, v) = build_reference(1, 1);
    let reference = ReferencePlanes {
        y: &y,
        u: &u,
        v: &v,
        y_stride: 16,
        uv_stride: 8,
        mb_cols: 1,
        mb_rows: 1,
    };
    let mv = Mv { row: 0, col: 0 };
    let pred = predict_inter_mb_whole_pixel(&reference, 0, 0, mv, false).unwrap();

    let mut y2 = [0i16; 16];
    y2[0] = 64;
    let recon = reconstruct_inter_mb_whole_pixel(
        &reference,
        0,
        0,
        mv,
        false,
        false,
        &y2,
        &[[0i16; 16]; 16],
        &[[0i16; 16]; 4],
        &[[0i16; 16]; 4],
    )
    .unwrap();

    let mut y2_residue = [0i16; 16];
    inverse_wht_4x4(&y2, &mut y2_residue);

    let sub_dc = y2_residue[0];
    let mut residue = [0i16; 16];
    let mut coeffs = [0i16; 16];
    coeffs[0] = sub_dc;
    inverse_dct_4x4(&coeffs, &mut residue);
    let delta = residue[0];

    assert_eq!(recon.u, pred.u);
    assert_eq!(recon.v, pred.v);

    for i in 0..256 {
        let expect = (pred.y[i] as i32 + delta as i32).clamp(0, 255) as u8;
        assert_eq!(recon.y[i], expect, "luma px {i}");
    }

    assert_ne!(delta, 0);
}

#[test]
fn reconstruct_sub_pixel_vector_rejected() {
    let (y, u, v) = build_reference(1, 1);
    let reference = ReferencePlanes {
        y: &y,
        u: &u,
        v: &v,
        y_stride: 16,
        uv_stride: 8,
        mb_cols: 1,
        mb_rows: 1,
    };
    assert_eq!(
        reconstruct_inter_mb_whole_pixel(
            &reference,
            0,
            0,
            Mv { row: 1, col: 0 },
            false,
            true,
            &[0i16; 16],
            &[[0i16; 16]; 16],
            &[[0i16; 16]; 4],
            &[[0i16; 16]; 4],
        ),
        Err(MotionCompError::SubPixelNotSupported)
    );
}
