//! Loop filter.
use oxideav_vp8::coded_header::{
    MbLfAdjustments, QuantIndices, UpdateSegmentation, Vp8CodedHeader,
};
use oxideav_vp8::frame::{KeyframePlanes, MbCoeffs};
use oxideav_vp8::loop_filter::{
    calculate_mb_filter_level, clamp_s8, common_adjust, filter_frame, mb_filter, s2u,
    simple_segment, subblock_filter, u2s, FrameFilterConfig, LoopFilterParams, MAX_MB_SEGMENTS,
};
use oxideav_vp8::macroblock::{IntraUvMode, IntraYMode, MacroblockModes};

#[test]
fn clamp_s8_saturates_both_ends() {
    assert_eq!(clamp_s8(-200), -128);
    assert_eq!(clamp_s8(-129), -128);
    assert_eq!(clamp_s8(-128), -128);
    assert_eq!(clamp_s8(-1), -1);
    assert_eq!(clamp_s8(0), 0);
    assert_eq!(clamp_s8(127), 127);
    assert_eq!(clamp_s8(128), 127);
    assert_eq!(clamp_s8(500), 127);
}

#[test]
fn u2s_s2u_round_trip_in_range() {
    for v in 0u8..=255 {
        assert_eq!(s2u(u2s(v) as i32), v, "v = {v}");
    }
}

#[test]
fn u2s_known_points() {
    assert_eq!(u2s(0), -128);
    assert_eq!(u2s(128), 0);
    assert_eq!(u2s(255), 127);
}

#[test]
fn s2u_clamps_out_of_range() {
    assert_eq!(s2u(-200), 0);
    assert_eq!(s2u(200), 255);
    assert_eq!(s2u(0), 128);
}

#[test]
fn derive_interior_limit_no_sharpness() {
    let p = LoopFilterParams::derive(30, 0, true);
    assert_eq!(p.interior_limit, 30);
    let p0 = LoopFilterParams::derive(0, 0, true);
    assert_eq!(p0.interior_limit, 1, "interior_limit floored to 1");
}

#[test]
fn derive_interior_limit_low_sharpness_shifts_by_one() {
    let p = LoopFilterParams::derive(20, 2, true);
    assert_eq!(p.interior_limit, 7);

    let p2 = LoopFilterParams::derive(10, 1, true);
    assert_eq!(p2.interior_limit, 5);
}

#[test]
fn derive_interior_limit_high_sharpness_shifts_by_two() {
    let p = LoopFilterParams::derive(40, 7, true);
    assert_eq!(p.interior_limit, 2);

    let p2 = LoopFilterParams::derive(8, 5, true);
    assert_eq!(p2.interior_limit, 2);
}

#[test]
fn derive_hev_threshold_key_frame_ladder() {
    assert_eq!(LoopFilterParams::derive(45, 0, true).hev_threshold, 2);
    assert_eq!(LoopFilterParams::derive(40, 0, true).hev_threshold, 2);
    assert_eq!(LoopFilterParams::derive(39, 0, true).hev_threshold, 1);
    assert_eq!(LoopFilterParams::derive(15, 0, true).hev_threshold, 1);
    assert_eq!(LoopFilterParams::derive(14, 0, true).hev_threshold, 0);
}

#[test]
fn derive_hev_threshold_interframe_ladder() {
    assert_eq!(LoopFilterParams::derive(45, 0, false).hev_threshold, 3);
    assert_eq!(LoopFilterParams::derive(40, 0, false).hev_threshold, 3);
    assert_eq!(LoopFilterParams::derive(39, 0, false).hev_threshold, 2);
    assert_eq!(LoopFilterParams::derive(20, 0, false).hev_threshold, 2);
    assert_eq!(LoopFilterParams::derive(19, 0, false).hev_threshold, 1);
    assert_eq!(LoopFilterParams::derive(15, 0, false).hev_threshold, 1);
    assert_eq!(LoopFilterParams::derive(14, 0, false).hev_threshold, 0);
}

#[test]
fn derive_edge_limits_formula() {
    let p = LoopFilterParams::derive(30, 0, true);
    assert_eq!(p.interior_limit, 30);
    assert_eq!(p.mbedge_limit, 94);
    assert_eq!(p.sub_bedge_limit, 90);
}

#[test]
fn derive_edge_limits_max_level_fits_u8() {
    let p = LoopFilterParams::derive(63, 0, true);
    assert_eq!(p.mbedge_limit, 193);
    assert_eq!(p.sub_bedge_limit, 189);
}

#[test]
fn simple_segment_skips_when_metric_exceeds_limit() {
    let mut seg = [10u8, 10, 200, 200];
    let before = seg;
    simple_segment(1, &mut seg, 0);
    assert_eq!(seg, before, "filter must not run when metric > limit");
}

#[test]
fn simple_segment_adjusts_small_step() {
    let mut seg = [100u8, 100, 116, 116];
    simple_segment(255, &mut seg, 0);

    assert!(seg[1] >= 100, "p0 moved toward q0");
    assert!(seg[2] <= 116, "q0 moved toward p0");
    assert!(seg[2] - seg[1] < 16, "gap reduced");

    assert_eq!(seg[0], 100);
    assert_eq!(seg[3], 116);
}

#[test]
fn common_adjust_hand_derived_no_outer_taps() {
    let mut seg = [100u8, 100, 108, 108];
    let ret = common_adjust(false, &mut seg, 0);
    assert_eq!(ret, 3, "returned a");
    assert_eq!(seg[1], 103, "P0");
    assert_eq!(seg[2], 105, "Q0");
    assert_eq!(seg[0], 100, "P1 untouched");
    assert_eq!(seg[3], 108, "Q1 untouched");
}

#[test]
fn common_adjust_outer_taps_changes_result() {
    let mut seg = [90u8, 100, 108, 120];
    let ret = common_adjust(true, &mut seg, 0);
    assert_eq!(ret, -1, "returned a");
    assert_eq!(seg[1], 99, "P0");
    assert_eq!(seg[2], 109, "Q0");
}

#[test]
fn subblock_filter_skips_when_interior_diff_too_large() {
    let mut seg = [10u8, 200, 100, 100, 108, 108, 108, 108];
    let before = seg;
    subblock_filter(0, 5, 255, &mut seg, 0);
    assert_eq!(seg, before, "interior difference disables filter");
}

#[test]
fn subblock_filter_low_hev_adjusts_inner_pixels() {
    let mut seg = [100u8, 100, 100, 100, 110, 110, 110, 110];
    let before = seg;
    subblock_filter(50, 100, 255, &mut seg, 0);

    assert!(seg[3] > before[3], "p0 raised");
    assert!(seg[4] < before[4], "q0 lowered");

    assert!(seg[2] >= before[2], "p1 nudged up");
    assert!(seg[5] <= before[5], "q1 nudged down");
}

#[test]
fn subblock_filter_high_hev_leaves_inner_pixels() {
    let mut seg = [100u8, 100, 100, 110, 120, 120, 120, 120];
    let before = seg;
    subblock_filter(0, 100, 255, &mut seg, 0);

    assert_eq!(seg[2], before[2], "p1 untouched under hev");
    assert_eq!(seg[5], before[5], "q1 untouched under hev");

    assert!(seg[3] > before[3]);
    assert!(seg[4] < before[4]);
}

#[test]
fn mb_filter_skips_when_disabled() {
    let mut seg = [10u8, 200, 100, 100, 108, 108, 108, 108];
    let before = seg;
    mb_filter(0, 5, 255, &mut seg, 0);
    assert_eq!(seg, before, "interior difference disables MB filter");
}

#[test]
fn mb_filter_low_hev_modifies_six_pixels() {
    let mut seg = [100u8, 100, 100, 100, 112, 112, 112, 112];
    let before = seg;
    mb_filter(50, 100, 255, &mut seg, 0);

    assert!(seg[3] > before[3], "p0");
    assert!(seg[4] < before[4], "q0");
    assert!(seg[2] >= before[2], "p1");
    assert!(seg[5] <= before[5], "q1");
    assert!(seg[1] >= before[1], "p2");
    assert!(seg[6] <= before[6], "q2");
    assert_eq!(seg[0], before[0], "p3 untouched");
    assert_eq!(seg[7], before[7], "q3 untouched");
}

#[test]
fn mb_filter_high_hev_falls_back_to_common_adjust() {
    let mut seg = [100u8, 100, 100, 110, 120, 120, 120, 120];
    let before = seg;
    mb_filter(0, 100, 255, &mut seg, 0);
    assert_eq!(seg[1], before[1], "p2 untouched under hev");
    assert_eq!(seg[6], before[6], "q2 untouched under hev");

    assert!(seg[3] > before[3]);
    assert!(seg[4] < before[4]);
}

#[test]
fn mb_filter_low_hev_hand_derived() {
    let mut seg = [100u8, 100, 100, 100, 116, 116, 116, 116];
    mb_filter(50, 100, 255, &mut seg, 0);
    assert_eq!(seg, [100, 102, 104, 107, 109, 112, 114, 116]);
}

#[test]
fn filter_routines_respect_base_offset() {
    let mut seg = vec![7u8; 12];
    seg[2..10].copy_from_slice(&[100, 100, 100, 100, 116, 116, 116, 116]);
    mb_filter(50, 100, 255, &mut seg, 2);

    assert_eq!(&seg[0..2], &[7, 7]);
    assert_eq!(&seg[10..12], &[7, 7]);

    assert_eq!(&seg[2..10], &[100, 102, 104, 107, 109, 112, 114, 116]);
}

fn base_config() -> FrameFilterConfig {
    FrameFilterConfig {
        simple: false,
        key_frame: true,
        loop_filter_level: 20,
        sharpness_level: 0,
        segmentation_enabled: false,
        segment_abs: false,
        segment_lf_level: [0; MAX_MB_SEGMENTS],
        delta_enabled: false,
        ref_delta_current: 0,
        bpred_mode_delta: 0,
    }
}

fn flat_planes(value: u8, mb_cols: usize, mb_rows: usize) -> KeyframePlanes {
    let y_stride = mb_cols * 16;
    let uv_stride = mb_cols * 8;
    KeyframePlanes {
        y: vec![value; y_stride * mb_rows * 16],
        u: vec![value; uv_stride * mb_rows * 8],
        v: vec![value; uv_stride * mb_rows * 8],
        y_stride,
        uv_stride,
        mb_cols,
        mb_rows,
    }
}

fn mode(y_mode: IntraYMode, segment_id: Option<u8>) -> MacroblockModes {
    MacroblockModes {
        segment_id,
        mb_skip_coeff: true,
        y_mode,
        subblock_modes: None,
        uv_mode: IntraUvMode::Dc,
    }
}

#[test]
fn mb_filter_level_no_overrides_is_base() {
    let c = base_config();
    assert_eq!(calculate_mb_filter_level(&c, None, IntraYMode::Dc), 20);

    assert_eq!(calculate_mb_filter_level(&c, Some(3), IntraYMode::Dc), 20);
}

#[test]
fn mb_filter_level_segment_delta_adds() {
    let mut c = base_config();
    c.segmentation_enabled = true;
    c.segment_abs = false;
    c.segment_lf_level = [5, -8, 0, 0];

    assert_eq!(calculate_mb_filter_level(&c, Some(0), IntraYMode::Dc), 25);

    assert_eq!(calculate_mb_filter_level(&c, Some(1), IntraYMode::Dc), 12);
}

#[test]
fn mb_filter_level_segment_absolute_replaces() {
    let mut c = base_config();
    c.segmentation_enabled = true;
    c.segment_abs = true;
    c.segment_lf_level = [40, 0, 63, 7];

    assert_eq!(calculate_mb_filter_level(&c, Some(0), IntraYMode::Dc), 40);
    assert_eq!(calculate_mb_filter_level(&c, Some(2), IntraYMode::Dc), 63);

    assert_eq!(calculate_mb_filter_level(&c, Some(1), IntraYMode::Dc), 0);
}

#[test]
fn mb_filter_level_segment_clamps_before_deltas() {
    let mut c = base_config();
    c.segmentation_enabled = true;
    c.segment_abs = false;
    c.segment_lf_level = [60, -40, 0, 0];

    assert_eq!(calculate_mb_filter_level(&c, Some(0), IntraYMode::Dc), 63);

    assert_eq!(calculate_mb_filter_level(&c, Some(1), IntraYMode::Dc), 0);
}

#[test]
fn mb_filter_level_ref_and_bpred_mode_deltas() {
    let mut c = base_config();
    c.delta_enabled = true;
    c.ref_delta_current = 4;
    c.bpred_mode_delta = -3;

    assert_eq!(calculate_mb_filter_level(&c, None, IntraYMode::Dc), 24);

    assert_eq!(calculate_mb_filter_level(&c, None, IntraYMode::B), 21);
}

#[test]
fn mb_filter_level_deltas_clamp_at_ends() {
    let mut c = base_config();
    c.loop_filter_level = 62;
    c.delta_enabled = true;
    c.ref_delta_current = 10;
    assert_eq!(calculate_mb_filter_level(&c, None, IntraYMode::Dc), 63);
    c.loop_filter_level = 2;
    c.ref_delta_current = -10;
    assert_eq!(calculate_mb_filter_level(&c, None, IntraYMode::Dc), 0);
}

#[test]
fn mb_filter_level_deltas_disabled_when_flag_off() {
    let mut c = base_config();
    c.delta_enabled = false;
    c.ref_delta_current = 30;
    c.bpred_mode_delta = 30;

    assert_eq!(calculate_mb_filter_level(&c, None, IntraYMode::B), 20);
}

#[test]
fn filter_frame_level_zero_is_noop() {
    let mut c = base_config();
    c.loop_filter_level = 0;

    let mut planes = flat_planes(100, 2, 1);
    for px in planes.y[16..32].iter_mut() {
        *px = 200;
    }
    let before = planes.clone();
    let modes = vec![mode(IntraYMode::Dc, None), mode(IntraYMode::Dc, None)];
    let coeffs = vec![MbCoeffs::default(); 2];
    filter_frame(&mut planes, &modes, &coeffs, &c);
    assert_eq!(planes, before, "level 0 must skip filtering entirely");
}

#[test]
fn filter_frame_normal_mb_edge_hand_derived() {
    let c = base_config();
    let mut planes = flat_planes(100, 2, 1);
    for r in 0..16 {
        for px in planes.y[r * 32 + 16..r * 32 + 32].iter_mut() {
            *px = 110;
        }
    }
    let before = planes.clone();
    let modes = vec![mode(IntraYMode::Dc, None), mode(IntraYMode::Dc, None)];
    let coeffs = vec![MbCoeffs::default(); 2];
    filter_frame(&mut planes, &modes, &coeffs, &c);

    for r in 0..16 {
        let row = r * 32;
        assert_eq!(planes.y[row + 13], 101, "P2 row {r}");
        assert_eq!(planes.y[row + 14], 103, "P1 row {r}");
        assert_eq!(planes.y[row + 15], 104, "P0 row {r}");
        assert_eq!(planes.y[row + 16], 106, "Q0 row {r}");
        assert_eq!(planes.y[row + 17], 107, "Q1 row {r}");
        assert_eq!(planes.y[row + 18], 109, "Q2 row {r}");

        assert_eq!(planes.y[row + 12], before.y[row + 12]);
        assert_eq!(planes.y[row + 19], before.y[row + 19]);
        assert_eq!(planes.y[row], 100);
        assert_eq!(planes.y[row + 31], 110);
    }

    assert_eq!(planes.u, before.u);
    assert_eq!(planes.v, before.v);
}

#[test]
fn filter_frame_leftmost_mb_skips_left_edge() {
    let c = base_config();
    let mut planes = flat_planes(100, 1, 2);
    for px in planes.y[16 * 16..32 * 16].iter_mut() {
        *px = 120;
    }

    for px in planes.u[8 * 8..16 * 8].iter_mut() {
        *px = 120;
    }
    for px in planes.v[8 * 8..16 * 8].iter_mut() {
        *px = 120;
    }
    let before = planes.clone();
    let modes = vec![mode(IntraYMode::Dc, None), mode(IntraYMode::Dc, None)];
    let coeffs = vec![MbCoeffs::default(); 2];
    filter_frame(&mut planes, &modes, &coeffs, &c);

    for r in 0..13 {
        for col in 0..16 {
            assert_eq!(
                planes.y[r * 16 + col],
                before.y[r * 16 + col],
                "row {r} col {col} (above horizontal edge influence) untouched"
            );
        }
    }
    for r in 19..32 {
        for col in 0..16 {
            assert_eq!(
                planes.y[r * 16 + col],
                before.y[r * 16 + col],
                "row {r} col {col} (below horizontal edge influence) untouched"
            );
        }
    }

    assert_ne!(planes.y[15 * 16], before.y[15 * 16], "P-side col0 moved");
    assert_ne!(planes.y[16 * 16], before.y[16 * 16], "Q-side col0 moved");

    assert_ne!(planes.u[7 * 8 + 3], before.u[7 * 8 + 3]);
    assert_ne!(planes.v[8 * 8 + 3], before.v[8 * 8 + 3]);
}

#[test]
fn filter_frame_simple_touches_only_luma() {
    let mut c = base_config();
    c.simple = true;
    let mut planes = flat_planes(100, 2, 1);
    for r in 0..16 {
        for px in planes.y[r * 32 + 16..r * 32 + 32].iter_mut() {
            *px = 110;
        }
    }

    for r in 0..8 {
        for px in planes.u[r * 16 + 8..r * 16 + 16].iter_mut() {
            *px = 130;
        }
    }
    let before = planes.clone();
    let modes = vec![mode(IntraYMode::Dc, None), mode(IntraYMode::Dc, None)];
    let coeffs = vec![MbCoeffs::default(); 2];
    filter_frame(&mut planes, &modes, &coeffs, &c);

    assert_ne!(planes.y[15], before.y[15], "luma P0 moved");
    assert_ne!(planes.y[16], before.y[16], "luma Q0 moved");

    assert_eq!(planes.u, before.u, "simple filter must not touch U");
    assert_eq!(planes.v, before.v, "simple filter must not touch V");
}

#[test]
fn filter_frame_subblock_steps_gated_by_coeffs() {
    let c = base_config();

    let mut planes = flat_planes(100, 1, 1);
    for r in 0..16 {
        for col in 8..16 {
            planes.y[r * 16 + col] = 112;
        }
    }
    let modes = vec![mode(IntraYMode::Dc, None)];

    let mut p_skip = planes.clone();
    filter_frame(&mut p_skip, &modes, &[MbCoeffs::default()], &c);
    assert_eq!(
        p_skip, planes,
        "no coeffs: internal subblock edges must be skipped (top-left MB has no MB edges either)"
    );

    let mut coeffs = MbCoeffs::default();
    coeffs.y[0][1] = 7;
    let mut p_run = planes.clone();
    filter_frame(&mut p_run, &modes, &[coeffs], &c);
    assert_ne!(
        p_run, planes,
        "coded coeff: internal subblock edge must be filtered"
    );

    assert_ne!(p_run.y[7], planes.y[7], "P0 of x=8 edge moved");
    assert_ne!(p_run.y[8], planes.y[8], "Q0 of x=8 edge moved");
}

#[test]
fn filter_frame_bpred_runs_subblocks_without_coeffs() {
    let c = base_config();
    let mut planes = flat_planes(100, 1, 1);
    for r in 0..16 {
        for col in 8..16 {
            planes.y[r * 16 + col] = 112;
        }
    }
    let modes = vec![mode(IntraYMode::B, None)];
    let mut p = planes.clone();
    filter_frame(&mut p, &modes, &[MbCoeffs::default()], &c);
    assert_ne!(
        p, planes,
        "B_PRED MB must filter internal subblock edges even when skip"
    );
}

#[test]
fn filter_frame_config_keyframe_resolves_header() {
    let mut header = minimal_header();
    header.filter_type = true;
    header.loop_filter_level = 31;
    header.sharpness_level = 5;
    header.segmentation_enabled = true;
    header.update_segmentation = Some(UpdateSegmentation {
        update_mb_segmentation_map: true,
        update_segment_feature_data: true,
        segment_feature_mode_absolute: true,
        quantizer_update: [None; 4],
        loop_filter_update: [Some(10), None, Some(-4), Some(63)],
        segment_prob: [None; 3],
    });
    header.mb_lf_adjustments = MbLfAdjustments {
        loop_filter_adj_enable: true,
        mode_ref_lf_delta_update: true,
        ref_frame_delta_update: [Some(2), None, None, None],
        mb_mode_delta_update: [Some(-5), None, None, None],
    };

    let cfg = FrameFilterConfig::keyframe(&header);
    assert!(cfg.simple);
    assert!(cfg.key_frame);
    assert_eq!(cfg.loop_filter_level, 31);
    assert_eq!(cfg.sharpness_level, 5);
    assert!(cfg.segmentation_enabled);
    assert!(cfg.segment_abs);
    assert_eq!(cfg.segment_lf_level, [10, 0, -4, 63]);
    assert!(cfg.delta_enabled);
    assert_eq!(cfg.ref_delta_current, 2);
    assert_eq!(cfg.bpred_mode_delta, -5);
}

#[test]
fn filter_frame_config_keyframe_no_segmentation() {
    let header = minimal_header();
    let cfg = FrameFilterConfig::keyframe(&header);
    assert!(!cfg.segmentation_enabled);
    assert_eq!(cfg.segment_lf_level, [0; MAX_MB_SEGMENTS]);
    assert!(!cfg.delta_enabled);
    assert_eq!(cfg.ref_delta_current, 0);
    assert_eq!(cfg.bpred_mode_delta, 0);
}

fn minimal_header() -> Vp8CodedHeader {
    Vp8CodedHeader {
        color_space: Some(false),
        clamping_type: Some(false),
        segmentation_enabled: false,
        update_segmentation: None,
        filter_type: false,
        loop_filter_level: 0,
        sharpness_level: 0,
        mb_lf_adjustments: MbLfAdjustments {
            loop_filter_adj_enable: false,
            mode_ref_lf_delta_update: false,
            ref_frame_delta_update: [None; 4],
            mb_mode_delta_update: [None; 4],
        },
        log2_nbr_of_dct_partitions: 0,
        nbr_of_dct_partitions: 1,
        quant_indices: QuantIndices {
            y_ac_qi: 0,
            y_dc_delta: None,
            y2_dc_delta: None,
            y2_ac_delta: None,
            uv_dc_delta: None,
            uv_ac_delta: None,
        },
        refresh_entropy_probs: false,
        refresh_golden_frame: None,
        refresh_alternate_frame: None,
        copy_buffer_to_golden: None,
        copy_buffer_to_alternate: None,
        sign_bias_golden: None,
        sign_bias_alternate: None,
        refresh_last: None,
        token_prob_updates: [[[[None; 11]; 3]; 8]; 4],
        mb_no_skip_coeff: false,
        prob_skip_false: None,
    }
}
