//! Inter frames, written boolean by boolean.
use oxideav_vp8::decoder::{decode_frame_with_state, DecoderState};
use oxideav_vp8::encoder::{coeff_update_probs_flat, BoolEncoder};
use oxideav_vp8::frame::Vp8Frame;
use oxideav_vp8::i420::I420Frame;
use oxideav_vp8::inter::{sixtap_predict, RefPlane};
use oxideav_vp8::keyframe_encoder::{encode_keyframe, KeyframeParams};
use oxideav_vp8::mode_picker::Candidate;
use oxideav_vp8::tables::{
    DEFAULT_MV_CONTEXT, DEFAULT_UV_MODE_PROBS, DEFAULT_YMODE_PROBS, MBSPLIT_PROBS,
    MB_SPLIT_TREE, MV_COUNTS_TO_PROBS, MV_REF_TREE, MV_UPDATE_PROBS, SMALL_MV_TREE,
    SUB_MV_REF_PROBS, SUB_MV_REF_TREE, UV_MODE_TREE, YMODE_TREE,
};

/// What an inter frame refreshes.
struct Refresh {
    golden: bool,
    alternate: bool,
    copy_to_golden: u32,
    copy_to_alternate: u32,
    last: bool,
}

const ONLY_LAST: Refresh = Refresh {
    golden: false,
    alternate: false,
    copy_to_golden: 0,
    copy_to_alternate: 0,
    last: true,
};

const NOTHING: Refresh = Refresh {
    golden: false,
    alternate: false,
    copy_to_golden: 0,
    copy_to_alternate: 0,
    last: false,
};

/// An inter frame whose macroblocks are all skipped; `modes` writes the rest of
/// them.
fn inter_frame(count: usize, refresh: &Refresh, modes: &dyn Fn(&mut BoolEncoder, usize)) -> Vec<u8> {
    let mut e = BoolEncoder::new();
    e.write_bool(128, false);
    e.write_bool(128, false);
    e.write_literal(0, 6);
    e.write_literal(0, 3);
    e.write_bool(128, false);
    e.write_literal(0, 2);
    e.write_literal(20, 7);
    for _ in 0..5 {
        e.write_bool(128, false);
    }
    e.write_bool(128, refresh.golden);
    e.write_bool(128, refresh.alternate);
    if !refresh.golden {
        e.write_literal(refresh.copy_to_golden, 2);
    }
    if !refresh.alternate {
        e.write_literal(refresh.copy_to_alternate, 2);
    }
    e.write_bool(128, false);
    e.write_bool(128, false);
    e.write_bool(128, true);
    e.write_bool(128, refresh.last);
    for p in coeff_update_probs_flat() {
        e.write_bool(p, false);
    }
    e.write_bool(128, true);
    e.write_literal(100, 8);
    e.write_literal(90, 8);
    e.write_literal(80, 8);
    e.write_literal(70, 8);
    e.write_bool(128, false);
    e.write_bool(128, false);
    for row in MV_UPDATE_PROBS {
        for p in row {
            e.write_bool(p, false);
        }
    }
    for k in 0..count {
        e.write_bool(100, true);
        modes(&mut e, k);
    }
    let first = e.finish();
    let tag = 1 + (1 << 4) + ((first.len() as u32) << 5);
    let mut out = vec![tag as u8, (tag >> 8) as u8, (tag >> 16) as u8];
    out.extend_from_slice(&first);
    out.extend_from_slice(&BoolEncoder::new().finish());
    out
}

const LAST: u8 = 0;
const GOLDEN: u8 = 1;
const ALTERNATE: u8 = 2;

fn reference(e: &mut BoolEncoder, which: u8) {
    e.write_bool(90, true);
    e.write_bool(80, which != LAST);
    if which != LAST {
        e.write_bool(70, which == ALTERNATE);
    }
}

const ZERO: u8 = 2;
const NEW: u8 = 3;
const SPLIT: u8 = 4;

/// Probabilities of the mode of a macroblock without neighbours.
fn alone() -> [u8; 4] {
    let t = &MV_COUNTS_TO_PROBS[0];
    [t[0], t[1], t[2], t[3]]
}

fn component(e: &mut BoolEncoder, v: i32, which: usize) {
    let p = &DEFAULT_MV_CONTEXT[which];
    e.write_bool(p[0], false);
    e.write_leaf(&SMALL_MV_TREE, &p[2..9], 0, v.unsigned_abs() as u8);
    if v != 0 {
        e.write_bool(p[1], v < 0);
    }
}

/// A vector in quarters of a pixel.
fn vector(e: &mut BoolEncoder, row: i32, col: i32) {
    component(e, row, 0);
    component(e, col, 1);
}

fn zero_from(which: u8) -> Vec<u8> {
    inter_frame(1, &ONLY_LAST, &|e, _| {
        reference(e, which);
        e.write_leaf(&MV_REF_TREE, &alone(), 0, ZERO);
    })
}

/// A key frame of one macroblock, as a decoder shows it.
fn key_frame(state: &mut DecoderState, seed: u8) -> Vp8Frame {
    let y: Vec<u8> = (0..256usize)
        .map(|i| (seed as usize + (i % 16) * 7 + (i / 16) * 5).min(255) as u8)
        .collect();
    let u = [seed; 64];
    let v = [255 - seed; 64];
    let frame = I420Frame::packed(16, 16, &y, &u, &v);
    let first = |_: &Vec<Vec<Candidate>>| 0;
    let bytes = encode_keyframe(&frame, &KeyframeParams::default(), &first).unwrap();
    decode_frame_with_state(&bytes, state).unwrap()
}

#[test]
fn zero_vectors_repeat_the_last_frame() {
    let mut state = DecoderState::new();
    let key = key_frame(&mut state, 30);
    let shown = decode_frame_with_state(&zero_from(LAST), &mut state).unwrap();
    assert_eq!((&shown.y, &shown.u, &shown.v), (&key.y, &key.u, &key.v));
    assert_eq!((shown.width, shown.height), (16, 16));
}

#[test]
fn whole_pixel_vectors_shift_the_frame() {
    let mut state = DecoderState::new();
    let key = key_frame(&mut state, 10);
    let bytes = inter_frame(1, &ONLY_LAST, &|e, _| {
        reference(e, LAST);
        e.write_leaf(&MV_REF_TREE, &alone(), 0, NEW);
        vector(e, 4, -4);
    });
    let shown = decode_frame_with_state(&bytes, &mut state).unwrap();
    for r in 0..16usize {
        for c in 0..16usize {
            let from = (r + 1).min(15) * 16 + c.saturating_sub(1);
            assert_eq!(shown.y[r * 16 + c], key.y[from]);
        }
    }
    assert_eq!((&shown.u, &shown.v), (&key.u, &key.v));
}

#[test]
fn parts_of_a_macroblock_have_their_own_vectors() {
    let mut state = DecoderState::new();
    let key = key_frame(&mut state, 20);
    let bytes = inter_frame(1, &ONLY_LAST, &|e, _| {
        reference(e, LAST);
        e.write_leaf(&MV_REF_TREE, &alone(), 0, SPLIT);
        e.write_leaf(&MB_SPLIT_TREE, &MBSPLIT_PROBS, 0, 0);
        // The upper half is new, the lower half stays: its left neighbour is
        // zero and the one above is not.
        e.write_leaf(&SUB_MV_REF_TREE, &SUB_MV_REF_PROBS[4], 0, 3);
        vector(e, 0, 4);
        e.write_leaf(&SUB_MV_REF_TREE, &SUB_MV_REF_PROBS[1], 0, 2);
    });
    let shown = decode_frame_with_state(&bytes, &mut state).unwrap();
    for r in 0..16usize {
        for c in 0..16usize {
            let from = if r < 8 { (c + 1).min(15) } else { c };
            assert_eq!(shown.y[r * 16 + c], key.y[r * 16 + from], "row {r} column {c}");
        }
    }
}

#[test]
fn references_are_kept_until_they_are_refreshed() {
    let mut state = DecoderState::new();
    let key = key_frame(&mut state, 40);
    let shifted = inter_frame(1, &ONLY_LAST, &|e, _| {
        reference(e, LAST);
        e.write_leaf(&MV_REF_TREE, &alone(), 0, NEW);
        vector(e, 0, 4);
    });
    let moved = decode_frame_with_state(&shifted, &mut state).unwrap();
    assert_ne!(moved.y, key.y);
    let golden = decode_frame_with_state(&zero_from(GOLDEN), &mut state).unwrap();
    assert_eq!(golden.y, key.y);
    let again = decode_frame_with_state(&shifted, &mut state).unwrap();
    assert_eq!(again.y, moved.y);
    // A frame that copies the last one to the alternate, and keeps nothing of
    // its own.
    let copy = inter_frame(
        1,
        &Refresh {
            copy_to_alternate: 1,
            ..NOTHING
        },
        &|e, _| {
            reference(e, GOLDEN);
            e.write_leaf(&MV_REF_TREE, &alone(), 0, ZERO);
        },
    );
    assert_eq!(decode_frame_with_state(&copy, &mut state).unwrap().y, key.y);
    let last = decode_frame_with_state(&zero_from(LAST), &mut state).unwrap();
    assert_eq!(last.y, moved.y);
    let golden = decode_frame_with_state(&zero_from(GOLDEN), &mut state).unwrap();
    assert_eq!(golden.y, key.y);
    let alternate = decode_frame_with_state(&zero_from(ALTERNATE), &mut state).unwrap();
    assert_eq!(alternate.y, moved.y);
}

#[test]
fn intra_macroblocks_stand_in_inter_frames() {
    let mut state = DecoderState::new();
    key_frame(&mut state, 50);
    let bytes = inter_frame(1, &ONLY_LAST, &|e, _| {
        e.write_bool(90, false);
        e.write_leaf(&YMODE_TREE, &DEFAULT_YMODE_PROBS, 0, 1);
        e.write_leaf(&UV_MODE_TREE, &DEFAULT_UV_MODE_PROBS, 0, 2);
    });
    let shown = decode_frame_with_state(&bytes, &mut state).unwrap();
    assert_eq!(shown.y, vec![127; 256]);
    assert_eq!((shown.u, shown.v), (vec![129; 64], vec![129; 64]));
}

#[test]
fn half_pixels_are_filtered() {
    let row: Vec<u8> = (0..16).map(|x| 10 * x).collect();
    let data: Vec<u8> = (0..16).flat_map(|_| row.clone()).collect();
    let plane = RefPlane {
        data: &data,
        stride: 16,
        width: 16,
        height: 16,
    };
    // 3 * 0 - 16 * 10 + 77 * 20 + 77 * 30 - 16 * 40 + 3 * 50 = 3200 = 25 * 128
    let out = sixtap_predict(&plane, 8 * 2 + 4, 8 * 5);
    assert_eq!(out[..4], [25, 35, 45, 55]);
    // Three eighths: the weights are 0, -9, 93, 50, -6 and 0.
    let between = sixtap_predict(&plane, 8 * 2 + 3, 8 * 5);
    let sum: i32 = -9 * 10 + 93 * 20 + 50 * 30 - 6 * 40;
    assert_eq!(between[0] as i32, (sum + 64) >> 7);
}
