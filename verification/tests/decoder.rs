//! Tables and mode probabilities of inter frames.
use oxideav_vp8::modes::mv_ref_probs;
use oxideav_vp8::tables::{MBSPLIT_PROBS, MV_COUNTS_TO_PROBS};

#[test]
fn mv_ref_probs_indexes_each_row_by_matching_cnt() {
    let got = mv_ref_probs(&[2, 5, 0, 0]);
    assert_eq!(
        got,
        [
            MV_COUNTS_TO_PROBS[2][0],
            MV_COUNTS_TO_PROBS[5][1],
            MV_COUNTS_TO_PROBS[0][2],
            MV_COUNTS_TO_PROBS[0][3],
        ]
    );
    assert_eq!(got, [135, 188, 1, 143]);

    let z = mv_ref_probs(&[0, 0, 0, 0]);
    assert_eq!(z, [7, 1, 1, 143]);

    let clamped = mv_ref_probs(&[6, 7, 10, 100]);
    assert_eq!(
        clamped,
        [
            MV_COUNTS_TO_PROBS[5][0],
            MV_COUNTS_TO_PROBS[5][1],
            MV_COUNTS_TO_PROBS[5][2],
            MV_COUNTS_TO_PROBS[5][3],
        ]
    );
}

#[test]
fn mv_counts_to_probs_row_3_matches_rfc() {
    assert_eq!(MV_COUNTS_TO_PROBS[3], [60, 56, 128, 65]);
}

#[test]
fn mbsplit_probs_match_rfc() {
    assert_eq!(MBSPLIT_PROBS, [110, 111, 150]);
}
