//! Boolean encoder and cost counter.
use oxideav_vp8::bool_decoder::BoolDecoder;
use oxideav_vp8::bool_encoder::{build_prob_cost_table, BoolCounter, BoolEncoder};


#[test]
fn roundtrip_literal_values() {
    let mut enc = BoolEncoder::new();
    let vals = [(8u32, 0xa5u32), (7, 0x55), (4, 9), (3, 5)];
    for &(n, v) in &vals {
        enc.write_literal(n, v);
    }
    let buf = enc.finish();
    let mut dec = BoolDecoder::new(&buf).unwrap();
    for &(n, v) in &vals {
        assert_eq!(dec.get_literal(n), v);
    }
}

#[test]
fn bool_counter_matches_real_encoder_bit_count() {
    let probs: &[u32] = &[8, 24, 64, 100, 128, 156, 200, 240, 250];
    let bits: &[bool] = &[false, true, false, true, true, false, false, true];

    let mut enc = BoolEncoder::new();
    let mut ctr = BoolCounter::new();
    let mut n_calls = 0u64;
    for round in 0..200 {
        for (i, &p) in probs.iter().enumerate() {
            let b = bits[(round + i) % bits.len()];
            enc.write_bool(p, b);
            ctr.write_bool(p, b);
            n_calls += 1;
        }
    }
    let real_bits = (enc.bytes_written() as u64) * 8;

    assert!(
        ctr.bits() >= real_bits.saturating_sub(8) && ctr.bits() <= real_bits + 32,
        "counter bits ({}) must match real encoder bits ({}) within renorm-buffer slack (n_calls={n_calls})",
        ctr.bits(),
        real_bits,
    );
}

#[test]
fn prob_cost_table_matches_long_run_average() {
    let table = build_prob_cost_table();
    for &(prob, outcome) in &[
        (8u8, false), (8u8, true),
        (32u8, false), (32u8, true),
        (64u8, false), (64u8, true),
        (128u8, false), (128u8, true),
        (200u8, false), (200u8, true),
        (240u8, false), (240u8, true),
    ] {
        let mut ctr = BoolCounter::new();
        const N: u32 = 5000;
        for _ in 0..N {
            ctr.write_bool(prob as u32, outcome);
        }
        let empirical_x256 = (ctr.bits() * 256) / (N as u64);
        let table_x256 = table[outcome as usize][prob as usize] as u64;
        let diff = empirical_x256.abs_diff(table_x256);

        assert!(
            diff <= 8,
            "prob={prob} outcome={outcome}: table {table_x256}/256, empirical {empirical_x256}/256 (diff {diff})"
        );
    }
}

#[test]
fn prob_cost_table_is_monotone() {
    let table = build_prob_cost_table();
    for p in 1..255usize {
        assert!(
            table[0][p] >= table[0][p + 1],
            "cost(p={p}, false)={} should be >= cost(p={}, false)={}",
            table[0][p], p+1, table[0][p + 1]
        );
        assert!(
            table[1][p] <= table[1][p + 1],
            "cost(p={p}, true)={} should be <= cost(p={}, true)={}",
            table[1][p], p+1, table[1][p + 1]
        );
    }

    let cost_128_false = table[0][128];
    let cost_128_true = table[1][128];
    assert!(
        cost_128_false.abs_diff(256) <= 2,
        "cost(128, false) = {cost_128_false}/256, expected ~256"
    );
    assert!(
        cost_128_true.abs_diff(256) <= 2,
        "cost(128, true) = {cost_128_true}/256, expected ~256"
    );
}

#[test]
fn roundtrip_signed_literals() {
    let mut enc = BoolEncoder::new();
    let vals = [(4i32, 7i32), (4, -3), (6, 30), (6, -30), (7, 0)];
    for &(n, v) in &vals {
        enc.write_signed_literal(n as u32, v);
    }
    let buf = enc.finish();
    let mut dec = BoolDecoder::new(&buf).unwrap();
    for &(n, v) in &vals {
        let got = dec.get_signed_literal(n as u32);
        if v == 0 {
            assert_eq!(got.abs(), 0);
        } else {
            assert_eq!(got, v, "n={n} v={v}");
        }
    }
}
