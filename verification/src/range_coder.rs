//! Model of the boolean range coder and its round-trip law.
//!
//! The coder narrows an interval `[low, low + range)` measured in units of
//! `2^-(8 + shifts)`. A code is any fraction inside the last interval; the
//! decoder recovers every boolean by locating that fraction in the nested
//! intervals.
use vstd::arithmetic::power2::{lemma_pow2_adds, lemma_pow2_pos, lemma_pow2_unfold, pow2};
use vstd::prelude::*;

verus! {

/// Interval `[low, low + range)` of the coder after `shifts` doublings.
pub struct CoderState {
    pub low: nat,
    pub range: int,
    pub shifts: nat,
}

/// Decoder registers: a 16-bit window `value` on `data`, of which the low
/// `bit_count` bits are still to be filled. Bytes past the end read as zero,
/// and what a doubling moves out of the window is dropped.
pub struct DecState {
    pub data: Seq<u8>,
    pub pos: nat,
    pub value: int,
    pub range: int,
    pub bit_count: int,
}

/// Size of the lower part of the interval, the one that codes `false`.
pub open spec fn split_of(range: int, prob: int) -> int {
    1 + (range - 1) * prob / 256
}

pub open spec fn coder_start() -> CoderState {
    CoderState { low: 0, range: 255, shifts: 0 }
}

pub open spec fn enc_pick(st: CoderState, prob: u8, bit: bool) -> CoderState {
    let split = split_of(st.range, prob as int);
    if bit {
        CoderState { low: (st.low + split) as nat, range: st.range - split, shifts: st.shifts }
    } else {
        CoderState { low: st.low, range: split, shifts: st.shifts }
    }
}

pub open spec fn enc_double(st: CoderState) -> CoderState {
    CoderState { low: 2 * st.low, range: 2 * st.range, shifts: st.shifts + 1 }
}

/// Doubles the interval until its range is at least 128.
pub open spec fn enc_norm(st: CoderState) -> CoderState
    decreases 256 - st.range,
{
    if 0 < st.range < 128 {
        enc_norm(enc_double(st))
    } else {
        st
    }
}

/// Codes one boolean.
pub open spec fn enc_step(st: CoderState, prob: u8, bit: bool) -> CoderState {
    enc_norm(enc_pick(st, prob, bit))
}

/// Interval that stands for a whole sequence of `(probability, boolean)`.
pub open spec fn enc_run(ops: Seq<(u8, bool)>) -> CoderState
    decreases ops.len(),
{
    if ops.len() == 0 {
        coder_start()
    } else {
        enc_step(enc_run(ops.drop_last()), ops.last().0, ops.last().1)
    }
}

/// Value of a byte string read as one big-endian number.
pub open spec fn be_value(s: Seq<u8>) -> nat
    decreases s.len(),
{
    if s.len() == 0 {
        0
    } else {
        256 * be_value(s.drop_last()) + s.last() as nat
    }
}

/// Number of whole bytes that leave the encoder during `shifts` doublings.
pub open spec fn emitted(shifts: nat) -> nat {
    if shifts < 24 {
        0
    } else {
        ((shifts - 16) / 8) as nat
    }
}

/// Doublings that are left until the next byte leaves the encoder.
pub open spec fn room(shifts: nat) -> nat {
    if shifts < 24 {
        (24 - shifts) as nat
    } else {
        (8 - (shifts - 24) % 8) as nat
    }
}

/// `bytes` is the flushed code of `ops`: the low end of the last interval,
/// written out to four bytes past the ones that left the encoder on the way.
pub open spec fn is_code(bytes: Seq<u8>, ops: Seq<(u8, bool)>) -> bool {
    let st = enc_run(ops);
    &&& bytes.len() == emitted(st.shifts) + 4
    &&& be_value(bytes) == st.low * pow2(room(st.shifts))
}

/// Number of bytes of the flushed code of `ops`.
pub open spec fn code_len(ops: Seq<(u8, bool)>) -> nat {
    emitted(enc_run(ops).shifts) + 4
}

/// `n` flat booleans that are all `false`.
pub open spec fn flat_zeros(n: nat) -> Seq<(u8, bool)> {
    Seq::new(n, |i: int| (128u8, false))
}

/// `bytes` is the padded code of `ops`: the bytes that have left the encoder
/// after 32 more flat `false`, writing exactly the low end of the interval.
pub open spec fn is_padded_code(bytes: Seq<u8>, ops: Seq<(u8, bool)>) -> bool {
    let st = enc_run(ops);
    &&& bytes.len() == emitted(enc_run(ops + flat_zeros(32)).shifts)
    &&& be_value(bytes) * pow2((8 + st.shifts) as nat) == st.low * pow2(8 * bytes.len())
}

/// The byte at `i`, zero past the end.
pub open spec fn byte_at(data: Seq<u8>, i: nat) -> int {
    if i < data.len() {
        data[i as int] as int
    } else {
        0
    }
}

/// Value of the first `n` bytes of the zero-extended stream.
pub open spec fn prefix_value(data: Seq<u8>, n: nat) -> nat
    decreases n,
{
    if n == 0 {
        0
    } else {
        (256 * prefix_value(data, (n - 1) as nat) + byte_at(data, (n - 1) as nat)) as nat
    }
}

pub open spec fn dec_start(data: Seq<u8>) -> DecState {
    DecState {
        data,
        pos: 2,
        value: 256 * byte_at(data, 0) + byte_at(data, 1),
        range: 255,
        bit_count: 0,
    }
}

pub open spec fn dec_double(d: DecState) -> DecState {
    if d.bit_count == 7 {
        DecState {
            data: d.data,
            pos: d.pos + 1,
            value: (2 * d.value + byte_at(d.data, d.pos)) % 65536,
            range: 2 * d.range,
            bit_count: 0,
        }
    } else {
        DecState {
            value: (2 * d.value) % 65536,
            range: 2 * d.range,
            bit_count: d.bit_count + 1,
            ..d
        }
    }
}

pub open spec fn dec_norm(d: DecState) -> DecState
    decreases 256 - d.range,
{
    if 0 < d.range < 128 {
        dec_norm(dec_double(d))
    } else {
        d
    }
}

/// Whether the next boolean, at probability `prob`, is `true`.
pub open spec fn dec_bit(d: DecState, prob: u8) -> bool {
    d.value >= 256 * split_of(d.range, prob as int)
}

pub open spec fn dec_pick(d: DecState, prob: u8) -> DecState {
    let split = split_of(d.range, prob as int);
    if dec_bit(d, prob) {
        DecState { value: d.value - 256 * split, range: d.range - split, ..d }
    } else {
        DecState { range: split, ..d }
    }
}

/// State after the next boolean, read at probability `prob`.
pub open spec fn dec_next(d: DecState, prob: u8) -> DecState {
    dec_norm(dec_pick(d, prob))
}

/// The registers hold what the decoder keeps between two booleans.
pub open spec fn dec_wf(d: DecState) -> bool {
    &&& 128 <= d.range <= 255
    &&& 0 <= d.value < 65536
    &&& 0 <= d.bit_count < 8
}

/// State after the first `n` booleans, read at the probabilities in `ops`.
pub open spec fn dec_run(d: DecState, ops: Seq<(u8, bool)>, n: nat) -> DecState
    decreases n,
{
    if n == 0 {
        d
    } else {
        dec_next(dec_run(d, ops, (n - 1) as nat), ops[n - 1].0)
    }
}

/// The decoder stands at the interval `st`.
pub open spec fn synced(d: DecState, st: CoderState) -> bool {
    &&& d.range == st.range
    &&& 0 <= d.bit_count < 8
    &&& 8 * d.pos + d.bit_count == 16 + st.shifts
    &&& d.value + 256 * st.low == prefix_value(d.data, d.pos) * pow2(d.bit_count as nat)
}

/// The fraction that `data` writes lies in the interval `st`.
pub open spec fn in_interval(data: Seq<u8>, st: CoderState) -> bool {
    let x = be_value(data) * pow2((8 + st.shifts) as nat);
    let unit = pow2(8 * data.len());
    st.low * unit <= x < (st.low + st.range) * unit
}

pub proof fn lemma_split_bounds(range: int, prob: u8)
    requires
        2 <= range <= 256,
    ensures
        1 <= split_of(range, prob as int) <= range - 1,
        split_of(range, prob as int) <= 255,
{
    assert(0 <= (range - 1) * prob <= (range - 1) * 255) by (nonlinear_arith)
        requires
            range >= 2,
            prob <= 255,
    ;
}

/// Between two booleans the range stays in `128..=255`.
pub proof fn lemma_enc_norm_range(st: CoderState)
    requires
        1 <= st.range <= 255,
    ensures
        128 <= enc_norm(st).range <= 255,
        enc_norm(st).shifts >= st.shifts,
    decreases 256 - st.range,
{
    if st.range < 128 {
        lemma_enc_norm_range(enc_double(st));
    }
}

pub proof fn lemma_enc_run_range(ops: Seq<(u8, bool)>)
    ensures
        128 <= enc_run(ops).range <= 255,
    decreases ops.len(),
{
    if ops.len() > 0 {
        lemma_enc_run_range(ops.drop_last());
        let st = enc_run(ops.drop_last());
        lemma_split_bounds(st.range, ops.last().0);
        lemma_enc_norm_range(enc_pick(st, ops.last().0, ops.last().1));
    }
}

pub proof fn lemma_enc_run_push(ops: Seq<(u8, bool)>, prob: u8, bit: bool)
    ensures
        enc_run(ops.push((prob, bit))) == enc_step(enc_run(ops), prob, bit),
{
    assert(ops.push((prob, bit)).drop_last() =~= ops);
}

pub proof fn lemma_dec_norm_wf(d: DecState)
    requires
        1 <= d.range <= 255,
        0 <= d.value < 65536,
        0 <= d.bit_count < 8,
    ensures
        dec_wf(dec_norm(d)),
        dec_norm(d).data == d.data,
        d.pos <= dec_norm(d).pos,
    decreases 256 - d.range,
{
    if d.range < 128 {
        lemma_dec_norm_wf(dec_double(d));
    }
}

/// Reading keeps the registers in shape and never moves backwards.
pub proof fn lemma_dec_next_wf(d: DecState, prob: u8)
    requires
        dec_wf(d),
    ensures
        dec_wf(dec_next(d, prob)),
        dec_next(d, prob).data == d.data,
        d.pos <= dec_next(d, prob).pos,
{
    lemma_split_bounds(d.range, prob);
    lemma_dec_norm_wf(dec_pick(d, prob));
}

proof fn lemma_double_synced(d: DecState, st: CoderState)
    requires
        synced(d, st),
        0 <= d.value < 256 * 128,
    ensures
        synced(dec_double(d), enc_double(st)),
{
    let p = prefix_value(d.data, d.pos);
    lemma_pow2_unfold((d.bit_count + 1) as nat);
    let w = pow2(d.bit_count as nat);
    assert(p * (2 * w) == 2 * (p * w)) by (nonlinear_arith);
    if d.bit_count == 7 {
        assert(pow2(8) == 256) by {
            vstd::arithmetic::power2::lemma2_to64();
        }
        assert(pow2(0) == 1) by {
            vstd::arithmetic::power2::lemma2_to64();
        }
        assert(w == 128);
        assert(p * w == 128 * p) by (nonlinear_arith)
            requires
                w == 128,
        ;
        let n = prefix_value(d.data, d.pos + 1);
        assert(n == 256 * p + byte_at(d.data, d.pos));
        assert(n * pow2(0) == n) by (nonlinear_arith)
            requires
                pow2(0) == 1,
        ;
    }
}

proof fn lemma_norm_synced(d: DecState, st: CoderState)
    requires
        synced(d, st),
        in_interval(d.data, st),
    ensures
        synced(dec_norm(d), enc_norm(st)),
        dec_norm(d).data == d.data,
    decreases 256 - d.range,
{
    if 0 < d.range < 128 {
        lemma_window_bound(d, st);
        lemma_double_synced(d, st);
        lemma_double_interval(d.data, st);
        lemma_norm_synced(dec_double(d), enc_double(st));
    }
}

proof fn lemma_double_interval(data: Seq<u8>, st: CoderState)
    ensures
        in_interval(data, enc_double(st)) == in_interval(data, st),
{
    lemma_pow2_unfold((9 + st.shifts) as nat);
    let f = be_value(data);
    let w = pow2((8 + st.shifts) as nat);
    let u = pow2(8 * data.len());
    assert(f * (2 * w) == 2 * (f * w)) by (nonlinear_arith);
    assert((2 * st.low) * u == 2 * (st.low * u)) by (nonlinear_arith);
    assert((2 * st.low + 2 * st.range) * u == 2 * ((st.low + st.range) * u)) by (nonlinear_arith);
}

proof fn lemma_norm_interval(data: Seq<u8>, st: CoderState)
    ensures
        in_interval(data, enc_norm(st)) == in_interval(data, st),
    decreases 256 - st.range,
{
    if 0 < st.range < 128 {
        lemma_double_interval(data, st);
        lemma_norm_interval(data, enc_double(st));
    }
}

/// A later interval lies inside an earlier one.
proof fn lemma_step_interval(data: Seq<u8>, st: CoderState, prob: u8, bit: bool)
    requires
        2 <= st.range <= 256,
        in_interval(data, enc_step(st, prob, bit)),
    ensures
        in_interval(data, enc_pick(st, prob, bit)),
        in_interval(data, st),
{
    lemma_norm_interval(data, enc_pick(st, prob, bit));
    lemma_split_bounds(st.range, prob);
    let split = split_of(st.range, prob as int);
    let u = pow2(8 * data.len());
    assert(st.low * u <= (st.low + split) * u <= (st.low + st.range) * u) by (nonlinear_arith)
        requires
            0 <= split <= st.range,
            u >= 0,
    ;
}

/// The first `n` bytes are the fraction cut off to `8 * n` bits.
proof fn lemma_prefix_is_floor(data: Seq<u8>, n: nat)
    ensures
        prefix_value(data, n) * pow2(8 * data.len()) <= be_value(data) * pow2(8 * n),
        be_value(data) * pow2(8 * n) < (prefix_value(data, n) + 1) * pow2(8 * data.len()),
    decreases n,
{
    if n <= data.len() {
        lemma_prefix_within(data, n);
        let t = data.subrange(n as int, data.len() as int);
        let k = (data.len() - n) as nat;
        lemma_be_value_bound(t);
        lemma_pow2_adds(8 * n, 8 * k);
        assert(8 * n + 8 * k == 8 * data.len());
        let p = prefix_value(data, n);
        let v = be_value(t);
        let a = pow2(8 * n);
        let b = pow2(8 * k);
        lemma_pow2_pos(8 * n);
        assert(p * (a * b) <= (p * b + v) * a < (p + 1) * (a * b)) by (nonlinear_arith)
            requires
                0 <= v < b,
                a > 0,
        ;
    } else {
        let m = (n - 1) as nat;
        lemma_prefix_is_floor(data, m);
        assert(8 * n == 8 * m + 8);
        lemma_pow2_adds(8 * m, 8);
        assert(pow2(8) == 256) by {
            vstd::arithmetic::power2::lemma2_to64();
        }
        let p = prefix_value(data, m);
        let f = be_value(data);
        let u = pow2(8 * data.len());
        let w = pow2(8 * m);
        assert(byte_at(data, m) == 0);
        lemma_prefix_full(data, m);
        let e = (8 * (m - data.len())) as nat;
        lemma_pow2_adds(8 * data.len(), e);
        assert(p == f * pow2(e));
        let q = pow2(e);
        assert((256 * (f * q)) * u == f * ((u * q) * 256)) by (nonlinear_arith);
        lemma_pow2_pos(8 * data.len());
        assert((256 * p + 1) * u == (256 * p) * u + u) by (nonlinear_arith);
    }
}

/// Past the end the prefix only gains zero bits.
proof fn lemma_prefix_full(data: Seq<u8>, n: nat)
    requires
        n >= data.len(),
    ensures
        prefix_value(data, n) == be_value(data) * pow2((8 * (n - data.len())) as nat),
    decreases n,
{
    if n == data.len() {
        lemma_prefix_within(data, n);
        assert(data.subrange(n as int, data.len() as int) =~= Seq::<u8>::empty());
        assert(pow2(0) == 1) by {
            vstd::arithmetic::power2::lemma2_to64();
        }
        assert(prefix_value(data, n) * pow2(0) == prefix_value(data, n)) by (nonlinear_arith)
            requires
                pow2(0) == 1,
        ;
        assert(be_value(data) * pow2(0) == be_value(data)) by (nonlinear_arith)
            requires
                pow2(0) == 1,
        ;
    } else {
        let m = (n - 1) as nat;
        lemma_prefix_full(data, m);
        let e = (8 * (m - data.len())) as nat;
        lemma_pow2_adds(e, 8);
        assert(e + 8 == 8 * (n - data.len()));
        assert(pow2(8) == 256) by {
            vstd::arithmetic::power2::lemma2_to64();
        }
        let f = be_value(data);
        let q = pow2(e);
        assert(256 * (f * q) == f * (q * 256)) by (nonlinear_arith);
    }
}

/// Splits the value of `data` after its first `n` bytes.
proof fn lemma_prefix_within(data: Seq<u8>, n: nat)
    requires
        n <= data.len(),
    ensures
        be_value(data) == prefix_value(data, n) * pow2((8 * (data.len() - n)) as nat) + be_value(
            data.subrange(n as int, data.len() as int),
        ),
    decreases data.len() - n,
{
    let t = data.subrange(n as int, data.len() as int);
    if n == data.len() {
        lemma_prefix_is_be(data);
        assert(pow2(0) == 1) by {
            vstd::arithmetic::power2::lemma2_to64();
        }
        assert(prefix_value(data, n) * pow2(0) == prefix_value(data, n)) by (nonlinear_arith)
            requires
                pow2(0) == 1,
        ;
        assert(t =~= Seq::<u8>::empty());
    } else {
        let m = (n + 1) as nat;
        lemma_prefix_within(data, m);
        let t1 = data.subrange(m as int, data.len() as int);
        assert(t =~= seq![data[n as int]] + t1);
        lemma_be_value_cons(data[n as int], t1);
        let k = (8 * (data.len() - m)) as nat;
        assert(8 * t1.len() == k);
        lemma_pow2_adds(8, k);
        assert(pow2(8) == 256) by {
            vstd::arithmetic::power2::lemma2_to64();
        }
        assert(8 + k == 8 * (data.len() - n));
        let p = prefix_value(data, n);
        let w = pow2(k);
        let b = data[n as int] as nat;
        assert((256 * p + b) * w == p * (256 * w) + b * w) by (nonlinear_arith);
    }
}

proof fn lemma_prefix_is_be(data: Seq<u8>)
    ensures
        prefix_value(data, data.len()) == be_value(data),
    decreases data.len(),
{
    if data.len() > 0 {
        let d = data.drop_last();
        lemma_prefix_is_be(d);
        lemma_prefix_extends(d, data, d.len());
    }
}

proof fn lemma_prefix_extends(a: Seq<u8>, b: Seq<u8>, n: nat)
    requires
        n <= a.len() <= b.len(),
        forall|i: int| 0 <= i < n ==> a[i] == b[i],
    ensures
        prefix_value(a, n) == prefix_value(b, n),
    decreases n,
{
    if n > 0 {
        lemma_prefix_extends(a, b, (n - 1) as nat);
    }
}

proof fn lemma_be_value_cons(b: u8, s: Seq<u8>)
    ensures
        be_value(seq![b] + s) == b * pow2(8 * s.len()) + be_value(s),
    decreases s.len(),
{
    if s.len() == 0 {
        assert((seq![b] + s).drop_last() =~= Seq::<u8>::empty());
        assert((seq![b] + s).last() == b);
        assert(be_value(Seq::<u8>::empty()) == 0);
        assert(pow2(0) == 1) by {
            vstd::arithmetic::power2::lemma2_to64();
        }
        assert(b * pow2(0) == b) by (nonlinear_arith)
            requires
                pow2(0) == 1,
        ;
    } else {
        let r = s.drop_last();
        lemma_be_value_cons(b, r);
        assert((seq![b] + s).drop_last() =~= seq![b] + r);
        assert((seq![b] + s).last() == s.last());
        lemma_pow2_adds(8 * r.len(), 8);
        assert(8 * r.len() + 8 == 8 * s.len());
        assert(pow2(8) == 256) by {
            vstd::arithmetic::power2::lemma2_to64();
        }
        let w = pow2(8 * r.len());
        assert(256 * (b * w) == b * (w * 256)) by (nonlinear_arith);
    }
}

pub proof fn lemma_be_value_bound(s: Seq<u8>)
    ensures
        be_value(s) < pow2(8 * s.len()),
    decreases s.len(),
{
    if s.len() == 0 {
        assert(pow2(0) == 1) by {
            vstd::arithmetic::power2::lemma2_to64();
        }
    } else {
        lemma_be_value_bound(s.drop_last());
        let n = s.drop_last().len();
        lemma_pow2_adds(8 * n, 8);
        assert(8 * n + 8 == 8 * s.len());
        assert(pow2(8) == 256) by {
            vstd::arithmetic::power2::lemma2_to64();
        }
        let w = pow2(8 * n);
        let v = be_value(s.drop_last());
        assert(256 * v + s.last() < w * 256) by (nonlinear_arith)
            requires
                v < w,
                s.last() <= 255,
        ;
    }
}

/// The window lies below a point of the interval exactly when the code does.
proof fn lemma_window_compare(d: DecState, st: CoderState, k: int)
    requires
        synced(d, st),
        0 <= k,
    ensures
        (d.value >= 256 * k) == (be_value(d.data) * pow2((8 + st.shifts) as nat) >= (st.low + k)
            * pow2(8 * d.data.len())),
{
    let a = st.low + k;
    let p = prefix_value(d.data, d.pos) as int;
    let f = be_value(d.data) as int;
    let u = pow2(8 * d.data.len()) as int;
    let e = (8 - d.bit_count) as nat;
    let g = pow2(e) as int;
    let w = pow2((8 + st.shifts) as nat) as int;
    lemma_prefix_is_floor(d.data, d.pos);
    assert(8 * d.pos == 8 + st.shifts + e);
    lemma_pow2_adds((8 + st.shifts) as nat, e);
    lemma_pow2_adds(e, d.bit_count as nat);
    assert(pow2(8) == 256) by {
        vstd::arithmetic::power2::lemma2_to64();
    }
    let h = pow2(d.bit_count as nat) as int;
    lemma_pow2_pos(e);
    lemma_pow2_pos(d.bit_count as nat);
    lemma_pow2_pos(8 * d.data.len());
    assert(p * u <= f * (w * g) < (p + 1) * u);
    if a * u <= f * w {
        assert(p >= a * g) by (nonlinear_arith)
            requires
                a * u <= f * w,
                f * (w * g) < (p + 1) * u,
                g > 0,
                u > 0,
        {
            assert((a * g) * u <= (f * w) * g);
            assert((f * w) * g == f * (w * g));
            assert((a * g) * u < (p + 1) * u);
            assert(a * g < p + 1);
        }
        assert(p * h >= a * 256) by (nonlinear_arith)
            requires
                p >= a * g,
                g * h == 256,
                h > 0,
        {
            assert(p * h >= (a * g) * h);
            assert((a * g) * h == a * (g * h));
        }
    } else {
        assert(p < a * g) by (nonlinear_arith)
            requires
                f * w < a * u,
                p * u <= f * (w * g),
                g > 0,
                u > 0,
        {
            assert((f * w) * g < (a * u) * g);
            assert((f * w) * g == f * (w * g));
            assert((a * u) * g == (a * g) * u);
            assert(p * u < (a * g) * u);
        }
        assert(p * h < a * 256) by (nonlinear_arith)
            requires
                p < a * g,
                g * h == 256,
                h > 0,
        {
            assert(p * h < (a * g) * h);
            assert((a * g) * h == a * (g * h));
        }
    }
}

/// Inside the interval the window stays below the range.
proof fn lemma_window_bound(d: DecState, st: CoderState)
    requires
        synced(d, st),
        in_interval(d.data, st),
        st.range >= 0,
    ensures
        0 <= d.value < 256 * st.range,
{
    lemma_window_compare(d, st, 0);
    lemma_window_compare(d, st, st.range);
}

/// The comparison that the decoder makes finds the side the code lies on.
proof fn lemma_decision(d: DecState, st: CoderState, prob: u8, bit: bool)
    requires
        synced(d, st),
        2 <= st.range <= 256,
        in_interval(d.data, enc_pick(st, prob, bit)),
    ensures
        dec_bit(d, prob) == bit,
{
    lemma_split_bounds(st.range, prob);
    lemma_window_compare(d, st, split_of(st.range, prob as int));
}

/// Every prefix of the booleans has its interval round the code.
proof fn lemma_interval_prefix(data: Seq<u8>, ops: Seq<(u8, bool)>, n: nat)
    requires
        n <= ops.len(),
        in_interval(data, enc_run(ops)),
    ensures
        in_interval(data, enc_run(ops.take(n as int))),
    decreases ops.len() - n,
{
    if n == ops.len() {
        assert(ops.take(n as int) =~= ops);
    } else {
        lemma_interval_prefix(data, ops, n + 1);
        let t = ops.take((n + 1) as int);
        assert(t.drop_last() =~= ops.take(n as int));
        lemma_enc_run_range(ops.take(n as int));
        lemma_step_interval(data, enc_run(ops.take(n as int)), t.last().0, t.last().1);
    }
}

/// After `n` booleans the decoder stands at the interval of the first `n`.
proof fn lemma_run_synced(data: Seq<u8>, ops: Seq<(u8, bool)>, n: nat)
    requires
        n <= ops.len(),
        in_interval(data, enc_run(ops)),
    ensures
        synced(dec_run(dec_start(data), ops, n), enc_run(ops.take(n as int))),
        dec_run(dec_start(data), ops, n).data == data,
    decreases n,
{
    if n == 0 {
        assert(pow2(0) == 1) by {
            vstd::arithmetic::power2::lemma2_to64();
        }
        reveal_with_fuel(prefix_value, 3);
        assert(prefix_value(data, 2) * pow2(0) == prefix_value(data, 2)) by (nonlinear_arith)
            requires
                pow2(0) == 1,
        ;
    } else {
        let m = (n - 1) as nat;
        lemma_run_synced(data, ops, m);
        lemma_interval_prefix(data, ops, n);
        let t = ops.take(n as int);
        let st = enc_run(ops.take(m as int));
        let d = dec_run(dec_start(data), ops, m);
        assert(t.drop_last() =~= ops.take(m as int));
        assert(t.last() == ops[m as int]);
        lemma_enc_run_range(ops.take(m as int));
        lemma_step_interval(data, st, t.last().0, t.last().1);
        lemma_decision(d, st, t.last().0, t.last().1);
        let p = enc_pick(st, t.last().0, t.last().1);
        lemma_norm_synced(dec_pick(d, t.last().0), p);
    }
}

/// A decoder that reads a code at the probabilities it was written with
/// returns the booleans that were written, in order.
pub proof fn law_decoder_inverts_encoder(data: Seq<u8>, ops: Seq<(u8, bool)>, n: nat)
    requires
        n < ops.len(),
        in_interval(data, enc_run(ops)),
    ensures
        dec_bit(dec_run(dec_start(data), ops, n), ops[n as int].0) == ops[n as int].1,
{
    lemma_run_synced(data, ops, n);
    lemma_interval_prefix(data, ops, n + 1);
    let t = ops.take((n + 1) as int);
    assert(t.drop_last() =~= ops.take(n as int));
    let st = enc_run(ops.take(n as int));
    lemma_enc_run_range(ops.take(n as int));
    lemma_step_interval(data, st, t.last().0, t.last().1);
    lemma_decision(dec_run(dec_start(data), ops, n), st, t.last().0, t.last().1);
}

/// A flushed code lies in the interval of the booleans it was made from.
pub proof fn law_code_in_interval(data: Seq<u8>, ops: Seq<(u8, bool)>)
    requires
        is_code(data, ops),
    ensures
        in_interval(data, enc_run(ops)),
        data.len() >= 4,
{
    let st = enc_run(ops);
    let c = room(st.shifts);
    assert(8 * data.len() == 8 + st.shifts + c);
    lemma_pow2_adds(c, (8 + st.shifts) as nat);
    lemma_pow2_pos(8 * data.len());
    let g = pow2(c);
    let w = pow2((8 + st.shifts) as nat);
    let u = pow2(8 * data.len());
    assert((st.low * g) * w == st.low * (g * w)) by (nonlinear_arith);
    lemma_enc_run_range(ops);
    assert(st.low * u < (st.low + st.range) * u) by (nonlinear_arith)
        requires
            st.range > 0,
            u > 0,
    ;
}

/// A padded code lies in the interval of the booleans it was made from.
pub proof fn law_padded_code_in_interval(data: Seq<u8>, ops: Seq<(u8, bool)>)
    requires
        is_padded_code(data, ops),
    ensures
        in_interval(data, enc_run(ops)),
{
    let st = enc_run(ops);
    let u = pow2(8 * data.len());
    lemma_pow2_pos(8 * data.len());
    lemma_enc_run_range(ops);
    assert(st.low * u < (st.low + st.range) * u) by (nonlinear_arith)
        requires
            st.range > 0,
            u > 0,
    ;
}

/// Reading back exactly the booleans that a flushed code holds never
/// needs a byte past its end.
pub proof fn law_code_is_long_enough(data: Seq<u8>, ops: Seq<(u8, bool)>)
    requires
        is_code(data, ops),
    ensures
        dec_run(dec_start(data), ops, ops.len()).pos <= data.len(),
{
    law_code_in_interval(data, ops);
    lemma_run_synced(data, ops, ops.len());
    assert(ops.take(ops.len() as int) =~= ops);
}

/// Reading at the probabilities in `ops` returns the boolean `i` of `ops`.
#[verifier::opaque]
pub open spec fn decodes_at(d: DecState, ops: Seq<(u8, bool)>, i: int) -> bool {
    dec_bit(dec_run(d, ops, i as nat), ops[i].0) == ops[i].1
}

/// Reading at the probabilities in `ops` returns the booleans in `ops`.
#[verifier::opaque]
pub open spec fn decodes(d: DecState, ops: Seq<(u8, bool)>) -> bool {
    forall|i: int| 0 <= i < ops.len() ==> #[trigger] decodes_at(d, ops, i)
}

/// State after reading at all the probabilities in `ops`.
#[verifier::opaque]
pub open spec fn dec_after(d: DecState, ops: Seq<(u8, bool)>) -> DecState {
    dec_run(d, ops, ops.len())
}

/// A flushed code reads back as the booleans it was made from, without
/// a byte past its end.
pub proof fn law_code_decodes(data: Seq<u8>, ops: Seq<(u8, bool)>)
    requires
        is_code(data, ops),
    ensures
        decodes(dec_start(data), ops),
        dec_after(dec_start(data), ops).pos <= data.len(),
{
    reveal(decodes);
    reveal(dec_after);
    law_code_in_interval(data, ops);
    law_code_is_long_enough(data, ops);
    assert forall|i: int| 0 <= i < ops.len() implies #[trigger] decodes_at(
        dec_start(data),
        ops,
        i,
    ) by {
        reveal(decodes_at);
        law_decoder_inverts_encoder(data, ops, i as nat);
    }
}

/// A padded code reads back as the booleans it was made from.
pub proof fn law_padded_code_decodes(data: Seq<u8>, ops: Seq<(u8, bool)>)
    requires
        is_padded_code(data, ops),
    ensures
        decodes(dec_start(data), ops),
{
    reveal(decodes);
    reveal(dec_after);
    law_padded_code_in_interval(data, ops);
    assert forall|i: int| 0 <= i < ops.len() implies #[trigger] decodes_at(
        dec_start(data),
        ops,
        i,
    ) by {
        reveal(decodes_at);
        law_decoder_inverts_encoder(data, ops, i as nat);
    }
}

/// The code of nothing has four bytes.
pub proof fn lemma_empty_code(data: Seq<u8>)
    requires
        is_code(data, Seq::empty()),
    ensures
        data.len() == 4,
{
}

/// The number that bytes and a tail behind them write.
proof fn lemma_be_value_append(a: Seq<u8>, b: Seq<u8>)
    ensures
        be_value(a + b) == be_value(a) * pow2(8 * b.len()) + be_value(b),
    decreases b.len(),
{
    if b.len() == 0 {
        assert(a + b =~= a);
        let w = pow2(8 * b.len());
        assert(w == 1) by {
            vstd::arithmetic::power2::lemma2_to64();
        }
        let v = be_value(a);
        assert(v * w == v) by (nonlinear_arith)
            requires
                w == 1,
        ;
    } else {
        let b0 = b.drop_last();
        assert((a + b).drop_last() =~= a + b0);
        assert((a + b).last() == b.last());
        lemma_be_value_append(a, b0);
        lemma_pow2_adds(8 * b0.len(), 8);
        assert(8 * b0.len() + 8 == 8 * b.len());
        assert(pow2(8) == 256) by {
            vstd::arithmetic::power2::lemma2_to64();
        }
        let v = be_value(a) as int;
        let w = pow2(8 * b0.len()) as int;
        let t = be_value(b0) as int;
        let x = b.last() as int;
        assert(256 * (v * w + t) + x == v * (w * 256) + (256 * t + x)) by (nonlinear_arith);
        assert(be_value(b) == 256 * t + x);
        assert(be_value(a + b) == 256 * be_value(a + b0) + x);
    }
}

proof fn lemma_tail_in_interval(low: int, range: int, v: int, t: int, w: int, ud: int, ut: int)
    requires
        low >= 0,
        range >= 1,
        0 <= t < ut,
        0 < w <= ud,
        v * w == low * ud,
    ensures
        low * (ud * ut) <= (v * ut + t) * w < (low + range) * (ud * ut),
{
    assert((v * ut + t) * w == (v * w) * ut + t * w) by (nonlinear_arith);
    assert((low * ud) * ut == low * (ud * ut)) by (nonlinear_arith);
    assert((low + range) * (ud * ut) == low * (ud * ut) + range * (ud * ut)) by (nonlinear_arith);
    assert(0 <= t * w < ud * ut) by (nonlinear_arith)
        requires
            0 <= t < ut,
            0 < w <= ud,
    ;
    assert(range * (ud * ut) >= ud * ut) by (nonlinear_arith)
        requires
            range >= 1,
            ud * ut >= 0,
    ;
}

/// A flushed code reads back as the booleans it was made from whatever
/// bytes follow it.
pub proof fn law_code_decodes_before_a_tail(data: Seq<u8>, tail: Seq<u8>, ops: Seq<(u8, bool)>)
    requires
        is_code(data, ops),
    ensures
        decodes(dec_start(data + tail), ops),
{
    let st = enc_run(ops);
    let c = room(st.shifts);
    let all = data + tail;
    assert(8 * data.len() == 8 + st.shifts + c);
    lemma_pow2_adds(c, (8 + st.shifts) as nat);
    lemma_pow2_adds(8 * data.len(), 8 * tail.len());
    assert(8 * all.len() == 8 * data.len() + 8 * tail.len());
    lemma_pow2_pos(c);
    lemma_pow2_pos((8 + st.shifts) as nat);
    lemma_enc_run_range(ops);
    lemma_be_value_append(data, tail);
    lemma_be_value_bound(tail);
    let g = pow2(c) as int;
    let w = pow2((8 + st.shifts) as nat) as int;
    let ud = pow2(8 * data.len()) as int;
    let v = be_value(data) as int;
    assert(w <= g * w) by (nonlinear_arith)
        requires
            g >= 1,
            w >= 0,
    ;
    assert((st.low * g) * w == st.low * (g * w)) by (nonlinear_arith);
    lemma_tail_in_interval(
        st.low as int,
        st.range as int,
        v,
        be_value(tail) as int,
        w,
        ud,
        pow2(8 * tail.len()) as int,
    );
    assert(in_interval(all, st));
    reveal(decodes);
    assert forall|i: int| 0 <= i < ops.len() implies #[trigger] decodes_at(
        dec_start(all),
        ops,
        i,
    ) by {
        reveal(decodes_at);
        law_decoder_inverts_encoder(all, ops, i as nat);
    }
}

proof fn lemma_dec_run_same(d: DecState, a: Seq<(u8, bool)>, b: Seq<(u8, bool)>, n: nat)
    requires
        n <= a.len(),
        n <= b.len(),
        forall|i: int| 0 <= i < n ==> a[i] == b[i],
    ensures
        dec_run(d, a, n) == dec_run(d, b, n),
    decreases n,
{
    if n > 0 {
        lemma_dec_run_same(d, a, b, (n - 1) as nat);
    }
}

proof fn lemma_dec_run_append(d: DecState, a: Seq<(u8, bool)>, b: Seq<(u8, bool)>, n: nat)
    requires
        n <= b.len(),
    ensures
        dec_run(d, a + b, a.len() + n) == dec_run(dec_after(d, a), b, n),
    decreases n,
{
    reveal(dec_after);
    if n == 0 {
        lemma_dec_run_same(d, a + b, a, a.len());
    } else {
        lemma_dec_run_append(d, a, b, (n - 1) as nat);
    }
}

proof fn lemma_at_append_left(d: DecState, a: Seq<(u8, bool)>, b: Seq<(u8, bool)>, i: int)
    requires
        0 <= i < a.len(),
    ensures
        decodes_at(d, a + b, i) == decodes_at(d, a, i),
{
    reveal(decodes_at);
    assert((a + b)[i] == a[i]);
    lemma_dec_run_same(d, a + b, a, i as nat);
}

proof fn lemma_at_append_right(d: DecState, a: Seq<(u8, bool)>, b: Seq<(u8, bool)>, i: int)
    requires
        0 <= i < b.len(),
    ensures
        decodes_at(d, a + b, a.len() + i) == decodes_at(dec_after(d, a), b, i),
{
    reveal(decodes_at);
    reveal(dec_after);
    assert((a + b)[a.len() + i] == b[i]);
    lemma_dec_run_append(d, a, b, i as nat);
}

/// Reading `a` and `b` in one go is reading `a`, then `b`.
pub proof fn lemma_decodes_append(d: DecState, a: Seq<(u8, bool)>, b: Seq<(u8, bool)>)
    ensures
        decodes(d, a + b) == (decodes(d, a) && decodes(dec_after(d, a), b)),
        dec_after(d, a + b) == dec_after(dec_after(d, a), b),
{
    reveal(decodes);
    let ab = a + b;
    assert(dec_after(d, ab) == dec_after(dec_after(d, a), b)) by {
        reveal(dec_after);
        lemma_dec_run_append(d, a, b, b.len());
    }
    if decodes(d, ab) {
        assert forall|i: int| 0 <= i < a.len() implies #[trigger] decodes_at(d, a, i) by {
            lemma_at_append_left(d, a, b, i);
        }
        assert forall|i: int| 0 <= i < b.len() implies #[trigger] decodes_at(
            dec_after(d, a),
            b,
            i,
        ) by {
            lemma_at_append_right(d, a, b, i);
        }
    }
    if decodes(d, a) && decodes(dec_after(d, a), b) {
        assert forall|i: int| 0 <= i < ab.len() implies #[trigger] decodes_at(d, ab, i) by {
            if i < a.len() {
                lemma_at_append_left(d, a, b, i);
            } else {
                lemma_at_append_right(d, a, b, i - a.len());
            }
        }
    }
}

pub proof fn lemma_append_assoc(a: Seq<(u8, bool)>, b: Seq<(u8, bool)>, c: Seq<(u8, bool)>)
    ensures
        a + b + c == a + (b + c),
{
    assert(a + b + c =~= a + (b + c));
}

/// Nothing written is nothing read.
pub proof fn lemma_decodes_nothing(d: DecState)
    ensures
        decodes(d, Seq::empty()),
        dec_after(d, Seq::empty()) == d,
{
    reveal(decodes);
    reveal(dec_after);
}

/// One boolean.
pub open spec fn one_op(prob: u8, bit: bool) -> Seq<(u8, bool)> {
    seq![(prob, bit)]
}

pub proof fn lemma_decodes_one(d: DecState, prob: u8, bit: bool)
    ensures
        decodes(d, one_op(prob, bit)) == (dec_bit(d, prob) == bit),
        dec_after(d, one_op(prob, bit)) == dec_next(d, prob),
{
    reveal(decodes);
    reveal(dec_after);
    let ops = one_op(prob, bit);
    reveal_with_fuel(dec_run, 2);
    assert(ops[0] == (prob, bit));
    assert(dec_run(d, ops, 0) == d);
    reveal(decodes_at);
    assert(decodes_at(d, ops, 0) == (dec_bit(d, prob) == bit));
}

/// Flat booleans that write the low `n` bits of `v`, highest first.
pub open spec fn literal_ops(v: int, n: nat) -> Seq<(u8, bool)>
    decreases n,
{
    if n == 0 {
        Seq::empty()
    } else {
        literal_ops(v / 2, (n - 1) as nat) + one_op(128, v % 2 == 1)
    }
}

/// Flat booleans that write `v` as `n` magnitude bits and a sign.
pub open spec fn signed_ops(v: int, n: nat) -> Seq<(u8, bool)> {
    literal_ops(if v < 0 { -v } else { v }, n) + one_op(128, v < 0)
}

} // verus!
