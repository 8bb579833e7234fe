//! Boolean encoder with padded output, and the bit counting that goes with it.
use crate::bit_cost;
use crate::range_coder;
use crate::range_coder::CoderState;
use crate::range_encoder::RangeEncoder;
use vstd::arithmetic::power::{lemma_pow1, lemma_pow_positive, pow};
use vstd::arithmetic::power2::{
    lemma2_to64, lemma_pow2_pos, lemma_pow2_strictly_increases, lemma_pow2_unfold, pow2,
};
use vstd::prelude::*;

verus! {

/// Boolean encoder that ends its code with padding booleans.
pub struct BoolEncoder {
    core: RangeEncoder,
}

impl View for BoolEncoder {
    type V = Seq<(u8, bool)>;

    /// The booleans coded so far, each with its probability.
    closed spec fn view(&self) -> Seq<(u8, bool)> {
        self.core@
    }
}

impl Default for BoolEncoder {
    fn default() -> (e: Self)
        ensures
            e.wf(),
            e@ == Seq::<(u8, bool)>::empty(),
    {
        BoolEncoder::new()
    }
}

impl BoolEncoder {
    pub closed spec fn wf(&self) -> bool {
        self.core.wf()
    }

    pub fn new() -> (e: Self)
        ensures
            e.wf(),
            e@ == Seq::<(u8, bool)>::empty(),
    {
        BoolEncoder { core: RangeEncoder::new() }
    }

    /// Codes one boolean at probability `prob` / 256 of being `false`.
    pub fn write_bool(&mut self, prob: u32, bit: bool)
        requires
            old(self).wf(),
            prob <= 255,
        ensures
            final(self).wf(),
            final(self)@ == old(self)@.push((prob as u8, bit)),
    {
        self.core.write_bool(prob as u8, bit);
    }

    /// Codes an `n`-bit unsigned number, highest bit first, at even odds.
    pub fn write_literal(&mut self, n: u32, value: u32)
        requires
            old(self).wf(),
            n <= 32,
        ensures
            final(self).wf(),
            final(self)@ == old(self)@ + range_coder::literal_ops(value as int, n as nat),
    {
        self.core.write_literal(value, n);
    }

    /// Codes a signed number: `n` magnitude bits, then the sign.
    pub fn write_signed_literal(&mut self, n: u32, value: i32)
        requires
            old(self).wf(),
            n <= 32,
        ensures
            final(self).wf(),
            final(self)@ == old(self)@ + range_coder::signed_ops(value as int, n as nat),
    {
        self.core.write_signed_literal(value, n);
    }

    /// Codes a flag at even odds.
    pub fn write_flag(&mut self, b: bool)
        requires
            old(self).wf(),
        ensures
            final(self).wf(),
            final(self)@ == old(self)@.push((128u8, b)),
    {
        self.core.write_bool(128, b);
    }

    /// Number of bytes that have left the register.
    pub fn bytes_written(&self) -> (n: usize)
        requires
            self.wf(),
        ensures
            n == range_coder::emitted(range_coder::enc_run(self@).shifts),
    {
        self.core.bytes_written()
    }

    /// Ends the code with 32 flat `false` and returns its bytes.
    pub fn finish(self) -> (bytes: Vec<u8>)
        requires
            self.wf(),
        ensures
            range_coder::is_padded_code(bytes@, self@),
    {
        self.core.pad_out()
    }
}

/// Number of doublings that bring `range` to at least 128.
pub open spec fn doublings(range: int) -> nat
    decreases 256 - range,
{
    if 0 < range < 128 {
        1 + doublings(2 * range)
    } else {
        0
    }
}

/// `range` doubled until it is at least 128.
pub open spec fn normalized(range: int) -> int
    decreases 256 - range,
{
    if 0 < range < 128 {
        normalized(2 * range)
    } else {
        range
    }
}

/// Range that one boolean leaves, before it is normalized.
pub open spec fn picked_range(range: int, prob: int, bit: bool) -> int {
    if bit {
        range - range_coder::split_of(range, prob)
    } else {
        range_coder::split_of(range, prob)
    }
}

/// Counts the bits that a [`BoolEncoder`] would shift out, without writing any.
#[derive(Clone, Copy, Debug)]
pub struct BoolCounter {
    range: u32,
    bits: u64,
}

impl Default for BoolCounter {
    fn default() -> (c: Self)
        ensures
            c.wf(),
            c.range_spec() == 255,
            c.bits_spec() == 0,
    {
        BoolCounter::new()
    }
}

impl BoolCounter {
    pub closed spec fn wf(&self) -> bool {
        128 <= self.range <= 255
    }

    pub closed spec fn range_spec(&self) -> int {
        self.range as int
    }

    pub closed spec fn bits_spec(&self) -> int {
        self.bits as int
    }

    pub fn new() -> (c: Self)
        ensures
            c.wf(),
            c.range_spec() == 255,
            c.bits_spec() == 0,
    {
        BoolCounter { range: 255, bits: 0 }
    }

    /// Counts one boolean.
    pub fn write_bool(&mut self, prob: u32, bit: bool)
        requires
            old(self).wf(),
            prob <= 255,
            old(self).bits_spec() + 7 <= u64::MAX,
        ensures
            final(self).wf(),
            ({
                let r = picked_range(old(self).range_spec(), prob as int, bit);
                &&& final(self).range_spec() == normalized(r)
                &&& final(self).bits_spec() == old(self).bits_spec() + doublings(r)
                &&& doublings(r) <= 7
            }),
    {
        proof {
            range_coder::lemma_split_bounds(self.range as int, prob as u8);
        }
        assert((self.range - 1) * prob <= 254 * 255) by (nonlinear_arith)
            requires
                1 <= self.range <= 255,
                prob <= 255,
        ;
        let split: u32 = 1 + (self.range - 1) * prob / 256;
        let start: u32 = if bit {
            self.range - split
        } else {
            split
        };
        let mut range: u32 = start;
        let mut shifts: u64 = 0;
        proof {
            lemma_doublings_bound(start as int);
        }
        while range < 128
            invariant
                1 <= range <= 255,
                normalized(range as int) == normalized(start as int),
                shifts + doublings(range as int) == doublings(start as int),
                doublings(start as int) <= 7,
            decreases 256 - range,
        {
            range = range * 2;
            shifts = shifts + 1;
        }
        self.range = range;
        self.bits = self.bits + shifts;
    }

    /// Counts an `n`-bit number.
    pub fn write_literal(&mut self, n: u32, value: u32)
        requires
            old(self).wf(),
            n <= 32,
            old(self).bits_spec() + 7 * 32 <= u64::MAX,
        ensures
            final(self).wf(),
            (final(self).range_spec(), final(self).bits_spec()) == count_run(
                (old(self).range_spec(), old(self).bits_spec()),
                range_coder::literal_ops(value as int, n as nat),
            ),
    {
        let mut i: u32 = n;
        let ghost start = (self.range as int, self.bits as int);
        let ghost all = range_coder::literal_ops(value as int, n as nat);
        proof {
            lemma_literal_ops_at(value as int, n as nat);
        }
        while i > 0
            invariant
                i <= n <= 32,
                self.wf(),
                all == range_coder::literal_ops(value as int, n as nat),
                all.len() == n,
                forall|j: int|
                    0 <= j < n ==> #[trigger] all[j] == (
                        128u8,
                        value as int / vstd::arithmetic::power2::pow2((n - 1 - j) as nat) as int % 2
                            == 1,
                    ),
                (self.range as int, self.bits as int) == count_run(start, all.take(n - i)),
                self.bits <= start.1 + 7 * (n - i),
                start.1 + 7 * 32 <= u64::MAX,
            decreases i,
        {
            i = i - 1;
            let ghost j = n - 1 - i;
            proof {
                vstd::bits::lemma_u32_shr_is_div(value, i);
                assert(all.take(j + 1).drop_last() =~= all.take(j));
                assert(all[j].0 == 128u8);
            }
            let b: bool = (value >> i) % 2 == 1;
            self.write_bool(128, b);
        }
        assert(all.take(n as int) =~= all);
    }

    /// Bits counted so far.
    pub fn bits(&self) -> (n: u64)
        ensures
            n == self.bits_spec(),
    {
        self.bits
    }

    /// Bits counted so far, in 1/256 of a bit.
    pub fn bits_x256(&self) -> (n: u64)
        requires
            256 * self.bits_spec() <= u64::MAX,
        ensures
            n == 256 * self.bits_spec(),
    {
        self.bits * 256
    }
}

/// Range and bit count after counting `ops`.
pub open spec fn count_run(start: (int, int), ops: Seq<(u8, bool)>) -> (int, int)
    decreases ops.len(),
{
    if ops.len() == 0 {
        start
    } else {
        let (range, bits) = count_run(start, ops.drop_last());
        let r = picked_range(range, ops.last().0 as int, ops.last().1);
        (normalized(r), bits + doublings(r))
    }
}

proof fn lemma_doublings_bound(range: int)
    requires
        1 <= range <= 255,
    ensures
        doublings(range) <= 7,
        128 <= normalized(range) <= 255,
{
    reveal_with_fuel(doublings, 9);
    reveal_with_fuel(normalized, 9);
}

proof fn lemma_literal_ops_at(v: int, n: nat)
    requires
        v >= 0,
    ensures
        range_coder::literal_ops(v, n).len() == n,
        forall|j: int|
            0 <= j < n ==> #[trigger] range_coder::literal_ops(v, n)[j] == (
                128u8,
                v / vstd::arithmetic::power2::pow2((n - 1 - j) as nat) as int % 2 == 1,
            ),
    decreases n,
{
    if n > 0 {
        let m = (n - 1) as nat;
        lemma_literal_ops_at(v / 2, m);
        vstd::arithmetic::power2::lemma2_to64();
        assert forall|j: int| 0 <= j < n implies #[trigger] range_coder::literal_ops(v, n)[j] == (
            128u8,
            v / vstd::arithmetic::power2::pow2((n - 1 - j) as nat) as int % 2 == 1,
        ) by {
            if j < m {
                assert(range_coder::literal_ops(v, n)[j] == range_coder::literal_ops(v / 2, m)[j]);
                let e = (m - 1 - j) as nat;
                vstd::arithmetic::power2::lemma_pow2_pos(e);
                vstd::arithmetic::power2::lemma_pow2_unfold(e + 1);
                vstd::arithmetic::div_mod::lemma_div_denominator(
                    v,
                    2,
                    vstd::arithmetic::power2::pow2(e) as int,
                );
            } else {
                assert(v / 1 == v);
            }
        }
    }
}

proof fn lemma_norm_counts(st: CoderState)
    ensures
        range_coder::enc_norm(st).range == normalized(st.range),
        range_coder::enc_norm(st).shifts == st.shifts + doublings(st.range),
    decreases 256 - st.range,
{
    if 0 < st.range < 128 {
        lemma_norm_counts(range_coder::enc_double(st));
    }
}

/// A fresh counter that counts `ops` holds the range of an encoder that
/// wrote them, and exactly the doublings that the encoder made.
pub proof fn law_counter_matches_encoder(ops: Seq<(u8, bool)>)
    ensures
        count_run((255, 0), ops) == (range_coder::enc_run(ops).range, range_coder::enc_run(ops).shifts as int),
    decreases ops.len(),
{
    if ops.len() > 0 {
        law_counter_matches_encoder(ops.drop_last());
        lemma_norm_counts(range_coder::enc_pick(range_coder::enc_run(ops.drop_last()), ops.last().0, ops.last().1));
    }
}

/// The bits counted are never more than 32 ahead of the bytes that an
/// encoder has written, and never behind them.
pub proof fn law_counter_brackets_bytes(ops: Seq<(u8, bool)>)
    ensures
        8 * range_coder::emitted(range_coder::enc_run(ops).shifts) <= count_run((255, 0), ops).1,
        count_run((255, 0), ops).1 <= 8 * range_coder::emitted(range_coder::enc_run(ops).shifts) + 32,
{
    law_counter_matches_encoder(ops);
}

/// `c` is the whole number nearest to `-log2(x / 256) * 256`. Written out
/// without logarithms, `2^(2c) * x^512` is at most a factor of two away from
/// `2^4096`.
pub open spec fn nearest_cost(x: int, c: int) -> bool {
    &&& pow2(4096) <= 2 * pow2((2 * c) as nat) * pow(x, 512)
    &&& pow2((2 * c) as nat) * pow(x, 512) <= 2 * pow2(4096)
}

/// Cost of an event of probability `x / 256` to the nearest 1/256 of a bit;
/// 2048 for an event that does not happen.
///
/// The logarithm of `x` is taken to nine binary digits, each found by
/// squaring; half of what it lacks of 4096 is the cost.
fn neg_log2_x256(x: u32) -> (c: u16)
    requires
        x <= 256,
    ensures
        x == 0 ==> c == 2048,
        x >= 1 ==> nearest_cost(x as int, c as int),
        c <= 2048,
{
    if x == 0 {
        return 2048;
    }
    let mut y: u64 = x as u64 * 0x80_0000;
    let mut log: u32 = 8;
    proof {
        lemma2_to64();
    }
    while y < 0x8000_0000
        invariant
            1 <= x <= 256,
            1 <= y < 0x1_0000_0000,
            log <= 8,
            y * pow2(log as nat) == x * 0x8000_0000,
            y % 0x100_0000 == 0 || y == x * 0x80_0000,
        decreases 0x1_0000_0000 - y,
    {
        proof {
            lemma2_to64();
            if log == 0 {
                assert(y * pow2(0) == y);
            }
            lemma_pow2_unfold(log as nat);
            let h = pow2((log - 1) as nat);
            assert(y * (2 * h) == (y * 2) * h) by (nonlinear_arith);
        }
        y = y * 2;
        log = log - 1;
    }
    let ghost start = y as int;
    proof {
        let w = pow2(log as nat);
        lemma2_to64();
        lemma_pow2_pos(log as nat);
        lemma_pow1(x as int);
        assert((y + 1) * w == y * w + w) by (nonlinear_arith);
    }
    let mut i: u32 = 0;
    while i < 9
        invariant
            1 <= x,
            i <= 9,
            0x8000_0000 <= y < 0x1_0000_0000,
            log < 9 * pow2(i as nat),
            pow2(i as nat) <= 512,
            bit_cost::squared_times(start, 9) == bit_cost::squared_times(y as int, (9 - i) as nat),
            bit_cost::brackets(
                pow(x as int, pow2(i as nat)),
                y as int,
                log as nat,
                bit_cost::slack(i as nat),
            ),
        decreases 9 - i,
    {
        proof {
            lemma2_to64();
            lemma_pow2_unfold((i + 1) as nat);
            bit_cost::lemma_slack_bound(i as nat);
            bit_cost::lemma_square_bound(y as int);
            lemma_pow_positive(x as int, pow2(i as nat));
            bit_cost::lemma_power_step(x as int, i as nat);
            bit_cost::lemma_square_step(
                pow(x as int, pow2(i as nat)),
                y as int,
                log as nat,
                bit_cost::slack(i as nat),
            );
            if i < 8 {
                lemma_pow2_strictly_increases((i + 1) as nat, 9);
            }
        }
        let square: u64 = y * y;
        if square >= 0x8000_0000_0000_0000 {
            y = square / 0x1_0000_0000;
            log = 2 * log + 1;
        } else {
            y = square / 0x8000_0000;
            log = 2 * log;
        }
        i = i + 1;
    }
    proof {
        lemma2_to64();
        bit_cost::lemma_clear(start);
        bit_cost::lemma_slack_bound(9);
        bit_cost::lemma_whole_log(
            pow(x as int, 512),
            y as int,
            log as nat,
            bit_cost::slack(9),
        );
        bit_cost::lemma_half_is_nearest(x as int, log as nat);
    }
    ((4096 - log) / 2) as u16
}

/// The chance of `outcome`, in 1/256, at probability `prob` / 256 of `false`;
/// a probability of zero counts as one.
pub open spec fn chance(prob: int, outcome: bool) -> int {
    if outcome {
        256 - prob
    } else if prob == 0 {
        1
    } else {
        prob
    }
}

/// All costs: row 0 for `false`, row 1 for `true`, indexed by probability.
pub fn build_prob_cost_table() -> (t: [[u16; 256]; 2])
    ensures
        forall|p: int|
            0 <= p < 256 ==> nearest_cost(chance(p, false), #[trigger] t[0][p] as int),
        forall|p: int|
            0 <= p < 256 ==> nearest_cost(chance(p, true), #[trigger] t[1][p] as int),
{
    let mut t: [[u16; 256]; 2] = [[0u16; 256]; 2];
    let mut p: usize = 0;
    while p < 256
        invariant
            p <= 256,
            forall|q: int|
                0 <= q < p ==> nearest_cost(chance(q, false), #[trigger] t[0][q] as int),
            forall|q: int|
                0 <= q < p ==> nearest_cost(chance(q, true), #[trigger] t[1][q] as int),
        decreases 256 - p,
    {
        let num_false: u32 = if p == 0 {
            1
        } else {
            p as u32
        };
        t[0][p] = neg_log2_x256(num_false);
        t[1][p] = neg_log2_x256(256 - p as u32);
        p = p + 1;
    }
    t
}

/// Cost in 1/256 of a bit of coding one boolean.
pub fn bool_cost_x256(prob: u8, outcome: bool) -> (c: u32)
    ensures
        nearest_cost(chance(prob as int, outcome), c as int),
        c <= 2048,
{
    let num: u32 = if outcome {
        256 - prob as u32
    } else if prob == 0 {
        1
    } else {
        prob as u32
    };
    neg_log2_x256(num) as u32
}

/// Coding `false` costs less the higher its probability, and coding
/// `true` costs more.
pub proof fn law_bool_cost_is_monotone(p: int, q: int, c: nat, d: nat)
    requires
        0 <= p <= q <= 255,
    ensures
        nearest_cost(chance(p, false), c as int) && nearest_cost(chance(q, false), d as int) ==> c
            >= d,
        nearest_cost(chance(p, true), c as int) && nearest_cost(chance(q, true), d as int) ==> c
            <= d,
{
    if nearest_cost(chance(p, false), c as int) && nearest_cost(chance(q, false), d as int) {
        bit_cost::law_cost_is_monotone(chance(p, false), chance(q, false), c, d);
    }
    if nearest_cost(chance(p, true), c as int) && nearest_cost(chance(q, true), d as int) {
        bit_cost::law_cost_is_monotone(chance(q, true), chance(p, true), d, c);
    }
}

/// Coding `true` costs what coding `false` costs at the other probability.
pub proof fn law_bool_cost_is_symmetric(p: int, c: nat, d: nat)
    requires
        1 <= p <= 255,
        nearest_cost(chance(p, true), c as int),
        nearest_cost(chance(256 - p, false), d as int),
    ensures
        c == d,
{
    bit_cost::law_cost_is_monotone(256 - p, 256 - p, c, d);
}

} // verus!
