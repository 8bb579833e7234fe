//! Register-level boolean encoder that both public encoders share.
use crate::range_coder;
use crate::range_coder::CoderState;
use vstd::arithmetic::power2::{lemma2_to64, lemma_pow2_adds, lemma_pow2_pos, lemma_pow2_unfold, pow2};
use vstd::prelude::*;

verus! {

/// Boolean encoder: bytes that have left the register, and the register.
pub struct RangeEncoder {
    out: Vec<u8>,
    range: u32,
    bottom: u32,
    bit_count: u32,
    ops: Ghost<Seq<(u8, bool)>>,
}

impl View for RangeEncoder {
    type V = Seq<(u8, bool)>;

    /// The booleans coded so far, each with its probability.
    closed spec fn view(&self) -> Seq<(u8, bool)> {
        self.ops@
    }
}

/// The encoder's registers stand for the interval `st`: the bytes written so
/// far and the register, which may hold one carry that is still to be added
/// to those bytes, make up its low end.
spec fn holds(out: Seq<u8>, bottom: int, bit_count: int, st: CoderState) -> bool {
    &&& out.len() == range_coder::emitted(st.shifts)
    &&& bit_count == range_coder::room(st.shifts)
    &&& 1 <= bit_count <= 24
    &&& 0 <= bottom
    &&& range_coder::be_value(out) * pow2((32 - bit_count) as nat) + bottom == st.low
    &&& st.low + st.range <= pow2((8 + st.shifts) as nat)
    &&& register_bound(out.len(), bottom, bit_count, st.range)
}

/// What keeps the register inside 32 bits.
spec fn register_bound(n: nat, bottom: int, bit_count: int, range: int) -> bool {
    if n == 0 {
        bottom + range <= pow2((32 - bit_count) as nat)
    } else {
        bit_count <= 8 && bottom + range <= 0x100_00ff * pow2((8 - bit_count) as nat)
    }
}

/// Adds one to the number that the bytes write, carrying to the left.
fn add_one_to_output(out: &mut Vec<u8>)
    requires
        range_coder::be_value(old(out)@) + 1 < pow2(8 * old(out)@.len()),
    ensures
        final(out)@.len() == old(out)@.len(),
        range_coder::be_value(final(out)@) == range_coder::be_value(old(out)@) + 1,
{
    let mut i: usize = out.len();
    let ghost s = out@;
    proof {
        lemma_empty_code(s);
    }
    while i > 0
        invariant_except_break
            1 <= i <= out@.len(),
            out@.len() == s.len(),
            range_coder::be_value(s) + 1 < pow2(8 * s.len()),
            forall|j: int| 0 <= j < i ==> out@[j] == s[j],
            forall|j: int| i <= j < s.len() ==> s[j] == 255 && out@[j] == 0,
        ensures
            range_coder::be_value(out@) == range_coder::be_value(s) + 1,
            out@.len() == s.len(),
        decreases i,
    {
        i = i - 1;
        if out[i] == 255 {
            out[i] = 0;
            proof {
                if i == 0 {
                    lemma_all_ones(s);
                }
            }
        } else {
            let b: u8 = out[i];
            out[i] = b + 1;
            proof {
                lemma_carry(s, out@, i as nat);
            }
            break;
        }
    }
}

proof fn lemma_empty_code(s: Seq<u8>)
    ensures
        s.len() == 0 ==> !(range_coder::be_value(s) + 1 < pow2(8 * s.len())),
{
    lemma2_to64();
}

/// A number whose bytes are all 255 has no room for a carry.
proof fn lemma_all_ones(s: Seq<u8>)
    requires
        forall|j: int| 0 <= j < s.len() ==> s[j] == 255,
    ensures
        range_coder::be_value(s) + 1 == pow2(8 * s.len()),
    decreases s.len(),
{
    lemma2_to64();
    if s.len() > 0 {
        lemma_all_ones(s.drop_last());
        lemma_pow2_adds(8 * s.drop_last().len(), 8);
        assert(8 * s.drop_last().len() + 8 == 8 * s.len());
    }
}

/// Turning `x 255 .. 255` into `x+1 0 .. 0` adds one.
proof fn lemma_carry(s: Seq<u8>, t: Seq<u8>, i: nat)
    requires
        i < s.len(),
        t.len() == s.len(),
        forall|j: int| 0 <= j < i ==> s[j] == t[j],
        s[i as int] < 255,
        t[i as int] == s[i as int] + 1,
        forall|j: int| i < j < s.len() ==> s[j] == 255 && t[j] == 0,
    ensures
        range_coder::be_value(t) == range_coder::be_value(s) + 1,
    decreases s.len(),
{
    if i + 1 == s.len() {
        assert(s.drop_last() =~= t.drop_last());
    } else {
        lemma_carry(s.drop_last(), t.drop_last(), i);
    }
}

/// Four more bytes that write `v`.
spec fn four_more(o: Seq<u8>, v: int) -> Seq<u8> {
    o.push((v / 0x100_0000) as u8).push((v / 0x1_0000 % 256) as u8).push(
        (v / 256 % 256) as u8,
    ).push((v % 256) as u8)
}

proof fn lemma_one_more(o: Seq<u8>, b: u8)
    ensures
        range_coder::be_value(o.push(b)) == range_coder::be_value(o) * 256 + b,
{
    assert(o.push(b).drop_last() =~= o);
}

proof fn lemma_four_more(o: Seq<u8>, v: int)
    requires
        0 <= v < 0x1_0000_0000,
    ensures
        four_more(o, v).len() == o.len() + 4,
        range_coder::be_value(four_more(o, v)) == range_coder::be_value(o) * 0x1_0000_0000 + v,
{
    let a = (v / 0x100_0000) as u8;
    let b = (v / 0x1_0000 % 256) as u8;
    let c = (v / 256 % 256) as u8;
    let d = (v % 256) as u8;
    lemma_one_more(o, a);
    lemma_one_more(o.push(a), b);
    lemma_one_more(o.push(a).push(b), c);
    lemma_one_more(o.push(a).push(b).push(c), d);
    assert(a * 0x100_0000 + b * 0x1_0000 + c * 256 + d == v);
}

/// A register that is shifted up to fill its 32 bits.
proof fn lemma_aligned(b: int, limit: int, bottom: int, scale: int, low: int)
    requires
        b * limit + bottom == low,
        limit * scale == 0x1_0000_0000,
        0 <= bottom < limit,
        scale > 0,
    ensures
        0 <= bottom * scale < 0x1_0000_0000,
        b * 0x1_0000_0000 + bottom * scale == low * scale,
{
    assert(0 <= bottom * scale < 0x1_0000_0000) by (nonlinear_arith)
        requires
            0 <= bottom < limit,
            limit * scale == 0x1_0000_0000,
            scale > 0,
    ;
    assert(b * 0x1_0000_0000 + bottom * scale == low * scale) by (nonlinear_arith)
        requires
            b * limit + bottom == low,
            limit * scale == 0x1_0000_0000,
    ;
}

impl RangeEncoder {
    pub closed spec fn wf(&self) -> bool {
        let st = range_coder::enc_run(self.ops@);
        &&& self.range == st.range
        &&& holds(self.out@, self.bottom as int, self.bit_count as int, st)
    }

    pub fn new() -> (e: RangeEncoder)
        ensures
            e.wf(),
            e@ == Seq::<(u8, bool)>::empty(),
    {
        proof {
            lemma2_to64();
            assert(0 * pow2(8) == 0) by (nonlinear_arith);
        }
        RangeEncoder {
            out: Vec::new(),
            range: 255,
            bottom: 0,
            bit_count: 24,
            ops: Ghost(Seq::empty()),
        }
    }

    /// Every register is zero and nothing is written. No encoder that is ready
    /// to write is blank.
    pub closed spec fn blank(&self) -> bool {
        &&& self.out@ == Seq::<u8>::empty()
        &&& self.range == 0
        &&& self.bottom == 0
        &&& self.bit_count == 0
        &&& self.ops@ == Seq::<(u8, bool)>::empty()
    }

    /// An encoder whose registers are all zero.
    pub fn zeroed() -> (e: RangeEncoder)
        ensures
            e.blank(),
            !e.wf(),
            e@ == Seq::<(u8, bool)>::empty(),
    {
        RangeEncoder {
            out: Vec::new(),
            range: 0,
            bottom: 0,
            bit_count: 0,
            ops: Ghost(Seq::empty()),
        }
    }

    /// Number of bytes that have left the register.
    pub fn bytes_written(&self) -> (n: usize)
        requires
            self.wf() || self.blank(),
        ensures
            n == range_coder::emitted(range_coder::enc_run(self@).shifts),
    {
        self.out.len()
    }

    /// No carry waits in the register.
    pub closed spec fn clean(&self) -> bool {
        self.bottom < pow2((32 - self.bit_count) as nat)
    }

    /// Flushes the register: four bytes that hold its bits, left-aligned.
    pub fn flush(self) -> (bytes: Vec<u8>)
        requires
            self.wf(),
        ensures
            range_coder::is_code(bytes@, self@),
    {
        let ghost st = range_coder::enc_run(self@);
        let ghost m = (32 - self.bit_count) as nat;
        let ghost c = self.bit_count as nat;
        let mut scale: u64 = 1;
        let mut i: u32 = 0;
        proof {
            lemma2_to64();
            range_coder::lemma_enc_run_range(self@);
        }
        while i < self.bit_count
            invariant
                i <= self.bit_count <= 24,
                scale == pow2(i as nat),
            decreases self.bit_count - i,
        {
            proof {
                lemma_pow2_unfold((i + 1) as nat);
                lemma2_to64();
                vstd::arithmetic::power2::lemma_pow2_strictly_increases(i as nat, 24);
            }
            scale = scale * 2;
            i = i + 1;
        }
        let mut out: Vec<u8> = self.out;
        let mut bottom: u64 = self.bottom as u64;
        let limit: u64 = 0x1_0000_0000 / scale;
        proof {
            lemma_pow2_adds(m, c);
            lemma2_to64();
            lemma_pow2_pos(c);
            assert(limit == pow2(m)) by {
                vstd::arithmetic::div_mod::lemma_div_multiples_vanish(pow2(m) as int, pow2(c) as int);
                vstd::arithmetic::mul::lemma_mul_is_commutative(pow2(m) as int, pow2(c) as int);
            }
            lemma_pending(out@, bottom as int, c as int, st);
        }
        if bottom >= limit {
            add_one_to_output(&mut out);
            bottom = bottom - limit;
        }
        proof {
            let b1 = range_coder::be_value(out@) as int;
            let l = limit as int;
            assert(b1 * l + bottom == st.low) by (nonlinear_arith)
                requires
                    bottom as int == self.bottom && b1 == range_coder::be_value(self.out@) || bottom as int
                        == self.bottom - l && b1 == range_coder::be_value(self.out@) + 1,
                    range_coder::be_value(self.out@) * l + self.bottom == st.low,
            ;
            lemma_aligned(b1, l, bottom as int, scale as int, st.low as int);
        }
        let v: u64 = bottom * scale;
        let ghost o = out@;
        out.push((v / 0x100_0000) as u8);
        out.push((v / 0x1_0000 % 256) as u8);
        out.push((v / 256 % 256) as u8);
        out.push((v % 256) as u8);
        proof {
            lemma_four_more(o, v as int);
            assert(out@ =~= four_more(o, v as int));
        }
        out
    }

    /// Ends the code with 32 flat `false` and returns the bytes that have
    /// left the register by then.
    pub fn pad_out(self) -> (bytes: Vec<u8>)
        requires
            self.wf(),
        ensures
            range_coder::is_padded_code(bytes@, self@),
    {
        let mut enc: RangeEncoder = self;
        let ghost ops = enc@;
        let ghost st = range_coder::enc_run(ops);
        let ghost mut k: nat = 0;
        let mut i: u32 = 0;
        proof {
            lemma2_to64();
            assert(ops + range_coder::flat_zeros(0) =~= ops);
            assert(st.low * pow2(0) == st.low) by (nonlinear_arith)
                requires
                    pow2(0) == 1,
            ;
            range_coder::lemma_enc_run_range(ops);
        }
        while i < 32
            invariant
                i <= 32,
                enc.wf(),
                st == range_coder::enc_run(ops),
                128 <= st.range <= 255,
                enc@ == ops + range_coder::flat_zeros(i as nat),
                range_coder::enc_run(enc@).shifts == st.shifts + k,
                range_coder::enc_run(enc@).low == st.low * pow2(k),
                i > 0 ==> range_coder::enc_run(enc@).range != 255,
                k + 1 >= i,
                i == 0 ==> k == 0,
                k >= range_coder::room(st.shifts) ==> enc.clean(),
            decreases 32 - i,
        {
            let ghost before = enc@;
            let ghost cleaned = enc.clean();
            enc.write_bool(128, false);
            proof {
                assert(before.push((128u8, false)) =~= ops + range_coder::flat_zeros((i + 1) as nat));
                range_coder::lemma_enc_run_push(before, 128, false);
                range_coder::lemma_enc_run_range(before);
                let s = range_coder::enc_run(before);
                assert(range_coder::enc_pick(s, 128, false).range >= 64);
                reveal_with_fuel(range_coder::enc_norm, 3);
                if s.range < 255 {
                    lemma_pow2_unfold(k + 1);
                    assert(2 * (st.low * pow2(k)) == st.low * (2 * pow2(k))) by (nonlinear_arith);
                    lemma_room_step(st.shifts, k);
                    k = k + 1;
                }
            }
            i = i + 1;
        }
        let ghost s1 = range_coder::enc_run(enc@);
        proof {
            let m = (32 - enc.bit_count) as nat;
            let l = pow2(m) as int;
            lemma_pow2_pos(m);
            assert(m <= 31 <= k);
            lemma_pow2_adds((k - m) as nat, m);
            let q = pow2((k - m) as nat) as int;
            let b = range_coder::be_value(enc.out@) as int;
            assert(enc.bottom == 0 && b == st.low * q) by (nonlinear_arith)
                requires
                    b * l + enc.bottom == st.low * (q * l),
                    0 <= enc.bottom < l,
                    l > 0,
            {
                assert((st.low * q - b) * l == enc.bottom);
                assert(st.low * q - b == 0);
            }
            // b * 2^(8 + s0) == low0 * 2^(8 * len)
            assert(8 * enc.out@.len() == 8 + st.shifts + (k - m));
            lemma_pow2_adds((k - m) as nat, (8 + st.shifts) as nat);
            let w = pow2((8 + st.shifts) as nat) as int;
            assert((st.low * q) * w == st.low * (q * w)) by (nonlinear_arith);
        }
        enc.out
    }

    /// Codes the low `n` bits of `value` at even odds, highest first.
    pub fn write_literal(&mut self, value: u32, n: u32)
        requires
            old(self).wf(),
            n <= 32,
        ensures
            final(self).wf(),
            final(self)@ == old(self)@ + range_coder::literal_ops(value as int, n as nat),
    {
        let mut i: u32 = n;
        proof {
            lemma2_to64();
            assert(self@ =~= self@ + range_coder::literal_ops(value as int / pow2(n as nat) as int, 0));
        }
        while i > 0
            invariant
                i <= n <= 32,
                self.wf(),
                self@ == old(self)@ + range_coder::literal_ops(
                    value as int / pow2(i as nat) as int,
                    (n - i) as nat,
                ),
            decreases i,
        {
            let ghost hi = value as int / pow2(i as nat) as int;
            let ghost before = self@;
            i = i - 1;
            let shifted: u32 = value >> i;
            proof {
                vstd::bits::lemma_u32_shr_is_div(value, i);
                lemma_pow2_unfold((i + 1) as nat);
                lemma_pow2_pos(i as nat);
                vstd::arithmetic::div_mod::lemma_div_denominator(
                    value as int,
                    pow2(i as nat) as int,
                    2,
                );
                vstd::arithmetic::mul::lemma_mul_is_commutative(pow2(i as nat) as int, 2);
                assert(shifted as int / 2 == hi);
            }
            self.write_bool(128, shifted % 2 == 1);
            assert(self@ =~= old(self)@ + range_coder::literal_ops(shifted as int, (n - i) as nat));
        }
        proof {
            lemma2_to64();
            assert(value as int / 1 == value);
        }
    }

    /// Codes `value` as `n` magnitude bits and a sign.
    pub fn write_signed_literal(&mut self, value: i32, n: u32)
        requires
            old(self).wf(),
            n <= 32,
        ensures
            final(self).wf(),
            final(self)@ == old(self)@ + range_coder::signed_ops(value as int, n as nat),
    {
        let magnitude: u32 = if value == i32::MIN {
            0x8000_0000
        } else if value < 0 {
            (-value) as u32
        } else {
            value as u32
        };
        self.write_literal(magnitude, n);
        self.write_bool(128, value < 0);
        assert(self@ =~= old(self)@ + range_coder::signed_ops(value as int, n as nat));
    }

    /// Codes one boolean at probability `prob` / 256 of being `false`.
    pub fn write_bool(&mut self, prob: u8, bit: bool)
        requires
            old(self).wf(),
        ensures
            final(self).wf(),
            final(self)@ == old(self)@.push((prob, bit)),
            !bit && old(self).clean() ==> final(self).clean(),
            !bit && range_coder::emitted(range_coder::enc_run(old(self)@).shifts) < range_coder::emitted(range_coder::enc_run(final(self)@).shifts)
                ==> final(self).clean(),
    {
        let ghost st0 = range_coder::enc_run(self.ops@);
        let ghost n0 = self.out@.len();
        let ghost target = range_coder::enc_step(st0, prob, bit);
        proof {
            range_coder::lemma_enc_run_push(self.ops@, prob, bit);
            range_coder::lemma_enc_run_range(self.ops@);
            range_coder::lemma_split_bounds(st0.range, prob);
            lemma_register_fits(self.out@.len(), self.bit_count as int, self.bottom as int, st0.range);
        }
        assert((self.range - 1) * prob <= 254 * 255) by (nonlinear_arith)
            requires
                1 <= self.range <= 255,
                prob <= 255,
        ;
        let split: u32 = 1 + (self.range - 1) * (prob as u32) / 256;
        let mut range: u32;
        let mut bottom: u32 = self.bottom;
        if bit {
            bottom = bottom + split;
            range = self.range - split;
        } else {
            range = split;
        }
        let ghost mut st = range_coder::enc_pick(st0, prob, bit);
        while range < 128
            invariant
                1 <= range <= 255,
                range == st.range,
                holds(self.out@, bottom as int, self.bit_count as int, st),
                range_coder::enc_norm(st) == target,
                self.ops@ == old(self).ops@,
                n0 <= self.out@.len(),
                !bit && (old(self).clean() || n0 < self.out@.len()) ==> bottom < pow2(
                    (32 - self.bit_count) as nat,
                ),
            decreases 256 - range,
        {
            let ghost before = st;
            let ghost out0 = self.out@;
            let ghost bottom0 = bottom as int;
            let ghost count0 = self.bit_count as int;
            proof {
                lemma_register_fits(self.out@.len(), self.bit_count as int, bottom as int, st.range);
                if bottom >= 0x8000_0000 {
                    lemma_carry_has_room(self.out@, bottom as int, self.bit_count as int, st);
                }
                st = range_coder::enc_double(st);
            }
            range = range * 2;
            if bottom >= 0x8000_0000 {
                add_one_to_output(&mut self.out);
                bottom = bottom - 0x8000_0000;
            }
            bottom = bottom * 2;
            self.bit_count = self.bit_count - 1;
            if self.bit_count == 0 {
                let byte: u8 = (bottom / 0x100_0000) as u8;
                let ghost kept = self.out@;
                self.out.push(byte);
                assert(self.out@.drop_last() =~= kept);
                bottom = bottom % 0x100_0000;
                self.bit_count = 8;
            }
            proof {
                lemma2_to64();
                lemma_pow2_unfold((33 - count0) as nat);
                lemma_double_holds(
                    out0,
                    bottom0,
                    count0,
                    before,
                    self.out@,
                    bottom as int,
                    self.bit_count as int,
                );
            }
        }
        self.range = range;
        self.bottom = bottom;
        proof {
            self.ops@ = self.ops@.push((prob, bit));
        }
    }
}

/// The register and the part that is about to be added stay in 32 bits.
proof fn lemma_register_fits(n: nat, bit_count: int, bottom: int, range: int)
    requires
        1 <= bit_count <= 24,
        register_bound(n, bottom, bit_count, range),
    ensures
        bottom + range <= 0x8000_0000 + 255 * 128,
        bit_count > 1 ==> bottom + range <= 0x4000_0000 + 255 * 64,
{
    lemma2_to64();
    if n == 0 {
        if bit_count > 1 {
            if 32 - bit_count < 30 {
                vstd::arithmetic::power2::lemma_pow2_strictly_increases(
                    (32 - bit_count) as nat,
                    30,
                );
            } else {
                assert(pow2((32 - bit_count) as nat) == 0x4000_0000);
            }
        } else {
            assert(pow2((32 - bit_count) as nat) == 0x8000_0000);
        }
    } else {
        if bit_count == 1 {
            assert(pow2((8 - bit_count) as nat) == 128);
        } else if 8 - bit_count < 6 {
            vstd::arithmetic::power2::lemma_pow2_strictly_increases((8 - bit_count) as nat, 6);
        } else {
            assert(pow2((8 - bit_count) as nat) == 64);
        }
    }
}

/// A waiting carry fits into the written bytes, and nothing above it waits.
proof fn lemma_pending(out: Seq<u8>, bottom: int, bit_count: int, st: CoderState)
    requires
        holds(out, bottom, bit_count, st),
        st.range >= 1,
    ensures
        bottom < 2 * pow2((32 - bit_count) as nat),
        bottom >= pow2((32 - bit_count) as nat) ==> range_coder::be_value(out) + 1 < pow2(8 * out.len()),
{
    lemma2_to64();
    let m = (32 - bit_count) as nat;
    let l = pow2(m) as int;
    assert(8 + st.shifts == 8 * out.len() + m);
    lemma_pow2_adds(8 * out.len(), m);
    lemma_pow2_pos(m);
    let v = range_coder::be_value(out) as int;
    let w = pow2(8 * out.len()) as int;
    if bottom >= l {
        assert(v + 1 < w) by (nonlinear_arith)
            requires
                v * l + bottom + st.range <= w * l,
                bottom >= l,
                st.range >= 1,
                l > 0,
        {
            assert((v + 1) * l < w * l);
        }
    }
    if out.len() > 0 {
        lemma_pow2_adds((8 - bit_count) as nat, 24);
    }
}

/// Doubling past the room that is left moves a byte out.
proof fn lemma_room_step(shifts: nat, k: nat)
    ensures
        k + 1 == range_coder::room(shifts) ==> range_coder::emitted(shifts + k) < range_coder::emitted(shifts + k + 1),
{
}

/// When the carry comes out of the register the written bytes can take it.
proof fn lemma_carry_has_room(out: Seq<u8>, bottom: int, bit_count: int, st: CoderState)
    requires
        holds(out, bottom, bit_count, st),
        st.range >= 1,
        bottom >= 0x8000_0000,
    ensures
        bit_count == 1,
        out.len() >= 1,
        range_coder::be_value(out) + 1 < pow2(8 * out.len()),
{
    lemma_register_fits(out.len(), bit_count, bottom, st.range);
    lemma2_to64();
    assert(8 + st.shifts == 8 * out.len() + 31);
    lemma_pow2_adds(8 * out.len(), 31);
    let v = range_coder::be_value(out) as int;
    let w = pow2(8 * out.len()) as int;
    assert(v * 0x8000_0000 + 0x8000_0000 < w * 0x8000_0000);
    if out.len() == 0 {
        assert(bottom + st.range <= pow2(31));
    }
    assert(v + 1 < w) by (nonlinear_arith)
        requires
            v * 0x8000_0000 + 0x8000_0000 < w * 0x8000_0000,
    ;
}

/// One doubling of the registers is one doubling of the interval.
proof fn lemma_double_holds(
    out0: Seq<u8>,
    bottom0: int,
    count0: int,
    st: CoderState,
    out1: Seq<u8>,
    bottom1: int,
    count1: int,
)
    requires
        holds(out0, bottom0, count0, st),
        1 <= st.range < 128,
        ({
            let carry = bottom0 >= 0x8000_0000;
            let kept = if carry {
                bottom0 - 0x8000_0000
            } else {
                bottom0
            };
            let v = if carry {
                range_coder::be_value(out0) + 1
            } else {
                range_coder::be_value(out0)
            };
            if count0 == 1 {
                &&& count1 == 8
                &&& out1.len() == out0.len() + 1
                &&& range_coder::be_value(out1.drop_last()) == v
                &&& out1.last() == (2 * kept) / 0x100_0000
                &&& bottom1 == (2 * kept) % 0x100_0000
            } else {
                &&& count1 == count0 - 1
                &&& !carry
                &&& out1 == out0
                &&& bottom1 == 2 * kept
            }
        }),
    ensures
        holds(out1, bottom1, count1, range_coder::enc_double(st)),
{
    lemma2_to64();
    lemma_register_fits(out0.len(), count0, bottom0, st.range);
    lemma_pow2_unfold((9 + st.shifts) as nat);
    let v0 = range_coder::be_value(out0);
    if count0 == 1 {
        let carry = bottom0 >= 0x8000_0000;
        let kept = if carry {
            bottom0 - 0x8000_0000
        } else {
            bottom0
        };
        let v = range_coder::be_value(out1.drop_last());
        assert(range_coder::be_value(out1) == 256 * v + out1.last());
        assert(v * 0x8000_0000 + kept == v0 * 0x8000_0000 + bottom0);
        assert((256 * v + out1.last()) * 0x100_0000 + bottom1 == 2 * (v * 0x8000_0000 + kept));
        assert(pow2((8 - count1) as nat) == 1);
    } else {
        lemma_pow2_unfold((32 - count1) as nat);
        let w = pow2((32 - count0) as nat);
        assert(v0 * (2 * w) == 2 * (v0 * w)) by (nonlinear_arith);
        if out0.len() > 0 {
            lemma_pow2_unfold((8 - count1) as nat);
        }
    }
}

} // verus!
