//! Boolean (range) entropy decoder.
//!
//! Two families of reads share one set of registers. The `get_*` reads treat
//! the stream as followed by zero bytes for ever, so they always succeed. The
//! `read_*` reads make the same step and report `EndOfStream` when it needed
//! a byte that the stream does not have.
use crate::error::Vp8Error;
use crate::range_coder;
use crate::range_coder::DecState;
use vstd::prelude::*;

verus! {

/// Why a boolean decoder gave up.
#[derive(Debug, Clone, Copy, PartialEq, Eq, Structural)]
pub enum BoolDecoderError {
    /// Fewer than the two bytes that fill the window.
    InputTooShort,
    /// A read needed a byte past the end of the input.
    EndOfStream,
}

/// Boolean decoder over a borrowed byte string.
pub struct BoolDecoder<'a> {
    input: &'a [u8],
    pos: usize,
    value: u32,
    range: u32,
    bit_count: u32,
    overrun: bool,
    consumed: Ghost<nat>,
}

impl<'a> View for BoolDecoder<'a> {
    type V = DecState;

    closed spec fn view(&self) -> DecState {
        DecState {
            data: self.input@,
            pos: self.consumed@,
            value: self.value as int,
            range: self.range as int,
            bit_count: self.bit_count as int,
        }
    }
}

/// `1` for `true`, `0` for `false`.
pub open spec fn bit_value(b: bool) -> int {
    if b {
        1
    } else {
        0
    }
}

/// State after `n` flat (probability 128) booleans.
pub open spec fn dec_skip(d: DecState, n: nat) -> DecState
    decreases n,
{
    if n == 0 {
        d
    } else {
        range_coder::dec_next(dec_skip(d, (n - 1) as nat), 128)
    }
}

/// Number that the next `n` flat booleans write, first one highest.
pub open spec fn dec_literal(d: DecState, n: nat) -> int
    decreases n,
{
    if n == 0 {
        0
    } else {
        2 * dec_literal(d, (n - 1) as nat) + bit_value(range_coder::dec_bit(dec_skip(d, (n - 1) as nat), 128))
    }
}

/// Number that `n` magnitude bits and a sign bit write.
pub open spec fn dec_signed(d: DecState, n: nat) -> int {
    if range_coder::dec_bit(dec_skip(d, n), 128) {
        -dec_literal(d, n)
    } else {
        dec_literal(d, n)
    }
}

/// Whether everything read so far lay inside the data.
pub open spec fn dec_inside(d: DecState) -> bool {
    d.pos <= d.data.len()
}

pub proof fn lemma_dec_skip_wf(d: DecState, n: nat)
    requires
        range_coder::dec_wf(d),
    ensures
        range_coder::dec_wf(dec_skip(d, n)),
        dec_skip(d, n).data == d.data,
        d.pos <= dec_skip(d, n).pos,
    decreases n,
{
    if n > 0 {
        lemma_dec_skip_wf(d, (n - 1) as nat);
        range_coder::lemma_dec_next_wf(dec_skip(d, (n - 1) as nat), 128);
    }
}

pub proof fn lemma_dec_literal_bound(d: DecState, n: nat)
    ensures
        0 <= dec_literal(d, n) < vstd::arithmetic::power2::pow2(n),
    decreases n,
{
    if n == 0 {
        vstd::arithmetic::power2::lemma2_to64();
    } else {
        lemma_dec_literal_bound(d, (n - 1) as nat);
        vstd::arithmetic::power2::lemma_pow2_unfold(n);
    }
}

/// Says that a partition cannot fill the window.
pub open spec fn too_short_text() -> Seq<char> {
    "VP8: boolean partition too short"@
}

impl<'a> BoolDecoder<'a> {
    /// The registers are in the shape that every read keeps them in.
    pub closed spec fn wf(&self) -> bool {
        &&& range_coder::dec_wf(self@)
        &&& self.position_ok()
    }

    closed spec fn position_ok(&self) -> bool {
        &&& self.overrun == (self.consumed@ > self.input@.len())
        &&& self.pos == if self.overrun {
            self.input@.len()
        } else {
            self.consumed@
        }
    }

    /// Starts a decoder, or reports that `input` cannot fill the window.
    pub fn init(input: &'a [u8]) -> (r: Result<Self, BoolDecoderError>)
        ensures
            match r {
                Ok(d) => input@.len() >= 2 && d.wf() && d@ == range_coder::dec_start(input@),
                Err(e) => input@.len() < 2 && e == BoolDecoderError::InputTooShort,
            },
    {
        if input.len() < 2 {
            return Err(BoolDecoderError::InputTooShort);
        }
        Ok(
            BoolDecoder {
                input,
                pos: 2,
                value: 256 * (input[0] as u32) + input[1] as u32,
                range: 255,
                bit_count: 0,
                overrun: false,
                consumed: Ghost(2),
            },
        )
    }

    /// Starts a decoder, with the frame decoder's error type.
    pub fn new(input: &'a [u8]) -> (r: Result<Self, Vp8Error>)
        ensures
            match r {
                Ok(d) => input@.len() >= 2 && d.wf() && d@ == range_coder::dec_start(input@),
                Err(e) => input@.len() < 2 && e.is_invalid(too_short_text()),
            },
    {
        match BoolDecoder::init(input) {
            Ok(d) => Ok(d),
            Err(_) => Err(Vp8Error::invalid("VP8: boolean partition too short")),
        }
    }

    /// Next boolean at probability `prob` / 256 of being `false`.
    pub fn get_bool(&mut self, prob: u8) -> (b: bool)
        requires
            old(self).wf(),
        ensures
            final(self).wf(),
            b == range_coder::dec_bit(old(self)@, prob),
            final(self)@ == range_coder::dec_next(old(self)@, prob),
            final(self)@.data == old(self)@.data,
    {
        let ghost start = self@;
        proof {
            range_coder::lemma_split_bounds(self.range as int, prob);
            range_coder::lemma_dec_next_wf(start, prob);
        }
        assert((self.range - 1) * prob <= 254 * 255) by (nonlinear_arith)
            requires
                self.range <= 255,
                prob <= 255,
                self.range >= 1,
        ;
        let split: u32 = 1 + (self.range - 1) * (prob as u32) / 256;
        let big: u32 = split * 256;
        let b: bool = self.value >= big;
        if b {
            self.value = self.value - big;
            self.range = self.range - split;
        } else {
            self.range = split;
        }
        let ghost picked = self@;
        assert(picked == range_coder::dec_pick(start, prob));
        let n: usize = self.input.len();
        while self.range < 128
            invariant
                1 <= self.range <= 255,
                n == self.input@.len(),
                self@.data == start.data,
                self.value < 65536,
                self.bit_count < 8,
                range_coder::dec_norm(self@) == range_coder::dec_norm(picked),
                self.position_ok(),
            decreases 256 - self.range,
        {
            let ghost before = self@;
            self.range = self.range * 2;
            self.value = self.value * 2 % 65536;
            if self.bit_count == 7 {
                self.bit_count = 0;
                if self.pos < n {
                    self.value = (self.value + self.input[self.pos] as u32) % 65536;
                    self.pos = self.pos + 1;
                } else {
                    self.overrun = true;
                }
                proof {
                    self.consumed@ = self.consumed@ + 1;
                }
            } else {
                self.bit_count = self.bit_count + 1;
            }
            assert(self@ == range_coder::dec_double(before));
        }
        b
    }

    /// Next flag (a boolean at even odds).
    pub fn get_flag(&mut self) -> (b: bool)
        requires
            old(self).wf(),
        ensures
            final(self).wf(),
            b == range_coder::dec_bit(old(self)@, 128),
            final(self)@ == range_coder::dec_next(old(self)@, 128),
            final(self)@.data == old(self)@.data,
    {
        self.get_bool(128)
    }

    /// Next `n`-bit unsigned number, highest bit first.
    pub fn get_literal(&mut self, n: u32) -> (v: u32)
        requires
            old(self).wf(),
            n <= 32,
        ensures
            final(self).wf(),
            v == dec_literal(old(self)@, n as nat),
            v < vstd::arithmetic::power2::pow2(n as nat),
            final(self)@ == dec_skip(old(self)@, n as nat),
            final(self)@.data == old(self)@.data,
    {
        let mut v: u32 = 0;
        let mut i: u32 = 0;
        proof {
            lemma_dec_literal_bound(old(self)@, n as nat);
        }
        while i < n
            invariant
                i <= n <= 32,
                self.wf(),
                self@.data == old(self)@.data,
                v == dec_literal(old(self)@, i as nat),
                self@ == dec_skip(old(self)@, i as nat),
            decreases n - i,
        {
            proof {
                lemma_dec_literal_bound(old(self)@, (i + 1) as nat);
                vstd::arithmetic::power2::lemma2_to64();
                if i + 1 < 32 {
                    vstd::arithmetic::power2::lemma_pow2_strictly_increases((i + 1) as nat, 32);
                }
            }
            let b: bool = self.get_bool(128);
            v = 2 * v + if b {
                1
            } else {
                0
            };
            i = i + 1;
        }
        v
    }

    /// Next signed number: `n` magnitude bits, then the sign.
    pub fn get_signed_literal(&mut self, n: u32) -> (v: i32)
        requires
            old(self).wf(),
            n <= 31,
        ensures
            final(self).wf(),
            v == dec_signed(old(self)@, n as nat),
            final(self)@ == dec_skip(old(self)@, (n + 1) as nat),
            final(self)@.data == old(self)@.data,
    {
        let m: u32 = self.get_literal(n);
        proof {
            vstd::arithmetic::power2::lemma2_to64();
            if n < 31 {
                vstd::arithmetic::power2::lemma_pow2_strictly_increases(n as nat, 31);
            }
        }
        let negative: bool = self.get_bool(128);
        if negative {
            -(m as i32)
        } else {
            m as i32
        }
    }

    /// Whether a read so far needed a byte past the end of the input.
    pub fn overran(&self) -> (b: bool)
        requires
            self.wf(),
        ensures
            b == !dec_inside(self@),
    {
        self.overrun
    }

    /// [`BoolDecoder::get_bool`] that fails when the step, or an earlier one,
    /// ran past the end of the input.
    pub fn read_bool(&mut self, prob: u8) -> (r: Result<bool, BoolDecoderError>)
        requires
            old(self).wf(),
        ensures
            final(self).wf(),
            final(self)@ == range_coder::dec_next(old(self)@, prob),
            match r {
                Ok(b) => dec_inside(final(self)@) && b == range_coder::dec_bit(old(self)@, prob),
                Err(e) => !dec_inside(final(self)@) && e == BoolDecoderError::EndOfStream,
            },
    {
        let b: bool = self.get_bool(prob);
        if self.overrun {
            Err(BoolDecoderError::EndOfStream)
        } else {
            Ok(b)
        }
    }

    /// [`BoolDecoder::get_literal`] that fails when it, or an earlier read,
    /// ran past the end of the input.
    pub fn read_literal(&mut self, n: u32) -> (r: Result<u32, BoolDecoderError>)
        requires
            old(self).wf(),
            n <= 32,
        ensures
            final(self).wf(),
            final(self)@ == dec_skip(old(self)@, n as nat),
            match r {
                Ok(v) => dec_inside(final(self)@) && v == dec_literal(old(self)@, n as nat),
                Err(e) => !dec_inside(final(self)@) && e == BoolDecoderError::EndOfStream,
            },
    {
        let v: u32 = self.get_literal(n);
        if self.overrun {
            Err(BoolDecoderError::EndOfStream)
        } else {
            Ok(v)
        }
    }
}

/// An `n`-bit number reads back as it was written.
pub proof fn law_literal_reads_back(d: DecState, v: int, n: nat)
    requires
        0 <= v < vstd::arithmetic::power2::pow2(n),
        range_coder::decodes(d, range_coder::literal_ops(v, n)),
    ensures
        dec_literal(d, n) == v,
        dec_skip(d, n) == range_coder::dec_after(d, range_coder::literal_ops(v, n)),
    decreases n,
{
    if n == 0 {
        range_coder::lemma_decodes_nothing(d);
        vstd::arithmetic::power2::lemma2_to64();
    } else {
        vstd::arithmetic::power2::lemma_pow2_unfold(n);
        let a = range_coder::literal_ops(v / 2, (n - 1) as nat);
        let b = range_coder::one_op(128, v % 2 == 1);
        range_coder::lemma_decodes_append(d, a, b);
        law_literal_reads_back(d, v / 2, (n - 1) as nat);
        range_coder::lemma_decodes_one(range_coder::dec_after(d, a), 128, v % 2 == 1);
    }
}

/// A signed number reads back as it was written.
pub proof fn law_signed_reads_back(d: DecState, v: int, n: nat)
    requires
        -vstd::arithmetic::power2::pow2(n) < v < vstd::arithmetic::power2::pow2(n),
        range_coder::decodes(d, range_coder::signed_ops(v, n)),
    ensures
        dec_signed(d, n) == v,
        dec_skip(d, n + 1) == range_coder::dec_after(d, range_coder::signed_ops(v, n)),
{
    let m = if v < 0 {
        -v
    } else {
        v
    };
    let a = range_coder::literal_ops(m, n);
    range_coder::lemma_decodes_append(d, a, range_coder::one_op(128, v < 0));
    law_literal_reads_back(d, m, n);
    range_coder::lemma_decodes_one(range_coder::dec_after(d, a), 128, v < 0);
}

} // verus!
