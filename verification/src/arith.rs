use vstd::prelude::*;
use vstd::arithmetic::power2::pow2;
use vstd::arithmetic::power2::lemma2_to64;
use vstd::arithmetic::power2::lemma2_to64_rest;
use vstd::arithmetic::power2::lemma_pow2_adds;
use vstd::arithmetic::power2::lemma_pow2_strictly_increases;
use vstd::arithmetic::div_mod::lemma_fundamental_div_mod;
use vstd::arithmetic::div_mod::lemma_div_is_ordered;
use vstd::arithmetic::div_mod::lemma_div_multiples_vanish;
use vstd::arithmetic::div_mod::lemma_div_pos_is_pos;
use vstd::arithmetic::div_mod::lemma_mod_division_less_than_divisor;
use crate::model::sum_counts;
use crate::model::lemma_sum_counts_take;
use crate::model::lemma_sum_counts_nonneg;
use crate::model::lemma_sum_counts_element;
use crate::bits::bit_of;
use crate::error::CodecError;
use vstd::arithmetic::div_mod::lemma_div_multiples_vanish_fancy;

verus! {

// ---------------------------------------------------------------------------
// The arithmetic coder.
//
// The coder keeps a working interval [low, high] of 64-bit precision. Each
// symbol narrows the interval proportionally to its cumulative counts; the
// coder then renormalizes, emitting one bit (plus any pending underflow
// bits) whenever the interval falls entirely into one half of the range,
// and deferring a bit while it straddles the midpoint.
// ---------------------------------------------------------------------------

/// The full 64-bit range: the working interval lives in [0, PRECISION].
pub const PRECISION: u128 = 0xFFFF_FFFF_FFFF_FFFF;

/// The midpoint separator.
pub const HALF: u128 = 0x8000_0000_0000_0000;

/// The lower quartile.
pub const QUARTER: u128 = 0x4000_0000_0000_0000;

/// The upper quartile.
pub const THREE_QUARTER: u128 = 0xC000_0000_0000_0000;

/// The largest total a count table may carry: far below a quarter of the
/// range, so a narrowed interval never collapses.
pub const TOTAL_CAP: u64 = 0x2000_0000_0000_0000;

/// The mathematical state of the encoder: the interval bounds, the pending
/// underflow-bit counter, and the bit-packing state of the output.
pub struct AEnc {
    pub low: int,
    pub high: int,
    pub underflow: int,
    pub output: Seq<u8>,
    pub buffer: int,
    pub nbits: int,
}

/// The bit-packing part of the state is sound.
pub open spec fn wf_bits(st: AEnc) -> bool {
    0 <= st.nbits < 8 && 0 <= st.buffer < pow2(st.nbits as nat)
}

/// The interval is renormalized: it straddles the midpoint and covers more
/// than a quarter of the range.
pub open spec fn wf_range(st: AEnc) -> bool {
    &&& 0 <= st.low < HALF
    &&& HALF <= st.high <= PRECISION
    &&& st.low < QUARTER || st.high >= THREE_QUARTER
}

/// A sound encoder state.
pub open spec fn wf_enc(st: AEnc) -> bool {
    wf_bits(st) && wf_range(st) && st.underflow >= 0
}

/// Pushing one bit into the byte buffer, flushing a completed byte.
pub open spec fn emit_bit(st: AEnc, bit: int) -> AEnc {
    if st.nbits == 7 {
        AEnc { output: st.output.push((st.buffer * 2 + bit) as u8), buffer: 0, nbits: 0, ..st }
    } else {
        AEnc { buffer: st.buffer * 2 + bit, nbits: st.nbits + 1, ..st }
    }
}

/// Pushing the same bit `n` times.
pub open spec fn emit_bits(st: AEnc, bit: int, n: nat) -> AEnc
    decreases n,
{
    if n == 0 {
        st
    } else {
        emit_bits(emit_bit(st, bit), bit, (n - 1) as nat)
    }
}

/// One more repetition lands at the end of the run.
proof fn lemma_emit_bits_snoc(st: AEnc, bit: int, n: nat)
    ensures
        emit_bits(st, bit, n + 1) == emit_bit(emit_bits(st, bit, n), bit),
    decreases n,
{
    assert(emit_bits(st, bit, n + 1) == emit_bits(emit_bit(st, bit), bit, n));
    if n == 0 {
        assert(emit_bits(emit_bit(st, bit), bit, 0) == emit_bit(st, bit));
        assert(emit_bits(st, bit, 0) == st);
    } else {
        lemma_emit_bits_snoc(emit_bit(st, bit), bit, (n - 1) as nat);
    }
}

/// Emitting bits touches only the byte-packing state.
proof fn lemma_emit_bits_frame(st: AEnc, bit: int, n: nat)
    ensures
        emit_bits(st, bit, n).low == st.low,
        emit_bits(st, bit, n).high == st.high,
        emit_bits(st, bit, n).underflow == st.underflow,
    decreases n,
{
    if n > 0 {
        lemma_emit_bits_frame(emit_bit(st, bit), bit, (n - 1) as nat);
    }
}

/// Renormalization: emit while the interval sits in the lower half (bit 0)
/// or the upper half (bit 1), each time releasing the pending underflow
/// bits inverted; defer a bit while the interval straddles the midpoint
/// within the middle half. Each step doubles the interval.
pub open spec fn enc_renorm(st: AEnc) -> AEnc
    decreases PRECISION + 1 - (st.high - st.low),
    when 0 <= st.low <= st.high <= PRECISION
{
    if st.high < HALF {
        let st1 = emit_bits(emit_bit(st, 0), 1, st.underflow as nat);
        enc_renorm(
            AEnc {
                low: st.low * 2,
                high: st.high * 2 + 1,
                underflow: 0,
                output: st1.output,
                buffer: st1.buffer,
                nbits: st1.nbits,
            },
        )
    } else if st.low >= HALF {
        let st1 = emit_bits(emit_bit(st, 1), 0, st.underflow as nat);
        enc_renorm(
            AEnc {
                low: (st.low - HALF) * 2,
                high: (st.high - HALF) * 2 + 1,
                underflow: 0,
                output: st1.output,
                buffer: st1.buffer,
                nbits: st1.nbits,
            },
        )
    } else if st.low >= QUARTER && st.high < THREE_QUARTER {
        enc_renorm(
            AEnc {
                low: (st.low - QUARTER) * 2,
                high: (st.high - QUARTER) * 2 + 1,
                underflow: st.underflow + 1,
                ..st
            },
        )
    } else {
        st
    }
}

/// The cumulative count of the symbols below `sym`.
pub open spec fn cum_before(counts: Seq<u64>, sym: int) -> int {
    sum_counts(counts.take(sym))
}

/// Encoding one symbol: narrow the interval to the symbol's cumulative
/// sub-interval, then renormalize.
pub open spec fn enc_encode_spec(st: AEnc, counts: Seq<u64>, total: int, sym: u8) -> AEnc {
    let range = st.high - st.low + 1;
    let sl = cum_before(counts, sym as int);
    let sh = sl + counts[sym as int];
    enc_renorm(
        AEnc {
            low: st.low + (range * sl) / total,
            high: st.low + (range * sh) / total - 1,
            ..st
        },
    )
}

/// Padding the final partial byte with zero bits.
pub open spec fn flush_spec(st: AEnc) -> Seq<u8> {
    if st.nbits > 0 {
        st.output.push((st.buffer * pow2((8 - st.nbits) as nat)) as u8)
    } else {
        st.output
    }
}

/// Termination: one disambiguating bit (0 below the lower quartile, else
/// 1), the pending underflow bits plus one more, inverted, then the flush.
pub open spec fn enc_finalize_spec(st: AEnc) -> Seq<u8> {
    if st.low < QUARTER {
        flush_spec(emit_bits(emit_bit(st, 0), 1, (st.underflow + 1) as nat))
    } else {
        flush_spec(emit_bits(emit_bit(st, 1), 0, (st.underflow + 1) as nat))
    }
}

/// The eight big-endian bytes of a 64-bit value.
pub open spec fn u64_be_spec(x: u64) -> Seq<u8> {
    Seq::new(8, |i: int| (((x as int) / (pow2((8 * (7 - i)) as nat) as int)) % 256) as u8)
}

/// The big-endian value of a byte sequence.
pub open spec fn be_val(s: Seq<u8>) -> int
    decreases s.len(),
{
    if s.len() == 0 {
        0
    } else {
        be_val(s.drop_last()) * 256 + s.last()
    }
}

// --------------------------- interval arithmetic ---------------------------

/// The narrowed interval stays inside the old one and keeps at least two
/// values, provided the range exceeds a quarter and the total is capped.
proof fn lemma_narrow_bounds(low: int, high: int, sl: int, sh: int, total: int)
    requires
        0 <= low <= high <= PRECISION,
        high - low + 1 > QUARTER,
        0 <= sl,
        sl + 1 <= sh <= total,
        1 <= total <= TOTAL_CAP,
    ensures
        0 <= ((high - low + 1) * sl) / total,
        ((high - low + 1) * sh) / total <= high - low + 1,
        ((high - low + 1) * sl) / total + 2 <= ((high - low + 1) * sh) / total,
{
    let r = high - low + 1;
    assert(r >= 2 * total);
    assert(r * sl >= 0) by (nonlinear_arith)
        requires
            r >= 0,
            sl >= 0,
    ;
    lemma_div_pos_is_pos(r * sl, total);
    assert(r * sh <= r * total) by (nonlinear_arith)
        requires
            sh <= total,
            r >= 0,
    ;
    lemma_div_is_ordered(r * sh, r * total, total);
    lemma_div_multiples_vanish(r, total);
    assert(r * total == total * r) by (nonlinear_arith);
    assert((r * total) / total == r);
    // width: r*sh >= r*sl + 2*total, so the quotients differ by at least 2.
    let ql = (r * sl) / total;
    lemma_fundamental_div_mod(r * sl, total);
    lemma_mod_division_less_than_divisor(r * sl, total);
    assert(r * sh >= r * sl + 2 * total) by (nonlinear_arith)
        requires
            sh >= sl + 1,
            r >= 2 * total,
            total >= 1,
    ;
    assert(r * sl >= total * ql);
    assert(r * sh >= (ql + 2) * total) by (nonlinear_arith)
        requires
            r * sl >= total * ql,
            r * sh >= r * sl + 2 * total,
    ;
    lemma_div_multiples_vanish(ql + 2, total);
    assert((ql + 2) * total == total * (ql + 2)) by (nonlinear_arith);
    lemma_div_is_ordered((ql + 2) * total, r * sh, total);
}

// --------------------------- the encoder -----------------------------------

/// The arithmetic encoder: interval registers, the pending underflow-bit
/// counter, and the bit-packed output under construction.
pub struct ArithmeticEncoder {
    low: u128,
    high: u128,
    underflow: u64,
    output: Vec<u8>,
    buffer: u8,
    bits_in_buffer: u8,
}

impl View for ArithmeticEncoder {
    type V = AEnc;

    closed spec fn view(&self) -> AEnc {
        AEnc {
            low: self.low as int,
            high: self.high as int,
            underflow: self.underflow as int,
            output: self.output@,
            buffer: self.buffer as int,
            nbits: self.bits_in_buffer as int,
        }
    }
}

impl ArithmeticEncoder {
    /// A fresh encoder over the full range with an empty output.
    pub fn new() -> (r: Self)
        ensures
            r@ == (AEnc {
                low: 0,
                high: PRECISION as int,
                underflow: 0,
                output: Seq::empty(),
                buffer: 0,
                nbits: 0,
            }),
            wf_enc(r@),
    {
        let r = ArithmeticEncoder {
            low: 0,
            high: PRECISION,
            underflow: 0,
            output: Vec::new(),
            buffer: 0,
            bits_in_buffer: 0,
        };
        proof {
            lemma2_to64();
            assert(r@.output =~= Seq::<u8>::empty());
        }
        r
    }

    /// Writes the 8-byte big-endian original length ahead of the bitstream.
    pub fn write_header(&mut self, size: u64)
        ensures
            final(self)@ == (AEnc { output: old(self)@.output + u64_be_spec(size), ..old(self)@ }),
    {
        proof {
            lemma2_to64();
            lemma2_to64_rest();
        }
        self.output.push(((size / 0x100_0000_0000_0000) % 256) as u8);
        self.output.push(((size / 0x1_0000_0000_0000) % 256) as u8);
        self.output.push(((size / 0x100_0000_0000) % 256) as u8);
        self.output.push(((size / 0x1_0000_0000) % 256) as u8);
        self.output.push(((size / 0x100_0000) % 256) as u8);
        self.output.push(((size / 0x1_0000) % 256) as u8);
        self.output.push(((size / 0x100) % 256) as u8);
        self.output.push((size % 256) as u8);
        proof {
            lemma2_to64();
            lemma2_to64_rest();
            let bytes = u64_be_spec(size);
            let base = old(self)@.output.len() as int;
            assert(bytes[0] == ((size as int) / (pow2(56) as int) % 256) as u8);
            assert(bytes[1] == ((size as int) / (pow2(48) as int) % 256) as u8);
            assert(bytes[2] == ((size as int) / (pow2(40) as int) % 256) as u8);
            assert(bytes[3] == ((size as int) / (pow2(32) as int) % 256) as u8);
            assert(bytes[4] == ((size as int) / (pow2(24) as int) % 256) as u8);
            assert(bytes[5] == ((size as int) / (pow2(16) as int) % 256) as u8);
            assert(bytes[6] == ((size as int) / (pow2(8) as int) % 256) as u8);
            assert(bytes[7] == ((size as int) / (pow2(0) as int) % 256) as u8);
            assert(self@.output =~= old(self)@.output + u64_be_spec(size));
        }
    }

    /// Appends one bit to the byte buffer, flushing a full byte.
    pub fn output_bit(&mut self, bit: u8)
        requires
            bit <= 1,
            wf_bits(old(self)@),
        ensures
            final(self)@ == emit_bit(old(self)@, bit as int),
            wf_bits(final(self)@),
    {
        proof {
            lemma2_to64();
            if (self.bits_in_buffer as nat) < 7 {
                lemma_pow2_strictly_increases(self.bits_in_buffer as nat, 7);
            }
        }
        self.buffer = self.buffer * 2 + bit;
        self.bits_in_buffer = self.bits_in_buffer + 1;
        if self.bits_in_buffer == 8 {
            self.output.push(self.buffer);
            self.buffer = 0;
            self.bits_in_buffer = 0;
        }
    }

    /// Pads and flushes a partial final byte.
    pub fn flush_buffer(&mut self)
        requires
            wf_bits(old(self)@),
        ensures
            final(self)@ == (AEnc { output: flush_spec(old(self)@), buffer: 0, nbits: 0, ..old(
                self,
            )@ }),
            wf_bits(final(self)@),
    {
        proof {
            lemma2_to64();
        }
        if self.bits_in_buffer > 0 {
            let shift = crate::bits::pow2_u8(8 - (self.bits_in_buffer as usize));
            proof {
                lemma_pow2_adds(
                    self.bits_in_buffer as nat,
                    (8 - self.bits_in_buffer) as nat,
                );
                assert((self.buffer as int) * (shift as int) < 256) by (nonlinear_arith)
                    requires
                        (self.buffer as int) < pow2(self.bits_in_buffer as nat),
                        shift as int == pow2((8 - self.bits_in_buffer) as nat),
                        pow2(self.bits_in_buffer as nat) * pow2(
                            (8 - self.bits_in_buffer) as nat,
                        ) == pow2(8),
                        pow2(8) == 256,
                        self.buffer >= 0,
                        shift >= 1,
                ;
            }
            self.buffer = self.buffer * shift;
            self.output.push(self.buffer);
            self.buffer = 0;
            self.bits_in_buffer = 0;
        }
    }

    /// Emits `n` copies of `bit`.
    fn output_run(&mut self, bit: u8, n: u64)
        requires
            bit <= 1,
            wf_bits(old(self)@),
        ensures
            final(self)@ == emit_bits(old(self)@, bit as int, n as nat),
            wf_bits(final(self)@),
            final(self)@.low == old(self)@.low,
            final(self)@.high == old(self)@.high,
            final(self)@.underflow == old(self)@.underflow,
    {
        proof {
            lemma_emit_bits_frame(self@, bit as int, n as nat);
        }
        let ghost st0 = self@;
        let mut u: u64 = 0;
        while u < n
            invariant
                u <= n,
                bit <= 1,
                wf_bits(self@),
                self@ == emit_bits(st0, bit as int, u as nat),
            decreases n - u,
        {
            self.output_bit(bit);
            u = u + 1;
            proof {
                lemma_emit_bits_snoc(st0, bit as int, (u - 1) as nat);
            }
        }
    }

    /// Encodes one symbol against the given counts: narrows the interval to
    /// the symbol's cumulative sub-interval and renormalizes, emitting bits
    /// as the interval settles into one half of the range.
    pub fn encode(&mut self, symbol: u8, counts: &Vec<u64>, total: u64)
        requires
            wf_enc(old(self)@),
            counts@.len() == 256,
            counts@[symbol as int] >= 1,
            total as int == sum_counts(counts@),
            total <= TOTAL_CAP,
            old(self)@.underflow <= 0x8000_0000_0000_0000,
        ensures
            final(self)@ == enc_encode_spec(old(self)@, counts@, total as int, symbol),
            wf_enc(final(self)@),
            final(self)@.underflow <= old(self)@.underflow + 63,
    {
        let ghost st0 = self@;
        // Cumulative interval of the symbol.
        let mut cum: u64 = 0;
        let mut c: usize = 0;
        proof {
            assert(counts@.take(0) =~= Seq::<u64>::empty());
            lemma_sum_counts_take(counts@, symbol as int);
            lemma_sum_counts_take(counts@, symbol as int + 1);
            assert(counts@.take(symbol as int + 1).drop_last() =~= counts@.take(symbol as int));
            assert(counts@.take(symbol as int + 1).last() == counts@[symbol as int]);
        }
        while c < symbol as usize
            invariant
                c <= symbol as usize,
                counts@.len() == 256,
                total as int == sum_counts(counts@),
                cum as int == sum_counts(counts@.take(c as int)),
                cum <= total,
            decreases symbol as usize - c,
        {
            proof {
                assert(counts@.take(c + 1).drop_last() =~= counts@.take(c as int));
                assert(counts@.take(c + 1).last() == counts@[c as int]);
                lemma_sum_counts_take(counts@, c + 1);
            }
            cum = cum + counts[c];
            c = c + 1;
        }
        let sl = cum;
        let sh = cum + counts[symbol as usize];
        let ghost range: int = st0.high - st0.low + 1;

        proof {
            lemma_narrow_bounds(st0.low, st0.high, sl as int, sh as int, total as int);
            assert(range * (sh as int) <= ((PRECISION + 1) as int) * (TOTAL_CAP as int))
                by (nonlinear_arith)
                requires
                    0 <= range <= (PRECISION + 1) as int,
                    0 <= sh as int <= TOTAL_CAP as int,
            ;
            assert(range * (sl as int) <= ((PRECISION + 1) as int) * (TOTAL_CAP as int))
                by (nonlinear_arith)
                requires
                    0 <= range <= (PRECISION + 1) as int,
                    0 <= sl as int <= TOTAL_CAP as int,
            ;
        }
        let range_e: u128 = self.high - self.low + 1;
        let t: u128 = total as u128;
        let nh: u128 = self.low + (range_e * (sh as u128)) / t - 1;
        let nl: u128 = self.low + (range_e * (sl as u128)) / t;
        self.high = nh;
        self.low = nl;
        let ghost narrowed = self@;
        proof {
            assert(narrowed == (AEnc {
                low: st0.low + (range * (sl as int)) / (total as int),
                high: st0.low + (range * (sh as int)) / (total as int) - 1,
                ..st0
            }));
        }

        // Renormalize. The interval (plus one) doubles every iteration, so
        // the loop runs at most 63 times.
        let ghost w0: int = narrowed.high - narrowed.low;
        let ghost mut iters: nat = 0;
        proof {
            lemma2_to64();
            lemma2_to64_rest();
            assert(w0 >= 1);
        }
        loop
            invariant
                wf_bits(self@),
                0 <= self@.low <= self@.high <= PRECISION,
                self@.underflow >= 0,
                st0.underflow <= 0x8000_0000_0000_0000,
                self@.underflow <= st0.underflow + iters,
                w0 >= 1,
                (w0 + 1) * pow2(iters) == self@.high - self@.low + 1,
                pow2(iters) <= PRECISION + 1,
                iters <= 64,
                enc_renorm(self@) == enc_renorm(narrowed),
            ensures
                wf_enc(self@),
                self@ == enc_renorm(narrowed),
                self@.underflow <= st0.underflow + 63,
            decreases PRECISION + 1 - (self@.high - self@.low),
        {
            let ghost pre = self@;
            if self.high < HALF {
                self.output_bit(0);
                let uf = self.underflow;
                self.output_run(1, uf);
                self.underflow = 0;
                self.low = self.low * 2;
                self.high = self.high * 2 + 1;
            } else if self.low >= HALF {
                self.output_bit(1);
                let uf = self.underflow;
                self.output_run(0, uf);
                self.underflow = 0;
                self.low = (self.low - HALF) * 2;
                self.high = (self.high - HALF) * 2 + 1;
            } else if self.low >= QUARTER && self.high < THREE_QUARTER {
                self.underflow = self.underflow + 1;
                self.low = (self.low - QUARTER) * 2;
                self.high = (self.high - QUARTER) * 2 + 1;
            } else {
                proof {
                    lemma2_to64_rest();
                    assert(enc_renorm(pre) == pre);
                    assert(pow2(iters) <= 0x8000_0000_0000_0000) by {
                        if pow2(iters) > 0x8000_0000_0000_0000 {
                            assert((w0 + 1) * pow2(iters) >= 2 * pow2(iters))
                                by (nonlinear_arith)
                                requires
                                    w0 + 1 >= 2,
                                    pow2(iters) >= 0,
                            ;
                        }
                    }
                    assert(iters <= 63) by {
                        if iters > 63 {
                            lemma_pow2_strictly_increases(63, iters);
                        }
                    }
                }
                break ;
            }
            proof {
                iters = iters + 1;
                assert(self@.high - self@.low + 1 == 2 * (pre.high - pre.low + 1));
                lemma_pow2_adds((iters - 1) as nat, 1);
                lemma2_to64();
                assert((w0 + 1) * pow2(iters) == self@.high - self@.low + 1)
                    by (nonlinear_arith)
                    requires
                        (w0 + 1) * pow2((iters - 1) as nat) == pre.high - pre.low + 1,
                        pow2(iters) == pow2((iters - 1) as nat) * pow2(1),
                        pow2(1) == 2,
                        self@.high - self@.low + 1 == 2 * (pre.high - pre.low + 1),
                ;
                assert(pow2(iters) <= PRECISION + 1) by {
                    assert((w0 + 1) * pow2(iters) >= pow2(iters)) by (nonlinear_arith)
                        requires
                            w0 + 1 >= 1,
                            pow2(iters) >= 0,
                    ;
                }
                assert(iters <= 64) by {
                    if iters > 64 {
                        lemma2_to64_rest();
                        lemma_pow2_strictly_increases(64, iters);
                    }
                }
                assert(enc_renorm(pre) == enc_renorm(self@));
                assert(pow2(iters) >= 1) by {
                    vstd::arithmetic::power2::lemma_pow2_pos(iters);
                }
                assert(self@.underflow <= st0.underflow + iters);
            }
        }
    }

    /// Ends the stream: emits the disambiguating bit, the pending underflow
    /// bits inverted, pads the final byte, and hands the output over.
    pub fn finalize(self) -> (r: Vec<u8>)
        requires
            wf_enc(self@),
            self@.underflow <= 0x8000_0000_0000_0000,
        ensures
            r@ == enc_finalize_spec(self@),
    {
        let ghost st0 = self@;
        let mut s = self;
        if s.low < QUARTER {
            s.output_bit(0);
            let uf = s.underflow;
            s.output_run(1, uf);
            s.output_bit(1);
            proof {
                lemma_emit_bits_snoc(emit_bit(st0, 0), 1, st0.underflow as nat);
            }
        } else {
            s.output_bit(1);
            let uf = s.underflow;
            s.output_run(0, uf);
            s.output_bit(0);
            proof {
                lemma_emit_bits_snoc(emit_bit(st0, 1), 0, st0.underflow as nat);
            }
        }
        s.flush_buffer();
        s.output
    }
}

// --------------------------- the decoder -----------------------------------

/// The mathematical state of the decoder: the bitstream (after the length
/// header), the bit position, the interval registers and the tracked value.
pub struct ADec {
    pub data: Seq<u8>,
    pub pos: int,
    pub low: int,
    pub high: int,
    pub value: int,
    pub original_size: int,
}

/// The bit at position `pos` of the stream, zero past its end.
pub open spec fn dec_bit(data: Seq<u8>, pos: int) -> int {
    if 0 <= pos && pos / 8 < data.len() {
        bit_of(data[pos / 8], pos % 8) as int
    } else {
        0
    }
}

/// The first `k` bits of the stream read into a value, most significant
/// first.
pub open spec fn init_value(data: Seq<u8>, k: nat) -> int
    decreases k,
{
    if k == 0 {
        0
    } else {
        init_value(data, (k - 1) as nat) * 2 + dec_bit(data, k - 1)
    }
}

/// A sound decoder state: a renormalized interval containing the value.
pub open spec fn wf_dec(st: ADec) -> bool {
    &&& 0 <= st.low < HALF
    &&& HALF <= st.high <= PRECISION
    &&& st.low < QUARTER || st.high >= THREE_QUARTER
    &&& st.low <= st.value <= st.high
    &&& st.pos >= 0
}

/// What opening a stream yields: the 8-byte big-endian original length,
/// then a decoder primed with the first 64 bits.
pub open spec fn dec_init_spec(input: Seq<u8>) -> Result<ADec, CodecError> {
    if input.len() < 8 {
        Err(CodecError::InvalidArchive)
    } else {
        let data = input.skip(8);
        Ok(
            ADec {
                data,
                pos: 64,
                low: 0,
                high: PRECISION as int,
                value: init_value(data, 64),
                original_size: be_val(input.take(8)),
            },
        )
    }
}

/// Decoder renormalization: the same three interval rules as the encoder,
/// each step also shifting one fresh stream bit into the value.
pub open spec fn dec_renorm(st: ADec) -> ADec
    decreases PRECISION + 1 - (st.high - st.low),
    when 0 <= st.low <= st.high <= PRECISION && st.pos >= 0
{
    if st.high < HALF {
        dec_renorm(
            ADec {
                low: st.low * 2,
                high: st.high * 2 + 1,
                value: st.value * 2 + dec_bit(st.data, st.pos),
                pos: st.pos + 1,
                ..st
            },
        )
    } else if st.low >= HALF {
        dec_renorm(
            ADec {
                low: (st.low - HALF) * 2,
                high: (st.high - HALF) * 2 + 1,
                value: (st.value - HALF) * 2 + dec_bit(st.data, st.pos),
                pos: st.pos + 1,
                ..st
            },
        )
    } else if st.low >= QUARTER && st.high < THREE_QUARTER {
        dec_renorm(
            ADec {
                low: (st.low - QUARTER) * 2,
                high: (st.high - QUARTER) * 2 + 1,
                value: (st.value - QUARTER) * 2 + dec_bit(st.data, st.pos),
                pos: st.pos + 1,
                ..st
            },
        )
    } else {
        st
    }
}

/// The cumulative target the decoder computes for the current value.
pub open spec fn target_of(st: ADec, total: int) -> int {
    ((st.value - st.low + 1) * total - 1) / (st.high - st.low + 1)
}

/// The symbol whose cumulative interval contains the target: the scan runs
/// through the byte values in ascending order.
pub open spec fn find_symbol(counts: Seq<u64>, target: int, c: int) -> int
    decreases 256 - c,
{
    if c >= 255 {
        255
    } else if cum_before(counts, c) + counts[c] > target {
        c
    } else {
        find_symbol(counts, target, c + 1)
    }
}

/// Decoding one symbol: find the target's symbol, narrow the interval the
/// same way the encoder did, and renormalize, consuming stream bits.
pub open spec fn dec_decode_spec(st: ADec, counts: Seq<u64>, total: int) -> (u8, ADec) {
    let target = target_of(st, total);
    let sym = find_symbol(counts, target, 0);
    let range = st.high - st.low + 1;
    let sl = cum_before(counts, sym);
    let sh = sl + counts[sym];
    (
        sym as u8,
        dec_renorm(
            ADec { low: st.low + (range * sl) / total, high: st.low + (range * sh) / total - 1, ..st },
        ),
    )
}

/// A first-match scan agrees with `find_symbol`.
proof fn lemma_find_symbol_unique(counts: Seq<u64>, target: int, lo: int, c: int)
    requires
        0 <= lo <= c <= 255,
        forall|m: int| lo <= m < c ==> cum_before(counts, m) + counts[m] <= target,
        c < 255 ==> cum_before(counts, c) + counts[c] > target,
    ensures
        find_symbol(counts, target, lo) == c,
    decreases c - lo,
{
    if lo < c {
        lemma_find_symbol_unique(counts, target, lo + 1, c);
    }
}

/// The value read from a bounded number of bits is bounded.
proof fn lemma_init_value_bound(data: Seq<u8>, k: nat)
    ensures
        0 <= init_value(data, k) < pow2(k),
    decreases k,
{
    lemma2_to64();
    if k > 0 {
        lemma_init_value_bound(data, (k - 1) as nat);
        lemma_pow2_adds((k - 1) as nat, 1);
        assert(dec_bit(data, k - 1) == 0 || dec_bit(data, k - 1) == 1) by {
            lemma_bit_of_bounds(data, k - 1);
        }
    }
}

/// A stream bit is 0 or 1.
proof fn lemma_bit_of_bounds(data: Seq<u8>, pos: int)
    ensures
        0 <= dec_bit(data, pos) <= 1,
{
    if 0 <= pos && pos / 8 < data.len() {
        lemma_mod_division_less_than_divisor(
            (data[pos / 8] as int) / (pow2((7 - pos % 8) as nat) as int),
            2,
        );
        vstd::arithmetic::power2::lemma_pow2_pos((7 - pos % 8) as nat);
        lemma_div_pos_is_pos((data[pos / 8] as int), pow2((7 - pos % 8) as nat) as int);
    }
}

/// The decoder's target stays below the total and at or after the chosen
/// symbol's cumulative start, so the narrowed interval still contains the
/// value.
proof fn lemma_value_in_narrowed(
    low: int,
    high: int,
    value: int,
    sl: int,
    sh: int,
    total: int,
)
    requires
        0 <= low <= value <= high <= PRECISION,
        high - low + 1 > QUARTER,
        1 <= total <= TOTAL_CAP,
        0 <= sl,
        sl + 1 <= sh <= total,
        sl <= ((value - low + 1) * total - 1) / (high - low + 1),
        ((value - low + 1) * total - 1) / (high - low + 1) < sh,
    ensures
        low + ((high - low + 1) * sl) / total <= value,
        value <= low + ((high - low + 1) * sh) / total - 1,
{
    let r = high - low + 1;
    let offset = value - low;
    let x = (offset + 1) * total - 1;
    let target = x / r;
    assert(x >= 0) by (nonlinear_arith)
        requires
            offset >= 0,
            total >= 1,
            x == (offset + 1) * total - 1,
    ;
    lemma_fundamental_div_mod(x, r);
    lemma_mod_division_less_than_divisor(x, r);
    // (A) value >= low + (r*sl)/total
    assert(r * sl <= r * target) by (nonlinear_arith)
        requires
            sl <= target,
            r >= 0,
    ;
    assert(r * target <= x);
    assert(r * sl < (offset + 1) * total);
    let ql = (r * sl) / total;
    lemma_fundamental_div_mod(r * sl, total);
    lemma_mod_division_less_than_divisor(r * sl, total);
    assert(total * ql <= r * sl);
    assert(ql < offset + 1) by (nonlinear_arith)
        requires
            total * ql <= r * sl,
            r * sl < (offset + 1) * total,
            total >= 1,
    ;
    // (B) value <= low + (r*sh)/total - 1
    assert(r * (target + 1) <= r * sh) by (nonlinear_arith)
        requires
            target + 1 <= sh,
            r >= 0,
    ;
    assert((offset + 1) * total <= r * target + r);
    assert(r * target + r == r * (target + 1)) by (nonlinear_arith);
    assert((offset + 1) * total <= r * sh);
    lemma_div_multiples_vanish(offset + 1, total);
    assert((offset + 1) * total == total * (offset + 1)) by (nonlinear_arith);
    lemma_div_is_ordered((offset + 1) * total, r * sh, total);
}

/// The arithmetic decoder: the bitstream after the header, the bit cursor,
/// the interval registers, the tracked value, and the original length.
pub struct ArithmeticDecoder {
    data: Vec<u8>,
    pos: u64,
    low: u128,
    high: u128,
    value: u128,
    original_size: u64,
}

impl View for ArithmeticDecoder {
    type V = ADec;

    closed spec fn view(&self) -> ADec {
        ADec {
            data: self.data@,
            pos: self.pos as int,
            low: self.low as int,
            high: self.high as int,
            value: self.value as int,
            original_size: self.original_size as int,
        }
    }
}

impl ArithmeticDecoder {
    /// Opens a compressed stream: reads the 8-byte big-endian original
    /// length, then primes the value with the first 64 bits. A stream
    /// shorter than its header is `InvalidArchive`.
    pub fn new(data: &[u8]) -> (r: Result<ArithmeticDecoder, CodecError>)
        ensures
            data@.len() < 8 ==> r is Err && dec_init_spec(data@) == Err::<ADec, CodecError>(
                CodecError::InvalidArchive,
            ) && (r matches Err(e) && Err::<ADec, CodecError>(e) == dec_init_spec(data@)),
            data@.len() >= 8 ==> (r matches Ok(d) && dec_init_spec(data@) == Ok::<
                ADec,
                CodecError,
            >(d@) && wf_dec(d@) && d@.pos == 64),
    {
        if data.len() < 8 {
            return Err(CodecError::InvalidArchive);
        }
        // 8-byte big-endian length.
        let mut size: u64 = 0;
        let mut i: usize = 0;
        proof {
            assert(data@.take(8).take(0) =~= Seq::<u8>::empty());
            lemma2_to64();
        }
        while i < 8
            invariant
                i <= 8,
                data@.len() >= 8,
                size as int == be_val(data@.take(8).take(i as int)),
                size < pow2((8 * i) as nat),
            decreases 8 - i,
        {
            proof {
                lemma2_to64();
                lemma2_to64_rest();
                let pre = data@.take(8).take(i as int);
                let cur = data@.take(8).take(i + 1);
                assert(cur.drop_last() =~= pre);
                assert(cur.last() == data@[i as int]);
                lemma_pow2_adds((8 * i) as nat, 8);
                assert((size as int) * 256 + 255 < pow2((8 * (i + 1)) as nat))
                    by (nonlinear_arith)
                    requires
                        0 <= size as int,
                        (size as int) < pow2((8 * i) as nat),
                        pow2((8 * i) as nat) * pow2(8) == pow2((8 * (i + 1)) as nat),
                        pow2(8) == 256,
                ;
                if 8 * (i + 1) < 64 {
                    lemma_pow2_strictly_increases((8 * (i + 1)) as nat, 64);
                }
            }
            size = size * 256 + (data[i] as u64);
            i = i + 1;
        }
        proof {
            assert(data@.take(8).take(8) =~= data@.take(8));
        }

        // The bitstream body.
        let mut body: Vec<u8> = Vec::new();
        let mut j: usize = 8;
        while j < data.len()
            invariant
                8 <= j <= data@.len(),
                body@ =~= data@.subrange(8, j as int),
            decreases data.len() - j,
        {
            body.push(data[j]);
            j = j + 1;
        }
        proof {
            assert(body@ =~= data@.skip(8));
        }

        let mut d = ArithmeticDecoder {
            data: body,
            pos: 0,
            low: 0,
            high: PRECISION,
            value: 0,
            original_size: size,
        };
        // Prime the value with 64 bits.
        let mut k: usize = 0;
        proof {
            lemma2_to64();
        }
        while k < 64
            invariant
                k <= 64,
                d@.data == data@.skip(8),
                d@.pos == k,
                d@.low == 0,
                d@.high == PRECISION as int,
                d@.original_size == size,
                d@.value == init_value(d@.data, k as nat),
                d@.value < pow2(k as nat),
            decreases 64 - k,
        {
            proof {
                lemma_init_value_bound(d@.data, (k + 1) as nat);
                lemma_bit_of_bounds(d@.data, k as int);
                lemma_pow2_adds(k as nat, 1);
                lemma2_to64();
                lemma2_to64_rest();
                lemma_pow2_strictly_increases(k as nat, 64);
            }
            let bit = d.next_bit();
            d.value = d.value * 2 + (bit as u128);
            k = k + 1;
        }
        proof {
            lemma_init_value_bound(d@.data, 64);
            lemma2_to64_rest();
        }
        Ok(d)
    }

    /// The original uncompressed length recorded in the header.
    pub fn original_size(&self) -> (r: u64)
        ensures
            r as int == self@.original_size,
    {
        self.original_size
    }

    /// Decodes one symbol: computes the cumulative target of the tracked
    /// value, scans the byte values for the interval containing it, narrows
    /// the working interval exactly as the encoder did, and renormalizes,
    /// shifting fresh stream bits into the value.
    pub fn decode(&mut self, counts: &Vec<u64>, total: u64) -> (r: Result<u8, CodecError>)
        requires
            wf_dec(old(self)@),
            counts@.len() == 256,
            forall|c: int| 0 <= c < 256 ==> (#[trigger] counts@[c]) >= 1,
            total as int == sum_counts(counts@),
            total <= TOTAL_CAP,
            old(self)@.pos <= 0xFFFF_FFFF_FFFF_FF00,
        ensures
            r matches Ok(sym) && sym == dec_decode_spec(old(self)@, counts@, total as int).0
                && final(self)@ == dec_decode_spec(old(self)@, counts@, total as int).1,
            wf_dec(final(self)@),
            final(self)@.pos <= old(self)@.pos + 63,
            final(self)@.data == old(self)@.data,
            final(self)@.original_size == old(self)@.original_size,
    {
        let ghost st0 = self@;
        proof {
            lemma_sum_counts_element(counts@, 0);
        }
        let range_e: u128 = self.high - self.low + 1;
        let t: u128 = total as u128;
        let offset: u128 = self.value - self.low;
        let ghost range: int = st0.high - st0.low + 1;
        proof {
            assert((offset as int + 1) * (t as int) <= ((PRECISION + 1) as int) * (
            TOTAL_CAP as int)) by (nonlinear_arith)
                requires
                    0 <= offset as int + 1 <= (PRECISION + 1) as int,
                    0 <= t as int <= TOTAL_CAP as int,
            ;
            assert((offset as int + 1) * (t as int) >= 1) by (nonlinear_arith)
                requires
                    offset as int + 1 >= 1,
                    t as int >= 1,
            ;
        }
        let target: u128 = ((offset + 1) * t - 1) / range_e;
        let ghost tgt: int = target_of(st0, total as int);
        proof {
            assert(target as int == tgt);
            // target < total
            let x = (offset as int + 1) * (t as int) - 1;
            assert(x <= range * (t as int) - 1) by (nonlinear_arith)
                requires
                    offset as int + 1 <= range,
                    t as int >= 1,
                    x == (offset as int + 1) * (t as int) - 1,
            ;
            assert(range * (t as int) - 1 == range * ((t as int) - 1) + (range - 1))
                by (nonlinear_arith);
            lemma_div_multiples_vanish_fancy((t as int) - 1, range - 1, range);
            lemma_div_is_ordered(x, range * ((t as int) - 1) + (range - 1), range);
            assert(tgt <= (t as int) - 1);
            lemma_div_pos_is_pos(x, range);
        }

        // Scan the byte values for the cumulative interval holding the
        // target.
        let mut cum: u64 = 0;
        let mut c: usize = 0;
        proof {
            assert(counts@.take(0) =~= Seq::<u64>::empty());
        }
        loop
            invariant
                c <= 255,
                counts@.len() == 256,
                forall|cc: int| 0 <= cc < 256 ==> (#[trigger] counts@[cc]) >= 1,
                total as int == sum_counts(counts@),
                total <= TOTAL_CAP,
                cum as int == cum_before(counts@, c as int),
                cum <= total,
                0 <= tgt < total,
                target as int == tgt,
                forall|m: int|
                    0 <= m < c ==> cum_before(counts@, m) + counts@[m] <= tgt,
            ensures
                c <= 255,
                cum as int == cum_before(counts@, c as int),
                cum_before(counts@, c as int) + counts@[c as int] > tgt,
                forall|m: int|
                    0 <= m < c ==> cum_before(counts@, m) + counts@[m] <= tgt,
            decreases 256 - c,
        {
            proof {
                assert(counts@.take(c + 1).drop_last() =~= counts@.take(c as int));
                assert(counts@.take(c + 1).last() == counts@[c as int]);
                lemma_sum_counts_take(counts@, c + 1);
            }
            let hi = cum + counts[c];
            if (hi as u128) > target {
                break ;
            }
            proof {
                if c == 255 {
                    assert(counts@.take(256) =~= counts@);
                    assert(cum_before(counts@, 255) + counts@[255] == total as int);
                    assert(false);
                }
            }
            cum = hi;
            c = c + 1;
        }
        let sym: u8 = c as u8;
        let sl = cum;
        proof {
            assert(counts@.take(c + 1).drop_last() =~= counts@.take(c as int));
            assert(counts@.take(c + 1).last() == counts@[c as int]);
            lemma_sum_counts_take(counts@, c + 1);
        }
        let sh = cum + counts[c];
        proof {
            lemma_find_symbol_unique(counts@, tgt, 0, c as int);
            if c > 0 {
                assert(cum_before(counts@, c - 1) + counts@[c - 1] <= tgt);
                assert(counts@.take(c as int).drop_last() =~= counts@.take(c - 1));
                assert(counts@.take(c as int).last() == counts@[c - 1]);
            } else {
                lemma_sum_counts_nonneg(counts@.take(0));
            }
            assert(sl as int <= tgt);
            lemma_narrow_bounds(st0.low, st0.high, sl as int, sh as int, total as int);
            lemma_value_in_narrowed(
                st0.low,
                st0.high,
                st0.value,
                sl as int,
                sh as int,
                total as int,
            );
            assert(range * (sh as int) <= ((PRECISION + 1) as int) * (TOTAL_CAP as int))
                by (nonlinear_arith)
                requires
                    0 <= range <= (PRECISION + 1) as int,
                    0 <= sh as int <= TOTAL_CAP as int,
            ;
            assert(range * (sl as int) <= ((PRECISION + 1) as int) * (TOTAL_CAP as int))
                by (nonlinear_arith)
                requires
                    0 <= range <= (PRECISION + 1) as int,
                    0 <= sl as int <= TOTAL_CAP as int,
            ;
        }
        let nh: u128 = self.low + (range_e * (sh as u128)) / t - 1;
        let nl: u128 = self.low + (range_e * (sl as u128)) / t;
        self.high = nh;
        self.low = nl;
        let ghost narrowed = self@;

        // Renormalize, reading one stream bit per step.
        let ghost w0: int = narrowed.high - narrowed.low;
        let ghost mut iters: nat = 0;
        proof {
            lemma2_to64();
            lemma2_to64_rest();
            assert(w0 >= 1);
        }
        loop
            invariant
                0 <= self@.low <= self@.high <= PRECISION,
                self@.low <= self@.value <= self@.high,
                self@.data == st0.data,
                self@.original_size == st0.original_size,
                st0.pos <= 0xFFFF_FFFF_FFFF_FF00,
                self@.pos == st0.pos + iters,
                w0 >= 1,
                (w0 + 1) * pow2(iters) == self@.high - self@.low + 1,
                pow2(iters) <= PRECISION + 1,
                iters <= 64,
                dec_renorm(self@) == dec_renorm(narrowed),
            ensures
                wf_dec(self@),
                self@ == dec_renorm(narrowed),
                self@.pos <= st0.pos + 63,
            decreases PRECISION + 1 - (self@.high - self@.low),
        {
            let ghost pre = self@;
            if self.high < HALF {
                let bit = self.next_bit();
                self.low = self.low * 2;
                self.high = self.high * 2 + 1;
                self.value = self.value * 2 + (bit as u128);
            } else if self.low >= HALF {
                let bit = self.next_bit();
                self.low = (self.low - HALF) * 2;
                self.high = (self.high - HALF) * 2 + 1;
                self.value = (self.value - HALF) * 2 + (bit as u128);
            } else if self.low >= QUARTER && self.high < THREE_QUARTER {
                let bit = self.next_bit();
                self.low = (self.low - QUARTER) * 2;
                self.high = (self.high - QUARTER) * 2 + 1;
                self.value = (self.value - QUARTER) * 2 + (bit as u128);
            } else {
                proof {
                    lemma2_to64_rest();
                    assert(dec_renorm(pre) == pre);
                    assert(pow2(iters) <= 0x8000_0000_0000_0000) by {
                        if pow2(iters) > 0x8000_0000_0000_0000 {
                            assert((w0 + 1) * pow2(iters) >= 2 * pow2(iters))
                                by (nonlinear_arith)
                                requires
                                    w0 + 1 >= 2,
                                    pow2(iters) >= 0,
                            ;
                        }
                    }
                    assert(iters <= 63) by {
                        if iters > 63 {
                            lemma_pow2_strictly_increases(63, iters);
                        }
                    }
                }
                break ;
            }
            proof {
                iters = iters + 1;
                assert(self@.high - self@.low + 1 == 2 * (pre.high - pre.low + 1));
                lemma_pow2_adds((iters - 1) as nat, 1);
                lemma2_to64();
                assert((w0 + 1) * pow2(iters) == self@.high - self@.low + 1)
                    by (nonlinear_arith)
                    requires
                        (w0 + 1) * pow2((iters - 1) as nat) == pre.high - pre.low + 1,
                        pow2(iters) == pow2((iters - 1) as nat) * pow2(1),
                        pow2(1) == 2,
                        self@.high - self@.low + 1 == 2 * (pre.high - pre.low + 1),
                ;
                assert(pow2(iters) <= PRECISION + 1) by {
                    assert((w0 + 1) * pow2(iters) >= pow2(iters)) by (nonlinear_arith)
                        requires
                            w0 + 1 >= 1,
                            pow2(iters) >= 0,
                    ;
                }
                assert(iters <= 64) by {
                    if iters > 64 {
                        lemma2_to64_rest();
                        lemma_pow2_strictly_increases(64, iters);
                    }
                }
                assert(dec_renorm(pre) == dec_renorm(self@));
            }
        }
        Ok(sym)
    }

    /// Reads the next stream bit, returning 0 past the end of the stream.
    pub fn next_bit(&mut self) -> (r: u8)
        requires
            old(self)@.pos < 0xFFFF_FFFF_FFFF_FFFF,
        ensures
            r as int == dec_bit(old(self)@.data, old(self)@.pos),
            r <= 1,
            final(self)@ == (ADec { pos: old(self)@.pos + 1, ..old(self)@ }),
    {
        let byte_index = self.pos / 8;
        let r: u8 = if byte_index < (self.data.len() as u64) {
            let bi = (self.pos % 8) as usize;
            let byte = self.data[byte_index as usize];
            let p = crate::bits::pow2_u8(7 - bi);
            proof {
                lemma_bit_of_bounds(self@.data, self@.pos);
            }
            (byte / p) % 2
        } else {
            0
        };
        self.pos = self.pos + 1;
        r
    }
}

// --------------------------- spec-level stream growth ----------------------

/// `a` is a prefix of `b`, element for element.
pub open spec fn seq_prefix(a: Seq<u8>, b: Seq<u8>) -> bool {
    a.len() <= b.len() && forall|i: int| 0 <= i < a.len() ==> a[i] == #[trigger] b[i]
}

/// Emitting one bit only appends to the output.
proof fn lemma_emit_bit_output(st: AEnc, bit: int)
    requires
        wf_bits(st),
        0 <= bit <= 1,
    ensures
        seq_prefix(st.output, emit_bit(st, bit).output),
        wf_bits(emit_bit(st, bit)),
{
    lemma2_to64();
    if st.nbits < 7 {
        vstd::arithmetic::power2::lemma_pow2_strictly_increases(st.nbits as nat, (st.nbits
            + 1) as nat);
    }
}

/// Emitting a run of bits only appends to the output.
proof fn lemma_emit_bits_output(st: AEnc, bit: int, n: nat)
    requires
        wf_bits(st),
        0 <= bit <= 1,
    ensures
        seq_prefix(st.output, emit_bits(st, bit, n).output),
        wf_bits(emit_bits(st, bit, n)),
    decreases n,
{
    if n > 0 {
        lemma_emit_bit_output(st, bit);
        lemma_emit_bits_output(emit_bit(st, bit), bit, (n - 1) as nat);
    }
}

/// Renormalization only appends to the output and leaves the interval
/// straddling the midpoint.
proof fn lemma_enc_renorm_props(st: AEnc)
    requires
        0 <= st.low <= st.high <= PRECISION,
        st.underflow >= 0,
        wf_bits(st),
    ensures
        seq_prefix(st.output, enc_renorm(st).output),
        wf_enc(enc_renorm(st)),
    decreases PRECISION + 1 - (st.high - st.low),
{
    if st.high < HALF {
        lemma_emit_bit_output(st, 0);
        lemma_emit_bits_output(emit_bit(st, 0), 1, st.underflow as nat);
        let st1 = emit_bits(emit_bit(st, 0), 1, st.underflow as nat);
        let nxt = AEnc {
            low: st.low * 2,
            high: st.high * 2 + 1,
            underflow: 0,
            output: st1.output,
            buffer: st1.buffer,
            nbits: st1.nbits,
        };
        lemma_enc_renorm_props(nxt);
    } else if st.low >= HALF {
        lemma_emit_bit_output(st, 1);
        lemma_emit_bits_output(emit_bit(st, 1), 0, st.underflow as nat);
        let st1 = emit_bits(emit_bit(st, 1), 0, st.underflow as nat);
        let nxt = AEnc {
            low: (st.low - HALF) * 2,
            high: (st.high - HALF) * 2 + 1,
            underflow: 0,
            output: st1.output,
            buffer: st1.buffer,
            nbits: st1.nbits,
        };
        lemma_enc_renorm_props(nxt);
    } else if st.low >= QUARTER && st.high < THREE_QUARTER {
        let nxt = AEnc {
            low: (st.low - QUARTER) * 2,
            high: (st.high - QUARTER) * 2 + 1,
            underflow: st.underflow + 1,
            ..st
        };
        lemma_enc_renorm_props(nxt);
    }
}

/// Encoding a symbol only appends to the output and keeps the state sound.
pub proof fn lemma_enc_encode_props(st: AEnc, counts: Seq<u64>, total: int, sym: u8)
    requires
        wf_enc(st),
        counts.len() == 256,
        counts[sym as int] >= 1,
        total == sum_counts(counts),
        1 <= total <= TOTAL_CAP,
    ensures
        seq_prefix(st.output, enc_encode_spec(st, counts, total, sym).output),
        wf_enc(enc_encode_spec(st, counts, total, sym)),
{
    let sl = cum_before(counts, sym as int);
    let sh = sl + counts[sym as int];
    lemma_sum_counts_take(counts, sym as int);
    lemma_sum_counts_take(counts, sym as int + 1);
    assert(counts.take(sym as int + 1).drop_last() =~= counts.take(sym as int));
    assert(counts.take(sym as int + 1).last() == counts[sym as int]);
    lemma_narrow_bounds(st.low, st.high, sl, sh, total);
    let narrowed = AEnc {
        low: st.low + ((st.high - st.low + 1) * sl) / total,
        high: st.low + ((st.high - st.low + 1) * sh) / total - 1,
        ..st
    };
    lemma_enc_renorm_props(narrowed);
}

/// Termination only appends to the output.
pub proof fn lemma_enc_finalize_props(st: AEnc)
    requires
        wf_enc(st),
    ensures
        seq_prefix(st.output, enc_finalize_spec(st)),
{
    if st.low < QUARTER {
        lemma_emit_bit_output(st, 0);
        lemma_emit_bits_output(emit_bit(st, 0), 1, (st.underflow + 1) as nat);
    } else {
        lemma_emit_bit_output(st, 1);
        lemma_emit_bits_output(emit_bit(st, 1), 0, (st.underflow + 1) as nat);
    }
}

/// Reading the big-endian header back gives the stored value.
pub proof fn lemma_be_val_u64(v: u64)
    ensures
        be_val(u64_be_spec(v)) == v,
{
    lemma2_to64();
    lemma2_to64_rest();
    lemma_be_val_u64_take(v, 8);
    assert(u64_be_spec(v).take(8) =~= u64_be_spec(v));
    assert(pow2(0) == 1);
    assert((v as int) / 1 == v as int);
}

/// The first `k` header bytes spell the value's top `k` bytes.
proof fn lemma_be_val_u64_take(v: u64, k: int)
    requires
        0 <= k <= 8,
    ensures
        be_val(u64_be_spec(v).take(k)) == (v as int) / (pow2((8 * (8 - k)) as nat) as int),
    decreases k,
{
    lemma2_to64();
    lemma2_to64_rest();
    if k == 0 {
        assert(u64_be_spec(v).take(0) =~= Seq::<u8>::empty());
        assert((v as int) / (pow2(64) as int) == 0) by {
            vstd::arithmetic::div_mod::lemma_basic_div(v as int, pow2(64) as int);
        }
    } else {
        lemma_be_val_u64_take(v, k - 1);
        let pre = u64_be_spec(v).take(k);
        assert(pre.drop_last() =~= u64_be_spec(v).take(k - 1));
        assert(pre.last() == u64_be_spec(v)[k - 1]);
        let hk = (v as int) / (pow2((8 * (8 - k)) as nat) as int);
        vstd::arithmetic::power2::lemma_pow2_pos((8 * (8 - k)) as nat);
        lemma_pow2_adds((8 * (8 - k)) as nat, 8);
        vstd::arithmetic::div_mod::lemma_div_denominator(
            v as int,
            pow2((8 * (8 - k)) as nat) as int,
            256,
        );
        assert((v as int) / (pow2((8 * (9 - k)) as nat) as int) == hk / 256);
        lemma_fundamental_div_mod(hk, 256);
        assert(u64_be_spec(v)[k - 1] as int == hk % 256);
    }
}

} // verus!
