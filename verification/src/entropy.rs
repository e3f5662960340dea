//! Adaptive entropy decoder.
//!
//! Every residual is coded as a zone, a remainder inside the zone and a sign.
//! The zones are bounded by three medians per channel, which adapt to what has
//! been decoded.
use crate::arith;
use crate::bitstream;
use crate::bitstream::{BitCursor, BitstreamReader};
use vstd::arithmetic::power2::*;
use vstd::bits::*;
use vstd::prelude::*;

verus! {

/// Number of adaptive medians per channel.
pub const NUM_MEDIANS: usize = 3;

/// Adaptation divisors for each median level: 128 >> n for median index n.
pub const MEDIAN_DIVS: [u32; 3] = [128, 64, 32];

/// Entry `i` is the fractional part of 2^(i/256), in 256ths.
pub const EXP2_TABLE: [u8; 256] = [
    0x00, 0x01, 0x01, 0x02, 0x03, 0x03, 0x04, 0x05, 0x06, 0x06, 0x07, 0x08, 0x08, 0x09, 0x0a, 0x0b,
    0x0b, 0x0c, 0x0d, 0x0e, 0x0e, 0x0f, 0x10, 0x10, 0x11, 0x12, 0x13, 0x13, 0x14, 0x15, 0x16, 0x16,
    0x17, 0x18, 0x19, 0x19, 0x1a, 0x1b, 0x1c, 0x1d, 0x1d, 0x1e, 0x1f, 0x20, 0x20, 0x21, 0x22, 0x23,
    0x24, 0x24, 0x25, 0x26, 0x27, 0x28, 0x28, 0x29, 0x2a, 0x2b, 0x2c, 0x2c, 0x2d, 0x2e, 0x2f, 0x30,
    0x30, 0x31, 0x32, 0x33, 0x34, 0x35, 0x35, 0x36, 0x37, 0x38, 0x39, 0x3a, 0x3a, 0x3b, 0x3c, 0x3d,
    0x3e, 0x3f, 0x40, 0x41, 0x41, 0x42, 0x43, 0x44, 0x45, 0x46, 0x47, 0x48, 0x48, 0x49, 0x4a, 0x4b,
    0x4c, 0x4d, 0x4e, 0x4f, 0x50, 0x51, 0x51, 0x52, 0x53, 0x54, 0x55, 0x56, 0x57, 0x58, 0x59, 0x5a,
    0x5b, 0x5c, 0x5d, 0x5e, 0x5e, 0x5f, 0x60, 0x61, 0x62, 0x63, 0x64, 0x65, 0x66, 0x67, 0x68, 0x69,
    0x6a, 0x6b, 0x6c, 0x6d, 0x6e, 0x6f, 0x70, 0x71, 0x72, 0x73, 0x74, 0x75, 0x76, 0x77, 0x78, 0x79,
    0x7a, 0x7b, 0x7c, 0x7d, 0x7e, 0x7f, 0x80, 0x81, 0x82, 0x83, 0x84, 0x85, 0x87, 0x88, 0x89, 0x8a,
    0x8b, 0x8c, 0x8d, 0x8e, 0x8f, 0x90, 0x91, 0x92, 0x93, 0x95, 0x96, 0x97, 0x98, 0x99, 0x9a, 0x9b,
    0x9c, 0x9d, 0x9f, 0xa0, 0xa1, 0xa2, 0xa3, 0xa4, 0xa5, 0xa6, 0xa8, 0xa9, 0xaa, 0xab, 0xac, 0xad,
    0xaf, 0xb0, 0xb1, 0xb2, 0xb3, 0xb4, 0xb6, 0xb7, 0xb8, 0xb9, 0xba, 0xbc, 0xbd, 0xbe, 0xbf, 0xc0,
    0xc2, 0xc3, 0xc4, 0xc5, 0xc6, 0xc8, 0xc9, 0xca, 0xcb, 0xcd, 0xce, 0xcf, 0xd0, 0xd2, 0xd3, 0xd4,
    0xd6, 0xd7, 0xd8, 0xd9, 0xdb, 0xdc, 0xdd, 0xde, 0xe0, 0xe1, 0xe2, 0xe4, 0xe5, 0xe6, 0xe8, 0xe9,
    0xea, 0xec, 0xed, 0xee, 0xf0, 0xf1, 0xf2, 0xf4, 0xf5, 0xf6, 0xf8, 0xf9, 0xfa, 0xfc, 0xfd, 0xff,
];

/// The three medians of a channel.
#[verifier::ext_equal]
pub struct Medians {
    pub m0: u32,
    pub m1: u32,
    pub m2: u32,
}

/// The width of a zone whose median is `m`; it is never zero.
pub open spec fn zone_width(m: u32) -> int {
    m as int / 16 + 1
}

/// The median `m` after a value fell above its zone.
pub open spec fn raised(m: u32, div: int) -> u32 {
    arith::wrap_u32(m + (arith::wrap_u32(m + div) as int / div) * 5)
}

/// The median `m` after a value fell inside its zone.
pub open spec fn lowered(m: u32, div: int) -> u32 {
    let step = (arith::wrap_u32(m + div - 2) as int / div) * 2;
    if m < step {
        0
    } else {
        (m - step) as u32
    }
}

/// The value that a packed base-2 logarithm stands for: the high byte is the
/// exponent, the low byte the mantissa. The exponent is biased by 9, and a left
/// shift counts its distance modulo 32.
pub open spec fn exp2_packed(packed: u16) -> u32 {
    let mantissa = packed as int % 256;
    let exponent = packed as int / 256;
    let value = 256 + EXP2_TABLE@[mantissa];
    if packed == 0 {
        0
    } else if exponent <= 9 {
        (value / pow2((9 - exponent) as nat) as int) as u32
    } else {
        arith::wrap_u32(value * pow2(((exponent - 9) % 32) as nat))
    }
}

/// Restore a median from its log2-packed 16-bit representation.
pub fn restore_median_log2(packed: u16) -> (r: u32)
    ensures
        r == exp2_packed(packed),
{
    if packed == 0 {
        return 0;
    }
    let mantissa: usize = (packed % 256) as usize;
    let shift: u32 = (packed / 256) as u32;
    let entry: u8 = EXP2_TABLE[mantissa];
    let value: u32 = 0x100 + entry as u32;
    if shift <= 9 {
        let n: u32 = 9 - shift;
        proof {
            lemma_u32_shr_is_div(value, n);
        }
        value >> n
    } else {
        arith::shl_u32(value, shift - 9)
    }
}

/// A word divided by one of the adaptation divisors is small.
proof fn lemma_median_quotient(x: u32, div: u32)
    requires
        div == 128 || div == 64 || div == 32,
    ensures
        x / div <= 0x800_0000,
{
    if div == 128 {
    } else if div == 64 {
    } else {
    }
}

/// Entropy decoder state for one channel.
#[derive(Debug, Clone)]
pub struct EntropyState {
    /// The 3 adaptive medians. Effective value for coding = (median >> 4) + 1.
    pub medians: [u32; 3],
}

impl View for EntropyState {
    type V = Medians;

    open spec fn view(&self) -> Medians {
        Medians { m0: self.medians@[0], m1: self.medians@[1], m2: self.medians@[2] }
    }
}

impl EntropyState {
    /// A channel without history.
    pub fn new() -> (s: Self)
        ensures
            s@ == (Medians { m0: 0, m1: 0, m2: 0 }),
    {
        Self { medians: [0; 3] }
    }

    /// Get effective median value for coding: (internal >> 4) + 1.
    /// Always >= 1 to prevent zero divisor.
    pub fn get_median(&self, idx: usize) -> (m: u32)
        requires
            idx < 3,
        ensures
            m == zone_width(self.medians@[idx as int]),
            m >= 1,
    {
        self.medians[idx] / 16 + 1
    }

    /// Increase median: median += ((median + DIV) / DIV) * 5
    pub fn inc_median(&mut self, idx: usize)
        requires
            idx < 3,
        ensures
            final(self).medians@ == old(self).medians@.update(
                idx as int,
                raised(old(self).medians@[idx as int], MEDIAN_DIVS@[idx as int] as int),
            ),
    {
        let div: u32 = MEDIAN_DIVS[idx];
        let m: u32 = self.medians[idx];
        let sum: u32 = arith::add_u32(m, div);
        proof {
            lemma_median_quotient(sum, div);
        }
        self.medians[idx] = arith::add_u32(m, (sum / div) * 5);
    }

    /// Decrease median: median -= ((median + DIV - 2) / DIV) * 2
    pub fn dec_median(&mut self, idx: usize)
        requires
            idx < 3,
        ensures
            final(self).medians@ == old(self).medians@.update(
                idx as int,
                lowered(old(self).medians@[idx as int], MEDIAN_DIVS@[idx as int] as int),
            ),
    {
        let div: u32 = MEDIAN_DIVS[idx];
        let m: u32 = self.medians[idx];
        let sum: u32 = arith::add_u32(m, div - 2);
        proof {
            lemma_median_quotient(sum, div);
        }
        self.medians[idx] = m.saturating_sub((sum / div) * 2);
    }

    /// Moves the medians after a value in `zone`.
    fn adapt(&mut self, zone: u32)
        ensures
            final(self)@ == old(self)@.adapted(zone),
    {
        if zone == 0 {
            self.dec_median(0);
        } else if zone == 1 {
            self.inc_median(0);
            self.dec_median(1);
        } else if zone == 2 {
            self.inc_median(0);
            self.inc_median(1);
            self.dec_median(2);
        } else {
            self.inc_median(0);
            self.inc_median(1);
            self.inc_median(2);
        }
    }
}

/// The exponent of the largest power of two that is at most `k`.
pub open spec fn floor_log2(k: nat) -> nat
    decreases k,
{
    if k < 2 {
        0
    } else {
        1 + floor_log2(k / 2)
    }
}

/// `floor_log2` gives the exponent that it names.
pub proof fn lemma_floor_log2_bounds(k: nat)
    requires
        k > 0,
    ensures
        pow2(floor_log2(k)) <= k < pow2(floor_log2(k) + 1),
    decreases k,
{
    lemma2_to64();
    if k >= 2 {
        lemma_floor_log2_bounds(k / 2);
        let p = floor_log2(k / 2);
        lemma_pow2_unfold(p + 1);
        lemma_pow2_unfold(p + 2);
    }
}

/// How many values of an adjusted binary code for 0..=k are one bit shorter.
pub open spec fn short_codes(k: nat) -> int {
    pow2(floor_log2(k) + 1) - k - 1
}

/// The adjusted binary code for a value in 0..=k that stands at `c`.
pub open spec fn tail(c: BitCursor, k: nat) -> int {
    let p = floor_log2(k);
    let v = c.peek(p);
    if k == 0 {
        0
    } else if v < short_codes(k) {
        v as int
    } else {
        2 * v - short_codes(k) + c.advance(p).peek(1)
    }
}

/// The cursor behind that code.
pub open spec fn after_tail(c: BitCursor, k: nat) -> BitCursor {
    let p = floor_log2(k);
    if k == 0 {
        c
    } else if c.peek(p) < short_codes(k) {
        c.advance(p)
    } else {
        c.advance(p).advance(1)
    }
}

/// An adjusted binary code for 0..=k never exceeds k.
pub proof fn lemma_tail_bound(c: BitCursor, k: nat)
    ensures
        0 <= tail(c, k) <= k,
{
    if k > 0 {
        let p = floor_log2(k);
        lemma_floor_log2_bounds(k);
        lemma_pow2_unfold(p + 1);
        bitstream::lemma_bits_value_bound(c.data, c.pos as int, p);
        bitstream::lemma_bits_value_bound(c.data, c.advance(p).pos as int, 1);
        lemma2_to64();
    }
}

/// The number of an Elias gamma style code at `c`: a unary length `n`, then, for
/// a length from 2 to 32, the low `n - 1` bits of an `n`-bit number.
pub open spec fn gamma(c: BitCursor) -> nat {
    let n = c.ones(33);
    if 2 <= n <= 32 {
        c.after_ones(33).peek((n - 1) as nat) + pow2((n - 1) as nat)
    } else {
        n
    }
}

/// The cursor behind that code.
pub open spec fn after_gamma(c: BitCursor) -> BitCursor {
    let n = c.ones(33);
    if 2 <= n <= 32 {
        c.after_ones(33).advance((n - 1) as nat)
    } else {
        c.after_ones(33)
    }
}

/// The zone word at `c`: a unary code; 16 is an escape, to which the gamma code
/// behind it is added, except one whose length is over 32.
pub open spec fn zone_word(c: BitCursor) -> u32 {
    let n = c.ones(33);
    let ext = c.after_ones(33);
    if n != 16 {
        n as u32
    } else if ext.ones(33) > 32 {
        16
    } else {
        arith::wrap_u32(16 + gamma(ext) as int)
    }
}

/// The cursor behind the zone word.
pub open spec fn after_zone_word(c: BitCursor) -> BitCursor {
    if c.ones(33) != 16 {
        c.after_ones(33)
    } else {
        after_gamma(c.after_ones(33))
    }
}

impl Medians {
    /// The least magnitude in a zone.
    pub open spec fn zone_base(self, zone: u32) -> int {
        if zone == 0 {
            0
        } else if zone == 1 {
            zone_width(self.m0)
        } else {
            zone_width(self.m0) + zone_width(self.m1) + zone_width(self.m2) * (zone - 2)
        }
    }

    /// The greatest remainder in a zone.
    pub open spec fn zone_top(self, zone: u32) -> nat {
        (zone_width(if zone == 0 {
            self.m0
        } else if zone == 1 {
            self.m1
        } else {
            self.m2
        }) - 1) as nat
    }

    /// The medians after a value in a zone: those below it are raised, that of
    /// the zone itself is lowered, and the last zones have no median of their own.
    pub open spec fn adapted(self, zone: u32) -> Medians {
        Medians {
            m0: if zone == 0 {
                lowered(self.m0, 128)
            } else {
                raised(self.m0, 128)
            },
            m1: if zone == 0 {
                self.m1
            } else if zone == 1 {
                lowered(self.m1, 64)
            } else {
                raised(self.m1, 64)
            },
            m2: if zone < 2 {
                self.m2
            } else if zone == 2 {
                lowered(self.m2, 32)
            } else {
                raised(self.m2, 32)
            },
        }
    }
}

/// Everything that the next residual depends on.
#[verifier::ext_equal]
pub struct EntropyModel {
    pub bits: BitCursor,
    pub medians: Seq<Medians>,
    pub zero: bool,
    pub one: bool,
    pub zeroes: u32,
}

impl EntropyModel {
    /// A decoder at the start of a block.
    pub open spec fn fresh(data: Seq<u8>, medians: Seq<Medians>) -> EntropyModel {
        EntropyModel {
            bits: BitCursor { data, pos: 0 },
            medians,
            zero: false,
            one: false,
            zeroes: 0,
        }
    }

    /// The first median of every channel is below 2.
    pub open spec fn all_low(self) -> bool {
        forall|i: int| 0 <= i < self.medians.len() ==> (#[trigger] self.medians[i]).m0 < 2
    }

    /// Zero-run mode: every channel is quiet and no zone is pending.
    pub open spec fn run_mode(self) -> bool {
        self.all_low() && !self.zero && !self.one
    }

    /// The zone of the next residual. A pending zero flag means zone 0; else the
    /// zone word says it, and a pending one flag adds one to it.
    pub open spec fn zone(self) -> u32 {
        if self.zero {
            0
        } else {
            (zone_word(self.bits) as int / 2 + if self.one {
                1int
            } else {
                0
            }) as u32
        }
    }

    /// The state behind the zone: the low bit of a zone word becomes the one
    /// flag, its negation the zero flag.
    pub open spec fn after_zone(self) -> EntropyModel {
        if self.zero {
            EntropyModel { zero: false, ..self }
        } else {
            let odd = zone_word(self.bits) % 2 == 1;
            EntropyModel { bits: after_zone_word(self.bits), one: odd, zero: !odd, ..self }
        }
    }

    /// The next residual where it is coded: magnitude, then sign.
    pub open spec fn coded(self, ch: int) -> i32 {
        let z = self.zone();
        let m = self.medians[ch];
        let c = self.after_zone().bits;
        let magnitude = arith::wrap_i32(m.zone_base(z) + tail(c, m.zone_top(z)));
        if after_tail(c, m.zone_top(z)).peek(1) == 0 {
            magnitude
        } else {
            (-1 - magnitude) as i32
        }
    }

    /// The state behind a coded residual.
    pub open spec fn after_coded(self, ch: int) -> EntropyModel {
        let z = self.zone();
        let m = self.medians[ch];
        let next = self.after_zone();
        EntropyModel {
            bits: after_tail(next.bits, m.zone_top(z)).advance(1),
            medians: next.medians.update(ch, m.adapted(z)),
            ..next
        }
    }

    /// The state behind a zero-run code.
    pub open spec fn after_run(self) -> EntropyModel {
        let run = gamma(self.bits) as u32;
        EntropyModel {
            bits: after_gamma(self.bits),
            zeroes: run,
            medians: if run == 0 {
                self.medians
            } else {
                Seq::new(self.medians.len(), |i: int| Medians { m0: 0, m1: 0, m2: 0 })
            },
            ..self
        }
    }

    /// The state in which the next residual is coded, if it is coded: in zero-run
    /// mode a run that has come to its end is counted off, or a new run is read.
    pub open spec fn past_run(self) -> EntropyModel {
        if !self.run_mode() {
            self
        } else if self.zeroes > 0 {
            EntropyModel { zeroes: (self.zeroes - 1) as u32, ..self }
        } else {
            self.after_run()
        }
    }

    /// The next residual is part of a run of zeros.
    pub open spec fn in_run(self) -> bool {
        self.run_mode() && self.past_run().zeroes > 0
    }

    /// The next residual of channel `ch`.
    pub open spec fn residual(self, ch: int) -> i32 {
        if self.in_run() {
            0
        } else {
            self.past_run().coded(ch)
        }
    }

    /// The state behind it.
    pub open spec fn after_residual(self, ch: int) -> EntropyModel {
        if self.in_run() {
            self.past_run()
        } else {
            self.past_run().after_coded(ch)
        }
    }

    /// The state behind one residual for each of the given channels in turn.
    pub open spec fn after_residuals(self, channels: Seq<int>) -> EntropyModel
        decreases channels.len(),
    {
        if channels.len() == 0 {
            self
        } else {
            self.after_residuals(channels.drop_last()).after_residual(channels.last())
        }
    }

    /// One residual for each of the given channels in turn.
    pub open spec fn residuals(self, channels: Seq<int>) -> Seq<i32> {
        Seq::new(
            channels.len(),
            |i: int| self.after_residuals(channels.take(i)).residual(channels[i]),
        )
    }

    /// The state behind one residual for each of the first `n` channels.
    pub open spec fn after_frame(self, n: nat) -> EntropyModel
        decreases n,
    {
        if n == 0 {
            self
        } else {
            self.after_frame((n - 1) as nat).after_residual(n - 1)
        }
    }

    /// The state behind `k` frames of `n` channels.
    pub open spec fn after_frames(self, n: nat, k: nat) -> EntropyModel
        decreases k,
    {
        if k == 0 {
            self
        } else {
            self.after_frames(n, (k - 1) as nat).after_frame(n)
        }
    }

    /// One residual for each of the first `n` channels.
    pub open spec fn frame(self, n: nat) -> Seq<i32> {
        Seq::new(n, |ch: int| self.after_frame(ch as nat).residual(ch))
    }
}

/// The exponent of the highest bit that is set in `k`.
fn log2(k: u32) -> (p: u32)
    requires
        k > 0,
    ensures
        p == floor_log2(k as nat),
        p < 32,
{
    let mut p: u32 = 0;
    let mut rest: u32 = k;
    proof {
        lemma2_to64();
    }
    while rest > 1
        invariant
            p + floor_log2(rest as nat) == floor_log2(k as nat),
            0 < rest,
            rest * pow2(p as nat) <= k,
            p < 32,
        decreases rest,
    {
        proof {
            lemma_pow2_unfold((p + 1) as nat);
            let q = pow2(p as nat) as int;
            let half = rest as int / 2;
            assert(half * (2 * q) <= rest * q) by (nonlinear_arith)
                requires
                    2 * half <= rest,
                    q >= 0,
            ;
            lemma2_to64();
            if p == 31 {
                assert(rest * q >= 2 * q) by (nonlinear_arith)
                    requires
                        rest >= 2,
                        q >= 0,
                ;
            }
        }
        rest = rest / 2;
        p = p + 1;
    }
    p
}

/// Entropy decoder for WavPack bitstreams.
pub struct EntropyDecoder<'a> {
    pub bs: BitstreamReader<'a>,
    pub states: Vec<EntropyState>,
    /// Zero flag: next sample forced to zone 0 without reading bitstream.
    pub zero: bool,
    /// One flag: affects zone calculation for next normal sample.
    pub one: bool,
    /// Pending zero-run counter (shared across channels).
    pub zeroes: u32,
}

/// The medians of all channels.
pub open spec fn medians_of(states: Seq<EntropyState>) -> Seq<Medians> {
    states.map_values(|s: EntropyState| s@)
}

impl View for EntropyDecoder<'_> {
    type V = EntropyModel;

    open spec fn view(&self) -> EntropyModel {
        EntropyModel {
            bits: self.bs@,
            medians: medians_of(self.states@),
            zero: self.zero,
            one: self.one,
            zeroes: self.zeroes,
        }
    }
}

impl<'a> EntropyDecoder<'a> {
    /// The bit reader is well formed.
    pub open spec fn wf(&self) -> bool {
        self.bs.wf()
    }

    /// A decoder at the first bit of `bitstream_data`.
    pub fn new(bitstream_data: &'a [u8], states: Vec<EntropyState>) -> (d: Self)
        ensures
            d.wf(),
            d@ == EntropyModel::fresh(bitstream_data@, medians_of(states@)),
    {
        Self {
            bs: BitstreamReader::new(bitstream_data),
            states,
            zero: false,
            one: false,
            zeroes: 0,
        }
    }

    /// Read adjusted-binary Golomb remainder.
    /// Returns a value in [0, k] inclusive.
    pub fn read_golomb_remainder(&mut self, k: u32) -> (r: u32)
        requires
            old(self).wf(),
        ensures
            final(self).wf(),
            r == tail(old(self)@.bits, k as nat),
            r <= k,
            final(self).states == old(self).states,
            final(self)@ == (EntropyModel {
                bits: after_tail(old(self)@.bits, k as nat),
                ..old(self)@
            }),
    {
        if k < 1 {
            return 0;
        }
        let ghost start = self.bs@;
        let p: u32 = log2(k);
        proof {
            lemma2_to64();
            lemma_floor_log2_bounds(k as nat);
            lemma_pow2_unfold((p + 1) as nat);
            if p + 1 < 32 {
                lemma_pow2_strictly_increases((p + 1) as nat, 32);
            }
            lemma_u64_shl_is_mul(1, (p + 1) as u64);
            bitstream::lemma_bits_value_bound(start.data, start.pos as int, p as nat);
            lemma_tail_bound(start, k as nat);
            reveal_with_fuel(bitstream::bits_value, 2);
        }
        let e: u32 = ((1u64 << ((p + 1) as u64)) - k as u64 - 1) as u32;
        let res: u32 = self.bs.read_bits(p);
        if res >= e {
            let extra_bit: u32 = self.bs.read_bit();
            (res as u64 * 2 - e as u64 + extra_bit as u64) as u32
        } else {
            res
        }
    }

    /// Decode value from zone, updating medians.
    pub fn decode_zone(&mut self, channel: usize, zone: u32) -> (magnitude: u32)
        requires
            old(self).wf(),
            channel < old(self).states@.len(),
        ensures
            final(self).wf(),
            final(self).states@.len() == old(self).states@.len(),
            ({
                let m = old(self)@.medians[channel as int];
                let start = old(self)@.bits;
                &&& magnitude == arith::wrap_u32(
                    m.zone_base(zone) + tail(start, m.zone_top(zone)),
                )
                &&& final(self)@ == (EntropyModel {
                    bits: after_tail(start, m.zone_top(zone)),
                    medians: old(self)@.medians.update(channel as int, m.adapted(zone)),
                    ..old(self)@
                })
            }),
    {
        let ghost m = self@.medians[channel as int];
        assert(m == self.states@[channel as int]@);
        let m0: u32 = self.states[channel].get_median(0);
        let m1: u32 = self.states[channel].get_median(1);
        let m2: u32 = self.states[channel].get_median(2);
        let base: u64;
        let top: u32;
        if zone == 0 {
            base = 0;
            top = m0 - 1;
        } else if zone == 1 {
            base = m0 as u64;
            top = m1 - 1;
        } else {
            assert(0 <= m2 * (zone - 2) <= 0x1000_0000 * 0xffff_ffff) by (nonlinear_arith)
                requires
                    0 <= m2 <= 0x1000_0000,
                    2 <= zone <= 0xffff_ffff,
            ;
            base = m0 as u64 + m1 as u64 + m2 as u64 * (zone - 2) as u64;
            top = m2 - 1;
        }
        let remainder: u32 = self.read_golomb_remainder(top);
        self.states[channel].adapt(zone);
        assert(self@.medians =~= old(self)@.medians.update(channel as int, m.adapted(zone)));
        ((base + remainder as u64) % 0x1_0000_0000) as u32
    }

    /// Reads a gamma code.
    fn read_gamma(&mut self) -> (r: (u32, u32))
        requires
            old(self).wf(),
        ensures
            final(self).wf(),
            final(self).states == old(self).states,
            r.0 == gamma(old(self)@.bits),
            r.1 == old(self)@.bits.ones(33),
            final(self)@ == (EntropyModel { bits: after_gamma(old(self)@.bits), ..old(self)@ }),
    {
        let n: u32 = self.bs.read_unary();
        if n < 2 || n > 32 {
            return (n, n);
        }
        let ghost at = self.bs@;
        let ghost k = (n - 1) as nat;
        proof {
            bitstream::lemma_bits_value_bound(at.data, at.pos as int, k);
            lemma2_to64();
            lemma_pow2_unfold(k + 1);
            if k < 31 {
                lemma_pow2_strictly_increases(k + 1, 32);
            }
            assert(2 * pow2(k) <= 0x1_0000_0000);
        }
        let low: u32 = self.bs.read_bits(n - 1);
        let high: u32 = arith::shl_u32(1, n - 1);
        assert(high == pow2(k)) by {
            assert((n - 1) % 32 == k);
            assert(1 * pow2(k) == pow2(k));
        }
        (high + low, n)
    }

    /// Decode one residual for the given channel.
    pub fn decode_residual(&mut self, channel: usize) -> (r: i32)
        requires
            old(self).wf(),
            channel < old(self).states@.len() || old(self)@.in_run(),
        ensures
            final(self).wf(),
            final(self).states@.len() == old(self).states@.len(),
            r == old(self)@.residual(channel as int),
            final(self)@ == old(self)@.after_residual(channel as int),
    {
        // 1. Zero-run check: median[0] < 2 for ALL channels AND !zero AND !one
        let mut all_medians_low: bool = true;
        for i in 0..self.states.len()
            invariant
                all_medians_low <==> (forall|j: int|
                    0 <= j < i ==> (#[trigger] self@.medians[j]).m0 < 2),
        {
            assert(self@.medians[i as int].m0 == self.states@[i as int].medians@[0]);
            all_medians_low = all_medians_low && self.states[i].medians[0] < 2;
        }
        assert(all_medians_low == self@.all_low());
        if all_medians_low && !self.zero && !self.one {
            if self.zeroes > 0 {
                self.zeroes = self.zeroes - 1;
            } else {
                let (run, _): (u32, u32) = self.read_gamma();
                self.zeroes = run;
                if run > 0 {
                    self.clear_medians();
                }
            }
            assert(self@ == old(self)@.past_run());
            if self.zeroes > 0 {
                return 0;
            }
        }
        let ghost start = self@;

        // 2. Normal decode with zero/one state machine
        let zone: u32;
        if self.zero {
            zone = 0;
            self.zero = false;
        } else {
            let raw: u32 = self.read_zone_word();
            zone = raw / 2 + if self.one { 1 } else { 0 };
            self.one = raw % 2 == 1;
            self.zero = !self.one;
        }
        assert(zone == start.zone());
        assert(self@ == start.after_zone());

        // 3. Decode magnitude from zone, updating medians
        let magnitude: u32 = self.decode_zone(channel, zone);
        proof {
            let m = start.medians[channel as int];
            let x = m.zone_base(zone) + tail(start.after_zone().bits, m.zone_top(zone));
            arith::lemma_wrap_congruent(x, magnitude as int, x / 0x1_0000_0000);
            reveal_with_fuel(bitstream::bits_value, 2);
        }

        // 4. Sign bit, always read, even for magnitude 0
        let sign: u32 = self.bs.read_bit();
        let value: i32 = arith::to_i32(magnitude);
        if sign != 0 {
            -1 - value
        } else {
            value
        }
    }

    /// Sets every median of every channel to 0.
    fn clear_medians(&mut self)
        requires
            old(self).wf(),
        ensures
            final(self).wf(),
            final(self).states@.len() == old(self).states@.len(),
            final(self)@ == (EntropyModel {
                medians: Seq::new(
                    old(self)@.medians.len(),
                    |i: int| Medians { m0: 0, m1: 0, m2: 0 },
                ),
                ..old(self)@
            }),
    {
        let n: usize = self.states.len();
        for i in 0..n
            invariant
                n == self.states@.len(),
                self.wf(),
                self.bs == old(self).bs,
                self.zero == old(self).zero,
                self.one == old(self).one,
                self.zeroes == old(self).zeroes,
                self.states@.len() == old(self).states@.len(),
                forall|j: int|
                    0 <= j < i ==> (#[trigger] self.states@[j])@ == (Medians {
                        m0: 0,
                        m1: 0,
                        m2: 0,
                    }),
        {
            self.states[i] = EntropyState::new();
        }
        assert(self@.medians =~= Seq::new(
            old(self)@.medians.len(),
            |i: int| Medians { m0: 0, m1: 0, m2: 0 },
        ));
    }

    /// Reads a zone word.
    fn read_zone_word(&mut self) -> (raw: u32)
        requires
            old(self).wf(),
        ensures
            final(self).wf(),
            final(self).states == old(self).states,
            raw == zone_word(old(self)@.bits),
            final(self)@ == (EntropyModel { bits: after_zone_word(old(self)@.bits), ..old(self)@ }),
    {
        let raw: u32 = self.bs.read_unary();
        if raw != 16 {
            return raw;
        }
        let (ext, len): (u32, u32) = self.read_gamma();
        if len > 32 {
            raw
        } else {
            arith::add_u32(raw, ext)
        }
    }

    /// Decode one frame of residuals (one sample per channel).
    pub fn decode_frame(&mut self, num_channels: usize) -> (frame: Vec<i32>)
        requires
            old(self).wf(),
            4 * num_channels <= isize::MAX,
            forall|ch: nat|
                ch < num_channels ==> ch < old(self).states@.len() || (
                #[trigger] old(self)@.after_frame(ch)).in_run(),
        ensures
            final(self).wf(),
            final(self).states@.len() == old(self).states@.len(),
            frame@ == old(self)@.frame(num_channels as nat),
            final(self)@ == old(self)@.after_frame(num_channels as nat),
    {
        let mut frame: Vec<i32> = Vec::with_capacity(num_channels);
        for ch in 0..num_channels
            invariant
                self.wf(),
                forall|c: nat|
                    c < num_channels ==> c < old(self).states@.len() || (
                    #[trigger] old(self)@.after_frame(c)).in_run(),
                self.states@.len() == old(self).states@.len(),
                self@ == old(self)@.after_frame(ch as nat),
                frame@ == old(self)@.frame(ch as nat),
        {
            let r: i32 = self.decode_residual(ch);
            frame.push(r);
            assert(frame@ =~= old(self)@.frame((ch + 1) as nat));
        }
        frame
    }
}

/// The median that the two bytes at `pos` hold, lowest byte first; 0 where the
/// data does not reach that far.
pub open spec fn packed_median(data: Seq<u8>, pos: int) -> u32 {
    if pos + 2 <= data.len() {
        exp2_packed((data[pos] + 256 * data[pos + 1]) as u16)
    } else {
        0
    }
}

/// The medians of `n` channels, six bytes for each.
pub open spec fn entropy_vars(data: Seq<u8>, n: nat) -> Seq<Medians> {
    Seq::new(
        n,
        |ch: int|
            Medians {
                m0: packed_median(data, 6 * ch),
                m1: packed_median(data, 6 * ch + 2),
                m2: packed_median(data, 6 * ch + 4),
            },
    )
}

/// Parse entropy vars from ID_ENTROPY_VARS sub-block (0x05).
pub fn parse_entropy_vars(data: &[u8], num_channels: usize) -> (states: Vec<EntropyState>)
    requires
        12 * num_channels <= isize::MAX,
    ensures
        medians_of(states@) == entropy_vars(data@, num_channels as nat),
{
    let mut states: Vec<EntropyState> = Vec::with_capacity(num_channels);
    for ch in 0..num_channels
        invariant
            12 * num_channels <= isize::MAX,
            medians_of(states@) == entropy_vars(data@, ch as nat),
    {
        let offset: usize = ch * 6;
        let mut medians: [u32; 3] = [0; 3];
        for i in 0..NUM_MEDIANS
            invariant
                6 * ch + 6 <= isize::MAX,
                offset == 6 * ch,
                forall|k: int|
                    0 <= k < 3 ==> #[trigger] medians@[k] == if k < i {
                        packed_median(data@, offset + 2 * k)
                    } else {
                        0
                    },
        {
            let pos: usize = offset + i * 2;
            if pos + 2 <= data.len() {
                let packed: u16 = data[pos] as u16 + data[pos + 1] as u16 * 256;
                medians[i] = restore_median_log2(packed);
            }
        }
        let ghost before = states@;
        states.push(EntropyState { medians });
        assert(medians_of(states@) =~= medians_of(before).push(states@[ch as int]@));
        assert(entropy_vars(data@, (ch + 1) as nat) =~= entropy_vars(data@, ch as nat).push(
            states@[ch as int]@,
        ));
    }
    states
}

/// A zero-run code of `n` stands for exactly `n` zeros: from the state that reads
/// it, each of the next `n` residuals is zero whatever its channel, the code's own
/// bits are the only ones read, and the residual behind them is coded again.
pub proof fn lemma_zero_run(m: EntropyModel, channels: Seq<int>)
    requires
        m.run_mode(),
        m.zeroes == 0,
        1 <= channels.len() <= gamma(m.bits) <= u32::MAX,
    ensures
        m.after_residuals(channels) == (EntropyModel {
            zeroes: (gamma(m.bits) - channels.len() + 1) as u32,
            ..m.after_run()
        }),
        forall|i: int| 0 <= i < channels.len() ==> #[trigger] m.residuals(channels)[i] == 0,
        m.after_residuals(channels).in_run() <==> channels.len() < gamma(m.bits),
    decreases channels.len(),
{
    let head = channels.drop_last();
    if head.len() > 0 {
        lemma_zero_run(m, head);
    }
    assert(m.after_residuals(head).all_low());
    assert forall|i: int| 0 <= i < channels.len() implies #[trigger] m.residuals(channels)[i]
        == 0 by {
        assert(channels.take(i) =~= head.take(i));
        if i < head.len() {
            assert(m.residuals(head)[i] == 0);
        } else {
            assert(head.take(i) =~= head);
        }
    }
    assert(m.after_residuals(channels).all_low());
}

} // verus!
