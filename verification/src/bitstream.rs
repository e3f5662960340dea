//! LSB-first bitstream reader.
//!
//! WavPack packs bits LSB-first: the first bit of a stream is bit 0 of its
//! first byte. Behind the last byte every bit reads as zero.
use crate::arith;
use vstd::arithmetic::div_mod::*;
use vstd::arithmetic::mul::*;
use vstd::arithmetic::power2::*;
use vstd::bits::*;
use vstd::prelude::*;

verus! {

/// Bit `i` of a byte stream: bit `i % 8` of byte `i / 8`, and 0 outside the stream.
pub open spec fn bit_at(data: Seq<u8>, i: int) -> nat {
    if 0 <= i < 8 * data.len() {
        (data[i / 8] as nat / pow2((i % 8) as nat)) % 2
    } else {
        0
    }
}

/// The number whose binary digits, lowest first, are the `n` bits from `pos` on.
pub open spec fn bits_value(data: Seq<u8>, pos: int, n: nat) -> nat
    decreases n,
{
    if n == 0 {
        0
    } else {
        bit_at(data, pos) + 2 * bits_value(data, pos + 1, (n - 1) as nat)
    }
}

/// How many 1-bits stand at `pos` in a row, counting at most `cap` of them.
pub open spec fn ones_run(data: Seq<u8>, pos: int, cap: nat) -> nat
    decreases cap,
{
    if cap == 0 || bit_at(data, pos) == 0 {
        0
    } else {
        1 + ones_run(data, pos + 1, (cap - 1) as nat)
    }
}

/// A place in a byte stream, counted in bits.
#[verifier::ext_equal]
pub struct BitCursor {
    pub data: Seq<u8>,
    pub pos: nat,
}

impl BitCursor {
    /// The number of bits in the stream.
    pub open spec fn total(self) -> nat {
        8 * self.data.len()
    }

    /// The cursor `n` bits further on, or at the end if the stream is shorter.
    pub open spec fn advance(self, n: nat) -> BitCursor {
        BitCursor {
            data: self.data,
            pos: if self.pos + n <= self.total() {
                self.pos + n
            } else {
                self.total()
            },
        }
    }

    /// The number of bits ahead.
    pub open spec fn remaining(self) -> nat {
        (self.total() - self.pos) as nat
    }

    /// The value of the next `n` bits.
    pub open spec fn peek(self, n: nat) -> nat {
        bits_value(self.data, self.pos as int, n)
    }

    /// The number of 1-bits ahead, at most `cap`.
    pub open spec fn ones(self, cap: nat) -> nat {
        ones_run(self.data, self.pos as int, cap)
    }

    /// The cursor behind a unary code: the 1-bits, at most `cap`, and the 0-bit that
    /// ends them. Where no 0-bit follows, as at the end of the stream or behind `cap`
    /// of more 1-bits, there is none to pass.
    pub open spec fn after_ones(self, cap: nat) -> BitCursor {
        let n = self.ones(cap);
        if bit_at(self.data, self.pos as int + n) == 0 {
            self.advance(n + 1)
        } else {
            self.advance(n)
        }
    }

    /// What the pairs of a chain add up to when the first one is shifted by
    /// `shift`; a distance counts modulo 32, and each term is a 32-bit word.
    pub open spec fn egc_sum(self, shift: nat) -> nat
        decreases self.remaining(),
    {
        let term = arith::wrap_u32(
            (bit_at(self.data, self.pos as int + 1) + 1) * pow2(shift % 32) as int,
        ) as nat;
        if bit_at(self.data, self.pos as int) == 0 {
            term
        } else {
            term + self.advance(2).egc_sum(shift + 1)
        }
    }

    /// The cursor behind a chain of pairs.
    pub open spec fn after_egc(self) -> BitCursor
        decreases self.remaining(),
    {
        if bit_at(self.data, self.pos as int) == 0 {
            self.advance(2)
        } else {
            self.advance(2).after_egc()
        }
    }
}

/// `n` bits make a number below 2^n.
pub proof fn lemma_bits_value_bound(data: Seq<u8>, pos: int, n: nat)
    ensures
        bits_value(data, pos, n) < pow2(n),
    decreases n,
{
    if n == 0 {
        lemma2_to64();
    } else {
        lemma_bits_value_bound(data, pos + 1, (n - 1) as nat);
        lemma_pow2_unfold(n);
    }
}

/// Reading `a + b` bits at once gives the first `a` bits as the low part and the
/// next `b` bits as the high part.
pub proof fn lemma_bits_value_split(data: Seq<u8>, pos: int, a: nat, b: nat)
    ensures
        bits_value(data, pos, a + b) == bits_value(data, pos, a) + pow2(a) * bits_value(
            data,
            pos + a,
            b,
        ),
    decreases a,
{
    if a == 0 {
        lemma2_to64();
    } else {
        let a1 = (a - 1) as nat;
        lemma_bits_value_split(data, pos + 1, a1, b);
        lemma_pow2_unfold(a);
        assert((a + b - 1) as nat == a1 + b);
        assert(pos + 1 + a1 == pos + a);
        let high = bits_value(data, pos + a, b);
        lemma_mul_is_associative(2, pow2(a1) as int, high as int);
    }
}

/// Behind the end there are only zeros.
pub proof fn lemma_bits_value_past_end(data: Seq<u8>, pos: int, n: nat)
    requires
        pos >= 8 * data.len(),
    ensures
        bits_value(data, pos, n) == 0,
    decreases n,
{
    if n > 0 {
        lemma_bits_value_past_end(data, pos + 1, (n - 1) as nat);
    }
}

/// The upper `8 - j` bits of a byte.
proof fn lemma_bits_value_in_byte(data: Seq<u8>, k: int, j: nat)
    requires
        0 <= k < data.len(),
        j <= 8,
    ensures
        bits_value(data, 8 * k + j, (8 - j) as nat) == data[k] as nat / pow2(j),
    decreases 8 - j,
{
    let b = data[k] as nat;
    lemma_pow2_pos(j);
    if j == 8 {
        lemma2_to64();
        lemma_basic_div(b as int, 256);
    } else {
        lemma_bits_value_in_byte(data, k, j + 1);
        lemma_pow2_unfold(j + 1);
        lemma_div_denominator(b as int, pow2(j) as int, 2);
        assert((8 * k + j) / 8 == k && (8 * k + j) % 8 == j);
        assert(bit_at(data, 8 * k + j) == (b / pow2(j)) % 2);
        let rest = (8 - (j + 1)) as nat;
        assert(((8 - j) as nat - 1) as nat == rest);
        let x = b / pow2(j);
        assert(bits_value(data, 8 * k + j, (8 - j) as nat) == x % 2 + 2 * (x / 2));
    }
}

/// Eight bits that start at a byte boundary are that byte.
pub proof fn lemma_bits_value_byte(data: Seq<u8>, k: int)
    requires
        0 <= k < data.len(),
    ensures
        bits_value(data, 8 * k, 8) == data[k],
{
    lemma_bits_value_in_byte(data, k, 0);
    lemma2_to64();
}

/// LSB-first bitstream reader over a byte slice.
pub struct BitstreamReader<'a> {
    data: &'a [u8],
    /// Byte position in data.
    byte_pos: usize,
    /// Bit accumulator: up to 64 bits are cached.
    accum: u64,
    /// Number of valid bits in accum.
    bits_left: u32,
}

impl<'a> View for BitstreamReader<'a> {
    type V = BitCursor;

    closed spec fn view(&self) -> BitCursor {
        BitCursor { data: self.data@, pos: (8 * self.byte_pos - self.bits_left) as nat }
    }
}

impl<'a> BitstreamReader<'a> {
    /// The accumulator holds the bits between the cursor and the byte position,
    /// and nothing else.
    pub closed spec fn wf(&self) -> bool {
        &&& self.byte_pos <= self.data@.len()
        &&& self.bits_left <= 64
        &&& self.bits_left <= 8 * self.byte_pos
        &&& self.accum == bits_value(
            self.data@,
            8 * self.byte_pos - self.bits_left,
            self.bits_left as nat,
        )
    }

    /// The cursor never leaves the stream.
    pub proof fn lemma_pos_bound(&self)
        requires
            self.wf(),
        ensures
            self@.pos <= self@.total(),
    {
    }

    /// A reader at the first bit of `data`.
    pub fn new(data: &'a [u8]) -> (reader: Self)
        ensures
            reader.wf(),
            reader@ == (BitCursor { data: data@, pos: 0 }),
    {
        Self { data, byte_pos: 0, accum: 0, bits_left: 0 }
    }

    /// Refill the accumulator from the byte buffer.
    fn refill(&mut self)
        requires
            old(self).wf(),
        ensures
            final(self).wf(),
            final(self)@ == old(self)@,
            final(self).data == old(self).data,
            final(self).bits_left > 56 || final(self).byte_pos == final(self).data@.len(),
    {
        while self.bits_left <= 56 && self.byte_pos < self.data.len()
            invariant
                self.wf(),
                self@ == old(self)@,
                self.data == old(self).data,
            decreases self.data@.len() - self.byte_pos,
        {
            proof {
                let pos = 8 * self.byte_pos - self.bits_left;
                let k = self.bits_left as nat;
                let byte = self.data@[self.byte_pos as int];
                lemma_bits_value_split(self.data@, pos, k, 8);
                lemma_bits_value_byte(self.data@, self.byte_pos as int);
                lemma_bits_value_bound(self.data@, pos, k);
                lemma_or_is_add(self.accum, byte, self.bits_left);
            }
            self.accum |= (self.data[self.byte_pos] as u64) << self.bits_left;
            self.byte_pos += 1;
            self.bits_left += 8;
        }
    }

    /// Read `n` bits (0..=32) and return them as a u32.
    pub fn read_bits(&mut self, n: u32) -> (val: u32)
        requires
            old(self).wf(),
            n <= 32,
        ensures
            final(self).wf(),
            val == old(self)@.peek(n as nat),
            final(self)@ == old(self)@.advance(n as nat),
    {
        if n == 0 {
            return 0;
        }
        self.refill();
        let mask: u32 = if n == 32 {
            u32::MAX
        } else {
            assert((1u32 << n) >= 1) by (bit_vector)
                requires
                    n < 32,
            ;
            (1u32 << n) - 1
        };
        let val: u32 = (self.accum as u32) & mask;
        proof {
            let pos = self@.pos as int;
            let left = self.bits_left as nat;
            lemma_low_bits(self.accum, n);
            if n <= left {
                let rest = (left - n) as nat;
                lemma_bits_value_split(self.data@, pos, n as nat, rest);
                lemma_bits_value_bound(self.data@, pos, n as nat);
                lemma_mul_is_commutative(
                    pow2(n as nat) as int,
                    bits_value(self.data@, pos + n, rest) as int,
                );
                lemma_fundamental_div_mod_converse(
                    self.accum as int,
                    pow2(n as nat) as int,
                    bits_value(self.data@, pos + n, rest) as int,
                    bits_value(self.data@, pos, n as nat) as int,
                );
            } else {
                let lack = (n - left) as nat;
                lemma_bits_value_split(self.data@, pos, left, lack);
                lemma_bits_value_past_end(self.data@, pos + left, lack);
                lemma_mul_basics(pow2(left) as int);
                lemma_bits_value_bound(self.data@, pos, left);
                lemma_pow2_strictly_increases(left, n as nat);
                lemma_small_mod(self.accum as nat, pow2(n as nat));
                lemma_basic_div(self.accum as int, pow2(n as nat) as int);
                assert(left + lack == n as nat);
            }
        }
        self.accum >>= n;
        self.bits_left = self.bits_left.saturating_sub(n);
        val
    }

    /// Read a single bit.
    pub fn read_bit(&mut self) -> (bit: u32)
        requires
            old(self).wf(),
        ensures
            final(self).wf(),
            bit == bit_at(old(self)@.data, old(self)@.pos as int),
            final(self)@ == old(self)@.advance(1),
    {
        proof {
            reveal_with_fuel(bits_value, 2);
        }
        self.read_bits(1)
    }

    /// The next bit, if the stream is not exhausted.
    fn take_bit(&mut self) -> (bit: Option<u32>)
        requires
            old(self).wf(),
        ensures
            final(self).wf(),
            bit is None <==> old(self)@.remaining() == 0,
            bit is None ==> final(self)@ == old(self)@,
            bit matches Some(b) ==> b == bit_at(old(self)@.data, old(self)@.pos as int),
            bit is Some ==> final(self)@ == old(self)@.advance(1),
    {
        if self.is_empty() {
            None
        } else {
            Some(self.read_bit())
        }
    }

    /// The next bit is a 0-bit, or the stream is exhausted.
    fn zero_is_next(&mut self) -> (b: bool)
        requires
            old(self).wf(),
        ensures
            final(self).wf(),
            final(self)@ == old(self)@,
            b == (bit_at(old(self)@.data, old(self)@.pos as int) == 0),
    {
        self.refill();
        self.bits_left == 0 || self.accum % 2 == 0
    }

    /// Read a unary code: count consecutive 1-bits, stop at 0-bit terminator.
    ///
    /// Counts 1-bits up to a cap of 33, always consuming the 0-bit terminator, also
    /// behind the 33rd 1-bit. A further 1-bit there is no terminator and stays. The
    /// count stops as well where the data is exhausted.
    pub fn read_unary(&mut self) -> (count: u32)
        requires
            old(self).wf(),
        ensures
            final(self).wf(),
            count == old(self)@.ones(33),
            final(self)@ == old(self)@.after_ones(33),
    {
        let ghost start = self@;
        let mut count: u32 = 0;
        while count < 33
            invariant
                self.wf(),
                start == old(self)@,
                count <= 33,
                self@.data == start.data,
                self@.pos == start.pos + count,
                self@.pos <= self@.total(),
                start.ones(33) == count + ones_run(
                    start.data,
                    start.pos + count,
                    (33 - count) as nat,
                ),
            decreases 33 - count,
        {
            proof {
                self.lemma_pos_bound();
            }
            match self.take_bit() {
                None => {
                    return count;
                },
                Some(bit) => {
                    if bit == 0 {
                        return count;
                    }
                    count += 1;
                },
            }
        }
        if self.zero_is_next() {
            self.read_bit();
        }
        count
    }

    /// Read a unary code with no limit: count consecutive 1-bits until a 0-bit
    /// terminator or the end of the data. The count is kept modulo 2^32.
    pub fn read_unary_unlimited(&mut self) -> (count: u32)
        requires
            old(self).wf(),
        ensures
            final(self).wf(),
            count == arith::wrap_u32(old(self)@.ones(old(self)@.remaining()) as int),
            final(self)@ == old(self)@.after_ones(old(self)@.remaining()),
    {
        let ghost start = self@;
        let ghost cap = self@.remaining();
        let ghost mut seen: nat = 0;
        let mut count: u32 = 0;
        loop
            invariant
                self.wf(),
                start == old(self)@,
                cap == start.remaining(),
                seen <= cap,
                count == arith::wrap_u32(seen as int),
                self@.data == start.data,
                self@.pos == start.pos + seen,
                self@.pos <= self@.total(),
                start.ones(cap) == seen + ones_run(
                    start.data,
                    start.pos as int + seen,
                    (cap - seen) as nat,
                ),
            decreases cap - seen,
        {
            match self.take_bit() {
                None => {
                    return count;
                },
                Some(bit) => {
                    if bit == 0 {
                        return count;
                    }
                    count = arith::add_u32(count, 1);
                    proof {
                        seen = seen + 1;
                    }
                },
            }
        }
    }

    /// Reads a continuation bit and a value bit.
    fn read_pair(&mut self) -> (pair: (u32, u32))
        requires
            old(self).wf(),
        ensures
            final(self).wf(),
            pair.0 == bit_at(old(self)@.data, old(self)@.pos as int),
            pair.1 == bit_at(old(self)@.data, old(self)@.pos as int + 1),
            pair.1 < 2,
            final(self)@ == old(self)@.advance(2),
            old(self)@.pos <= old(self)@.total(),
    {
        proof {
            self.lemma_pos_bound();
        }
        let cont: u32 = self.read_bit();
        let bits: u32 = self.read_bit();
        (cont, bits)
    }

    /// Read a chain of pairs, each a continuation bit and a value bit.
    ///
    /// The value starts at 1; pair number `i` adds its value bit plus one,
    /// shifted left by `i`. A continuation bit of 0 ends the chain.
    pub fn read_egc(&mut self) -> (value: u32)
        requires
            old(self).wf(),
        ensures
            final(self).wf(),
            value == arith::wrap_u32(1int + old(self)@.egc_sum(0)),
            final(self)@ == old(self)@.after_egc(),
    {
        let ghost goal = 1int + self@.egc_sum(0);
        let ghost end = self@.after_egc();
        let ghost mut pairs: nat = 0;
        let mut value: u32 = 1;
        let mut shift: u32 = 0;
        loop
            invariant
                self.wf(),
                goal == 1int + old(self)@.egc_sum(0),
                end == old(self)@.after_egc(),
                shift == pairs % 32,
                value == arith::wrap_u32(goal - self@.egc_sum(pairs)),
                end == self@.after_egc(),
            decreases self@.remaining(),
        {
            let ghost at = self@;
            let (cont, bits): (u32, u32) = self.read_pair();
            let step: u32 = arith::shl_u32(bits + 1, shift);
            proof {
                lemma_egc_step(at, pairs, goal, value, step);
            }
            value = arith::add_u32(value, step);
            if cont == 0 {
                return value;
            }
            shift = if shift == 31 {
                0
            } else {
                shift + 1
            };
            proof {
                pairs = pairs + 1;
            }
        }
    }

    /// Number of bits remaining in the buffer.
    pub fn bits_remaining(&self) -> (n: usize)
        requires
            self.wf(),
            self@.total() <= usize::MAX,
        ensures
            n == self@.remaining(),
    {
        (self.data.len() - self.byte_pos) * 8 + self.bits_left as usize
    }

    /// True if the bitstream is exhausted.
    pub fn is_empty(&self) -> (b: bool)
        requires
            self.wf(),
        ensures
            b == (self@.remaining() == 0),
    {
        self.bits_left == 0 && self.byte_pos >= self.data.len()
    }

    /// Total bits consumed so far.
    pub fn bit_position(&self) -> (n: usize)
        requires
            self.wf(),
            self@.total() <= usize::MAX,
        ensures
            n == self@.pos,
    {
        self.byte_pos * 8 - self.bits_left as usize
    }
}

/// The ways to read a stream.
pub enum BitRead {
    Bits(nat),
    Unary,
    UnaryUnlimited,
    Egc,
}

impl BitCursor {
    /// The cursor behind a read.
    pub open spec fn after_read(self, read: BitRead) -> BitCursor {
        match read {
            BitRead::Bits(n) => self.advance(n),
            BitRead::Unary => self.after_ones(33),
            BitRead::UnaryUnlimited => self.after_ones(self.remaining()),
            BitRead::Egc => self.after_egc(),
        }
    }

    /// What a read gives.
    pub open spec fn read_value(self, read: BitRead) -> int {
        match read {
            BitRead::Bits(n) => self.peek(n) as int,
            BitRead::Unary => self.ones(33) as int,
            BitRead::UnaryUnlimited => arith::wrap_u32(self.ones(self.remaining()) as int) as int,
            BitRead::Egc => arith::wrap_u32(1int + self.egc_sum(0)) as int,
        }
    }

    /// The cursor behind a row of reads.
    pub open spec fn after_reads(self, reads: Seq<BitRead>) -> BitCursor
        decreases reads.len(),
    {
        if reads.len() == 0 {
            self
        } else {
            self.after_reads(reads.drop_last()).after_read(reads.last())
        }
    }
}

/// A chain of pairs is passed forwards.
proof fn lemma_after_egc(c: BitCursor)
    requires
        c.pos <= c.total(),
    ensures
        c.after_egc().data == c.data,
        c.pos <= c.after_egc().pos <= c.total(),
    decreases c.remaining(),
{
    if bit_at(c.data, c.pos as int) != 0 {
        lemma_after_egc(c.advance(2));
    }
}

/// Position and rest add up: behind any row of reads, past the end or not, the bits
/// consumed and the bits ahead are together all bits of the stream. No read goes
/// back, and none leaves the stream.
pub proof fn lemma_reads_move_on(c: BitCursor, reads: Seq<BitRead>)
    requires
        c.pos <= c.total(),
    ensures
        ({
            let d = c.after_reads(reads);
            &&& d.data == c.data
            &&& c.pos <= d.pos <= d.total()
            &&& d.pos + d.remaining() == c.total()
        }),
    decreases reads.len(),
{
    if reads.len() > 0 {
        lemma_reads_move_on(c, reads.drop_last());
        lemma_after_egc(c.after_reads(reads.drop_last()));
    }
}

/// An exhausted stream stays exhausted: no read moves on, and every read of bits or
/// of a unary code gives 0.
pub proof fn lemma_exhausted_stays(c: BitCursor, reads: Seq<BitRead>, read: BitRead)
    requires
        c.pos <= c.total(),
        c.remaining() == 0,
    ensures
        c.after_reads(reads) == c,
        !(read is Egc) ==> c.read_value(read) == 0,
    decreases reads.len(),
{
    if reads.len() > 0 {
        lemma_exhausted_stays(c, reads.drop_last(), read);
    }
    if let BitRead::Bits(n) = read {
        lemma_bits_value_past_end(c.data, c.pos as int, n);
    }
}

/// One pair brings a sum its own term nearer to what the whole chain adds up to.
proof fn lemma_egc_step(c: BitCursor, pairs: nat, goal: int, value: u32, step: u32)
    requires
        c.pos <= c.total(),
        value == arith::wrap_u32(goal - c.egc_sum(pairs)),
        step == arith::wrap_u32(
            (bit_at(c.data, c.pos as int + 1) + 1) * pow2(pairs % 32) as int,
        ),
    ensures
        ({
            let next = c.advance(2);
            if bit_at(c.data, c.pos as int) == 0 {
                &&& arith::wrap_u32(value + step) == arith::wrap_u32(goal)
                &&& c.after_egc() == next
            } else {
                &&& arith::wrap_u32(value + step) == arith::wrap_u32(
                    goal - next.egc_sum(pairs + 1),
                )
                &&& c.after_egc() == next.after_egc()
                &&& next.remaining() < c.remaining()
            }
        }),
{
    arith::lemma_wrap_u32_add(goal - c.egc_sum(pairs), step as int);
}

/// The low `n` bits of a word, and the word without them.
proof fn lemma_low_bits(x: u64, n: u32)
    requires
        0 < n <= 32,
    ensures
        (x as u32) & (if n == 32 {
            u32::MAX
        } else {
            ((1u32 << n) - 1) as u32
        }) == x as nat % pow2(n as nat),
        (x >> n) == x as nat / pow2(n as nat),
{
    let m: u64 = n as u64;
    lemma2_to64();
    lemma2_to64_rest();
    lemma_u64_shr_is_div(x, m);
    lemma_u64_low_bits_mask_is_mod(x, n as nat);
    lemma_pow2_pos(n as nat);
    if n < 32 {
        lemma_pow2_strictly_increases(n as nat, 32);
    }
    lemma_u64_shl_is_mul(1u64, m);
    let mask: u64 = low_bits_mask(n as nat) as u64;
    assert(mask == (1u64 << m) - 1);
    assert((x as u32) & (if n == 32 {
        u32::MAX
    } else {
        ((1u32 << n) - 1) as u32
    }) == x & mask) by (bit_vector)
        requires
            0 < n <= 32,
            m == n as u64,
            mask == (1u64 << m) - 1,
    ;
    assert(x >> n == x >> m) by (bit_vector)
        requires
            n <= 32,
            m == n as u64,
    ;
}

/// Putting a byte above the bits of `low` adds it, scaled.
proof fn lemma_or_is_add(low: u64, byte: u8, k: u32)
    requires
        k <= 56,
        low < pow2(k as nat),
    ensures
        (low | ((byte as u64) << k)) == low + pow2(k as nat) * byte,
{
    let n: u64 = k as u64;
    lemma2_to64();
    lemma2_to64_rest();
    lemma_pow2_pos(k as nat);
    if k < 56 {
        lemma_pow2_strictly_increases(k as nat, 56);
    }
    lemma_mul_upper_bound(byte as int, 255, pow2(k as nat) as int, 0x100_0000_0000_0000);
    lemma_u64_shl_is_mul(byte as u64, n);
    lemma_mul_upper_bound(1, 1, pow2(k as nat) as int, 0x100_0000_0000_0000);
    lemma_u64_shl_is_mul(1u64, n);
    assert((low | ((byte as u64) << k)) == low + ((byte as u64) << n)) by (bit_vector)
        requires
            k <= 56,
            n == k as u64,
            low < 1u64 << n,
    ;
}

} // verus!
