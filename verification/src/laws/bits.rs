//! Words and bits.
use crate::arith;
use crate::bitstream;
use crate::bitstream::BitCursor;
use vstd::arithmetic::div_mod::*;
use vstd::arithmetic::power2::*;
use vstd::prelude::*;

verus! {

/// Wrapping keeps the residue modulo 2^32, and gives the one word that has it.
pub proof fn law_wrap(x: int)
    ensures
        (arith::wrap_u32(x) - x) % 0x1_0000_0000 == 0,
        (arith::wrap_i32(x) - x) % 0x1_0000_0000 == 0,
        0 <= x <= u32::MAX ==> arith::wrap_u32(x) == x,
        i32::MIN <= x <= i32::MAX ==> arith::wrap_i32(x) == x,
{
}

/// Words that differ by a multiple of 2^32 are one word.
pub proof fn law_wrap_unique(x: int, u: u32, i: i32)
    ensures
        (u - x) % 0x1_0000_0000 == 0 ==> u == arith::wrap_u32(x),
        (i - x) % 0x1_0000_0000 == 0 ==> i == arith::wrap_i32(x),
{
}

/// The bits of a stream are those of its bytes, the lowest bit of each byte first:
/// a byte is the sum of its eight bits times their place values.
pub proof fn law_bits_of_a_byte(data: Seq<u8>, k: int)
    requires
        0 <= k < data.len(),
    ensures
        data[k] == bitstream::bit_at(data, 8 * k) + 2 * bitstream::bit_at(data, 8 * k + 1) + 4
            * bitstream::bit_at(data, 8 * k + 2) + 8 * bitstream::bit_at(data, 8 * k + 3) + 16
            * bitstream::bit_at(data, 8 * k + 4) + 32 * bitstream::bit_at(data, 8 * k + 5) + 64
            * bitstream::bit_at(data, 8 * k + 6) + 128 * bitstream::bit_at(data, 8 * k + 7),
        forall|i: int| #[trigger] bitstream::bit_at(data, i) < 2,
        forall|i: int|
            i < 0 || 8 * data.len() <= i ==> #[trigger] bitstream::bit_at(data, i) == 0,
{
    let b = data[k] as int;
    lemma_bit_of_byte(data, k, 0);
    lemma_bit_of_byte(data, k, 1);
    lemma_bit_of_byte(data, k, 2);
    lemma_bit_of_byte(data, k, 3);
    lemma_bit_of_byte(data, k, 4);
    lemma_bit_of_byte(data, k, 5);
    lemma_bit_of_byte(data, k, 6);
    lemma_bit_of_byte(data, k, 7);
    lemma_byte_digits(b);
}

/// A byte is the sum of its binary digits times their place values.
proof fn lemma_byte_digits(b: int)
    requires
        0 <= b < 256,
    ensures
        b == b / 1 % 2 + 2 * (b / 2 % 2) + 4 * (b / 4 % 2) + 8 * (b / 8 % 2) + 16 * (b / 16 % 2)
            + 32 * (b / 32 % 2) + 64 * (b / 64 % 2) + 128 * (b / 128 % 2),
{
    let b1 = b / 2;
    let b2 = b1 / 2;
    let b3 = b2 / 2;
    let b4 = b3 / 2;
    let b5 = b4 / 2;
    let b6 = b5 / 2;
    let b7 = b6 / 2;
    assert(b2 == b / 4);
    assert(b3 == b / 8);
    assert(b4 == b / 16);
    assert(b5 == b / 32);
    assert(b6 == b / 64);
    assert(b7 == b / 128);
    assert(b7 < 2);
}

/// Bit `j` of byte `k`.
proof fn lemma_bit_of_byte(data: Seq<u8>, k: int, j: int)
    requires
        0 <= k < data.len(),
        0 <= j < 8,
    ensures
        bitstream::bit_at(data, 8 * k + j) == data[k] as int / (if j == 0 {
            1int
        } else if j == 1 {
            2
        } else if j == 2 {
            4
        } else if j == 3 {
            8
        } else if j == 4 {
            16
        } else if j == 5 {
            32
        } else if j == 6 {
            64
        } else {
            128
        }) % 2,
{
    lemma2_to64();
    assert((8 * k + j) / 8 == k && (8 * k + j) % 8 == j);
}

/// The number read from `n` bits has the bit that comes `j`-th as its bit of value
/// 2^j, and no bit above those.
pub proof fn law_number_of_bits(c: BitCursor, n: nat, j: nat)
    requires
        j < n,
    ensures
        c.peek(n) < pow2(n),
        (c.peek(n) / pow2(j)) % 2 == bitstream::bit_at(c.data, c.pos + j as int),
{
    bitstream::lemma_bits_value_bound(c.data, c.pos as int, n);
    lemma_bit_of_value(c.data, c.pos as int, n, j);
}

/// Bit `j` of a number.
pub proof fn lemma_bit_of_value(data: Seq<u8>, pos: int, n: nat, j: nat)
    requires
        j < n,
    ensures
        (bitstream::bits_value(data, pos, n) / pow2(j)) % 2 == bitstream::bit_at(data, pos + j),
    decreases j,
{
    let v = bitstream::bits_value(data, pos, n);
    let rest = bitstream::bits_value(data, pos + 1, (n - 1) as nat);
    if j == 0 {
        lemma2_to64();
        lemma_div_basics(v as int);
    } else {
        let i = (j - 1) as nat;
        lemma_bit_of_value(data, pos + 1, (n - 1) as nat, i);
        lemma_pow2_unfold(j);
        lemma_pow2_pos(i);
        assert(v / 2 == rest);
        lemma_div_denominator(v as int, 2, pow2(i) as int);
        assert(v / pow2(j) == rest / pow2(i));
        assert(pos + 1 + i == pos + j);
    }
}

/// A stream has eight bits for each byte; a step goes as many bits on as it is asked
/// to, but not beyond the last.
pub proof fn law_step(c: BitCursor, n: nat)
    ensures
        c.total() == 8 * c.data.len(),
        c.advance(n).data == c.data,
        c.pos + n <= 8 * c.data.len() ==> c.advance(n).pos == c.pos + n,
        c.pos + n > 8 * c.data.len() ==> c.advance(n).pos == 8 * c.data.len(),
        c.pos <= c.total() ==> c.remaining() == 8 * c.data.len() - c.pos,
{
}

/// A unary code is as many 1-bits as it counts, and the next bit ends it: a 0-bit,
/// which is passed, unless the count has come to its cap.
pub proof fn law_unary(c: BitCursor, cap: nat)
    ensures
        c.ones(cap) <= cap,
        forall|i: int|
            c.pos <= i < c.pos + c.ones(cap) ==> #[trigger] bitstream::bit_at(c.data, i) == 1,
        c.ones(cap) < cap ==> bitstream::bit_at(c.data, c.pos + c.ones(cap) as int) == 0,
        bitstream::bit_at(c.data, c.pos + c.ones(cap) as int) == 0 ==> c.after_ones(cap)
            == c.advance(c.ones(cap) + 1),
        bitstream::bit_at(c.data, c.pos + c.ones(cap) as int) == 1 ==> c.after_ones(cap)
            == c.advance(c.ones(cap)),
{
    lemma_ones(c.data, c.pos as int, cap);
}

/// A run of 1-bits is what it counts, and ends where it says.
proof fn lemma_ones(data: Seq<u8>, pos: int, cap: nat)
    ensures
        bitstream::ones_run(data, pos, cap) <= cap,
        forall|i: int|
            pos <= i < pos + bitstream::ones_run(data, pos, cap) ==> #[trigger] bitstream::bit_at(
                data,
                i,
            ) == 1,
        bitstream::ones_run(data, pos, cap) < cap ==> bitstream::bit_at(
            data,
            pos + bitstream::ones_run(data, pos, cap),
        ) == 0,
    decreases cap,
{
    if cap > 0 && bitstream::bit_at(data, pos) != 0 {
        lemma_ones(data, pos + 1, (cap - 1) as nat);
    }
}

/// The number with a leading 1 whose lower bits are the value bits of `k` pairs from
/// `pos` on, the first of them lowest.
pub open spec fn pair_number(data: Seq<u8>, pos: int, k: nat) -> nat
    decreases k,
{
    if k == 0 {
        1
    } else {
        bitstream::bit_at(data, pos + 1) + 2 * pair_number(data, pos + 2, (k - 1) as nat)
    }
}

/// A chain of pairs that ends with its `k`-th pair: the continuation bit of every
/// pair before that is 1, and its own is 0.
pub open spec fn is_chain(c: BitCursor, k: nat) -> bool {
    &&& 1 <= k
    &&& c.pos + 2 * k <= c.total()
    &&& forall|i: int|
        0 <= i < k - 1 ==> #[trigger] bitstream::bit_at(c.data, c.pos + 2 * i) == 1
    &&& bitstream::bit_at(c.data, c.pos + 2 * (k - 1)) == 0
}

/// A chain of up to 31 pairs stands for the number that its value bits spell below a
/// leading 1, and is passed whole.
pub proof fn law_chain(c: BitCursor, k: nat)
    requires
        is_chain(c, k),
        k <= 31,
    ensures
        1 + c.egc_sum(0) == pair_number(c.data, c.pos as int, k),
        c.after_egc() == c.advance(2 * k),
{
    lemma_chain(c, k, 0);
    lemma2_to64();
}

/// What a chain adds up to when its first pair is shifted.
proof fn lemma_chain(c: BitCursor, k: nat, shift: nat)
    requires
        is_chain(c, k),
        k + shift <= 31,
    ensures
        c.egc_sum(shift) == (pair_number(c.data, c.pos as int, k) - 1) * pow2(shift),
        c.after_egc() == c.advance(2 * k),
    decreases k,
{
    let unit = pow2(shift) as int;
    let bit = bitstream::bit_at(c.data, c.pos as int + 1);
    lemma2_to64();
    lemma_pow2_pos(shift);
    lemma_pow2_unfold(shift + 1);
    if shift + 1 < 31 {
        lemma_pow2_strictly_increases(shift + 1, 31);
    }
    lemma_small_mod(shift, 32);
    assert(0 <= (bit + 1) * unit <= u32::MAX) by (nonlinear_arith)
        requires
            0 <= bit <= 1,
            0 < unit <= 0x4000_0000,
    ;
    let all = pair_number(c.data, c.pos as int, k) as int;
    if k == 1 {
        assert(bitstream::bit_at(c.data, c.pos as int) == 0);
        reveal_with_fuel(pair_number, 2);
        assert((bit + 1) * unit == (all - 1) * unit);
    } else {
        assert(bitstream::bit_at(c.data, c.pos + 2 * 0int) == 1);
        let next = c.advance(2);
        let m = (k - 1) as nat;
        assert(is_chain(next, m)) by {
            assert forall|i: int| 0 <= i < m - 1 implies #[trigger] bitstream::bit_at(
                next.data,
                next.pos + 2 * i,
            ) == 1 by {
                assert(bitstream::bit_at(c.data, c.pos + 2 * (i + 1)) == 1);
            }
        }
        lemma_chain(next, m, shift + 1);
        let rest = pair_number(c.data, c.pos as int + 2, m) as int;
        assert((bit + 1) * unit + (rest - 1) * (2 * unit) == (all - 1) * unit) by (nonlinear_arith)
            requires
                all == bit + 2 * rest,
        ;
    }
}

} // verus!
