//! From residuals to samples.
use crate::arith;
use crate::block;
use crate::bitstream::BitCursor;
use crate::decorrelation;
use crate::entropy;
use crate::error::ErrorModel;
use crate::header;
use crate::header::{BlockHeader, SubBlock};
use crate::reader;
use vstd::arithmetic::div_mod::*;
use vstd::arithmetic::mul::*;
use vstd::arithmetic::power::*;
use vstd::arithmetic::power2::*;
use vstd::bits::*;
use vstd::prelude::*;

verus! {

/// Interleaved, sample `i` of channel `c` comes behind all earlier samples and behind
/// the sample `i` of all earlier channels.
pub proof fn law_interleaved(channels: Seq<Seq<i32>>, n: nat, c: int, i: int)
    requires
        0 <= c < channels.len(),
        0 <= i < n,
    ensures
        block::interleaved(channels, n).len() == n * channels.len(),
        0 <= i * channels.len() + c < n * channels.len(),
        block::interleaved(channels, n)[i * channels.len() + c] == channels[c][i],
{
    let count = channels.len() as int;
    block::lemma_interleaved_index(i, c, count);
    assert(0 <= i * count + c < n * count) by (nonlinear_arith)
        requires
            0 <= i < n,
            0 <= c < count,
    ;
}

/// The sum of the samples, each weighted by a power of three: the last by 1, the one
/// before it by 3, and so on.
pub open spec fn sum_by_threes(samples: Seq<i32>) -> int
    decreases samples.len(),
{
    if samples.len() == 0 {
        0
    } else {
        samples[0] * pow(3, (samples.len() - 1) as nat) + sum_by_threes(samples.drop_first())
    }
}

/// One more sample triples the sum and is added to it.
proof fn lemma_sum_by_threes(samples: Seq<i32>, last: i32)
    ensures
        sum_by_threes(samples.push(last)) == 3 * sum_by_threes(samples) + last,
    decreases samples.len(),
{
    let all = samples.push(last);
    if samples.len() == 0 {
        assert(all.drop_first() =~= Seq::empty());
        lemma_pow0(3);
        reveal_with_fuel(sum_by_threes, 2);
        assert(last * 1 == last);
    } else {
        let rest = samples.drop_first();
        assert(all.drop_first() =~= rest.push(last));
        lemma_sum_by_threes(rest, last);
        let n = samples.len();
        reveal(pow);
        let unit = pow(3, (n - 1) as nat);
        assert(pow(3, n) == 3 * unit);
        let first = samples[0] as int;
        assert(first * (3 * unit) == 3 * (first * unit)) by (nonlinear_arith);
    }
}

/// The checksum is an affine function of the samples: modulo 2^32 it is 3^n times
/// 0xffffffff, plus the samples weighted by powers of three.
pub proof fn law_crc_is_affine(samples: Seq<i32>)
    ensures
        (block::crc_of(samples) - (pow(3, samples.len()) * 0xffff_ffff + sum_by_threes(samples)))
            % 0x1_0000_0000 == 0,
    decreases samples.len(),
{
    if samples.len() == 0 {
        lemma_pow0(3);
    } else {
        let before = samples.drop_last();
        law_crc_is_affine(before);
        lemma_sum_by_threes(before, samples.last());
        assert(before.push(samples.last()) =~= samples);
        reveal(pow);
        let unit = pow(3, before.len());
        assert(pow(3, samples.len()) == 3 * unit);
        let x = block::crc_of(before) as int;
        let y = unit * 0xffff_ffff + sum_by_threes(before);
        assert((3 * unit) * 0xffff_ffff == 3 * (unit * 0xffff_ffff)) by (nonlinear_arith);
        lemma_triple(x, y, samples.last() as int);
    }
}

/// Tripling and adding keeps two numbers congruent.
proof fn lemma_triple(x: int, y: int, s: int)
    requires
        (x - y) % 0x1_0000_0000 == 0,
    ensures
        (arith::wrap_u32(3 * x + s) - (3 * y + s)) % 0x1_0000_0000 == 0,
{
}

/// Raising the last sample raises the checksum by as much, and a change by `d` of an
/// earlier sample counts three times as much for each sample behind it.
pub proof fn law_crc_follows_a_sample(samples: Seq<i32>, k: int, value: i32)
    requires
        0 <= k < samples.len(),
    ensures
        (block::crc_of(samples.update(k, value)) - block::crc_of(samples) - (value - samples[k])
            * pow(3, (samples.len() - 1 - k) as nat)) % 0x1_0000_0000 == 0,
        block::crc_of(Seq::empty()) == 0xffff_ffff,
{
    let other = samples.update(k, value);
    law_crc_is_affine(samples);
    law_crc_is_affine(other);
    lemma_sum_update(samples, k, value);
}

/// What a change of one sample does to the sum.
proof fn lemma_sum_update(samples: Seq<i32>, k: int, value: i32)
    requires
        0 <= k < samples.len(),
    ensures
        sum_by_threes(samples.update(k, value)) == sum_by_threes(samples) + (value - samples[k])
            * pow(3, (samples.len() - 1 - k) as nat),
    decreases samples.len(),
{
    let other = samples.update(k, value);
    let unit = pow(3, (samples.len() - 1) as nat);
    if k == 0 {
        assert(other.drop_first() =~= samples.drop_first());
        lemma_mul_is_distributive_sub_other_way(unit, value as int, samples[0] as int);
    } else {
        assert(other.drop_first() =~= samples.drop_first().update(k - 1, value));
        lemma_sum_update(samples.drop_first(), k - 1, value);
    }
}

/// A shift that fills with zeros multiplies by a power of two.
pub proof fn law_extend_with_zeros(s: i32, zeros: u8, ones: u8, dups: u8)
    requires
        zeros > 0,
    ensures
        (block::extended(s, zeros, ones, dups) - s * pow2((zeros % 32) as nat)) % 0x1_0000_0000
            == 0,
{
}

/// A shift that fills with ones: the low bits are all 1, and what stands above them is
/// the sample.
pub proof fn law_extend_with_ones(s: i32, ones: u8, dups: u8)
    requires
        0 < ones < 32,
    ensures
        ({
            let unit = pow2(ones as nat) as int;
            let r = block::extended(s, 0, ones, dups) as int;
            &&& r % unit == unit - 1
            &&& i32::MIN <= s * unit && s * unit + unit - 1 <= i32::MAX ==> r / unit == s
        }),
{
    let unit = pow2(ones as nat) as int;
    lemma_small_mod(ones as nat, 32);
    lemma_pow2_pos(ones as nat);
    lemma_wrapped_low_bits(s as int, ones as nat, unit - 1);
}

/// A shift that fills with copies of the lowest bit: every low bit is that bit, of a
/// negative sample as of a positive one, and what stands above them is the sample.
pub proof fn law_extend_with_copies(s: i32, dups: u8)
    requires
        0 < dups < 32,
    ensures
        ({
            let unit = pow2(dups as nat) as int;
            let r = block::extended(s, 0, 0, dups) as int;
            &&& s as int % 2 == 0 ==> r % unit == 0
            &&& s as int % 2 == 1 ==> r % unit == unit - 1
            &&& i32::MIN <= s * unit && s * unit + unit - 1 <= i32::MAX ==> r / unit == s
        }),
{
    let unit = pow2(dups as nat) as int;
    lemma_small_mod(dups as nat, 32);
    lemma_pow2_pos(dups as nat);
    lemma_wrapped_low_bits(s as int, dups as nat, unit - 1);
    lemma_wrapped_low_bits(s as int, dups as nat, 0);
}

/// The low bits and the high bits of a shifted and filled word.
proof fn lemma_wrapped_low_bits(s: int, k: nat, fill: int)
    requires
        k < 32,
        0 <= fill < pow2(k),
    ensures
        ({
            let unit = pow2(k) as int;
            let r = arith::wrap_i32(s * unit + fill) as int;
            &&& r % unit == fill
            &&& i32::MIN <= s * unit && s * unit + unit - 1 <= i32::MAX ==> r / unit == s
        }),
{
    let unit = pow2(k) as int;
    let x = s * unit + fill;
    let r = arith::wrap_i32(x) as int;
    lemma2_to64();
    lemma_pow2_pos(k);
    lemma_pow2_adds(k, (32 - k) as nat);
    let other = pow2((32 - k) as nat) as int;
    let q = (r - x) / 0x1_0000_0000;
    assert(r == x + q * 0x1_0000_0000);
    assert(r == (s + q * other) * unit + fill) by (nonlinear_arith)
        requires
            r == s * unit + fill + q * 0x1_0000_0000,
            unit * other == 0x1_0000_0000,
    ;
    lemma_fundamental_div_mod_converse(r, unit, s + q * other, fill);
    if i32::MIN <= s * unit && s * unit + unit - 1 <= i32::MAX {
        assert(r == x);
        lemma_fundamental_div_mod_converse(r, unit, s, fill);
    }
}

/// With no count above 0 a sample stays as it is.
pub proof fn law_extend_by_nothing(s: i32)
    ensures
        block::extended(s, 0, 0, 0) == s,
{
}

/// Wide samples come back when they are stored without their low bits, if those are
/// all 0 under a count of zeros, all 1 under a count of ones, and copies of the bit
/// above them under a count of copies.
pub proof fn law_extended_samples_come_back(p: i32, k: u8)
    requires
        0 < k < 32,
    ensures
        ({
            let unit = pow2(k as nat) as int;
            let stored = (p as int / unit) as i32;
            &&& p as int % unit == 0 ==> block::extended(stored, k, 0, 0) == p
            &&& p as int % unit == unit - 1 ==> block::extended(stored, 0, k, 0) == p
            &&& p as int % (2 * unit) == 0 ==> block::extended(stored, 0, 0, k) == p
            &&& p as int % (2 * unit) == 2 * unit - 1 ==> block::extended(stored, 0, 0, k) == p
        }),
{
    let unit = pow2(k as nat) as int;
    let q = p as int / unit;
    lemma_pow2_pos(k as nat);
    lemma_small_mod(k as nat, 32);
    lemma_fundamental_div_mod(p as int, unit);
    lemma_mod_bound(p as int, unit);
    lemma_mul_is_commutative(unit, q);
    assert(i32::MIN <= q <= i32::MAX) by (nonlinear_arith)
        requires
            p == unit * q + p as int % unit,
            0 <= p as int % unit < unit,
            unit >= 1,
            i32::MIN <= p <= i32::MAX,
    ;
    arith::lemma_wrap_i32_exact(p as int);
    // The bits below 2^(k+1), taken apart at 2^k
    lemma_fundamental_div_mod(p as int, 2 * unit);
    let h = p as int / (2 * unit);
    let m = p as int % (2 * unit);
    if m == 0 {
        assert(p == unit * (2 * h)) by (nonlinear_arith)
            requires
                p == (2 * unit) * h,
        ;
        lemma_fundamental_div_mod_converse(p as int, unit, 2 * h, 0);
    } else if m == 2 * unit - 1 {
        assert(p == unit * (2 * h + 1) + (unit - 1)) by (nonlinear_arith)
            requires
                p == (2 * unit) * h + 2 * unit - 1,
        ;
        lemma_fundamental_div_mod_converse(p as int, unit, 2 * h + 1, unit - 1);
    }
}

/// Every sample of a channel is extended by the second, third and fourth byte of the
/// sub-block; a shorter sub-block changes nothing.
pub proof fn law_extend_a_channel(x: Seq<i32>, info: Seq<u8>, i: int)
    requires
        0 <= i < x.len(),
    ensures
        block::extended_all(x, info).len() == x.len(),
        info.len() < 4 ==> block::extended_all(x, info)[i] == x[i],
        info.len() >= 4 ==> block::extended_all(x, info)[i] == block::extended(
            x[i],
            info[1],
            info[2],
            info[3],
        ),
{
}

/// Flag `k` is the bit of value 2^k.
pub proof fn law_flag(flags: u32, k: u32)
    requires
        k < 32,
    ensures
        header::flag_bit(flags, k as nat) <==> flags & (1u32 << k) != 0,
{
    lemma_u32_shr_is_div(flags, k);
    assert((flags & (1u32 << k) != 0) == ((flags >> k) % 2 == 1)) by (bit_vector)
        requires
            k < 32,
    ;
}

/// The shift of a block is in bits 13 to 17 of its flags, and multiplies each sample of
/// each channel by a power of two.
pub proof fn law_shift(h: BlockHeader, x: Seq<Seq<i32>>, c: int, i: int)
    requires
        0 <= c < x.len(),
        0 <= i < x[c].len(),
    ensures
        ({
            let wide = block::widened(h, None, x);
            let shift = ((h.flags >> 13u32) & 31) as nat;
            &&& wide.len() == x.len() && wide[c].len() == x[c].len()
            &&& (wide[c][i] - x[c][i] * pow2(shift)) % 0x1_0000_0000 == 0
            &&& block::shift_of(h) == shift
        }),
{
    let flags = h.flags;
    assert((flags >> 13u32) & 31 == (flags / 0x2000) % 32) by (bit_vector);
}

/// An int32 info sub-block extends what the shift has made of the samples.
pub proof fn law_shift_and_extend(h: BlockHeader, info: Seq<u8>, x: Seq<Seq<i32>>, c: int)
    requires
        0 <= c < x.len(),
    ensures
        block::widened(h, Some(info), x).len() == x.len(),
        block::widened(h, Some(info), x)[c] == block::extended_all(
            block::widened(h, None, x)[c],
            info,
        ),
{
}

/// The data of a block is mono if it is a mono block (bit 2) or a false stereo block
/// (bit 30).
pub proof fn law_mono_data(h: BlockHeader)
    ensures
        block::is_mono_data(h) <==> h.flags & 0x4 != 0 || h.flags & 0x4000_0000 != 0,
{
    law_flag(h.flags, 2);
    law_flag(h.flags, 30);
    assert(1u32 << 2u32 == 0x4 && 1u32 << 30u32 == 0x4000_0000) by (bit_vector);
}

/// The samples of a block are what its passes make of the residuals, out of joint
/// stereo if it is a stereo block with bit 4 set.
pub proof fn law_restored_channels(
    h: BlockHeader,
    passes: Seq<decorrelation::PassModel>,
    residuals: Seq<Seq<i32>>,
    i: int,
)
    ensures
        ({
            let mono = block::is_mono_data(h);
            let x = decorrelation::decode_passes(passes, residuals, mono).out;
            let y = block::restored_channels(h, passes, residuals);
            &&& mono || h.flags & 0x10 == 0 ==> y == x
            &&& !mono && h.flags & 0x10 != 0 ==> y.len() == 2 && y[0].len() == x[0].len()
                && y[1].len() == x[0].len() && (0 <= i < x[0].len() ==> (y[0][i], y[1][i])
                == decorrelation::from_joint(x[0][i], x[1][i]))
        }),
{
    law_flag(h.flags, 4);
    assert(1u32 << 4u32 == 0x10) by (bit_vector);
}

/// The samples of a block before any shift: the residuals of its one channel or its two,
/// read from the first bit on with its medians, restored by its passes.
pub proof fn law_plain_channels(h: BlockHeader, subs: Seq<SubBlock>, bits: Seq<u8>)
    ensures
        ({
            let mono = block::is_mono_data(h);
            let count: nat = if mono {
                1
            } else {
                2
            };
            let m = entropy::EntropyModel {
                bits: BitCursor { data: bits, pos: 0 },
                medians: block::block_medians(subs, count),
                zero: false,
                one: false,
                zeroes: 0,
            };
            block::plain_channels(h, subs, bits) == block::restored_channels(
                h,
                block::block_passes(subs, mono),
                block::residual_channels(m, count, h.block_samples as nat),
            )
        }),
{
}

/// A block needs its bitstream, sub-block 10. It is decoded exactly if its samples have
/// the checksum in its header; then they are shifted, and extended by sub-block 9.
pub proof fn law_block_result(h: BlockHeader, subs: Seq<SubBlock>)
    ensures
        block::last_data(subs, 10) is None ==> block::block_result(h, subs) is Err,
        block::last_data(subs, 10) matches Some(bits) ==> ({
            let plain = block::plain_channels(h, subs, bits);
            let crc = block::crc_of(block::interleaved(plain, h.block_samples as nat));
            &&& crc == h.crc ==> block::block_result(h, subs) == Ok::<Seq<Seq<i32>>, ErrorModel>(
                block::widened(h, block::last_data(subs, 9), plain),
            )
            &&& crc != h.crc ==> block::block_result(h, subs) == Err::<Seq<Seq<i32>>, ErrorModel>(
                ErrorModel::CrcMismatch { expected: h.crc, actual: crc },
            )
        }),
{
}

/// A mono block adds its samples to the output in order, a stereo block those of both
/// channels in turn, and a false stereo block each of its samples twice.
pub proof fn law_block_output(h: BlockHeader, channels: Seq<Seq<i32>>, i: int)
    requires
        decorrelation::is_block(channels, h.block_samples as nat, block::is_mono_data(h)),
        0 <= i < h.block_samples,
    ensures
        ({
            let out = reader::block_output(h, channels);
            let n = h.block_samples as int;
            &&& h.flags & 0x4000_0000 != 0 ==> out.len() == 2 * n && out[2 * i]
                == channels[0][i] && out[2 * i + 1] == channels[0][i]
            &&& h.flags & 0x4000_0000 == 0 && h.flags & 0x4 != 0 ==> out.len() == n && out[i]
                == channels[0][i]
            &&& h.flags & 0x4000_0000 == 0 && h.flags & 0x4 == 0 ==> out.len() == 2 * n
                && out[2 * i] == channels[0][i] && out[2 * i + 1] == channels[1][i]
        }),
{
    let n = h.block_samples as nat;
    law_mono_data(h);
    law_flag(h.flags, 30);
    assert(1u32 << 30u32 == 0x4000_0000) by (bit_vector);
    if h.flags & 0x4000_0000 != 0 {
        let both = seq![channels[0], channels[0]];
        law_interleaved(both, n, 0, i);
        law_interleaved(both, n, 1, i);
    } else if h.flags & 0x4 != 0 {
        law_interleaved(channels, n, 0, i);
        assert(channels.len() == 1);
    } else {
        law_interleaved(channels, n, 0, i);
        law_interleaved(channels, n, 1, i);
        assert(channels.len() == 2);
    }
}

/// The rates of the table, in Hz: 44100 at place 9 with its halves at 6 and 3 and its
/// double at 12; 6000 at place 0 and five doublings of it at 4, 7, 10, 13 and 14; 8000
/// at place 1 and three doublings of it at 5, 8 and 11; and 9600 at place 2.
pub proof fn law_standard_rates(flags: u32)
    ensures
        ({
            let place = (flags >> 23u32) & 15;
            let rate = header::standard_rate(flags);
            &&& place == 9 ==> rate == Some(44100u32)
            &&& place == 6 ==> rate == Some(22050u32)
            &&& place == 3 ==> rate == Some(11025u32)
            &&& place == 12 ==> rate == Some(88200u32)
            &&& place == 0 ==> rate == Some(6000u32)
            &&& place == 4 ==> rate == Some(12000u32)
            &&& place == 7 ==> rate == Some(24000u32)
            &&& place == 10 ==> rate == Some(48000u32)
            &&& place == 13 ==> rate == Some(96000u32)
            &&& place == 14 ==> rate == Some(192000u32)
            &&& place == 1 ==> rate == Some(8000u32)
            &&& place == 5 ==> rate == Some(16000u32)
            &&& place == 8 ==> rate == Some(32000u32)
            &&& place == 11 ==> rate == Some(64000u32)
            &&& place == 2 ==> rate == Some(9600u32)
            &&& place == 15 ==> rate is None
        }),
{
    assert((flags >> 23u32) & 15 == (flags / 0x80_0000) % 16) by (bit_vector);
}

/// A sub-block that gives a sample rate: sub-block 0x27 with three bytes or more.
pub open spec fn gives_rate(sub: SubBlock) -> bool {
    sub.id == 0x27 && sub.data.len() >= 3
}

/// Without a rate of the table, the first sub-block that gives one gives it, lowest
/// byte first; without such a sub-block the rate is 44100.
pub proof fn law_custom_rate(flags: u32, before: Seq<SubBlock>, sub: SubBlock, after: Seq<SubBlock>)
    requires
        forall|i: int| 0 <= i < before.len() ==> !gives_rate(#[trigger] before[i]),
    ensures
        header::standard_rate(flags) matches Some(rate) ==> block::rate_of(flags, before) == rate,
        header::standard_rate(flags) is None ==> block::rate_of(flags, before) == 44100,
        header::standard_rate(flags) is None && gives_rate(sub) ==> block::rate_of(
            flags,
            before + seq![sub] + after,
        ) == sub.data[0] + 0x100 * sub.data[1] + 0x1_0000 * sub.data[2],
    decreases before.len(),
{
    let all = before + seq![sub] + after;
    if before.len() == 0 {
        assert(all[0] == sub);
    } else {
        let rest = before.drop_first();
        assert(!gives_rate(before[0]));
        assert forall|i: int| 0 <= i < rest.len() implies !gives_rate(#[trigger] rest[i]) by {
            assert(!gives_rate(before[i + 1]));
        }
        law_custom_rate(flags, rest, sub, after);
        assert(all[0] == before[0]);
        assert(all.drop_first() =~= rest + seq![sub] + after);
    }
}

/// Channels taken apart: sample `i` of channel `ch` is the `i`-th of those whose turn it
/// is, and no sample is lost.
pub proof fn law_deinterleaved(all: Seq<i32>, ch: int, i: int)
    requires
        0 <= ch < 2,
    ensures
        reader::deinterleaved(all, 1) == seq![all],
        ({
            let two = reader::deinterleaved(all, 2);
            &&& two.len() == 2
            &&& two[0].len() + two[1].len() == all.len()
            &&& two[1].len() <= two[0].len() <= two[1].len() + 1
            &&& 0 <= i < two[ch].len() ==> two[ch][i] == all[2 * i + ch]
        }),
{
    let one = reader::deinterleaved(all, 1);
    assert(one[0] =~= all);
    assert(one =~= seq![all]);
}
} // verus!
