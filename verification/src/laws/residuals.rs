//! Packed values, medians, codes and residuals.
use crate::arith;
use crate::bitstream;
use crate::bitstream::BitCursor;
use crate::block;
use crate::entropy;
use crate::entropy::{EntropyModel, Medians, EXP2_TABLE, MEDIAN_DIVS};
use crate::laws::bits;
use crate::laws::filters;
use crate::lossless;
use vstd::arithmetic::div_mod::*;
use vstd::arithmetic::mul::*;
use vstd::arithmetic::power2::*;
use vstd::prelude::*;

verus! {

/// A packed logarithm of 9 and a fraction stands for the table's value itself.
pub proof fn law_packed_at_nine(fraction: u8)
    ensures
        entropy::exp2_packed((0x900 + fraction) as u16) == 256 + EXP2_TABLE@[fraction as int],
        entropy::exp2_packed(0) == 0,
{
    lemma2_to64();
    let p = (0x900 + fraction) as u16;
    assert(p as int % 256 == fraction && p as int / 256 == 9);
    lemma_div_basics(256 + EXP2_TABLE@[fraction as int]);
}

/// One more in the exponent doubles the value, modulo 2^32.
pub proof fn law_packed_doubles(packed: u16)
    requires
        0x900 <= packed < 0x2800,
    ensures
        (entropy::exp2_packed((packed + 0x100) as u16) - 2 * entropy::exp2_packed(packed))
            % 0x1_0000_0000 == 0,
{
    lemma2_to64();
    let e = packed as int / 256;
    let m = packed as int % 256;
    let next = (packed + 0x100) as u16;
    assert(next as int % 256 == m && next as int / 256 == e + 1);
    let value = 256 + EXP2_TABLE@[m];
    let k = (e - 9) as nat;
    lemma_small_mod(k, 32);
    lemma_small_mod(k + 1, 32);
    lemma_pow2_unfold(k + 1);
    let unit = pow2(k) as int;
    assert(value * (2 * unit) == 2 * (value * unit)) by (nonlinear_arith);
    if e == 9 {
        lemma_div_basics(value);
        assert(value * 1 == value);
    }
    lemma_double_wrapped(value * unit);
}

/// Doubling a wrapped number.
proof fn lemma_double_wrapped(x: int)
    ensures
        (arith::wrap_u32(2 * x) - 2 * arith::wrap_u32(x)) % 0x1_0000_0000 == 0,
        0 <= x <= u32::MAX ==> arith::wrap_u32(x) == x,
{
}

/// One less in the exponent halves the value, rounding down, below the table's own
/// scale.
pub proof fn law_packed_halves(packed: u16)
    requires
        0 < packed < 0x900,
    ensures
        entropy::exp2_packed(packed) == entropy::exp2_packed((packed + 0x100) as u16) / 2,
{
    lemma2_to64();
    let e = packed as int / 256;
    let m = packed as int % 256;
    let next = (packed + 0x100) as u16;
    assert(next as int % 256 == m && next as int / 256 == e + 1);
    let value = 256 + EXP2_TABLE@[m];
    let k = (8 - e) as nat;
    lemma_pow2_unfold(k + 1);
    lemma_pow2_pos(k);
    lemma_div_denominator(value, pow2(k) as int, 2);
    lemma_mul_is_commutative(2, pow2(k) as int);
}

/// The exponent counts modulo 32 above the table's scale.
pub proof fn law_packed_repeats(packed: u16)
    requires
        0x900 <= packed,
        packed + 0x2000 <= 0xffff,
    ensures
        entropy::exp2_packed((packed + 0x2000) as u16) == entropy::exp2_packed(packed),
{
    lemma2_to64();
    let e = packed as int / 256;
    let m = packed as int % 256;
    let next = (packed + 0x2000) as u16;
    assert(next as int % 256 == m && next as int / 256 == e + 32);
    assert((e + 32 - 9) % 32 == (e - 9) % 32);
    if e == 9 {
        let value = 256 + EXP2_TABLE@[m];
        lemma_div_basics(value);
        assert(value * 1 == value);
    }
}

/// After a residual in zone 0 the first median falls; in zone 1 the first rises and the
/// second falls; in zone 2 the first two rise and the third falls; above that all rise.
/// A median rises by five for each full 128, 64 or 32 in it and five more. It falls by
/// two for each such part that is begun by more than one, but not below zero.
pub proof fn law_medians_adapt(m: Medians, zone: u32)
    requires
        m.m0 <= 0x7fff_ffff && m.m1 <= 0x7fff_ffff && m.m2 <= 0x7fff_ffff,
    ensures
        ({
            let q = m.adapted(zone);
            let up0 = m.m0 + 5 * (m.m0 as int / 128) + 5;
            let up1 = m.m1 + 5 * (m.m1 as int / 64) + 5;
            let up2 = m.m2 + 5 * (m.m2 as int / 32) + 5;
            let down0 = m.m0 - 2 * ((m.m0 + 126) / 128);
            let down1 = m.m1 - 2 * ((m.m1 + 62) / 64);
            let down2 = m.m2 - 2 * ((m.m2 + 30) / 32);
            &&& zone == 0 ==> q.m0 == filters::greatest(down0, 0) && q.m1 == m.m1 && q.m2 == m.m2
            &&& zone == 1 ==> q.m0 == up0 && q.m1 == filters::greatest(down1, 0) && q.m2 == m.m2
            &&& zone == 2 ==> q.m0 == up0 && q.m1 == up1 && q.m2 == filters::greatest(down2, 0)
            &&& zone >= 3 ==> q.m0 == up0 && q.m1 == up1 && q.m2 == up2
        }),
{
}

/// Which medians rise and fall does not depend on their size.
pub proof fn law_medians_adapt_at_any_size(m: Medians, zone: u32)
    ensures
        ({
            let q = m.adapted(zone);
            &&& zone == 0 ==> q.m0 == entropy::lowered(m.m0, 128) && q.m1 == m.m1 && q.m2 == m.m2
            &&& zone == 1 ==> q.m0 == entropy::raised(m.m0, 128) && q.m1 == entropy::lowered(
                m.m1,
                64,
            ) && q.m2 == m.m2
            &&& zone == 2 ==> q.m0 == entropy::raised(m.m0, 128) && q.m1 == entropy::raised(
                m.m1,
                64,
            ) && q.m2 == entropy::lowered(m.m2, 32)
            &&& zone >= 3 ==> q.m0 == entropy::raised(m.m0, 128) && q.m1 == entropy::raised(
                m.m1,
                64,
            ) && q.m2 == entropy::raised(m.m2, 32)
        }),
{
}

/// A median of divisor 128 over the whole range: at the upper end the sum that it is
/// divided by wraps, and the median stays.
pub proof fn law_median_wraps_128(m: u32)
    ensures
        m + 128 <= u32::MAX ==> (entropy::raised(m, 128) - m - 5 * (m as int / 128) - 5)
            % 0x1_0000_0000 == 0,
        m + 128 > u32::MAX ==> entropy::raised(m, 128) == m,
        m + 126 > u32::MAX ==> entropy::lowered(m, 128) == m,
        m + 126 <= u32::MAX ==> entropy::lowered(m, 128) == filters::greatest(
            m - 2 * ((m + 126) / 128),
            0,
        ),
{
}

/// A median of divisor 64 over the whole range: at the upper end the sum that it is
/// divided by wraps, and the median stays.
pub proof fn law_median_wraps_64(m: u32)
    ensures
        m + 64 <= u32::MAX ==> (entropy::raised(m, 64) - m - 5 * (m as int / 64) - 5)
            % 0x1_0000_0000 == 0,
        m + 64 > u32::MAX ==> entropy::raised(m, 64) == m,
        m + 62 > u32::MAX ==> entropy::lowered(m, 64) == m,
        m + 62 <= u32::MAX ==> entropy::lowered(m, 64) == filters::greatest(
            m - 2 * ((m + 62) / 64),
            0,
        ),
{
}

/// A median of divisor 32 over the whole range: at the upper end the sum that it is
/// divided by wraps, and the median stays.
pub proof fn law_median_wraps_32(m: u32)
    ensures
        m + 32 <= u32::MAX ==> (entropy::raised(m, 32) - m - 5 * (m as int / 32) - 5)
            % 0x1_0000_0000 == 0,
        m + 32 > u32::MAX ==> entropy::raised(m, 32) == m,
        m + 30 > u32::MAX ==> entropy::lowered(m, 32) == m,
        m + 30 <= u32::MAX ==> entropy::lowered(m, 32) == filters::greatest(
            m - 2 * ((m + 30) / 32),
            0,
        ),
{
}

/// The zones of a channel lie one behind the other without a gap, from magnitude 0 on;
/// each is as wide as a 16th of its median and one more, and all from the third on are
/// as wide as the third.
pub proof fn law_zones(m: Medians, zone: u32)
    requires
        zone < u32::MAX,
    ensures
        m.zone_base(0) == 0,
        m.zone_base((zone + 1) as u32) == m.zone_base(zone) + m.zone_top(zone) + 1,
        m.zone_top(0) == m.m0 as int / 16,
        m.zone_top(1) == m.m1 as int / 16,
        zone >= 2 ==> m.zone_top(zone) == m.m2 as int / 16,
        entropy::zone_width(m.m0) == m.m0 as int / 16 + 1,
        MEDIAN_DIVS@[0] == 128 && MEDIAN_DIVS@[1] == 64 && MEDIAN_DIVS@[2] == 32,
{
    let w = entropy::zone_width(m.m2);
    if zone >= 2 {
        assert(w * (zone - 1) == w * (zone - 2) + w) by (nonlinear_arith);
    } else {
        assert(w * 0 == 0);
    }
}

/// The exponent of the highest bit is the one between whose powers a number lies.
proof fn lemma_floor_log2(k: nat, p: nat)
    requires
        pow2(p) <= k < pow2(p + 1),
    ensures
        entropy::floor_log2(k) == p,
    decreases p,
{
    lemma2_to64();
    lemma_pow2_unfold(p + 1);
    if p > 0 {
        let q = (p - 1) as nat;
        lemma_pow2_unfold(p);
        lemma_pow2_pos(q);
        assert(pow2(q) <= k / 2 < pow2(q + 1));
        lemma_floor_log2(k / 2, q);
    }
}

/// A remainder in 0..=k, where k has `p + 1` binary digits, is coded in `p` bits if
/// that is enough to tell it from those with one bit more: the first 2^(p+1) - 1 - k
/// values are. The others have their lowest bit last. For k = 0 there is nothing to
/// code.
pub proof fn law_remainder(c: BitCursor, k: nat, p: nat)
    requires
        pow2(p) <= k < pow2(p + 1),
    ensures
        entropy::tail(c, 0) == 0,
        entropy::after_tail(c, 0) == c,
        ({
            let high = c.peek(p) as int;
            let low = c.advance(p).peek(1) as int;
            let short = pow2(p + 1) - 1 - k;
            &&& high < short ==> entropy::tail(c, k) == high && entropy::after_tail(c, k)
                == c.advance(p)
            &&& high >= short ==> entropy::tail(c, k) + short == 2 * high + low
                && entropy::after_tail(c, k) == c.advance(p).advance(1)
        }),
{
    lemma_floor_log2(k, p);
    lemma_pow2_pos(p);
}

/// A gamma code of length `n` is a number of `n` binary digits: behind its unary length
/// stand all digits but the leading 1, the lowest first. The lengths 0 and 1 stand for
/// themselves, and so does one above 32.
pub proof fn law_gamma(c: BitCursor)
    ensures
        ({
            let n = c.ones(33);
            let d = c.after_ones(33);
            &&& n <= 1 || n > 32 ==> entropy::gamma(c) == n && entropy::after_gamma(c) == d
            &&& 2 <= n <= 32 ==> entropy::gamma(c) == pow2((n - 1) as nat) + d.peek((n - 1) as nat)
                && entropy::after_gamma(c) == d.advance((n - 1) as nat)
        }),
{
}

/// A zone word is a unary code, and 16 is an escape to 16 and more: the gamma code
/// behind it is added, unless its length is above 32.
pub proof fn law_zone_word(c: BitCursor)
    ensures
        ({
            let n = c.ones(33);
            let d = c.after_ones(33);
            &&& n != 16 ==> entropy::zone_word(c) == n && entropy::after_zone_word(c) == d
            &&& n == 16 && d.ones(33) <= 32 ==> (entropy::zone_word(c) - 16 - entropy::gamma(d))
                % 0x1_0000_0000 == 0
            &&& n == 16 && d.ones(33) > 32 ==> entropy::zone_word(c) == 16
            &&& n == 16 ==> entropy::after_zone_word(c) == entropy::after_gamma(d)
        }),
{
    bits::law_unary(c, 33);
}

/// Two zone words share what they say: half a word is the zone, counted from 1 behind an
/// odd word and from 0 otherwise; behind an even word the next zone is 0 and has no word.
pub proof fn law_zone_flags(m: EntropyModel)
    ensures
        ({
            let word = entropy::zone_word(m.bits) as int;
            let next = m.after_zone();
            &&& m.zero ==> m.zone() == 0 && next == (EntropyModel { zero: false, ..m })
            &&& !m.zero && !m.one ==> m.zone() == word / 2
            &&& !m.zero && m.one ==> m.zone() == word / 2 + 1
            &&& !m.zero ==> next == (EntropyModel {
                bits: entropy::after_zone_word(m.bits),
                one: word % 2 == 1,
                zero: word % 2 == 0,
                ..m
            })
        }),
{
}

/// A coded residual is the base of its zone and a remainder, and the bit behind it says
/// whether it counts up from 0 or down from -1. Only the medians of its channel adapt.
pub proof fn law_coded_residual(m: EntropyModel, ch: int)
    requires
        0 <= ch < m.medians.len(),
    ensures
        ({
            let zone = m.zone();
            let med = m.medians[ch];
            let c = m.after_zone().bits;
            let d = entropy::after_tail(c, med.zone_top(zone));
            let size = med.zone_base(zone) + entropy::tail(c, med.zone_top(zone));
            let sign = bitstream::bit_at(d.data, d.pos as int);
            &&& sign == 0 ==> (m.coded(ch) - size) % 0x1_0000_0000 == 0
            &&& sign == 1 ==> (m.coded(ch) + size + 1) % 0x1_0000_0000 == 0
            &&& m.after_coded(ch) == (EntropyModel {
                bits: d.advance(1),
                medians: m.medians.update(ch, med.adapted(zone)),
                ..m.after_zone()
            })
        }),
{
    reveal_with_fuel(bitstream::bits_value, 2);
}

/// Runs of zeros are read only while the first median of every channel is below 2 and
/// no flag is set. Inside a run a residual is 0 and one fewer is due; a new run of `n`
/// zeros begins with this one and clears the medians; otherwise the residual is coded,
/// behind the last zero of a run or behind an empty run.
pub proof fn law_residual(m: EntropyModel, ch: int)
    ensures
        ({
            let quiet = !m.zero && !m.one && (forall|i: int|
                0 <= i < m.medians.len() ==> (#[trigger] m.medians[i]).m0 < 2);
            let n = entropy::gamma(m.bits) as u32;
            let behind = entropy::after_gamma(m.bits);
            &&& !quiet ==> m.residual(ch) == m.coded(ch) && m.after_residual(ch) == m.after_coded(
                ch,
            )
            &&& quiet && m.zeroes > 1 ==> m.residual(ch) == 0 && m.after_residual(ch) == (
            EntropyModel { zeroes: (m.zeroes - 1) as u32, ..m })
            &&& quiet && m.zeroes == 1 ==> ({
                let last = EntropyModel { zeroes: 0, ..m };
                m.residual(ch) == last.coded(ch) && m.after_residual(ch) == last.after_coded(ch)
            })
            &&& quiet && m.zeroes == 0 && n == 0 ==> ({
                let empty = EntropyModel { bits: behind, ..m };
                m.residual(ch) == empty.coded(ch) && m.after_residual(ch) == empty.after_coded(ch)
            })
            &&& quiet && m.zeroes == 0 && n > 0 ==> ({
                let q = m.after_residual(ch);
                &&& m.residual(ch) == 0
                &&& q.zeroes == n && q.bits == behind && !q.zero && !q.one
                &&& q.medians.len() == m.medians.len()
                &&& forall|i: int|
                    0 <= i < q.medians.len() ==> (#[trigger] q.medians[i]).m0 == 0
                        && q.medians[i].m1 == 0 && q.medians[i].m2 == 0
            })
        }),
{
    let n = entropy::gamma(m.bits) as u32;
    if m.run_mode() && m.zeroes == 0 && n == 0 {
        assert(m.past_run() == (EntropyModel { bits: entropy::after_gamma(m.bits), ..m }));
    }
}

/// A decoder starts at the first bit, with the given medians, no flag and no run.
pub proof fn law_fresh(data: Seq<u8>, medians: Seq<Medians>)
    ensures
        ({
            let m = EntropyModel::fresh(data, medians);
            &&& m.bits.data == data && m.bits.pos == 0
            &&& m.medians == medians
            &&& !m.zero && !m.one && m.zeroes == 0
        }),
{
}

/// Residuals follow each other: one more is read from where those before it end.
pub proof fn law_residuals_follow(m: EntropyModel, channels: Seq<int>, ch: int)
    ensures
        m.after_residuals(Seq::empty()) == m,
        m.residuals(Seq::empty()) == Seq::<i32>::empty(),
        m.after_residuals(channels.push(ch)) == m.after_residuals(channels).after_residual(ch),
        m.residuals(channels.push(ch)) == m.residuals(channels).push(
            m.after_residuals(channels).residual(ch),
        ),
{
    let more = channels.push(ch);
    assert(more.drop_last() =~= channels);
    assert forall|i: int| 0 <= i < channels.len() implies #[trigger] m.residuals(more)[i]
        == m.residuals(channels)[i] by {
        assert(more.take(i) =~= channels.take(i));
    }
    assert(more.take(channels.len() as int) =~= channels);
    assert(m.residuals(more) =~= m.residuals(channels).push(
        m.after_residuals(channels).residual(ch),
    ));
    assert(m.residuals(Seq::empty()) =~= Seq::<i32>::empty());
}

/// The channels of a block take turns: residual `i` of channel `ch` comes behind the
/// first `i` of every channel and behind the `i`-th of every earlier channel.
pub proof fn law_channels_take_turns(m: EntropyModel, count: nat, n: nat, ch: int, i: int)
    requires
        0 <= ch < count,
        0 <= i < n,
    ensures
        ({
            let k = (i * count + ch) as nat;
            let turns = Seq::new(k, |j: int| j % count as int);
            let all = block::residual_channels(m, count, n);
            &&& all.len() == count && all[ch].len() == n
            &&& all[ch][i] == m.after_residuals(turns).residual(ch)
            &&& m.after_frames(count, i as nat).frame(count).len() == count
            &&& m.after_frames(count, i as nat).frame(count)[ch] == all[ch][i]
            &&& m.after_frames(count, i as nat).after_frame(ch as nat) == m.after_residuals(turns)
        }),
{
    lossless::lemma_turns(m, count, i as nat, ch as nat);
    assert(i * count >= 0) by (nonlinear_arith)
        requires
            i >= 0,
    ;
    let k = (i * count + ch) as nat;
    assert(Seq::new(k, |j: int| j % count as int) =~= lossless::turns(count, k));
}

} // verus!
