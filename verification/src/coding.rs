//! The entropy code from the encoder's side.
//!
//! Nothing here runs. These spec functions write down a code for every row of
//! residuals, and the proofs show that the decoder reads each of them back.
use crate::arith;
use crate::bitstream;
use crate::bitstream::BitCursor;
use crate::entropy;
use crate::entropy::{EntropyModel, Medians};
use vstd::arithmetic::div_mod::*;
use vstd::arithmetic::power2::*;
use vstd::prelude::*;

verus! {

/// A row of bits stands at a cursor.
pub open spec fn has_bits(c: BitCursor, code: Seq<bool>) -> bool {
    &&& c.pos + code.len() <= c.total()
    &&& forall|i: int|
        0 <= i < code.len() ==> (#[trigger] code[i] <==> bitstream::bit_at(c.data, c.pos + i)
            == 1)
}

/// The first part of a row of bits stands at the cursor, the second behind it.
proof fn lemma_has_bits_split(c: BitCursor, a: Seq<bool>, b: Seq<bool>)
    requires
        has_bits(c, a + b),
    ensures
        has_bits(c, a),
        has_bits(c.advance(a.len()), b),
{
    let code = a + b;
    assert forall|i: int| 0 <= i < a.len() implies (#[trigger] a[i] <==> bitstream::bit_at(
        c.data,
        c.pos + i,
    ) == 1) by {
        assert(code[i] == a[i]);
    }
    assert forall|i: int| 0 <= i < b.len() implies (#[trigger] b[i] <==> bitstream::bit_at(
        c.data,
        c.advance(a.len()).pos + i,
    ) == 1) by {
        assert(code[a.len() + i] == b[i]);
    }
}

/// A bit is 0 or 1.
proof fn lemma_bit_at_range(data: Seq<u8>, i: int)
    ensures
        bitstream::bit_at(data, i) < 2,
{
}

/// `n` ones and a zero.
pub open spec fn unary_code(n: nat) -> Seq<bool> {
    Seq::new(n + 1, |i: int| i < n)
}

/// A run of ones that ends in a zero is counted.
proof fn lemma_ones_run(data: Seq<u8>, pos: int, n: nat, cap: nat)
    requires
        n < cap,
        forall|i: int| pos <= i < pos + n ==> #[trigger] bitstream::bit_at(data, i) == 1,
        bitstream::bit_at(data, pos + n) == 0,
    ensures
        bitstream::ones_run(data, pos, cap) == n,
    decreases n,
{
    if n > 0 {
        assert(bitstream::bit_at(data, pos) == 1);
        lemma_ones_run(data, pos + 1, (n - 1) as nat, (cap - 1) as nat);
    }
}

/// A unary code is read back.
proof fn lemma_unary_code(c: BitCursor, n: nat, cap: nat)
    requires
        n < cap,
        has_bits(c, unary_code(n)),
    ensures
        c.ones(cap) == n,
        c.after_ones(cap) == c.advance(n + 1),
{
    let code = unary_code(n);
    assert forall|i: int| c.pos <= i < c.pos + n implies #[trigger] bitstream::bit_at(c.data, i)
        == 1 by {
        assert(code[i - c.pos]);
    }
    assert(!code[n as int]);
    lemma_bit_at_range(c.data, (c.pos + n) as int);
    lemma_ones_run(c.data, c.pos as int, n, cap);
}

/// The low `n` bits of a number, lowest first.
pub open spec fn number_code(v: nat, n: nat) -> Seq<bool>
    decreases n,
{
    if n == 0 {
        Seq::empty()
    } else {
        seq![v % 2 == 1] + number_code(v / 2, (n - 1) as nat)
    }
}

/// A number is read back.
proof fn lemma_number_code(c: BitCursor, v: nat, n: nat)
    requires
        v < pow2(n),
        has_bits(c, number_code(v, n)),
    ensures
        c.peek(n) == v,
        number_code(v, n).len() == n,
    decreases n,
{
    if n == 0 {
        lemma2_to64();
    } else {
        let rest = (n - 1) as nat;
        lemma_pow2_unfold(n);
        lemma_has_bits_split(c, seq![v % 2 == 1], number_code(v / 2, rest));
        lemma_number_code(c.advance(1), v / 2, rest);
        assert(seq![v % 2 == 1][0] == (v % 2 == 1));
        lemma_bit_at_range(c.data, c.pos as int);
        assert(bitstream::bit_at(c.data, c.pos as int) == v % 2);
    }
}

/// A number code has as many bits as it is asked for.
proof fn lemma_number_code_len(v: nat, n: nat)
    ensures
        number_code(v, n).len() == n,
    decreases n,
{
    if n > 0 {
        lemma_number_code_len(v / 2, (n - 1) as nat);
    }
}

/// The adjusted binary code of a value in 0..=k.
pub open spec fn tail_code(v: nat, k: nat) -> Seq<bool> {
    let p = entropy::floor_log2(k);
    let e = entropy::short_codes(k);
    if k == 0 {
        Seq::empty()
    } else if v < e {
        number_code(v, p)
    } else {
        number_code(((v + e) / 2) as nat, p) + seq![(v + e) % 2 == 1]
    }
}

/// An adjusted binary code is read back.
proof fn lemma_tail_code(c: BitCursor, v: nat, k: nat)
    requires
        v <= k,
        has_bits(c, tail_code(v, k)),
    ensures
        entropy::tail(c, k) == v,
        entropy::after_tail(c, k) == c.advance(tail_code(v, k).len()),
{
    if k > 0 {
        let p = entropy::floor_log2(k);
        let e = entropy::short_codes(k);
        entropy::lemma_floor_log2_bounds(k);
        lemma_pow2_unfold(p + 1);
        if v < e {
            lemma_number_code(c, v, p);
        } else {
            let high = ((v + e) / 2) as nat;
            let low = seq![(v + e) % 2 == 1];
            lemma_number_code_len(high, p);
            lemma_has_bits_split(c, number_code(high, p), low);
            lemma_number_code(c, high, p);
            let at = c.advance(p);
            assert(low[0] == ((v + e) % 2 == 1));
            lemma_bit_at_range(at.data, at.pos as int);
            assert(bitstream::bit_at(at.data, at.pos as int) == (v + e) % 2);
            reveal_with_fuel(bitstream::bits_value, 2);
            assert(at.peek(1) == (v + e) % 2);
        }
    }
}

/// The gamma code of a number: its length in unary, then its low bits.
pub open spec fn gamma_code(x: nat) -> Seq<bool> {
    if x < 2 {
        unary_code(x)
    } else {
        let p = entropy::floor_log2(x);
        unary_code(p + 1) + number_code((x - pow2(p)) as nat, p)
    }
}

/// A gamma code is read back.
proof fn lemma_gamma_code(c: BitCursor, x: nat)
    requires
        x <= u32::MAX,
        has_bits(c, gamma_code(x)),
    ensures
        entropy::gamma(c) == x,
        entropy::after_gamma(c) == c.advance(gamma_code(x).len()),
        c.ones(33) <= 32,
{
    if x < 2 {
        lemma_unary_code(c, x, 33);
    } else {
        let p = entropy::floor_log2(x);
        entropy::lemma_floor_log2_bounds(x);
        lemma2_to64();
        lemma_pow2_unfold(p + 1);
        if p >= 32 {
            if p > 32 {
                lemma_pow2_strictly_increases(32, p);
            }
        }
        if p == 0 {
            assert(pow2(1) == 2);
        }
        let low = (x - pow2(p)) as nat;
        lemma_has_bits_split(c, unary_code(p + 1), number_code(low, p));
        lemma_unary_code(c, p + 1, 33);
        lemma_number_code(c.advance(p + 2), low, p);
    }
}

/// The code of a zone word.
pub open spec fn word_code(raw: u32) -> Seq<bool> {
    if raw < 16 {
        unary_code(raw as nat)
    } else {
        unary_code(16) + gamma_code((raw - 16) as nat)
    }
}

/// A zone word is read back.
proof fn lemma_word_code(c: BitCursor, raw: u32)
    requires
        has_bits(c, word_code(raw)),
    ensures
        entropy::zone_word(c) == raw,
        entropy::after_zone_word(c) == c.advance(word_code(raw).len()),
{
    if raw < 16 {
        lemma_unary_code(c, raw as nat, 33);
    } else {
        let ext = (raw - 16) as nat;
        lemma_has_bits_split(c, unary_code(16), gamma_code(ext));
        lemma_unary_code(c, 16, 33);
        lemma_gamma_code(c.advance(17), ext);
    }
}

/// The magnitude that is coded for a residual: a negative one is coded as its
/// complement.
pub open spec fn magnitude(residual: i32) -> nat {
    if residual < 0 {
        (-1 - residual) as nat
    } else {
        residual as nat
    }
}

/// The zone of a magnitude.
pub open spec fn zone_of(m: Medians, mag: nat) -> u32 {
    let w0 = entropy::zone_width(m.m0);
    let w1 = entropy::zone_width(m.m1);
    let w2 = entropy::zone_width(m.m2);
    if mag < w0 {
        0
    } else if mag < w0 + w1 {
        1
    } else {
        (2 + (mag - w0 - w1) / w2) as u32
    }
}

/// A magnitude is the base of its zone and a remainder that fits in the zone, and
/// the number of its zone does not exceed it.
proof fn lemma_zone_of(m: Medians, mag: nat)
    requires
        mag <= i32::MAX,
    ensures
        ({
            let z = zone_of(m, mag);
            &&& z <= mag
            &&& 0 <= mag - m.zone_base(z) <= m.zone_top(z)
        }),
{
    let w0 = entropy::zone_width(m.m0);
    let w1 = entropy::zone_width(m.m1);
    let w2 = entropy::zone_width(m.m2);
    if mag >= w0 + w1 {
        let x = mag - w0 - w1;
        lemma_fundamental_div_mod(x, w2);
        lemma_mod_bound(x, w2);
        lemma_div_is_ordered_by_denominator(x, 1, w2);
        lemma_div_pos_is_pos(x, w2);
        lemma_div_basics(x);
    }
}

/// What an encoder knows of the decoder: everything but the bits.
#[verifier::ext_equal]
pub struct Coder {
    pub medians: Seq<Medians>,
    pub zero: bool,
    pub one: bool,
    pub zeroes: u32,
}

/// A channel, and the residual that is coded for it.
pub struct Item {
    pub channel: int,
    pub value: i32,
}

/// The choices that the code leaves to an encoder: how many zeros a run holds that
/// opens at an item (none, to code the item by itself), and whether the last item
/// announces a successor outside zone 0.
pub struct Plan {
    pub runs: Seq<u32>,
    pub last: bool,
}

impl Plan {
    /// The runs hold nothing but zeros.
    pub open spec fn suits(self, items: Seq<Item>) -> bool {
        &&& self.runs.len() == items.len()
        &&& forall|i: int, j: int|
            0 <= i <= j < items.len() && j < i + (#[trigger] self.runs[i]) ==> (
            #[trigger] items[j]).value == 0
    }

    /// The choices from the second item on.
    pub open spec fn rest(self) -> Plan {
        Plan { runs: self.runs.drop_first(), ..self }
    }
}

/// How many zeros in a row the items start with, from item `i` on.
pub open spec fn zeros_from(items: Seq<Item>, i: int) -> nat
    decreases items.len() - i,
{
    if 0 <= i < items.len() && items[i].value == 0 {
        1 + zeros_from(items, i + 1)
    } else {
        0
    }
}

/// The plan that puts every stretch of zeros into one run, or into the longest that
/// can be coded.
pub open spec fn longest_runs(items: Seq<Item>) -> Plan {
    Plan {
        runs: Seq::new(
            items.len(),
            |i: int|
                if zeros_from(items, i) <= u32::MAX {
                    zeros_from(items, i) as u32
                } else {
                    u32::MAX
                },
        ),
        last: false,
    }
}

/// The items that are counted as zeros are zeros.
proof fn lemma_zeros_from(items: Seq<Item>, i: int, j: int)
    requires
        0 <= i <= j < i + zeros_from(items, i),
    ensures
        j < items.len(),
        items[j].value == 0,
    decreases j - i,
{
    if i < j {
        lemma_zeros_from(items, i + 1, j);
    }
}

/// That plan suits its items.
pub proof fn lemma_longest_runs(items: Seq<Item>)
    ensures
        longest_runs(items).suits(items),
{
    let plan = longest_runs(items);
    assert forall|i: int, j: int|
        0 <= i <= j < items.len() && j < i + (#[trigger] plan.runs[i]) implies (
    #[trigger] items[j]).value == 0 by {
        lemma_zeros_from(items, i, j);
    }
}

impl Coder {
    /// The encoder that belongs to a decoder.
    pub open spec fn of(m: EntropyModel) -> Coder {
        Coder { medians: m.medians, zero: m.zero, one: m.one, zeroes: m.zeroes }
    }

    /// The decoder that belongs to an encoder, at a place in the bits.
    pub open spec fn at(self, bits: BitCursor) -> EntropyModel {
        EntropyModel {
            bits,
            medians: self.medians,
            zero: self.zero,
            one: self.one,
            zeroes: self.zeroes,
        }
    }

    /// The decoder is in zero-run mode.
    pub open spec fn run_mode(self) -> bool {
        &&& forall|i: int| 0 <= i < self.medians.len() ==> (#[trigger] self.medians[i]).m0 < 2
        &&& !self.zero
        &&& !self.one
    }

    /// The zone of an item.
    pub open spec fn zone(self, item: Item) -> u32 {
        zone_of(self.medians[item.channel], magnitude(item.value))
    }

    /// What the state promises of the next items is true of them: the flags say
    /// whether the first is in zone 0, and a run that is under way holds zeros.
    pub open spec fn fits(self, items: Seq<Item>) -> bool {
        &&& !(self.zero && self.one)
        &&& forall|i: int|
            0 <= i < items.len() ==> 0 <= (#[trigger] items[i]).channel < self.medians.len()
        &&& items.len() > 0 && self.zero ==> self.zone(items[0]) == 0
        &&& items.len() > 0 && self.one ==> self.zone(items[0]) > 0
        &&& self.zeroes > 1 ==> self.run_mode()
        &&& forall|i: int|
            0 <= i < items.len() && i < self.zeroes - 1 ==> (#[trigger] items[i]).value == 0
    }

    /// A run of `n` zeros opens at the next item.
    pub open spec fn opens_run(self, n: u32) -> bool {
        self.run_mode() && self.zeroes == 0 && n > 0
    }

    /// The next item lies inside a run.
    pub open spec fn inside_run(self) -> bool {
        self.run_mode() && self.zeroes > 1
    }

    /// The code in front of an item that is coded by itself: in zero-run mode, an
    /// empty run.
    pub open spec fn run_code(self) -> Seq<bool> {
        if self.run_mode() && self.zeroes == 0 {
            gamma_code(0)
        } else {
            Seq::empty()
        }
    }

    /// The code of an item that is coded by itself; `one_next` says that the item
    /// behind it is not in zone 0.
    pub open spec fn item_code(self, item: Item, one_next: bool) -> Seq<bool> {
        let m = self.medians[item.channel];
        let zone = self.zone(item);
        let raw = 2 * (zone - if self.one {
            1int
        } else {
            0
        }) + if one_next {
            1int
        } else {
            0
        };
        let word = if self.zero {
            Seq::empty()
        } else {
            word_code(raw as u32)
        };
        let remainder = (magnitude(item.value) - m.zone_base(zone)) as nat;
        word + tail_code(remainder, m.zone_top(zone)) + seq![item.value < 0]
    }

    /// The encoder behind such an item.
    pub open spec fn after_item(self, item: Item, one_next: bool) -> Coder {
        Coder {
            medians: self.medians.update(
                item.channel,
                self.medians[item.channel].adapted(self.zone(item)),
            ),
            zero: !self.zero && !one_next,
            one: !self.zero && one_next,
            zeroes: if self.run_mode() {
                0
            } else {
                self.zeroes
            },
        }
    }

    /// The code of the next item, at which a run of `n` zeros opens if one can.
    pub open spec fn step_code(self, item: Item, n: u32, one_next: bool) -> Seq<bool> {
        if self.opens_run(n) {
            gamma_code(n as nat)
        } else if self.inside_run() {
            Seq::empty()
        } else {
            self.run_code() + self.item_code(item, one_next)
        }
    }

    /// The encoder behind the next item.
    pub open spec fn after_step(self, item: Item, n: u32, one_next: bool) -> Coder {
        if self.opens_run(n) {
            Coder {
                medians: Seq::new(
                    self.medians.len(),
                    |i: int| Medians { m0: 0, m1: 0, m2: 0 },
                ),
                zeroes: n,
                ..self
            }
        } else if self.inside_run() {
            Coder { zeroes: (self.zeroes - 1) as u32, ..self }
        } else {
            self.after_item(item, one_next)
        }
    }

    /// The item behind the next one is not in zone 0.
    pub open spec fn one_next(self, items: Seq<Item>, plan: Plan) -> bool {
        if items.len() > 1 {
            self.after_step(items[0], plan.runs[0], false).zone(items[1]) > 0
        } else {
            plan.last
        }
    }

    /// The code of a row of items.
    pub open spec fn code(self, items: Seq<Item>, plan: Plan) -> Seq<bool>
        decreases items.len(),
    {
        if items.len() == 0 {
            Seq::empty()
        } else {
            let one_next = self.one_next(items, plan);
            self.step_code(items[0], plan.runs[0], one_next) + self.after_step(
                items[0],
                plan.runs[0],
                one_next,
            ).code(items.drop_first(), plan.rest())
        }
    }
}

/// An item that is coded by itself is read back.
proof fn lemma_item(m: EntropyModel, item: Item, one_next: bool)
    requires
        has_bits(m.bits, Coder::of(m).item_code(item, one_next)),
        0 <= item.channel < m.medians.len(),
        !(m.zero && m.one),
        m.zero ==> Coder::of(m).zone(item) == 0,
        m.one ==> Coder::of(m).zone(item) > 0,
    ensures
        m.coded(item.channel) == item.value,
        m.after_coded(item.channel) == (Coder {
            zeroes: m.zeroes,
            ..Coder::of(m).after_item(item, one_next)
        }).at(m.bits.advance(Coder::of(m).item_code(item, one_next).len())),
{
    let coder = Coder::of(m);
    let med = m.medians[item.channel];
    let mag = magnitude(item.value);
    let zone = coder.zone(item);
    lemma_zone_of(med, mag);
    let raw = 2 * (zone - if m.one {
        1int
    } else {
        0
    }) + if one_next {
        1int
    } else {
        0
    };
    let word = if m.zero {
        Seq::empty()
    } else {
        word_code(raw as u32)
    };
    let remainder = (mag - med.zone_base(zone)) as nat;
    let body = tail_code(remainder, med.zone_top(zone));
    let sign = seq![item.value < 0];
    lemma_has_bits_split(m.bits, word + body, sign);
    lemma_has_bits_split(m.bits, word, body);
    if m.zero {
        assert(m.bits.advance(0) == m.bits);
    } else {
        lemma_word_code(m.bits, raw as u32);
    }
    assert(m.zone() == zone);
    let c = m.after_zone().bits;
    assert(c == m.bits.advance(word.len()));
    lemma_tail_code(c, remainder, med.zone_top(zone));
    let d = m.bits.advance((word + body).len());
    assert(entropy::after_tail(c, med.zone_top(zone)) == d);
    reveal_with_fuel(bitstream::bits_value, 2);
    lemma_bit_at_range(d.data, d.pos as int);
    assert(sign[0] == (item.value < 0));
    arith::lemma_wrap_i32_exact(mag as int);
    assert(m.coded(item.channel) == item.value);
    assert(d.advance(1) == m.bits.advance(coder.item_code(item, one_next).len()));
}

/// The next item is read back, and the decoder stays in step with the encoder.
proof fn lemma_step(m: EntropyModel, items: Seq<Item>, plan: Plan, one_next: bool)
    requires
        items.len() > 0,
        Coder::of(m).fits(items),
        plan.suits(items),
        has_bits(m.bits, Coder::of(m).step_code(items[0], plan.runs[0], one_next)),
    ensures
        m.residual(items[0].channel) == items[0].value,
        m.after_residual(items[0].channel) == Coder::of(m).after_step(
            items[0],
            plan.runs[0],
            one_next,
        ).at(m.bits.advance(Coder::of(m).step_code(items[0], plan.runs[0], one_next).len())),
{
    let coder = Coder::of(m);
    let item = items[0];
    let n = plan.runs[0];
    assert(m.run_mode() == coder.run_mode());
    if coder.opens_run(n) {
        lemma_gamma_code(m.bits, n as nat);
        assert(items[0].value == 0);
    } else if coder.inside_run() {
        lemma_advance_inside(m.bits, 0, 0);
        assert(items[0].value == 0);
    } else if coder.run_mode() && m.zeroes == 0 {
        lemma_has_bits_split(m.bits, gamma_code(0), coder.item_code(item, one_next));
        lemma_gamma_code(m.bits, 0);
        let next = m.past_run();
        assert(Coder::of(next) == coder);
        lemma_item(next, item, one_next);
    } else {
        assert(coder.run_code() + coder.item_code(item, one_next) =~= coder.item_code(
            item,
            one_next,
        ));
        let next = m.past_run();
        lemma_item(next, item, one_next);
        assert(Coder::of(next).item_code(item, one_next) == coder.item_code(item, one_next));
    }
}

/// What the state behind an item promises is true of the items behind it.
proof fn lemma_step_fits(coder: Coder, items: Seq<Item>, plan: Plan)
    requires
        items.len() > 0,
        coder.fits(items),
        plan.suits(items),
    ensures
        plan.rest().suits(items.drop_first()),
        coder.after_step(items[0], plan.runs[0], coder.one_next(items, plan)).fits(
            items.drop_first(),
        ),
{
    let rest = items.drop_first();
    let n = plan.runs[0];
    let one_next = coder.one_next(items, plan);
    let after = coder.after_step(items[0], n, one_next);
    assert forall|i: int, j: int|
        0 <= i <= j < rest.len() && j < i + (#[trigger] plan.rest().runs[i]) implies (
    #[trigger] rest[j]).value == 0 by {
        assert(plan.rest().runs[i] == plan.runs[i + 1]);
        assert(items[j + 1].value == 0);
    }
    assert(after.medians == coder.after_step(items[0], n, false).medians);
    assert forall|i: int| 0 <= i < rest.len() implies 0 <= (#[trigger] rest[i]).channel
        < after.medians.len() by {
        assert(rest[i] == items[i + 1]);
    }
    assert forall|i: int| 0 <= i < rest.len() && i < after.zeroes - 1 implies (
    #[trigger] rest[i]).value == 0 by {
        assert(rest[i] == items[i + 1]);
        if coder.opens_run(n) {
            assert(plan.runs[0] == n);
            assert(items[i + 1].value == 0);
        }
    }
    if rest.len() > 0 {
        assert(rest[0] == items[1]);
    }
}

/// The channels of a row of items.
pub open spec fn channels_of(items: Seq<Item>) -> Seq<int> {
    items.map_values(|item: Item| item.channel)
}

/// The residuals of a row of items.
pub open spec fn values_of(items: Seq<Item>) -> Seq<i32> {
    items.map_values(|item: Item| item.value)
}

/// Residuals can be counted from the front.
pub proof fn lemma_residuals_front(m: EntropyModel, channels: Seq<int>)
    requires
        channels.len() > 0,
    ensures
        ({
            let next = m.after_residual(channels[0]);
            let rest = channels.drop_first();
            &&& m.after_residuals(channels) == next.after_residuals(rest)
            &&& m.residuals(channels) == seq![m.residual(channels[0])] + next.residuals(rest)
        }),
    decreases channels.len(),
{
    let next = m.after_residual(channels[0]);
    let rest = channels.drop_first();
    lemma_after_residuals_front(m, channels);
    let front = seq![m.residual(channels[0])] + next.residuals(rest);
    assert forall|i: int| 0 <= i < channels.len() implies m.residuals(channels)[i]
        == #[trigger] front[i] by {
        if i == 0 {
            assert(channels.take(0) =~= Seq::empty());
        } else {
            let upto = channels.take(i);
            lemma_after_residuals_front(m, upto);
            assert(upto.drop_first() =~= rest.take(i - 1));
            assert(front[i] == next.residuals(rest)[i - 1]);
        }
    }
    assert(m.residuals(channels) =~= front);
}

/// The state behind residuals can be counted from the front.
proof fn lemma_after_residuals_front(m: EntropyModel, channels: Seq<int>)
    requires
        channels.len() > 0,
    ensures
        m.after_residuals(channels) == m.after_residual(channels[0]).after_residuals(
            channels.drop_first(),
        ),
    decreases channels.len(),
{
    let head = channels.drop_last();
    let rest = channels.drop_first();
    if head.len() == 0 {
        assert(m.after_residuals(head) == m);
    } else {
        lemma_after_residuals_front(m, head);
        assert(rest.drop_last() =~= head.drop_first());
    }
}

/// The entropy code loses nothing: every row of residuals, whatever their channels,
/// their values and the runs into which their zeros are put, is read back from its
/// code, and no bit beyond that code is read.
pub proof fn lemma_entropy_lossless(m: EntropyModel, items: Seq<Item>, plan: Plan)
    requires
        Coder::of(m).fits(items),
        plan.suits(items),
        has_bits(m.bits, Coder::of(m).code(items, plan)),
    ensures
        m.residuals(channels_of(items)) == values_of(items),
        m.after_residuals(channels_of(items)).bits == m.bits.advance(
            Coder::of(m).code(items, plan).len(),
        ),
    decreases items.len(),
{
    let coder = Coder::of(m);
    if items.len() == 0 {
        assert(m.residuals(channels_of(items)) =~= values_of(items));
        lemma_advance_inside(m.bits, 0, 0);
    } else {
        let one_next = coder.one_next(items, plan);
        let rest = items.drop_first();
        let first = coder.step_code(items[0], plan.runs[0], one_next);
        let after = coder.after_step(items[0], plan.runs[0], one_next);
        lemma_has_bits_split(m.bits, first, after.code(rest, plan.rest()));
        lemma_step(m, items, plan, one_next);
        lemma_step_fits(coder, items, plan);
        let next = m.after_residual(items[0].channel);
        assert(Coder::of(next) == after);
        lemma_entropy_lossless(next, rest, plan.rest());
        lemma_residuals_front(m, channels_of(items));
        assert(channels_of(items).drop_first() =~= channels_of(rest));
        assert(seq![items[0].value] + values_of(rest) =~= values_of(items));
        lemma_advance_inside(m.bits, first.len(), after.code(rest, plan.rest()).len());
    }
}

/// Two steps inside the stream are one.
proof fn lemma_advance_inside(c: BitCursor, a: nat, b: nat)
    requires
        c.pos + a + b <= c.total(),
    ensures
        c.advance(a).advance(b) == c.advance(a + b),
        c.advance(0) == c,
{
}

} // verus!
