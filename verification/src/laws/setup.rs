//! What the sub-blocks of a block set up.
use crate::block;
use crate::decorrelation;
use crate::decorrelation::PassModel;
use crate::entropy;
use crate::header::SubBlock;
use vstd::prelude::*;

verus! {

/// A term and a delta that a pass can have.
pub struct TermPair {
    pub term: int,
    pub delta: int,
}

impl TermPair {
    /// A delay of 1 to 8 samples, one of two extrapolations, or one of three
    /// cross-channel terms, with a delta of three bits.
    pub open spec fn is_valid(self) -> bool {
        &&& 1 <= self.term <= 8 || self.term == 17 || self.term == 18 || self.term == -1
            || self.term == -2 || self.term == -3
        &&& 0 <= self.delta <= 7
    }

    /// Its byte.
    pub open spec fn byte(self) -> u8 {
        (self.term + 5 + 32 * self.delta) as u8
    }
}

/// The bytes of a row of terms.
pub open spec fn term_bytes(row: Seq<TermPair>) -> Seq<u8> {
    Seq::new(row.len(), |i: int| row[i].byte())
}

/// Every row of terms that can be written is read back: one pass for each, with its
/// term and its delta, with no weight and no history yet.
pub proof fn law_terms_round_trip(row: Seq<TermPair>)
    requires
        forall|i: int| 0 <= i < row.len() ==> (#[trigger] row[i]).is_valid(),
    ensures
        ({
            let passes = decorrelation::listed_passes(term_bytes(row));
            &&& passes.len() == row.len()
            &&& forall|i: int|
                0 <= i < row.len() ==> (#[trigger] passes[i]).term == row[i].term
                    && passes[i].delta == row[i].delta
            &&& forall|i: int| 0 <= i < row.len() ==> (#[trigger] passes[i]).wf()
            &&& forall|i: int, ch: int|
                0 <= i < row.len() && 0 <= ch < 2 ==> #[trigger] passes[i].weights[ch] == 0
            &&& forall|i: int, ch: int, s: int|
                0 <= i < row.len() && 0 <= ch < 2 && 0 <= s < 8
                    ==> #[trigger] passes[i].history[ch][s] == 0
        }),
    decreases row.len(),
{
    let bytes = term_bytes(row);
    if row.len() > 0 {
        let head = row.drop_last();
        let last = row.last();
        assert(last.is_valid()) by {
            assert(row[row.len() - 1].is_valid());
        }
        assert forall|i: int| 0 <= i < head.len() implies (#[trigger] head[i]).is_valid() by {
            assert(row[i].is_valid());
        }
        law_terms_round_trip(head);
        assert(bytes.drop_last() =~= term_bytes(head));
        lemma_term_byte(last);
        let before = decorrelation::listed_passes(term_bytes(head));
        let passes = decorrelation::listed_passes(bytes);
        let pass = PassModel::fresh(last.term as i32, last.delta as i32);
        assert(bytes.last() == last.byte());
        assert(passes == before.push(pass));
        assert(pass.weights[0] == 0 && pass.weights[1] == 0);
        assert forall|i: int| 0 <= i < row.len() implies (#[trigger] passes[i]).term == row[i].term
            && passes[i].delta == row[i].delta && passes[i].wf() by {
            if i < head.len() {
                assert(passes[i] == before[i]);
                assert(head[i] == row[i]);
            }
        }
        assert forall|i: int, ch: int| 0 <= i < row.len() && 0 <= ch < 2 implies
            #[trigger] passes[i].weights[ch] == 0 by {
            if i < head.len() {
                assert(passes[i] == before[i]);
                assert(before[i].weights[ch] == 0);
            }
        }
        assert forall|i: int, ch: int, s: int|
            0 <= i < row.len() && 0 <= ch < 2 && 0 <= s < 8 implies
            #[trigger] passes[i].history[ch][s] == 0 by {
            if i < head.len() {
                assert(passes[i] == before[i]);
                assert(before[i].history[ch][s] == 0);
            }
        }
    }
}

/// The byte of a term takes it apart again.
proof fn lemma_term_byte(t: TermPair)
    requires
        t.is_valid(),
    ensures
        t.byte() as int % 32 == t.term + 5,
        t.byte() as int / 32 == t.delta,
{
}

/// A byte whose low five bits are 0, 1, 5, 14 to 21, or 24 to 31 lists no pass.
pub proof fn law_no_pass_for_other_bytes(data: Seq<u8>, byte: u8)
    requires
        ({
            let low = byte as int % 32;
            low == 0 || low == 1 || low == 5 || 14 <= low <= 21 || 24 <= low
        }),
    ensures
        decorrelation::listed_passes(data.push(byte)) == decorrelation::listed_passes(data),
        decorrelation::listed_passes(Seq::empty()) == Seq::<PassModel>::empty(),
{
    assert(data.push(byte).drop_last() =~= data);
}

/// The passes of two rows of bytes, one behind the other, are those of the first and
/// then those of the second.
pub proof fn law_terms_join(a: Seq<u8>, b: Seq<u8>)
    ensures
        decorrelation::listed_passes(a + b) == decorrelation::listed_passes(a)
            + decorrelation::listed_passes(b),
    decreases b.len(),
{
    if b.len() == 0 {
        assert(a + b =~= a);
        assert(decorrelation::listed_passes(a) + decorrelation::listed_passes(b)
            =~= decorrelation::listed_passes(a));
    } else {
        assert((a + b).drop_last() =~= a + b.drop_last());
        assert((a + b).last() == b.last());
        law_terms_join(a, b.drop_last());
        assert(decorrelation::listed_passes(a + b) =~= decorrelation::listed_passes(a)
            + decorrelation::listed_passes(b));
    }
}

/// The weight of a byte: the byte as a signed number times 8 and, above zero, one
/// more for each 16 of it, the first of them at 8. So 127 stands for 1024.
pub proof fn law_weight_of_a_byte(byte: u8)
    ensures
        ({
            let w = decorrelation::restored_weight(decorrelation::signed_byte(byte)) as int;
            &&& byte == 0 ==> w == 0
            &&& 1 <= byte <= 127 ==> w == 8 * byte + (byte + 8) / 16
            &&& 128 <= byte ==> w == 8 * (byte - 256)
        }),
{
}

/// Weights keep the order of the bytes that stand for them.
pub proof fn law_weights_in_order(x: i8, y: i8)
    requires
        x < y,
    ensures
        decorrelation::restored_weight(x) + 8 <= decorrelation::restored_weight(y),
{
}

/// The first pass takes its weights from the first bytes, one for each channel of the
/// block, and the passes behind it are loaded from the bytes behind those.
pub proof fn law_weights_in_turn(
    p: PassModel,
    rest: Seq<PassModel>,
    data: Seq<u8>,
    is_mono: bool,
)
    requires
        p.wf(),
        data.len() >= if is_mono {
            1int
        } else {
            2
        },
    ensures
        ({
            let all = decorrelation::loaded_weights(seq![p] + rest, data, is_mono);
            let used: int = if is_mono {
                1
            } else {
                2
            };
            &&& all == seq![all[0]] + decorrelation::loaded_weights(
                rest,
                data.skip(used),
                is_mono,
            )
            &&& all[0] == (PassModel { weights: all[0].weights, ..p })
            &&& all[0].weights.len() == 2
            &&& all[0].weights[0] == decorrelation::restored_weight(
                decorrelation::signed_byte(data[0]),
            )
            &&& all[0].weights[1] == if is_mono {
                p.weights[1]
            } else {
                decorrelation::restored_weight(decorrelation::signed_byte(data[1]))
            }
        }),
{
    let row = seq![p] + rest;
    let all = decorrelation::loaded_weights(row, data, is_mono);
    let count: int = if is_mono {
        1
    } else {
        2
    };
    let tail = decorrelation::loaded_weights(rest, data.skip(count), is_mono);
    assert(row[0] == p);
    assert forall|i: int| 0 <= i < rest.len() implies #[trigger] tail[i] == all[i + 1] by {
        assert(row[i + 1] == rest[i]);
        assert((i + 1) * count == i * count + count) by (nonlinear_arith);
        assert(i * count >= 0) by (nonlinear_arith)
            requires
                i >= 0,
                count >= 1,
        ;
        assert(tail[i].weights =~= all[i + 1].weights);
    }
    assert(all =~= seq![all[0]] + tail);
}

/// Where no byte is left, a weight stays what it was; one byte in stereo serves the
/// first channel alone.
pub proof fn law_weights_run_out(passes: Seq<PassModel>, is_mono: bool, byte: u8)
    requires
        forall|i: int| 0 <= i < passes.len() ==> (#[trigger] passes[i]).wf(),
    ensures
        decorrelation::loaded_weights(passes, Seq::empty(), is_mono) == passes,
        passes.len() > 0 && !is_mono ==> ({
            let all = decorrelation::loaded_weights(passes, seq![byte], false);
            &&& all[0].weights[0] == decorrelation::restored_weight(
                decorrelation::signed_byte(byte),
            )
            &&& all[0].weights[1] == passes[0].weights[1]
            &&& all.len() == passes.len()
            &&& forall|i: int| 1 <= i < passes.len() ==> #[trigger] all[i] == passes[i]
        }),
{
    let none = decorrelation::loaded_weights(passes, Seq::empty(), is_mono);
    let count = if is_mono {
        1int
    } else {
        2
    };
    assert forall|i: int| 0 <= i < passes.len() implies #[trigger] none[i] == passes[i] by {
        assert(passes[i].wf());
        assert(i * count >= 0) by (nonlinear_arith)
            requires
                i >= 0,
                count >= 1,
        ;
        assert(none[i].weights =~= passes[i].weights);
    }
    assert(none =~= passes);
    if passes.len() > 0 && !is_mono {
        let all = decorrelation::loaded_weights(passes, seq![byte], false);
        assert(passes[0].wf());
        assert forall|i: int| 1 <= i < passes.len() implies #[trigger] all[i] == passes[i] by {
            assert(passes[i].wf());
            assert(all[i].weights =~= passes[i].weights);
        }
    }
}

/// A stored sample is the number of its two bytes, lowest first and signed; its sign
/// applies to the value that its magnitude stands for.
pub proof fn law_stored_sample(data: Seq<u8>, pos: int, raw: i16)
    requires
        0 <= pos,
        pos + 2 <= data.len(),
    ensures
        (decorrelation::i16_at(data, pos) - data[pos] - 256 * data[pos + 1]) % 0x1_0000 == 0,
        raw >= 0 ==> (decorrelation::restored_sample(raw) - entropy::exp2_packed(raw as u16))
            % 0x1_0000_0000 == 0,
        raw < 0 ==> (decorrelation::restored_sample(raw) + entropy::exp2_packed((-raw) as u16))
            % 0x1_0000_0000 == 0,
{
}

/// Changing the sign of a stored sample changes the sign of its value.
pub proof fn law_stored_sample_sign(raw: i16)
    requires
        raw > i16::MIN,
    ensures
        (decorrelation::restored_sample(raw) + decorrelation::restored_sample((-raw) as i16))
            % 0x1_0000_0000 == 0,
{
    if raw == 0 {
        assert(entropy::exp2_packed(0) == 0);
    }
}

/// The sample that stands `k`-th in the data, or what was there before if the data does
/// not reach that far.
pub open spec fn kth_sample(data: Seq<u8>, k: int, before: i32) -> i32 {
    if data.len() >= 2 * k + 2 {
        decorrelation::restored_sample(decorrelation::i16_at(data, 2 * k))
    } else {
        before
    }
}

/// The history that one pass loads. A delay term takes as many samples for each channel
/// as it looks back, the channels in turn; an extrapolating term takes two for each
/// channel, one channel after the other; a cross-channel term takes one for each of two
/// channels. Everything else stays, and so does what the data does not reach.
pub proof fn law_history_of_a_pass(p: PassModel, data: Seq<u8>, is_mono: bool, ch: int, s: int)
    requires
        p.wf(),
        0 <= ch < 2,
        0 <= s < 8,
    ensures
        ({
            let q = decorrelation::loaded_history(seq![p], data, is_mono)[0];
            let kept = p.history[ch][s];
            let loaded = q.history[ch][s];
            &&& q == (PassModel { history: q.history, ..p })
            &&& q.history.len() == 2 && q.history[ch].len() == 8
            &&& 0 <= p.term <= 8 && is_mono ==> loaded == if ch == 0 && s < p.term {
                kth_sample(data, s, kept)
            } else {
                kept
            }
            &&& 0 <= p.term <= 8 && !is_mono ==> loaded == if s < p.term {
                kth_sample(data, 2 * s + ch, kept)
            } else {
                kept
            }
            &&& p.term > 8 && is_mono ==> loaded == if ch == 0 && s < 2 {
                kth_sample(data, s, kept)
            } else {
                kept
            }
            &&& p.term > 8 && !is_mono ==> loaded == if s < 2 {
                kth_sample(data, 2 * ch + s, kept)
            } else {
                kept
            }
            &&& p.term < 0 ==> loaded == if s == 0 {
                kth_sample(data, ch, kept)
            } else {
                kept
            }
        }),
{
    let row = seq![p];
    assert(row[0] == p);
    assert(decorrelation::stored_before(row, 0, 1) == 0);
    assert(decorrelation::stored_before(row, 0, 2) == 0);
}

/// How many bytes of history a pass has in the data.
pub open spec fn history_bytes(term: i32, is_mono: bool) -> int {
    if term < 0 {
        4
    } else if term > 8 {
        if is_mono {
            4
        } else {
            8
        }
    } else if is_mono {
        2 * term
    } else {
        4 * term
    }
}

/// The passes behind the first one load their history from the bytes behind those of
/// the first one.
pub proof fn law_history_in_turn(
    p: PassModel,
    rest: Seq<PassModel>,
    data: Seq<u8>,
    is_mono: bool,
)
    requires
        p.wf(),
        data.len() >= history_bytes(p.term, is_mono),
    ensures
        decorrelation::loaded_history(seq![p] + rest, data, is_mono)
            == decorrelation::loaded_history(seq![p], data, is_mono)
            + decorrelation::loaded_history(
            rest,
            data.skip(history_bytes(p.term, is_mono)),
            is_mono,
        ),
{
    let row = seq![p] + rest;
    let count = decorrelation::channel_count(is_mono);
    let used = history_bytes(p.term, is_mono);
    let all = decorrelation::loaded_history(row, data, is_mono);
    let one = decorrelation::loaded_history(seq![p], data, is_mono);
    let tail = decorrelation::loaded_history(rest, data.skip(used), is_mono);
    assert(row[0] == p);
    assert(seq![p][0] == p);
    assert(decorrelation::stored_before(row, 0, count) == 0);
    assert(decorrelation::stored_before(seq![p], 0, count) == 0);
    assert(2 * decorrelation::stored_samples(p.term, count) == used);
    assert forall|i: int| 0 <= i < rest.len() implies #[trigger] tail[i] == all[i + 1] by {
        lemma_stored_before(p, rest, i, count);
        lemma_stored_before_nonnegative(rest, i, count);
        let base = decorrelation::stored_before(rest, i, count);
        let k = decorrelation::stored_samples(p.term, count);
        assert(row[i + 1] == rest[i]);
        lemma_with_history_shift(rest[i], data, base, k, count);
    }
    assert(all =~= one + tail);
}

/// The samples before a pass, counted with one more pass in front.
proof fn lemma_stored_before(p: PassModel, rest: Seq<PassModel>, i: int, count: int)
    requires
        0 <= i <= rest.len(),
    ensures
        decorrelation::stored_before(seq![p] + rest, i + 1, count)
            == decorrelation::stored_samples(p.term, count) + decorrelation::stored_before(
            rest,
            i,
            count,
        ),
    decreases i,
{
    let row = seq![p] + rest;
    assert(row[0] == p);
    if i > 0 {
        lemma_stored_before(p, rest, i - 1, count);
        assert(row[i] == rest[i - 1]);
    } else {
        assert(decorrelation::stored_before(row, 0, count) == 0);
    }
}

/// A count of samples is not negative.
proof fn lemma_stored_before_nonnegative(passes: Seq<PassModel>, i: int, count: int)
    requires
        1 <= count <= 2,
    ensures
        decorrelation::stored_before(passes, i, count) >= 0,
    decreases i,
{
    if i > 0 {
        lemma_stored_before_nonnegative(passes, i - 1, count);
        let term = passes[i - 1].term;
        assert(term * count >= 0 || term < 0) by (nonlinear_arith)
            requires
                1 <= count <= 2,
        ;
    }
}

/// Loading from a later sample is loading from the data without what is before it.
proof fn lemma_with_history_shift(p: PassModel, data: Seq<u8>, base: int, k: int, count: int)
    requires
        base >= 0,
        k >= 0,
        2 * k <= data.len(),
        1 <= count <= 2,
    ensures
        decorrelation::with_history(p, data, base + k, count) == decorrelation::with_history(
            p,
            data.skip(2 * k),
            base,
            count,
        ),
{
    let a = decorrelation::with_history(p, data, base + k, count);
    let b = decorrelation::with_history(p, data.skip(2 * k), base, count);
    assert forall|ch: int| 0 <= ch < 2 implies #[trigger] a.history[ch] == b.history[ch] by {
        assert forall|s: int| 0 <= s < 8 implies a.history[ch][s] == b.history[ch][s] by {
            assert(s * count >= 0) by (nonlinear_arith)
                requires
                    s >= 0,
                    count >= 1,
            ;
            let at = base + decorrelation::stored_at(p.term, count, ch, s);
            assert(decorrelation::stored_at(p.term, count, ch, s) >= 0);
            if 2 * at + 2 <= data.len() - 2 * k {
                assert(data.skip(2 * k)[2 * at] == data[2 * (at + k)]);
                assert(data.skip(2 * k)[2 * at + 1] == data[2 * (at + k) + 1]);
            }
        }
        assert(a.history[ch] =~= b.history[ch]);
    }
    assert(a.history =~= b.history);
}

/// Where the data ends inside the history of the first pass, the passes behind it get
/// none.
pub proof fn law_history_cut_short(
    p: PassModel,
    rest: Seq<PassModel>,
    data: Seq<u8>,
    is_mono: bool,
)
    requires
        p.wf(),
        forall|i: int| 0 <= i < rest.len() ==> (#[trigger] rest[i]).wf(),
        data.len() < history_bytes(p.term, is_mono) + 2,
    ensures
        decorrelation::loaded_history(seq![p] + rest, data, is_mono)
            == decorrelation::loaded_history(seq![p], data, is_mono) + rest,
{
    let row = seq![p] + rest;
    let count = decorrelation::channel_count(is_mono);
    let all = decorrelation::loaded_history(row, data, is_mono);
    let one = decorrelation::loaded_history(seq![p], data, is_mono);
    assert(row[0] == p);
    assert(seq![p][0] == p);
    assert(decorrelation::stored_before(row, 0, count) == 0);
    assert(decorrelation::stored_before(seq![p], 0, count) == 0);
    assert(2 * decorrelation::stored_samples(p.term, count) == history_bytes(p.term, is_mono));
    assert forall|i: int| 0 <= i < rest.len() implies all[i + 1] == #[trigger] rest[i] by {
        assert(rest[i].wf());
        assert(row[i + 1] == rest[i]);
        lemma_stored_before(p, rest, i, count);
        lemma_stored_before_nonnegative(rest, i, count);
        let base = decorrelation::stored_before(row, i + 1, count);
        lemma_history_out_of_reach(rest[i], data, base, count);
    }
    assert(all =~= one + rest);
}

/// A pass whose samples the data does not reach keeps its history.
proof fn lemma_history_out_of_reach(p: PassModel, data: Seq<u8>, base: int, count: int)
    requires
        p.wf(),
        data.len() < 2 * base + 2,
        1 <= count <= 2,
    ensures
        decorrelation::with_history(p, data, base, count) == p,
{
    let q = decorrelation::with_history(p, data, base, count);
    assert forall|ch: int| 0 <= ch < 2 implies #[trigger] q.history[ch] == p.history[ch] by {
        assert forall|s: int| 0 <= s < 8 implies q.history[ch][s] == p.history[ch][s] by {
            assert(s * count >= 0) by (nonlinear_arith)
                requires
                    s >= 0,
                    count >= 1,
            ;
            assert(decorrelation::stored_at(p.term, count, ch, s) >= 0);
        }
        assert(q.history[ch] =~= p.history[ch]);
    }
    assert(q.history =~= p.history);
}

/// Where no two bytes are left, no history is loaded.
pub proof fn law_history_runs_out(passes: Seq<PassModel>, data: Seq<u8>, is_mono: bool)
    requires
        forall|i: int| 0 <= i < passes.len() ==> (#[trigger] passes[i]).wf(),
        data.len() < 2,
    ensures
        decorrelation::loaded_history(passes, data, is_mono) == passes,
{
    let count = decorrelation::channel_count(is_mono);
    let all = decorrelation::loaded_history(passes, data, is_mono);
    assert forall|i: int| 0 <= i < passes.len() implies #[trigger] all[i] == passes[i] by {
        assert(passes[i].wf());
        lemma_stored_before_nonnegative(passes, i, count);
        assert forall|ch: int| 0 <= ch < 2 implies #[trigger] all[i].history[ch]
            == passes[i].history[ch] by {
            assert forall|s: int| 0 <= s < 8 implies all[i].history[ch][s]
                == passes[i].history[ch][s] by {
                assert(s * count >= 0) by (nonlinear_arith)
                    requires
                        s >= 0,
                        count >= 1,
                ;
                assert(decorrelation::stored_at(passes[i].term, count, ch, s) >= 0);
            }
            assert(all[i].history[ch] =~= passes[i].history[ch]);
        }
        assert(all[i].history =~= passes[i].history);
    }
    assert(all =~= passes);
}

/// The medians of the first channel are in the first six bytes, and those of the
/// other channels in the bytes behind them.
pub proof fn law_medians_in_turn(data: Seq<u8>, n: nat)
    requires
        data.len() >= 6,
        n > 0,
    ensures
        ({
            let all = entropy::entropy_vars(data, n);
            let first = all[0];
            &&& all == seq![first] + entropy::entropy_vars(data.skip(6), (n - 1) as nat)
            &&& first.m0 == entropy::exp2_packed((data[0] + 256 * data[1]) as u16)
            &&& first.m1 == entropy::exp2_packed((data[2] + 256 * data[3]) as u16)
            &&& first.m2 == entropy::exp2_packed((data[4] + 256 * data[5]) as u16)
        }),
{
    let all = entropy::entropy_vars(data, n);
    let tail = entropy::entropy_vars(data.skip(6), (n - 1) as nat);
    assert forall|ch: int| 0 <= ch < n - 1 implies #[trigger] tail[ch] == all[ch + 1] by {
        lemma_packed_median_shift(data, 6 * ch);
        lemma_packed_median_shift(data, 6 * ch + 2);
        lemma_packed_median_shift(data, 6 * ch + 4);
    }
    assert(all =~= seq![all[0]] + tail);
}

/// A median six bytes on.
proof fn lemma_packed_median_shift(data: Seq<u8>, pos: int)
    requires
        pos >= 0,
        data.len() >= 6,
    ensures
        entropy::packed_median(data.skip(6), pos) == entropy::packed_median(data, pos + 6),
{
    if pos + 2 <= data.len() - 6 {
        assert(data.skip(6)[pos] == data[pos + 6]);
        assert(data.skip(6)[pos + 1] == data[pos + 7]);
    }
}

/// A median whose two bytes are not both there is 0, and so are all medians behind it.
pub proof fn law_medians_run_out(data: Seq<u8>, n: nat, ch: int)
    requires
        0 <= ch < n,
    ensures
        entropy::entropy_vars(data, n).len() == n,
        data.len() < 6 * ch + 2 ==> entropy::entropy_vars(data, n)[ch].m0 == 0,
        data.len() < 6 * ch + 4 ==> entropy::entropy_vars(data, n)[ch].m1 == 0,
        data.len() < 6 * ch + 6 ==> entropy::entropy_vars(data, n)[ch].m2 == 0,
        data.len() >= 6 * ch + 2 ==> entropy::entropy_vars(data, n)[ch].m0
            == entropy::exp2_packed((data[6 * ch] + 256 * data[6 * ch + 1]) as u16),
        data.len() >= 6 * ch + 4 ==> entropy::entropy_vars(data, n)[ch].m1
            == entropy::exp2_packed((data[6 * ch + 2] + 256 * data[6 * ch + 3]) as u16),
{
}

/// Of the sub-blocks with one ID, the last one counts, wherever it stands; without one
/// there is nothing.
pub proof fn law_last_sub_block_counts(
    before: Seq<SubBlock>,
    sub: SubBlock,
    after: Seq<SubBlock>,
    id: u8,
)
    requires
        forall|i: int| 0 <= i < after.len() ==> (#[trigger] after[i]).id != id,
    ensures
        sub.id == id ==> block::last_data(before + seq![sub] + after, id) == Some(sub.data),
        block::last_data(after, id) is None,
    decreases after.len(),
{
    let all = before + seq![sub] + after;
    if after.len() == 0 {
        assert(all.last() == sub);
    } else {
        let rest = after.drop_last();
        assert(after[after.len() - 1].id != id);
        assert forall|i: int| 0 <= i < rest.len() implies (#[trigger] rest[i]).id != id by {
            assert(after[i].id != id);
        }
        law_last_sub_block_counts(before, sub, rest, id);
        assert(all.last() == after.last());
        assert(all.drop_last() =~= before + seq![sub] + rest);
    }
}

/// The passes of a block are listed in its last sub-block 2, weighted by its last
/// sub-block 3 and given a history by its last sub-block 4.
pub proof fn law_passes_of_a_block(subs: Seq<SubBlock>, is_mono: bool)
    ensures
        ({
            let passes = block::block_passes(subs, is_mono);
            let terms = block::last_data(subs, 2);
            let weights = block::last_data(subs, 3);
            let history = block::last_data(subs, 4);
            &&& terms is None ==> passes.len() == 0
            &&& terms is Some && weights is None && history is None ==> passes
                == decorrelation::listed_passes(terms->0)
            &&& terms is Some && weights is Some && history is None ==> passes
                == decorrelation::loaded_weights(
                decorrelation::listed_passes(terms->0),
                weights->0,
                is_mono,
            )
            &&& terms is Some && weights is None && history is Some ==> passes
                == decorrelation::loaded_history(
                decorrelation::listed_passes(terms->0),
                history->0,
                is_mono,
            )
            &&& terms is Some && weights is Some && history is Some ==> passes
                == decorrelation::loaded_history(
                decorrelation::loaded_weights(
                    decorrelation::listed_passes(terms->0),
                    weights->0,
                    is_mono,
                ),
                history->0,
                is_mono,
            )
        }),
{
}

/// The medians with which a block starts are in its last sub-block 5, or all 0.
pub proof fn law_medians_of_a_block(subs: Seq<SubBlock>, count: nat, ch: int)
    requires
        0 <= ch < count,
    ensures
        block::last_data(subs, 5) matches Some(data) ==> block::block_medians(subs, count)
            == entropy::entropy_vars(data, count),
        block::last_data(subs, 5) is None ==> ({
            let m = block::block_medians(subs, count)[ch];
            m.m0 == 0 && m.m1 == 0 && m.m2 == 0 && block::block_medians(subs, count).len()
                == count
        }),
{
}

} // verus!
