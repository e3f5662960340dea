//! The decorrelation filters.
use crate::arith;
use crate::decorrelation;
use crate::decorrelation::{ChannelRun, PassModel};
use vstd::prelude::*;

verus! {

/// A scaled sample is the product in 1024ths, rounded to the nearest integer, halves
/// upwards: `q` is that integer exactly if 1024 q is within 512 of the product.
pub proof fn law_weighted_is_nearest(weight: i32, sample: i32, q: int)
    requires
        1024 * q - 512 <= weight * sample < 1024 * q + 512,
    ensures
        (decorrelation::weighted(weight, sample) - q) % 0x1_0000_0000 == 0,
        i32::MIN <= q <= i32::MAX ==> decorrelation::weighted(weight, sample) == q,
{
    assert((weight * sample + 512) / 1024 == q);
}

/// A weight moves up by its step where residual and prediction have a positive
/// product, down where the product is negative, and stays where it is zero.
pub proof fn law_weight_follows_the_product(
    weight: i32,
    delta: i32,
    residual: i32,
    prediction: i32,
)
    ensures
        ({
            let moved = decorrelation::adapted(weight, delta, residual, prediction);
            &&& residual * prediction > 0 ==> (moved - weight - delta) % 0x1_0000_0000 == 0
            &&& residual * prediction < 0 ==> (moved - weight + delta) % 0x1_0000_0000 == 0
            &&& residual * prediction == 0 ==> moved == weight
        }),
{
    lemma_product_sign(residual as int, prediction as int);
}

/// The sign of a product.
proof fn lemma_product_sign(x: int, y: int)
    ensures
        x * y > 0 <==> (x > 0 && y > 0) || (x < 0 && y < 0),
        x * y < 0 <==> (x > 0 && y < 0) || (x < 0 && y > 0),
        x * y == 0 <==> x == 0 || y == 0,
{
    assert(x > 0 && y > 0 ==> x * y > 0) by (nonlinear_arith);
    assert(x < 0 && y < 0 ==> x * y > 0) by (nonlinear_arith);
    assert(x > 0 && y < 0 ==> x * y < 0) by (nonlinear_arith);
    assert(x < 0 && y > 0 ==> x * y < 0) by (nonlinear_arith);
    assert(x == 0 || y == 0 ==> x * y == 0) by (nonlinear_arith);
}

/// A weight does not see a change of both signs, moves by the opposite step where one
/// sign changes, and exchanging residual and prediction changes nothing.
pub proof fn law_weight_symmetry(weight: i32, delta: i32, residual: i32, prediction: i32)
    requires
        residual > i32::MIN,
        prediction > i32::MIN,
        delta > i32::MIN,
    ensures
        decorrelation::adapted(weight, delta, residual, prediction) == decorrelation::adapted(
            weight,
            delta,
            (-residual) as i32,
            (-prediction) as i32,
        ),
        decorrelation::adapted(weight, delta, residual, prediction) == decorrelation::adapted(
            weight,
            (-delta) as i32,
            (-residual) as i32,
            prediction,
        ),
        decorrelation::adapted(weight, delta, residual, prediction) == decorrelation::adapted(
            weight,
            delta,
            prediction,
            residual,
        ),
        decorrelation::adapted_clip(weight, delta, residual, prediction)
            == decorrelation::adapted_clip(
            weight,
            delta,
            (-residual) as i32,
            (-prediction) as i32,
        ),
        decorrelation::adapted_clip(weight, delta, residual, prediction)
            == decorrelation::adapted_clip(weight, delta, prediction, residual),
{
}

/// The lesser of two numbers.
pub open spec fn least(x: int, y: int) -> int {
    if x < y {
        x
    } else {
        y
    }
}

/// The greater of two numbers.
pub open spec fn greatest(x: int, y: int) -> int {
    if x < y {
        y
    } else {
        x
    }
}

/// A clamped weight moves as an unclamped one does, up to 1024 and down to -1024.
/// Only the side to which it moves is clamped.
pub proof fn law_clamped_weight(weight: i32, delta: i32, source: i32, result: i32)
    requires
        i32::MIN < weight + delta <= i32::MAX,
        i32::MIN < weight - delta <= i32::MAX,
    ensures
        ({
            let moved = decorrelation::adapted_clip(weight, delta, source, result);
            &&& source * result > 0 ==> moved == least(weight + delta, 1024)
            &&& source * result < 0 ==> moved == greatest(weight - delta, -1024)
            &&& source * result == 0 ==> moved == weight
        }),
{
    lemma_product_sign(source as int, result as int);
}

/// Looked at as one stream of samples in order of time, the history of a delay term
/// stands directly before what has been decoded: the prediction is the sample that
/// the term counts back to.
pub proof fn law_delay_looks_back(term: i32, hist: Seq<i32>, out: Seq<i32>)
    requires
        1 <= term <= 8,
        hist.len() == 8,
    ensures
        ({
            let stream = hist.take(term as int) + out;
            decorrelation::prediction(term, hist, out) == stream[stream.len() - term]
        }),
{
}

/// Term 17 goes on along a straight line: the step to the prediction is the step
/// before it. The history of this term and the next is newest first.
pub proof fn law_line_goes_on(hist: Seq<i32>, out: Seq<i32>)
    requires
        hist.len() == 8,
    ensures
        ({
            let stream = seq![hist[1], hist[0]] + out;
            let a = stream[stream.len() - 2];
            let b = stream[stream.len() - 1];
            ((decorrelation::prediction(17, hist, out) - b) - (b - a)) % 0x1_0000_0000 == 0
        }),
{
}

/// Term 18 goes on along a line of half the slope: the step to the prediction is half
/// the step before it, rounded down.
pub proof fn law_half_line_goes_on(hist: Seq<i32>, out: Seq<i32>)
    requires
        hist.len() == 8,
    ensures
        ({
            let stream = seq![hist[1], hist[0]] + out;
            let a = stream[stream.len() - 2];
            let b = stream[stream.len() - 1];
            (decorrelation::prediction(18, hist, out) - b - (b - a) / 2) % 0x1_0000_0000 == 0
        }),
{
    let stream = seq![hist[1], hist[0]] + out;
    let a = stream[stream.len() - 2] as int;
    let b = stream[stream.len() - 1] as int;
    assert((3 * b - a) / 2 == b + (b - a) / 2);
}

/// Every other term predicts nothing in a single channel.
pub proof fn law_no_other_prediction(term: i32, hist: Seq<i32>, out: Seq<i32>)
    requires
        term < 1 || 8 < term < 17 || 18 < term,
    ensures
        decorrelation::prediction(term, hist, out) == 0,
{
}

/// The last `n` samples of a stream in order of time.
pub open spec fn last_samples(out: Seq<i32>, n: int) -> Seq<i32> {
    out.skip(out.len() - n)
}

/// History stands for the samples before a block: with the last samples before it in
/// order of time as the history of a delay term, a block alone is decoded as it is
/// when it is decoded in one stretch with what was before it.
pub proof fn law_delay_history_stands_for_the_past(
    term: i32,
    delta: i32,
    weight: i32,
    first: Seq<i32>,
    hist: Seq<i32>,
    a: Seq<i32>,
    b: Seq<i32>,
)
    requires
        1 <= term <= 8,
        first.len() == 8,
        hist.len() == 8,
        a.len() >= term,
        hist.take(term as int) == last_samples(
            decorrelation::decode_channel(term, delta, weight, first, a).out,
            term as int,
        ),
    ensures
        ({
            let before = decorrelation::decode_channel(term, delta, weight, first, a);
            let alone = decorrelation::decode_channel(term, delta, before.weight, hist, b);
            let whole = decorrelation::decode_channel(term, delta, weight, first, a + b);
            whole.out == before.out + alone.out && whole.weight == alone.weight
        }),
    decreases b.len(),
{
    let before = decorrelation::decode_channel(term, delta, weight, first, a);
    decorrelation::lemma_decode_channel_len(term, delta, weight, first, a);
    let alone = decorrelation::decode_channel(term, delta, before.weight, hist, b);
    let whole = decorrelation::decode_channel(term, delta, weight, first, a + b);
    if b.len() == 0 {
        assert(a + b =~= a);
        assert(whole.out =~= before.out + alone.out);
    } else {
        let b1 = b.drop_last();
        law_delay_history_stands_for_the_past(term, delta, weight, first, hist, a, b1);
        decorrelation::lemma_decode_channel_len(term, delta, before.weight, hist, b1);
        assert((a + b).drop_last() =~= a + b1);
        let out = decorrelation::decode_channel(term, delta, before.weight, hist, b1).out;
        let past = last_samples(before.out, term as int);
        assert(decorrelation::prediction(term, first, before.out + out)
            == decorrelation::prediction(term, hist, out)) by {
            if out.len() < term {
                assert(past[out.len() as int] == hist[out.len() as int]) by {
                    assert(hist.take(term as int)[out.len() as int] == hist[out.len() as int]);
                }
            }
        }
        assert(whole.out =~= before.out + alone.out);
    }
}

/// Each sample is its residual and the scaled prediction from what stands before it,
/// and each weight moves by the residual and the prediction of its own sample.
pub proof fn law_channel_sample(
    term: i32,
    delta: i32,
    weight: i32,
    hist: Seq<i32>,
    residuals: Seq<i32>,
    i: int,
)
    requires
        0 <= i < residuals.len(),
    ensures
        ({
            let all = decorrelation::decode_channel(term, delta, weight, hist, residuals);
            let done = decorrelation::decode_channel(term, delta, weight, hist, residuals.take(i));
            let next = decorrelation::decode_channel(
                term,
                delta,
                weight,
                hist,
                residuals.take(i + 1),
            );
            let guess = decorrelation::prediction(term, hist, all.out.take(i));
            &&& all.out.len() == residuals.len()
            &&& done.out == all.out.take(i)
            &&& (all.out[i] - residuals[i] - decorrelation::weighted(done.weight, guess))
                % 0x1_0000_0000 == 0
            &&& next.weight == decorrelation::adapted(done.weight, delta, residuals[i], guess)
            &&& i == 0 ==> done.weight == weight
            &&& i + 1 == residuals.len() ==> next == all
        }),
    decreases residuals.len(),
{
    let all = decorrelation::decode_channel(term, delta, weight, hist, residuals);
    let last = residuals.len() - 1;
    decorrelation::lemma_decode_channel_len(term, delta, weight, hist, residuals);
    decorrelation::lemma_decode_channel_len(term, delta, weight, hist, residuals.drop_last());
    let before = decorrelation::decode_channel(term, delta, weight, hist, residuals.drop_last());
    assert(residuals.take(residuals.len() as int) =~= residuals);
    if i == last {
        assert(residuals.take(i) =~= residuals.drop_last());
        assert(all.out.take(i) =~= before.out);
    } else {
        law_channel_sample(term, delta, weight, hist, residuals.drop_last(), i);
        assert(residuals.drop_last().take(i) =~= residuals.take(i));
        assert(residuals.drop_last().take(i + 1) =~= residuals.take(i + 1));
        assert(before.out.take(i) =~= all.out.take(i));
        assert(all.out[i] == before.out[i]);
    }
}

/// Nothing is decoded from nothing, and the weight stays.
pub proof fn law_channel_start(term: i32, delta: i32, weight: i32, hist: Seq<i32>)
    ensures
        decorrelation::decode_channel(term, delta, weight, hist, Seq::empty()) == (ChannelRun {
            weight,
            out: Seq::empty(),
        }),
{
}

/// A pass on one channel uses the weight and the history of that channel and leaves
/// the other alone; it keeps its last samples, up to eight, the newest first.
pub proof fn law_channel_of_a_pass(p: PassModel, ch: int, residuals: Seq<i32>)
    requires
        p.wf(),
        0 <= ch < 2,
    ensures
        ({
            let run = decorrelation::decode_channel(
                p.term,
                p.delta,
                p.weights[ch],
                p.history[ch],
                residuals,
            );
            let q = decorrelation::after_channel(p, ch, residuals);
            let n = run.out.len() as int;
            &&& decorrelation::channel_run(p, ch, residuals) == run
            &&& q.wf()
            &&& q.term == p.term && q.delta == p.delta
            &&& q.weights[ch] == run.weight && q.weights[1 - ch] == p.weights[1 - ch]
            &&& q.history[1 - ch] == p.history[1 - ch]
            &&& forall|s: int|
                0 <= s < 8 && s < n ==> #[trigger] q.history[ch][s] == run.out[n - 1 - s]
            &&& forall|s: int|
                0 <= s < 8 && n <= s ==> #[trigger] q.history[ch][s] == p.history[ch][s]
        }),
{
}

/// Cross-channel decoding in order of time. Under term -1, A is predicted from the
/// sample of B before it, and B from the sample of A beside it; under term -2, A and B
/// change places; under term -3, each is predicted from the sample of the other before
/// it. Where nothing is before it, a channel that looks back uses its own history.
pub proof fn law_cross_sample(p: PassModel, a: Seq<i32>, b: Seq<i32>, i: int)
    requires
        -3 <= p.term <= -1,
        a.len() == b.len(),
        0 <= i < a.len(),
    ensures
        ({
            let all = decorrelation::cross_run(p, a, b);
            let done = decorrelation::cross_run(p, a.take(i), b.take(i));
            let next = decorrelation::cross_run(p, a.take(i + 1), b.take(i + 1));
            let before_a = if i == 0 {
                p.history[0][0]
            } else {
                all.b[i - 1]
            };
            let before_b = if i == 0 {
                p.history[1][0]
            } else {
                all.a[i - 1]
            };
            let from_a = if p.term == -2 {
                all.b[i]
            } else {
                before_a
            };
            let from_b = if p.term == -1 {
                all.a[i]
            } else {
                before_b
            };
            &&& all.a.len() == a.len() && all.b.len() == b.len()
            &&& (all.a[i] - a[i] - decorrelation::weighted(done.weight_a, from_a)) % 0x1_0000_0000
                == 0
            &&& (all.b[i] - b[i] - decorrelation::weighted(done.weight_b, from_b)) % 0x1_0000_0000
                == 0
            &&& next.weight_a == decorrelation::adapted_clip(
                done.weight_a,
                p.delta,
                from_a,
                a[i],
            )
            &&& next.weight_b == decorrelation::adapted_clip(
                done.weight_b,
                p.delta,
                from_b,
                b[i],
            )
            &&& i == 0 ==> done.weight_a == p.weights[0] && done.weight_b == p.weights[1]
            &&& i + 1 == a.len() ==> next == all
        }),
{
    let (ai, bi) = (a.take(i + 1), b.take(i + 1));
    let all = decorrelation::cross_run(p, a, b);
    let next = decorrelation::cross_run(p, ai, bi);
    lemma_cross_prefix(p, a, b, i + 1);
    lemma_cross_last(p, ai, bi);
    assert(ai.drop_last() =~= a.take(i));
    assert(bi.drop_last() =~= b.take(i));
    assert(next.a[i] == all.a[i] && next.b[i] == all.b[i]);
    if i > 0 {
        assert(next.a[i - 1] == all.a[i - 1] && next.b[i - 1] == all.b[i - 1]);
    }
    if i + 1 == a.len() {
        assert(ai =~= a);
        assert(bi =~= b);
    }
    let done = decorrelation::cross_run(p, a.take(i), b.take(i));
    let from_a = if p.term == -2 {
        all.b[i]
    } else if i == 0 {
        p.history[0][0]
    } else {
        all.b[i - 1]
    };
    let from_b = if p.term == -1 {
        all.a[i]
    } else if i == 0 {
        p.history[1][0]
    } else {
        all.a[i - 1]
    };
    lemma_wrapped_sum(
        all.a[i],
        a[i] as int,
        decorrelation::weighted(done.weight_a, from_a) as int,
    );
    lemma_wrapped_sum(
        all.b[i],
        b[i] as int,
        decorrelation::weighted(done.weight_b, from_b) as int,
    );
}

/// The first samples depend on the first residuals alone.
proof fn lemma_cross_prefix(p: PassModel, a: Seq<i32>, b: Seq<i32>, k: int)
    requires
        a.len() == b.len(),
        0 <= k <= a.len(),
    ensures
        ({
            let all = decorrelation::cross_run(p, a, b);
            let part = decorrelation::cross_run(p, a.take(k), b.take(k));
            &&& all.a.len() == a.len() && all.b.len() == b.len()
            &&& part.a == all.a.take(k) && part.b == all.b.take(k)
        }),
    decreases a.len(),
{
    let all = decorrelation::cross_run(p, a, b);
    if a.len() == 0 {
        assert(a.take(k) =~= a);
        assert(b.take(k) =~= b);
        assert(all.a.take(k) =~= all.a);
        assert(all.b.take(k) =~= all.b);
    } else {
        let (a1, b1) = (a.drop_last(), b.drop_last());
        let before = decorrelation::cross_run(p, a1, b1);
        lemma_cross_prefix(p, a1, b1, a1.len() as int);
        if k == a.len() {
            assert(a.take(k) =~= a);
            assert(b.take(k) =~= b);
            assert(all.a.take(k) =~= all.a);
            assert(all.b.take(k) =~= all.b);
        } else {
            lemma_cross_prefix(p, a1, b1, k);
            assert(a1.take(k) =~= a.take(k));
            assert(b1.take(k) =~= b.take(k));
            assert(before.a.take(k) =~= all.a.take(k));
            assert(before.b.take(k) =~= all.b.take(k));
        }
    }
}

/// The last pair of samples.
proof fn lemma_cross_last(p: PassModel, a: Seq<i32>, b: Seq<i32>)
    requires
        -3 <= p.term <= -1,
        a.len() == b.len(),
        a.len() > 0,
    ensures
        ({
            let i = a.len() - 1;
            let next = decorrelation::cross_run(p, a, b);
            let done = decorrelation::cross_run(p, a.drop_last(), b.drop_last());
            let from_a = if p.term == -2 {
                next.b[i]
            } else if i == 0 {
                p.history[0][0]
            } else {
                next.b[i - 1]
            };
            let from_b = if p.term == -1 {
                next.a[i]
            } else if i == 0 {
                p.history[1][0]
            } else {
                next.a[i - 1]
            };
            &&& next.a[i] == arith::wrap_i32(a[i] + decorrelation::weighted(done.weight_a, from_a))
            &&& next.b[i] == arith::wrap_i32(b[i] + decorrelation::weighted(done.weight_b, from_b))
            &&& next.weight_a == decorrelation::adapted_clip(
                done.weight_a,
                p.delta,
                from_a,
                a[i],
            )
            &&& next.weight_b == decorrelation::adapted_clip(
                done.weight_b,
                p.delta,
                from_b,
                b[i],
            )
            &&& i == 0 ==> done.weight_a == p.weights[0] && done.weight_b == p.weights[1]
        }),
{
    let i = a.len() - 1;
    let done = decorrelation::cross_run(p, a.drop_last(), b.drop_last());
    lemma_cross_sources(p, a.drop_last(), b.drop_last());
    let next = decorrelation::cross_run(p, a, b);
    let sa = done.sample_a(p.term, a.last(), b.last());
    let sb = done.sample_b(p.term, a.last(), b.last());
    assert(next.a == done.a.push(sa) && next.b == done.b.push(sb));
    assert(next.a[i] == sa && next.b[i] == sb);
    if i > 0 {
        assert(next.a[i - 1] == done.a.last() && next.b[i - 1] == done.b.last());
    }
    if p.term == -1 {
        assert(sa == arith::wrap_i32(
            a[i] + decorrelation::weighted(done.weight_a, done.source_a),
        ));
        assert(sb == arith::wrap_i32(b[i] + decorrelation::weighted(done.weight_b, sa)));
    } else if p.term == -2 {
        assert(sb == arith::wrap_i32(
            b[i] + decorrelation::weighted(done.weight_b, done.source_b),
        ));
        assert(sa == arith::wrap_i32(a[i] + decorrelation::weighted(done.weight_a, sb)));
    } else {
        assert(sa == arith::wrap_i32(
            a[i] + decorrelation::weighted(done.weight_a, done.source_a),
        ));
        assert(sb == arith::wrap_i32(
            b[i] + decorrelation::weighted(done.weight_b, done.source_b),
        ));
    }
}

/// A wrapped sum differs from its summands by a multiple of 2^32.
proof fn lemma_wrapped_sum(r: i32, x: int, y: int)
    requires
        r == arith::wrap_i32(x + y),
    ensures
        (r - x - y) % 0x1_0000_0000 == 0,
{
}

/// The sources of a cross-channel filter are the last samples of the other channel.
proof fn lemma_cross_sources(p: PassModel, a: Seq<i32>, b: Seq<i32>)
    requires
        -3 <= p.term <= -1,
        a.len() == b.len(),
    ensures
        ({
            let run = decorrelation::cross_run(p, a, b);
            &&& run.a.len() == a.len() && run.b.len() == b.len()
            &&& p.term != -2 ==> run.source_a == if a.len() == 0 {
                p.history[0][0]
            } else {
                run.b.last()
            }
            &&& p.term != -1 ==> run.source_b == if a.len() == 0 {
                p.history[1][0]
            } else {
                run.a.last()
            }
            &&& p.term == -2 ==> run.source_a == p.history[0][0]
            &&& p.term == -1 ==> run.source_b == p.history[1][0]
        }),
    decreases a.len(),
{
    if a.len() > 0 {
        lemma_cross_sources(p, a.drop_last(), b.drop_last());
    }
}

/// A cross-channel pass keeps its last weights and, for each channel that looks back,
/// the last sample of the other; nothing else of it changes.
pub proof fn law_cross_of_a_pass(p: PassModel, a: Seq<i32>, b: Seq<i32>)
    requires
        p.wf(),
        -3 <= p.term <= -1,
        a.len() == b.len(),
        a.len() > 0,
    ensures
        ({
            let run = decorrelation::cross_run(p, a, b);
            let q = decorrelation::after_cross(p, a, b);
            &&& q.wf()
            &&& q.term == p.term && q.delta == p.delta
            &&& q.weights[0] == run.weight_a && q.weights[1] == run.weight_b
            &&& q.history[0][0] == if p.term == -2 {
                p.history[0][0]
            } else {
                run.b.last()
            }
            &&& q.history[1][0] == if p.term == -1 {
                p.history[1][0]
            } else {
                run.a.last()
            }
            &&& forall|ch: int, s: int|
                0 <= ch < 2 && 0 < s < 8 ==> #[trigger] q.history[ch][s] == p.history[ch][s]
        }),
{
    lemma_cross_sources(p, a, b);
}

/// A pass filters the one channel of a mono block, both channels of a stereo block
/// each by itself, or, for a cross-channel term, both together.
pub proof fn law_pass_on_a_block(p: PassModel, a: Seq<i32>, b: Seq<i32>)
    requires
        p.wf(),
    ensures
        decorrelation::decode_pass(p, seq![a], true).out == seq![
            decorrelation::channel_run(p, 0, a).out,
        ],
        decorrelation::decode_pass(p, seq![a], true).pass == decorrelation::after_channel(p, 0, a),
        p.term < -3 || -1 < p.term ==> decorrelation::decode_pass(p, seq![a, b], false).out
            == seq![
            decorrelation::channel_run(p, 0, a).out,
            decorrelation::channel_run(p, 1, b).out,
        ],
        p.term < -3 || -1 < p.term ==> ({
            let q = decorrelation::decode_pass(p, seq![a, b], false).pass;
            &&& q.weights[0] == decorrelation::after_channel(p, 0, a).weights[0]
            &&& q.weights[1] == decorrelation::after_channel(p, 1, b).weights[1]
            &&& q.history[0] == decorrelation::after_channel(p, 0, a).history[0]
            &&& q.history[1] == decorrelation::after_channel(p, 1, b).history[1]
            &&& q.term == p.term && q.delta == p.delta
        }),
        -3 <= p.term <= -1 ==> decorrelation::decode_pass(p, seq![a, b], false).out == seq![
            decorrelation::cross_run(p, a, b).a,
            decorrelation::cross_run(p, a, b).b,
        ],
        -3 <= p.term <= -1 ==> decorrelation::decode_pass(p, seq![a, b], false).pass
            == decorrelation::after_cross(p, a, b),
{
}

/// No pass changes nothing, and a row of one pass is that pass.
pub proof fn law_rows_of_passes(p: PassModel, x: Seq<Seq<i32>>, is_mono: bool)
    ensures
        decorrelation::decode_passes(Seq::empty(), x, is_mono).out == x,
        decorrelation::decode_passes(seq![p], x, is_mono).out == decorrelation::decode_pass(
            p,
            x,
            is_mono,
        ).out,
        decorrelation::decode_passes(seq![p], x, is_mono).passes == seq![
            decorrelation::decode_pass(p, x, is_mono).pass,
        ],
{
    reveal_with_fuel(decorrelation::decode_passes, 2);
    let run = decorrelation::decode_passes(seq![p], x, is_mono);
    assert(seq![p].drop_last() =~= Seq::empty());
    assert(run.passes =~= seq![decorrelation::decode_pass(p, x, is_mono).pass]);
}

/// A block that is rewritten has the new samples where they were put and the old ones
/// everywhere else; the samples that go in are the first ones of the first channels.
pub proof fn law_rewritten(
    before: Seq<Vec<i32>>,
    after: Seq<Vec<i32>>,
    out: Seq<Seq<i32>>,
    n: int,
    c: int,
    i: int,
)
    requires
        decorrelation::rewritten(before, after, out, n),
        0 <= c < before.len(),
        0 <= n <= before[c]@.len(),
        c < out.len() ==> out[c].len() == n,
        0 <= i < before[c]@.len(),
    ensures
        after.len() == before.len(),
        after[c]@.len() == before[c]@.len(),
        after[c]@[i] == if c < out.len() && i < n {
            out[c][i]
        } else {
            before[c]@[i]
        },
        i < n ==> decorrelation::heads(before, n, before.len() as int)[c][i] == before[c]@[i],
        decorrelation::heads(before, n, before.len() as int)[c].len() == n,
{
    assert(after[c]@ == after[c]@);
}

/// A block of audio has one channel or two, each with all its samples.
pub proof fn law_block_shape(x: Seq<Seq<i32>>, n: nat, is_mono: bool)
    requires
        decorrelation::is_block(x, n, is_mono),
    ensures
        is_mono ==> x.len() == 1,
        !is_mono ==> x.len() == 2,
        forall|c: int| 0 <= c < x.len() ==> (#[trigger] x[c]).len() == n,
{
}

/// Out of joint stereo, the channels differ by what was stored as their difference,
/// and the right channel is half of it below what was stored beside it.
pub proof fn law_joint_stereo(diff: i32, side: i32)
    ensures
        ({
            let (l, r) = decorrelation::from_joint(diff, side);
            &&& (l - r - diff) % 0x1_0000_0000 == 0
            &&& (r + diff as int / 2 - side) % 0x1_0000_0000 == 0
        }),
{
}

/// A clamped weight over the whole range: the sum or the difference wraps before it is
/// clamped.
pub proof fn law_clamped_weight_wraps(weight: i32, delta: i32, source: i32, result: i32)
    ensures
        ({
            let moved = decorrelation::adapted_clip(weight, delta, source, result);
            &&& source * result > 0 ==> moved == least(
                arith::wrap_i32(weight + delta) as int,
                1024,
            )
            &&& source * result < 0 ==> (moved + least(
                arith::wrap_i32(delta - weight) as int,
                1024,
            )) % 0x1_0000_0000 == 0
        }),
{
    lemma_product_sign(source as int, result as int);
}

/// A new pass has its term and its delta, two weights of zero and two histories of eight
/// zeros.
pub proof fn law_new_pass(term: i32, delta: i32, ch: int, s: int)
    requires
        0 <= ch < 2,
        0 <= s < 8,
    ensures
        ({
            let p = PassModel::fresh(term, delta);
            &&& p.wf()
            &&& p.term == term && p.delta == delta
            &&& p.weights[ch] == 0
            &&& p.history[ch][s] == 0
        }),
{
}

/// The first samples of the first channels are those samples.
pub proof fn law_heads(samples: Seq<Vec<i32>>, n: int, count: int, c: int, i: int)
    requires
        decorrelation::holds(samples, n, count),
        0 <= c < count,
        0 <= i < n,
    ensures
        decorrelation::heads(samples, n, count).len() == count,
        decorrelation::heads(samples, n, count)[c].len() == n,
        decorrelation::heads(samples, n, count)[c][i] == samples[c]@[i],
        count <= samples.len() && n <= samples[c]@.len(),
{
    assert(n <= samples[c]@.len());
}
} // verus!
