//! Decorrelation passes.
//!
//! An encoder runs the samples through adaptive prediction filters and keeps only
//! what they failed to predict. The decoder runs the same filters backwards, last
//! pass first. Both sides adapt the filter weights by the same rule, so that the
//! decoder sees the weights that the encoder used.
use crate::arith;
use crate::entropy;
use vstd::arithmetic::div_mod::*;
use vstd::prelude::*;

verus! {

/// The mathematical value of a pass.
#[verifier::ext_equal]
pub struct PassModel {
    pub term: i32,
    pub delta: i32,
    pub weights: Seq<i32>,
    pub history: Seq<Seq<i32>>,
}

/// A single decorrelation pass with its parameters.
///
/// WavPack applies multiple LMS-like decorrelation passes during encoding.
/// The decoder reverses them in opposite order.
#[derive(Debug, Clone)]
pub struct DecorrPass {
    /// Decorrelation term (1-8: delay, 17: linear extrap, 18: weighted extrap,
    /// -1/-2/-3: cross-channel).
    pub term: i32,
    /// Weight update delta (controls adaptation speed).
    pub delta: i32,
    /// Adaptive filter weights (1 for mono, 2 for stereo).
    pub weights: [i32; 2],
    /// History samples buffer for each channel.
    /// For terms 1-8: circular buffer of `term` previous samples.
    /// For terms 17/18: last 2 samples.
    /// For terms -1/-2/-3: last sample of each channel.
    pub samples: [[i32; 8]; 2],
}

impl View for DecorrPass {
    type V = PassModel;

    open spec fn view(&self) -> PassModel {
        PassModel {
            term: self.term,
            delta: self.delta,
            weights: self.weights@,
            history: Seq::new(2, |ch: int| self.samples@[ch]@),
        }
    }
}

/// The values of a row of passes.
pub open spec fn models(passes: Seq<DecorrPass>) -> Seq<PassModel> {
    passes.map_values(|p: DecorrPass| p@)
}

impl PassModel {
    /// A pass that has not adapted and has seen only silence.
    pub open spec fn fresh(term: i32, delta: i32) -> PassModel {
        PassModel {
            term,
            delta,
            weights: seq![0i32, 0i32],
            history: Seq::new(2, |ch: int| Seq::new(8, |s: int| 0i32)),
        }
    }

    /// Room for two channels.
    pub open spec fn wf(self) -> bool {
        &&& self.weights.len() == 2
        &&& self.history.len() == 2
        &&& self.history[0].len() == 8
        &&& self.history[1].len() == 8
    }
}

impl DecorrPass {
    /// A pass without weights or history.
    pub fn new(term: i32, delta: i32) -> (p: Self)
        ensures
            p@ == PassModel::fresh(term, delta),
    {
        let p: DecorrPass = Self { term, delta, weights: [0; 2], samples: [[0; 8]; 2] };
        assert(p@.weights =~= seq![0i32, 0i32]);
        assert(p@.history =~~= PassModel::fresh(term, delta).history);
        p
    }
}

/// A sample scaled by a weight in 1024ths, rounded to the nearest integer.
pub open spec fn weighted(weight: i32, sample: i32) -> i32 {
    arith::wrap_i32((weight * sample + 512) / 1024)
}

/// Apply weight to prediction: `(weight * sample + 512) >> 10`.
pub fn apply_weight(weight: i32, sample: i32) -> (r: i32)
    ensures
        r == weighted(weight, sample),
{
    assert(-0x4000_0000_0000_0000 <= weight * sample <= 0x4000_0000_0000_0000)
        by (nonlinear_arith)
        requires
            -0x8000_0000 <= weight <= 0x7fff_ffff,
            -0x8000_0000 <= sample <= 0x7fff_ffff,
    ;
    let x: i64 = weight as i64 * sample as i64 + 512;
    assert(x >> 10 == x / 1024) by (bit_vector);
    arith::low_i32(x >> 10)
}

/// A sample can be scaled in two halves, the upper and the lower 16 bits: the
/// result is the same for every weight and every sample.
pub proof fn lemma_weighted_by_halves(weight: i32, sample: i32)
    ensures
        ({
            let low = sample as int % 0x1_0000;
            let high = sample as int / 0x1_0000;
            weighted(weight, sample) == arith::wrap_i32(
                ((low * weight) / 512 + high * weight * 128 + 1) / 2,
            )
        }),
{
    let low = sample as int % 0x1_0000;
    let high = sample as int / 0x1_0000;
    let x = weight * sample;
    assert(x == low * weight + 512 * (high * weight * 128)) by (nonlinear_arith)
        requires
            sample == low + 0x1_0000 * high,
            x == weight * sample,
    ;
    lemma_div_multiples_vanish_fancy(high * weight * 128, (low * weight) % 512, 512);
    assert(x / 512 == (low * weight) / 512 + high * weight * 128);
}

/// Two nonzero words point the same way.
pub open spec fn same_sign(x: i32, y: i32) -> bool {
    (x < 0) == (y < 0)
}

/// The weight after one step of the sign rule: towards the prediction where it
/// and the residual agree in sign, away from it where they differ.
pub open spec fn adapted(weight: i32, delta: i32, residual: i32, prediction: i32) -> i32 {
    if residual == 0 || prediction == 0 {
        weight
    } else if same_sign(residual, prediction) {
        arith::wrap_i32(weight + delta)
    } else {
        arith::wrap_i32(weight - delta)
    }
}

/// Update a decorrelation weight using the LMS-like rule.
///
/// `w += delta * sgn(prediction) * sgn(residual)`; the weight is not clamped.
pub fn update_weight(weight: &mut i32, delta: i32, residual: i32, prediction: i32)
    ensures
        *final(weight) == adapted(*old(weight), delta, residual, prediction),
{
    if residual != 0 && prediction != 0 {
        if (residual < 0) == (prediction < 0) {
            *weight = arith::add_i32(*weight, delta);
        } else {
            *weight = arith::sub_i32(*weight, delta);
        }
    }
}

/// The lesser of a word and 1024.
pub open spec fn at_most_1024(w: i32) -> i32 {
    if w > 1024 {
        1024
    } else {
        w
    }
}

/// The weight after one step of the sign rule, kept from leaving the range
/// -1024..=1024 on the side to which it moves.
pub open spec fn adapted_clip(weight: i32, delta: i32, source: i32, result: i32) -> i32 {
    if source == 0 || result == 0 {
        weight
    } else if same_sign(source, result) {
        at_most_1024(arith::wrap_i32(weight + delta))
    } else {
        arith::wrap_i32(-at_most_1024(arith::wrap_i32(delta - weight)))
    }
}

/// Update a decorrelation weight with clamping to ±1024.
///
/// Used for cross-channel terms (-1, -2, -3). Same sign logic as `update_weight`
/// but clamps the result.
pub fn update_weight_clip(weight: &mut i32, delta: i32, source: i32, result: i32)
    ensures
        *final(weight) == adapted_clip(*old(weight), delta, source, result),
{
    if source != 0 && result != 0 {
        if (source < 0) == (result < 0) {
            let w: i32 = arith::add_i32(*weight, delta);
            *weight = if w > 1024 { 1024 } else { w };
        } else {
            let w: i32 = arith::sub_i32(delta, *weight);
            let w: i32 = if w > 1024 { 1024 } else { w };
            *weight = arith::sub_i32(0, w);
        }
    }
}

/// A clamped update is the sign rule followed by a clamp to -1024..=1024, for
/// every weight that is in that range and every step that is not negative: so a
/// weight that starts in the range never leaves it.
pub proof fn lemma_clip_stays_in_range(weight: i32, delta: i32, source: i32, result: i32)
    requires
        -1024 <= weight <= 1024,
        0 <= delta <= i32::MAX - 1024,
    ensures
        ({
            let w = adapted(weight, delta, source, result);
            adapted_clip(weight, delta, source, result) == if w > 1024 {
                1024
            } else if w < -1024 {
                -1024i32
            } else {
                w
            }
        }),
        -1024 <= adapted_clip(weight, delta, source, result) <= 1024,
{
}

/// The sample `k` places before the next one, where `out` is what has been
/// decoded and `hist` holds what went before it, newest first.
pub open spec fn recent(hist: Seq<i32>, out: Seq<i32>, k: int) -> i32 {
    if out.len() >= k {
        out[out.len() - k]
    } else {
        hist[k - 1 - out.len()]
    }
}

/// What a term predicts for the sample behind `out`. Terms 1 to 8 repeat the
/// sample that far back (their history is kept oldest first), term 17 continues
/// the line through the last two samples, term 18 does so at half the slope.
pub open spec fn prediction(term: i32, hist: Seq<i32>, out: Seq<i32>) -> i32 {
    if 1 <= term <= 8 {
        if out.len() >= term {
            out[out.len() - term]
        } else {
            hist[out.len() as int]
        }
    } else if term == 17 {
        arith::wrap_i32(2 * recent(hist, out, 1) - recent(hist, out, 2))
    } else if term == 18 {
        arith::wrap_i32((3 * recent(hist, out, 1) - recent(hist, out, 2)) / 2)
    } else {
        0
    }
}

/// A filter on one channel: its weight, and what has come out of it.
#[verifier::ext_equal]
pub struct ChannelRun {
    pub weight: i32,
    pub out: Seq<i32>,
}

/// Decodes the residuals of one channel.
pub open spec fn decode_channel(
    term: i32,
    delta: i32,
    weight: i32,
    hist: Seq<i32>,
    residuals: Seq<i32>,
) -> ChannelRun
    decreases residuals.len(),
{
    if residuals.len() == 0 {
        ChannelRun { weight, out: Seq::empty() }
    } else {
        let done = decode_channel(term, delta, weight, hist, residuals.drop_last());
        let residual = residuals.last();
        let guess = prediction(term, hist, done.out);
        ChannelRun {
            weight: adapted(done.weight, delta, residual, guess),
            out: done.out.push(arith::wrap_i32(residual + weighted(done.weight, guess))),
        }
    }
}

/// Encodes the samples of one channel: what the filter did not predict.
pub open spec fn encode_channel(
    term: i32,
    delta: i32,
    weight: i32,
    hist: Seq<i32>,
    samples: Seq<i32>,
) -> ChannelRun
    decreases samples.len(),
{
    if samples.len() == 0 {
        ChannelRun { weight, out: Seq::empty() }
    } else {
        let done = encode_channel(term, delta, weight, hist, samples.drop_last());
        let guess = prediction(term, hist, samples.drop_last());
        let residual = arith::wrap_i32(samples.last() - weighted(done.weight, guess));
        ChannelRun {
            weight: adapted(done.weight, delta, residual, guess),
            out: done.out.push(residual),
        }
    }
}

/// Decoding gives back what was encoded, and ends with the encoder's weight.
pub proof fn lemma_channel_lossless(
    term: i32,
    delta: i32,
    weight: i32,
    hist: Seq<i32>,
    samples: Seq<i32>,
)
    ensures
        ({
            let coded = encode_channel(term, delta, weight, hist, samples);
            &&& coded.out.len() == samples.len()
            &&& decode_channel(term, delta, weight, hist, coded.out) == (ChannelRun {
                weight: coded.weight,
                out: samples,
            })
        }),
    decreases samples.len(),
{
    let coded = encode_channel(term, delta, weight, hist, samples);
    if samples.len() > 0 {
        let before = samples.drop_last();
        lemma_channel_lossless(term, delta, weight, hist, before);
        let done = encode_channel(term, delta, weight, hist, before);
        assert(coded.out.drop_last() =~= done.out);
        let guess = prediction(term, hist, before);
        arith::lemma_wrap_add_sub(samples.last(), weighted(done.weight, guess) as int);
        assert(before.push(samples.last()) =~= samples);
    } else {
        assert(samples =~= Seq::empty());
    }
}

/// As many samples come out as residuals went in.
pub proof fn lemma_decode_channel_len(
    term: i32,
    delta: i32,
    weight: i32,
    hist: Seq<i32>,
    residuals: Seq<i32>,
)
    ensures
        decode_channel(term, delta, weight, hist, residuals).out.len() == residuals.len(),
    decreases residuals.len(),
{
    if residuals.len() > 0 {
        lemma_decode_channel_len(term, delta, weight, hist, residuals.drop_last());
    }
}

/// The history that a pass keeps: its last samples, at most eight, newest first.
pub open spec fn saved(hist: Seq<i32>, out: Seq<i32>) -> Seq<i32> {
    Seq::new(
        8,
        |s: int|
            if s < out.len() {
                out[out.len() - 1 - s]
            } else {
                hist[s]
            },
    )
}

/// A pass over the residuals of one of its channels.
pub open spec fn channel_run(p: PassModel, ch: int, residuals: Seq<i32>) -> ChannelRun {
    decode_channel(p.term, p.delta, p.weights[ch], p.history[ch], residuals)
}

/// The pass behind that.
pub open spec fn after_channel(p: PassModel, ch: int, residuals: Seq<i32>) -> PassModel {
    let run = channel_run(p, ch, residuals);
    PassModel {
        weights: p.weights.update(ch, run.weight),
        history: p.history.update(ch, saved(p.history[ch], run.out)),
        ..p
    }
}

/// A term whose history serves the block behind it: what a pass saves after `n`
/// samples is what the term looks at next.
pub open spec fn carries_over(term: i32, n: nat) -> bool {
    term == 1 && n >= 1 || (term == 17 || term == 18) && n >= 2
}

/// History carries over: decoding two stretches of residuals one after the other
/// with the same pass is decoding them at once. This holds for the terms that look
/// back one or two samples and a first stretch at least that long.
pub proof fn lemma_history_carries_over(p: PassModel, ch: int, a: Seq<i32>, b: Seq<i32>)
    requires
        p.wf(),
        0 <= ch < 2,
        carries_over(p.term, a.len()),
    ensures
        ({
            let whole = channel_run(p, ch, a + b);
            let next = channel_run(after_channel(p, ch, a), ch, b);
            &&& whole.out == channel_run(p, ch, a).out + next.out
            &&& whole.weight == next.weight
        }),
    decreases b.len(),
{
    let first = channel_run(p, ch, a);
    let q = after_channel(p, ch, a);
    lemma_decode_channel_len(p.term, p.delta, p.weights[ch], p.history[ch], a);
    if b.len() == 0 {
        assert(a + b =~= a);
        assert(first.out + Seq::<i32>::empty() =~= first.out);
    } else {
        let b1 = b.drop_last();
        lemma_history_carries_over(p, ch, a, b1);
        lemma_decode_channel_len(q.term, q.delta, q.weights[ch], q.history[ch], b1);
        assert((a + b).drop_last() =~= a + b1);
        let out = channel_run(q, ch, b1).out;
        assert(prediction(p.term, p.history[ch], first.out + out) == prediction(
            p.term,
            q.history[ch],
            out,
        ));
        let whole = channel_run(p, ch, a + b);
        assert(whole.out =~= first.out + channel_run(q, ch, b).out);
    }
}

/// A pass over no residuals changes nothing.
proof fn lemma_empty_channel(p: PassModel, ch: int, none: Seq<i32>)
    requires
        p.wf(),
        0 <= ch < 2,
        none.len() == 0,
    ensures
        channel_run(p, ch, none).out == Seq::<i32>::empty(),
        after_channel(p, ch, none) == p,
{
    let q = after_channel(p, ch, none);
    assert(q.weights =~= p.weights);
    assert(q.history[ch] =~= p.history[ch]);
    assert(q.history =~= p.history);
}

/// The prediction for sample `i` of a channel, from the samples before it.
fn predict(term: i32, hist: &[i32; 8], samples: &[i32], i: usize) -> (r: i32)
    requires
        i < samples@.len(),
    ensures
        r == prediction(term, hist@, samples@.take(i as int)),
{
    let ghost out = samples@.take(i as int);
    if 1 <= term && term <= 8 {
        let delay: usize = term as usize;
        if i >= delay {
            samples[i - delay]
        } else {
            hist[i]
        }
    } else if term == 17 || term == 18 {
        let s1: i64 = if i >= 1 { samples[i - 1] as i64 } else { hist[0] as i64 };
        let s2: i64 = if i >= 2 {
            samples[i - 2] as i64
        } else if i == 1 {
            hist[0] as i64
        } else {
            hist[1] as i64
        };
        assert(s1 == recent(hist@, out, 1));
        assert(s2 == recent(hist@, out, 2));
        if term == 17 {
            arith::low_i32(2 * s1 - s2)
        } else {
            let x: i64 = 3 * s1 - s2;
            assert(x >> 1 == x / 2) by (bit_vector);
            arith::low_i32(x >> 1)
        }
    } else {
        0
    }
}

/// Apply an independent decorrelation pass to a single channel.
pub fn apply_pass_channel(pass: &mut DecorrPass, ch: usize, samples: &mut [i32], num_samples: usize)
    requires
        num_samples > 0 ==> ch < 2,
        num_samples <= old(samples)@.len(),
    ensures
        num_samples == 0 ==> final(samples)@ == old(samples)@ && final(pass)@ == old(pass)@,
        ch < 2 ==> final(samples)@ == channel_run(
            old(pass)@,
            ch as int,
            old(samples)@.take(num_samples as int),
        ).out + old(samples)@.skip(num_samples as int),
        ch < 2 ==> final(pass)@ == after_channel(
            old(pass)@,
            ch as int,
            old(samples)@.take(num_samples as int),
        ),
{
    if num_samples == 0 {
        proof {
            if ch < 2 {
                lemma_empty_channel(pass@, ch as int, samples@.take(0));
                assert(Seq::<i32>::empty() + samples@.skip(0) =~= samples@);
            }
        }
        return;
    }
    let ghost x = samples@;
    let ghost p0 = pass@;
    for i in 0..num_samples
        invariant
            ch < 2,
            x == old(samples)@,
            p0 == old(pass)@,
            num_samples <= x.len(),
            samples@.len() == x.len(),
            pass.term == p0.term,
            pass.delta == p0.delta,
            pass.samples == old(pass).samples,
            pass.weights@ == p0.weights.update(
                ch as int,
                channel_run(p0, ch as int, x.take(i as int)).weight,
            ),
            samples@.take(i as int) == channel_run(p0, ch as int, x.take(i as int)).out,
            samples@.skip(i as int) == x.skip(i as int),
    {
        let ghost before = samples@;
        let guess: i32 = predict(pass.term, &pass.samples[ch], samples, i);
        let residual: i32 = samples[i];
        let weight: i32 = pass.weights[ch];
        let reconstructed: i32 = arith::add_i32(residual, apply_weight(weight, guess));
        let mut moved: i32 = weight;
        update_weight(&mut moved, pass.delta, residual, guess);
        pass.weights[ch] = moved;
        samples[i] = reconstructed;
        proof {
            assert(x.take(i + 1).drop_last() =~= x.take(i as int));
            assert(residual == before.skip(i as int)[0] == x.skip(i as int)[0]);
            assert(samples@.take(i + 1) =~= before.take(i as int).push(reconstructed));
            assert(samples@.skip(i + 1) =~= before.skip(i as int).skip(1));
            assert(x.skip(i + 1) =~= x.skip(i as int).skip(1));
            assert(p0.history[ch as int] == pass.samples@[ch as int]@);
        }
    }
    let ghost run = channel_run(p0, ch as int, x.take(num_samples as int));
    let ghost out = run.out;
    assert(samples@ =~= samples@.take(num_samples as int) + samples@.skip(num_samples as int));

    // Save history
    let keep: usize = if num_samples < 8 { num_samples } else { 8 };
    for s in 0..keep
        invariant
            ch < 2,
            keep <= 8,
            keep <= num_samples <= samples@.len(),
            samples@.take(num_samples as int) == out,
            pass.term == p0.term,
            pass.delta == p0.delta,
            pass.weights@ == p0.weights.update(ch as int, run.weight),
            p0.history == Seq::new(2, |c: int| old(pass).samples@[c]@),
            forall|c: int| 0 <= c < 2 && c != ch ==> pass.samples@[c] == old(pass).samples@[c],
            forall|k: int|
                0 <= k < 8 ==> #[trigger] pass.samples@[ch as int]@[k] == if k < s {
                    out[num_samples - 1 - k]
                } else {
                    p0.history[ch as int][k]
                },
    {
        assert(out[num_samples - 1 - s] == samples@[num_samples - 1 - s]);
        pass.samples[ch][s] = samples[num_samples - 1 - s];
    }
    proof {
        lemma_decode_channel_len(
            p0.term,
            p0.delta,
            p0.weights[ch as int],
            p0.history[ch as int],
            x.take(num_samples as int),
        );
        assert(pass.samples@[ch as int]@ =~= saved(p0.history[ch as int], out));
        assert(pass@.history =~= p0.history.update(
            ch as int,
            saved(p0.history[ch as int], out),
        ));
    }
}

/// Apply a single decorrelation pass to mono samples.
pub fn apply_pass_mono(pass: &mut DecorrPass, samples: &mut [i32], num_samples: usize)
    requires
        num_samples <= old(samples)@.len(),
    ensures
        final(samples)@ == channel_run(
            old(pass)@,
            0,
            old(samples)@.take(num_samples as int),
        ).out + old(samples)@.skip(num_samples as int),
        final(pass)@ == after_channel(old(pass)@, 0, old(samples)@.take(num_samples as int)),
{
    apply_pass_channel(pass, 0, samples, num_samples);
}

/// A cross-channel filter: the weight of each channel, the sample from which each
/// predicts, and what has come out of it.
#[verifier::ext_equal]
pub struct CrossRun {
    pub weight_a: i32,
    pub weight_b: i32,
    pub source_a: i32,
    pub source_b: i32,
    pub a: Seq<i32>,
    pub b: Seq<i32>,
}

impl CrossRun {
    /// The filter of a pass, before its first sample.
    pub open spec fn start(p: PassModel) -> CrossRun {
        CrossRun {
            weight_a: p.weights[0],
            weight_b: p.weights[1],
            source_a: p.history[0][0],
            source_b: p.history[1][0],
            a: Seq::empty(),
            b: Seq::empty(),
        }
    }

    /// What channel A is predicted from: under term -2 the sample of B at the
    /// same time, else the source that it kept.
    pub open spec fn from_a(self, term: i32, sample_b: i32) -> i32 {
        if term == -2 {
            sample_b
        } else {
            self.source_a
        }
    }

    /// What channel B is predicted from: under term -1 the sample of A at the
    /// same time, else the source that it kept.
    pub open spec fn from_b(self, term: i32, sample_a: i32) -> i32 {
        if term == -1 {
            sample_a
        } else {
            self.source_b
        }
    }

    /// The filter behind a pair of samples with its residuals. A channel that
    /// predicts from the past keeps the other channel's sample as its source.
    pub open spec fn step(
        self,
        term: i32,
        delta: i32,
        sample_a: i32,
        sample_b: i32,
        residual_a: i32,
        residual_b: i32,
    ) -> CrossRun {
        CrossRun {
            weight_a: adapted_clip(
                self.weight_a,
                delta,
                self.from_a(term, sample_b),
                residual_a,
            ),
            weight_b: adapted_clip(
                self.weight_b,
                delta,
                self.from_b(term, sample_a),
                residual_b,
            ),
            source_a: if term == -2 {
                self.source_a
            } else {
                sample_b
            },
            source_b: if term == -1 {
                self.source_b
            } else {
                sample_a
            },
            ..self
        }
    }

    /// The sample of A that a residual stands for.
    pub open spec fn sample_a(self, term: i32, residual_a: i32, residual_b: i32) -> i32 {
        // Under term -2, B comes first, and B does not look at A.
        let sample_b = arith::wrap_i32(residual_b + weighted(self.weight_b, self.source_b));
        arith::wrap_i32(residual_a + weighted(self.weight_a, self.from_a(term, sample_b)))
    }

    /// The sample of B that a residual stands for.
    pub open spec fn sample_b(self, term: i32, residual_a: i32, residual_b: i32) -> i32 {
        // Under term -1, A comes first, and A does not look at B.
        let sample_a = arith::wrap_i32(residual_a + weighted(self.weight_a, self.source_a));
        arith::wrap_i32(residual_b + weighted(self.weight_b, self.from_b(term, sample_a)))
    }
}

/// Decodes the residuals of two channels that predict each other.
pub open spec fn decode_cross(
    term: i32,
    delta: i32,
    start: CrossRun,
    a: Seq<i32>,
    b: Seq<i32>,
) -> CrossRun
    decreases a.len(),
{
    if a.len() == 0 {
        CrossRun { a: Seq::empty(), b: Seq::empty(), ..start }
    } else {
        let done = decode_cross(term, delta, start, a.drop_last(), b.drop_last());
        let (ra, rb) = (a.last(), b.last());
        let (sa, sb) = (done.sample_a(term, ra, rb), done.sample_b(term, ra, rb));
        CrossRun {
            a: done.a.push(sa),
            b: done.b.push(sb),
            ..done.step(term, delta, sa, sb, ra, rb)
        }
    }
}

/// Encodes two channels that predict each other.
pub open spec fn encode_cross(
    term: i32,
    delta: i32,
    start: CrossRun,
    a: Seq<i32>,
    b: Seq<i32>,
) -> CrossRun
    decreases a.len(),
{
    if a.len() == 0 {
        CrossRun { a: Seq::empty(), b: Seq::empty(), ..start }
    } else {
        let done = encode_cross(term, delta, start, a.drop_last(), b.drop_last());
        let (sa, sb) = (a.last(), b.last());
        let ra = arith::wrap_i32(sa - weighted(done.weight_a, done.from_a(term, sb)));
        let rb = arith::wrap_i32(sb - weighted(done.weight_b, done.from_b(term, sa)));
        CrossRun {
            a: done.a.push(ra),
            b: done.b.push(rb),
            ..done.step(term, delta, sa, sb, ra, rb)
        }
    }
}

/// Decoding gives back both channels, and ends with the encoder's weights and
/// sources.
pub proof fn lemma_cross_lossless(
    term: i32,
    delta: i32,
    start: CrossRun,
    a: Seq<i32>,
    b: Seq<i32>,
)
    requires
        a.len() == b.len(),
    ensures
        ({
            let coded = encode_cross(term, delta, start, a, b);
            &&& coded.a.len() == a.len()
            &&& coded.b.len() == b.len()
            &&& decode_cross(term, delta, start, coded.a, coded.b) == (CrossRun { a, b, ..coded })
        }),
    decreases a.len(),
{
    let coded = encode_cross(term, delta, start, a, b);
    if a.len() > 0 {
        lemma_cross_lossless(term, delta, start, a.drop_last(), b.drop_last());
        let done = encode_cross(term, delta, start, a.drop_last(), b.drop_last());
        assert(coded.a.drop_last() =~= done.a);
        assert(coded.b.drop_last() =~= done.b);
        let (sa, sb) = (a.last(), b.last());
        arith::lemma_wrap_add_sub(sa, weighted(done.weight_a, done.from_a(term, sb)) as int);
        arith::lemma_wrap_add_sub(sb, weighted(done.weight_b, done.from_b(term, sa)) as int);
        assert(a.drop_last().push(sa) =~= a);
        assert(b.drop_last().push(sb) =~= b);
    } else {
        assert(a =~= Seq::empty());
        assert(b =~= Seq::empty());
    }
}

/// A cross-channel pass over the residuals of its two channels.
pub open spec fn cross_run(p: PassModel, a: Seq<i32>, b: Seq<i32>) -> CrossRun {
    decode_cross(p.term, p.delta, CrossRun::start(p), a, b)
}

/// The pass behind that.
pub open spec fn after_cross(p: PassModel, a: Seq<i32>, b: Seq<i32>) -> PassModel {
    let run = cross_run(p, a, b);
    PassModel {
        weights: seq![run.weight_a, run.weight_b],
        history: seq![
            p.history[0].update(0, run.source_a),
            p.history[1].update(0, run.source_b),
        ],
        ..p
    }
}

/// History carries over for cross-channel terms: decoding two stretches of
/// residuals one after the other with the same pass is decoding them at once.
pub proof fn lemma_cross_carries_over(
    p: PassModel,
    a: Seq<i32>,
    b: Seq<i32>,
    c: Seq<i32>,
    d: Seq<i32>,
)
    requires
        p.wf(),
        a.len() == b.len(),
        c.len() == d.len(),
    ensures
        ({
            let first = cross_run(p, a, b);
            let next = cross_run(after_cross(p, a, b), c, d);
            cross_run(p, a + c, b + d) == (CrossRun {
                a: first.a + next.a,
                b: first.b + next.b,
                ..next
            })
        }),
    decreases c.len(),
{
    let first = cross_run(p, a, b);
    let q = after_cross(p, a, b);
    let next = cross_run(q, c, d);
    if c.len() == 0 {
        assert(a + c =~= a);
        assert(b + d =~= b);
        assert(first.a + next.a =~= first.a);
        assert(first.b + next.b =~= first.b);
    } else {
        lemma_cross_carries_over(p, a, b, c.drop_last(), d.drop_last());
        assert((a + c).drop_last() =~= a + c.drop_last());
        assert((b + d).drop_last() =~= b + d.drop_last());
        let whole = cross_run(p, a + c, b + d);
        assert(whole.a =~= first.a + next.a);
        assert(whole.b =~= first.b + next.b);
    }
}

/// The term that does to B what a cross-channel term does to A.
pub open spec fn mirrored_term(term: i32) -> i32 {
    if term == -1 {
        -2i32
    } else if term == -2 {
        -1i32
    } else {
        term
    }
}

/// A cross-channel pass with its channels exchanged.
pub open spec fn mirrored(p: PassModel) -> PassModel {
    PassModel {
        term: mirrored_term(p.term),
        weights: seq![p.weights[1], p.weights[0]],
        history: seq![p.history[1], p.history[0]],
        ..p
    }
}

/// A cross-channel filter with its channels exchanged.
pub open spec fn mirrored_run(run: CrossRun) -> CrossRun {
    CrossRun {
        weight_a: run.weight_b,
        weight_b: run.weight_a,
        source_a: run.source_b,
        source_b: run.source_a,
        a: run.b,
        b: run.a,
    }
}

/// Terms -1 and -2 mirror each other, and term -3 is its own mirror image: with the
/// channels exchanged before decoding, the filter and what comes out of it are those
/// with the channels exchanged after it.
pub proof fn lemma_cross_mirror(p: PassModel, a: Seq<i32>, b: Seq<i32>)
    requires
        p.wf(),
        -3 <= p.term <= -1,
        a.len() == b.len(),
    ensures
        cross_run(mirrored(p), b, a) == mirrored_run(cross_run(p, a, b)),
        after_cross(mirrored(p), b, a) == mirrored(after_cross(p, a, b)),
    decreases a.len(),
{
    if a.len() > 0 {
        lemma_cross_mirror(p, a.drop_last(), b.drop_last());
    }
    let one = after_cross(mirrored(p), b, a);
    let other = mirrored(after_cross(p, a, b));
    assert(one.weights =~= other.weights);
    assert(one.history =~= other.history);
}

/// Apply cross-channel decorrelation (terms -1, -2, -3).
///
/// These terms create feedback between channels. Each processes BOTH channels
/// per sample, with the decoded value of one channel feeding into the other.
/// Cross-channel terms use `update_weight_clip` (clamped to ±1024).
pub fn apply_cross_channel(pass: &mut DecorrPass, samples: &mut [Vec<i32>], num_samples: usize)
    requires
        -3 <= old(pass).term <= -1,
        num_samples > 0 ==> old(samples)@.len() >= 2,
        num_samples > 0 ==> num_samples <= old(samples)@[0]@.len(),
        num_samples > 0 ==> num_samples <= old(samples)@[1]@.len(),
    ensures
        num_samples == 0 ==> final(samples)@ == old(samples)@ && final(pass)@ == old(pass)@,
        num_samples > 0 ==> ({
            let n = num_samples as int;
            let (a, b) = (old(samples)@[0]@, old(samples)@[1]@);
            let run = cross_run(old(pass)@, a.take(n), b.take(n));
            &&& final(samples)@.len() == old(samples)@.len()
            &&& final(samples)@[0]@ == run.a + a.skip(n)
            &&& final(samples)@[1]@ == run.b + b.skip(n)
            &&& forall|c: int|
                2 <= c < old(samples)@.len() ==> final(samples)@[c] == old(samples)@[c]
            &&& final(pass)@ == after_cross(old(pass)@, a.take(n), b.take(n))
        }),
{
    if num_samples == 0 {
        return;
    }
    let ghost p0 = pass@;
    let ghost a = samples@[0]@;
    let ghost b = samples@[1]@;
    for i in 0..num_samples
        invariant
            -3 <= pass.term <= -1,
            p0 == old(pass)@,
            pass.term == p0.term,
            pass.delta == p0.delta,
            a == old(samples)@[0]@,
            b == old(samples)@[1]@,
            num_samples <= a.len(),
            num_samples <= b.len(),
            samples@.len() == old(samples)@.len(),
            samples@.len() >= 2,
            samples@[0]@.len() == a.len(),
            samples@[1]@.len() == b.len(),
            forall|c: int| 2 <= c < samples@.len() ==> samples@[c] == old(samples)@[c],
            ({
                let run = cross_run(p0, a.take(i as int), b.take(i as int));
                &&& samples@[0]@.take(i as int) == run.a
                &&& samples@[1]@.take(i as int) == run.b
                &&& pass.weights@ == seq![run.weight_a, run.weight_b]
                &&& pass.samples@[0]@ == p0.history[0].update(0, run.source_a)
                &&& pass.samples@[1]@ == p0.history[1].update(0, run.source_b)
            }),
            samples@[0]@.skip(i as int) == a.skip(i as int),
            samples@[1]@.skip(i as int) == b.skip(i as int),
    {
        let ghost run = cross_run(p0, a.take(i as int), b.take(i as int));
        let ghost a1 = samples@[0]@;
        let ghost b1 = samples@[1]@;
        let residual_a: i32 = samples[0][i];
        let residual_b: i32 = samples[1][i];
        assert(residual_a == a1.skip(i as int)[0] == a.skip(i as int)[0]);
        assert(residual_b == b1.skip(i as int)[0] == b.skip(i as int)[0]);
        let mut weight_a: i32 = pass.weights[0];
        let mut weight_b: i32 = pass.weights[1];
        let mut source_a: i32 = pass.samples[0][0];
        let mut source_b: i32 = pass.samples[1][0];
        let decoded_a: i32;
        let decoded_b: i32;
        if pass.term == -2 {
            // Channel B predicts from saved sample (previous A), then
            // channel A predicts from the just-decoded B.
            decoded_b = arith::add_i32(residual_b, apply_weight(weight_b, source_b));
            source_a = decoded_b;
            decoded_a = arith::add_i32(residual_a, apply_weight(weight_a, source_a));
        } else {
            decoded_a = arith::add_i32(residual_a, apply_weight(weight_a, source_a));
            if pass.term == -1 {
                // Channel B predicts from the just-decoded A.
                source_b = decoded_a;
            }
            decoded_b = arith::add_i32(residual_b, apply_weight(weight_b, source_b));
        }
        assert(decoded_a == run.sample_a(p0.term, residual_a, residual_b));
        assert(decoded_b == run.sample_b(p0.term, residual_a, residual_b));
        update_weight_clip(&mut weight_a, pass.delta, source_a, residual_a);
        update_weight_clip(&mut weight_b, pass.delta, source_b, residual_b);
        pass.weights[0] = weight_a;
        pass.weights[1] = weight_b;
        samples[0][i] = decoded_a;
        samples[1][i] = decoded_b;
        // Cross-save: a channel that predicts from the past gets the other's sample
        if pass.term != -2 {
            pass.samples[0][0] = decoded_b;
        }
        if pass.term != -1 {
            pass.samples[1][0] = decoded_a;
        }
        proof {
            let next = cross_run(p0, a.take(i + 1), b.take(i + 1));
            assert(a.take(i + 1).drop_last() =~= a.take(i as int));
            assert(b.take(i + 1).drop_last() =~= b.take(i as int));
            assert(samples@[0]@.take(i + 1) =~= a1.take(i as int).push(decoded_a));
            assert(samples@[1]@.take(i + 1) =~= b1.take(i as int).push(decoded_b));
            assert(samples@[0]@.skip(i + 1) =~= a1.skip(i as int).skip(1));
            assert(samples@[1]@.skip(i + 1) =~= b1.skip(i as int).skip(1));
            assert(a.skip(i + 1) =~= a.skip(i as int).skip(1));
            assert(b.skip(i + 1) =~= b.skip(i as int).skip(1));
            assert(pass.weights@ =~= seq![next.weight_a, next.weight_b]);
            assert(pass.samples@[0]@ =~= p0.history[0].update(0, next.source_a));
            assert(pass.samples@[1]@ =~= p0.history[1].update(0, next.source_b));
        }
    }
    let ghost n = num_samples as int;
    assert(samples@[0]@ =~= samples@[0]@.take(n) + samples@[0]@.skip(n));
    assert(samples@[1]@ =~= samples@[1]@.take(n) + samples@[1]@.skip(n));
    assert(pass@ =~~= after_cross(p0, a.take(n), b.take(n)));
}

/// A pass, and the channels that have come out of it.
#[verifier::ext_equal]
pub struct PassRun {
    pub pass: PassModel,
    pub out: Seq<Seq<i32>>,
}

/// How many channels a block has.
pub open spec fn channel_count(is_mono: bool) -> int {
    if is_mono {
        1
    } else {
        2
    }
}

/// Decodes a block through one pass.
pub open spec fn decode_pass(p: PassModel, x: Seq<Seq<i32>>, is_mono: bool) -> PassRun {
    if is_mono {
        PassRun { pass: after_channel(p, 0, x[0]), out: seq![channel_run(p, 0, x[0]).out] }
    } else if -3 <= p.term <= -1 {
        let run = cross_run(p, x[0], x[1]);
        PassRun { pass: after_cross(p, x[0], x[1]), out: seq![run.a, run.b] }
    } else {
        PassRun {
            pass: after_channel(after_channel(p, 0, x[0]), 1, x[1]),
            out: seq![channel_run(p, 0, x[0]).out, channel_run(p, 1, x[1]).out],
        }
    }
}

/// Encodes a block through one pass.
pub open spec fn encode_pass(p: PassModel, x: Seq<Seq<i32>>, is_mono: bool) -> Seq<Seq<i32>> {
    if is_mono {
        seq![encode_channel(p.term, p.delta, p.weights[0], p.history[0], x[0]).out]
    } else if -3 <= p.term <= -1 {
        let run = encode_cross(p.term, p.delta, CrossRun::start(p), x[0], x[1]);
        seq![run.a, run.b]
    } else {
        seq![
            encode_channel(p.term, p.delta, p.weights[0], p.history[0], x[0]).out,
            encode_channel(p.term, p.delta, p.weights[1], p.history[1], x[1]).out,
        ]
    }
}

/// A block of `n` samples in each of its channels.
pub open spec fn is_block(x: Seq<Seq<i32>>, n: nat, is_mono: bool) -> bool {
    &&& x.len() == channel_count(is_mono)
    &&& forall|c: int| 0 <= c < x.len() ==> (#[trigger] x[c]).len() == n
}

/// The passes, and the channels that have come out of all of them.
#[verifier::ext_equal]
pub struct Decorrelated {
    pub passes: Seq<PassModel>,
    pub out: Seq<Seq<i32>>,
}

/// Decodes a block through all passes, the last one first.
pub open spec fn decode_passes(
    passes: Seq<PassModel>,
    x: Seq<Seq<i32>>,
    is_mono: bool,
) -> Decorrelated
    decreases passes.len(),
{
    if passes.len() == 0 {
        Decorrelated { passes, out: x }
    } else {
        let run = decode_pass(passes.last(), x, is_mono);
        let rest = decode_passes(passes.drop_last(), run.out, is_mono);
        Decorrelated { passes: rest.passes.push(run.pass), out: rest.out }
    }
}

/// Encodes a block through all passes, the first one first.
pub open spec fn encode_passes(
    passes: Seq<PassModel>,
    x: Seq<Seq<i32>>,
    is_mono: bool,
) -> Seq<Seq<i32>>
    decreases passes.len(),
{
    if passes.len() == 0 {
        x
    } else {
        encode_pass(passes.last(), encode_passes(passes.drop_last(), x, is_mono), is_mono)
    }
}

/// One pass loses nothing: decoding gives back what was encoded.
pub proof fn lemma_pass_lossless(p: PassModel, x: Seq<Seq<i32>>, n: nat, is_mono: bool)
    requires
        is_block(x, n, is_mono),
    ensures
        is_block(encode_pass(p, x, is_mono), n, is_mono),
        decode_pass(p, encode_pass(p, x, is_mono), is_mono).out == x,
{
    let y = encode_pass(p, x, is_mono);
    let z = decode_pass(p, y, is_mono).out;
    if is_mono {
        lemma_channel_lossless(p.term, p.delta, p.weights[0], p.history[0], x[0]);
        assert(z[0] == x[0]);
    } else if -3 <= p.term <= -1 {
        lemma_cross_lossless(p.term, p.delta, CrossRun::start(p), x[0], x[1]);
        assert(z[0] == x[0] && z[1] == x[1]);
    } else {
        lemma_channel_lossless(p.term, p.delta, p.weights[0], p.history[0], x[0]);
        lemma_channel_lossless(p.term, p.delta, p.weights[1], p.history[1], x[1]);
        assert(z[0] == x[0] && z[1] == x[1]);
    }
    assert(z =~= x);
}

/// Decorrelation loses nothing: for every block and every row of passes, decoding
/// with the passes in reverse order gives back what was encoded with them in
/// order.
pub proof fn lemma_decorrelation_lossless(
    passes: Seq<PassModel>,
    x: Seq<Seq<i32>>,
    n: nat,
    is_mono: bool,
)
    requires
        is_block(x, n, is_mono),
    ensures
        is_block(encode_passes(passes, x, is_mono), n, is_mono),
        decode_passes(passes, encode_passes(passes, x, is_mono), is_mono).out == x,
    decreases passes.len(),
{
    if passes.len() > 0 {
        lemma_decorrelation_lossless(passes.drop_last(), x, n, is_mono);
        lemma_pass_lossless(
            passes.last(),
            encode_passes(passes.drop_last(), x, is_mono),
            n,
            is_mono,
        );
    }
}

/// A row of passes can be cut in two: the passes behind the cut run first, and those
/// before it run on what comes out.
pub proof fn lemma_passes_cut(
    p: Seq<PassModel>,
    q: Seq<PassModel>,
    x: Seq<Seq<i32>>,
    is_mono: bool,
)
    ensures
        ({
            let first = decode_passes(q, x, is_mono);
            let second = decode_passes(p, first.out, is_mono);
            decode_passes(p + q, x, is_mono) == (Decorrelated {
                passes: second.passes + first.passes,
                out: second.out,
            })
        }),
    decreases q.len(),
{
    if q.len() == 0 {
        assert(p + q =~= p);
        let run = decode_passes(p, x, is_mono);
        assert(run.passes + q =~= run.passes);
    } else {
        let run = decode_pass(q.last(), x, is_mono);
        assert((p + q).drop_last() =~= p + q.drop_last());
        assert((p + q).last() == q.last());
        lemma_passes_cut(p, q.drop_last(), run.out, is_mono);
        let first = decode_passes(q, x, is_mono);
        let second = decode_passes(p, first.out, is_mono);
        assert(decode_passes(p + q, x, is_mono).passes =~= second.passes + first.passes);
    }
}

/// Decoding adapts weights and history only: no pass is added or lost, and each
/// keeps its term and its delta.
pub proof fn lemma_passes_keep_terms(passes: Seq<PassModel>, x: Seq<Seq<i32>>, is_mono: bool)
    ensures
        ({
            let after = decode_passes(passes, x, is_mono).passes;
            &&& after.len() == passes.len()
            &&& forall|i: int|
                0 <= i < passes.len() ==> (#[trigger] after[i]).term == passes[i].term
                    && after[i].delta == passes[i].delta
        }),
    decreases passes.len(),
{
    if passes.len() > 0 {
        let run = decode_pass(passes.last(), x, is_mono);
        lemma_passes_keep_terms(passes.drop_last(), run.out, is_mono);
    }
}

/// The first `count` channels exist and hold at least `n` samples.
pub open spec fn holds(samples: Seq<Vec<i32>>, n: int, count: int) -> bool {
    &&& count <= samples.len()
    &&& forall|c: int| 0 <= c < count ==> n <= (#[trigger] samples[c])@.len()
}

/// The first `n` samples of the first `count` channels.
pub open spec fn heads(samples: Seq<Vec<i32>>, n: int, count: int) -> Seq<Seq<i32>> {
    Seq::new(count as nat, |c: int| samples[c]@.take(n))
}

/// `after` is `before` with the first `n` samples of its first channels replaced
/// by `out`, and nothing else changed.
pub open spec fn rewritten(
    before: Seq<Vec<i32>>,
    after: Seq<Vec<i32>>,
    out: Seq<Seq<i32>>,
    n: int,
) -> bool {
    &&& after.len() == before.len()
    &&& forall|c: int|
        0 <= c < before.len() ==> (#[trigger] after[c])@ == if c < out.len() {
            out[c] + before[c]@.skip(n)
        } else {
            before[c]@
        }
}

/// As many pairs come out of a cross-channel filter as went in.
proof fn lemma_decode_cross_len(
    term: i32,
    delta: i32,
    start: CrossRun,
    a: Seq<i32>,
    b: Seq<i32>,
)
    requires
        a.len() == b.len(),
    ensures
        decode_cross(term, delta, start, a, b).a.len() == a.len(),
        decode_cross(term, delta, start, a, b).b.len() == b.len(),
    decreases a.len(),
{
    if a.len() > 0 {
        lemma_decode_cross_len(term, delta, start, a.drop_last(), b.drop_last());
    }
}

/// A pass keeps the shape of a block.
pub proof fn lemma_decode_pass_shape(p: PassModel, x: Seq<Seq<i32>>, n: nat, is_mono: bool)
    requires
        is_block(x, n, is_mono),
    ensures
        is_block(decode_pass(p, x, is_mono).out, n, is_mono),
{
    lemma_decode_channel_len(p.term, p.delta, p.weights[0], p.history[0], x[0]);
    if !is_mono {
        lemma_decode_channel_len(p.term, p.delta, p.weights[1], p.history[1], x[1]);
        lemma_decode_cross_len(p.term, p.delta, CrossRun::start(p), x[0], x[1]);
    }
}

/// All passes keep the shape of a block.
pub proof fn lemma_decode_passes_shape(
    passes: Seq<PassModel>,
    x: Seq<Seq<i32>>,
    n: nat,
    is_mono: bool,
)
    requires
        is_block(x, n, is_mono),
    ensures
        is_block(decode_passes(passes, x, is_mono).out, n, is_mono),
    decreases passes.len(),
{
    if passes.len() > 0 {
        lemma_decode_pass_shape(passes.last(), x, n, is_mono);
        let run = decode_pass(passes.last(), x, is_mono);
        lemma_decode_passes_shape(passes.drop_last(), run.out, n, is_mono);
    }
}

/// A pass looks at the channels: always in a mono block, and in a stereo block
/// unless it is a cross-channel pass over no samples.
pub open spec fn looks_at(p: PassModel, n: int, is_mono: bool) -> bool {
    n > 0 || is_mono || !(-3 <= p.term <= -1)
}

/// Apply a single decorrelation pass to stereo samples.
pub fn apply_pass_stereo(pass: &mut DecorrPass, samples: &mut [Vec<i32>], num_samples: usize)
    requires
        looks_at(old(pass)@, num_samples as int, false) ==> holds(
            old(samples)@,
            num_samples as int,
            2,
        ),
    ensures
        num_samples == 0 ==> final(samples)@ == old(samples)@ && final(pass)@ == old(pass)@,
        num_samples > 0 ==> ({
            let run = decode_pass(
                old(pass)@,
                heads(old(samples)@, num_samples as int, 2),
                false,
            );
            &&& final(pass)@ == run.pass
            &&& rewritten(old(samples)@, final(samples)@, run.out, num_samples as int)
        }),
{
    if num_samples == 0 {
        return;
    }
    let ghost x = heads(samples@, num_samples as int, 2);
    assert(samples@[0]@.take(num_samples as int) == x[0]);
    assert(samples@[1]@.take(num_samples as int) == x[1]);
    if -3 <= pass.term && pass.term <= -1 {
        // Cross-channel decorrelation
        apply_cross_channel(pass, samples, num_samples);
    } else {
        // Independent per-channel decorrelation
        apply_pass_channel(pass, 0, &mut samples[0], num_samples);
        apply_pass_channel(pass, 1, &mut samples[1], num_samples);
    }
}

/// The first samples of a rewritten block are those that were written, and to
/// rewrite it again replaces them.
proof fn lemma_rewritten(
    before: Seq<Vec<i32>>,
    mid: Seq<Vec<i32>>,
    y: Seq<Seq<i32>>,
    n: nat,
    is_mono: bool,
)
    requires
        holds(before, n as int, channel_count(is_mono)),
        is_block(y, n, is_mono),
        rewritten(before, mid, y, n as int),
    ensures
        holds(mid, n as int, channel_count(is_mono)),
        heads(mid, n as int, channel_count(is_mono)) == y,
        forall|after: Seq<Vec<i32>>, z: Seq<Seq<i32>>|
            z.len() == y.len() && #[trigger] rewritten(mid, after, z, n as int) ==> rewritten(
                before,
                after,
                z,
                n as int,
            ),
{
    let count = channel_count(is_mono);
    assert forall|c: int| 0 <= c < count implies (#[trigger] mid[c])@.take(n as int) == y[c]
        && n <= mid[c]@.len() && mid[c]@.skip(n as int) == before[c]@.skip(n as int) by {
        assert(n <= before[c]@.len());
        assert(mid[c]@.take(n as int) =~= y[c]);
        assert(mid[c]@.skip(n as int) =~= before[c]@.skip(n as int));
    }
    assert(heads(mid, n as int, count) =~= y);
    assert forall|after: Seq<Vec<i32>>, z: Seq<Seq<i32>>|
        z.len() == y.len() && #[trigger] rewritten(mid, after, z, n as int) implies rewritten(
        before,
        after,
        z,
        n as int,
    ) by {
        assert forall|c: int| 0 <= c < before.len() implies (#[trigger] after[c])@ == if c
            < z.len() {
            z[c] + before[c]@.skip(n as int)
        } else {
            before[c]@
        } by {
            assert(mid[c]@ == mid[c]@);
        }
    }
}

/// Apply decorrelation passes in reverse order to reconstruct original samples.
///
/// `samples` contains the entropy-decoded residuals for this block.
/// For stereo, `samples[0]` and `samples[1]` are the two channels.
/// `passes` are modified in-place (weights and sample history are updated).
pub fn apply_decorrelation(
    passes: &mut [DecorrPass],
    samples: &mut [Vec<i32>],
    num_samples: usize,
    is_mono: bool,
)
    requires
        forall|i: int|
            0 <= i < old(passes)@.len() && looks_at(
                (#[trigger] old(passes)@[i])@,
                num_samples as int,
                is_mono,
            ) ==> holds(old(samples)@, num_samples as int, channel_count(is_mono)),
    ensures
        old(passes)@.len() == 0 || num_samples == 0 ==> final(passes)@ == old(passes)@,
        old(passes)@.len() == 0 || num_samples == 0 ==> final(samples)@ == old(samples)@,
        old(passes)@.len() > 0 && num_samples > 0 ==> ({
            let x = heads(old(samples)@, num_samples as int, channel_count(is_mono));
            let run = decode_passes(models(old(passes)@), x, is_mono);
            &&& models(final(passes)@) == run.passes
            &&& rewritten(old(samples)@, final(samples)@, run.out, num_samples as int)
        }),
{
    if passes.len() == 0 || num_samples == 0 {
        return;
    }
    let ghost n = num_samples as nat;
    assert(looks_at(passes@[0]@, n as int, is_mono));
    let ghost x = heads(samples@, n as int, channel_count(is_mono));
    let ghost all = models(passes@);
    let ghost run = decode_passes(all, x, is_mono);
    let ghost mut y = x;
    let mut idx: usize = passes.len();
    proof {
        assert(all.take(all.len() as int) =~= all);
        assert(models(passes@).skip(all.len() as int) =~= Seq::<PassModel>::empty());
        assert(run.passes + Seq::<PassModel>::empty() =~= run.passes);
        assert forall|c: int| 0 <= c < x.len() implies (#[trigger] x[c]).len() == n by {
            assert(n <= samples@[c]@.len());
        }
        assert forall|c: int| 0 <= c < samples@.len() implies (#[trigger] samples@[c])@ == if c
            < x.len() {
            x[c] + samples@[c]@.skip(n as int)
        } else {
            samples@[c]@
        } by {
            if c < x.len() {
                assert(n <= samples@[c]@.len());
                assert(x[c] + samples@[c]@.skip(n as int) =~= samples@[c]@);
            }
        }
    }
    while idx > 0
        invariant
            n == num_samples,
            n > 0,
            idx <= all.len(),
            all == models(old(passes)@),
            passes@.len() == all.len(),
            models(passes@).take(idx as int) == all.take(idx as int),
            run.out == decode_passes(all.take(idx as int), y, is_mono).out,
            run.passes == decode_passes(all.take(idx as int), y, is_mono).passes + models(
                passes@,
            ).skip(idx as int),
            is_block(y, n, is_mono),
            holds(old(samples)@, n as int, channel_count(is_mono)),
            rewritten(old(samples)@, samples@, y, n as int),
        decreases idx,
    {
        idx = idx - 1;
        let ghost before = passes@;
        let ghost p = before[idx as int]@;
        let ghost z = decode_pass(p, y, is_mono);
        proof {
            lemma_rewritten(old(samples)@, samples@, y, n, is_mono);
            lemma_decode_pass_shape(p, y, n, is_mono);
            let upto = all.take(idx + 1);
            assert(upto.drop_last() =~= all.take(idx as int));
            assert(upto.last() == models(before).take(idx + 1)[idx as int]);
            assert(models(before)[idx as int] == p);
        }
        let ghost mid = samples@;
        if is_mono {
            assert(heads(mid, n as int, 1)[0] == mid[0]@.take(n as int));
            apply_pass_mono(&mut passes[idx], &mut samples[0], num_samples);
            assert(rewritten(mid, samples@, z.out, n as int));
        } else {
            apply_pass_stereo(&mut passes[idx], samples, num_samples);
        }
        proof {
            assert(models(passes@) =~= models(before).update(idx as int, z.pass));
            assert(models(passes@).take(idx as int) =~= models(before).take(idx + 1).take(
                idx as int,
            ));
            assert(all.take(idx + 1).take(idx as int) =~= all.take(idx as int));
            let rest = decode_passes(all.take(idx as int), z.out, is_mono).passes;
            assert(rest.push(z.pass) + models(before).skip(idx + 1) =~= rest + models(
                passes@,
            ).skip(idx as int));
            y = z.out;
        }
    }
    assert(all.take(0) =~= Seq::<PassModel>::empty());
    assert(models(passes@).skip(0) =~= models(passes@));
    assert(run.passes =~= models(passes@));
}

/// The pair of channels that joint stereo stores: the difference, and the second
/// channel plus half the difference.
pub open spec fn to_joint(l: i32, r: i32) -> (i32, i32) {
    let diff = arith::wrap_i32(l - r);
    (diff, arith::wrap_i32(r + diff as int / 2))
}

/// The pair of channels that a stored pair stands for.
pub open spec fn from_joint(diff: i32, side: i32) -> (i32, i32) {
    let r = arith::wrap_i32(side - diff as int / 2);
    (arith::wrap_i32(diff + r), r)
}

/// Joint stereo loses nothing: every pair of samples comes back.
pub proof fn lemma_joint_stereo_lossless(l: i32, r: i32)
    ensures
        from_joint(to_joint(l, r).0, to_joint(l, r).1) == (l, r),
{
    let diff = to_joint(l, r).0;
    arith::lemma_wrap_add_sub(r, diff as int / 2);
    arith::lemma_wrap_add_sub(l, r as int);
}

/// Apply joint stereo inverse transform.
///
/// In joint stereo mode, the encoder stores mid/side:
///   channel 0 = L - R (difference)
///   channel 1 = R + ((L - R) >> 1) (side)
///
/// Inverse:
///   R = side - (mid >> 1)
///   L = mid + R
pub fn undo_joint_stereo(left: &mut [i32], right: &mut [i32], num_samples: usize)
    requires
        num_samples <= old(left)@.len(),
        num_samples <= old(right)@.len(),
    ensures
        final(left)@ == Seq::new(
            old(left)@.len(),
            |i: int|
                if i < num_samples {
                    from_joint(old(left)@[i], old(right)@[i]).0
                } else {
                    old(left)@[i]
                },
        ),
        final(right)@ == Seq::new(
            old(right)@.len(),
            |i: int|
                if i < num_samples {
                    from_joint(old(left)@[i], old(right)@[i]).1
                } else {
                    old(right)@[i]
                },
        ),
{
    for i in 0..num_samples
        invariant
            num_samples <= old(left)@.len(),
            num_samples <= old(right)@.len(),
            left@.len() == old(left)@.len(),
            right@.len() == old(right)@.len(),
            forall|k: int|
                0 <= k < left@.len() ==> #[trigger] left@[k] == if k < i {
                    from_joint(old(left)@[k], old(right)@[k]).0
                } else {
                    old(left)@[k]
                },
            forall|k: int|
                0 <= k < right@.len() ==> #[trigger] right@[k] == if k < i {
                    from_joint(old(left)@[k], old(right)@[k]).1
                } else {
                    old(right)@[k]
                },
    {
        let mid: i32 = left[i];
        let side: i32 = right[i];
        assert(mid >> 1 == mid / 2) by (bit_vector);
        let r: i32 = arith::sub_i32(side, mid >> 1);
        right[i] = r;
        left[i] = arith::add_i32(mid, r);
    }
    assert(left@ =~= Seq::new(
        old(left)@.len(),
        |i: int|
            if i < num_samples {
                from_joint(old(left)@[i], old(right)@[i]).0
            } else {
                old(left)@[i]
            },
    ));
    assert(right@ =~= Seq::new(
        old(right)@.len(),
        |i: int|
            if i < num_samples {
                from_joint(old(left)@[i], old(right)@[i]).1
            } else {
                old(right)@[i]
            },
    ));
}

/// The terms that a pass can have.
pub open spec fn valid_term(term: int) -> bool {
    1 <= term <= 8 || term == 17 || term == 18 || -3 <= term <= -1
}

/// The passes that a terms sub-block lists: the low five bits of a byte hold the
/// term plus 5, the high three the delta. A byte with no valid term lists none.
pub open spec fn listed_passes(data: Seq<u8>) -> Seq<PassModel>
    decreases data.len(),
{
    if data.len() == 0 {
        Seq::empty()
    } else {
        let before = listed_passes(data.drop_last());
        let byte = data.last() as int;
        if valid_term(byte % 32 - 5) {
            before.push(PassModel::fresh((byte % 32 - 5) as i32, (byte / 32) as i32))
        } else {
            before
        }
    }
}

/// Parse decorrelation terms from the ID_DECORR_TERMS sub-block (0x02).
///
/// Each byte encodes: term = ((byte & 0x1f) - 5), delta = (byte >> 5).
/// Terms are stored in encoding order (first pass first), but the
/// decoder applies them in reverse.
pub fn parse_decorr_terms(data: &[u8]) -> (passes: Vec<DecorrPass>)
    ensures
        models(passes@) == listed_passes(data@),
{
    let mut passes: Vec<DecorrPass> = Vec::with_capacity(data.len());
    assert(models(passes@) =~= Seq::<PassModel>::empty());
    assert(data@.take(0) =~= Seq::<u8>::empty());
    for i in 0..data.len()
        invariant
            models(passes@) == listed_passes(data@.take(i as int)),
    {
        let byte: u8 = data[i];
        let term: i32 = (byte % 32) as i32 - 5;
        let delta: i32 = (byte / 32) as i32;
        assert(data@.take(i + 1).drop_last() =~= data@.take(i as int));
        if (1 <= term && term <= 8) || term == 17 || term == 18 || (-3 <= term && term <= -1) {
            let ghost before = passes@;
            passes.push(DecorrPass::new(term, delta));
            assert(models(passes@) =~= models(before).push(PassModel::fresh(term, delta)));
        }
    }
    assert(data@.take(data@.len() as int) =~= data@);
    passes
}

/// A byte as a two's complement number.
pub open spec fn signed_byte(b: u8) -> i8 {
    if b < 128 {
        b as i8
    } else {
        (b - 256) as i8
    }
}

/// The weight that a stored byte stands for.
pub open spec fn restored_weight(stored: i8) -> i32 {
    let w = 8 * stored;
    if w > 0 {
        (w + (w + 64) / 128) as i32
    } else {
        w as i32
    }
}

/// Restore a decorrelation weight from its packed single-byte form.
pub fn restore_weight(stored: i8) -> (w: i32)
    ensures
        w == restored_weight(stored),
        -1024 <= w <= 1024,
{
    let w: i32 = stored as i32 * 8;
    if w > 0 {
        w + (w + 64) / 128
    } else {
        // Negative weights: no adjustment.
        w
    }
}

/// The byte in which a weight is stored.
pub open spec fn stored_weight(weight: int) -> int {
    let w = if weight > 0 {
        weight - (weight + 64) / 128
    } else {
        weight
    };
    (w + 4) / 8
}

/// Restoring a weight is exact: every byte is the one in which the weight that it
/// stands for is stored.
pub proof fn lemma_weight_round_trip(stored: i8)
    ensures
        stored_weight(restored_weight(stored) as int) == stored,
{
}

/// A pass with the weights that are stored from byte `base` on, one for each
/// channel. Where the data ends, a weight stays what it was.
pub open spec fn with_weights(p: PassModel, data: Seq<u8>, base: int, count: int) -> PassModel {
    PassModel {
        weights: Seq::new(
            2,
            |ch: int|
                if ch < count && base + ch < data.len() {
                    restored_weight(signed_byte(data[base + ch]))
                } else {
                    p.weights[ch]
                },
        ),
        ..p
    }
}

/// A row of passes with their weights loaded, one pass after the other.
pub open spec fn loaded_weights(
    passes: Seq<PassModel>,
    data: Seq<u8>,
    is_mono: bool,
) -> Seq<PassModel> {
    let count = channel_count(is_mono);
    Seq::new(passes.len(), |i: int| with_weights(passes[i], data, i * count, count))
}

/// Parse decorrelation weights from the ID_DECORR_WEIGHTS sub-block (0x03).
///
/// Each weight is stored as a single signed byte with the restore formula:
/// `w = stored << 3; if w > 0 { w += (w + 64) >> 7 }`
pub fn parse_decorr_weights(data: &[u8], passes: &mut [DecorrPass], is_mono: bool)
    ensures
        models(final(passes)@) == loaded_weights(models(old(passes)@), data@, is_mono),
{
    let channels: usize = if is_mono { 1 } else { 2 };
    let n: usize = passes.len();
    // The next byte, or the end of the data
    let mut idx: usize = 0;
    for i in 0..n
        invariant
            n == passes@.len(),
            n == old(passes)@.len(),
            channels == channel_count(is_mono),
            idx == if i * channels <= data@.len() {
                i * channels
            } else {
                data@.len() as int
            },
            forall|k: int|
                0 <= k < n ==> #[trigger] passes@[k]@ == if k < i {
                    with_weights(old(passes)@[k]@, data@, k * channels, channels as int)
                } else {
                    old(passes)@[k]@
                },
    {
        let ghost before = passes@;
        let ghost base = i * channels;
        for ch in 0..channels
            invariant
                i < n,
                n == passes@.len(),
                n == before.len(),
                1 <= channels <= 2,
                idx == if base + ch <= data@.len() {
                    base + ch
                } else {
                    data@.len() as int
                },
                forall|k: int| 0 <= k < n && k != i ==> #[trigger] passes@[k] == before[k],
                passes@[i as int].term == before[i as int].term,
                passes@[i as int].delta == before[i as int].delta,
                passes@[i as int].samples == before[i as int].samples,
                forall|c: int|
                    0 <= c < 2 ==> #[trigger] passes@[i as int].weights@[c] == if c < ch && base + c
                        < data@.len() {
                        restored_weight(signed_byte(data@[base + c]))
                    } else {
                        before[i as int].weights@[c]
                    },
        {
            if idx < data.len() {
                let b: u8 = data[idx];
                let stored: i8 = if b < 128 { b as i8 } else { (b as i16 - 256) as i8 };
                passes[i].weights[ch] = restore_weight(stored);
                idx = idx + 1;
            }
        }
        proof {
            let p = before[i as int]@;
            assert(passes@[i as int]@ =~= with_weights(p, data@, base, channels as int));
            assert((i + 1) * channels == base + channels) by (nonlinear_arith)
                requires
                    base == i * channels,
            ;
        }
    }
    assert(models(passes@) =~= loaded_weights(models(old(passes)@), data@, is_mono));
}

/// The sample that a signed packed logarithm stands for: its sign applies to the
/// value of its magnitude.
pub open spec fn restored_sample(raw: i16) -> i32 {
    if raw < 0 {
        arith::wrap_i32(-(entropy::exp2_packed((-raw) as u16) as int))
    } else {
        arith::wrap_i32(entropy::exp2_packed(raw as u16) as int)
    }
}

/// The value of a packed logarithm as a signed word.
pub fn restore_sample_log2_unsigned(packed: u16) -> (r: i32)
    ensures
        r == arith::wrap_i32(entropy::exp2_packed(packed) as int),
{
    arith::to_i32(entropy::restore_median_log2(packed))
}

/// Restore a sample from its log2-packed signed 16-bit representation.
///
/// The packed value is a signed i16 where:
/// - Negative packed values represent negative samples: -restore(|packed|)
/// - Positive packed values: mantissa = packed & 0xFF, shift = packed >> 8
///   restored = (256 + EXP2_TABLE[mantissa]) adjusted by (shift - 9)
pub fn restore_sample_log2(raw: i16) -> (r: i32)
    ensures
        r == restored_sample(raw),
{
    if raw < 0 {
        // Negate as i32: the magnitude of i16::MIN is no i16
        let packed: u16 = (-(raw as i32)) as u16;
        let value: i32 = restore_sample_log2_unsigned(packed);
        proof {
            let x = entropy::exp2_packed(packed) as int;
            arith::lemma_wrap_congruent(
                -value as int,
                -x,
                if x < 0x8000_0000 {
                    0
                } else {
                    1
                },
            );
        }
        arith::sub_i32(0, value)
    } else {
        restore_sample_log2_unsigned(raw as u16)
    }
}

/// The two bytes at `pos`, lowest first, as a two's complement number.
pub open spec fn i16_at(data: Seq<u8>, pos: int) -> i16 {
    let x = data[pos] + 256 * data[pos + 1];
    if x < 0x8000 {
        x as i16
    } else {
        (x - 0x1_0000) as i16
    }
}

/// Reads a 16-bit number, lowest byte first.
pub fn read_i16_le(data: &[u8], pos: usize) -> (r: i16)
    requires
        pos + 1 < data@.len(),
    ensures
        r == i16_at(data@, pos as int),
{
    let x: i32 = data[pos] as i32 + 256 * data[pos + 1] as i32;
    if x < 0x8000 {
        x as i16
    } else {
        (x - 0x1_0000) as i16
    }
}

/// How many samples a pass stores.
pub open spec fn stored_samples(term: i32, count: int) -> int {
    if term > 8 {
        2 * count
    } else if term < 0 {
        2
    } else {
        term * count
    }
}

/// Whether a pass stores history entry `s` of channel `ch`. Terms above 8 store
/// two entries, terms 1 to 8 as many as their delay, both for each channel of the
/// block; cross-channel terms store one for each of two channels.
pub open spec fn is_stored(term: i32, count: int, ch: int, s: int) -> bool {
    if term > 8 {
        ch < count && s < 2
    } else if term < 0 {
        s == 0
    } else {
        ch < count && s < term
    }
}

/// The place of that entry among the samples of the pass: terms 1 to 8 store
/// their channels interleaved, the others one channel after the other.
pub open spec fn stored_at(term: i32, count: int, ch: int, s: int) -> int {
    if term > 8 {
        2 * ch + s
    } else if term < 0 {
        ch
    } else {
        s * count + ch
    }
}

/// How many samples the passes before the `i`-th one store.
pub open spec fn stored_before(passes: Seq<PassModel>, i: int, count: int) -> int
    decreases i,
{
    if i <= 0 {
        0
    } else {
        stored_before(passes, i - 1, count) + stored_samples(passes[i - 1].term, count)
    }
}

/// A history entry of a pass whose samples start at sample `base` of the data.
/// Where the data ends, an entry stays what it was.
pub open spec fn loaded_entry(
    p: PassModel,
    data: Seq<u8>,
    base: int,
    count: int,
    ch: int,
    s: int,
) -> i32 {
    let k = base + stored_at(p.term, count, ch, s);
    if is_stored(p.term, count, ch, s) && 2 * k + 2 <= data.len() {
        restored_sample(i16_at(data, 2 * k))
    } else {
        p.history[ch][s]
    }
}

/// A pass with its history loaded.
pub open spec fn with_history(p: PassModel, data: Seq<u8>, base: int, count: int) -> PassModel {
    PassModel {
        history: Seq::new(
            2,
            |ch: int| Seq::new(8, |s: int| loaded_entry(p, data, base, count, ch, s)),
        ),
        ..p
    }
}

impl DecorrPass {
    /// Loads the history from the samples that start at sample `next`, and gives
    /// the number of samples consumed so far; `next` is `base` or the number of
    /// samples in the data, whichever is less.
    fn load_history(&mut self, data: &[u8], next: usize, is_mono: bool, base: Ghost<int>) -> (r:
        usize)
        requires
            base@ >= 0,
            next == if base@ < data@.len() / 2 {
                base@
            } else {
                data@.len() as int / 2
            },
        ensures
            final(self)@ == with_history(old(self)@, data@, base@, channel_count(is_mono)),
            r == ({
                let end = base@ + stored_samples(old(self).term, channel_count(is_mono));
                if end < data@.len() / 2 {
                    end
                } else {
                    data@.len() as int / 2
                }
            }),
    {
        let channels: usize = if is_mono { 1 } else { 2 };
        let term: i32 = self.term;
        let len: usize = data.len();
        let total: usize = len / 2;
        let count: usize = if term > 8 {
            2 * channels
        } else if term < 0 {
            2
        } else {
            term as usize * channels
        };
        let mut next: usize = next;
        for j in 0..count
            invariant
                channels == channel_count(is_mono),
                term == self.term,
                term == old(self).term,
                self.delta == old(self).delta,
                self.weights == old(self).weights,
                count == stored_samples(term, channels as int),
                len == data@.len(),
                total == len / 2,
                base@ >= 0,
                next == if base@ + j < total {
                    base@ + j
                } else {
                    total as int
                },
                forall|ch: int, s: int|
                    0 <= ch < 2 && 0 <= s < 8 ==> #[trigger] self.samples@[ch]@[s] == if stored_at(
                        term,
                        channels as int,
                        ch,
                        s,
                    ) < j {
                        loaded_entry(old(self)@, data@, base@, channels as int, ch, s)
                    } else {
                        old(self).samples@[ch]@[s]
                    },
        {
            let ch: usize = if term > 8 {
                j / 2
            } else if term < 0 {
                j
            } else if is_mono {
                0
            } else {
                j % 2
            };
            let s: usize = if term > 8 {
                j % 2
            } else if term < 0 {
                0
            } else if is_mono {
                j
            } else {
                j / 2
            };
            if next < total {
                self.samples[ch][s] = restore_sample_log2(read_i16_le(data, 2 * next));
                next = next + 1;
            }
        }
        assert(self@ =~~= with_history(old(self)@, data@, base@, channels as int));
        next
    }
}

/// A row of passes with their histories loaded, one pass after the other.
pub open spec fn loaded_history(
    passes: Seq<PassModel>,
    data: Seq<u8>,
    is_mono: bool,
) -> Seq<PassModel> {
    let count = channel_count(is_mono);
    Seq::new(
        passes.len(),
        |i: int| with_history(passes[i], data, stored_before(passes, i, count), count),
    )
}

/// Parse decorrelation samples from the ID_DECORR_SAMPLES sub-block (0x04).
///
/// Each sample is stored as a log2-encoded 16-bit value (same format as
/// entropy vars but 16-bit). The number of samples per pass depends on
/// the term and number of channels.
pub fn parse_decorr_samples(data: &[u8], passes: &mut [DecorrPass], is_mono: bool)
    ensures
        models(final(passes)@) == loaded_history(models(old(passes)@), data@, is_mono),
{
    let ghost start = passes@;
    let ghost count = channel_count(is_mono);
    let n: usize = passes.len();
    let mut next: usize = 0;
    for i in 0..n
        invariant
            n == passes@.len(),
            start == old(passes)@,
            n == start.len(),
            count == channel_count(is_mono),
            ({
                let base = stored_before(models(start), i as int, count);
                &&& base >= 0
                &&& next == if base < data@.len() / 2 {
                    base
                } else {
                    data@.len() as int / 2
                }
            }),
            forall|k: int|
                0 <= k < n ==> #[trigger] passes@[k]@ == if k < i {
                    with_history(
                        start[k]@,
                        data@,
                        stored_before(models(start), k, count),
                        count,
                    )
                } else {
                    start[k]@
                },
    {
        let ghost base = stored_before(models(start), i as int, count);
        assert(models(start)[i as int] == passes@[i as int]@);
        assert(stored_samples(start[i as int].term, count) >= 0) by (nonlinear_arith)
            requires
                1 <= count <= 2,
        ;
        next = passes[i].load_history(data, next, is_mono, Ghost(base));
    }
    assert(models(passes@) =~= loaded_history(models(start), data@, is_mono));
}

} // verus!
