//! Encodes signals and decodes them again.
use wavpack_rs::decorrelation::{
    apply_weight, parse_decorr_samples, parse_decorr_terms, parse_decorr_weights, update_weight,
    update_weight_clip, DecorrPass,
};
use wavpack_rs::entropy::{parse_entropy_vars, EntropyState};
use wavpack_rs::header::{FLAG_FALSE_STEREO, FLAG_JOINT_STEREO, FLAG_MONO};
use wavpack_rs::{compute_crc, ByteReader, WavPackReader};

struct Bits(Vec<bool>);

impl Bits {
    fn number(&mut self, v: u32, n: u32) {
        for i in 0..n {
            self.0.push((v >> i) & 1 == 1);
        }
    }

    fn unary(&mut self, n: u32) {
        for _ in 0..n {
            self.0.push(true);
        }
        self.0.push(false);
    }

    fn gamma(&mut self, x: u32) {
        if x < 2 {
            self.unary(x);
        } else {
            let p = 31 - x.leading_zeros();
            self.unary(p + 1);
            self.number(x, p);
        }
    }

    fn tail(&mut self, v: u32, k: u32) {
        if k > 0 {
            let p = 31 - k.leading_zeros();
            let e = ((1u64 << (p + 1)) - k as u64 - 1) as u32;
            if v < e {
                self.number(v, p);
            } else {
                self.number((v + e) / 2, p);
                self.number((v + e) % 2, 1);
            }
        }
    }

    fn bytes(&self) -> Vec<u8> {
        let mut out = vec![0u8; (self.0.len() + 7) / 8];
        for (i, b) in self.0.iter().enumerate() {
            if *b {
                out[i / 8] |= 1 << (i % 8);
            }
        }
        out
    }
}

fn magnitude(r: i32) -> u32 {
    (if r < 0 { !r } else { r }) as u32
}

fn zone_of(s: &EntropyState, r: i32) -> u32 {
    let (w0, w1, w2) = (s.get_median(0), s.get_median(1), s.get_median(2));
    let mag = magnitude(r);
    if mag < w0 {
        0
    } else if mag < w0 + w1 {
        1
    } else {
        2 + (mag - w0 - w1) / w2
    }
}

/// Encodes residuals, with runs of zeros as long as they go.
fn encode_residuals(mut states: Vec<EntropyState>, x: &[Vec<i32>], n: usize) -> Vec<u8> {
    let count = x.len();
    let items: Vec<(usize, i32)> = (0..n * count).map(|k| (k % count, x[k % count][k / count])).collect();
    let mut bits = Bits(Vec::new());
    let (mut zero, mut one) = (false, false);
    let mut k = 0;
    let mut run_done = false;
    while k < items.len() {
        let (ch, r) = items[k];
        let quiet = states.iter().all(|s| s.medians[0] < 2) && !zero && !one;
        if quiet && !run_done {
            let run = items[k..].iter().take_while(|(_, r)| *r == 0).count();
            bits.gamma(run as u32);
            if run > 0 {
                for s in states.iter_mut() {
                    s.medians = [0; 3];
                }
                k += run;
                run_done = true;
                continue;
            }
        }
        run_done = false;
        let zone = zone_of(&states[ch], r);
        let (w0, w1, w2) =
            (states[ch].get_median(0), states[ch].get_median(1), states[ch].get_median(2));
        let (base, top) = match zone {
            0 => (0, w0 - 1),
            1 => (w0, w1 - 1),
            _ => (w0 + w1 + w2 * (zone - 2), w2 - 1),
        };
        match zone {
            0 => states[ch].dec_median(0),
            1 => {
                states[ch].inc_median(0);
                states[ch].dec_median(1);
            }
            _ => {
                states[ch].inc_median(0);
                states[ch].inc_median(1);
                if zone == 2 {
                    states[ch].dec_median(2);
                } else {
                    states[ch].inc_median(2);
                }
            }
        }
        if zero {
            assert_eq!(zone, 0);
            zero = false;
        } else {
            let next = k + 1 < items.len() && zone_of(&states[items[k + 1].0], items[k + 1].1) > 0;
            let raw = 2 * (zone - one as u32) + next as u32;
            if raw < 16 {
                bits.unary(raw);
            } else {
                bits.unary(16);
                bits.gamma(raw - 16);
            }
            one = next;
            zero = !next;
        }
        bits.tail(magnitude(r) - base, top);
        bits.0.push(r < 0);
        k += 1;
    }
    bits.bytes()
}

fn predict(pass: &DecorrPass, ch: usize, x: &[i32], i: usize) -> i32 {
    let h = &pass.samples[ch];
    match pass.term {
        1..=8 => {
            let t = pass.term as usize;
            if i >= t { x[i - t] } else { h[i] }
        }
        17 | 18 => {
            let s1 = if i >= 1 { x[i - 1] } else { h[0] } as i64;
            let s2 = if i >= 2 { x[i - 2] } else if i == 1 { h[0] } else { h[1] } as i64;
            if pass.term == 17 { (2 * s1 - s2) as i32 } else { ((3 * s1 - s2) >> 1) as i32 }
        }
        _ => 0,
    }
}

/// Encodes channels through one pass.
fn encode_pass(pass: &DecorrPass, x: &[Vec<i32>], n: usize) -> Vec<Vec<i32>> {
    let mut out = vec![Vec::new(); x.len()];
    let mut w = pass.weights;
    if x.len() == 2 && pass.term < 0 {
        let (mut ha, mut hb) = (pass.samples[0][0], pass.samples[1][0]);
        for i in 0..n {
            let (a, b) = (x[0][i], x[1][i]);
            let from_a = if pass.term == -2 { b } else { ha };
            let from_b = if pass.term == -1 { a } else { hb };
            let ra = a.wrapping_sub(apply_weight(w[0], from_a));
            let rb = b.wrapping_sub(apply_weight(w[1], from_b));
            update_weight_clip(&mut w[0], pass.delta, from_a, ra);
            update_weight_clip(&mut w[1], pass.delta, from_b, rb);
            if pass.term != -2 {
                ha = b;
            }
            if pass.term != -1 {
                hb = a;
            }
            out[0].push(ra);
            out[1].push(rb);
        }
    } else {
        for ch in 0..x.len() {
            for i in 0..n {
                let guess = predict(pass, ch, &x[ch], i);
                let r = x[ch][i].wrapping_sub(apply_weight(w[ch], guess));
                update_weight(&mut w[ch], pass.delta, r, guess);
                out[ch].push(r);
            }
        }
    }
    out
}

fn sub_block(payload: &mut Vec<u8>, id: u8, data: &[u8]) {
    let odd = if data.len() % 2 == 1 { 0x40 } else { 0 };
    let words = (data.len() + 1) / 2;
    if words < 256 {
        payload.extend_from_slice(&[id | odd, words as u8]);
    } else {
        payload.extend_from_slice(&[id | odd | 0x80, words as u8, (words >> 8) as u8, (words >> 16) as u8]);
    }
    payload.extend_from_slice(data);
    if odd != 0 {
        payload.push(0);
    }
}

struct Setup<'a> {
    flags: u32,
    terms: &'a [u8],
    weights: &'a [u8],
    samples: &'a [u8],
    evars: &'a [u8],
}

/// Encodes one block.
fn encode_block(setup: &Setup, x: &[Vec<i32>]) -> Vec<u8> {
    let n = x[0].len();
    let mono = x.len() == 1;
    let crc = compute_crc(x, n, x.len());
    let mut y: Vec<Vec<i32>> = x.to_vec();
    if !mono && setup.flags & FLAG_JOINT_STEREO != 0 {
        for i in 0..n {
            let diff = x[0][i].wrapping_sub(x[1][i]);
            y[0][i] = diff;
            y[1][i] = x[1][i].wrapping_add(diff >> 1);
        }
    }
    let mut passes = parse_decorr_terms(setup.terms);
    parse_decorr_weights(setup.weights, &mut passes, mono);
    parse_decorr_samples(setup.samples, &mut passes, mono);
    for pass in &passes {
        y = encode_pass(pass, &y, n);
    }
    let bits = encode_residuals(parse_entropy_vars(setup.evars, x.len()), &y, n);

    let mut payload = Vec::new();
    sub_block(&mut payload, 0x21, b"RIFF header");
    sub_block(&mut payload, 0x02, setup.terms);
    sub_block(&mut payload, 0x03, setup.weights);
    sub_block(&mut payload, 0x04, setup.samples);
    sub_block(&mut payload, 0x05, setup.evars);
    sub_block(&mut payload, 0x0A, &bits);
    let mut out = b"wvpk".to_vec();
    out.extend_from_slice(&(24 + payload.len() as u32).to_le_bytes());
    out.extend_from_slice(&0x0410u16.to_le_bytes());
    out.extend_from_slice(&[0, 0]);
    out.extend_from_slice(&(n as u32).to_le_bytes());
    out.extend_from_slice(&0u32.to_le_bytes());
    out.extend_from_slice(&(n as u32).to_le_bytes());
    out.extend_from_slice(&setup.flags.to_le_bytes());
    out.extend_from_slice(&crc.to_le_bytes());
    out.extend_from_slice(&payload);
    out
}

/// Term byte for a term and a delta.
fn term(t: i32, delta: u8) -> u8 {
    (t + 5) as u8 | (delta << 5)
}

fn noise(seed: u32, n: usize, shift: u32) -> Vec<i32> {
    let mut state = seed;
    (0..n)
        .map(|_| {
            state = state.wrapping_mul(1_664_525).wrapping_add(1_013_904_223);
            (state as i32) >> shift
        })
        .collect()
}

/// A slow wave with a little noise on it.
fn wave(seed: u32, n: usize, amplitude: i32) -> Vec<i32> {
    noise(seed, n, 28)
        .iter()
        .enumerate()
        .map(|(i, e)| {
            let phase = (i % 200) as i32 - 100;
            amplitude - (phase * phase * amplitude) / 5000 + e
        })
        .collect()
}

fn check(setup: &Setup, x: &[Vec<i32>]) {
    let mut bytes = encode_block(setup, x);
    let second: Vec<Vec<i32>> = x.iter().map(|c| c.iter().rev().copied().collect()).collect();
    bytes.extend(encode_block(setup, &second));
    let expected: Vec<Vec<i32>> =
        (0..x.len()).map(|c| [x[c].clone(), second[c].clone()].concat()).collect();

    let mut reader = WavPackReader::new(ByteReader::new(bytes.clone())).unwrap();
    assert_eq!(reader.decode_all().unwrap(), expected);

    let mut reader = WavPackReader::new(ByteReader::new(bytes)).unwrap();
    let mut it = reader.samples();
    for i in 0..expected[0].len() {
        for c in 0..x.len() {
            assert!(matches!(it.next(), Some(Ok(s)) if s == expected[c][i]));
        }
    }
    assert!(it.next().is_none());
}

const EVARS: [u8; 12] = [0x06, 0x07, 0x49, 0x06, 0x06, 0x07, 0x00, 0x05, 0x80, 0x04, 0x00, 0x03];

#[test]
fn silence_round_trip() {
    let setup = Setup { flags: 1 | FLAG_MONO, terms: &[], weights: &[], samples: &[], evars: &[] };
    check(&setup, &[vec![0; 1000]]);
    let setup = Setup { flags: 1, terms: &[], weights: &[], samples: &[], evars: &[] };
    check(&setup, &[vec![0; 1000], vec![0; 1000]]);
}

#[test]
fn ramp_round_trip() {
    let ramp: Vec<i32> = (0..500).map(|i| i * 3 - 700).collect();
    let terms = [term(18, 2), term(17, 2), term(2, 1)];
    let setup = Setup {
        flags: 1 | FLAG_MONO,
        terms: &terms,
        weights: &[20, 0xF0, 7],
        samples: &[0x10, 0x0B, 0xF0, 0xF4, 1, 8, 2, 8, 3, 8, 4, 8],
        evars: &EVARS,
    };
    check(&setup, &[ramp]);
}

#[test]
fn mono_waves_round_trip() {
    for (k, terms) in [
        vec![term(1, 2)],
        vec![term(17, 2), term(18, 2), term(2, 2), term(3, 2), term(5, 2)],
        (1..=8).map(|t| term(t, 7)).collect(),
    ]
    .iter()
    .enumerate()
    {
        let setup = Setup { flags: 1 | FLAG_MONO, terms, weights: &[30, 0xE0, 5], samples: &[], evars: &EVARS };
        check(&setup, &[wave(k as u32, 700, 9000)]);
    }
}

#[test]
fn stereo_waves_round_trip() {
    let left = wave(7, 600, 12000);
    let right: Vec<i32> = left.iter().zip(noise(9, 600, 24)).map(|(l, e)| l / 2 + e).collect();
    for flags in [1, 1 | FLAG_JOINT_STEREO] {
        for terms in [
            vec![term(-1, 2), term(18, 2)],
            vec![term(-2, 3), term(3, 2), term(17, 1)],
            vec![term(18, 2), term(-3, 4), term(-1, 1), term(8, 2)],
        ] {
            let setup = Setup {
                flags,
                terms: &terms,
                weights: &[60, 0xC4, 100, 0x9C, 3],
                samples: &[0x00, 0x0A, 0x80, 0xF5, 0x33, 0x07],
                evars: &EVARS,
            };
            check(&setup, &[left.clone(), right.clone()]);
        }
    }
}

#[test]
fn extreme_samples_round_trip() {
    // Loud noise, and the ends of the range
    let mut loud = noise(3, 200, 0);
    loud.extend_from_slice(&[i32::MAX, i32::MIN, 0, -1, 1, i32::MIN, i32::MAX]);
    let setup = Setup { flags: 3 | FLAG_MONO, terms: &[], weights: &[], samples: &[], evars: &EVARS };
    check(&setup, &[loud.clone()]);
    let terms = [term(17, 7), term(-2, 5), term(1, 3)];
    let other = noise(4, loud.len(), 3);
    let setup = Setup {
        flags: 3 | FLAG_JOINT_STEREO,
        terms: &terms,
        weights: &[127, 0x80, 64, 0xC0, 1, 2],
        samples: &[],
        evars: &EVARS,
    };
    check(&setup, &[loud, other]);
}

#[test]
fn bursts_between_silence_round_trip() {
    let mut x = vec![0; 40];
    x.extend(noise(5, 10, 20));
    x.extend(vec![0; 300]);
    x.push(-1);
    x.extend(vec![0; 2]);
    x.extend(noise(6, 5, 30));
    x.extend(vec![0; 33]);
    let setup = Setup { flags: 1 | FLAG_MONO, terms: &[], weights: &[], samples: &[], evars: &[] };
    check(&setup, &[x.clone()]);
    let y: Vec<i32> = x.iter().rev().copied().collect();
    let setup = Setup { flags: 1, terms: &[], weights: &[], samples: &[], evars: &[] };
    check(&setup, &[x, y]);
}

#[test]
fn false_stereo_round_trip() {
    let x = wave(11, 100, 400);
    let setup = Setup {
        flags: 1 | FLAG_FALSE_STEREO,
        terms: &[term(1, 2)],
        weights: &[50],
        samples: &[],
        evars: &EVARS,
    };
    let bytes = encode_block(&setup, &[x.clone()]);
    let mut reader = WavPackReader::new(ByteReader::new(bytes)).unwrap();
    assert_eq!(reader.decode_all().unwrap(), vec![x.clone(), x]);
}

#[test]
fn shifted_samples_round_trip() {
    // Eight-bit steps of a wider wave, stored without their zeros
    let x = wave(13, 300, 90);
    let setup = Setup {
        flags: 2 | FLAG_MONO | (8 << 13),
        terms: &[term(18, 2)],
        weights: &[40],
        samples: &[],
        evars: &EVARS,
    };
    let bytes = encode_block(&setup, &[x.clone()]);
    let mut reader = WavPackReader::new(ByteReader::new(bytes)).unwrap();
    let pcm: Vec<i32> = x.iter().map(|s| s << 8).collect();
    assert_eq!(reader.decode_all().unwrap(), vec![pcm]);
}

#[test]
fn other_bytes_and_silent_blocks_are_passed_over() {
    let x = wave(17, 50, 300);
    let setup = Setup { flags: 1 | FLAG_MONO, terms: &[], weights: &[], samples: &[], evars: &EVARS };
    let mut bytes = b"APETAGEX wvp".to_vec();
    // A block without samples: its count of samples is 0
    let mut silent = encode_block(&setup, &[vec![0]]);
    silent[20] = 0;
    bytes.extend_from_slice(&silent);
    bytes.extend(encode_block(&setup, &[x.clone()]));
    bytes.extend_from_slice(&silent);
    bytes.extend_from_slice(b"wvpwv");
    bytes.extend(encode_block(&setup, &[x.clone()]));
    bytes.extend_from_slice(b"TAG wvp");
    let mut reader = WavPackReader::new(ByteReader::new(bytes)).unwrap();
    assert_eq!(reader.decode_all().unwrap(), vec![[x.clone(), x].concat()]);
}
