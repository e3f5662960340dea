use wavpack_rs::bitstream::BitstreamReader;
use wavpack_rs::entropy::{parse_entropy_vars, restore_median_log2, EntropyDecoder, EntropyState};

#[test]
fn restore_median_values() {
    assert_eq!(restore_median_log2(0), 0);
    // packed 0x0706: mantissa=6, shift=7, EXP2_TABLE[6]=4
    // value = 0x104 = 260, 260 >> (9-7) = 260 >> 2 = 65
    assert_eq!(restore_median_log2(0x0706), 65);
    let state = EntropyState { medians: [65, 0, 0] };
    // GET_MED = (65 >> 4) + 1 = 4 + 1 = 5
    assert_eq!(state.get_median(0), 5);
}

#[test]
fn parse_mono_entropy_vars() {
    // From mono16 test file entropy vars: [0x06, 0x07, 0x49, 0x06, 0x06, 0x07]
    let data = [0x06, 0x07, 0x49, 0x06, 0x06, 0x07];
    let states = parse_entropy_vars(&data, 1);
    assert_eq!(states.len(), 1);
    // packed 0x0706 → 65, GET_MED = 5
    assert_eq!(states[0].get_median(0), 5);
    // packed 0x0649 → mantissa=73, shift=6, EXP2_TABLE[73]=0x38=56
    // value = 0x138 = 312, 312 >> (9-6) = 312 >> 3 = 39, GET_MED = (39>>4)+1 = 3
    assert_eq!(states[0].get_median(1), 3);
    // packed 0x0706 → 65, GET_MED = 5
    assert_eq!(states[0].get_median(2), 5);
}

#[test]
fn median_update_inc_dec() {
    // Use restored median values (no << 4 scaling)
    let mut s = EntropyState { medians: [65, 39, 65] };
    // INC_MED(0): div=128, (65+128)/128 = 1, 1*5=5, 65+5=70
    s.inc_median(0);
    assert_eq!(s.medians[0], 70);
    s.medians[0] = 65;
    // DEC_MED(0): div=128, (65+128-2)/128 = 191/128 = 1, 1*2=2, 65-2=63
    s.dec_median(0);
    assert_eq!(s.medians[0], 63);
}

#[test]
fn golomb_remainder_matches_get_tail() {
    // get_tail(5): k=5, p=2, e=(8-5-1)=2
    // Should return values in [0,5]
    // Test with known bit patterns
    let data = [0x00]; // all zero bits
    let states = vec![EntropyState::new()];
    let mut dec = EntropyDecoder::new(&data, states);
    // read_bits(2) = 0, 0 < 2 = e, so res = 0
    assert_eq!(dec.read_golomb_remainder(5), 0);
}

fn decoder_with<'a>(data: &'a [u8], medians: [u32; 3]) -> EntropyDecoder<'a> {
    EntropyDecoder::new(data, vec![EntropyState { medians }])
}

#[test]
fn golomb_remainder_stays_in_range() {
    for k in 0..40u32 {
        for pattern in 0..=255u8 {
            let data = [pattern];
            let mut dec = decoder_with(&data, [0, 0, 0]);
            assert!(dec.read_golomb_remainder(k) <= k);
        }
    }
}

#[test]
fn golomb_remainder_values() {
    // k = 5: two values of two bits (0, 1), four of three bits (2..=5)
    let codes: [(u8, u32, usize); 6] = [
        (0b00, 0, 2),
        (0b01, 1, 2),
        (0b010, 2, 3),
        (0b110, 3, 3),
        (0b011, 4, 3),
        (0b111, 5, 3),
    ];
    for (bits, value, len) in codes {
        let data = [bits];
        let mut dec = decoder_with(&data, [0, 0, 0]);
        assert_eq!(dec.read_golomb_remainder(5), value);
        assert_eq!(dec.bs.bit_position(), len);
    }
}

#[test]
fn golomb_remainder_of_the_widest_range() {
    let data = [0xFF; 5];
    let mut dec = decoder_with(&data, [0, 0, 0]);
    assert_eq!(dec.read_golomb_remainder(u32::MAX), u32::MAX);
    assert_eq!(dec.bs.bit_position(), 32);
}

#[test]
fn zero_run_of_five() {
    // Gamma code of 5: 1,1,1,0 then the low bits 1,0
    let data = [0x17];
    let mut dec = decoder_with(&data, [1, 7, 9]);
    for _ in 0..5 {
        assert_eq!(dec.decode_residual(0), 0);
        assert_eq!(dec.bs.bit_position(), 6);
        assert_eq!(dec.states[0].medians, [0, 0, 0]);
    }
    assert_eq!(dec.zeroes, 1);
    // The residual behind the run is coded: one bit of zone, one of sign
    assert_eq!(dec.decode_residual(0), 0);
    assert_eq!(dec.bs.bit_position(), 8);
    assert_eq!(dec.zeroes, 0);
}

#[test]
fn empty_zero_run_is_followed_by_a_residual() {
    // Run 0, zone word 0, sign 1
    let data = [0b100];
    let mut dec = decoder_with(&data, [0, 0, 0]);
    assert_eq!(dec.decode_residual(0), -1);
    assert_eq!(dec.bs.bit_position(), 3);
    assert!(dec.zero);
    assert!(!dec.one);
}

#[test]
fn escape_extends_the_zone_word() {
    // 16 ones and a zero, gamma code of 3 (1,1,0,1), sign
    let data = [0xFF, 0xFF, 0x16];
    let mut dec = decoder_with(&data, [16, 0, 0]);
    assert_eq!(dec.decode_residual(0), 10);
    assert_eq!(dec.states[0].medians, [21, 5, 5]);
    assert!(dec.one);
    assert!(!dec.zero);
    assert_eq!(dec.bs.bit_position(), 22);

    let data = [0xFF, 0xFF, 0x36];
    let mut dec = decoder_with(&data, [16, 0, 0]);
    assert_eq!(dec.decode_residual(0), -11);
}

#[test]
fn flags_carry_to_the_next_residual() {
    // Zone word 1 (1,0): zone 0, and the next zone is at least 1
    // remainder bit 1, sign 0; then zone word 0 (0): zone 1, sign 0
    let data = [0b00_0101];
    let mut dec = decoder_with(&data, [16, 0, 0]);
    assert_eq!(dec.decode_residual(0), 1);
    assert!(dec.one);
    assert_eq!(dec.states[0].medians[0], 14);
    assert_eq!(dec.decode_residual(0), 1);
    assert!(dec.zero);
    assert_eq!(dec.bs.bit_position(), 6);
}

#[test]
fn zone_two_lowers_the_third_median() {
    let data = [0x00];
    let mut dec = decoder_with(&data, [16, 32, 48]);
    assert_eq!(dec.decode_zone(0, 2), 5);
    assert_eq!(dec.states[0].medians, [21, 37, 44]);
}

#[test]
fn zone_one_leaves_the_third_median() {
    let data = [0x00];
    let mut dec = decoder_with(&data, [16, 32, 48]);
    assert_eq!(dec.decode_zone(0, 1), 2);
    assert_eq!(dec.states[0].medians, [21, 30, 48]);
}

#[test]
fn frames_take_the_channels_in_turn() {
    // Two channels, each residual: zone word 0, remainder 0, sign 0 / 1
    let data = [0b10_0000];
    let states = vec![EntropyState { medians: [16, 0, 0] }, EntropyState { medians: [16, 0, 0] }];
    let mut dec = EntropyDecoder::new(&data, states);
    // First channel: word, remainder, sign; second: zero flag, remainder, sign
    assert_eq!(dec.decode_frame(2), vec![0, 0]);
    assert_eq!(dec.bs.bit_position(), 5);
    assert_eq!(dec.decode_frame(0), Vec::<i32>::new());
}

#[test]
fn missing_entropy_vars_are_zero() {
    let data = [0x06, 0x07, 0x49];
    let states = parse_entropy_vars(&data, 2);
    assert_eq!(states.len(), 2);
    assert_eq!(states[0].medians, [65, 0, 0]);
    assert_eq!(states[1].medians, [0, 0, 0]);
}

#[test]
fn restore_median_shifts_up() {
    // exponent 10: one bit above the table's scale
    assert_eq!(restore_median_log2(0x0A00), 512);
    // exponent 9: the table's own scale
    assert_eq!(restore_median_log2(0x0980), 0x16A);
    assert_eq!(restore_median_log2(0x0001), 0);
}

#[test]
fn medians_do_not_drop_below_zero() {
    let mut s = EntropyState { medians: [1, 1, 1] };
    for i in 0..3 {
        s.dec_median(i);
    }
    assert_eq!(s.medians, [1, 1, 1]);
    let mut s = EntropyState { medians: [2, 2, 2] };
    for i in 0..3 {
        s.dec_median(i);
    }
    assert_eq!(s.medians, [0, 0, 0]);
}

fn ref_get_tail(bs: &mut BitstreamReader, k: u32) -> u32 {
    if k < 1 {
        return 0;
    }
    let p = 31 - k.leading_zeros();
    let e = (1u32 << (p + 1)) - k - 1;
    let mut res = bs.read_bits(p);
    if res >= e {
        res = res * 2 - e + bs.read_bit();
    }
    res
}

/// Runs two independent entropy decoders on the same bitstream and compares values,
/// medians and bit positions after every sample.
#[test]
fn compare_entropy_decoders() {
    let mut state = 12345u32;
    let bs_bytes: Vec<u8> = (0..4000)
        .map(|i| {
            state = state.wrapping_mul(1_664_525).wrapping_add(1_013_904_223);
            if i % 50 < 10 { 0 } else { (state >> 24) as u8 }
        })
        .collect();
    let evars = [0x06, 0x07, 0x49, 0x06, 0x06, 0x07];
    let mut dec_a = EntropyDecoder::new(&bs_bytes, parse_entropy_vars(&evars, 1));

    let mut bs_b = BitstreamReader::new(&bs_bytes);
    let mut ref_medians: [u32; 3] = parse_entropy_vars(&evars, 1)[0].medians;
    let mut ref_zero = false;
    let mut ref_one = false;
    let mut ref_zeroes: u32 = 0;
    let median_divs: [u32; 3] = [128, 64, 32];
    let get_med = |medians: &[u32; 3], n: usize| -> u32 { (medians[n] >> 4) + 1 };
    let inc_med = |medians: &mut [u32; 3], n: usize| {
        let div = median_divs[n];
        medians[n] += ((medians[n] + div) / div) * 5;
    };
    let dec_med = |medians: &mut [u32; 3], n: usize| {
        let div = median_divs[n];
        let sub = ((medians[n] + div - 2) / div) * 2;
        medians[n] = medians[n].saturating_sub(sub);
    };

    for _ in 0..3000 {
        assert_eq!(dec_a.bs.bit_position(), bs_b.bit_position());
        let val_a = dec_a.decode_frame(1)[0];
        let mut val_b = None;
        if ref_medians[0] < 2 && !ref_zero && !ref_one {
            if ref_zeroes > 0 {
                ref_zeroes -= 1;
                if ref_zeroes > 0 {
                    val_b = Some(0);
                }
            } else {
                let mut run = bs_b.read_unary();
                if run >= 2 {
                    let extra = bs_b.read_bits(run - 1);
                    run = extra | (1u32 << (run - 1));
                }
                ref_zeroes = run;
                if ref_zeroes > 0 {
                    ref_medians = [0, 0, 0];
                    val_b = Some(0);
                }
            }
        }
        let val_b = match val_b {
            Some(v) => v,
            None => {
                let zone;
                if ref_zero {
                    zone = 0u32;
                    ref_zero = false;
                } else {
                    let mut raw = bs_b.read_unary();
                    if raw == 16 {
                        let t2 = bs_b.read_unary();
                        if t2 < 2 {
                            raw += t2;
                        } else {
                            raw += bs_b.read_bits(t2 - 1) | (1u32 << (t2 - 1));
                        }
                    }
                    if ref_one {
                        ref_one = (raw & 1) != 0;
                        zone = (raw >> 1) + 1;
                    } else {
                        ref_one = (raw & 1) != 0;
                        zone = raw >> 1;
                    }
                    ref_zero = !ref_one;
                }
                let m0 = get_med(&ref_medians, 0);
                let m1 = get_med(&ref_medians, 1);
                let m2 = get_med(&ref_medians, 2);
                let magnitude = match zone {
                    0 => {
                        let rem = ref_get_tail(&mut bs_b, m0 - 1);
                        dec_med(&mut ref_medians, 0);
                        rem
                    }
                    1 => {
                        let rem = ref_get_tail(&mut bs_b, m1 - 1);
                        inc_med(&mut ref_medians, 0);
                        dec_med(&mut ref_medians, 1);
                        m0 + rem
                    }
                    2 => {
                        let rem = ref_get_tail(&mut bs_b, m2 - 1);
                        inc_med(&mut ref_medians, 0);
                        inc_med(&mut ref_medians, 1);
                        dec_med(&mut ref_medians, 2);
                        m0 + m1 + rem
                    }
                    _ => {
                        let base = m0 + m1 + m2 * (zone - 2);
                        let rem = ref_get_tail(&mut bs_b, m2 - 1);
                        inc_med(&mut ref_medians, 0);
                        inc_med(&mut ref_medians, 1);
                        inc_med(&mut ref_medians, 2);
                        base + rem
                    }
                };
                if bs_b.read_bit() != 0 { !(magnitude as i32) } else { magnitude as i32 }
            }
        };
        assert_eq!(val_a, val_b);
        assert_eq!(dec_a.states[0].medians, ref_medians);
        assert_eq!((dec_a.zero, dec_a.one, dec_a.zeroes), (ref_zero, ref_one, ref_zeroes));
    }
    assert!(dec_a.bs.bit_position() > 5000);
}
