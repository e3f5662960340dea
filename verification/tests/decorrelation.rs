use wavpack_rs::decorrelation::{
    apply_cross_channel, apply_decorrelation, apply_pass_channel, apply_pass_mono,
    apply_pass_stereo, apply_weight, parse_decorr_samples, parse_decorr_terms,
    parse_decorr_weights, read_i16_le, restore_sample_log2, restore_sample_log2_unsigned,
    restore_weight, undo_joint_stereo, update_weight, update_weight_clip, DecorrPass,
};

#[test]
fn restore_weight_values() {
    // 0 → 0
    assert_eq!(restore_weight(0), 0);
    // 1 → 8 + (8 + 64) >> 7 = 8 + 0 = 8
    assert_eq!(restore_weight(1), 8);
    // -1 → -8 (no adjustment for negative)
    assert_eq!(restore_weight(-1), -8);
    // 64 → 512 + (512 + 64) >> 7 = 512 + 4 = 516
    assert_eq!(restore_weight(64), 516);
    // -33 → -264 (no adjustment for negative)
    assert_eq!(restore_weight(-33), -264);
    // -47 → -376 (no adjustment for negative)
    assert_eq!(restore_weight(-47), -376);
}

#[test]
fn restore_sample_log2_zero() {
    assert_eq!(restore_sample_log2(0), 0);
}

#[test]
fn update_weight_same_sign() {
    let mut w = 100;
    update_weight(&mut w, 2, 5, 3); // both positive
    assert_eq!(w, 102);
}

#[test]
fn update_weight_diff_sign() {
    let mut w = 100;
    update_weight(&mut w, 2, -5, 3); // different signs
    assert_eq!(w, 98);
}

#[test]
fn update_weight_zero_no_change() {
    let mut w = 100;
    update_weight(&mut w, 2, 0, 3); // residual is zero
    assert_eq!(w, 100);
}

#[test]
fn update_weight_no_clamp() {
    let mut w = 1023;
    update_weight(&mut w, 5, 1, 1);
    assert_eq!(w, 1028); // no clamping — matches wvunpack reference
}

#[test]
fn joint_stereo_roundtrip() {
    // Simulate encoding: mid = L - R, side = (L + R) / 2
    let orig_l: Vec<i32> = vec![100, 200, -50, 0];
    let orig_r: Vec<i32> = vec![80, 150, -30, 10];

    let mut mid: Vec<i32> = orig_l
        .iter()
        .zip(&orig_r)
        .map(|(&l, &r)| l - r)
        .collect();
    let mut side: Vec<i32> = orig_l
        .iter()
        .zip(&orig_r)
        .map(|(&l, &r)| (l + r) >> 1)
        .collect();

    undo_joint_stereo(&mut mid, &mut side, 4);

    // Check reconstruction
    for i in 0..4 {
        // May differ by 1 due to integer rounding
        assert!((mid[i] - orig_l[i]).abs() <= 1, "L[{i}]: {} vs {}", mid[i], orig_l[i]);
        assert!(
            (side[i] - orig_r[i]).abs() <= 1,
            "R[{i}]: {} vs {}",
            side[i],
            orig_r[i]
        );
    }
}

#[test]
fn parse_terms_basic() {
    // term=18 → raw=23, delta=2 → byte = (2 << 5) | (23+5)... wait
    // term = (byte & 0x1f) - 5, so term=18 → (byte & 0x1f) = 23
    // delta = byte >> 5, delta=2 → byte = (2 << 5) | 23 = 64+23 = 87
    let data = [87u8];
    let passes = parse_decorr_terms(&data);
    assert_eq!(passes.len(), 1);
    assert_eq!(passes[0].term, 18);
    assert_eq!(passes[0].delta, 2);
}

#[test]
fn joint_stereo_is_exact() {
    let pairs = [(100, 80), (0, 0), (-7, 8), (i32::MAX, i32::MIN), (i32::MIN, 1), (5, -6)];
    for (l, r) in pairs {
        let diff: i32 = i32::wrapping_sub(l, r);
        let mut left = [diff, 77];
        let mut right = [i32::wrapping_add(r, diff >> 1), 88];
        undo_joint_stereo(&mut left, &mut right, 1);
        assert_eq!(left, [l, 77]);
        assert_eq!(right, [r, 88]);
    }
}

#[test]
fn parse_terms_skips_invalid_bytes() {
    // term 0 (5), term 9 (14), term -4 (1) and term -5 (0) do not exist
    let passes = parse_decorr_terms(&[5, 14, 1, 0, 6, 13, 22, 23, 2, 3, 4, 0xE6]);
    let terms: Vec<i32> = passes.iter().map(|p| p.term).collect();
    assert_eq!(terms, vec![1, 8, 17, 18, -3, -2, -1, 1]);
    assert_eq!(passes[7].delta, 7);
    assert_eq!(passes[0].weights, [0, 0]);
    assert_eq!(passes[0].samples, [[0; 8]; 2]);
}

#[test]
fn weights_are_read_channel_by_channel() {
    let mut passes = parse_decorr_terms(&[6, 7, 8]);
    passes[2].weights = [3, 4];
    parse_decorr_weights(&[64, 0xFF, 1, 0xDF, 2], &mut passes, false);
    assert_eq!(passes[0].weights, [516, -8]);
    assert_eq!(passes[1].weights, [8, -264]);
    assert_eq!(passes[2].weights, [16, 4]);

    let mut passes = parse_decorr_terms(&[6, 7]);
    parse_decorr_weights(&[64, 0xFF], &mut passes, true);
    assert_eq!(passes[0].weights, [516, 0]);
    assert_eq!(passes[1].weights, [-8, 0]);
}

#[test]
fn every_weight_byte_round_trips() {
    for b in i8::MIN..=i8::MAX {
        let w = restore_weight(b);
        assert!(-1024 <= w && w <= 1024);
        let back = if w > 0 { w - ((w + 64) >> 7) } else { w };
        assert_eq!((back + 4) >> 3, b as i32);
    }
}

#[test]
fn samples_of_delay_terms_are_interleaved() {
    // Packed logarithm 0x0900 + table entry: exponent 9 gives 256 and up
    let data = [0x00, 0x09, 0x01, 0x09, 0x03, 0x09, 0x04, 0x09, 0x06, 0x09];
    let mut passes = parse_decorr_terms(&[7]);
    parse_decorr_samples(&data, &mut passes, false);
    assert_eq!(passes[0].samples[0][..3], [256, 258, 0]);
    assert_eq!(passes[0].samples[1][..3], [257, 259, 0]);
}

#[test]
fn samples_of_the_other_terms_are_grouped() {
    let mut data = Vec::new();
    for low in [0x00u8, 0x01, 0x03, 0x04, 0x06, 0x07, 0x08] {
        data.extend_from_slice(&[low, 0x09]);
    }
    data.push(0x55);
    // term 18, term -1, term 1
    let mut passes = parse_decorr_terms(&[23, 4, 6]);
    passes[2].samples[1][0] = 99;
    parse_decorr_samples(&data, &mut passes, false);
    assert_eq!(passes[0].samples[0][..2], [256, 257]);
    assert_eq!(passes[0].samples[1][..2], [258, 259]);
    assert_eq!(passes[1].samples[0][0], 260);
    assert_eq!(passes[1].samples[1][0], 261);
    assert_eq!(passes[2].samples[0][0], 262);
    // The data ends inside the last sample
    assert_eq!(passes[2].samples[1][0], 99);
}

#[test]
fn mono_samples_fill_one_channel() {
    let data = [0x00, 0x09, 0x01, 0x09, 0x03, 0x09, 0x04, 0x09];
    let mut passes = parse_decorr_terms(&[23, 7]);
    parse_decorr_samples(&data, &mut passes, true);
    assert_eq!(passes[0].samples[0][..2], [256, 257]);
    assert_eq!(passes[0].samples[1], [0; 8]);
    assert_eq!(passes[1].samples[0][..2], [258, 259]);
    assert_eq!(passes[1].samples[1], [0; 8]);
}

#[test]
fn restored_samples() {
    assert_eq!(restore_sample_log2(0x0706), 65);
    assert_eq!(restore_sample_log2(-0x0706), -65);
    assert_eq!(restore_sample_log2(0x0A00), 512);
    assert_eq!(restore_sample_log2(-1), 0);
    assert_eq!(restore_sample_log2(i16::MIN), i32::MIN);
    assert_eq!(restore_sample_log2_unsigned(0), 0);
    assert_eq!(restore_sample_log2_unsigned(0x0706), 65);
    assert_eq!(read_i16_le(&[9, 0xFE, 0xFF], 1), -2);
    assert_eq!(read_i16_le(&[0x06, 0x07], 0), 0x0706);
}

#[test]
fn apply_weight_rounds() {
    assert_eq!(apply_weight(1024, 12345), 12345);
    assert_eq!(apply_weight(512, 3), 2);
    assert_eq!(apply_weight(512, -3), -1);
    assert_eq!(apply_weight(-512, 3), -1);
    assert_eq!(apply_weight(0, i32::MIN), 0);
    assert_eq!(apply_weight(1024, i32::MIN), i32::MIN);
    assert_eq!(apply_weight(i32::MAX, i32::MAX), -4194304);
}

#[test]
fn apply_weight_by_halves_agrees() {
    for weight in [-1024, -1000, -3, 0, 1, 7, 511, 1024] {
        for sample in [-2_000_000_000, -65_537, -65_536, -1, 0, 1, 32_767, 65_535, 1_999_999_999] {
            let low = (sample & 0xFFFF) as i64;
            let high = (sample >> 16) as i64;
            let w = weight as i64;
            let halves = (((low * w) >> 9) + ((high * w) << 7) + 1) >> 1;
            assert_eq!(apply_weight(weight, sample) as i64, halves);
        }
    }
}

#[test]
fn clipped_weights_stay_in_range() {
    let mut w = 1020;
    update_weight_clip(&mut w, 7, 5, 5);
    assert_eq!(w, 1024);
    update_weight_clip(&mut w, 7, 5, 5);
    assert_eq!(w, 1024);
    update_weight_clip(&mut w, 7, 5, -5);
    assert_eq!(w, 1017);
    let mut w = -1020;
    update_weight_clip(&mut w, 7, -5, 5);
    assert_eq!(w, -1024);
    update_weight_clip(&mut w, 7, 0, 5);
    assert_eq!(w, -1024);
    update_weight_clip(&mut w, 7, -5, -5);
    assert_eq!(w, -1017);
}

#[test]
fn delay_term_repeats_its_history() {
    let mut pass = DecorrPass::new(2, 2);
    pass.weights[0] = 1024;
    pass.samples[0][0] = 10;
    pass.samples[0][1] = 20;
    let mut samples = [1, 1, 1, 1, 50];
    apply_pass_mono(&mut pass, &mut samples, 4);
    // Weights move by 2 after each sample: 1024, 1026, 1028, 1030
    assert_eq!(samples, [11, 21, 12, 22, 50]);
    assert_eq!(pass.weights, [1032, 0]);
    assert_eq!(pass.samples[0][..5], [22, 12, 21, 11, 0]);
}

#[test]
fn extrapolating_terms_predict_a_line() {
    let mut pass = DecorrPass::new(17, 0);
    pass.weights[0] = 1024;
    pass.samples[0][0] = 30;
    pass.samples[0][1] = 20;
    let mut samples = [0, 0, 0];
    apply_pass_channel(&mut pass, 0, &mut samples, 3);
    assert_eq!(samples, [40, 50, 60]);

    let mut pass = DecorrPass::new(18, 0);
    pass.weights[1] = 1024;
    pass.samples[1][0] = 30;
    pass.samples[1][1] = 20;
    let mut samples = [0, 0, 0];
    apply_pass_channel(&mut pass, 1, &mut samples, 3);
    assert_eq!(samples, [35, 37, 38]);
    assert_eq!(pass.samples[1][..3], [38, 37, 35]);
}

#[test]
fn history_carries_over_to_the_next_block() {
    for term in [1, 17, 18] {
        let fresh = || {
            let mut pass = DecorrPass::new(term, 3);
            pass.weights[0] = 700;
            pass.samples[0][0] = -4;
            pass.samples[0][1] = 9;
            pass
        };
        let residuals = [5, -3, 8, 0, 100, -70, 2, 2];
        let mut whole = residuals;
        apply_pass_mono(&mut fresh(), &mut whole, 8);

        let mut pass = fresh();
        let mut first = [5, -3, 8];
        let mut second = [0, 100, -70, 2, 2];
        apply_pass_mono(&mut pass, &mut first, 3);
        apply_pass_mono(&mut pass, &mut second, 5);
        assert_eq!(whole[..3], first);
        assert_eq!(whole[3..], second);
    }
}

#[test]
fn cross_terms_feed_one_channel_to_the_other() {
    let run = |term: i32| {
        let mut pass = DecorrPass::new(term, 0);
        pass.weights = [1024, 1024];
        pass.samples[0][0] = 100;
        pass.samples[1][0] = 1000;
        let mut samples = vec![vec![1, 2], vec![10, 20]];
        apply_cross_channel(&mut pass, &mut samples, 2);
        (samples, pass.samples[0][0], pass.samples[1][0])
    };
    assert_eq!(run(-1), (vec![vec![101, 113], vec![111, 133]], 133, 1000));
    assert_eq!(run(-2), (vec![vec![1011, 1033], vec![1010, 1031]], 100, 1033));
    assert_eq!(run(-3), (vec![vec![101, 1012], vec![1010, 121]], 121, 1012));
}

#[test]
fn stereo_pass_filters_each_channel() {
    let mut pass = DecorrPass::new(1, 0);
    pass.weights = [1024, 512];
    pass.samples[0][0] = 7;
    pass.samples[1][0] = 8;
    let mut samples = vec![vec![1, 1], vec![1, 1], vec![5]];
    apply_pass_stereo(&mut pass, &mut samples, 2);
    assert_eq!(samples, vec![vec![8, 9], vec![5, 4], vec![5]]);
}

#[test]
fn passes_run_in_reverse_order() {
    let mut outer = DecorrPass::new(17, 0);
    outer.weights[0] = 1024;
    let mut inner = DecorrPass::new(1, 0);
    inner.weights[0] = 1024;
    let mut passes = vec![outer, inner];
    let mut samples = vec![vec![1, 0, 0, 0]];
    apply_decorrelation(&mut passes, &mut samples, 4, true);
    // Running sums first, then the line through the last two
    assert_eq!(samples, vec![vec![1, 3, 6, 10]]);

    let mut none: Vec<DecorrPass> = Vec::new();
    let mut samples: Vec<Vec<i32>> = Vec::new();
    apply_decorrelation(&mut none, &mut samples, 4, false);
    assert!(samples.is_empty());
}

#[test]
fn cross_terms_do_nothing_in_mono() {
    let mut passes = vec![DecorrPass::new(-2, 7)];
    passes[0].weights = [1024, 1024];
    passes[0].samples[0][0] = 5;
    let mut samples = vec![vec![3, 4]];
    apply_decorrelation(&mut passes, &mut samples, 2, true);
    assert_eq!(samples, vec![vec![3, 4]]);
    assert_eq!(passes[0].weights, [1024, 1024]);
}

#[test]
fn passes_over_no_samples_change_nothing() {
    let mut pass = DecorrPass::new(-2, 3);
    pass.weights = [5, 6];
    pass.samples[1][0] = 9;
    let mut none: Vec<Vec<i32>> = Vec::new();
    apply_cross_channel(&mut pass, &mut none, 0);
    apply_pass_stereo(&mut pass, &mut none, 0);
    let mut passes = vec![pass];
    apply_decorrelation(&mut passes, &mut none, 0, false);
    assert!(none.is_empty());
    assert_eq!(passes[0].weights, [5, 6]);
    assert_eq!(passes[0].samples[1][0], 9);

    let mut pass = DecorrPass::new(17, 3);
    pass.samples[0][0] = 4;
    let mut samples = [1, 2];
    apply_pass_channel(&mut pass, 0, &mut samples, 0);
    assert_eq!(samples, [1, 2]);
    assert_eq!(pass.samples[0][0], 4);
}

#[test]
fn a_row_of_passes_can_be_cut_in_two() {
    let row = || {
        let mut passes = parse_decorr_terms(&[0x46, 0x24, 0x57, 0x43, 0x62]);
        parse_decorr_weights(&[9, 30, 0xF0, 70, 5], &mut passes, false);
        passes
    };
    let x = vec![vec![5, -9, 100, 3, 0, -70, 8], vec![1, 1, -2, 50, 60, 7, 8]];
    for cut in 0..=5 {
        let mut whole = row();
        let mut a = x.clone();
        apply_decorrelation(&mut whole, &mut a, 6, false);

        let mut halves = row();
        let mut b = x.clone();
        apply_decorrelation(&mut halves[cut..], &mut b, 6, false);
        apply_decorrelation(&mut halves[..cut], &mut b, 6, false);
        assert_eq!(a, b);
        assert_eq!((a[0][6], a[1][6]), (8, 8));
        for (i, (p, q)) in whole.iter().zip(&halves).enumerate() {
            assert_eq!((p.term, p.delta), (row()[i].term, row()[i].delta));
            assert_eq!((p.weights, p.samples), (q.weights, q.samples));
        }
    }
}

#[test]
fn cross_terms_mirror_each_other() {
    for (term, mirror) in [(-1, -2), (-2, -1), (-3, -3)] {
        let mut p = DecorrPass::new(term, 3);
        p.weights = [300, -700];
        p.samples[0][0] = 40;
        p.samples[1][0] = -50;
        let mut q = DecorrPass::new(mirror, 3);
        q.weights = [-700, 300];
        q.samples[0][0] = -50;
        q.samples[1][0] = 40;
        let mut x = vec![vec![5, -9, 100, 3], vec![1, 1, -2, 50]];
        let mut y = vec![x[1].clone(), x[0].clone()];
        apply_cross_channel(&mut p, &mut x, 4);
        apply_cross_channel(&mut q, &mut y, 4);
        assert_eq!((&x[0], &x[1]), (&y[1], &y[0]));
        assert_eq!(p.weights, [q.weights[1], q.weights[0]]);
        assert_eq!(p.samples, [q.samples[1], q.samples[0]]);
    }
}
