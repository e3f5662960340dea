use wavpack_rs::block::{apply_int32_info, compute_crc, decode_block, determine_sample_rate};
use wavpack_rs::header::{
    BlockHeader, MetaSubBlock, FLAG_FALSE_STEREO, FLAG_JOINT_STEREO, FLAG_MONO,
};
use wavpack_rs::WavPackError;

fn header(flags: u32, block_samples: u32) -> BlockHeader {
    BlockHeader {
        block_size: 24,
        version: 0x0410,
        total_samples: block_samples as u64,
        block_index: 0,
        block_samples,
        flags,
        crc: 0,
    }
}

fn sub(id: u8, data: &[u8]) -> MetaSubBlock {
    MetaSubBlock { id, raw_id: id, data: data.to_vec() }
}

#[test]
fn crc_is_taken_frame_by_frame() {
    assert_eq!(compute_crc(&[], 0, 0), 0xFFFF_FFFF);
    let samples = vec![vec![1, 2, 9], vec![-1, 5, 9]];
    let mut crc = 0xFFFF_FFFFu32;
    for s in [1i32, -1, 2, 5] {
        crc = crc.wrapping_mul(3).wrapping_add(s as u32);
    }
    assert_eq!(compute_crc(&samples, 2, 2), crc);
    assert_eq!(compute_crc(&samples[..1], 1, 1), 0xFFFF_FFFE);
}

#[test]
fn int32_info_shifts_and_fills() {
    let run = |info: &[u8]| {
        let mut samples = vec![vec![1, -2, 7], vec![3, 4, 7]];
        apply_int32_info(&mut samples, info, 2, 2);
        samples
    };
    assert_eq!(run(&[9, 2, 5, 5]), vec![vec![4, -8, 7], vec![12, 16, 7]]);
    assert_eq!(run(&[9, 0, 2, 5]), vec![vec![7, -5, 7], vec![15, 19, 7]]);
    assert_eq!(run(&[9, 0, 0, 2]), vec![vec![7, -8, 7], vec![15, 16, 7]]);
    assert_eq!(run(&[9, 0, 0, 0]), vec![vec![1, -2, 7], vec![3, 4, 7]]);
    assert_eq!(run(&[9, 2, 2]), vec![vec![1, -2, 7], vec![3, 4, 7]]);
    // Bytes behind the fourth are not looked at
    assert_eq!(run(&[0, 1, 0, 0, 3]), vec![vec![2, -4, 7], vec![6, 8, 7]]);
    // A distance of 31 leaves only the lowest bit
    assert_eq!(run(&[0, 31, 0, 0]), vec![vec![i32::MIN, 0, 7], vec![i32::MIN, 0, 7]]);
    assert_eq!(run(&[0, 0, 31, 0]), vec![vec![-1, i32::MAX, 7], vec![-1, i32::MAX, 7]]);
}

#[test]
fn sample_rate_of_a_block() {
    let custom = [sub(0x27, &[1]), sub(0x0A, &[7, 7, 7]), sub(0x27, &[0x10, 0x20, 0x03, 9]), sub(0x27, &[1, 0, 0])];
    assert_eq!(determine_sample_rate(&header(9 << 23, 1), &custom), 44100);
    assert_eq!(determine_sample_rate(&header(10 << 23, 1), &custom), 48000);
    assert_eq!(determine_sample_rate(&header(15 << 23, 1), &custom), 0x032010);
    assert_eq!(determine_sample_rate(&header(15 << 23, 1), &custom[..2]), 44100);
    assert_eq!(determine_sample_rate(&header(15 << 23, 1), &[]), 44100);
}

#[test]
fn block_without_a_bitstream() {
    let e = decode_block(&header(FLAG_MONO, 1), &[sub(0x02, &[6])]).unwrap_err();
    assert!(matches!(e, WavPackError::BadMetadata(_)));
    assert_eq!(e.message(), "bad metadata sub-block: missing WV bitstream sub-block");
}

/// Decodes a block whose samples are `plain` before any shift.
fn decode(flags: u32, plain: &[Vec<i32>], subs: &[MetaSubBlock]) -> Vec<Vec<i32>> {
    let mut hdr = header(flags, plain[0].len() as u32);
    hdr.crc = compute_crc(plain, plain[0].len(), plain.len());
    decode_block(&hdr, subs).unwrap()
}

#[test]
fn silence_is_decoded() {
    // A run of five zeros (1,1,1,0 then 1,0), and zeros behind it
    let zeros = vec![vec![0; 9]];
    assert_eq!(decode(FLAG_MONO, &zeros, &[sub(0x0A, &[0x17])]), zeros);
    // An empty bitstream reads as zeros, too
    let zeros = vec![vec![0; 4]; 2];
    assert_eq!(decode(0, &zeros, &[sub(0x0A, &[])]), zeros);
}

#[test]
fn wrong_checksum_is_an_error() {
    let subs = [sub(0x05, &EVARS), sub(0x0A, &[0b0001_0110]), sub(0x09, &[0, 0, 1, 0])];
    let crc = compute_crc(&[vec![-4, 0]], 2, 1);
    let mut hdr = header(FLAG_MONO | (3 << 13), 2);
    hdr.crc = crc ^ 0x10;
    match decode_block(&hdr, &subs) {
        Err(WavPackError::CrcMismatch { expected, actual }) => {
            assert_eq!((expected, actual), (crc ^ 0x10, crc));
        }
        _ => panic!("no mismatch"),
    }
    hdr.crc = crc;
    assert!(decode_block(&hdr, &subs).is_ok());
}

#[test]
fn checksum_detects_a_single_change() {
    let a = vec![vec![1, -2, 3, i32::MIN], vec![4, 5, -6, 7]];
    for ch in 0..2 {
        for i in 0..4 {
            for change in [1, -1, 1 << 30, i32::MIN, 0x5555_5555] {
                let mut b = a.clone();
                b[ch][i] = i32::wrapping_add(b[ch][i], change);
                assert_ne!(compute_crc(&a, 4, 2), compute_crc(&b, 4, 2));
            }
        }
    }
}

/// Medians of 65, 0 and 0: the first residual is in 0..=4 for zone 0.
const EVARS: [u8; 6] = [0x06, 0x07, 0, 0, 0, 0];

#[test]
fn residuals_are_the_samples_without_passes() {
    // Zone word 0, remainder 3 of 0..=4 (1,1 and then 0), sign 1: -4
    // then, zone 0 promised, remainder 0 (0,0), sign 0: 0
    let bits = [0b0001_0110];
    let plain = vec![vec![-4, 0]];
    assert_eq!(decode(FLAG_MONO, &plain, &[sub(0x05, &EVARS), sub(0x0A, &bits)]), plain);
}

#[test]
fn last_sub_block_of_a_kind_wins() {
    let plain = vec![vec![-4, 0]];
    let subs = [sub(0x05, &[]), sub(0x0A, &[0]), sub(0x05, &EVARS), sub(0x0A, &[0b0001_0110])];
    assert_eq!(decode(FLAG_MONO, &plain, &subs), plain);
}

#[test]
fn left_shift_comes_after_the_checksum() {
    let subs = [sub(0x05, &EVARS), sub(0x0A, &[0b0001_0110]), sub(0x09, &[0, 0, 1, 0])];
    let channels = decode(FLAG_MONO | (3 << 13), &[vec![-4, 0]], &subs);
    assert_eq!(channels, vec![vec![-63, 1]]);
}

#[test]
fn false_stereo_block_holds_one_channel() {
    let subs = [sub(0x05, &EVARS), sub(0x0A, &[0b0001_0110])];
    let plain = vec![vec![-4, 0]];
    assert_eq!(decode(FLAG_FALSE_STEREO | FLAG_JOINT_STEREO, &plain, &subs), plain);
}

#[test]
fn passes_and_joint_stereo_are_undone() {
    // Difference -4, side 0: the right channel is 2, the left -2
    let evars = [0x06, 0x07, 0, 0, 0, 0, 0x06, 0x07, 0, 0, 0, 0];
    let subs = [sub(0x05, &evars), sub(0x0A, &[0b0001_0110])];
    let plain = vec![vec![-2], vec![2]];
    assert_eq!(decode(FLAG_JOINT_STEREO, &plain, &subs), plain);
    let plain = vec![vec![-4], vec![0]];
    assert_eq!(decode(0, &plain, &subs), plain);

    // One pass of term 1 with weight 1024 in both channels: 127 stands for 1024
    let subs = [
        sub(0x02, &[6]),
        sub(0x03, &[127, 127]),
        sub(0x04, &[0x00, 0x09, 0x01, 0x09]),
        sub(0x05, &evars),
        sub(0x0A, &[0b0001_0110]),
    ];
    let plain = vec![vec![252], vec![257]];
    assert_eq!(decode(0, &plain, &subs), plain);
}

#[test]
fn int32_info_over_no_samples() {
    let mut samples = vec![vec![1, 2]];
    apply_int32_info(&mut samples, &[0, 1, 0, 0], 0, 5);
    assert_eq!(samples, vec![vec![1, 2]]);
}
