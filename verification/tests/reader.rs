use wavpack_rs::header::{
    FLAG_DSD, FLAG_FALSE_STEREO, FLAG_FLOAT, FLAG_HYBRID, FLAG_MONO, FLAG_SAMPLE_RATE_SHIFT,
};
use wavpack_rs::{compute_crc, ByteReader, WavPackError, WavPackReader};

/// A block with the given sub-blocks, each an ID and its data.
fn block(flags: u32, total: u64, n: u32, crc: u32, subs: &[(u8, &[u8])]) -> Vec<u8> {
    let mut payload = Vec::new();
    for (id, data) in subs {
        let odd = if data.len() % 2 == 1 { 0x40 } else { 0 };
        payload.push(id | odd);
        payload.push(((data.len() + 1) / 2) as u8);
        payload.extend_from_slice(data);
        if odd != 0 {
            payload.push(0);
        }
    }
    let mut buf = b"wvpk".to_vec();
    buf.extend_from_slice(&(24 + payload.len() as u32).to_le_bytes());
    buf.extend_from_slice(&0x0410u16.to_le_bytes());
    buf.push(0);
    buf.push((total >> 32) as u8);
    buf.extend_from_slice(&(total as u32).to_le_bytes());
    buf.extend_from_slice(&0u32.to_le_bytes());
    buf.extend_from_slice(&n.to_le_bytes());
    buf.extend_from_slice(&flags.to_le_bytes());
    buf.extend_from_slice(&crc.to_le_bytes());
    buf.extend_from_slice(&payload);
    buf
}

fn open(bytes: Vec<u8>) -> Result<WavPackReader, WavPackError> {
    WavPackReader::new(ByteReader::new(bytes))
}

fn collect(reader: &mut WavPackReader) -> Result<Vec<i32>, WavPackError> {
    let mut out = Vec::new();
    let mut it = reader.samples();
    while let Some(item) = it.next() {
        out.push(item?);
    }
    Ok(out)
}

const EVARS: [u8; 12] = [0x06, 0x07, 0, 0, 0, 0, 0x06, 0x07, 0, 0, 0, 0];

/// Decodes to -4, 0 as two residuals.
const BITS: [u8; 1] = [0b0001_0110];

/// The checksum of samples in the order in which they come out.
fn crc_of(samples: &[i32]) -> u32 {
    compute_crc(&[samples.to_vec()], samples.len(), 1)
}

#[test]
fn parse_stereo16_header() {
    let flags = 1 | (9 << FLAG_SAMPLE_RATE_SHIFT);
    let reader = open(block(flags, 22050, 22050, 0, &[(0x0A, &[])])).unwrap();
    let info = reader.info();
    assert_eq!(info.sample_rate, 44100);
    assert_eq!(info.channels, 2);
    assert_eq!(info.bits_per_sample, 16);
    assert_eq!(info.total_samples, 22050 * 2); // 0.5s x 44100 x 2ch
}

#[test]
fn parse_mono16_header() {
    let flags = 1 | FLAG_MONO | (9 << FLAG_SAMPLE_RATE_SHIFT);
    let reader = open(block(flags, 22050, 22050, 0, &[(0x0A, &[])])).unwrap();
    let info = reader.info();
    assert_eq!(info.sample_rate, 44100);
    assert_eq!(info.channels, 1);
    assert_eq!(info.bits_per_sample, 16);
    assert_eq!(info.total_samples, 22050);
}

#[test]
fn parse_stereo24_header() {
    let flags = 2 | (9 << FLAG_SAMPLE_RATE_SHIFT);
    let reader = open(block(flags, 22050, 22050, 0, &[(0x0A, &[])])).unwrap();
    let info = reader.info();
    assert_eq!(info.sample_rate, 44100);
    assert_eq!(info.channels, 2);
    assert_eq!(info.bits_per_sample, 24);
}

#[test]
fn parse_48k_header() {
    let flags = 1 | (10 << FLAG_SAMPLE_RATE_SHIFT);
    let reader = open(block(flags, 24000, 24000, 0, &[(0x0A, &[])])).unwrap();
    let info = reader.info();
    assert_eq!(info.sample_rate, 48000);
    assert_eq!(info.channels, 2);
    assert_eq!(info.bits_per_sample, 16);
}

#[test]
fn unknown_length_and_custom_rate() {
    let flags = 3 | (15 << FLAG_SAMPLE_RATE_SHIFT);
    let subs: [(u8, &[u8]); 2] = [(0x27, &[0x80, 0xBB, 0x00]), (0x0A, &[])];
    let reader = open(block(flags, 0xFF_FFFF_FFFF, 1, 0, &subs)).unwrap();
    assert_eq!(reader.info().total_samples, 0);
    assert_eq!(reader.info().sample_rate, 48000);
    assert_eq!(reader.info().bits_per_sample, 32);

    let reader = open(block(flags, 0xFF_FFFF_FFFE, 1, 0, &subs)).unwrap();
    assert_eq!(reader.info().total_samples, 0x1FF_FFFF_FFFC);
}

#[test]
fn opening_fails_without_a_block() {
    assert!(matches!(open(Vec::new()), Err(WavPackError::NoAudioBlocks)));
    assert!(matches!(open(b"RIFF....WAVEfmt ".to_vec()), Err(WavPackError::NoAudioBlocks)));
    assert!(matches!(open(b"..wvpk..".to_vec()), Err(WavPackError::Io(_))));
}

#[test]
fn unsupported_features_are_rejected() {
    let subs: [(u8, &[u8]); 1] = [(0x0A, &[])];
    let with = |flags: u32| open(block(flags, 1, 1, 0, &subs));
    assert!(matches!(with(FLAG_HYBRID), Err(WavPackError::HybridNotSupported)));
    assert!(matches!(with(FLAG_FLOAT), Err(WavPackError::FloatNotSupported)));
    assert!(matches!(with(FLAG_DSD), Err(WavPackError::DsdNotSupported)));
    assert!(matches!(with(FLAG_DSD | FLAG_FLOAT), Err(WavPackError::FloatNotSupported)));
    assert!(matches!(with(FLAG_DSD | FLAG_FLOAT | FLAG_HYBRID), Err(WavPackError::HybridNotSupported)));

    // A later block is rejected when it is reached
    let mut bytes = block(FLAG_MONO, 2, 1, crc_of(&[0]), &[(0x0A, &[])]);
    bytes.extend(block(FLAG_MONO | FLAG_HYBRID, 2, 1, 0, &[(0x0A, &[])]));
    let mut reader = open(bytes).unwrap();
    let mut it = reader.samples();
    assert!(matches!(it.next(), Some(Ok(0))));
    assert!(matches!(it.next(), Some(Err(WavPackError::HybridNotSupported))));
    assert!(it.next().is_none());
    assert!(it.next().is_none());
}

#[test]
fn opening_checks_the_first_payload() {
    let mut bytes = block(FLAG_MONO, 1, 1, 0, &[(0x0A, &[1, 2])]);
    bytes.pop();
    assert!(matches!(open(bytes), Err(WavPackError::Io(_))));

    let mut bytes = block(FLAG_MONO, 1, 1, 0, &[(0x0A, &[1, 2])]);
    bytes[33] = 9;
    assert!(matches!(open(bytes), Err(WavPackError::BadMetadata(_))));

    let mut bytes = block(FLAG_MONO, 1, 1, 0, &[]);
    bytes[4] = 23;
    assert!(matches!(open(bytes), Err(WavPackError::BadHeader(_))));

    let mut bytes = block(FLAG_MONO, 1, 1, 0, &[]);
    bytes[8] = 0x11;
    assert!(matches!(open(bytes), Err(WavPackError::UnsupportedVersion(0x0411))));
}

#[test]
fn stereo_samples_are_interleaved() {
    let subs: [(u8, &[u8]); 2] = [(0x05, &EVARS), (0x0A, &BITS)];
    let mut bytes = b"junk before".to_vec();
    bytes.extend(block(1, 1, 1, crc_of(&[-4, 0]), &subs));
    bytes.extend_from_slice(b"junk between");
    bytes.extend(block(1, 0, 0, 0, &[(0x21, &[5, 5, 5])]));
    bytes.extend(block(1, 1, 1, crc_of(&[-4, 0]), &subs));
    bytes.extend_from_slice(b"wvp");
    assert_eq!(collect(&mut open(bytes.clone()).unwrap()).unwrap(), vec![-4, 0, -4, 0]);
    let all = open(bytes).unwrap().decode_all().unwrap();
    assert_eq!(all, vec![vec![-4, -4], vec![0, 0]]);
}

#[test]
fn mono_samples_come_in_order() {
    let subs: [(u8, &[u8]); 2] = [(0x05, &EVARS), (0x0A, &BITS)];
    let bytes = block(FLAG_MONO, 2, 2, crc_of(&[-4, 0]), &subs);
    assert_eq!(collect(&mut open(bytes.clone()).unwrap()).unwrap(), vec![-4, 0]);
    assert_eq!(open(bytes).unwrap().decode_all().unwrap(), vec![vec![-4, 0]]);
}

#[test]
fn false_stereo_goes_to_both_channels() {
    let subs: [(u8, &[u8]); 2] = [(0x05, &EVARS), (0x0A, &BITS)];
    let bytes = block(FLAG_FALSE_STEREO, 2, 2, crc_of(&[-4, 0]), &subs);
    let mut reader = open(bytes.clone()).unwrap();
    assert_eq!(reader.info().channels, 2);
    assert_eq!(collect(&mut reader).unwrap(), vec![-4, -4, 0, 0]);
    assert_eq!(open(bytes).unwrap().decode_all().unwrap(), vec![vec![-4, 0], vec![-4, 0]]);
}

#[test]
fn decode_all_takes_up_where_the_samples_stopped() {
    let subs: [(u8, &[u8]); 2] = [(0x05, &EVARS), (0x0A, &BITS)];
    let mut reader = open(block(FLAG_MONO, 2, 2, crc_of(&[-4, 0]), &subs)).unwrap();
    assert!(matches!(reader.samples().next(), Some(Ok(-4))));
    assert_eq!(reader.decode_all().unwrap(), vec![vec![0]]);
    assert_eq!(reader.decode_all().unwrap(), vec![Vec::<i32>::new()]);
}

#[test]
fn errors_in_the_middle_of_a_file() {
    let good: [(u8, &[u8]); 1] = [(0x0A, &[])];
    let mut bytes = block(FLAG_MONO, 3, 1, crc_of(&[0]), &good);
    bytes.extend(block(FLAG_MONO, 3, 1, 0, &[(0x02, &[6])]));
    bytes.extend(block(FLAG_MONO, 3, 1, crc_of(&[0]), &good));
    let mut reader = open(bytes.clone()).unwrap();
    let mut it = reader.samples();
    assert!(matches!(it.next(), Some(Ok(0))));
    assert!(matches!(it.next(), Some(Err(WavPackError::BadMetadata(_)))));
    // Reading goes on behind the block
    assert!(matches!(it.next(), Some(Ok(0))));
    assert!(it.next().is_none());

    assert!(matches!(open(bytes).unwrap().decode_all(), Err(WavPackError::BadMetadata(_))));
}

#[test]
fn wrong_checksum_in_the_middle_of_a_file() {
    let subs: [(u8, &[u8]); 2] = [(0x05, &EVARS), (0x0A, &BITS)];
    let crc = crc_of(&[-4, 0]);
    let mut bytes = block(FLAG_MONO, 6, 2, crc, &subs);
    bytes.extend(block(FLAG_MONO, 6, 2, crc ^ 1, &subs));
    bytes.extend(block(FLAG_MONO, 6, 2, crc, &subs));
    let mut reader = open(bytes.clone()).unwrap();
    let mut it = reader.samples();
    assert!(matches!(it.next(), Some(Ok(-4))));
    assert!(matches!(it.next(), Some(Ok(0))));
    match it.next() {
        Some(Err(WavPackError::CrcMismatch { expected, actual })) => {
            assert_eq!((expected, actual), (crc ^ 1, crc));
        }
        _ => panic!("no mismatch"),
    }
    // Reading goes on behind the block
    assert!(matches!(it.next(), Some(Ok(-4))));
    assert!(matches!(it.next(), Some(Ok(0))));
    assert!(it.next().is_none());

    assert!(matches!(open(bytes).unwrap().decode_all(), Err(WavPackError::CrcMismatch { .. })));
}

#[test]
fn silent_block_of_any_kind_is_dropped() {
    let subs: [(u8, &[u8]); 2] = [(0x05, &EVARS), (0x0A, &BITS)];
    let good = block(FLAG_MONO, 2, 2, crc_of(&[-4, 0]), &subs);
    for flags in [0, FLAG_HYBRID, FLAG_FLOAT, FLAG_DSD] {
        let mut bytes = good.clone();
        bytes.extend(block(flags, 0, 0, 99, &[(0x21, &[1])]));
        bytes.extend(good.clone());
        assert_eq!(collect(&mut open(bytes).unwrap()).unwrap(), vec![-4, 0, -4, 0]);
    }
}
