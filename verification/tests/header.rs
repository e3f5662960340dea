use wavpack_rs::error::WavPackError;
use wavpack_rs::header::{
    parse_metadata, read_block_header, read_block_payload, sync_to_block, BlockHeader, MetaSubBlock, FLAG_CROSS_DECORR, FLAG_DSD, FLAG_FINAL_BLOCK,
    FLAG_FLOAT, FLAG_HAS_CHECKSUM, FLAG_HYBRID, FLAG_INITIAL_BLOCK, FLAG_JOINT_STEREO,
    FLAG_MAX_MAGNITUDE_SHIFT, FLAG_MONO, FLAG_SAMPLE_RATE_SHIFT, ID_FLAG_LARGE, ID_FLAG_ODD_SIZE,
};
use wavpack_rs::source::ByteReader;

#[test]
fn parse_header_from_bytes() {
    // Hand-crafted minimal WavPack header
    let mut buf = Vec::new();
    buf.extend_from_slice(b"wvpk"); // magic
    buf.extend_from_slice(&100u32.to_le_bytes()); // block_size
    buf.extend_from_slice(&0x0410u16.to_le_bytes()); // version
    buf.push(0); // block_index_u8
    buf.push(0); // total_samples_u8
    buf.extend_from_slice(&44100u32.to_le_bytes()); // total_samples (lo)
    buf.extend_from_slice(&0u32.to_le_bytes()); // block_index (lo)
    buf.extend_from_slice(&22050u32.to_le_bytes()); // block_samples
    // flags: 16-bit stereo, lossless, joint, initial+final, sr_idx=9, checksum
    let flags: u32 = 0x01 // 2 bytes/sample
        | FLAG_JOINT_STEREO
        | FLAG_CROSS_DECORR
        | FLAG_INITIAL_BLOCK
        | FLAG_FINAL_BLOCK
        | (15 << FLAG_MAX_MAGNITUDE_SHIFT) // 15 = 16-bit magnitude
        | (9 << FLAG_SAMPLE_RATE_SHIFT) // 44100 Hz
        | FLAG_HAS_CHECKSUM;
    buf.extend_from_slice(&flags.to_le_bytes());
    buf.extend_from_slice(&0xDEADBEEFu32.to_le_bytes()); // crc

    let mut cursor = ByteReader::new(buf);
    let hdr = read_block_header(&mut cursor).unwrap().unwrap();

    assert_eq!(hdr.version, 0x0410);
    assert_eq!(hdr.total_samples, 44100);
    assert_eq!(hdr.block_samples, 22050);
    assert_eq!(hdr.bits_per_sample(), 16);
    assert!(!hdr.is_mono());
    assert!(hdr.is_joint_stereo());
    assert!(hdr.is_initial_block());
    assert!(hdr.is_final_block());
    assert!(!hdr.is_hybrid());
    assert_eq!(hdr.sample_rate(), Some(44100));
    assert_eq!(hdr.max_magnitude(), 15);
    assert_eq!(hdr.left_shift(), 0);
    assert_eq!(hdr.crc, 0xDEADBEEF);
}

#[test]
fn parse_metadata_sub_blocks() {
    // Small sub-block: ID=0x02, size=3 words (6 bytes), odd flag (actual 5 bytes)
    let mut payload = Vec::new();
    payload.push(0x02 | ID_FLAG_ODD_SIZE); // id with odd flag
    payload.push(3); // 3 words = 6 bytes stored, 5 bytes actual
    payload.extend_from_slice(&[1, 2, 3, 4, 5, 0]); // data + padding

    // Large sub-block: ID=0x0a with large flag, size=2 words
    payload.push(0x0a | ID_FLAG_LARGE);
    payload.extend_from_slice(&[2, 0, 0]); // 24-bit LE: 2 words = 4 bytes
    payload.extend_from_slice(&[0xAA, 0xBB, 0xCC, 0xDD]);

    let subs = parse_metadata(&payload).unwrap();
    assert_eq!(subs.len(), 2);
    assert_eq!(subs[0].id, 0x02);
    assert_eq!(subs[0].data, &[1, 2, 3, 4, 5]);
    assert_eq!(subs[1].id, 0x0a);
    assert_eq!(subs[1].data, &[0xAA, 0xBB, 0xCC, 0xDD]);
}

#[test]
fn eof_returns_none() {
    let mut cursor = ByteReader::new(Vec::<u8>::new());
    assert!(read_block_header(&mut cursor).unwrap().is_none());
}

#[test]
fn bad_magic_is_error() {
    let mut cursor = ByteReader::new(b"RIFFxxxxxxxxxxxxxxxxxxxxxxxxxxxxxx".to_vec());
    assert!(matches!(
        read_block_header(&mut cursor),
        Err(WavPackError::BadMagic)
    ));
}

#[test]
fn flag_accessors() {
    let hdr = BlockHeader {
        block_size: 100,
        version: 0x0410,
        total_samples: 1000,
        block_index: 0,
        block_samples: 1000,
        flags: FLAG_MONO | FLAG_HYBRID | FLAG_FLOAT | FLAG_DSD | 0x02, // 3 bytes/sample
        crc: 0,
    };
    assert!(hdr.is_mono());
    assert!(hdr.is_hybrid());
    assert!(hdr.is_float());
    assert!(hdr.is_dsd());
    assert_eq!(hdr.bytes_per_sample(), 3);
    assert_eq!(hdr.bits_per_sample(), 24);
    assert_eq!(hdr.block_channels(), 1);
}

fn header_with_flags(flags: u32) -> BlockHeader {
    BlockHeader {
        block_size: 24,
        version: 0x0402,
        total_samples: 0,
        block_index: 0,
        block_samples: 0,
        flags,
        crc: 0,
    }
}

fn header_bytes(h: &BlockHeader) -> Vec<u8> {
    let mut buf = b"wvpk".to_vec();
    buf.extend_from_slice(&h.block_size.to_le_bytes());
    buf.extend_from_slice(&h.version.to_le_bytes());
    buf.push((h.block_index >> 32) as u8);
    buf.push((h.total_samples >> 32) as u8);
    buf.extend_from_slice(&(h.total_samples as u32).to_le_bytes());
    buf.extend_from_slice(&(h.block_index as u32).to_le_bytes());
    buf.extend_from_slice(&h.block_samples.to_le_bytes());
    buf.extend_from_slice(&h.flags.to_le_bytes());
    buf.extend_from_slice(&h.crc.to_le_bytes());
    buf
}

#[test]
fn header_round_trip() {
    let h = BlockHeader {
        block_size: 0x0403_0201,
        version: 0x0403,
        total_samples: 0xFE_DCBA_9876,
        block_index: 0x12_3456_789A,
        block_samples: 0x0102_0304,
        flags: 0x8765_4321,
        crc: 0xCAFE_F00D,
    };
    let mut bytes = header_bytes(&h);
    bytes.push(0xAA);
    let mut reader = ByteReader::new(bytes);
    let r = read_block_header(&mut reader).unwrap().unwrap();
    assert_eq!(r.block_size, h.block_size);
    assert_eq!(r.version, h.version);
    assert_eq!(r.total_samples, h.total_samples);
    assert_eq!(r.block_index, h.block_index);
    assert_eq!(r.block_samples, h.block_samples);
    assert_eq!(r.flags, h.flags);
    assert_eq!(r.crc, h.crc);
    assert_eq!(reader.position(), 32);
    assert_eq!(reader.remaining(), 1);
}

#[test]
fn short_header_is_an_io_error() {
    let mut bytes = header_bytes(&header_with_flags(0));
    bytes.truncate(31);
    let mut reader = ByteReader::new(bytes);
    let e = read_block_header(&mut reader).unwrap_err();
    assert!(matches!(e, WavPackError::Io(_)));
    assert_eq!(e.message(), "I/O error: failed to fill whole buffer");
    assert_eq!(reader.remaining(), 0);
}

#[test]
fn part_of_the_magic_is_an_io_error() {
    for n in 1..4 {
        let mut reader = ByteReader::new(b"wvpk"[..n].to_vec());
        let e = read_block_header(&mut reader).unwrap_err();
        assert!(matches!(e, WavPackError::Io(_)));
        assert_eq!(reader.remaining(), 0);
        // Behind it is the end of the file
        assert!(read_block_header(&mut reader).unwrap().is_none());
    }
}

#[test]
fn versions_outside_the_range_are_rejected() {
    for (version, good) in [(0x0401, false), (0x0402, true), (0x0410, true), (0x0411, false)] {
        let mut h = header_with_flags(0);
        h.version = version;
        let mut reader = ByteReader::new(header_bytes(&h));
        match read_block_header(&mut reader) {
            Ok(Some(r)) => assert!(good && r.version == version),
            Err(WavPackError::UnsupportedVersion(v)) => assert!(!good && v == version),
            _ => panic!("unexpected result"),
        }
        assert_eq!(reader.position(), 32);
    }
}

#[test]
fn sync_skips_to_the_magic() {
    let mut reader = ByteReader::new(b"xxwvwvpwvpkwvpk".to_vec());
    assert!(sync_to_block(&mut reader).unwrap());
    assert_eq!(reader.position(), 7);
    assert!(sync_to_block(&mut reader).unwrap());
    assert_eq!(reader.position(), 7);

    let mut reader = ByteReader::new(b"wvp wvp".to_vec());
    assert!(!sync_to_block(&mut reader).unwrap());
    assert_eq!(reader.remaining(), 0);
}

#[test]
fn payload_follows_the_header() {
    let mut h = header_with_flags(0);
    h.block_size = 27;
    let mut reader = ByteReader::new(vec![1, 2, 3, 4]);
    assert_eq!(read_block_payload(&mut reader, &h).unwrap(), vec![1, 2, 3]);
    assert_eq!(reader.position(), 3);

    let e = read_block_payload(&mut reader, &h).unwrap_err();
    assert!(matches!(e, WavPackError::Io(_)));
    assert_eq!(reader.position(), 4);

    h.block_size = 23;
    let e = read_block_payload(&mut reader, &h).unwrap_err();
    assert!(matches!(e, WavPackError::BadHeader(_)));
    assert_eq!(e.message(), "bad block header: block_size too small");

    h.block_size = 24;
    assert!(read_block_payload(&mut reader, &h).unwrap().is_empty());
}

#[test]
fn metadata_errors() {
    let cases: [(Vec<u8>, &str); 5] = [
        (vec![0x02], "bad metadata sub-block: truncated small size"),
        (vec![0x82, 0, 0], "bad metadata sub-block: truncated large size"),
        (
            vec![0x25, 3, 1, 2, 3],
            "bad metadata sub-block: sub-block 0x25 claims 6 bytes but only 3 remain",
        ),
        (
            vec![0xC5, 0x40, 0x0D, 0x03],
            "bad metadata sub-block: sub-block 0x05 claims 400000 bytes but only 0 remain",
        ),
        // A good sub-block before a bad one does not save it
        (vec![0x0A, 1, 7, 8, 0x0B], "bad metadata sub-block: truncated small size"),
    ];
    for (payload, text) in cases {
        let e = parse_metadata(&payload).unwrap_err();
        assert!(matches!(e, WavPackError::BadMetadata(_)));
        assert_eq!(e.message(), text);
    }
}

#[test]
fn metadata_edge_sizes() {
    assert!(parse_metadata(&[]).unwrap().is_empty());
    // Empty data, with and without the odd flag
    let subs = parse_metadata(&[0x40, 0, 0x00, 0]).unwrap();
    assert_eq!(subs.len(), 2);
    assert!(subs[0].data.is_empty() && subs[1].data.is_empty());
    assert_eq!((subs[0].id, subs[0].raw_id), (0, 0x40));
}

#[test]
fn metadata_round_trip() {
    let data: Vec<u8> = (0..1001u32).map(|i| (i * 7) as u8).collect();
    let mut payload = vec![0xE1, 0xF5, 0x01, 0x00];
    payload.extend_from_slice(&data);
    payload.push(0);
    payload.extend_from_slice(&[0x27, 1, 9, 8]);
    let subs = parse_metadata(&payload).unwrap();
    assert_eq!(subs.len(), 2);
    assert_eq!((subs[0].id, subs[0].raw_id), (0x21, 0xE1));
    assert_eq!(subs[0].data, data);
    assert_eq!((subs[1].id, subs[1].raw_id), (0x27, 0x27));
    assert_eq!(subs[1].data, vec![9, 8]);
}

#[test]
fn optional_sub_blocks() {
    let sub = |raw_id: u8| MetaSubBlock { id: raw_id & 0x3F, raw_id, data: Vec::new() };
    assert!(sub(0x21).is_optional());
    assert!(sub(0xE1).is_optional());
    assert!(!sub(0x0A).is_optional());
    assert!(!sub(0xC0).is_optional());
}

#[test]
fn every_flag_has_its_own_accessor() {
    let read = |h: &BlockHeader| {
        [
            (2, h.is_mono()),
            (3, h.is_hybrid()),
            (4, h.is_joint_stereo()),
            (5, h.is_cross_decorr()),
            (7, h.is_float()),
            (8, h.has_int32_info()),
            (11, h.is_initial_block()),
            (12, h.is_final_block()),
            (28, h.has_checksum()),
            (30, h.is_false_stereo()),
            (31, h.is_dsd()),
        ]
    };
    for bit in 0..32u32 {
        for (k, set) in read(&header_with_flags(1 << bit)) {
            assert_eq!(set, k == bit);
        }
        for (k, set) in read(&header_with_flags(!(1 << bit))) {
            assert_eq!(set, k != bit);
        }
    }
}

#[test]
fn fields_of_the_flags() {
    let h = header_with_flags((21 << 13) | (10 << 18) | (14 << 23) | 3);
    assert_eq!(h.left_shift(), 21);
    assert_eq!(h.max_magnitude(), 10);
    assert_eq!(h.sample_rate_index(), 14);
    assert_eq!(h.sample_rate(), Some(192000));
    assert_eq!(h.bytes_per_sample(), 4);
    assert_eq!(h.bits_per_sample(), 32);
    assert_eq!(h.block_channels(), 2);
    assert_eq!(header_with_flags(15 << 23).sample_rate(), None);
    assert_eq!(header_with_flags(0).sample_rate(), Some(6000));
}

#[test]
fn payloads_can_be_joined() {
    let a = vec![0x42, 2, 1, 2, 3, 0];
    let b = vec![0x8A, 1, 0, 0, 8, 9, 0x25, 0];
    let ids = |p: &[u8]| -> Vec<(u8, Vec<u8>)> {
        parse_metadata(p).unwrap().into_iter().map(|sb| (sb.raw_id, sb.data)).collect()
    };
    assert_eq!(ids(&[a.clone(), b.clone()].concat()), [ids(&a), ids(&b)].concat());
    assert_eq!(ids(&[]), Vec::new());
}
