use wavpack_rs::error::IoError;
use wavpack_rs::text::{push_decimal, push_hex};
use wavpack_rs::WavPackError;

#[test]
fn every_error_has_its_text() {
    let cases = [
        (WavPackError::Io(IoError::UnexpectedEof), "I/O error: failed to fill whole buffer"),
        (WavPackError::BadMagic, "invalid WavPack magic (expected 'wvpk')"),
        (WavPackError::UnsupportedVersion(0x3F), "unsupported WavPack version 0x003f"),
        (WavPackError::HybridNotSupported, "hybrid (lossy) mode not supported"),
        (WavPackError::FloatNotSupported, "floating-point data not supported"),
        (WavPackError::DsdNotSupported, "DSD audio not supported"),
        (WavPackError::BadHeader("a".to_string()), "bad block header: a"),
        (WavPackError::BadMetadata("b".to_string()), "bad metadata sub-block: b"),
        (WavPackError::EntropyError("c".to_string()), "entropy decode error: c"),
        (WavPackError::DecorrelationError("d".to_string()), "decorrelation error: d"),
        (
            WavPackError::CrcMismatch { expected: 0xDEADBEEF, actual: 7 },
            "CRC mismatch: expected 0xdeadbeef, got 0x00000007",
        ),
        (WavPackError::NoAudioBlocks, "no audio blocks found in file"),
    ];
    for (e, text) in cases {
        assert_eq!(e.message(), text);
    }
}

#[test]
fn numbers_as_text() {
    for x in [0u32, 9, 10, 15, 16, 99, 255, 4096, 0xFFFF_FFFF] {
        let mut s = "<".to_string();
        push_hex(&mut s, x, 8);
        assert_eq!(s, format!("<{x:08x}"));
        let mut s = "<".to_string();
        push_decimal(&mut s, x as usize);
        assert_eq!(s, format!("<{x}"));
    }
    let mut s = String::new();
    push_hex(&mut s, 0x0A, 2);
    push_hex(&mut s, 0x0A, 0);
    assert_eq!(s, "0a");
}
