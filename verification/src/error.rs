//! Decoding errors.
use crate::text;
use vstd::prelude::*;
use vstd::string::*;

verus! {

/// What can go wrong at a byte source.
#[derive(Debug, Clone, Copy, PartialEq, Eq, Structural)]
pub enum IoError {
    /// The source ended before a read was filled.
    UnexpectedEof,
}

/// Errors that can occur during WavPack decoding.
#[derive(Debug)]
pub enum WavPackError {
    /// I/O error from the underlying reader.
    Io(IoError),
    /// Invalid or missing "wvpk" magic bytes.
    BadMagic,
    /// Unsupported WavPack version.
    UnsupportedVersion(u16),
    /// Hybrid (lossy) mode is not supported.
    HybridNotSupported,
    /// Floating-point data is not supported.
    FloatNotSupported,
    /// DSD audio is not supported.
    DsdNotSupported,
    /// Corrupt or truncated block header.
    BadHeader(String),
    /// Corrupt or truncated metadata sub-block.
    BadMetadata(String),
    /// Error in entropy decoding (bitstream corruption).
    EntropyError(String),
    /// Error in decorrelation filter.
    DecorrelationError(String),
    /// CRC mismatch after decoding a block.
    CrcMismatch { expected: u32, actual: u32 },
    /// No audio blocks found in the file.
    NoAudioBlocks,
}

/// The mathematical value of an error.
#[verifier::ext_equal]
pub enum ErrorModel {
    Io(IoError),
    BadMagic,
    UnsupportedVersion(u16),
    HybridNotSupported,
    FloatNotSupported,
    DsdNotSupported,
    BadHeader(Seq<char>),
    BadMetadata(Seq<char>),
    EntropyError(Seq<char>),
    DecorrelationError(Seq<char>),
    CrcMismatch { expected: u32, actual: u32 },
    NoAudioBlocks,
}

impl View for WavPackError {
    type V = ErrorModel;

    open spec fn view(&self) -> ErrorModel {
        match *self {
            WavPackError::Io(e) => ErrorModel::Io(e),
            WavPackError::BadMagic => ErrorModel::BadMagic,
            WavPackError::UnsupportedVersion(v) => ErrorModel::UnsupportedVersion(v),
            WavPackError::HybridNotSupported => ErrorModel::HybridNotSupported,
            WavPackError::FloatNotSupported => ErrorModel::FloatNotSupported,
            WavPackError::DsdNotSupported => ErrorModel::DsdNotSupported,
            WavPackError::BadHeader(msg) => ErrorModel::BadHeader(msg@),
            WavPackError::BadMetadata(msg) => ErrorModel::BadMetadata(msg@),
            WavPackError::EntropyError(msg) => ErrorModel::EntropyError(msg@),
            WavPackError::DecorrelationError(msg) => ErrorModel::DecorrelationError(msg@),
            WavPackError::CrcMismatch { expected, actual } => ErrorModel::CrcMismatch {
                expected,
                actual,
            },
            WavPackError::NoAudioBlocks => ErrorModel::NoAudioBlocks,
        }
    }
}

impl ErrorModel {
    /// The text of an error.
    pub open spec fn text(self) -> Seq<char> {
        match self {
            ErrorModel::Io(e) => "I/O error: failed to fill whole buffer"@,
            ErrorModel::BadMagic => "invalid WavPack magic (expected 'wvpk')"@,
            ErrorModel::UnsupportedVersion(v) => "unsupported WavPack version 0x"@
                + text::hex_text(v as nat, 4),
            ErrorModel::HybridNotSupported => "hybrid (lossy) mode not supported"@,
            ErrorModel::FloatNotSupported => "floating-point data not supported"@,
            ErrorModel::DsdNotSupported => "DSD audio not supported"@,
            ErrorModel::BadHeader(msg) => "bad block header: "@ + msg,
            ErrorModel::BadMetadata(msg) => "bad metadata sub-block: "@ + msg,
            ErrorModel::EntropyError(msg) => "entropy decode error: "@ + msg,
            ErrorModel::DecorrelationError(msg) => "decorrelation error: "@ + msg,
            ErrorModel::CrcMismatch { expected, actual } => "CRC mismatch: expected 0x"@
                + text::hex_text(expected as nat, 8) + ", got 0x"@ + text::hex_text(
                actual as nat,
                8,
            ),
            ErrorModel::NoAudioBlocks => "no audio blocks found in file"@,
        }
    }
}

impl WavPackError {
    /// The text of the error.
    pub fn message(&self) -> (s: String)
        ensures
            s@ == self@.text(),
    {
        match self {
            WavPackError::Io(_) => String::from_str("I/O error: failed to fill whole buffer"),
            WavPackError::BadMagic => String::from_str("invalid WavPack magic (expected 'wvpk')"),
            WavPackError::UnsupportedVersion(v) => {
                let mut s: String = String::from_str("unsupported WavPack version 0x");
                text::push_hex(&mut s, *v as u32, 4);
                s
            },
            WavPackError::HybridNotSupported => String::from_str(
                "hybrid (lossy) mode not supported",
            ),
            WavPackError::FloatNotSupported => String::from_str(
                "floating-point data not supported",
            ),
            WavPackError::DsdNotSupported => String::from_str("DSD audio not supported"),
            WavPackError::BadHeader(msg) => String::from_str("bad block header: ").concat(
                msg.as_str(),
            ),
            WavPackError::BadMetadata(msg) => String::from_str("bad metadata sub-block: ").concat(
                msg.as_str(),
            ),
            WavPackError::EntropyError(msg) => String::from_str("entropy decode error: ").concat(
                msg.as_str(),
            ),
            WavPackError::DecorrelationError(msg) => String::from_str(
                "decorrelation error: ",
            ).concat(msg.as_str()),
            WavPackError::CrcMismatch { expected, actual } => {
                let mut s: String = String::from_str("CRC mismatch: expected 0x");
                text::push_hex(&mut s, *expected, 8);
                s.append(", got 0x");
                text::push_hex(&mut s, *actual, 8);
                s
            },
            WavPackError::NoAudioBlocks => String::from_str("no audio blocks found in file"),
        }
    }
}

/// A result with its error taken by its value.
pub open spec fn outcome<T>(r: Result<T, WavPackError>) -> Result<T, ErrorModel> {
    match r {
        Ok(v) => Ok(v),
        Err(e) => Err(e@),
    }
}

} // verus!
