//! Decoder for WavPack lossless audio, verified with Verus.
use vstd::prelude::*;

pub mod arith;
pub mod bitstream;
pub mod block;
pub mod coding;
pub mod decorrelation;
pub mod entropy;
pub mod error;
pub mod header;
pub mod laws;
pub mod lossless;
pub mod reader;
pub mod source;
pub mod text;

pub use block::compute_crc;
pub use error::WavPackError;
pub use reader::{WavPackInfo, WavPackReader, WavPackSamples};
pub use source::ByteReader;

verus! {

} // verus!
