//! Block headers and metadata sub-blocks.
use crate::error;
use crate::error::{ErrorModel, IoError, WavPackError};
use crate::source;
use crate::source::{ByteReader, Source};
use crate::text;
use vstd::arithmetic::power2::*;
use vstd::bits::*;
use vstd::prelude::*;
use vstd::string::*;

verus! {

/// The 4-byte WavPack block magic: "wvpk".
pub const MAGIC: [u8; 4] = [0x77, 0x76, 0x70, 0x6b];

/// Minimum valid WavPack version for decoding.
pub const MIN_VERSION: u16 = 0x0402;

/// Maximum valid WavPack version for decoding.
pub const MAX_VERSION: u16 = 0x0410;

/// Standard sample rates indexed by the 4-bit rate field in flags.
/// Index 15 = unknown/custom (read from ID_SAMPLE_RATE sub-block).
pub const SAMPLE_RATES: [u32; 15] = [
    6000,
    8000,
    9600,
    11025,
    12000,
    16000,
    22050,
    24000,
    32000,
    44100,
    48000,
    64000,
    88200,
    96000,
    192000,
];

// Flags

/// Bits 0-1: bytes per sample, less one.
pub const FLAG_BYTES_PER_SAMPLE_MASK: u32 = 0x03;

pub const FLAG_MONO: u32 = 0x4;

pub const FLAG_HYBRID: u32 = 0x8;

pub const FLAG_JOINT_STEREO: u32 = 0x10;

pub const FLAG_CROSS_DECORR: u32 = 0x20;

pub const FLAG_HYBRID_SHAPE: u32 = 0x40;

pub const FLAG_FLOAT: u32 = 0x80;

pub const FLAG_INT32_INFO: u32 = 0x100;

pub const FLAG_HYBRID_BITRATE: u32 = 0x200;

pub const FLAG_HYBRID_BALANCED: u32 = 0x400;

pub const FLAG_INITIAL_BLOCK: u32 = 0x800;

pub const FLAG_FINAL_BLOCK: u32 = 0x1000;

/// Bits 13-17: left shift.
pub const FLAG_LEFT_SHIFT_MASK: u32 = 0x3e000;

pub const FLAG_LEFT_SHIFT_SHIFT: u32 = 13;

/// Bits 18-22: maximum magnitude.
pub const FLAG_MAX_MAGNITUDE_MASK: u32 = 0x7c0000;

pub const FLAG_MAX_MAGNITUDE_SHIFT: u32 = 18;

/// Bits 23-26: sample rate index.
pub const FLAG_SAMPLE_RATE_MASK: u32 = 0x7800000;

pub const FLAG_SAMPLE_RATE_SHIFT: u32 = 23;

pub const FLAG_HAS_CHECKSUM: u32 = 0x10000000;

pub const FLAG_FALSE_STEREO: u32 = 0x40000000;

pub const FLAG_DSD: u32 = 0x80000000;

// Metadata sub-block IDs

pub const ID_MASK: u8 = 0x3f;

/// The decoder can ignore the sub-block.
pub const ID_FLAG_OPTIONAL: u8 = 0x20;

/// The data is 1 byte less than stored.
pub const ID_FLAG_ODD_SIZE: u8 = 0x40;

/// The size is 3 bytes (24-bit) instead of 1.
pub const ID_FLAG_LARGE: u8 = 0x80;

pub const ID_DUMMY: u8 = 0x00;

pub const ID_DECORR_TERMS: u8 = 0x02;

pub const ID_DECORR_WEIGHTS: u8 = 0x03;

pub const ID_DECORR_SAMPLES: u8 = 0x04;

pub const ID_ENTROPY_VARS: u8 = 0x05;

pub const ID_HYBRID_PROFILE: u8 = 0x06;

pub const ID_SHAPING_WEIGHTS: u8 = 0x07;

pub const ID_FLOAT_INFO: u8 = 0x08;

pub const ID_INT32_INFO: u8 = 0x09;

pub const ID_WV_BITSTREAM: u8 = 0x0a;

pub const ID_WVC_BITSTREAM: u8 = 0x0b;

pub const ID_WVX_BITSTREAM: u8 = 0x0c;

pub const ID_CHANNEL_INFO: u8 = 0x0d;

pub const ID_DSD_BLOCK: u8 = 0x0e;

pub const ID_RIFF_HEADER: u8 = 0x21;

pub const ID_RIFF_TRAILER: u8 = 0x22;

pub const ID_CONFIG_BLOCK: u8 = 0x25;

pub const ID_MD5_CHECKSUM: u8 = 0x26;

pub const ID_SAMPLE_RATE: u8 = 0x27;

pub const ID_ALT_HEADER: u8 = 0x23;

pub const ID_ALT_TRAILER: u8 = 0x24;

pub const ID_BLOCK_CHECKSUM: u8 = 0x2f;

/// Parsed 32-byte WavPack block header.
#[derive(Debug, Clone, Copy)]
pub struct BlockHeader {
    /// Size of the entire block minus 8 (magic + this field).
    pub block_size: u32,
    /// Format version (0x0402..=0x0410).
    pub version: u16,
    /// Total samples in file (40-bit, lower 32 + upper 8).
    /// 0xFFFFFFFFFF = unknown length.
    pub total_samples: u64,
    /// Index of the first sample in this block (40-bit).
    pub block_index: u64,
    /// Number of samples in this block (0 = metadata-only).
    pub block_samples: u32,
    /// Raw flags bitfield.
    pub flags: u32,
    /// CRC of decoded data.
    pub crc: u32,
}

/// Bit `k` of the flags is set.
pub open spec fn flag_bit(flags: u32, k: nat) -> bool {
    (flags as nat / pow2(k)) % 2 == 1
}

/// A mask of one bit tests that bit.
proof fn lemma_flag(flags: u32, mask: u32, k: nat)
    requires
        k < 32,
        mask == pow2(k),
    ensures
        (flags & mask != 0) == flag_bit(flags, k),
{
    let n = k as u32;
    lemma2_to64();
    if k < 31 {
        lemma_pow2_strictly_increases(k, 31);
    }
    lemma_u32_shl_is_mul(1, n);
    lemma_u32_shr_is_div(flags, n);
    assert((flags & (1u32 << n) != 0) == ((flags >> n) % 2 == 1)) by (bit_vector)
        requires
            n < 32,
    ;
}

impl BlockHeader {
    /// Bytes per sample (1-4), derived from flag bits 0-1.
    pub fn bytes_per_sample(&self) -> (r: u32)
        ensures
            r == self.flags % 4 + 1,
            1 <= r <= 4,
    {
        let flags: u32 = self.flags;
        assert(flags & 0x03 == flags % 4) by (bit_vector);
        (flags & FLAG_BYTES_PER_SAMPLE_MASK) + 1
    }

    /// Bits per sample (8, 16, 24, or 32).
    pub fn bits_per_sample(&self) -> (r: u32)
        ensures
            r == 8 * (self.flags % 4 + 1),
            r == 8 || r == 16 || r == 24 || r == 32,
    {
        self.bytes_per_sample() * 8
    }

    /// True if mono output.
    pub fn is_mono(&self) -> (b: bool)
        ensures
            b == flag_bit(self.flags, 2),
            b == (self.flags & 0x4 != 0),
    {
        proof {
            lemma2_to64();
            lemma_flag(self.flags, FLAG_MONO, 2);
        }
        self.flags & FLAG_MONO != 0
    }

    /// True if hybrid (lossy) mode.
    pub fn is_hybrid(&self) -> (b: bool)
        ensures
            b == flag_bit(self.flags, 3),
            b == (self.flags & 0x8 != 0),
    {
        proof {
            lemma2_to64();
            lemma_flag(self.flags, FLAG_HYBRID, 3);
        }
        self.flags & FLAG_HYBRID != 0
    }

    /// True if joint stereo (mid/side) encoding.
    pub fn is_joint_stereo(&self) -> (b: bool)
        ensures
            b == flag_bit(self.flags, 4),
            b == (self.flags & 0x10 != 0),
    {
        proof {
            lemma2_to64();
            lemma_flag(self.flags, FLAG_JOINT_STEREO, 4);
        }
        self.flags & FLAG_JOINT_STEREO != 0
    }

    /// True if cross-channel decorrelation is used.
    pub fn is_cross_decorr(&self) -> (b: bool)
        ensures
            b == flag_bit(self.flags, 5),
            b == (self.flags & 0x20 != 0),
    {
        proof {
            lemma2_to64();
            lemma_flag(self.flags, FLAG_CROSS_DECORR, 5);
        }
        self.flags & FLAG_CROSS_DECORR != 0
    }

    /// True if floating-point data.
    pub fn is_float(&self) -> (b: bool)
        ensures
            b == flag_bit(self.flags, 7),
            b == (self.flags & 0x80 != 0),
    {
        proof {
            lemma2_to64();
            lemma_flag(self.flags, FLAG_FLOAT, 7);
        }
        self.flags & FLAG_FLOAT != 0
    }

    /// True if int32 info sub-block is present (>24-bit or shifted).
    pub fn has_int32_info(&self) -> (b: bool)
        ensures
            b == flag_bit(self.flags, 8),
            b == (self.flags & 0x100 != 0),
    {
        proof {
            lemma2_to64();
            lemma_flag(self.flags, FLAG_INT32_INFO, 8);
        }
        self.flags & FLAG_INT32_INFO != 0
    }

    /// True if this is the first block in a multichannel sequence.
    pub fn is_initial_block(&self) -> (b: bool)
        ensures
            b == flag_bit(self.flags, 11),
            b == (self.flags & 0x800 != 0),
    {
        proof {
            lemma2_to64();
            lemma_flag(self.flags, FLAG_INITIAL_BLOCK, 11);
        }
        self.flags & FLAG_INITIAL_BLOCK != 0
    }

    /// True if this is the last block in a multichannel sequence.
    pub fn is_final_block(&self) -> (b: bool)
        ensures
            b == flag_bit(self.flags, 12),
            b == (self.flags & 0x1000 != 0),
    {
        proof {
            lemma2_to64();
            lemma_flag(self.flags, FLAG_FINAL_BLOCK, 12);
        }
        self.flags & FLAG_FINAL_BLOCK != 0
    }

    /// Left-shift amount to apply after decode (bits 13-17).
    pub fn left_shift(&self) -> (r: u32)
        ensures
            r == (self.flags as int / 0x2000) % 32,
    {
        let flags: u32 = self.flags;
        assert((flags & 0x3e000) >> 13u32 == (flags / 0x2000) % 32) by (bit_vector);
        (flags & FLAG_LEFT_SHIFT_MASK) >> FLAG_LEFT_SHIFT_SHIFT
    }

    /// Maximum magnitude of decoded samples (bits 18-22).
    /// The actual number of significant bits is this value + 1.
    pub fn max_magnitude(&self) -> (r: u32)
        ensures
            r == (self.flags as int / 0x40000) % 32,
    {
        let flags: u32 = self.flags;
        assert((flags & 0x7c0000) >> 18u32 == (flags / 0x40000) % 32) by (bit_vector);
        (flags & FLAG_MAX_MAGNITUDE_MASK) >> FLAG_MAX_MAGNITUDE_SHIFT
    }

    /// Index into the table of standard rates (bits 23-26); 15 is none of them.
    pub fn sample_rate_index(&self) -> (r: u32)
        ensures
            r == (self.flags as int / 0x800000) % 16,
    {
        let flags: u32 = self.flags;
        assert((flags & 0x7800000) >> 23u32 == (flags / 0x800000) % 16) by (bit_vector);
        (flags & FLAG_SAMPLE_RATE_MASK) >> FLAG_SAMPLE_RATE_SHIFT
    }

    /// Sample rate from standard table. Returns None for index 15 (custom).
    pub fn sample_rate(&self) -> (r: Option<u32>)
        ensures
            r == standard_rate(self.flags),
    {
        let idx: usize = self.sample_rate_index() as usize;
        if idx < 15 {
            Some(SAMPLE_RATES[idx])
        } else {
            None
        }
    }

    /// True if false stereo (data is mono, output duplicated to both channels).
    pub fn is_false_stereo(&self) -> (b: bool)
        ensures
            b == flag_bit(self.flags, 30),
            b == (self.flags & 0x40000000 != 0),
    {
        proof {
            lemma2_to64();
            lemma_flag(self.flags, FLAG_FALSE_STEREO, 30);
        }
        self.flags & FLAG_FALSE_STEREO != 0
    }

    /// True if DSD audio (unsupported).
    pub fn is_dsd(&self) -> (b: bool)
        ensures
            b == flag_bit(self.flags, 31),
            b == (self.flags & 0x80000000 != 0),
    {
        proof {
            lemma2_to64();
            lemma_flag(self.flags, FLAG_DSD, 31);
        }
        self.flags & FLAG_DSD != 0
    }

    /// True if the block has a trailing checksum sub-block.
    pub fn has_checksum(&self) -> (b: bool)
        ensures
            b == flag_bit(self.flags, 28),
            b == (self.flags & 0x10000000 != 0),
    {
        proof {
            lemma2_to64();
            lemma_flag(self.flags, FLAG_HAS_CHECKSUM, 28);
        }
        self.flags & FLAG_HAS_CHECKSUM != 0
    }

    /// Number of channels in this block (1 or 2).
    pub fn block_channels(&self) -> (n: usize)
        ensures
            n == if flag_bit(self.flags, 2) {
                1int
            } else {
                2
            },
    {
        if self.is_mono() {
            1
        } else {
            2
        }
    }
}

/// The standard sample rate that the flags select, if they select one.
pub open spec fn standard_rate(flags: u32) -> Option<u32> {
    let idx = (flags as int / 0x800000) % 16;
    if idx < 15 {
        Some(SAMPLE_RATES@[idx])
    } else {
        None
    }
}

/// The number whose digits to base 256 are the two bytes at `p`, lowest first.
pub open spec fn u16_at(data: Seq<u8>, p: int) -> u16 {
    (data[p] + 0x100 * data[p + 1]) as u16
}

/// The number whose digits to base 256 are the four bytes at `p`, lowest first.
pub open spec fn u32_at(data: Seq<u8>, p: int) -> u32 {
    (data[p] + 0x100 * data[p + 1] + 0x1_0000 * data[p + 2] + 0x100_0000 * data[p + 3]) as u32
}

/// The magic stands at `p`.
pub open spec fn magic_at(data: Seq<u8>, p: int) -> bool {
    &&& 0 <= p
    &&& p + 4 <= data.len()
    &&& data[p] == MAGIC@[0]
    &&& data[p + 1] == MAGIC@[1]
    &&& data[p + 2] == MAGIC@[2]
    &&& data[p + 3] == MAGIC@[3]
}

/// The header in the 32 bytes at `p`.
pub open spec fn header_at(data: Seq<u8>, p: int) -> BlockHeader {
    BlockHeader {
        block_size: u32_at(data, p + 4),
        version: u16_at(data, p + 8),
        total_samples: (u32_at(data, p + 12) + 0x1_0000_0000 * data[p + 11]) as u64,
        block_index: (u32_at(data, p + 16) + 0x1_0000_0000 * data[p + 10]) as u64,
        block_samples: u32_at(data, p + 20),
        flags: u32_at(data, p + 24),
        crc: u32_at(data, p + 28),
    }
}

/// A version that can be decoded.
pub open spec fn is_supported(version: u16) -> bool {
    MIN_VERSION <= version <= MAX_VERSION
}

/// What reading a header gives.
pub open spec fn header_result(s: Source) -> Result<Option<BlockHeader>, ErrorModel> {
    let p = s.pos as int;
    if s.remaining() == 0 {
        Ok(None)
    } else if s.remaining() < 4 {
        Err(ErrorModel::Io(IoError::UnexpectedEof))
    } else if !magic_at(s.data, p) {
        Err(ErrorModel::BadMagic)
    } else if s.remaining() < 32 {
        Err(ErrorModel::Io(IoError::UnexpectedEof))
    } else if !is_supported(u16_at(s.data, p + 8)) {
        Err(ErrorModel::UnsupportedVersion(u16_at(s.data, p + 8)))
    } else {
        Ok(Some(header_at(s.data, p)))
    }
}

/// Where reading a header ends.
pub open spec fn after_header(s: Source) -> Source {
    if s.remaining() < 4 {
        s.end()
    } else if !magic_at(s.data, s.pos as int) {
        s.advance(4)
    } else if s.remaining() < 32 {
        s.end()
    } else {
        s.advance(32)
    }
}

/// Reads a 16-bit number, lowest byte first.
fn read_u16_le(data: &[u8], p: usize) -> (x: u16)
    requires
        p + 2 <= data@.len(),
    ensures
        x == u16_at(data@, p as int),
{
    data[p] as u16 + 0x100 * data[p + 1] as u16
}

/// Reads a 32-bit number, lowest byte first.
fn read_u32_le(data: &[u8], p: usize) -> (x: u32)
    requires
        p + 4 <= data@.len(),
    ensures
        x == u32_at(data@, p as int),
{
    data[p] as u32 + 0x100 * data[p + 1] as u32 + 0x1_0000 * data[p + 2] as u32 + 0x100_0000
        * data[p + 3] as u32
}

/// Read a 32-byte block header from the current position.
/// Returns None at EOF, or error if partial/corrupt.
pub fn read_block_header(reader: &mut ByteReader) -> (r: Result<Option<BlockHeader>, WavPackError>)
    requires
        old(reader).wf(),
    ensures
        final(reader).wf(),
        error::outcome(r) == header_result(old(reader)@),
        final(reader)@ == after_header(old(reader)@),
{
    let ghost s = reader@;
    // The end of the source here is the end of the file
    if reader.remaining() == 0 {
        return Ok(None);
    }
    let magic: Vec<u8> = match reader.read_exact(4) {
        Ok(m) => m,
        Err(e) => {
            return Err(WavPackError::Io(e));
        },
    };
    if magic[0] != MAGIC[0] || magic[1] != MAGIC[1] || magic[2] != MAGIC[2] || magic[3]
        != MAGIC[3] {
        return Err(WavPackError::BadMagic);
    }
    // Read remaining 28 bytes
    let buf: Vec<u8> = match reader.read_exact(28) {
        Ok(b) => b,
        Err(e) => {
            return Err(WavPackError::Io(e));
        },
    };
    assert forall|i: int| 0 <= i < 28 implies #[trigger] buf@[i] == s.data[s.pos + 4 + i] by {}
    let version: u16 = read_u16_le(&buf, 4);
    if version < MIN_VERSION || version > MAX_VERSION {
        return Err(WavPackError::UnsupportedVersion(version));
    }
    // Reconstruct 40-bit values
    let total_samples: u64 = read_u32_le(&buf, 8) as u64 + 0x1_0000_0000 * buf[7] as u64;
    let block_index: u64 = read_u32_le(&buf, 12) as u64 + 0x1_0000_0000 * buf[6] as u64;
    Ok(
        Some(
            BlockHeader {
                block_size: read_u32_le(&buf, 0),
                version,
                total_samples,
                block_index,
                block_samples: read_u32_le(&buf, 16),
                flags: read_u32_le(&buf, 20),
                crc: read_u32_le(&buf, 24),
            },
        ),
    )
}

/// The search for the next block: whether the magic was found, ...
pub open spec fn sync_found(s: Source) -> bool
    decreases s.remaining(),
{
    if s.remaining() < 4 {
        false
    } else {
        magic_at(s.data, s.pos as int) || sync_found(s.advance(1))
    }
}

/// ... and where it ends: before the magic, or at the end of the data.
pub open spec fn after_sync(s: Source) -> Source
    decreases s.remaining(),
{
    if s.remaining() < 4 {
        s.end()
    } else if magic_at(s.data, s.pos as int) {
        s
    } else {
        after_sync(s.advance(1))
    }
}

/// A search stops at the first magic that stands ahead, and it fails only where
/// none does.
pub proof fn lemma_sync_first(s: Source)
    requires
        s.remaining() >= 0,
    ensures
        ({
            let t = after_sync(s);
            &&& t.data == s.data
            &&& s.pos <= t.pos <= s.data.len()
            &&& sync_found(s) == magic_at(t.data, t.pos as int)
            &&& sync_found(s) ==> t.remaining() >= 4
            &&& !sync_found(s) ==> t == s.end()
            &&& forall|p: int| s.pos <= p < t.pos ==> !magic_at(s.data, p)
        }),
    decreases s.remaining(),
{
    if s.remaining() >= 4 && !magic_at(s.data, s.pos as int) {
        lemma_sync_first(s.advance(1));
    }
}

/// The same four bytes hold the same magic, or none.
proof fn lemma_magic_agrees(s: Source, t: Source)
    requires
        s.remaining() >= 4,
        t.remaining() >= 4,
        s.next(4) == t.next(4),
    ensures
        magic_at(s.data, s.pos as int) == magic_at(t.data, t.pos as int),
{
    let (a, b) = (s.next(4), t.next(4));
    assert(a[0] == s.data[s.pos as int] && b[0] == t.data[t.pos as int]);
    assert(a[1] == s.data[s.pos + 1int] && b[1] == t.data[t.pos + 1int]);
    assert(a[2] == s.data[s.pos + 2int] && b[2] == t.data[t.pos + 2int]);
    assert(a[3] == s.data[s.pos + 3int] && b[3] == t.data[t.pos + 3int]);
}

/// The same bytes hold the same number.
proof fn lemma_u32_agrees(s: Source, t: Source, i: int)
    requires
        s.remaining() >= 32,
        t.remaining() >= 32,
        s.next(32) == t.next(32),
        0 <= i <= 28,
    ensures
        u32_at(s.data, s.pos + i) == u32_at(t.data, t.pos + i),
{
    let (a, b) = (s.next(32), t.next(32));
    assert(a[i] == s.data[s.pos + i] && b[i] == t.data[t.pos + i]);
    assert(a[i + 1] == s.data[s.pos + i + 1] && b[i + 1] == t.data[t.pos + i + 1]);
    assert(a[i + 2] == s.data[s.pos + i + 2] && b[i + 2] == t.data[t.pos + i + 2]);
    assert(a[i + 3] == s.data[s.pos + i + 3] && b[i + 3] == t.data[t.pos + i + 3]);
}

/// A header depends on its own 32 bytes alone.
pub proof fn lemma_header_local(s: Source, t: Source)
    requires
        s.remaining() >= 32,
        t.remaining() >= 32,
        s.next(32) == t.next(32),
    ensures
        header_result(s) == header_result(t),
        after_header(s).pos - s.pos == after_header(t).pos - t.pos,
{
    let (a, b) = (s.next(32), t.next(32));
    assert(s.next(4) =~= a.take(4));
    assert(t.next(4) =~= b.take(4));
    lemma_magic_agrees(s, t);
    lemma_u32_agrees(s, t, 4);
    lemma_u32_agrees(s, t, 12);
    lemma_u32_agrees(s, t, 16);
    lemma_u32_agrees(s, t, 20);
    lemma_u32_agrees(s, t, 24);
    lemma_u32_agrees(s, t, 28);
    assert(a[8] == s.data[s.pos + 8int] && b[8] == t.data[t.pos + 8int]);
    assert(a[9] == s.data[s.pos + 9int] && b[9] == t.data[t.pos + 9int]);
    assert(a[10] == s.data[s.pos + 10int] && b[10] == t.data[t.pos + 10int]);
    assert(a[11] == s.data[s.pos + 11int] && b[11] == t.data[t.pos + 11int]);
}

/// What is read depends on the bytes ahead alone: a header, ...
pub proof fn lemma_header_agrees(s: Source, t: Source)
    requires
        s.agrees(t),
    ensures
        header_result(s) == header_result(t),
        after_header(s).agrees(after_header(t)),
{
    source::lemma_agrees_advance(s, t, 0);
    if s.remaining() >= 4 {
        source::lemma_agrees_advance(s, t, 4);
        lemma_magic_agrees(s, t);
        if s.remaining() >= 32 {
            source::lemma_agrees_advance(s, t, 32);
            lemma_header_local(s, t);
        }
    }
}

/// ... the search for a block, ...
pub proof fn lemma_sync_agrees(s: Source, t: Source)
    requires
        s.agrees(t),
    ensures
        sync_found(s) == sync_found(t),
        after_sync(s).agrees(after_sync(t)),
    decreases s.remaining(),
{
    source::lemma_agrees_advance(s, t, 0);
    if s.remaining() >= 4 {
        source::lemma_agrees_advance(s, t, 4);
        lemma_magic_agrees(s, t);
        source::lemma_agrees_advance(s, t, 1);
        if !magic_at(s.data, s.pos as int) {
            lemma_sync_agrees(s.advance(1), t.advance(1));
        }
    }
}

/// Scan forward looking for the next "wvpk" magic, skipping non-block data
/// (like APEv2 tags at the start of file). Returns Ok(true) if found,
/// Ok(false) at EOF.
pub fn sync_to_block(reader: &mut ByteReader) -> (r: Result<bool, WavPackError>)
    requires
        old(reader).wf(),
    ensures
        final(reader).wf(),
        error::outcome(r) == Ok::<bool, ErrorModel>(sync_found(old(reader)@)),
        final(reader)@ == after_sync(old(reader)@),
{
    // The last four bytes, the first of them highest
    let mut window: u32 = 0;
    let ghost start = reader@;
    let ghost mut seen: int = 0;
    proof {
        reader.lemma_wf();
    }
    loop
        invariant
            reader.wf(),
            seen >= 0,
            start == old(reader)@,
            start.pos + seen <= start.data.len(),
            reader@ == start.advance(seen),
            // Nothing was found up to here
            seen >= 4 ==> sync_found(start) == sync_found(start.advance(seen - 3)) && after_sync(
                start,
            ) == after_sync(start.advance(seen - 3)),
            window == window_of(start, seen),
        decreases start.data.len() - start.pos - seen,
    {
        let byte: u8 = match reader.read_exact(1) {
            Ok(b) => b[0],
            Err(_) => {
                proof {
                    reveal_with_fuel(sync_found, 2);
                    reveal_with_fuel(after_sync, 2);
                }
                return Ok(false);
            },
        };
        proof {
            assert(byte == start.data[start.pos + seen]);
            lemma_window_step(start, seen);
            seen = seen + 1;
            lemma_window_magic(start, seen);
        }
        window = (window % 0x100_0000) * 0x100 + byte as u32;
        if window == 0x7776_706b {
            reader.seek_back(4);
            assert(reader@ == start.advance(seen - 4));
            return Ok(true);
        }
        proof {
            if seen >= 4 {
                assert(start.advance(seen - 4).advance(1) == start.advance(seen - 3));
            }
        }
    }
}

/// The byte that was read `k` bytes ago, or 0 if there was none.
spec fn byte_back(start: Source, seen: int, k: int) -> int {
    if k <= seen {
        start.data[start.pos + seen - k] as int
    } else {
        0
    }
}

/// The last four bytes that were read, the first of them highest.
spec fn window_of(start: Source, seen: int) -> int {
    byte_back(start, seen, 1) + 0x100 * byte_back(start, seen, 2) + 0x1_0000 * byte_back(
        start,
        seen,
        3,
    ) + 0x100_0000 * byte_back(start, seen, 4)
}

/// Three bytes below a fourth are what is left of them modulo 2^24.
proof fn lemma_three_bytes(a: int, b: int, c: int, d: int)
    requires
        0 <= a < 256,
        0 <= b < 256,
        0 <= c < 256,
        0 <= d < 256,
    ensures
        (a + 0x100 * b + 0x1_0000 * c + 0x100_0000 * d) % 0x100_0000 == a + 0x100 * b + 0x1_0000
            * c,
{
}

/// Four bytes make up the magic only if they are its four bytes.
proof fn lemma_four_bytes(a: int, b: int, c: int, d: int)
    requires
        0 <= a < 256,
        0 <= b < 256,
        0 <= c < 256,
        0 <= d < 256,
    ensures
        (a + 0x100 * b + 0x1_0000 * c + 0x100_0000 * d == 0x7776_706b) <==> (a == 0x6b && b == 0x70
            && c == 0x76 && d == 0x77),
{
    if a + 0x100 * b + 0x1_0000 * c + 0x100_0000 * d == 0x7776_706b {
        assert(d == 0x77);
        assert(c == 0x76);
        assert(b == 0x70);
    }
}

/// One more byte moves the window on.
proof fn lemma_window_step(start: Source, seen: int)
    requires
        seen >= 0,
    ensures
        window_of(start, seen + 1) == (window_of(start, seen) % 0x100_0000) * 0x100
            + start.data[start.pos + seen],
        0 <= window_of(start, seen) <= 0xffff_ffff,
{
    let a = byte_back(start, seen, 1);
    let b = byte_back(start, seen, 2);
    let c = byte_back(start, seen, 3);
    let d = byte_back(start, seen, 4);
    lemma_three_bytes(a, b, c, d);
    assert(byte_back(start, seen + 1, 1) == start.data[start.pos + seen]);
    assert(byte_back(start, seen + 1, 2) == a);
    assert(byte_back(start, seen + 1, 3) == b);
    assert(byte_back(start, seen + 1, 4) == c);
}

/// The window holds the magic exactly where the magic has just been read.
proof fn lemma_window_magic(start: Source, seen: int)
    requires
        seen >= 0,
        start.pos + seen <= start.data.len(),
    ensures
        (window_of(start, seen) == 0x7776_706b) == (seen >= 4 && magic_at(
            start.data,
            start.pos + seen - 4,
        )),
{
    let a = byte_back(start, seen, 1);
    let b = byte_back(start, seen, 2);
    let c = byte_back(start, seen, 3);
    let d = byte_back(start, seen, 4);
    lemma_four_bytes(a, b, c, d);
    if seen >= 4 {
        let p = start.pos + seen - 4;
        assert(d == start.data[p] && c == start.data[p + 1] && b == start.data[p + 2] && a
            == start.data[p + 3]);
    }
}

/// What reading a payload gives.
pub open spec fn payload_result(s: Source, block_size: u32) -> Result<Seq<u8>, ErrorModel> {
    if block_size < 24 {
        Err(ErrorModel::BadHeader("block_size too small"@))
    } else if s.remaining() < block_size - 24 {
        Err(ErrorModel::Io(IoError::UnexpectedEof))
    } else {
        Ok(s.next(block_size - 24))
    }
}

/// Where reading a payload ends.
pub open spec fn after_payload(s: Source, block_size: u32) -> Source {
    if block_size < 24 {
        s
    } else if s.remaining() < block_size - 24 {
        s.end()
    } else {
        s.advance(block_size - 24)
    }
}

/// ... and a payload.
pub proof fn lemma_payload_agrees(s: Source, t: Source, block_size: u32)
    requires
        s.agrees(t),
    ensures
        payload_result(s, block_size) == payload_result(t, block_size),
        after_payload(s, block_size).agrees(after_payload(t, block_size)),
{
    source::lemma_agrees_advance(s, t, 0);
    if 24 <= block_size <= s.remaining() + 24 {
        source::lemma_agrees_advance(s, t, block_size - 24);
    }
}

/// Read the full payload of a block (everything after the 32-byte header).
/// The payload length is `block_size - 24`.
pub fn read_block_payload(reader: &mut ByteReader, header: &BlockHeader) -> (r: Result<
    Vec<u8>,
    WavPackError,
>)
    requires
        old(reader).wf(),
    ensures
        final(reader).wf(),
        match r {
            Ok(payload) => payload_result(old(reader)@, header.block_size) == Ok::<
                Seq<u8>,
                ErrorModel,
            >(payload@),
            Err(e) => payload_result(old(reader)@, header.block_size) == Err::<
                Seq<u8>,
                ErrorModel,
            >(e@),
        },
        final(reader)@ == after_payload(old(reader)@, header.block_size),
{
    if header.block_size < 24 {
        return Err(WavPackError::BadHeader(String::from_str("block_size too small")));
    }
    match reader.read_exact((header.block_size - 24) as usize) {
        Ok(payload) => Ok(payload),
        Err(e) => Err(WavPackError::Io(e)),
    }
}

/// A block takes eight bytes more than its header says: reading a header and its
/// payload ends `block_size + 8` bytes behind where it began.
pub proof fn lemma_block_span(s: Source)
    ensures
        header_result(s) matches Ok(Some(h)) ==> payload_result(after_header(s), h.block_size) is Ok
            ==> after_payload(after_header(s), h.block_size) == s.advance(h.block_size + 8),
{
}

/// A parsed metadata sub-block from within a WavPack block.
#[derive(Debug, Clone)]
pub struct MetaSubBlock {
    /// The function ID (lower 6 bits of the raw ID byte).
    pub id: u8,
    /// Raw ID byte including flag bits.
    pub raw_id: u8,
    /// The sub-block data payload.
    pub data: Vec<u8>,
}

/// The mathematical value of a sub-block.
#[verifier::ext_equal]
pub struct SubBlock {
    pub id: u8,
    pub raw_id: u8,
    pub data: Seq<u8>,
}

impl View for MetaSubBlock {
    type V = SubBlock;

    open spec fn view(&self) -> SubBlock {
        SubBlock { id: self.id, raw_id: self.raw_id, data: self.data@ }
    }
}

/// The values of a row of sub-blocks.
pub open spec fn sub_models(subs: Seq<MetaSubBlock>) -> Seq<SubBlock> {
    subs.map_values(|sb: MetaSubBlock| sb@)
}

impl MetaSubBlock {
    /// True if the decoder can ignore this sub-block.
    pub fn is_optional(&self) -> (b: bool)
        ensures
            b == ((self.raw_id as int / 0x20) % 2 == 1),
            b == (self.raw_id & 0x20 != 0),
    {
        let raw_id: u8 = self.raw_id;
        assert((raw_id & 0x20 != 0) == ((raw_id / 0x20) % 2 == 1)) by (bit_vector);
        raw_id & ID_FLAG_OPTIONAL != 0
    }
}

/// The size of a sub-block is stored in three bytes, not one.
pub open spec fn is_large(raw_id: u8) -> bool {
    raw_id >= 0x80
}

/// The last byte of a sub-block is padding.
pub open spec fn is_odd(raw_id: u8) -> bool {
    (raw_id as int / 0x40) % 2 == 1
}

/// How many bytes stand before the data of a sub-block.
pub open spec fn lead_len(raw_id: u8) -> int {
    if is_large(raw_id) {
        4
    } else {
        2
    }
}

/// The size in bytes that the sub-block at `p` claims; it is stored in words of
/// two bytes.
pub open spec fn claimed_size(payload: Seq<u8>, p: int) -> int {
    if is_large(payload[p]) {
        2 * (payload[p + 1] + 0x100 * payload[p + 2] + 0x1_0000 * payload[p + 3])
    } else {
        2 * payload[p + 1]
    }
}

/// The sub-block at `p`.
pub open spec fn sub_block_at(payload: Seq<u8>, p: int) -> SubBlock {
    let raw_id = payload[p];
    let start = p + lead_len(raw_id);
    let size = claimed_size(payload, p);
    SubBlock {
        id: (raw_id % 0x40) as u8,
        raw_id,
        data: payload.subrange(
            start,
            start + if is_odd(raw_id) && size > 0 {
                size - 1
            } else {
                size
            },
        ),
    }
}

/// The complaint about a sub-block that claims more than there is.
pub open spec fn oversize_text(id: int, size: int, left: int) -> Seq<char> {
    "sub-block 0x"@ + text::hex_text(id as nat, 2) + " claims "@ + text::decimal_text(size as nat)
        + " bytes but only "@ + text::decimal_text(left as nat) + " remain"@
}

/// Why the sub-block at `p` cannot be read, if it cannot.
pub open spec fn sub_block_error(payload: Seq<u8>, p: int) -> Option<ErrorModel> {
    let raw_id = payload[p];
    let start = p + lead_len(raw_id);
    if start > payload.len() {
        if is_large(raw_id) {
            Some(ErrorModel::BadMetadata("truncated large size"@))
        } else {
            Some(ErrorModel::BadMetadata("truncated small size"@))
        }
    } else if start + claimed_size(payload, p) > payload.len() {
        Some(
            ErrorModel::BadMetadata(
                oversize_text(
                    raw_id as int % 0x40,
                    claimed_size(payload, p),
                    payload.len() - start,
                ),
            ),
        )
    } else {
        None
    }
}

/// Puts sub-blocks before those of a result.
pub open spec fn prepend(
    subs: Seq<SubBlock>,
    rest: Result<Seq<SubBlock>, ErrorModel>,
) -> Result<Seq<SubBlock>, ErrorModel> {
    match rest {
        Ok(more) => Ok(subs + more),
        Err(e) => Err(e),
    }
}

/// The sub-blocks from `p` on, or why one of them cannot be read.
pub open spec fn metadata_from(payload: Seq<u8>, p: int) -> Result<Seq<SubBlock>, ErrorModel>
    decreases payload.len() - p,
{
    if p >= payload.len() || p < 0 {
        Ok(Seq::empty())
    } else {
        match sub_block_error(payload, p) {
            Some(e) => Err(e),
            None => prepend(
                seq![sub_block_at(payload, p)],
                metadata_from(payload, p + lead_len(payload[p]) + claimed_size(payload, p)),
            ),
        }
    }
}

/// Read all metadata sub-blocks from a block's payload.
///
/// `payload` is the raw bytes after the 32-byte header, with length
/// `block_size - 24` (since block_size counts from after magic+size, i.e.
/// the 32-byte header minus 8 = 24 bytes of header fields after size).
pub fn parse_metadata(payload: &[u8]) -> (r: Result<Vec<MetaSubBlock>, WavPackError>)
    ensures
        match r {
            Ok(subs) => metadata_from(payload@, 0) == Ok::<Seq<SubBlock>, ErrorModel>(
                sub_models(subs@),
            ),
            Err(e) => metadata_from(payload@, 0) == Err::<Seq<SubBlock>, ErrorModel>(e@),
        },
{
    let mut subs: Vec<MetaSubBlock> = Vec::new();
    let mut pos: usize = 0;
    let len: usize = payload.len();
    proof {
        assert(sub_models(subs@) =~= Seq::empty());
        match metadata_from(payload@, 0) {
            Ok(more) => assert(sub_models(subs@) + more =~= more),
            Err(e) => {},
        }
    }
    while pos < len
        invariant
            len == payload@.len(),
            pos <= len,
            metadata_from(payload@, 0) == prepend(
                sub_models(subs@),
                metadata_from(payload@, pos as int),
            ),
        decreases len - pos,
    {
        let raw_id: u8 = payload[pos];
        let large: bool = raw_id >= 0x80;
        let odd: bool = (raw_id / 0x40) % 2 == 1;
        let lead: usize = if large { 4 } else { 2 };
        let left: usize = len - pos;
        if left < lead {
            return Err(
                WavPackError::BadMetadata(
                    String::from_str(
                        if large {
                            "truncated large size"
                        } else {
                            "truncated small size"
                        },
                    ),
                ),
            );
        }
        // Convert to bytes (words are 2 bytes each)
        let size: usize = if large {
            2 * (payload[pos + 1] as usize + 0x100 * payload[pos + 2] as usize + 0x1_0000
                * payload[pos + 3] as usize)
        } else {
            2 * payload[pos + 1] as usize
        };
        let start: usize = pos + lead;
        if size > len - start {
            let mut msg: String = String::from_str("sub-block 0x");
            text::push_hex(&mut msg, (raw_id % 0x40) as u32, 2);
            msg.append(" claims ");
            text::push_decimal(&mut msg, size);
            msg.append(" bytes but only ");
            text::push_decimal(&mut msg, len - start);
            msg.append(" remain");
            return Err(WavPackError::BadMetadata(msg));
        }
        // Actual data length may be 1 less if odd flag is set
        let data_len: usize = if odd && size > 0 { size - 1 } else { size };
        let data: Vec<u8> = copy_range(payload, start, start + data_len);
        let ghost before = sub_models(subs@);
        let ghost sub = sub_block_at(payload@, pos as int);
        let ghost next = (start + size) as int;
        subs.push(MetaSubBlock { id: raw_id % 0x40, raw_id, data });
        proof {
            assert(subs@.last()@ == sub);
            assert(sub_models(subs@) =~= before.push(sub));
            match metadata_from(payload@, next) {
                Ok(more) => {
                    assert(before + (seq![sub] + more) =~= before.push(sub) + more);
                },
                Err(e) => {},
            }
        }
        // Advance past the padding byte too
        pos = start + size;
    }
    proof {
        assert(sub_models(subs@) + Seq::<SubBlock>::empty() =~= sub_models(subs@));
    }
    Ok(subs)
}

/// Copies the bytes from `start` up to `end`.
fn copy_range(data: &[u8], start: usize, end: usize) -> (v: Vec<u8>)
    requires
        start <= end <= data@.len(),
    ensures
        v@ == data@.subrange(start as int, end as int),
{
    let mut v: Vec<u8> = Vec::with_capacity(end - start);
    for i in start..end
        invariant
            start <= end <= data@.len(),
            v@ == data@.subrange(start as int, i as int),
    {
        v.push(data[i]);
        assert(v@ =~= data@.subrange(start as int, i + 1));
    }
    v
}

/// Sub-blocks are read alike wherever their bytes stand.
pub proof fn lemma_metadata_behind(a: Seq<u8>, b: Seq<u8>, p: int)
    requires
        0 <= p,
    ensures
        metadata_from(a + b, a.len() + p) == metadata_from(b, p),
    decreases b.len() - p,
{
    let all = a + b;
    let q = a.len() + p;
    if p < b.len() {
        assert(all[q] == b[p]);
        let start = p + lead_len(b[p]);
        if start <= b.len() {
            assert(all[q + 1] == b[p + 1]);
            if is_large(b[p]) {
                assert(all[q + 2] == b[p + 2]);
                assert(all[q + 3] == b[p + 3]);
            }
            assert(claimed_size(all, q) == claimed_size(b, p));
            if start + claimed_size(b, p) <= b.len() {
                assert(sub_block_at(all, q).data =~= sub_block_at(b, p).data);
                lemma_metadata_behind(a, b, start + claimed_size(b, p));
            }
        }
    }
}

/// Sub-blocks that can all be read are read alike with further bytes behind them.
proof fn lemma_metadata_before(a: Seq<u8>, b: Seq<u8>, p: int)
    requires
        0 <= p <= a.len(),
        metadata_from(a, p) is Ok,
    ensures
        metadata_from(a + b, p) == prepend(
            metadata_from(a, p)->Ok_0,
            metadata_from(a + b, a.len() as int),
        ),
    decreases a.len() - p,
{
    let all = a + b;
    let tail = metadata_from(all, a.len() as int);
    if p == a.len() {
        if let Ok(more) = tail {
            assert(Seq::<SubBlock>::empty() + more =~= more);
        }
    } else {
        let start = p + lead_len(a[p]);
        let next = start + claimed_size(a, p);
        assert(sub_block_error(a, p) is None);
        assert(claimed_size(all, p) == claimed_size(a, p));
        assert(sub_block_at(all, p).data =~= sub_block_at(a, p).data);
        lemma_metadata_before(a, b, next);
        if let Ok(more) = tail {
            let sub = seq![sub_block_at(a, p)];
            let rest = metadata_from(a, next)->Ok_0;
            assert(sub + (rest + more) =~= (sub + rest) + more);
        }
    }
}

/// Payloads can be joined: the sub-blocks of two payloads, one behind the other, are
/// those of the first and then those of the second, none dropped.
pub proof fn lemma_metadata_join(a: Seq<u8>, b: Seq<u8>)
    requires
        metadata_from(a, 0) is Ok,
    ensures
        metadata_from(a + b, 0) == prepend(metadata_from(a, 0)->Ok_0, metadata_from(b, 0)),
{
    lemma_metadata_before(a, b, 0);
    lemma_metadata_behind(a, b, 0);
}

/// A 32-bit number in four bytes, lowest first.
pub open spec fn u32_bytes(x: u32) -> Seq<u8> {
    seq![
        (x as int % 0x100) as u8,
        (x as int / 0x100 % 0x100) as u8,
        (x as int / 0x1_0000 % 0x100) as u8,
        (x as int / 0x100_0000) as u8,
    ]
}

/// The 32 bytes of a header.
pub open spec fn header_bytes(h: BlockHeader) -> Seq<u8> {
    MAGIC@ + u32_bytes(h.block_size) + seq![
        (h.version as int % 0x100) as u8,
        (h.version as int / 0x100) as u8,
        (h.block_index as int / 0x1_0000_0000) as u8,
        (h.total_samples as int / 0x1_0000_0000) as u8,
    ] + u32_bytes((h.total_samples % 0x1_0000_0000) as u32) + u32_bytes(
        (h.block_index % 0x1_0000_0000) as u32,
    ) + u32_bytes(h.block_samples) + u32_bytes(h.flags) + u32_bytes(h.crc)
}

/// A number is made up of its four digits to base 256.
proof fn lemma_u32_digits(x: u32)
    ensures
        u32_bytes(x)[0] + 0x100 * u32_bytes(x)[1] + 0x1_0000 * u32_bytes(x)[2] + 0x100_0000
            * u32_bytes(x)[3] == x,
{
    let a = x as int / 0x100;
    let b = a / 0x100;
    let c = b / 0x100;
    assert(b == x as int / 0x1_0000);
    assert(c == x as int / 0x100_0000);
    assert(c < 0x100);
}

/// Four bytes give back the number that was put in them.
proof fn lemma_u32_bytes(s: Source, b: Seq<u8>, i: int, x: u32)
    requires
        0 <= i,
        i + 4 <= b.len() <= s.remaining(),
        s.next(b.len() as int) == b,
        b.subrange(i, i + 4) == u32_bytes(x),
    ensures
        u32_at(s.data, s.pos + i) == x,
{
    let four = b.subrange(i, i + 4);
    let next = s.next(b.len() as int);
    assert(next[i] == four[0] && next[i] == s.data[s.pos + i]);
    assert(next[i + 1] == four[1] && next[i + 1] == s.data[s.pos + i + 1]);
    assert(next[i + 2] == four[2] && next[i + 2] == s.data[s.pos + i + 2]);
    assert(next[i + 3] == four[3] && next[i + 3] == s.data[s.pos + i + 3]);
    lemma_u32_digits(x);
}

/// Reading gives back every header that was written: a header of a supported
/// version, with counts of 40 bits, is what its 32 bytes are read as.
pub proof fn lemma_header_round_trip(s: Source, h: BlockHeader)
    requires
        is_supported(h.version),
        h.total_samples < 0x100_0000_0000,
        h.block_index < 0x100_0000_0000,
        s.remaining() >= 32,
        s.next(32) == header_bytes(h),
    ensures
        header_result(s) == Ok::<Option<BlockHeader>, ErrorModel>(Some(h)),
        after_header(s) == s.advance(32),
{
    let b = header_bytes(h);
    assert(b.len() == 32);
    assert(b.subrange(4, 8) =~= u32_bytes(h.block_size));
    assert(b.subrange(12, 16) =~= u32_bytes((h.total_samples % 0x1_0000_0000) as u32));
    assert(b.subrange(16, 20) =~= u32_bytes((h.block_index % 0x1_0000_0000) as u32));
    assert(b.subrange(20, 24) =~= u32_bytes(h.block_samples));
    assert(b.subrange(24, 28) =~= u32_bytes(h.flags));
    assert(b.subrange(28, 32) =~= u32_bytes(h.crc));
    lemma_u32_bytes(s, b, 4, h.block_size);
    lemma_u32_bytes(s, b, 12, (h.total_samples % 0x1_0000_0000) as u32);
    lemma_u32_bytes(s, b, 16, (h.block_index % 0x1_0000_0000) as u32);
    lemma_u32_bytes(s, b, 20, h.block_samples);
    lemma_u32_bytes(s, b, 24, h.flags);
    lemma_u32_bytes(s, b, 28, h.crc);
    let next = s.next(32);
    assert(next[0] == b[0] && next[1] == b[1] && next[2] == b[2] && next[3] == b[3]);
    assert(next[8] == b[8] && next[9] == b[9] && next[10] == b[10] && next[11] == b[11]);
}

/// The number of two-byte words that the data of a sub-block takes.
pub open spec fn word_count(sub: SubBlock) -> int {
    (sub.data.len() as int + 1) / 2
}

/// A sub-block whose raw ID fits its ID and its data.
pub open spec fn is_encodable(sub: SubBlock) -> bool {
    &&& sub.id == sub.raw_id % 0x40
    &&& is_odd(sub.raw_id) == (sub.data.len() % 2 == 1)
    &&& word_count(sub) < if is_large(sub.raw_id) {
        0x100_0000int
    } else {
        0x100
    }
}

/// The bytes of a sub-block: raw ID, size in words, data, padding.
pub open spec fn sub_block_bytes(sub: SubBlock) -> Seq<u8> {
    let words = word_count(sub);
    let size = if is_large(sub.raw_id) {
        seq![
            (words % 0x100) as u8,
            (words / 0x100 % 0x100) as u8,
            (words / 0x1_0000) as u8,
        ]
    } else {
        seq![words as u8]
    };
    let padding = if sub.data.len() % 2 == 1 {
        seq![0u8]
    } else {
        Seq::empty()
    };
    seq![sub.raw_id] + size + sub.data + padding
}

/// The bytes of a row of sub-blocks.
pub open spec fn metadata_bytes(subs: Seq<SubBlock>) -> Seq<u8>
    decreases subs.len(),
{
    if subs.len() == 0 {
        Seq::empty()
    } else {
        sub_block_bytes(subs[0]) + metadata_bytes(subs.drop_first())
    }
}

/// The first sub-block comes back from its bytes, whatever stands around them.
proof fn lemma_sub_block_round_trip(before: Seq<u8>, sub: SubBlock, after: Seq<u8>)
    requires
        is_encodable(sub),
    ensures
        ({
            let payload = before + sub_block_bytes(sub) + after;
            let p = before.len() as int;
            &&& sub_block_error(payload, p) is None
            &&& sub_block_at(payload, p) == sub
            &&& p + lead_len(payload[p]) + claimed_size(payload, p) == p + sub_block_bytes(
                sub,
            ).len()
        }),
{
    let bytes = sub_block_bytes(sub);
    let payload = before + bytes + after;
    let p = before.len() as int;
    let lead = lead_len(sub.raw_id);
    assert forall|i: int| 0 <= i < bytes.len() implies #[trigger] payload[p + i] == bytes[i] by {}
    assert(payload[p] == bytes[0]);
    assert(payload[p + 1] == bytes[1]);
    if is_large(sub.raw_id) {
        assert(payload[p + 2] == bytes[2]);
        assert(payload[p + 3] == bytes[3]);
    }
    assert(claimed_size(payload, p) == 2 * word_count(sub));
    assert(bytes.len() == lead + 2 * word_count(sub));
    assert(payload.subrange(p + lead, p + lead + sub.data.len()) =~= sub.data) by {
        assert forall|i: int| 0 <= i < sub.data.len() implies payload[p + lead + i]
            == sub.data[i] by {
            assert(payload[p + (lead + i)] == bytes[lead + i]);
        }
    }
    assert(sub_block_at(payload, p).data == sub.data);
}

/// The sub-blocks come back from their bytes behind any bytes.
proof fn lemma_metadata_from(before: Seq<u8>, subs: Seq<SubBlock>)
    requires
        forall|i: int| 0 <= i < subs.len() ==> #[trigger] is_encodable(subs[i]),
    ensures
        metadata_from(before + metadata_bytes(subs), before.len() as int) == Ok::<
            Seq<SubBlock>,
            ErrorModel,
        >(subs),
    decreases subs.len(),
{
    if subs.len() == 0 {
        assert(subs =~= Seq::empty());
        assert(before + metadata_bytes(subs) =~= before);
    } else {
        let rest = subs.drop_first();
        let first = sub_block_bytes(subs[0]);
        let payload = before + metadata_bytes(subs);
        assert(is_encodable(subs[0]));
        lemma_sub_block_round_trip(before, subs[0], metadata_bytes(rest));
        assert(payload =~= before + first + metadata_bytes(rest));
        assert forall|i: int| 0 <= i < rest.len() implies #[trigger] is_encodable(rest[i]) by {
            assert(is_encodable(subs[i + 1]));
        }
        lemma_metadata_from(before + first, rest);
        assert(seq![subs[0]] + rest =~= subs);
    }
}

/// Parsing gives back every row of sub-blocks that was written.
pub proof fn lemma_metadata_round_trip(subs: Seq<SubBlock>)
    requires
        forall|i: int| 0 <= i < subs.len() ==> #[trigger] is_encodable(subs[i]),
    ensures
        metadata_from(metadata_bytes(subs), 0) == Ok::<Seq<SubBlock>, ErrorModel>(subs),
{
    lemma_metadata_from(Seq::empty(), subs);
    assert(Seq::<u8>::empty() + metadata_bytes(subs) =~= metadata_bytes(subs));
}

} // verus!
