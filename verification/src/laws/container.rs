//! Headers, sub-blocks and files.
use crate::block;
use crate::error::{ErrorModel, IoError};
use crate::header;
use crate::header::{BlockHeader, SubBlock};
use crate::laws::samples;
use crate::reader;
use crate::reader::{NextBlock, ReaderModel};
use crate::source::Source;
use crate::text;
use vstd::arithmetic::div_mod::*;
use vstd::prelude::*;

verus! {

/// Four bytes as a number, the first of them lowest.
pub open spec fn number(bytes: Seq<u8>, i: int) -> int {
    bytes[i] + 0x100 * bytes[i + 1] + 0x1_0000 * bytes[i + 2] + 0x100_0000 * bytes[i + 3]
}

/// A header that is read is in the 32 bytes ahead: the letters `wvpk`, then its fields
/// in their places. The two 40-bit counts have their highest bytes apart from the rest.
pub proof fn law_header_fields(s: Source)
    ensures
        header::header_result(s) matches Ok(Some(h)) ==> ({
            let b = s.next(32);
            &&& s.remaining() >= 32
            &&& b[0] == 0x77 && b[1] == 0x76 && b[2] == 0x70 && b[3] == 0x6b
            &&& h.block_size == number(b, 4)
            &&& h.version == b[8] + 0x100 * b[9]
            &&& 0x402 <= h.version <= 0x410
            &&& h.block_index == number(b, 16) + 0x1_0000_0000 * b[10]
            &&& h.total_samples == number(b, 12) + 0x1_0000_0000 * b[11]
            &&& h.block_samples == number(b, 20)
            &&& h.flags == number(b, 24)
            &&& h.crc == number(b, 28)
            &&& header::after_header(s) == s.advance(32)
        }),
{
    if let Ok(Some(h)) = header::header_result(s) {
        let b = s.next(32);
        let p = s.pos as int;
        assert(forall|i: int| 0 <= i < 32 ==> #[trigger] b[i] == s.data[p + i]);
        lemma_number(s, 4);
        lemma_number(s, 12);
        lemma_number(s, 16);
        lemma_number(s, 20);
        lemma_number(s, 24);
        lemma_number(s, 28);
        assert(b[0] == s.data[p] && b[1] == s.data[p + 1] && b[2] == s.data[p + 2] && b[3]
            == s.data[p + 3]);
        assert(b[8] == s.data[p + 8] && b[9] == s.data[p + 9]);
        assert(b[10] == s.data[p + 10] && b[11] == s.data[p + 11]);
    }
}

/// A number in the bytes ahead.
proof fn lemma_number(s: Source, i: int)
    requires
        0 <= i <= 28,
        s.remaining() >= 32,
    ensures
        header::u32_at(s.data, s.pos + i) == number(s.next(32), i),
{
    let b = s.next(32);
    assert(b[i] == s.data[s.pos + i]);
    assert(b[i + 1] == s.data[s.pos + i + 1]);
    assert(b[i + 2] == s.data[s.pos + i + 2]);
    assert(b[i + 3] == s.data[s.pos + i + 3]);
}

/// Every other outcome of reading a header: nothing at the end of the data, an error
/// for part of a header, for other letters and for a version out of range.
pub proof fn law_header_outcomes(s: Source)
    requires
        s.remaining() >= 0,
    ensures
        ({
            let b = s.next(32);
            let letters = s.next(4);
            let r = header::header_result(s);
            &&& s.remaining() == 0 ==> r == Ok::<Option<BlockHeader>, ErrorModel>(None)
            &&& 0 < s.remaining() < 4 ==> r == Err::<Option<BlockHeader>, ErrorModel>(
                ErrorModel::Io(IoError::UnexpectedEof),
            ) && header::after_header(s).pos == s.data.len()
            &&& s.remaining() >= 4 && letters != seq![0x77u8, 0x76, 0x70, 0x6b] ==> r == Err::<
                Option<BlockHeader>,
                ErrorModel,
            >(ErrorModel::BadMagic) && header::after_header(s) == s.advance(4)
            &&& 4 <= s.remaining() < 32 && letters == seq![0x77u8, 0x76, 0x70, 0x6b] ==> r
                == Err::<Option<BlockHeader>, ErrorModel>(
                ErrorModel::Io(IoError::UnexpectedEof),
            ) && header::after_header(s).pos == s.data.len()
            &&& s.remaining() >= 32 && letters == seq![0x77u8, 0x76, 0x70, 0x6b] ==> ({
                let version = b[8] + 0x100 * b[9];
                &&& version < 0x402 || 0x410 < version ==> r == Err::<
                    Option<BlockHeader>,
                    ErrorModel,
                >(ErrorModel::UnsupportedVersion(version as u16))
                &&& 0x402 <= version <= 0x410 ==> r is Ok && r->Ok_0 is Some
                &&& header::after_header(s) == s.advance(32)
            })
        }),
{
    let letters = s.next(4);
    let p = s.pos as int;
    if s.remaining() >= 4 {
        let magic = seq![0x77u8, 0x76, 0x70, 0x6b];
        assert(letters[0] == s.data[p] && letters[1] == s.data[p + 1] && letters[2] == s.data[p
            + 2] && letters[3] == s.data[p + 3]);
        assert(magic[0] == 0x77 && magic[1] == 0x76 && magic[2] == 0x70 && magic[3] == 0x6b);
        if header::magic_at(s.data, p) {
            assert(letters =~= magic);
        } else {
            assert(letters != magic);
        }
        if s.remaining() >= 32 {
            let b = s.next(32);
            assert(b[8] == s.data[p + 8] && b[9] == s.data[p + 9]);
        }
    }
}

/// The search for a block stops before the first letters `wvpk` ahead, or at the end.
pub proof fn law_search(s: Source, p: int)
    requires
        s.remaining() >= 0,
        s.pos <= p,
        p + 4 <= s.data.len(),
        s.data[p] == 0x77 && s.data[p + 1] == 0x76 && s.data[p + 2] == 0x70 && s.data[p + 3]
            == 0x6b,
    ensures
        ({
            let t = header::after_sync(s);
            let q = t.pos as int;
            &&& header::sync_found(s)
            &&& t.data == s.data && s.pos <= q <= p
            &&& s.data[q] == 0x77 && s.data[q + 1] == 0x76 && s.data[q + 2] == 0x70 && s.data[q
                + 3] == 0x6b
        }),
{
    header::lemma_sync_first(s);
    assert(header::magic_at(s.data, p));
    let t = header::after_sync(s);
    if t.pos > p {
        assert(!header::magic_at(s.data, p));
    }
    if !header::sync_found(s) {
        assert(t.pos == s.data.len());
    }
}

/// A search that finds nothing has no letters `wvpk` ahead, and ends at the end.
pub proof fn law_search_fails(s: Source, p: int)
    requires
        s.remaining() >= 0,
        !header::sync_found(s),
        s.pos <= p,
        p + 4 <= s.data.len(),
    ensures
        header::after_sync(s).pos == s.data.len(),
        !(s.data[p] == 0x77 && s.data[p + 1] == 0x76 && s.data[p + 2] == 0x70 && s.data[p + 3]
            == 0x6b),
{
    header::lemma_sync_first(s);
    assert(!header::magic_at(s.data, p));
}

/// The payload is what the size of the block leaves behind the header: 24 bytes less
/// than it says. A smaller size is an error, and so is a payload that is cut off.
pub proof fn law_payload(s: Source, block_size: u32)
    requires
        s.remaining() >= 0,
    ensures
        ({
            let r = header::payload_result(s, block_size);
            let t = header::after_payload(s, block_size);
            &&& block_size < 24 ==> r is Err && !(r->Err_0 is Io) && t == s
            &&& 24 <= block_size && s.remaining() + 24 < block_size ==> r == Err::<
                Seq<u8>,
                ErrorModel,
            >(ErrorModel::Io(IoError::UnexpectedEof)) && t.pos == s.data.len()
            &&& 24 <= block_size <= s.remaining() + 24 ==> r == Ok::<Seq<u8>, ErrorModel>(
                s.data.subrange(s.pos as int, s.pos + block_size - 24),
            ) && t == s.advance(block_size - 24)
        }),
{
}

/// The first sub-block of a payload. Its ID byte comes first: the ID in six bits, then a
/// bit for a padded end and a bit for a long size. The size follows, in words of two
/// bytes, in one byte or in three with the lowest first. Then come the bytes themselves.
pub proof fn law_first_sub_block(payload: Seq<u8>)
    requires
        payload.len() > 0,
    ensures
        header::metadata_from(payload, 0) matches Ok(subs) ==> ({
            let raw = payload[0] as int;
            let start: int = if raw >= 128 {
                4
            } else {
                2
            };
            let size = first_size(payload);
            let padded = (raw / 64) % 2 == 1 && size > 0;
            let end = start + size - if padded {
                1int
            } else {
                0
            };
            &&& subs.len() > 0
            &&& start + size <= payload.len()
            &&& subs[0].raw_id == raw
            &&& subs[0].id == raw % 64
            &&& subs[0].data == payload.subrange(start, end)
            &&& header::metadata_from(payload.skip(start + size), 0) == Ok::<
                Seq<SubBlock>,
                ErrorModel,
            >(subs.drop_first())
        }),
{
    if let Ok(subs) = header::metadata_from(payload, 0) {
        let next = header::lead_len(payload[0]) + header::claimed_size(payload, 0);
        assert(header::sub_block_error(payload, 0) is None);
        lemma_behind_first(payload, next);
        let first = seq![header::sub_block_at(payload, 0)];
        let rest = header::metadata_from(payload, next);
        assert(rest is Ok);
        assert(subs == first + rest->Ok_0);
        assert(subs.drop_first() =~= rest->Ok_0);
    }
}

/// The size of the first sub-block of a payload, in bytes.
pub open spec fn first_size(payload: Seq<u8>) -> int {
    if payload[0] >= 128 {
        2 * (payload[1] + 0x100 * payload[2] + 0x1_0000 * payload[3])
    } else {
        2 * payload[1]
    }
}

/// The sub-blocks behind the first are those of the bytes behind it.
proof fn lemma_behind_first(payload: Seq<u8>, next: int)
    requires
        0 <= next <= payload.len(),
    ensures
        header::metadata_from(payload, next) == header::metadata_from(payload.skip(next), 0),
{
    let (a, b) = (payload.take(next), payload.skip(next));
    assert(a + b =~= payload);
    header::lemma_metadata_behind(a, b, 0);
}

/// A payload whose first sub-block is whole can be read exactly if what is behind that
/// can be read, and fails as that fails.
pub proof fn law_rest_of_a_payload(payload: Seq<u8>)
    requires
        payload.len() >= 2,
        payload[0] >= 128 ==> payload.len() >= 4,
    ensures
        ({
            let end = first_size(payload) + if payload[0] >= 128 {
                4int
            } else {
                2
            };
            let rest = header::metadata_from(payload.skip(end), 0);
            let all = header::metadata_from(payload, 0);
            end <= payload.len() ==> (rest is Ok ==> all is Ok) && (rest matches Err(e) ==> all
                == Err::<Seq<SubBlock>, ErrorModel>(e))
        }),
{
    let end = first_size(payload) + if payload[0] >= 128 {
        4int
    } else {
        2
    };
    if end <= payload.len() {
        assert(header::sub_block_error(payload, 0) is None);
        lemma_behind_first(payload, end);
    }
}

/// No payload, no sub-blocks; and a payload that ends inside a sub-block is an error.
pub proof fn law_metadata_ends(payload: Seq<u8>)
    ensures
        payload.len() == 0 ==> header::metadata_from(payload, 0) == Ok::<
            Seq<SubBlock>,
            ErrorModel,
        >(Seq::empty()),
        payload.len() == 1 ==> header::metadata_from(payload, 0) is Err,
        2 <= payload.len() < 4 && payload[0] >= 128 ==> header::metadata_from(payload, 0) is Err,
        payload.len() >= 2 && payload[0] < 128 && payload.len() < 2 + 2 * payload[1]
            ==> header::metadata_from(payload, 0) is Err,
        payload.len() >= 4 && payload[0] >= 128 && payload.len() < 4 + 2 * (payload[1] + 0x100
            * payload[2] + 0x1_0000 * payload[3]) ==> header::metadata_from(payload, 0) is Err,
{
}

/// Hybrid (bit 3), float (bit 7) and DSD (bit 31) blocks are rejected, in this order,
/// and no others.
pub proof fn law_unsupported(h: BlockHeader)
    ensures
        ({
            let r = reader::unsupported(h);
            &&& h.flags & 0x8 != 0 ==> r == Some(ErrorModel::HybridNotSupported)
            &&& h.flags & 0x8 == 0 && h.flags & 0x80 != 0 ==> r == Some(
                ErrorModel::FloatNotSupported,
            )
            &&& h.flags & 0x88 == 0 && h.flags & 0x8000_0000 != 0 ==> r == Some(
                ErrorModel::DsdNotSupported,
            )
            &&& h.flags & 0x8000_0088 == 0 ==> r is None
        }),
{
    let flags = h.flags;
    samples::law_flag(flags, 3);
    samples::law_flag(flags, 7);
    samples::law_flag(flags, 31);
    assert(1u32 << 3u32 == 0x8 && 1u32 << 7u32 == 0x80 && 1u32 << 31u32 == 0x8000_0000)
        by (bit_vector);
    assert((flags & 0x88 == 0) == (flags & 0x8 == 0 && flags & 0x80 == 0)) by (bit_vector);
    assert((flags & 0x8000_0088 == 0) == (flags & 0x88 == 0 && flags & 0x8000_0000 == 0))
        by (bit_vector);
}

/// A file is described by its first block: the rate of that block, one channel if bit 2
/// is set and two otherwise, eight bits for each byte of a sample, and as many samples
/// as there are frames times channels, or 0 where the number of frames is unknown.
pub proof fn law_description(at: Source, h: BlockHeader, subs: Seq<SubBlock>)
    requires
        h.total_samples < 0x100_0000_0000,
    ensures
        ({
            let m = reader::opened(at, h, subs);
            let info = m.info;
            &&& info.sample_rate == block::rate_of(h.flags, subs)
            &&& info.channels == if h.flags & 0x4 != 0 {
                1int
            } else {
                2
            }
            &&& info.bits_per_sample == 8 * ((h.flags & 3) + 1)
            &&& h.total_samples == 0xff_ffff_ffff ==> info.total_samples == 0 && m.total_frames
                == 0
            &&& h.total_samples != 0xff_ffff_ffff ==> info.total_samples == h.total_samples
                * info.channels && m.total_frames == h.total_samples
            &&& m.source == at && m.buf.len() == 0 && m.pos == 0 && m.frames_decoded == 0
                && !m.finished
        }),
{
    let flags = h.flags;
    samples::law_flag(flags, 2);
    assert(1u32 << 2u32 == 0x4) by (bit_vector);
    assert(flags & 3 == flags % 4) by (bit_vector);
}

/// Samples come out of the buffer in order; behind the last one the next block fills it,
/// an error takes its place, or the end is reached for good.
pub proof fn law_next_sample(m: ReaderModel)
    ensures
        ({
            let step = reader::next_block(m.source);
            &&& m.pos < m.buf.len() ==> m.item() == Some(
                Ok::<i32, ErrorModel>(m.buf[m.pos as int]),
            ) && m.after_item() == (ReaderModel { pos: m.pos + 1, ..m })
            &&& m.pos >= m.buf.len() && m.finished ==> m.item() is None && m.after_item() == m
            &&& m.pos >= m.buf.len() && !m.finished ==> match step.result {
                NextBlock::End => m.item() is None && m.after_item() == (ReaderModel {
                    source: step.source,
                    finished: true,
                    ..m
                }),
                NextBlock::Fail(e) => m.item() == Some(Err::<i32, ErrorModel>(e))
                    && m.after_item() == (ReaderModel { source: step.source, ..m }),
                NextBlock::Found(h, channels) => ({
                    let out = reader::block_output(h, channels);
                    let q = m.after_item();
                    &&& m.item() == Some(Ok::<i32, ErrorModel>(out[0]))
                    &&& q.buf == out && q.pos == 1 && q.source == step.source
                    &&& q.info == m.info && q.finished == m.finished && q.total_frames
                        == m.total_frames
                }),
            }
        }),
{
    if m.pos < m.buf.len() || m.finished {
    } else if let NextBlock::Found(h, channels) = reader::next_block(m.source).result {
        let full = m.after_block();
        assert(full.buf == reader::block_output(h, channels));
        assert(m.after_item() == (ReaderModel { pos: 1, ..full }));
    }
}

/// The frames of a block are counted, modulo 2^64.
pub proof fn law_frames_are_counted(
    m: ReaderModel,
    h: BlockHeader,
    channels: Seq<Seq<i32>>,
    source: Source,
)
    ensures
        (m.filled(h, channels, source).frames_decoded - m.frames_decoded - h.block_samples)
            % 0x1_0000_0000_0000_0000 == 0,
        m.filled(h, channels, source).pos == 0,
        m.filled(h, channels, source).buf == reader::block_output(h, channels),
        m.filled(h, channels, source).source == source,
        reader::next_block(m.source).result == NextBlock::Found(h, channels) ==> m.after_block()
            == m.filled(h, channels, reader::next_block(m.source).source),
{
    let x = m.frames_decoded + h.block_samples;
    let q = m.filled(h, channels, source).frames_decoded as int;
    lemma_fundamental_div_mod(x, 0x1_0000_0000_0000_0000);
    let k = x / 0x1_0000_0000_0000_0000;
    assert(q - x == (-k) * 0x1_0000_0000_0000_0000);
    lemma_mod_multiples_basic(-k, 0x1_0000_0000_0000_0000);
}

/// The next block of audio: the first block ahead if it has samples and can be decoded;
/// behind it where it has none.
pub proof fn law_next_block(s: Source)
    requires
        s.remaining() >= 0,
        header::sync_found(s),
        header::header_result(header::after_sync(s)) matches Ok(Some(_)),
    ensures
        ({
            let at = header::after_sync(s);
            let h = header::header_result(at)->Ok_0->Some_0;
            let behind = at.advance(32);
            let payload = header::payload_result(behind, h.block_size);
            let next = header::after_payload(behind, h.block_size);
            let step = reader::next_block(s);
            &&& h.block_samples == 0 && payload is Ok ==> step == reader::next_block(next)
            &&& h.block_samples == 0 && payload is Err ==> step.result == NextBlock::Fail(
                payload->Err_0,
            )
            &&& h.block_samples > 0 && reader::unsupported(h) is Some ==> step.result
                == NextBlock::Fail(reader::unsupported(h)->0) && step.source == behind
            &&& h.block_samples > 0 && reader::unsupported(h) is None ==> step.source == next && (
            payload matches Err(e) ==> step.result == NextBlock::Fail(e)) && (payload matches Ok(
                bytes,
            ) ==> match header::metadata_from(bytes, 0) {
                Err(e) => step.result == NextBlock::Fail(e),
                Ok(subs) => match block::block_result(h, subs) {
                    Err(e) => step.result == NextBlock::Fail(e),
                    Ok(channels) => step.result == NextBlock::Found(h, channels),
                },
            })
        }),
{
    header::lemma_sync_first(s);
}

/// The digits of a number in decimal: none leads with zero, and their values to base 10
/// give back the number.
pub open spec fn decimal_value(digits: Seq<char>) -> int
    decreases digits.len(),
{
    if digits.len() == 0 {
        0
    } else {
        10 * decimal_value(digits.drop_last()) + (digits.last() as int - 48)
    }
}

/// A number in decimal reads as that number, in digits 0 to 9 without a leading zero.
pub proof fn law_decimal(x: nat)
    ensures
        ({
            let t = text::decimal_text(x);
            &&& decimal_value(t) == x
            &&& t.len() > 0
            &&& x > 0 ==> t[0] != '0'
            &&& forall|i: int| 0 <= i < t.len() ==> '0' <= #[trigger] t[i] <= '9'
        }),
    decreases x,
{
    let t = text::decimal_text(x);
    reveal_with_fuel(decimal_value, 2);
    if x >= 10 {
        law_decimal(x / 10);
        assert(t.drop_last() =~= text::decimal_text(x / 10));
    } else {
        assert(t.drop_last() =~= Seq::empty());
    }
}

/// The value of a hexadecimal digit.
pub open spec fn hex_digit_value(c: char) -> int {
    if c <= '9' {
        c as int - 48
    } else {
        c as int - 87
    }
}

/// The value of a row of hexadecimal digits.
pub open spec fn hex_value(digits: Seq<char>) -> int
    decreases digits.len(),
{
    if digits.len() == 0 {
        0
    } else {
        16 * hex_value(digits.drop_last()) + hex_digit_value(digits.last())
    }
}

/// The number of values that a row of hexadecimal digits can have.
pub open spec fn hex_range(width: nat) -> nat
    decreases width,
{
    if width == 0 {
        1
    } else {
        16 * hex_range((width - 1) as nat)
    }
}

/// A number in hexadecimal has as many digits as it is given, 0 to 9 and a to f, and reads
/// as that number if it fits in them.
pub proof fn law_hex(x: nat, width: nat)
    ensures
        ({
            let t = text::hex_text(x, width);
            &&& t.len() == width
            &&& x < hex_range(width) ==> hex_value(t) == x
            &&& forall|i: int|
                0 <= i < t.len() ==> ('0' <= #[trigger] t[i] <= '9' || 'a' <= t[i] <= 'f')
        }),
    decreases width,
{
    if width > 0 {
        let t = text::hex_text(x, width);
        law_hex(x / 16, (width - 1) as nat);
        assert(t.drop_last() =~= text::hex_text(x / 16, (width - 1) as nat));
        assert(forall|i: int|
            0 <= i < t.len() - 1 ==> #[trigger] t[i] == text::hex_text(
                x / 16,
                (width - 1) as nat,
            )[i]);
    }
}

/// What a complaint about a payload says: which part of the first sub-block is missing,
/// or its ID in hexadecimal, how many bytes it claims and how many there are.
pub proof fn law_metadata_complaints(payload: Seq<u8>)
    requires
        payload.len() > 0,
    ensures
        ({
            let r = header::metadata_from(payload, 0);
            let large = payload[0] >= 128;
            let start: int = if large {
                4
            } else {
                2
            };
            &&& large && payload.len() < 4 ==> r == Err::<Seq<SubBlock>, ErrorModel>(
                ErrorModel::BadMetadata("truncated large size"@),
            )
            &&& !large && payload.len() < 2 ==> r == Err::<Seq<SubBlock>, ErrorModel>(
                ErrorModel::BadMetadata("truncated small size"@),
            )
            &&& start <= payload.len() < start + first_size(payload) ==> r == Err::<
                Seq<SubBlock>,
                ErrorModel,
            >(
                ErrorModel::BadMetadata(
                    "sub-block 0x"@ + text::hex_text((payload[0] % 64) as nat, 2) + " claims "@
                        + text::decimal_text(first_size(payload) as nat) + " bytes but only "@
                        + text::decimal_text((payload.len() - start) as nat) + " remain"@,
                ),
            )
        }),
{
}

/// The text of an error ends with what the error carries: its message, or its numbers in
/// hexadecimal, with a fixed lead.
pub proof fn law_error_texts(msg: Seq<char>, version: u16, expected: u32, actual: u32)
    ensures
        ErrorModel::BadHeader(msg).text() == "bad block header: "@ + msg,
        ErrorModel::BadMetadata(msg).text() == "bad metadata sub-block: "@ + msg,
        ErrorModel::EntropyError(msg).text() == "entropy decode error: "@ + msg,
        ErrorModel::DecorrelationError(msg).text() == "decorrelation error: "@ + msg,
        ErrorModel::UnsupportedVersion(version).text() == "unsupported WavPack version 0x"@
            + text::hex_text(version as nat, 4),
        (ErrorModel::CrcMismatch { expected, actual }).text() == "CRC mismatch: expected 0x"@
            + text::hex_text(expected as nat, 8) + ", got 0x"@ + text::hex_text(actual as nat, 8),
{
}

/// Moving in a source keeps its bytes; what comes next are the bytes from its place on.
pub proof fn law_source(s: Source, n: int, i: int)
    requires
        0 <= n <= s.remaining(),
    ensures
        s.remaining() == s.data.len() - s.pos,
        s.advance(n).data == s.data && s.advance(n).pos == s.pos + n,
        s.end().data == s.data && s.end().pos == s.data.len(),
        s.next(n).len() == n,
        0 <= i < n ==> s.next(n)[i] == s.data[s.pos + i],
{
}

/// Opening a file finds its first block and describes the file by it; decoding starts
/// before that block. Without a block there is no audio; a first block that cannot be
/// read, or that asks for what cannot be decoded, is the error.
pub proof fn law_open(s: Source)
    requires
        s.remaining() >= 0,
    ensures
        ({
            let at = header::after_sync(s);
            let r = reader::open_result(s);
            &&& !header::sync_found(s) ==> r == Err::<ReaderModel, ErrorModel>(
                ErrorModel::NoAudioBlocks,
            )
            &&& header::sync_found(s) ==> match header::header_result(at) {
                Err(e) => r == Err::<ReaderModel, ErrorModel>(e),
                Ok(None) => r is Err,
                Ok(Some(h)) => match reader::unsupported(h) {
                    Some(e) => r == Err::<ReaderModel, ErrorModel>(e),
                    None => match header::payload_result(at.advance(32), h.block_size) {
                        Err(e) => r == Err::<ReaderModel, ErrorModel>(e),
                        Ok(payload) => match header::metadata_from(payload, 0) {
                            Err(e) => r == Err::<ReaderModel, ErrorModel>(e),
                            Ok(subs) => r == Ok::<ReaderModel, ErrorModel>(
                                reader::opened(at, h, subs),
                            ),
                        },
                    },
                },
            }
        }),
{
    header::lemma_sync_first(s);
}

/// All samples: none at the end, the error where one comes first, or the next sample and
/// then all samples behind it. The reader ends behind the last of them or behind the
/// error.
pub proof fn law_all_samples(m: ReaderModel)
    ensures
        m.item() is None ==> m.all_items() == Ok::<Seq<i32>, ErrorModel>(Seq::empty())
            && m.after_all() == m.after_item(),
        m.item() matches Some(Err(e)) ==> m.all_items() == Err::<Seq<i32>, ErrorModel>(e)
            && m.after_all() == m.after_item(),
        m.item() matches Some(Ok(sample)) ==> m.after_all() == m.after_item().after_all() && (
        m.after_item().all_items() matches Ok(rest) ==> m.all_items() == Ok::<
            Seq<i32>,
            ErrorModel,
        >(seq![sample] + rest)) && (m.after_item().all_items() matches Err(e) ==> m.all_items()
            == Err::<Seq<i32>, ErrorModel>(e)),
{
}
} // verus!
