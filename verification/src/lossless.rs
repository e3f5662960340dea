//! What is written is what is read.
//!
//! Nothing here runs. An encoder is written down as a spec function, stage by
//! stage, and the proofs show that decoding gives back every sample.
use crate::arith;
use crate::bitstream;
use crate::bitstream::BitCursor;
use crate::block;
use crate::coding;
use crate::coding::{Coder, Item, Plan};
use crate::decorrelation;
use crate::entropy::EntropyModel;
use crate::error::ErrorModel;
use crate::header;
use crate::header::{BlockHeader, SubBlock};
use crate::reader;
use crate::reader::{BlockStep, NextBlock, ReaderModel};
use crate::source::Source;
use vstd::arithmetic::div_mod::*;
use vstd::arithmetic::mul::*;
use vstd::arithmetic::power2::*;
use vstd::prelude::*;

verus! {

/// A bit of a row; 0 behind its end.
pub open spec fn bit_of(code: Seq<bool>, i: int) -> int {
    if 0 <= i < code.len() && code[i] {
        1
    } else {
        0
    }
}

/// A row of bits as bytes, lowest bit first.
pub open spec fn packed(code: Seq<bool>) -> Seq<u8> {
    Seq::new(
        ((code.len() + 7) / 8) as nat,
        |k: int|
            (bit_of(code, 8 * k) + 2 * bit_of(code, 8 * k + 1) + 4 * bit_of(code, 8 * k + 2) + 8
                * bit_of(code, 8 * k + 3) + 16 * bit_of(code, 8 * k + 4) + 32 * bit_of(
                code,
                8 * k + 5,
            ) + 64 * bit_of(code, 8 * k + 6) + 128 * bit_of(code, 8 * k + 7)) as u8,
    )
}

/// The bytes hold the bits that were packed in them.
pub proof fn lemma_packed(code: Seq<bool>)
    ensures
        coding::has_bits(BitCursor { data: packed(code), pos: 0 }, code),
{
    let data = packed(code);
    assert forall|i: int| 0 <= i < code.len() implies (#[trigger] code[i] <==> bitstream::bit_at(
        data,
        0 + i,
    ) == 1) by {
        let k = i / 8;
        let j = i % 8;
        lemma2_to64();
        assert(i == 8 * k + j);
        let b = data[k] as int;
        assert(bitstream::bit_at(data, i) == (b as nat / pow2(j as nat)) % 2);
        if j == 0 {
            assert(b / 1 % 2 == bit_of(code, i));
        } else if j == 1 {
            assert(b / 2 % 2 == bit_of(code, i));
        } else if j == 2 {
            assert(b / 4 % 2 == bit_of(code, i));
        } else if j == 3 {
            assert(b / 8 % 2 == bit_of(code, i));
        } else if j == 4 {
            assert(b / 16 % 2 == bit_of(code, i));
        } else if j == 5 {
            assert(b / 32 % 2 == bit_of(code, i));
        } else if j == 6 {
            assert(b / 64 % 2 == bit_of(code, i));
        } else {
            assert(b / 128 % 2 == bit_of(code, i));
        }
    }
}

/// The channels of the first `k` residuals of a block: each in turn.
pub open spec fn turns(count: nat, k: nat) -> Seq<int> {
    Seq::new(k, |j: int| j % count as int)
}

/// Decoding frame by frame is decoding each channel in turn.
pub proof fn lemma_turns(m: EntropyModel, count: nat, i: nat, ch: nat)
    requires
        ch <= count,
        count > 0,
    ensures
        m.after_frames(count, i).after_frame(ch) == m.after_residuals(
            turns(count, i * count + ch),
        ),
    decreases i, ch,
{
    let k = i * count + ch;
    let chs = turns(count, k);
    if ch > 0 {
        lemma_turns(m, count, i, (ch - 1) as nat);
        assert(chs.drop_last() =~= turns(count, (k - 1) as nat));
        block::lemma_interleaved_index(i as int, ch - 1, count as int);
        assert(chs.last() == ch - 1);
    } else if i > 0 {
        lemma_turns(m, count, (i - 1) as nat, count);
        assert((i - 1) * count + count == i * count) by (nonlinear_arith)
            requires
                i > 0,
        ;
    } else {
        lemma_mul_basics(count as int);
    }
}

/// The residuals of a block in the order in which they are coded.
pub open spec fn block_items(x: Seq<Seq<i32>>, n: nat) -> Seq<Item> {
    Seq::new(
        n * x.len(),
        |k: int|
            Item {
                channel: k % x.len() as int,
                value: x[k % x.len() as int][k / x.len() as int],
            },
    )
}

/// The residuals of a block are read back.
proof fn lemma_residuals_lossless(m: EntropyModel, x: Seq<Seq<i32>>, n: nat, plan: Plan)
    requires
        x.len() > 0,
        x.len() == m.medians.len(),
        forall|c: int| 0 <= c < x.len() ==> (#[trigger] x[c]).len() == n,
        m.zeroes == 0,
        !m.zero,
        !m.one,
        plan.suits(block_items(x, n)),
        coding::has_bits(m.bits, Coder::of(m).code(block_items(x, n), plan)),
    ensures
        block::residual_channels(m, x.len(), n) == x,
{
    let count = x.len();
    let items = block_items(x, n);
    let chs = coding::channels_of(items);
    assert forall|k: int| 0 <= k < items.len() implies 0 <= (#[trigger] items[k]).channel
        < m.medians.len() by {
        lemma_mod_bound(k, count as int);
    }
    coding::lemma_entropy_lossless(m, items, plan);
    assert(chs =~= turns(count, items.len()));
    let r = block::residual_channels(m, count, n);
    assert forall|c: int| 0 <= c < count implies #[trigger] r[c] == x[c] by {
        assert(x[c].len() == n);
        assert forall|i: int| 0 <= i < n implies #[trigger] r[c][i] == x[c][i] by {
            let k = i * count + c;
            block::lemma_interleaved_index(i, c, count as int);
            assert(0 <= k < n * count) by (nonlinear_arith)
                requires
                    0 <= i < n,
                    0 <= c < count,
                    k == i * count + c,
            ;
            lemma_turns(m, count, i as nat, c as nat);
            assert(chs.take(k) =~= turns(count, k as nat));
            assert(chs[k] == c);
            assert(m.residuals(chs)[k] == coding::values_of(items)[k]);
        }
        assert(r[c] =~= x[c]);
    }
    assert(r =~= x);
}

/// Two channels in joint stereo.
pub open spec fn joined(x: Seq<Seq<i32>>) -> Seq<Seq<i32>> {
    seq![
        Seq::new(x[0].len(), |i: int| decorrelation::to_joint(x[0][i], x[1][i]).0),
        Seq::new(x[0].len(), |i: int| decorrelation::to_joint(x[0][i], x[1][i]).1),
    ]
}

/// Two channels come back out of joint stereo.
proof fn lemma_joined(x: Seq<Seq<i32>>, n: nat)
    requires
        decorrelation::is_block(x, n, false),
    ensures
        decorrelation::is_block(joined(x), n, false),
        block::unjoined(joined(x)) == x,
{
    let y = joined(x);
    let z = block::unjoined(y);
    assert(x[0].len() == n && x[1].len() == n);
    assert forall|i: int| 0 <= i < n implies z[0][i] == x[0][i] && z[1][i] == x[1][i] by {
        decorrelation::lemma_joint_stereo_lossless(x[0][i], x[1][i]);
        assert(y[0][i] == decorrelation::to_joint(x[0][i], x[1][i]).0);
        assert(y[1][i] == decorrelation::to_joint(x[0][i], x[1][i]).1);
    }
    assert(z[0] =~= x[0]);
    assert(z[1] =~= x[1]);
    assert(z =~= x);
}

/// The residuals of a block: its channels in joint stereo where the flags say so,
/// encoded through the passes.
pub open spec fn block_residuals(h: BlockHeader, subs: Seq<SubBlock>, x: Seq<Seq<i32>>) -> Seq<
    Seq<i32>,
> {
    let mono = block::is_mono_data(h);
    let y = if !mono && header::flag_bit(h.flags, 4) {
        joined(x)
    } else {
        x
    };
    decorrelation::encode_passes(block::block_passes(subs, mono), y, mono)
}

/// The residuals of a block in the order in which they are coded.
pub open spec fn coded_items(h: BlockHeader, subs: Seq<SubBlock>, x: Seq<Seq<i32>>) -> Seq<Item> {
    block_items(block_residuals(h, subs, x), h.block_samples as nat)
}

/// The bits of a block.
pub open spec fn block_code(
    h: BlockHeader,
    subs: Seq<SubBlock>,
    x: Seq<Seq<i32>>,
    plan: Plan,
) -> Seq<bool> {
    let count = decorrelation::channel_count(block::is_mono_data(h)) as nat;
    let coder = Coder {
        medians: block::block_medians(subs, count),
        zero: false,
        one: false,
        zeroes: 0,
    };
    coder.code(coded_items(h, subs, x), plan)
}

/// The sub-blocks of a block hold the bits of its channels.
pub open spec fn holds_channels(
    h: BlockHeader,
    subs: Seq<SubBlock>,
    x: Seq<Seq<i32>>,
    plan: Plan,
) -> bool {
    &&& plan.suits(coded_items(h, subs, x))
    &&& block::last_data(subs, header::ID_WV_BITSTREAM) matches Some(bits) && coding::has_bits(
        BitCursor { data: bits, pos: 0 },
        block_code(h, subs, x, plan),
    )
}

/// The checksum of the channels of a block.
pub open spec fn block_crc(h: BlockHeader, x: Seq<Seq<i32>>) -> u32 {
    block::crc_of(block::interleaved(x, h.block_samples as nat))
}

/// A block loses nothing: whatever its channels, its passes, its medians, its flags
/// and its runs of zeros, the channels that were coded are those that are decoded. A
/// shift that the header asks for is applied to them. Where the header does not have
/// their checksum, that is the error.
pub proof fn lemma_block_lossless(
    h: BlockHeader,
    subs: Seq<SubBlock>,
    x: Seq<Seq<i32>>,
    plan: Plan,
)
    requires
        decorrelation::is_block(x, h.block_samples as nat, block::is_mono_data(h)),
        holds_channels(h, subs, x, plan),
    ensures
        block::block_result(h, subs) == if h.crc == block_crc(h, x) {
            Ok::<Seq<Seq<i32>>, ErrorModel>(
                block::widened(h, block::last_data(subs, header::ID_INT32_INFO), x),
            )
        } else {
            Err(ErrorModel::CrcMismatch { expected: h.crc, actual: block_crc(h, x) })
        },
{
    let mono = block::is_mono_data(h);
    let n = h.block_samples as nat;
    let count = decorrelation::channel_count(mono) as nat;
    let joint = !mono && header::flag_bit(h.flags, 4);
    let bits = block::last_data(subs, header::ID_WV_BITSTREAM)->Some_0;
    let passes = block::block_passes(subs, mono);
    let y = if joint {
        joined(x)
    } else {
        x
    };
    if joint {
        lemma_joined(x, n);
    }
    assert(decorrelation::is_block(y, n, mono));
    decorrelation::lemma_decorrelation_lossless(passes, y, n, mono);
    let r = decorrelation::encode_passes(passes, y, mono);
    let m = block::block_entropy(h, subs, bits);
    assert(m.medians.len() == count);
    lemma_residuals_lossless(m, r, n, plan);
    assert(block::plain_channels(h, subs, bits) == x);
}

/// A sub-block of one kind hides only those of its kind.
proof fn lemma_last_data_push(subs: Seq<SubBlock>, sub: SubBlock, id: u8)
    ensures
        block::last_data(subs.push(sub), id) == if sub.id == id {
            Some(sub.data)
        } else {
            block::last_data(subs, id)
        },
{
    assert(subs.push(sub).drop_last() =~= subs);
}

/// The bitstream sub-block that completes the others.
pub open spec fn bitstream_sub_block(
    h: BlockHeader,
    subs: Seq<SubBlock>,
    raw_id: u8,
    x: Seq<Seq<i32>>,
    plan: Plan,
) -> SubBlock {
    SubBlock {
        id: header::ID_WV_BITSTREAM,
        raw_id,
        data: packed(block_code(h, subs, x, plan)),
    }
}

/// Every block can be coded: whatever the channels, the other sub-blocks and the
/// runs of zeros, there is a bitstream sub-block that completes them.
pub proof fn lemma_block_codable(
    h: BlockHeader,
    subs: Seq<SubBlock>,
    raw_id: u8,
    x: Seq<Seq<i32>>,
    plan: Plan,
)
    requires
        plan.suits(coded_items(h, subs, x)),
    ensures
        holds_channels(h, subs.push(bitstream_sub_block(h, subs, raw_id, x, plan)), x, plan),
{
    let sub = bitstream_sub_block(h, subs, raw_id, x, plan);
    lemma_last_data_push(subs, sub, header::ID_WV_BITSTREAM);
    lemma_last_data_push(subs, sub, header::ID_DECORR_TERMS);
    lemma_last_data_push(subs, sub, header::ID_DECORR_WEIGHTS);
    lemma_last_data_push(subs, sub, header::ID_DECORR_SAMPLES);
    lemma_last_data_push(subs, sub, header::ID_ENTROPY_VARS);
    lemma_packed(block_code(h, subs, x, plan));
}

/// No block begins in a row of bytes.
pub open spec fn no_magic(bytes: Seq<u8>) -> bool {
    forall|p: int| !(#[trigger] header::magic_at(bytes, p))
}

/// A search passes over bytes in which no block begins, up to a block.
proof fn lemma_lead(s: Source, lead: Seq<u8>)
    requires
        no_magic(lead),
        s.remaining() >= lead.len(),
        s.next(lead.len() as int) == lead,
        header::magic_at(s.data, s.pos as int + lead.len()),
    ensures
        header::sync_found(s),
        header::after_sync(s) == s.advance(lead.len() as int),
    decreases lead.len(),
{
    if lead.len() > 0 {
        let rest = lead.drop_first();
        let next = s.advance(1);
        assert forall|i: int| 0 <= i < lead.len() implies s.data[s.pos + i]
            == #[trigger] lead[i] by {
            assert(s.next(lead.len() as int)[i] == lead[i]);
        }
        assert(!header::magic_at(s.data, s.pos as int)) by {
            if header::magic_at(s.data, s.pos as int) {
                if lead.len() == 1 {
                    assert(s.data[s.pos as int + 1] == 0x77);
                } else if lead.len() == 2 {
                    assert(s.data[s.pos as int + 2] == 0x77);
                } else if lead.len() == 3 {
                    assert(s.data[s.pos as int + 3] == 0x77);
                } else {
                    assert(lead[0] == 0x77 && lead[1] == 0x76 && lead[2] == 0x70 && lead[3]
                        == 0x6b);
                    assert(header::magic_at(lead, 0));
                }
            }
        }
        assert forall|p: int| !(#[trigger] header::magic_at(rest, p)) by {
            assert(!header::magic_at(lead, p + 1));
        }
        assert(next.next(rest.len() as int) =~= rest) by {
            assert(next.next(rest.len() as int) =~= s.next(lead.len() as int).drop_first());
        }
        lemma_lead(next, rest);
        assert(next.advance(rest.len() as int) == s.advance(lead.len() as int));
    } else {
        assert(s.advance(0) == s);
    }
}

/// A search finds nothing in bytes in which no block begins.
proof fn lemma_trail(s: Source)
    requires
        s.remaining() >= 0,
        no_magic(s.next(s.remaining())),
    ensures
        !header::sync_found(s),
{
    let trail = s.next(s.remaining());
    header::lemma_sync_first(s);
    let t = header::after_sync(s);
    if header::sync_found(s) {
        let p = t.pos - s.pos;
        assert(trail[p] == s.data[s.pos + p]);
        assert(trail[p + 1] == s.data[s.pos + p + 1]);
        assert(trail[p + 2] == s.data[s.pos + p + 2]);
        assert(trail[p + 3] == s.data[s.pos + p + 3]);
        assert(header::magic_at(trail, p));
    }
}

/// A block in a file: its header, its sub-blocks, and the channels that they hold,
/// if any. Bytes that belong to no block may stand before it.
pub struct FileBlock {
    pub lead: Seq<u8>,
    pub header: BlockHeader,
    pub subs: Seq<SubBlock>,
    pub channels: Seq<Seq<i32>>,
    pub plan: Plan,
}

impl FileBlock {
    /// The block holds audio.
    pub open spec fn has_audio(self) -> bool {
        self.header.block_samples > 0
    }

    /// The header fits the block, and the sub-blocks hold the channels.
    pub open spec fn is_valid(self) -> bool {
        let h = self.header;
        &&& no_magic(self.lead)
        &&& header::is_supported(h.version)
        &&& h.total_samples < 0x100_0000_0000
        &&& h.block_index < 0x100_0000_0000
        &&& h.block_size == 24 + header::metadata_bytes(self.subs).len()
        &&& forall|i: int|
            0 <= i < self.subs.len() ==> #[trigger] header::is_encodable(self.subs[i])
        &&& self.has_audio() ==> {
            &&& reader::unsupported(h) is None
            &&& decorrelation::is_block(
                self.channels,
                h.block_samples as nat,
                block::is_mono_data(h),
            )
            &&& holds_channels(h, self.subs, self.channels, self.plan)
            &&& h.crc == block_crc(h, self.channels)
        }
    }

    /// The bytes of the block itself.
    pub open spec fn body(self) -> Seq<u8> {
        header::header_bytes(self.header) + header::metadata_bytes(self.subs)
    }

    /// All bytes.
    pub open spec fn bytes(self) -> Seq<u8> {
        self.lead + self.body()
    }

    /// What the block is decoded to.
    pub open spec fn decoded(self) -> Seq<Seq<i32>> {
        block::widened(
            self.header,
            block::last_data(self.subs, header::ID_INT32_INFO),
            self.channels,
        )
    }

    /// The samples that it adds to the output.
    pub open spec fn output(self) -> Seq<i32> {
        if self.has_audio() {
            reader::block_output(self.header, self.decoded())
        } else {
            Seq::empty()
        }
    }
}

/// The bytes of a row of blocks.
pub open spec fn file_bytes(blocks: Seq<FileBlock>) -> Seq<u8>
    decreases blocks.len(),
{
    if blocks.len() == 0 {
        Seq::empty()
    } else {
        blocks[0].bytes() + file_bytes(blocks.drop_first())
    }
}

/// The samples of a row of blocks.
pub open spec fn file_samples(blocks: Seq<FileBlock>) -> Seq<i32>
    decreases blocks.len(),
{
    if blocks.len() == 0 {
        Seq::empty()
    } else {
        blocks[0].output() + file_samples(blocks.drop_first())
    }
}

/// A block that was written is found where it stands, and its header and its
/// sub-blocks are read back.
proof fn lemma_written_body(s: Source, b: FileBlock)
    requires
        b.is_valid(),
        s.remaining() >= b.bytes().len(),
        s.next(b.bytes().len() as int) == b.bytes(),
    ensures
        ({
            let at = s.advance(b.lead.len() as int);
            let behind = at.advance(32);
            let meta = header::metadata_bytes(b.subs);
            &&& header::sync_found(s)
            &&& header::after_sync(s) == at
            &&& header::header_result(at) == Ok::<Option<BlockHeader>, ErrorModel>(
                Some(b.header),
            )
            &&& header::after_header(at) == behind
            &&& header::payload_result(behind, b.header.block_size) == Ok::<Seq<u8>, ErrorModel>(
                meta,
            )
            &&& header::after_payload(behind, b.header.block_size) == s.advance(
                b.bytes().len() as int,
            )
            &&& header::metadata_from(meta, 0) == Ok::<Seq<SubBlock>, ErrorModel>(b.subs)
        }),
{
    let h = b.header;
    let head = header::header_bytes(h);
    let meta = header::metadata_bytes(b.subs);
    let all = s.next(b.bytes().len() as int);
    let k = b.lead.len() as int;
    let at = s.advance(k);
    let behind = at.advance(32);
    assert(head.len() == 32);
    assert(b.bytes() =~= b.lead + head + meta);
    assert(at.next(32) =~= head) by {
        assert(at.next(32) =~= all.subrange(k, k + 32));
    }
    assert(behind.next(meta.len() as int) =~= meta) by {
        assert(behind.next(meta.len() as int) =~= all.skip(k + 32));
    }
    assert(s.next(k) =~= b.lead) by {
        assert(s.next(k) =~= all.take(k));
    }
    header::lemma_header_round_trip(at, h);
    lemma_lead(s, b.lead);
    header::lemma_metadata_round_trip(b.subs);
}

/// A block of audio that was written is the next one to be found, and is decoded to
/// what it held; a block without audio is passed over.
pub proof fn lemma_written_block(s: Source, b: FileBlock)
    requires
        b.is_valid(),
        s.remaining() >= b.bytes().len(),
        s.next(b.bytes().len() as int) == b.bytes(),
    ensures
        ({
            let next = s.advance(b.bytes().len() as int);
            reader::next_block(s) == if b.has_audio() {
                BlockStep { result: NextBlock::Found(b.header, b.decoded()), source: next }
            } else {
                reader::next_block(next)
            }
        }),
{
    lemma_written_body(s, b);
    if b.has_audio() {
        lemma_block_lossless(b.header, b.subs, b.channels, b.plan);
    }
}

/// A file is described by its first block.
pub proof fn lemma_written_description(s: Source, b: FileBlock)
    requires
        b.is_valid(),
        reader::unsupported(b.header) is None,
        s.remaining() >= b.bytes().len(),
        s.next(b.bytes().len() as int) == b.bytes(),
    ensures
        reader::open_result(s) == Ok::<ReaderModel, ErrorModel>(
            reader::opened(s.advance(b.lead.len() as int), b.header, b.subs),
        ),
{
    lemma_written_body(s, b);
}

/// What is in the buffer comes out first.
proof fn lemma_drain(m: ReaderModel)
    requires
        m.pos <= m.buf.len(),
    ensures
        m.all_items() == reader::prepend(
            m.buf.skip(m.pos as int),
            (ReaderModel { pos: m.buf.len(), ..m }).all_items(),
        ),
    decreases m.buf.len() - m.pos,
{
    let done = ReaderModel { pos: m.buf.len(), ..m };
    let rest = m.buf.skip(m.pos as int);
    let end = done.all_items();
    if m.pos < m.buf.len() {
        let next = ReaderModel { pos: m.pos + 1, ..m };
        lemma_drain_one(m);
        lemma_drain(next);
        lemma_prepend_twice(m.buf[m.pos as int], m.buf.skip(m.pos as int + 1), end);
        assert(seq![m.buf[m.pos as int]] + m.buf.skip(m.pos as int + 1) =~= rest);
    } else {
        assert(m == done);
        assert(rest =~= Seq::empty());
        if let Ok(more) = end {
            assert(rest + more =~= more);
        }
    }
}

/// The next sample in the buffer comes out first.
proof fn lemma_drain_one(m: ReaderModel)
    requires
        m.pos < m.buf.len(),
    ensures
        m.all_items() == reader::prepend(
            seq![m.buf[m.pos as int]],
            (ReaderModel { pos: m.pos + 1, ..m }).all_items(),
        ),
{
    assert(m.item() == Some(Ok::<i32, ErrorModel>(m.buf[m.pos as int])));
    assert(m.after_item() == (ReaderModel { pos: m.pos + 1, ..m }));
}

/// Samples can be put before a result one after the other or all at once.
proof fn lemma_prepend_twice(first: i32, more: Seq<i32>, end: Result<Seq<i32>, ErrorModel>)
    ensures
        reader::prepend(seq![first], reader::prepend(more, end)) == reader::prepend(
            seq![first] + more,
            end,
        ),
{
    if let Ok(tail) = end {
        assert(seq![first] + (more + tail) =~= (seq![first] + more) + tail);
    }
}

/// A block of audio adds at least one sample to the output.
proof fn lemma_output_len(b: FileBlock)
    requires
        b.is_valid(),
        b.has_audio(),
    ensures
        b.output().len() > 0,
{
    let n = b.header.block_samples as nat;
    let count = b.decoded().len();
    assert(n * 2 > 0);
    assert(n * count > 0) by (nonlinear_arith)
        requires
            n > 0,
            count > 0,
    ;
}

/// The samples of a block of audio come out, and then those behind it.
proof fn lemma_audio_ahead(m: ReaderModel, b: FileBlock, next: Source)
    requires
        m.pos >= m.buf.len(),
        !m.finished,
        b.output().len() > 0,
        b.has_audio(),
        reader::next_block(m.source) == (BlockStep {
            result: NextBlock::Found(b.header, b.decoded()),
            source: next,
        }),
    ensures
        ({
            let full = m.after_block();
            let done = ReaderModel { pos: full.buf.len(), ..full };
            &&& done.source == next
            &&& !done.finished
            &&& m.all_items() == reader::prepend(b.output(), done.all_items())
        }),
{
    let out = b.output();
    let full = m.after_block();
    let done = ReaderModel { pos: full.buf.len(), ..full };
    let after = m.after_item();
    assert(full.buf == out);
    assert(m.item() == Some(Ok::<i32, ErrorModel>(out[0])));
    assert(after == (ReaderModel { pos: 1, ..full }));
    lemma_drain(after);
    if let Ok(more) = done.all_items() {
        assert(seq![out[0]] + (out.skip(1) + more) =~= out + more);
    }
}

/// Nothing comes out of a block that is passed over.
proof fn lemma_silence_ahead(m: ReaderModel, next: Source)
    requires
        reader::next_block(m.source) == reader::next_block(next),
        m.pos >= m.buf.len(),
        !m.finished,
    ensures
        m.all_items() == (ReaderModel { source: next, ..m }).all_items(),
{
    let passed = ReaderModel { source: next, ..m };
    assert(m.item() == passed.item());
    assert(m.after_item() == passed.after_item());
}

/// The first block ahead, and the bytes behind it.
proof fn lemma_first_ahead(s: Source, blocks: Seq<FileBlock>, trail: Seq<u8>)
    requires
        blocks.len() > 0,
        s.remaining() >= 0,
        s.next(s.remaining()) == file_bytes(blocks) + trail,
    ensures
        ({
            let len = blocks[0].bytes().len() as int;
            let next = s.advance(len);
            &&& s.remaining() >= len
            &&& s.next(len) == blocks[0].bytes()
            &&& next.remaining() >= 0
            &&& next.next(next.remaining()) == file_bytes(blocks.drop_first()) + trail
        }),
{
    let all = s.next(s.remaining());
    let b = blocks[0];
    let rest = blocks.drop_first();
    let len = b.bytes().len() as int;
    let next = s.advance(len);
    assert(all.len() == s.remaining());
    assert(all =~= b.bytes() + (file_bytes(rest) + trail));
    assert(s.next(len) =~= all.take(len));
    assert(all.take(len) =~= b.bytes());
    assert(next.next(next.remaining()) =~= all.skip(len));
    assert(all.skip(len) =~= file_bytes(rest) + trail);
}

/// The samples of the blocks ahead come out.
proof fn lemma_blocks_ahead(m: ReaderModel, blocks: Seq<FileBlock>, trail: Seq<u8>)
    requires
        m.pos >= m.buf.len(),
        !m.finished,
        m.source.remaining() >= 0,
        m.source.next(m.source.remaining()) == file_bytes(blocks) + trail,
        no_magic(trail),
        forall|i: int| 0 <= i < blocks.len() ==> (#[trigger] blocks[i]).is_valid(),
    ensures
        m.all_items() == Ok::<Seq<i32>, ErrorModel>(file_samples(blocks)),
    decreases blocks.len(),
{
    let s = m.source;
    if blocks.len() == 0 {
        assert(s.next(s.remaining()) =~= trail);
        lemma_trail(s);
    } else {
        let b = blocks[0];
        let rest = blocks.drop_first();
        let next = s.advance(b.bytes().len() as int);
        assert(b.is_valid());
        lemma_first_ahead(s, blocks, trail);
        lemma_written_block(s, b);
        assert forall|i: int| 0 <= i < rest.len() implies (#[trigger] rest[i]).is_valid() by {
            assert(blocks[i + 1].is_valid());
        }
        if b.has_audio() {
            lemma_output_len(b);
            lemma_audio_ahead(m, b, next);
            let full = m.after_block();
            lemma_blocks_ahead(ReaderModel { pos: full.buf.len(), ..full }, rest, trail);
        } else {
            lemma_silence_ahead(m, next);
            lemma_blocks_ahead(ReaderModel { source: next, ..m }, rest, trail);
            assert(b.output() + file_samples(rest) =~= file_samples(rest));
        }
    }
}

/// A block without the bytes in front of it.
spec fn bare(b: FileBlock) -> FileBlock {
    FileBlock { lead: Seq::empty(), ..b }
}

/// Without the bytes in front of it, a block is the same.
proof fn lemma_bare_block(b: FileBlock)
    requires
        b.is_valid(),
    ensures
        bare(b).is_valid(),
        bare(b).output() == b.output(),
{
    assert(no_magic(Seq::empty()));
}

/// A row of blocks without the bytes in front of it.
spec fn bare_row(blocks: Seq<FileBlock>) -> Seq<FileBlock> {
    blocks.update(0, bare(blocks[0]))
}

/// The bytes of such a row follow those in front of it.
proof fn lemma_bare_bytes(s: Source, blocks: Seq<FileBlock>, trail: Seq<u8>)
    requires
        blocks.len() > 0,
        s.remaining() >= 0,
        s.next(s.remaining()) == file_bytes(blocks) + trail,
    ensures
        ({
            let at = s.advance(blocks[0].lead.len() as int);
            &&& at.remaining() >= 0
            &&& at.next(at.remaining()) == file_bytes(bare_row(blocks)) + trail
        }),
{
    let row = bare_row(blocks);
    let b = blocks[0];
    let rest = blocks.drop_first();
    let k = b.lead.len() as int;
    let at = s.advance(k);
    let all = s.next(s.remaining());
    let body = b.body();
    assert(row.drop_first() =~= rest);
    assert(row[0].bytes() =~= body);
    assert(all.len() == s.remaining());
    assert(all =~= b.lead + (body + file_bytes(rest) + trail));
    assert(at.next(at.remaining()) =~= all.skip(k));
    assert(all.skip(k) =~= body + file_bytes(rest) + trail);
}

/// The blocks and the samples of such a row are the same.
proof fn lemma_bare_row(blocks: Seq<FileBlock>)
    requires
        blocks.len() > 0,
        forall|i: int| 0 <= i < blocks.len() ==> (#[trigger] blocks[i]).is_valid(),
    ensures
        forall|i: int| 0 <= i < blocks.len() ==> (#[trigger] bare_row(blocks)[i]).is_valid(),
        file_samples(bare_row(blocks)) == file_samples(blocks),
{
    let row = bare_row(blocks);
    assert(blocks[0].is_valid());
    lemma_bare_block(blocks[0]);
    assert(row.drop_first() =~= blocks.drop_first());
    assert forall|i: int| 0 <= i < blocks.len() implies (#[trigger] row[i]).is_valid() by {
        if i > 0 {
            assert(row[i] == blocks[i]);
        }
    }
}

/// A file loses nothing: a reader opened on a row of blocks, with or without other
/// bytes around them, is described by the first of them and yields the samples of
/// all of them, in order, without error, and then ends.
pub proof fn lemma_file_lossless(blocks: Seq<FileBlock>, trail: Seq<u8>)
    requires
        blocks.len() > 0,
        reader::unsupported(blocks[0].header) is None,
        forall|i: int| 0 <= i < blocks.len() ==> (#[trigger] blocks[i]).is_valid(),
        no_magic(trail),
    ensures
        ({
            let s = Source { data: file_bytes(blocks) + trail, pos: 0 };
            let at = s.advance(blocks[0].lead.len() as int);
            let m = reader::opened(at, blocks[0].header, blocks[0].subs);
            let all = file_samples(blocks);
            &&& reader::open_result(s) == Ok::<ReaderModel, ErrorModel>(m)
            &&& m.all_items() == Ok::<Seq<i32>, ErrorModel>(all)
            &&& forall|k: nat|
                k < all.len() ==> (#[trigger] m.after_items(k)).item() == Some(
                    Ok::<i32, ErrorModel>(all[k as int]),
                )
            &&& m.after_items(all.len()).item() is None
        }),
{
    let s = Source { data: file_bytes(blocks) + trail, pos: 0 };
    let b = blocks[0];
    let m = reader::opened(s.advance(b.lead.len() as int), b.header, b.subs);
    assert(b.is_valid());
    assert(s.next(s.remaining()) =~= file_bytes(blocks) + trail);
    lemma_first_ahead(s, blocks, trail);
    lemma_written_description(s, b);
    // Decoding starts behind the bytes in front of the first block.
    lemma_bare_bytes(s, blocks, trail);
    lemma_bare_row(blocks);
    lemma_blocks_ahead(m, bare_row(blocks), trail);
    reader::lemma_items_in_order(m, file_samples(blocks));
}

/// Samples without the low bits that the header shifts in.
pub open spec fn narrowed(h: BlockHeader, pcm: Seq<Seq<i32>>) -> Seq<Seq<i32>> {
    pcm.map_values(
        |x: Seq<i32>| x.map_values(|s: i32| (s as int / pow2(block::shift_of(h)) as int) as i32),
    )
}

/// Every sample is a multiple of what the header shifts by.
pub open spec fn is_shifted(h: BlockHeader, pcm: Seq<Seq<i32>>) -> bool {
    forall|c: int, i: int|
        0 <= c < pcm.len() && 0 <= i < pcm[c].len() ==> #[trigger] pcm[c][i] as int % pow2(
            block::shift_of(h),
        ) as int == 0
}

/// Shifting loses nothing: samples whose low bits are zero come back when they are
/// stored without those bits.
pub proof fn lemma_shift_lossless(h: BlockHeader, pcm: Seq<Seq<i32>>)
    requires
        is_shifted(h, pcm),
    ensures
        block::widened(h, None, narrowed(h, pcm)) == pcm,
{
    let out = block::widened(h, None, narrowed(h, pcm));
    let unit = pow2(block::shift_of(h)) as int;
    lemma_pow2_pos(block::shift_of(h));
    assert forall|c: int| 0 <= c < pcm.len() implies #[trigger] out[c] == pcm[c] by {
        assert forall|i: int| 0 <= i < pcm[c].len() implies out[c][i] == #[trigger] pcm[c][i] by {
            let s = pcm[c][i] as int;
            lemma_fundamental_div_mod(s, unit);
            let q = s / unit;
            assert(i32::MIN <= q <= i32::MAX) by (nonlinear_arith)
                requires
                    s == unit * q,
                    unit >= 1,
                    i32::MIN <= s <= i32::MAX,
            ;
            lemma_mul_is_commutative(unit, q);
            arith::lemma_wrap_i32_exact(s);
        }
        assert(out[c] =~= pcm[c]);
    }
    assert(out =~= pcm);
}

/// The sub-blocks leave the samples as wide as the shift makes them.
pub open spec fn keeps_width(subs: Seq<SubBlock>) -> bool {
    block::last_data(subs, header::ID_INT32_INFO) matches Some(info) ==> !block::is_extending(info)
}

/// A block that stores PCM samples, without the low bits that its header shifts in,
/// yields exactly those samples, interleaved; a false stereo block yields those of
/// its one channel for both.
pub proof fn lemma_pcm_output(b: FileBlock, pcm: Seq<Seq<i32>>)
    requires
        b.has_audio(),
        keeps_width(b.subs),
        is_shifted(b.header, pcm),
        b.channels == narrowed(b.header, pcm),
    ensures
        b.output() == block::interleaved(
            if header::flag_bit(b.header.flags, 30) {
                seq![pcm[0], pcm[0]]
            } else {
                pcm
            },
            b.header.block_samples as nat,
        ),
{
    lemma_shift_lossless(b.header, pcm);
    if let Some(info) = block::last_data(b.subs, header::ID_INT32_INFO) {
        let plain = block::widened(b.header, None, b.channels);
        let wide = block::widened(b.header, Some(info), b.channels);
        assert forall|c: int| 0 <= c < plain.len() implies #[trigger] wide[c] == plain[c] by {
            assert(wide[c] =~= plain[c]);
        }
        assert(wide =~= plain);
    }
}

} // verus!
