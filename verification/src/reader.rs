//! Reading a whole file.
use crate::block;
use crate::decorrelation;
use crate::error::{ErrorModel, WavPackError};
use crate::header;
use crate::header::{BlockHeader, MetaSubBlock, SubBlock};
use crate::source::{ByteReader, Source};
use vstd::arithmetic::div_mod::*;
use vstd::prelude::*;

verus! {

/// Metadata about the audio contained in a WavPack file.
#[derive(Debug, Clone, Copy)]
pub struct WavPackInfo {
    /// Sample rate in Hz (e.g. 44100).
    pub sample_rate: u32,
    /// Number of audio channels (1 = mono, 2 = stereo).
    pub channels: u16,
    /// Bits per sample (8, 16, 24, or 32).
    pub bits_per_sample: u16,
    /// Total number of audio samples (frames × channels).
    pub total_samples: u64,
}

/// The value of the frame count that stands for an unknown length.
pub const UNKNOWN_LENGTH: u64 = 0xff_ffff_ffff;

/// A feature that cannot be decoded, if the flags ask for one.
pub open spec fn unsupported(h: BlockHeader) -> Option<ErrorModel> {
    if header::flag_bit(h.flags, 3) {
        Some(ErrorModel::HybridNotSupported)
    } else if header::flag_bit(h.flags, 7) {
        Some(ErrorModel::FloatNotSupported)
    } else if header::flag_bit(h.flags, 31) {
        Some(ErrorModel::DsdNotSupported)
    } else {
        None
    }
}

/// Rejects features that cannot be decoded.
fn check_supported(hdr: &BlockHeader) -> (r: Result<(), WavPackError>)
    ensures
        match r {
            Ok(_) => unsupported(*hdr) is None,
            Err(e) => unsupported(*hdr) == Some(e@),
        },
{
    if hdr.is_hybrid() {
        return Err(WavPackError::HybridNotSupported);
    }
    if hdr.is_float() {
        return Err(WavPackError::FloatNotSupported);
    }
    if hdr.is_dsd() {
        return Err(WavPackError::DsdNotSupported);
    }
    Ok(())
}

/// How the search for the next block of audio ends.
#[verifier::ext_equal]
pub enum NextBlock {
    /// There is no further block.
    End,
    /// A block cannot be decoded.
    Fail(ErrorModel),
    /// A block was decoded.
    Found(BlockHeader, Seq<Seq<i32>>),
}

/// That, and the place behind it.
#[verifier::ext_equal]
pub struct BlockStep {
    pub result: NextBlock,
    pub source: Source,
}

/// What a block that holds audio is decoded to.
pub open spec fn audio_block(h: BlockHeader, s: Source) -> NextBlock {
    match header::payload_result(s, h.block_size) {
        Err(e) => NextBlock::Fail(e),
        Ok(payload) => match header::metadata_from(payload, 0) {
            Err(e) => NextBlock::Fail(e),
            Ok(subs) => match block::block_result(h, subs) {
                Err(e) => NextBlock::Fail(e),
                Ok(b) => NextBlock::Found(h, b),
            },
        },
    }
}

/// The next block of audio. Bytes outside of blocks and blocks without samples
/// are passed over.
pub open spec fn next_block(s: Source) -> BlockStep
    decreases s.remaining(),
    via next_block_decreases
{
    let at = header::after_sync(s);
    let behind = header::after_header(at);
    if !header::sync_found(s) {
        BlockStep { result: NextBlock::End, source: at }
    } else {
        match header::header_result(at) {
            Err(e) => BlockStep { result: NextBlock::Fail(e), source: behind },
            Ok(None) => BlockStep { result: NextBlock::End, source: behind },
            Ok(Some(h)) => {
                let next = header::after_payload(behind, h.block_size);
                if h.block_samples == 0 {
                    match header::payload_result(behind, h.block_size) {
                        Err(e) => BlockStep { result: NextBlock::Fail(e), source: next },
                        Ok(_) => next_block(next),
                    }
                } else {
                    match unsupported(h) {
                        Some(e) => BlockStep { result: NextBlock::Fail(e), source: behind },
                        None => BlockStep { result: audio_block(h, behind), source: next },
                    }
                }
            },
        }
    }
}

#[via_fn]
proof fn next_block_decreases(s: Source) {
    if header::sync_found(s) {
        header::lemma_sync_first(s);
    }
}

/// The samples that a block adds to the output, interleaved. The data of a false
/// stereo block goes to both channels.
pub open spec fn block_output(h: BlockHeader, channels: Seq<Seq<i32>>) -> Seq<i32> {
    let n = h.block_samples as nat;
    if header::flag_bit(h.flags, 30) {
        block::interleaved(seq![channels[0], channels[0]], n)
    } else {
        block::interleaved(channels, n)
    }
}

/// The mathematical value of a reader.
#[verifier::ext_equal]
pub struct ReaderModel {
    pub source: Source,
    pub info: WavPackInfo,
    pub buf: Seq<i32>,
    pub pos: nat,
    pub frames_decoded: u64,
    pub total_frames: u64,
    pub finished: bool,
}

impl ReaderModel {
    /// The reader with the output of a block, and at the place behind it.
    pub open spec fn filled(
        self,
        h: BlockHeader,
        channels: Seq<Seq<i32>>,
        source: Source,
    ) -> ReaderModel {
        ReaderModel {
            source,
            buf: block_output(h, channels),
            pos: 0,
            frames_decoded: ((self.frames_decoded + h.block_samples)
                % 0x1_0000_0000_0000_0000) as u64,
            ..self
        }
    }

    /// The reader behind the next block.
    pub open spec fn after_block(self) -> ReaderModel {
        let step = next_block(self.source);
        match step.result {
            NextBlock::End => ReaderModel { source: step.source, finished: true, ..self },
            NextBlock::Fail(e) => ReaderModel { source: step.source, ..self },
            NextBlock::Found(h, b) => self.filled(h, b, step.source),
        }
    }

    /// The next sample, an error, or nothing at the end.
    pub open spec fn item(self) -> Option<Result<i32, ErrorModel>> {
        if self.pos < self.buf.len() {
            Some(Ok(self.buf[self.pos as int]))
        } else if self.finished {
            None
        } else {
            match next_block(self.source).result {
                NextBlock::End => None,
                NextBlock::Fail(e) => Some(Err(e)),
                NextBlock::Found(h, b) => Some(Ok(block_output(h, b)[0])),
            }
        }
    }

    /// The reader behind that.
    pub open spec fn after_item(self) -> ReaderModel {
        if self.pos < self.buf.len() {
            ReaderModel { pos: self.pos + 1, ..self }
        } else if self.finished {
            self
        } else {
            match next_block(self.source).result {
                NextBlock::Found(h, b) => ReaderModel { pos: 1, ..self.after_block() },
                _ => self.after_block(),
            }
        }
    }
}

/// A reader that decodes WavPack (.wv) files.
///
/// Open a file, read metadata, then iterate over decoded PCM samples.
#[derive(Debug)]
pub struct WavPackReader {
    reader: ByteReader,
    info: WavPackInfo,
    /// Buffered decoded samples from the current block.
    output_buf: Vec<i32>,
    /// Current read position in output_buf.
    output_pos: usize,
    /// Total samples decoded so far (frames).
    frames_decoded: u64,
    /// Total frames in file (0 = unknown).
    total_frames: u64,
    /// True when we've hit the end of the stream.
    finished: bool,
}

impl View for WavPackReader {
    type V = ReaderModel;

    closed spec fn view(&self) -> ReaderModel {
        ReaderModel {
            source: self.reader@,
            info: self.info,
            buf: self.output_buf@,
            pos: self.output_pos as nat,
            frames_decoded: self.frames_decoded,
            total_frames: self.total_frames,
            finished: self.finished,
        }
    }
}

/// Iterator over decoded PCM samples from a WavPack file.
pub struct WavPackSamples<'a> {
    pub reader: &'a mut WavPackReader,
}

/// What opening a file at a place gives: the description is that of the first
/// block, and decoding starts before it.
pub open spec fn open_result(s: Source) -> Result<ReaderModel, ErrorModel> {
    let at = header::after_sync(s);
    if !header::sync_found(s) {
        Err(ErrorModel::NoAudioBlocks)
    } else {
        match header::header_result(at) {
            Err(e) => Err(e),
            Ok(None) => Err(ErrorModel::NoAudioBlocks),
            Ok(Some(h)) => match unsupported(h) {
                Some(e) => Err(e),
                None => match header::payload_result(header::after_header(at), h.block_size) {
                    Err(e) => Err(e),
                    Ok(payload) => match header::metadata_from(payload, 0) {
                        Err(e) => Err(e),
                        Ok(subs) => Ok(opened(at, h, subs)),
                    },
                },
            },
        }
    }
}

/// A reader before a first block.
pub open spec fn opened(at: Source, h: BlockHeader, subs: Seq<SubBlock>) -> ReaderModel {
    let channels: u16 = if header::flag_bit(h.flags, 2) {
        1
    } else {
        2
    };
    let frames = if h.total_samples == UNKNOWN_LENGTH {
        0
    } else {
        h.total_samples
    };
    ReaderModel {
        source: at,
        info: WavPackInfo {
            sample_rate: block::rate_of(h.flags, subs),
            channels,
            bits_per_sample: (8 * (h.flags % 4 + 1)) as u16,
            total_samples: (frames * channels) as u64,
        },
        buf: Seq::empty(),
        pos: 0,
        frames_decoded: 0,
        total_frames: frames,
        finished: false,
    }
}

/// Puts two channels into one row, sample by sample.
fn interleave(left: &Vec<i32>, right: &Vec<i32>, num_samples: usize) -> (out: Vec<i32>)
    requires
        num_samples <= left@.len(),
        num_samples <= right@.len(),
    ensures
        out@ == block::interleaved(seq![left@, right@], num_samples as nat),
        out@.len() == 2 * num_samples,
{
    let mut out: Vec<i32> = Vec::new();
    let ghost both = seq![left@, right@];
    assert(out@ =~= block::interleaved(both, 0));
    for i in 0..num_samples
        invariant
            num_samples <= left@.len(),
            num_samples <= right@.len(),
            both == seq![left@, right@],
            out@ == block::interleaved(both, i as nat),
    {
        out.push(left[i]);
        out.push(right[i]);
        proof {
            let (now, then) = (block::interleaved(both, i as nat), block::interleaved(both, (i
                + 1) as nat));
            assert(both.len() == 2);
            assert(now.len() == 2 * i && then.len() == 2 * i + 2) by (nonlinear_arith)
                requires
                    both.len() == 2,
                    now.len() == i * both.len(),
                    then.len() == (i + 1) * both.len(),
            ;
            assert(out@ =~= then);
        }
    }
    out
}

/// The output of a decoded block.
fn output_of(hdr: &BlockHeader, decoded: &Vec<Vec<i32>>) -> (out: Vec<i32>)
    requires
        decorrelation::is_block(
            block::channel_seqs(decoded@),
            hdr.block_samples as nat,
            block::is_mono_data(*hdr),
        ),
    ensures
        out@ == block_output(*hdr, block::channel_seqs(decoded@)),
        hdr.block_samples > 0 ==> out@.len() > 0,
{
    let num_samples: usize = hdr.block_samples as usize;
    let ghost n = num_samples as nat;
    let ghost channels = block::channel_seqs(decoded@);
    assert(channels[0] == decoded@[0]@);
    assert(channels[0].len() == n);
    if hdr.is_false_stereo() {
        // Duplicate mono to both channels
        interleave(&decoded[0], &decoded[0], num_samples)
    } else if hdr.is_mono() {
        assert(channels.len() == 1);
        assert(n * channels.len() == n) by (nonlinear_arith)
            requires
                channels.len() == 1,
        ;
        assert(block::interleaved(channels, n) =~= channels[0]);
        let mut out: Vec<i32> = Vec::new();
        out.extend_from_slice(&decoded[0]);
        assert(out@ =~= channels[0]);
        out
    } else {
        // Interleave L/R
        assert(channels[1] == decoded@[1]@);
        assert(channels[1].len() == n);
        assert(channels =~= seq![channels[0], channels[1]]);
        interleave(&decoded[0], &decoded[1], num_samples)
    }
}

/// Reads and decodes the payload of an audio block.
fn read_audio_block(reader: &mut ByteReader, hdr: &BlockHeader) -> (r: Result<
    Vec<Vec<i32>>,
    WavPackError,
>)
    requires
        old(reader).wf(),
    ensures
        final(reader).wf(),
        final(reader)@ == header::after_payload(old(reader)@, hdr.block_size),
        match r {
            Ok(b) => {
                &&& audio_block(*hdr, old(reader)@) == NextBlock::Found(
                    *hdr,
                    block::channel_seqs(b@),
                )
                &&& decorrelation::is_block(
                    block::channel_seqs(b@),
                    hdr.block_samples as nat,
                    block::is_mono_data(*hdr),
                )
            },
            Err(e) => audio_block(*hdr, old(reader)@) == NextBlock::Fail(e@),
        },
{
    let payload: Vec<u8> = match header::read_block_payload(reader, hdr) {
        Ok(p) => p,
        Err(e) => {
            return Err(e);
        },
    };
    let sub_blocks: Vec<MetaSubBlock> = match header::parse_metadata(&payload) {
        Ok(subs) => subs,
        Err(e) => {
            return Err(e);
        },
    };
    block::decode_block(hdr, &sub_blocks)
}

impl WavPackReader {
    /// The byte source is well formed, and the channel count is 1 or 2.
    pub closed spec fn wf(&self) -> bool {
        &&& self.reader.wf()
        &&& 1 <= self.info.channels <= 2
    }

    /// Create a new WavPackReader from a byte source.
    ///
    /// Parses the first block header to determine format. After construction,
    /// call `info()` for metadata and `samples()` for audio.
    pub fn new(reader: ByteReader) -> (r: Result<Self, WavPackError>)
        requires
            reader.wf(),
        ensures
            match r {
                Ok(w) => w.wf() && open_result(reader@) == Ok::<ReaderModel, ErrorModel>(w@),
                Err(e) => open_result(reader@) == Err::<ReaderModel, ErrorModel>(e@),
            },
    {
        let mut reader: ByteReader = reader;
        let ghost start = reader@;
        proof {
            reader.lemma_wf();
            header::lemma_sync_first(start);
        }
        // Sync to first block (skip any non-WavPack data at start)
        match header::sync_to_block(&mut reader) {
            Ok(true) => {},
            Ok(false) => {
                return Err(WavPackError::NoAudioBlocks);
            },
            Err(e) => {
                return Err(e);
            },
        }
        let ghost at = reader@;

        // Read the first block header to get format info
        let first_header: BlockHeader = match header::read_block_header(&mut reader) {
            Ok(Some(h)) => h,
            Ok(None) => {
                return Err(WavPackError::NoAudioBlocks);
            },
            Err(e) => {
                return Err(e);
            },
        };

        // Validate unsupported features
        if let Err(e) = check_supported(&first_header) {
            return Err(e);
        }

        // Read payload to check for custom sample rate
        let payload: Vec<u8> = match header::read_block_payload(&mut reader, &first_header) {
            Ok(p) => p,
            Err(e) => {
                return Err(e);
            },
        };
        let sub_blocks: Vec<MetaSubBlock> = match header::parse_metadata(&payload) {
            Ok(subs) => subs,
            Err(e) => {
                return Err(e);
            },
        };
        let sample_rate: u32 = block::determine_sample_rate(&first_header, &sub_blocks);
        let channels: u16 = if first_header.is_mono() { 1 } else { 2 };
        let bits_per_sample: u16 = first_header.bits_per_sample() as u16;

        // Calculate total samples (frames × channels)
        let total_frames: u64 = if first_header.total_samples == UNKNOWN_LENGTH {
            0
        } else {
            first_header.total_samples
        };
        assert(total_frames < 0x100_0000_0000);
        let info: WavPackInfo = WavPackInfo {
            sample_rate,
            channels,
            bits_per_sample,
            total_samples: total_frames * channels as u64,
        };

        // Seek back to before the first block so decode starts from the beginning
        reader.seek_back(payload.len());
        reader.seek_back(32);
        assert(reader@ == at);
        Ok(
            WavPackReader {
                reader,
                info,
                output_buf: Vec::new(),
                output_pos: 0,
                frames_decoded: 0,
                total_frames,
                finished: false,
            },
        )
    }

    /// Get metadata about the audio stream.
    pub fn info(&self) -> (info: &WavPackInfo)
        ensures
            *info == self@.info,
    {
        &self.info
    }

    /// Returns an iterator that yields decoded PCM samples as `Result<i32>`.
    ///
    /// Samples are interleaved for stereo files: `[L0, R0, L1, R1, ...]`
    ///
    /// Values are native i32; the consumer should normalize using
    /// `bits_per_sample` (e.g. divide by 32768 for 16-bit to get f32).
    pub fn samples(&mut self) -> (it: WavPackSamples<'_>)
        requires
            old(self).wf(),
        ensures
            it.reader.wf(),
            it.reader@ == old(self)@,
            *final(it.reader) == *final(self),
    {
        WavPackSamples { reader: self }
    }

    /// Decodes the payload of an audio block and fills output_buf.
    fn decode_audio(&mut self, hdr: &BlockHeader) -> (r: Result<(), WavPackError>)
        requires
            old(self).wf(),
            hdr.block_samples > 0,
        ensures
            final(self).wf(),
            ({
                let next = header::after_payload(old(self)@.source, hdr.block_size);
                match r {
                    Ok(_) => {
                        &&& audio_block(*hdr, old(self)@.source) matches NextBlock::Found(h, b)
                            && final(self)@ == old(self)@.filled(h, b, next)
                        &&& final(self)@.buf.len() > 0
                    },
                    Err(e) => {
                        &&& audio_block(*hdr, old(self)@.source) == NextBlock::Fail(e@)
                        &&& final(self)@ == (ReaderModel { source: next, ..old(self)@ })
                    },
                }
            }),
    {
        let decoded: Vec<Vec<i32>> = match read_audio_block(&mut self.reader, hdr) {
            Ok(b) => b,
            Err(e) => {
                return Err(e);
            },
        };
        self.fill(hdr, &decoded);
        Ok(())
    }

    /// Makes a decoded block the current one.
    fn fill(&mut self, hdr: &BlockHeader, decoded: &Vec<Vec<i32>>)
        requires
            old(self).wf(),
            decorrelation::is_block(
                block::channel_seqs(decoded@),
                hdr.block_samples as nat,
                block::is_mono_data(*hdr),
            ),
        ensures
            final(self).wf(),
            final(self)@ == old(self)@.filled(
                *hdr,
                block::channel_seqs(decoded@),
                old(self)@.source,
            ),
            hdr.block_samples > 0 ==> final(self)@.buf.len() > 0,
    {
        let frames: u64 = self.frames_decoded.wrapping_add(hdr.block_samples as u64);
        self.output_buf = output_of(hdr, decoded);
        self.output_pos = 0;
        self.frames_decoded = frames;
    }

    /// Decode the next block and fill output_buf. Returns true if samples available.
    pub fn decode_next_block(&mut self) -> (r: Result<bool, WavPackError>)
        requires
            old(self).wf(),
        ensures
            final(self).wf(),
            final(self)@ == old(self)@.after_block(),
            match r {
                Ok(true) => next_block(old(self)@.source).result is Found,
                Ok(false) => next_block(old(self)@.source).result is End,
                Err(e) => next_block(old(self)@.source).result == NextBlock::Fail(e@),
            },
            r == Ok::<bool, WavPackError>(true) ==> final(self)@.buf.len() > 0,
    {
        let ghost start = self@;
        loop
            invariant
                self.wf(),
                start == old(self)@,
                self@ == (ReaderModel { source: self@.source, ..start }),
                next_block(start.source) == next_block(self@.source),
            decreases self@.source.remaining(),
        {
            let ghost s = self@.source;
            proof {
                self.reader.lemma_wf();
                header::lemma_sync_first(s);
            }
            // Sync to next block
            match header::sync_to_block(&mut self.reader) {
                Ok(true) => {},
                Ok(false) => {
                    self.finished = true;
                    return Ok(false);
                },
                Err(e) => {
                    return Err(e);
                },
            }
            let hdr: BlockHeader = match header::read_block_header(&mut self.reader) {
                Ok(Some(h)) => h,
                Ok(None) => {
                    self.finished = true;
                    return Ok(false);
                },
                Err(e) => {
                    return Err(e);
                },
            };
            if hdr.block_samples > 0 {
                // Reject unsupported
                if let Err(e) = check_supported(&hdr) {
                    return Err(e);
                }
                return match self.decode_audio(&hdr) {
                    Ok(_) => Ok(true),
                    Err(e) => Err(e),
                };
            }

            // Skip metadata-only blocks
            if let Err(e) = header::read_block_payload(&mut self.reader, &hdr) {
                return Err(e);
            }
        }
    }
}

/// The search for the next block never goes back, and it moves on unless it comes
/// to the end of the data without a further block.
pub proof fn lemma_next_block_progress(s: Source)
    requires
        s.remaining() >= 0,
    ensures
        ({
            let step = next_block(s);
            &&& step.source.data == s.data
            &&& s.pos <= step.source.pos <= s.data.len()
            &&& step.result is End ==> step.source == s.end()
            &&& !(step.result is End) ==> s.pos < step.source.pos
        }),
    decreases s.remaining(),
{
    header::lemma_sync_first(s);
    let at = header::after_sync(s);
    if header::sync_found(s) {
        if let Ok(Some(h)) = header::header_result(at) {
            let behind = header::after_header(at);
            if h.block_samples == 0 && header::payload_result(behind, h.block_size) is Ok {
                lemma_next_block_progress(header::after_payload(behind, h.block_size));
            }
        }
    }
}

/// The next block depends on the bytes ahead alone.
pub proof fn lemma_next_block_agrees(s: Source, t: Source)
    requires
        s.agrees(t),
    ensures
        next_block(s).result == next_block(t).result,
        next_block(s).source.agrees(next_block(t).source),
    decreases s.remaining(),
{
    header::lemma_sync_agrees(s, t);
    header::lemma_sync_first(s);
    let (at, bt) = (header::after_sync(s), header::after_sync(t));
    header::lemma_header_agrees(at, bt);
    if header::sync_found(s) {
        if let Ok(Some(h)) = header::header_result(at) {
            let (sb, tb) = (header::after_header(at), header::after_header(bt));
            header::lemma_payload_agrees(sb, tb, h.block_size);
            if h.block_samples == 0 && header::payload_result(sb, h.block_size) is Ok {
                lemma_next_block_agrees(
                    header::after_payload(sb, h.block_size),
                    header::after_payload(tb, h.block_size),
                );
            }
        }
    }
}

/// The bytes of a block without samples, whatever its flags and its payload.
pub open spec fn is_silent_block(bytes: Seq<u8>) -> bool {
    header::header_result(Source { data: bytes, pos: 0 }) matches Ok(Some(h))
        && h.block_samples == 0 && h.block_size >= 24 && bytes.len() == h.block_size + 8
}

/// A block without samples can be dropped from a stream: the next block is found, or
/// not, as if it were not there, even if its flags ask for what cannot be decoded.
pub proof fn lemma_silent_block_dropped(bytes: Seq<u8>, rest: Seq<u8>)
    requires
        is_silent_block(bytes),
    ensures
        ({
            let with = next_block(Source { data: bytes + rest, pos: 0 });
            let without = next_block(Source { data: rest, pos: 0 });
            with.result == without.result && with.source.agrees(without.source)
        }),
{
    let b = Source { data: bytes, pos: 0 };
    let s = Source { data: bytes + rest, pos: 0 };
    let t = Source { data: rest, pos: 0 };
    assert(s.next(32) =~= b.next(32));
    header::lemma_header_local(s, b);
    assert(header::magic_at(b.data, 0));
    assert(header::magic_at(s.data, 0)) by {
        assert(s.data[0] == b.data[0] && s.data[1] == b.data[1] && s.data[2] == b.data[2]
            && s.data[3] == b.data[3]);
    }
    header::lemma_block_span(s);
    let next = s.advance(bytes.len() as int);
    assert(next_block(s) == next_block(next));
    assert(next.rest() =~= rest);
    assert(t.rest() =~= rest);
    lemma_next_block_agrees(next, t);
}

impl ReaderModel {
    /// All samples from here on, or the first error among them.
    pub open spec fn all_items(self) -> Result<Seq<i32>, ErrorModel>
        decreases self.source.remaining(), self.buf.len() - self.pos,
        via Self::all_items_decreases
    {
        match self.item() {
            None => Ok(Seq::empty()),
            Some(Err(e)) => Err(e),
            Some(Ok(sample)) => prepend(seq![sample], self.after_item().all_items()),
        }
    }

    /// The reader behind them: at the end, or behind the error.
    pub open spec fn after_all(self) -> ReaderModel
        decreases self.source.remaining(), self.buf.len() - self.pos,
        via Self::after_all_decreases
    {
        if self.item() matches Some(Ok(_)) {
            self.after_item().after_all()
        } else {
            self.after_item()
        }
    }

    /// The reader behind `k` samples.
    pub open spec fn after_items(self, k: nat) -> ReaderModel
        decreases k,
    {
        if k == 0 {
            self
        } else {
            self.after_item().after_items((k - 1) as nat)
        }
    }

    #[via_fn]
    proof fn all_items_decreases(self) {
        self.lemma_item_progress();
    }

    #[via_fn]
    proof fn after_all_decreases(self) {
        self.lemma_item_progress();
    }

    /// A sample that has been taken joins those seen before it.
    proof fn lemma_all_items_step(self, seen: Seq<i32>)
        ensures
            self.item() matches Some(Ok(sample)) ==> prepend(seen, self.all_items()) == prepend(
                seen.push(sample),
                self.after_item().all_items(),
            ),
    {
        if let Some(Ok(sample)) = self.item() {
            if let Ok(more) = self.after_item().all_items() {
                assert(seen + (seq![sample] + more) =~= seen.push(sample) + more);
            }
        }
    }

    /// A sample comes out of the buffer, or a block is consumed for it.
    proof fn lemma_item_progress(self)
        ensures
            self.item() matches Some(Ok(_)) ==> {
                let next = self.after_item();
                if self.pos < self.buf.len() {
                    &&& next.source == self.source
                    &&& next.buf == self.buf
                    &&& next.pos == self.pos + 1
                } else {
                    0 <= next.source.remaining() < self.source.remaining()
                }
            },
    {
        if self.source.remaining() >= 0 {
            lemma_next_block_progress(self.source);
        }
    }
}

/// Taking one sample after the other yields all of them, in order, and then
/// nothing.
pub proof fn lemma_items_in_order(m: ReaderModel, all: Seq<i32>)
    requires
        m.all_items() == Ok::<Seq<i32>, ErrorModel>(all),
    ensures
        forall|k: nat|
            k < all.len() ==> (#[trigger] m.after_items(k)).item() == Some(
                Ok::<i32, ErrorModel>(all[k as int]),
            ),
        m.after_items(all.len()).item() is None,
    decreases all.len(),
{
    if let Some(Ok(sample)) = m.item() {
        let next = m.after_item();
        let rest = all.drop_first();
        if let Ok(more) = next.all_items() {
            assert(all == seq![sample] + more);
            assert(rest =~= more);
        }
        lemma_items_in_order(next, rest);
        assert forall|k: nat| k < all.len() implies (#[trigger] m.after_items(k)).item() == Some(
            Ok::<i32, ErrorModel>(all[k as int]),
        ) by {
            if k > 0 {
                let j = (k - 1) as nat;
                assert(next.after_items(j).item() == Some(
                    Ok::<i32, ErrorModel>(rest[j as int]),
                ));
            }
        }
    }
}

/// Two readers that differ in their sources alone, with the same bytes ahead.
pub open spec fn same_ahead(m: ReaderModel, w: ReaderModel) -> bool {
    &&& m == (ReaderModel { source: m.source, ..w })
    &&& m.source.agrees(w.source)
}

/// What comes out of a reader depends on its buffer and the bytes ahead alone.
pub proof fn lemma_all_items_agree(m: ReaderModel, w: ReaderModel)
    requires
        same_ahead(m, w),
    ensures
        m.all_items() == w.all_items(),
        same_ahead(m.after_block(), w.after_block()),
    decreases m.source.remaining(), m.buf.len() - m.pos,
{
    lemma_next_block_agrees(m.source, w.source);
    if let Some(Ok(_)) = m.item() {
        m.lemma_item_progress();
        lemma_all_items_agree(m.after_item(), w.after_item());
    }
}

/// A block without samples adds none: a reader yields the same with it ahead and
/// without it.
pub proof fn lemma_silent_block_adds_nothing(m: ReaderModel, bytes: Seq<u8>)
    requires
        is_silent_block(bytes),
        m.source.pos == 0,
    ensures
        ({
            let with = ReaderModel {
                source: Source { data: bytes + m.source.data, pos: 0 },
                ..m
            };
            &&& next_block(with.source).result == next_block(m.source).result
            &&& same_ahead(with.after_block(), m.after_block())
            &&& with.all_items() == m.all_items()
        }),
    decreases m.buf.len() - m.pos,
{
    let with = ReaderModel { source: Source { data: bytes + m.source.data, pos: 0 }, ..m };
    lemma_silent_block_dropped(bytes, m.source.data);
    assert(m.source == Source { data: m.source.data, pos: 0 });
    assert(with.item() == m.item());
    if let Some(Ok(_)) = m.item() {
        if m.pos < m.buf.len() {
            lemma_silent_block_adds_nothing(m.after_item(), bytes);
        } else {
            lemma_all_items_agree(with.after_item(), m.after_item());
        }
    }
}

/// The end is final: once there are no more samples, there never will be.
pub proof fn lemma_end_is_final(m: ReaderModel)
    requires
        m.item() is None,
    ensures
        m.after_item().item() is None,
        m.after_item().after_item() == m.after_item(),
        m.all_items() == Ok::<Seq<i32>, ErrorModel>(Seq::empty()),
{
}

/// Puts samples before those of a result.
pub open spec fn prepend(samples: Seq<i32>, rest: Result<Seq<i32>, ErrorModel>) -> Result<
    Seq<i32>,
    ErrorModel,
> {
    match rest {
        Ok(more) => Ok(samples + more),
        Err(e) => Err(e),
    }
}

/// One of `count` channels out of interleaved samples.
pub open spec fn channel_of(all: Seq<i32>, count: int, ch: int) -> Seq<i32> {
    Seq::new(((all.len() + count - 1 - ch) / count) as nat, |i: int| all[i * count + ch])
}

/// All of `count` channels out of interleaved samples.
pub open spec fn deinterleaved(all: Seq<i32>, count: int) -> Seq<Seq<i32>> {
    Seq::new(count as nat, |ch: int| channel_of(all, count, ch))
}

/// Taking the channels apart undoes interleaving them.
pub proof fn lemma_deinterleave(channels: Seq<Seq<i32>>, n: nat)
    requires
        channels.len() > 0,
        forall|c: int| 0 <= c < channels.len() ==> (#[trigger] channels[c]).len() == n,
    ensures
        deinterleaved(block::interleaved(channels, n), channels.len() as int) == channels,
{
    let count = channels.len() as int;
    let all = block::interleaved(channels, n);
    let out = deinterleaved(all, count);
    assert forall|c: int| 0 <= c < count implies out[c] == channels[c] by {
        assert((n * count + (count - 1 - c)) / count == n) by {
            lemma_fundamental_div_mod_converse(
                n * count + (count - 1 - c),
                count,
                n as int,
                count - 1 - c,
            );
        }
        assert(channels[c].len() == n);
        assert forall|i: int| 0 <= i < n implies #[trigger] out[c][i] == channels[c][i] by {
            block::lemma_interleaved_index(i, c, count);
            assert(0 <= i * count + c < n * count) by (nonlinear_arith)
                requires
                    0 <= i < n,
                    0 <= c < count,
            ;
        }
        assert(out[c] =~= channels[c]);
    }
    assert(out =~= channels);
}

/// One more sample goes to the channel whose turn it is.
proof fn lemma_deinterleave_push(all: Seq<i32>, count: int, sample: i32)
    requires
        1 <= count <= 2,
    ensures
        ({
            let turn = all.len() as int % count;
            deinterleaved(all.push(sample), count) == deinterleaved(all, count).update(
                turn,
                deinterleaved(all, count)[turn].push(sample),
            )
        }),
{
    let turn = all.len() as int % count;
    let now = deinterleaved(all, count);
    let then = deinterleaved(all.push(sample), count);
    if count == 1 {
        assert(then[0] =~= now[0].push(sample));
    } else {
        assert(then[turn] =~= now[turn].push(sample));
        assert(then[1 - turn] =~= now[1 - turn]);
    }
    assert(then =~= now.update(turn, now[turn].push(sample)));
}

/// Takes interleaved samples apart.
fn deinterleave(all: &Vec<i32>, count: usize) -> (channels: Vec<Vec<i32>>)
    requires
        1 <= count <= 2,
    ensures
        block::channel_seqs(channels@) == deinterleaved(all@, count as int),
{
    let mut channels: Vec<Vec<i32>> = Vec::new();
    for ch in 0..count
        invariant
            channels@.len() == ch,
            forall|c: int| 0 <= c < ch ==> (#[trigger] channels@[c])@ == Seq::<i32>::empty(),
    {
        channels.push(Vec::new());
    }
    let mut turn: usize = 0;
    let ghost none = all@.take(0);
    if count == 1 {
        assert(channel_of(none, 1, 0) =~= Seq::empty());
    } else {
        assert(channel_of(none, 2, 0) =~= Seq::empty());
        assert(channel_of(none, 2, 1) =~= Seq::empty());
    }
    assert(block::channel_seqs(channels@) =~= deinterleaved(none, count as int));
    for i in 0..all.len()
        invariant
            1 <= count <= 2,
            channels@.len() == count,
            turn == i as int % count as int,
            block::channel_seqs(channels@) == deinterleaved(all@.take(i as int), count as int),
    {
        let ghost before = block::channel_seqs(channels@);
        let sample: i32 = all[i];
        proof {
            lemma_deinterleave_push(all@.take(i as int), count as int, sample);
            assert(before[turn as int] == channels@[turn as int]@);
            assert(all@.take(i as int).push(sample) =~= all@.take(i + 1));
        }
        channels[turn].push(sample);
        assert(block::channel_seqs(channels@) =~= before.update(
            turn as int,
            before[turn as int].push(sample),
        ));
        proof {
            if count == 1 {
                assert((i + 1) % 1 == 0);
            } else {
                assert(turn == i as int % 2);
                assert((i + 1) % 2 == 1 - turn);
            }
        }
        turn = if turn + 1 == count { 0 } else { turn + 1 };
    }
    assert(all@.take(all@.len() as int) =~= all@);
    channels
}

impl WavPackReader {
    /// The next sample, decoding the next block where the buffer is empty.
    fn next_sample(&mut self) -> (item: Option<Result<i32, WavPackError>>)
        requires
            old(self).wf(),
        ensures
            final(self).wf(),
            final(self)@ == old(self)@.after_item(),
            match item {
                Some(Ok(sample)) => old(self)@.item() == Some(Ok::<i32, ErrorModel>(sample)),
                Some(Err(e)) => old(self)@.item() == Some(Err::<i32, ErrorModel>(e@)),
                None => old(self)@.item() is None,
            },
    {
        // Try to get a sample from the current buffer
        if self.output_pos < self.output_buf.len() {
            let sample: i32 = self.output_buf[self.output_pos];
            self.output_pos = self.output_pos + 1;
            return Some(Ok(sample));
        }
        if self.finished {
            return None;
        }
        // Decode next block
        match self.decode_next_block() {
            Ok(true) => {
                let sample: i32 = self.output_buf[0];
                self.output_pos = 1;
                Some(Ok(sample))
            },
            Ok(false) => None,
            Err(e) => Some(Err(e)),
        }
    }

    /// Decodes all samples from here on, by channel: the first Vec is the left
    /// channel (or the only one), the second the right. Stops at the first error.
    pub fn decode_all(&mut self) -> (r: Result<Vec<Vec<i32>>, WavPackError>)
        requires
            old(self).wf(),
        ensures
            final(self).wf(),
            final(self)@ == old(self)@.after_all(),
            match r {
                Ok(channels) => old(self)@.all_items() matches Ok(all) && block::channel_seqs(
                    channels@,
                ) == deinterleaved(all, old(self)@.info.channels as int),
                Err(e) => old(self)@.all_items() == Err::<Seq<i32>, ErrorModel>(e@),
            },
    {
        let count: usize = self.info.channels as usize;
        match self.collect_samples() {
            Ok(all) => Ok(deinterleave(&all, count)),
            Err(e) => Err(e),
        }
    }

    /// Decodes all samples from here on, interleaved. Stops at the first error.
    fn collect_samples(&mut self) -> (r: Result<Vec<i32>, WavPackError>)
        requires
            old(self).wf(),
        ensures
            final(self).wf(),
            final(self)@ == old(self)@.after_all(),
            match r {
                Ok(all) => old(self)@.all_items() == Ok::<Seq<i32>, ErrorModel>(all@),
                Err(e) => old(self)@.all_items() == Err::<Seq<i32>, ErrorModel>(e@),
            },
    {
        let ghost start = self@;
        let mut all: Vec<i32> = Vec::new();
        proof {
            if let Ok(more) = start.all_items() {
                assert(all@ + more =~= more);
            }
        }
        loop
            invariant
                self.wf(),
                start == old(self)@,
                start.all_items() == prepend(all@, self@.all_items()),
                start.after_all() == self@.after_all(),
            decreases self@.source.remaining(), self@.buf.len() - self@.pos,
        {
            proof {
                self@.lemma_item_progress();
                self@.lemma_all_items_step(all@);
            }
            match self.next_sample() {
                None => {
                    assert(all@ + Seq::<i32>::empty() =~= all@);
                    return Ok(all);
                },
                Some(Err(e)) => {
                    return Err(e);
                },
                Some(Ok(sample)) => {
                    all.push(sample);
                },
            }
        }
    }
}

impl<'a> WavPackSamples<'a> {
    /// The next sample, or an error where a block cannot be decoded; nothing at the
    /// end of the file.
    pub fn next(&mut self) -> (item: Option<Result<i32, WavPackError>>)
        requires
            old(self).reader.wf(),
        ensures
            final(self).reader.wf(),
            final(self).reader@ == old(self).reader@.after_item(),
            *final(final(self).reader) == *final(old(self).reader),
            match item {
                Some(Ok(sample)) => old(self).reader@.item() == Some(
                    Ok::<i32, ErrorModel>(sample),
                ),
                Some(Err(e)) => old(self).reader@.item() == Some(Err::<i32, ErrorModel>(e@)),
                None => old(self).reader@.item() is None,
            },
    {
        self.reader.next_sample()
    }
}

} // verus!
