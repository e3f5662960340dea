//! Decoding of one block.
use crate::arith;
use crate::decorrelation;
use crate::decorrelation::DecorrPass;
use crate::entropy;
use crate::entropy::{EntropyDecoder, EntropyState};
use crate::error::{ErrorModel, WavPackError};
use crate::header;
use crate::header::{BlockHeader, MetaSubBlock, SubBlock};
use vstd::arithmetic::div_mod::*;
use vstd::arithmetic::mul::*;
use vstd::arithmetic::power2::*;
use vstd::prelude::*;
use vstd::string::*;

verus! {

/// The samples of all channels in one row: the first of each channel, then the
/// second of each, and so on.
pub open spec fn interleaved(channels: Seq<Seq<i32>>, n: nat) -> Seq<i32> {
    Seq::new(
        n * channels.len(),
        |k: int| channels[k % channels.len() as int][k / channels.len() as int],
    )
}

/// The checksum of a row of samples.
pub open spec fn crc_of(samples: Seq<i32>) -> u32
    decreases samples.len(),
{
    if samples.len() == 0 {
        0xffff_ffff
    } else {
        arith::wrap_u32(3 * crc_of(samples.drop_last()) + samples.last())
    }
}

/// The place of sample `i` of channel `ch` among interleaved samples.
pub proof fn lemma_interleaved_index(i: int, ch: int, count: int)
    requires
        0 <= i,
        0 <= ch < count,
    ensures
        (i * count + ch) / count == i,
        (i * count + ch) % count == ch,
{
    lemma_fundamental_div_mod_converse(i * count + ch, count, i, ch);
}

/// A checksum tells rows apart that differ in one sample.
proof fn lemma_crc_of_differs(a: Seq<i32>, b: Seq<i32>, k: int)
    requires
        a.len() == b.len(),
        0 <= k < a.len(),
        a[k] != b[k],
        forall|j: int| 0 <= j < a.len() && j != k ==> #[trigger] a[j] == b[j],
    ensures
        crc_of(a) != crc_of(b),
    decreases a.len(),
{
    let last = a.len() - 1;
    let x = crc_of(a.drop_last()) as int;
    let y = crc_of(b.drop_last()) as int;
    if k == last {
        assert(a.drop_last() =~= b.drop_last());
        lemma_crc_step(x, x, a.last(), b.last());
    } else {
        assert(a[last] == b[last]);
        lemma_crc_of_differs(a.drop_last(), b.drop_last(), k);
        lemma_crc_step(x, y, a.last(), b.last());
    }
}

/// One step keeps apart two checksums, or two samples.
proof fn lemma_crc_step(x: int, y: int, s: i32, t: i32)
    requires
        0 <= x <= u32::MAX,
        0 <= y <= u32::MAX,
        (x == y) != (s == t),
    ensures
        arith::wrap_u32(3 * x + s) != arith::wrap_u32(3 * y + t),
{
    let m: int = 0x1_0000_0000;
    let k = (3 * x + s) / m - (3 * y + t) / m;
    if arith::wrap_u32(3 * x + s) == arith::wrap_u32(3 * y + t) {
        assert(3 * (x - y) + (s - t) == m * k);
        if x == y {
            assert(k == 0);
        } else {
            // 2^32 is one more than a multiple of 3
            assert(-3 < k < 3);
            assert(k % 3 == 0);
        }
    }
}

/// The checksum detects every change of a single sample.
pub proof fn lemma_crc_detects_one(
    a: Seq<Seq<i32>>,
    b: Seq<Seq<i32>>,
    n: nat,
    ch: int,
    i: int,
)
    requires
        a.len() == b.len(),
        0 <= ch < a.len(),
        0 <= i < n,
        a[ch][i] != b[ch][i],
        forall|c: int, j: int|
            0 <= c < a.len() && 0 <= j < n && !(c == ch && j == i) ==> #[trigger] a[c][j]
                == b[c][j],
    ensures
        crc_of(interleaved(a, n)) != crc_of(interleaved(b, n)),
{
    let count = a.len() as int;
    let k = i * count + ch;
    lemma_interleaved_index(i, ch, count);
    assert(0 <= k < n * count) by (nonlinear_arith)
        requires
            0 <= i < n,
            0 <= ch < count,
            k == i * count + ch,
    ;
    let (x, y) = (interleaved(a, n), interleaved(b, n));
    assert forall|j: int| 0 <= j < x.len() && j != k implies #[trigger] x[j] == y[j] by {
        lemma_fundamental_div_mod(j, count);
        lemma_mod_bound(j, count);
        lemma_div_pos_is_pos(j, count);
        lemma_multiply_divide_lt(j, count, n as int);
        assert(a[j % count][j / count] == b[j % count][j / count]) by {
            if j % count == ch && j / count == i {
                lemma_mul_is_commutative(count, i);
            }
        }
    }
    lemma_crc_of_differs(x, y, k);
}

/// Compute the WavPack CRC for decoded sample data.
///
/// WavPack uses a CRC-32 variant over the decoded samples.
pub fn compute_crc(samples: &[Vec<i32>], num_samples: usize, num_channels: usize) -> (crc: u32)
    requires
        num_samples > 0 ==> decorrelation::holds(
            samples@,
            num_samples as int,
            num_channels as int,
        ),
    ensures
        crc == crc_of(
            interleaved(
                decorrelation::heads(samples@, num_samples as int, num_channels as int),
                num_samples as nat,
            ),
        ),
{
    let ghost channels = decorrelation::heads(samples@, num_samples as int, num_channels as int);
    let ghost row = interleaved(channels, num_samples as nat);
    let ghost count = num_channels as int;
    let mut crc: u32 = 0xffff_ffff;
    assert(row.take(0) =~= Seq::empty());
    for i in 0..num_samples
        invariant
            num_samples > 0 ==> decorrelation::holds(samples@, num_samples as int, count),
            count == num_channels,
            channels == decorrelation::heads(samples@, num_samples as int, count),
            row == interleaved(channels, num_samples as nat),
            0 <= i * count <= row.len(),
            crc == crc_of(row.take(i * count)),
    {
        proof {
            assert((i + 1) * count == i * count + count && (i + 1) * count <= num_samples * count)
                by (nonlinear_arith)
                requires
                    i + 1 <= num_samples,
                    count >= 0,
            ;
        }
        for ch in 0..num_channels
            invariant
                i < num_samples,
                decorrelation::holds(samples@, num_samples as int, count),
                count == num_channels,
                channels == decorrelation::heads(samples@, num_samples as int, count),
                row == interleaved(channels, num_samples as nat),
                0 <= i * count,
                (i + 1) * count == i * count + count,
                i * count + count <= row.len(),
                crc == crc_of(row.take(i * count + ch)),
        {
            let sample: u32 = arith::to_u32(samples[ch][i]);
            let triple: u32 = arith::mul_u32(crc, 3);
            proof {
                let k = i * count + ch;
                lemma_interleaved_index(i as int, ch as int, count);
                assert(row[k] == channels[ch as int][i as int]);
                assert(row.take(k + 1).drop_last() =~= row.take(k));
                let s = row[k] as int;
                arith::lemma_wrap_u32_add(3 * crc, sample as int);
                arith::lemma_wrap_congruent(
                    3 * crc + sample,
                    3 * crc + s,
                    if s < 0 {
                        1
                    } else {
                        0
                    },
                );
            }
            crc = arith::add_u32(triple, sample);
        }
    }
    assert(row.take(num_samples * count) =~= row);
    crc
}

/// What the bytes of an int32 info sub-block do to a sample: it is shifted left,
/// and the low bits are filled with zeros, with ones, or with copies of its lowest
/// bit. The first of the three counts that is not 0 says which and how far; a
/// distance counts modulo 32.
pub open spec fn extended(sample: i32, zeros: u8, ones: u8, dups: u8) -> i32 {
    if zeros > 0 {
        arith::wrap_i32(sample * pow2((zeros % 32) as nat))
    } else if ones > 0 {
        let unit = pow2((ones % 32) as nat);
        arith::wrap_i32(sample * unit + (unit - 1))
    } else if dups > 0 {
        let unit = pow2((dups % 32) as nat);
        arith::wrap_i32(
            sample * unit + if sample % 2 == 1 {
                unit - 1
            } else {
                0
            },
        )
    } else {
        sample
    }
}

/// An int32 info sub-block that changes the samples: one under four bytes is
/// ignored, and one with no count above 0 does nothing.
pub open spec fn is_extending(info: Seq<u8>) -> bool {
    info.len() >= 4 && (info[1] > 0 || info[2] > 0 || info[3] > 0)
}

/// The samples after the int32 info sub-block.
pub open spec fn extended_all(samples: Seq<i32>, info: Seq<u8>) -> Seq<i32> {
    samples.map_values(
        |s: i32|
            if is_extending(info) {
                extended(s, info[1], info[2], info[3])
            } else {
                s
            },
    )
}

/// Shifts a sample left and fills the low bits with ones.
fn shl_ones(sample: i32, n: u32) -> (r: i32)
    ensures
        r == ({
            let unit = pow2((n % 32) as nat);
            arith::wrap_i32(sample * unit + (unit - 1))
        }),
{
    let ghost unit = pow2((n % 32) as nat) as int;
    let shifted: i32 = arith::shl_i32(sample, n);
    let one: u32 = arith::shl_u32(1, n);
    proof {
        lemma2_to64();
        lemma_pow2_pos((n % 32) as nat);
        if n % 32 < 31 {
            lemma_pow2_strictly_increases((n % 32) as nat, 31);
        }
        let x = sample * unit;
        let k = (x - shifted) / 0x1_0000_0000;
        assert(x == shifted + k * 0x1_0000_0000);
        arith::lemma_wrap_congruent(x + (unit - 1), shifted + (unit - 1), k);
    }
    arith::add_i32(shifted, (one - 1) as i32)
}

/// Apply INT32_INFO sub-block transformations for extended bit depths.
///
/// The sub-block contains 4 bytes:
/// - byte 0: sent_bits (extra bits in WVX bitstream)
/// - byte 1: zeros (zero bits shifted)
/// - byte 2: ones (one bits shifted)
/// - byte 3: dups (duplicate bits shifted)
pub fn apply_int32_info(
    samples: &mut [Vec<i32>],
    data: &[u8],
    num_samples: usize,
    num_channels: usize,
)
    requires
        num_samples > 0 && is_extending(data@) ==> decorrelation::holds(
            old(samples)@,
            num_samples as int,
            num_channels as int,
        ),
    ensures
        num_samples == 0 || !is_extending(data@) ==> final(samples)@ == old(samples)@,
        num_samples > 0 && is_extending(data@) ==> decorrelation::rewritten(
            old(samples)@,
            final(samples)@,
            Seq::new(
                num_channels as nat,
                |c: int| extended_all(old(samples)@[c]@.take(num_samples as int), data@),
            ),
            num_samples as int,
        ),
{
    let ghost start = samples@;
    let ghost n = num_samples as int;
    if num_samples == 0 || data.len() < 4 || (data[1] == 0 && data[2] == 0 && data[3] == 0) {
        return;
    }
    let zeros: u32 = data[1] as u32;
    let ones: u32 = data[2] as u32;
    let dups: u32 = data[3] as u32;
    for ch in 0..num_channels
        invariant
            decorrelation::holds(start, n, num_channels as int),
            n == num_samples,
            samples@.len() == start.len(),
            is_extending(data@),
            zeros == data@[1],
            ones == data@[2],
            dups == data@[3],
            forall|c: int|
                0 <= c < start.len() ==> (#[trigger] samples@[c])@ == if c < ch {
                    extended_all(start[c]@.take(n), data@) + start[c]@.skip(n)
                } else {
                    start[c]@
                },
    {
        let ghost before = samples@;
        assert(n <= start[ch as int]@.len());
        for i in 0..num_samples
            invariant
                n == num_samples,
                ch < samples@.len(),
                n <= start[ch as int]@.len(),
                before.len() == samples@.len(),
                before[ch as int]@ == start[ch as int]@,
                is_extending(data@),
                zeros == data@[1],
                ones == data@[2],
                dups == data@[3],
                forall|c: int|
                    0 <= c < samples@.len() && c != ch ==> #[trigger] samples@[c] == before[c],
                samples@[ch as int]@.len() == start[ch as int]@.len(),
                forall|k: int|
                    0 <= k < start[ch as int]@.len() ==> #[trigger] samples@[ch as int]@[k] == if k
                        < i {
                        extended(start[ch as int]@[k], data@[1], data@[2], data@[3])
                    } else {
                        start[ch as int]@[k]
                    },
        {
            let s: i32 = samples[ch][i];
            samples[ch][i] = if zeros > 0 {
                arith::shl_i32(s, zeros)
            } else if ones > 0 {
                shl_ones(s, ones)
            } else if dups > 0 {
                if s % 2 != 0 {
                    shl_ones(s, dups)
                } else {
                    arith::shl_i32(s, dups)
                }
            } else {
                s
            };
        }
        assert(samples@[ch as int]@ =~= extended_all(start[ch as int]@.take(n), data@)
            + start[ch as int]@.skip(n));
    }
}

/// The sample rate of the first usable sample rate sub-block, or the default.
pub open spec fn custom_rate(subs: Seq<SubBlock>) -> u32
    decreases subs.len(),
{
    if subs.len() == 0 {
        44100
    } else if subs[0].id == header::ID_SAMPLE_RATE && subs[0].data.len() >= 3 {
        (subs[0].data[0] + 0x100 * subs[0].data[1] + 0x1_0000 * subs[0].data[2]) as u32
    } else {
        custom_rate(subs.drop_first())
    }
}

/// The sample rate of a block.
pub open spec fn rate_of(flags: u32, subs: Seq<SubBlock>) -> u32 {
    match header::standard_rate(flags) {
        Some(rate) => rate,
        None => custom_rate(subs),
    }
}

/// Determine the sample rate from header flags and sub-blocks.
pub fn determine_sample_rate(hdr: &BlockHeader, sub_blocks: &[MetaSubBlock]) -> (rate: u32)
    ensures
        rate == rate_of(hdr.flags, header::sub_models(sub_blocks@)),
{
    // Check standard rate table first
    if let Some(rate) = hdr.sample_rate() {
        return rate;
    }
    // Custom rate: look for ID_SAMPLE_RATE sub-block (0x27)
    let ghost subs = header::sub_models(sub_blocks@);
    assert(subs.skip(0) =~= subs);
    for i in 0..sub_blocks.len()
        invariant
            subs == header::sub_models(sub_blocks@),
            custom_rate(subs) == custom_rate(subs.skip(i as int)),
            header::standard_rate(hdr.flags) is None,
    {
        let sb: &MetaSubBlock = &sub_blocks[i];
        assert(subs.skip(i as int)[0] == sb@);
        if sb.id == header::ID_SAMPLE_RATE && sb.data.len() >= 3 {
            // 24-bit LE sample rate
            return sb.data[0] as u32 + 0x100 * sb.data[1] as u32 + 0x1_0000 * sb.data[2] as u32;
        }
        assert(subs.skip(i as int).drop_first() =~= subs.skip(i + 1));
    }
    // Fallback
    44100
}

/// The data of the last sub-block with an ID, if there is one.
pub open spec fn last_data(subs: Seq<SubBlock>, id: u8) -> Option<Seq<u8>>
    decreases subs.len(),
{
    if subs.len() == 0 {
        None
    } else if subs.last().id == id {
        Some(subs.last().data)
    } else {
        last_data(subs.drop_last(), id)
    }
}

/// Finds the last sub-block with an ID.
fn find_last(sub_blocks: &[MetaSubBlock], id: u8) -> (r: Option<&MetaSubBlock>)
    ensures
        match r {
            Some(sb) => last_data(header::sub_models(sub_blocks@), id) == Some(sb.data@),
            None => last_data(header::sub_models(sub_blocks@), id) is None,
        },
{
    let ghost subs = header::sub_models(sub_blocks@);
    let mut i: usize = sub_blocks.len();
    assert(subs.take(subs.len() as int) =~= subs);
    while i > 0
        invariant
            i <= sub_blocks@.len(),
            subs == header::sub_models(sub_blocks@),
            last_data(subs, id) == last_data(subs.take(i as int), id),
        decreases i,
    {
        i = i - 1;
        assert(subs.take(i + 1).last() == sub_blocks@[i as int]@);
        assert(subs.take(i + 1).drop_last() =~= subs.take(i as int));
        if sub_blocks[i].id == id {
            return Some(&sub_blocks[i]);
        }
    }
    None
}

/// The block holds one channel of data: a mono block, or a stereo block whose
/// channels are equal.
pub open spec fn is_mono_data(h: BlockHeader) -> bool {
    header::flag_bit(h.flags, 2) || header::flag_bit(h.flags, 30)
}

/// The passes that the sub-blocks of a block set up.
pub open spec fn block_passes(subs: Seq<SubBlock>, is_mono: bool) -> Seq<
    decorrelation::PassModel,
> {
    let listed = match last_data(subs, header::ID_DECORR_TERMS) {
        Some(data) => decorrelation::listed_passes(data),
        None => Seq::empty(),
    };
    let weighted = match last_data(subs, header::ID_DECORR_WEIGHTS) {
        Some(data) => decorrelation::loaded_weights(listed, data, is_mono),
        None => listed,
    };
    match last_data(subs, header::ID_DECORR_SAMPLES) {
        Some(data) => decorrelation::loaded_history(weighted, data, is_mono),
        None => weighted,
    }
}

/// The medians with which a block starts.
pub open spec fn block_medians(subs: Seq<SubBlock>, count: nat) -> Seq<entropy::Medians> {
    match last_data(subs, header::ID_ENTROPY_VARS) {
        Some(data) => entropy::entropy_vars(data, count),
        None => Seq::new(count, |ch: int| entropy::Medians { m0: 0, m1: 0, m2: 0 }),
    }
}

/// The residuals of `n` frames, by channel.
pub open spec fn residual_channels(m: entropy::EntropyModel, count: nat, n: nat) -> Seq<Seq<i32>> {
    Seq::new(
        count,
        |ch: int| Seq::new(n, |i: int| m.after_frames(count, i as nat).frame(count)[ch]),
    )
}

/// Two channels out of joint stereo.
pub open spec fn unjoined(x: Seq<Seq<i32>>) -> Seq<Seq<i32>> {
    seq![
        Seq::new(x[0].len(), |i: int| decorrelation::from_joint(x[0][i], x[1][i]).0),
        Seq::new(x[0].len(), |i: int| decorrelation::from_joint(x[0][i], x[1][i]).1),
    ]
}

/// The channels of a block from its residuals, before any shift: this is what the
/// header's checksum is taken over.
pub open spec fn restored_channels(
    h: BlockHeader,
    passes: Seq<decorrelation::PassModel>,
    residuals: Seq<Seq<i32>>,
) -> Seq<Seq<i32>> {
    let mono = is_mono_data(h);
    let x = decorrelation::decode_passes(passes, residuals, mono).out;
    if !mono && header::flag_bit(h.flags, 4) {
        unjoined(x)
    } else {
        x
    }
}

/// The left shift of a block.
pub open spec fn shift_of(h: BlockHeader) -> nat {
    ((h.flags as int / 0x2000) % 32) as nat
}

/// The final samples of a block: shifted left, then extended where the block has an
/// int32 info sub-block.
pub open spec fn widened(
    h: BlockHeader,
    info: Option<Seq<u8>>,
    channels: Seq<Seq<i32>>,
) -> Seq<Seq<i32>> {
    channels.map_values(
        |x: Seq<i32>|
            {
                let shifted = x.map_values(|s: i32| arith::wrap_i32(s * pow2(shift_of(h))));
                match info {
                    Some(data) => extended_all(shifted, data),
                    None => shifted,
                }
            },
    )
}

/// The entropy decoder at the start of a block.
pub open spec fn block_entropy(
    h: BlockHeader,
    subs: Seq<SubBlock>,
    bits: Seq<u8>,
) -> entropy::EntropyModel {
    let count = decorrelation::channel_count(is_mono_data(h)) as nat;
    entropy::EntropyModel::fresh(bits, block_medians(subs, count))
}

/// The channels of a block, before any shift.
pub open spec fn plain_channels(
    h: BlockHeader,
    subs: Seq<SubBlock>,
    bits: Seq<u8>,
) -> Seq<Seq<i32>> {
    let mono = is_mono_data(h);
    let count = decorrelation::channel_count(mono) as nat;
    restored_channels(
        h,
        block_passes(subs, mono),
        residual_channels(block_entropy(h, subs, bits), count, h.block_samples as nat),
    )
}

/// What decoding a block gives. The checksum of its samples, taken before any shift,
/// must be the one in its header.
pub open spec fn block_result(h: BlockHeader, subs: Seq<SubBlock>) -> Result<
    Seq<Seq<i32>>,
    ErrorModel,
> {
    match last_data(subs, header::ID_WV_BITSTREAM) {
        None => Err(ErrorModel::BadMetadata("missing WV bitstream sub-block"@)),
        Some(bits) => {
            let plain = plain_channels(h, subs, bits);
            let crc = crc_of(interleaved(plain, h.block_samples as nat));
            if crc != h.crc {
                Err(ErrorModel::CrcMismatch { expected: h.crc, actual: crc })
            } else {
                Ok(widened(h, last_data(subs, header::ID_INT32_INFO), plain))
            }
        },
    }
}

/// The samples of a row of channels.
pub open spec fn channel_seqs(channels: Seq<Vec<i32>>) -> Seq<Seq<i32>> {
    channels.map_values(|c: Vec<i32>| c@)
}

/// Sets up the passes of a block.
fn setup_passes(sub_blocks: &[MetaSubBlock], is_mono: bool) -> (passes: Vec<DecorrPass>)
    ensures
        decorrelation::models(passes@) == block_passes(header::sub_models(sub_blocks@), is_mono),
{
    let mut passes: Vec<DecorrPass> = match find_last(sub_blocks, header::ID_DECORR_TERMS) {
        Some(terms) => decorrelation::parse_decorr_terms(&terms.data),
        None => Vec::new(),
    };
    assert(decorrelation::models(Seq::empty()) =~= Seq::empty());
    if let Some(weights) = find_last(sub_blocks, header::ID_DECORR_WEIGHTS) {
        decorrelation::parse_decorr_weights(&weights.data, &mut passes, is_mono);
    }
    if let Some(samples) = find_last(sub_blocks, header::ID_DECORR_SAMPLES) {
        decorrelation::parse_decorr_samples(&samples.data, &mut passes, is_mono);
    }
    passes
}

/// Sets up the entropy state of a block.
fn setup_entropy(sub_blocks: &[MetaSubBlock], num_channels: usize) -> (states: Vec<EntropyState>)
    requires
        num_channels <= 2,
    ensures
        entropy::medians_of(states@) == block_medians(
            header::sub_models(sub_blocks@),
            num_channels as nat,
        ),
{
    if let Some(evars) = find_last(sub_blocks, header::ID_ENTROPY_VARS) {
        return entropy::parse_entropy_vars(&evars.data, num_channels);
    }
    let mut states: Vec<EntropyState> = Vec::new();
    for ch in 0..num_channels
        invariant
            states@.len() == ch,
            forall|c: int|
                0 <= c < ch ==> (#[trigger] states@[c])@ == (entropy::Medians {
                    m0: 0,
                    m1: 0,
                    m2: 0,
                }),
    {
        states.push(EntropyState::new());
    }
    assert(entropy::medians_of(states@) =~= Seq::new(
        num_channels as nat,
        |ch: int| entropy::Medians { m0: 0, m1: 0, m2: 0 },
    ));
    states
}

/// Decodes the residuals of a block, frame by frame.
fn decode_residuals(decoder: &mut EntropyDecoder, num_channels: usize, num_samples: usize) -> (r:
    Vec<Vec<i32>>)
    requires
        old(decoder).wf(),
        num_channels <= 2,
        num_channels <= old(decoder).states@.len(),
    ensures
        channel_seqs(r@) == residual_channels(
            old(decoder)@,
            num_channels as nat,
            num_samples as nat,
        ),
{
    let ghost start = decoder@;
    let ghost count = num_channels as nat;
    let mut samples: Vec<Vec<i32>> = Vec::with_capacity(num_channels);
    for ch in 0..num_channels
        invariant
            samples@.len() == ch,
            forall|c: int| 0 <= c < ch ==> (#[trigger] samples@[c])@ == Seq::<i32>::empty(),
    {
        samples.push(Vec::with_capacity(num_samples));
    }
    for i in 0..num_samples
        invariant
            decoder.wf(),
            count == num_channels,
            num_channels <= 2,
            num_channels <= decoder.states@.len(),
            samples@.len() == num_channels,
            decoder@ == start.after_frames(count, i as nat),
            forall|c: int|
                0 <= c < num_channels ==> (#[trigger] samples@[c])@ == Seq::new(
                    i as nat,
                    |k: int| start.after_frames(count, k as nat).frame(count)[c],
                ),
    {
        let frame: Vec<i32> = decoder.decode_frame(num_channels);
        let ghost before = samples@;
        for ch in 0..num_channels
            invariant
                count == num_channels,
                frame@ == start.after_frames(count, i as nat).frame(count),
                samples@.len() == num_channels,
                before.len() == num_channels,
                forall|c: int|
                    0 <= c < num_channels ==> (#[trigger] before[c])@ == Seq::new(
                        i as nat,
                        |k: int| start.after_frames(count, k as nat).frame(count)[c],
                    ),
                forall|c: int|
                    0 <= c < num_channels ==> (#[trigger] samples@[c])@ == if c < ch {
                        before[c]@.push(frame@[c])
                    } else {
                        before[c]@
                    },
        {
            samples[ch].push(frame[ch]);
        }
        assert forall|c: int| 0 <= c < num_channels implies (#[trigger] samples@[c])@ == Seq::new(
            (i + 1) as nat,
            |k: int| start.after_frames(count, k as nat).frame(count)[c],
        ) by {
            assert(before[c]@.len() == i);
            assert(samples@[c]@ =~= Seq::new(
                (i + 1) as nat,
                |k: int| start.after_frames(count, k as nat).frame(count)[c],
            ));
        }
    }
    assert(channel_seqs(samples@) =~= residual_channels(start, count, num_samples as nat));
    samples
}

/// Shifts every sample of every channel left.
fn shift_all(samples: &mut Vec<Vec<i32>>, shift: u32)
    requires
        shift < 32,
    ensures
        channel_seqs(final(samples)@) == channel_seqs(old(samples)@).map_values(
            |x: Seq<i32>| x.map_values(|s: i32| arith::wrap_i32(s * pow2(shift as nat))),
        ),
{
    let ghost start = samples@;
    let count: usize = samples.len();
    for ch in 0..count
        invariant
            shift < 32,
            count == start.len(),
            samples@.len() == count,
            forall|c: int|
                0 <= c < count ==> (#[trigger] samples@[c])@ == if c < ch {
                    start[c]@.map_values(|s: i32| arith::wrap_i32(s * pow2(shift as nat)))
                } else {
                    start[c]@
                },
    {
        let ghost before = samples@;
        let n: usize = samples[ch].len();
        for i in 0..n
            invariant
                shift < 32,
                ch < count,
                samples@.len() == count,
                before.len() == count,
                before[ch as int]@ == start[ch as int]@,
                n == start[ch as int]@.len(),
                samples@[ch as int]@.len() == n,
                forall|c: int| 0 <= c < count && c != ch ==> #[trigger] samples@[c] == before[c],
                forall|k: int|
                    0 <= k < n ==> #[trigger] samples@[ch as int]@[k] == if k < i {
                        arith::wrap_i32(start[ch as int]@[k] * pow2(shift as nat))
                    } else {
                        start[ch as int]@[k]
                    },
        {
            let s: i32 = samples[ch][i];
            samples[ch][i] = arith::shl_i32(s, shift);
        }
        assert(samples@[ch as int]@ =~= start[ch as int]@.map_values(
            |s: i32| arith::wrap_i32(s * pow2(shift as nat)),
        ));
    }
    assert(channel_seqs(samples@) =~= channel_seqs(start).map_values(
        |x: Seq<i32>| x.map_values(|s: i32| arith::wrap_i32(s * pow2(shift as nat))),
    ));
}

/// Channels of `n` samples are their own heads.
proof fn lemma_heads_of_block(samples: Seq<Vec<i32>>, n: nat, is_mono: bool)
    requires
        decorrelation::is_block(channel_seqs(samples), n, is_mono),
    ensures
        decorrelation::holds(samples, n as int, decorrelation::channel_count(is_mono)),
        decorrelation::heads(samples, n as int, decorrelation::channel_count(is_mono))
            == channel_seqs(samples),
        forall|after: Seq<Vec<i32>>, out: Seq<Seq<i32>>|
            out.len() == samples.len() && #[trigger] decorrelation::rewritten(
                samples,
                after,
                out,
                n as int,
            ) ==> channel_seqs(after) == out,
{
    let count = decorrelation::channel_count(is_mono);
    let x = channel_seqs(samples);
    assert forall|c: int| 0 <= c < count implies (#[trigger] samples[c])@.len() == n by {
        assert(x[c].len() == n);
    }
    assert forall|c: int| 0 <= c < count implies (#[trigger] samples[c])@.take(n as int)
        == samples[c]@ by {
        assert(samples[c]@.take(n as int) =~= samples[c]@);
    }
    assert(decorrelation::heads(samples, n as int, count) =~= x);
    assert forall|after: Seq<Vec<i32>>, out: Seq<Seq<i32>>|
        out.len() == samples.len() && #[trigger] decorrelation::rewritten(
            samples,
            after,
            out,
            n as int,
        ) implies channel_seqs(after) == out by {
        assert forall|c: int| 0 <= c < count implies (#[trigger] after[c])@ == out[c] by {
            assert(samples[c]@.skip(n as int) =~= Seq::empty());
            assert(out[c] + Seq::<i32>::empty() =~= out[c]);
        }
        assert(channel_seqs(after) =~= out);
    }
}

/// Turns the residuals of a block into its samples, before any shift.
fn restore_channels(
    hdr: &BlockHeader,
    passes: &mut Vec<DecorrPass>,
    samples: &mut Vec<Vec<i32>>,
    is_mono: bool,
)
    requires
        is_mono == is_mono_data(*hdr),
        decorrelation::is_block(
            channel_seqs(old(samples)@),
            hdr.block_samples as nat,
            is_mono,
        ),
    ensures
        channel_seqs(final(samples)@) == restored_channels(
            *hdr,
            decorrelation::models(old(passes)@),
            channel_seqs(old(samples)@),
        ),
        decorrelation::is_block(
            channel_seqs(final(samples)@),
            hdr.block_samples as nat,
            is_mono,
        ),
{
    let num_samples: usize = hdr.block_samples as usize;
    let ghost n = num_samples as nat;
    let ghost x = channel_seqs(samples@);
    let ghost ps = decorrelation::models(passes@);
    let ghost y = decorrelation::decode_passes(ps, x, is_mono).out;
    proof {
        lemma_heads_of_block(samples@, n, is_mono);
        decorrelation::lemma_decode_passes_shape(ps, x, n, is_mono);
        if n == 0 {
            assert forall|c: int| 0 <= c < x.len() implies #[trigger] x[c] == y[c] by {
                assert(y[c].len() == 0);
                assert(x[c] =~= y[c]);
            }
            assert(x =~= y);
        }
    }
    // Apply decorrelation (reverse the encoding passes)
    decorrelation::apply_decorrelation(passes, samples, num_samples, is_mono);
    assert(channel_seqs(samples@) == y);
    // Apply joint stereo inverse if applicable
    if !is_mono && hdr.is_joint_stereo() {
        let ghost mid = samples@;
        assert(mid[0]@ == y[0] && mid[1]@ == y[1]);
        let (left, right) = samples.split_at_mut(1);
        decorrelation::undo_joint_stereo(&mut left[0], &mut right[0], num_samples);
        proof {
            let z = unjoined(y);
            assert(samples@.len() == 2);
            assert(samples@[0]@ =~= z[0]);
            assert(samples@[1]@ =~= z[1]);
            assert(channel_seqs(samples@) =~= z);
        }
    }
}

/// Extends the samples of a block by its int32 info sub-block.
fn extend_block(info: &[u8], samples: &mut Vec<Vec<i32>>, num_samples: usize, is_mono: bool)
    requires
        decorrelation::is_block(channel_seqs(old(samples)@), num_samples as nat, is_mono),
    ensures
        channel_seqs(final(samples)@) == channel_seqs(old(samples)@).map_values(
            |x: Seq<i32>| extended_all(x, info@),
        ),
{
    let num_channels: usize = if is_mono { 1 } else { 2 };
    let ghost before = samples@;
    let ghost x = channel_seqs(before);
    let ghost out = x.map_values(|c: Seq<i32>| extended_all(c, info@));
    let ghost n = num_samples as int;
    proof {
        lemma_heads_of_block(before, num_samples as nat, is_mono);
        assert forall|c: int| 0 <= c < x.len() implies #[trigger] before[c]@.take(n) == x[c] by {
            assert(decorrelation::heads(before, n, num_channels as int)[c] == x[c]);
        }
        assert(out =~= Seq::new(
            num_channels as nat,
            |c: int| extended_all(before[c]@.take(n), info@),
        ));
        if num_samples == 0 || !is_extending(info@) {
            assert forall|c: int| 0 <= c < x.len() implies #[trigger] out[c] == x[c] by {
                assert(x[c].len() == num_samples);
                assert(out[c] =~= x[c]);
            }
            assert(out =~= x);
        }
    }
    apply_int32_info(samples, info, num_samples, num_channels);
}

/// Brings the samples of a block to their final width.
fn widen(
    hdr: &BlockHeader,
    info: Option<&MetaSubBlock>,
    samples: &mut Vec<Vec<i32>>,
    is_mono: bool,
)
    requires
        decorrelation::is_block(
            channel_seqs(old(samples)@),
            hdr.block_samples as nat,
            is_mono,
        ),
    ensures
        channel_seqs(final(samples)@) == widened(
            *hdr,
            match info {
                Some(sb) => Some(sb.data@),
                None => None,
            },
            channel_seqs(old(samples)@),
        ),
        decorrelation::is_block(
            channel_seqs(final(samples)@),
            hdr.block_samples as nat,
            is_mono,
        ),
{
    let ghost plain = channel_seqs(samples@);
    shift_all(samples, hdr.left_shift());
    let ghost shifted = channel_seqs(samples@);
    assert forall|c: int| 0 <= c < shifted.len() implies (#[trigger] shifted[c]).len()
        == hdr.block_samples by {
        assert(plain[c].len() == hdr.block_samples);
    }
    // Handle int32 info (24-bit and extended)
    if let Some(sb) = info {
        extend_block(&sb.data, samples, hdr.block_samples as usize, is_mono);
        assert(channel_seqs(samples@) =~= widened(*hdr, Some(sb.data@), plain));
    } else {
        assert(channel_seqs(samples@) =~= widened(*hdr, None, plain));
    }
}

/// Decode a single WavPack block into sample vectors.
///
/// Returns a Vec of channels (1 for mono, 2 for stereo), each containing
/// `block_samples` decoded i32 values.
pub fn decode_block(hdr: &BlockHeader, sub_blocks: &[MetaSubBlock]) -> (r: Result<
    Vec<Vec<i32>>,
    WavPackError,
>)
    ensures
        match r {
            Ok(channels) => {
                &&& block_result(*hdr, header::sub_models(sub_blocks@)) == Ok::<
                    Seq<Seq<i32>>,
                    ErrorModel,
                >(channel_seqs(channels@))
                &&& decorrelation::is_block(
                    channel_seqs(channels@),
                    hdr.block_samples as nat,
                    is_mono_data(*hdr),
                )
            },
            Err(e) => block_result(*hdr, header::sub_models(sub_blocks@)) == Err::<
                Seq<Seq<i32>>,
                ErrorModel,
            >(e@),
        },
{
    let num_samples: usize = hdr.block_samples as usize;
    let is_mono: bool = hdr.is_mono() || hdr.is_false_stereo();
    let num_channels: usize = if is_mono { 1 } else { 2 };
    let bitstream: &MetaSubBlock = match find_last(sub_blocks, header::ID_WV_BITSTREAM) {
        Some(sb) => sb,
        None => {
            return Err(
                WavPackError::BadMetadata(String::from_str("missing WV bitstream sub-block")),
            );
        },
    };
    let mut passes: Vec<DecorrPass> = setup_passes(sub_blocks, is_mono);
    let states: Vec<EntropyState> = setup_entropy(sub_blocks, num_channels);
    assert(entropy::medians_of(states@).len() == num_channels);

    // Decode entropy (residuals), frame at a time for correct zero-run handling
    let mut decoder: EntropyDecoder = EntropyDecoder::new(&bitstream.data, states);
    assert(decoder.states@.len() == decoder@.medians.len());
    let mut samples: Vec<Vec<i32>> = decode_residuals(&mut decoder, num_channels, num_samples);
    restore_channels(hdr, &mut passes, &mut samples, is_mono);
    proof {
        lemma_heads_of_block(samples@, num_samples as nat, is_mono);
    }

    // Verify CRC (computed after decorrelation and joint stereo, before any shift)
    let crc: u32 = compute_crc(&samples, num_samples, num_channels);
    if crc != hdr.crc {
        return Err(WavPackError::CrcMismatch { expected: hdr.crc, actual: crc });
    }
    widen(hdr, find_last(sub_blocks, header::ID_INT32_INFO), &mut samples, is_mono);
    Ok(samples)
}

} // verus!
