//! Decoding of the DATA section's audio: blocks in the order of time, each with one chunk per
//! channel.

use vstd::prelude::*;
use vstd::slice::slice_subrange;

use crate::adpcm::{
    AdpcmState, block_decodable, block_samples, check_adpcm_block, decode_adpcm_block,
    decoded_count, lemma_samples_len, state_after,
};
use crate::error::BrstmError;
use crate::records::{AdpcmParameters, DecodedSampleData, StreamInfo};

verus! {

/// Block `b` is the last of the stream.
pub open spec fn is_final_block(info: StreamInfo, b: int) -> bool {
    b == info.block_count - 1
}

/// The number of bytes of block `b` that are decoded for each channel.
pub open spec fn chunk_size(info: StreamInfo, b: int) -> int {
    if is_final_block(info, b) {
        info.final_block_size as int
    } else {
        info.block_size as int
    }
}

/// The distance between the chunks of two neighbouring channels in block `b`.
pub open spec fn chunk_stride(info: StreamInfo, b: int) -> int {
    if is_final_block(info, b) {
        info.final_block_size_padded as int
    } else {
        info.block_size as int
    }
}

/// The number of samples that block `b` holds of each channel.
pub open spec fn chunk_sample_count(info: StreamInfo, b: int) -> int {
    if is_final_block(info, b) {
        info.final_block_samples as int
    } else {
        info.block_samples as int
    }
}

/// Where the chunk of channel `ch` in block `b` starts. Every block before it is a full one.
pub open spec fn chunk_start(data_start: int, info: StreamInfo, b: int, ch: int) -> int {
    data_start + b * (info.channel_count * info.block_size) + ch * chunk_stride(info, b)
}

/// The chunk of channel `ch` in block `b`.
pub open spec fn chunk_at(
    buf: Seq<u8>,
    data_start: int,
    info: StreamInfo,
    b: int,
    ch: int,
) -> Seq<u8> {
    let start = chunk_start(data_start, info, b, ch);
    buf.subrange(start, start + chunk_size(info, b))
}

/// The number of samples of each channel that the stream description announces.
pub open spec fn total_samples(info: StreamInfo) -> int {
    if info.block_count == 0 {
        0
    } else {
        (info.block_count - 1) * info.block_samples + info.final_block_samples
    }
}

/// The history before a channel's first sample.
pub open spec fn initial_state(params: AdpcmParameters) -> AdpcmState {
    AdpcmState { hist1: params.yn1, hist2: params.yn2 }
}

/// What the first `blocks` blocks of channel `ch` decode to. The history runs on from each block
/// to the next.
pub open spec fn channel_samples(
    buf: Seq<u8>,
    data_start: int,
    info: StreamInfo,
    params: AdpcmParameters,
    ch: int,
    blocks: nat,
) -> Seq<i16>
    decreases blocks,
{
    if blocks == 0 {
        Seq::empty()
    } else {
        let b = blocks - 1;
        let before = channel_samples(buf, data_start, info, params, ch, b as nat);
        before + block_samples(
            chunk_at(buf, data_start, info, b, ch),
            params.coefficients,
            state_after(initial_state(params), before),
            chunk_sample_count(info, b),
        )
    }
}

/// What each channel of the section decodes to.
pub open spec fn section_samples(
    buf: Seq<u8>,
    data_start: int,
    info: StreamInfo,
    params: Seq<AdpcmParameters>,
) -> Seq<Seq<i16>> {
    Seq::new(
        info.channel_count as nat,
        |ch: int|
            channel_samples(buf, data_start, info, params[ch], ch, info.block_count as nat),
    )
}

/// The chunk of channel `ch` in block `b` lies in the buffer and can be decoded.
pub open spec fn chunk_decodable(
    buf: Seq<u8>,
    data_start: int,
    info: StreamInfo,
    params: AdpcmParameters,
    b: int,
    ch: int,
) -> bool {
    &&& chunk_start(data_start, info, b, ch) + chunk_size(info, b) <= buf.len()
    &&& block_decodable(
        chunk_at(buf, data_start, info, b, ch),
        params.coefficients,
        state_after(
            initial_state(params),
            channel_samples(buf, data_start, info, params, ch, b as nat),
        ),
        chunk_sample_count(info, b),
    )
}

/// The announced samples can be counted in a `usize`, and a vector can hold them.
pub open spec fn sample_count_fits(info: StreamInfo) -> bool {
    &&& total_samples(info) <= usize::MAX
    &&& info.channel_count > 0 ==> 2 * total_samples(info) <= isize::MAX
}

/// The section can be decoded: the machine can count its samples and the offset behind its last
/// chunk, there are parameters for every channel, and every chunk can be decoded.
pub open spec fn section_decodable(
    buf: Seq<u8>,
    data_start: int,
    info: StreamInfo,
    params: Seq<AdpcmParameters>,
) -> bool {
    &&& sample_count_fits(info)
    &&& info.block_count > 0 ==> {
        &&& info.channel_count <= params.len()
        &&& chunk_start(data_start, info, info.block_count - 1, info.channel_count as int)
            <= usize::MAX
    }
    &&& forall|b: int, ch: int|
        0 <= b < info.block_count && 0 <= ch < info.channel_count ==> #[trigger] chunk_decodable(
            buf,
            data_start,
            info,
            params[ch],
            b,
            ch,
        )
}

/// Up to the final block, a channel holds no more samples than its blocks announce, and the next
/// block's samples keep it within the total.
proof fn lemma_channel_len(
    buf: Seq<u8>,
    data_start: int,
    info: StreamInfo,
    params: AdpcmParameters,
    ch: int,
    blocks: nat,
)
    requires
        blocks < info.block_count,
    ensures
        channel_samples(buf, data_start, info, params, ch, blocks).len() <= blocks
            * info.block_samples,
        channel_samples(buf, data_start, info, params, ch, blocks).len() + chunk_sample_count(
            info,
            blocks as int,
        ) <= total_samples(info),
    decreases blocks,
{
    let block_samples = info.block_samples as int;
    let last = info.block_count - 1;
    if blocks > 0 {
        let b = blocks - 1;
        lemma_channel_len(buf, data_start, info, params, ch, b as nat);
        let before = channel_samples(buf, data_start, info, params, ch, b as nat);
        let chunk = chunk_at(buf, data_start, info, b, ch);
        lemma_samples_len(
            chunk,
            params.coefficients,
            state_after(initial_state(params), before),
            decoded_count(chunk.len() as int, block_samples),
        );
        assert(b * block_samples + block_samples == blocks * block_samples) by (nonlinear_arith)
            requires
                b == blocks - 1,
        ;
    }
    if blocks < last {
        assert(blocks * block_samples + block_samples <= last * block_samples) by (nonlinear_arith)
            requires
                blocks + 1 <= last,
                0 <= block_samples,
        ;
    }
}

/// The number of samples that every channel of a section decodes to: for each block as many as it
/// announces, or as its bytes hold.
pub open spec fn section_len(info: StreamInfo) -> int {
    if info.block_count == 0 {
        0
    } else {
        (info.block_count - 1) * decoded_count(
            info.block_size as int,
            info.block_samples as int,
        ) + decoded_count(info.final_block_size as int, info.final_block_samples as int)
    }
}

/// A chunk that ends in the buffer lies in it whole.
pub proof fn lemma_chunk_inside(buf: Seq<u8>, data_start: int, info: StreamInfo, b: int, ch: int)
    requires
        0 <= data_start,
        0 <= b,
        0 <= ch,
        chunk_start(data_start, info, b, ch) + chunk_size(info, b) <= buf.len(),
    ensures
        0 <= chunk_start(data_start, info, b, ch),
        chunk_at(buf, data_start, info, b, ch).len() == chunk_size(info, b),
{
    let row = info.channel_count * info.block_size;
    let stride = chunk_stride(info, b);
    assert(row >= 0 && b * row >= 0 && ch * stride >= 0) by (nonlinear_arith)
        requires
            row == info.channel_count * info.block_size,
            info.channel_count >= 0,
            info.block_size >= 0,
            b >= 0,
            ch >= 0,
            stride >= 0,
    ;
}

/// The number of samples in the first blocks of a channel.
pub proof fn lemma_channel_exact_len(
    buf: Seq<u8>,
    data_start: int,
    info: StreamInfo,
    params: AdpcmParameters,
    ch: int,
    blocks: nat,
)
    requires
        0 <= data_start,
        0 <= ch,
        blocks <= info.block_count,
        forall|b: int|
            0 <= b < blocks ==> #[trigger] chunk_start(data_start, info, b, ch) + chunk_size(
                info,
                b,
            ) <= buf.len(),
    ensures
        channel_samples(buf, data_start, info, params, ch, blocks).len() == if blocks
            < info.block_count {
            blocks as int * decoded_count(info.block_size as int, info.block_samples as int)
        } else {
            section_len(info)
        },
    decreases blocks,
{
    let full = decoded_count(info.block_size as int, info.block_samples as int) as int;
    if blocks > 0 {
        let b = blocks - 1;
        lemma_channel_exact_len(buf, data_start, info, params, ch, b as nat);
        assert(chunk_start(data_start, info, b, ch) + chunk_size(info, b) <= buf.len());
        lemma_chunk_inside(buf, data_start, info, b, ch);
        let before = channel_samples(buf, data_start, info, params, ch, b as nat);
        let chunk = chunk_at(buf, data_start, info, b, ch);
        lemma_samples_len(
            chunk,
            params.coefficients,
            state_after(initial_state(params), before),
            decoded_count(chunk.len() as int, chunk_sample_count(info, b)),
        );
        assert(b * full + full == blocks * full) by (nonlinear_arith)
            requires
                b == blocks - 1,
        ;
    } else {
        assert(0 * full == 0);
    }
}

/// Every channel of a section decodes to the same number of samples, which its stream description
/// alone determines.
pub proof fn law_channel_length(
    buf: Seq<u8>,
    data_start: int,
    info: StreamInfo,
    params: Seq<AdpcmParameters>,
    ch: int,
)
    requires
        0 <= data_start,
        section_decodable(buf, data_start, info, params),
        0 <= ch < info.channel_count,
    ensures
        section_samples(buf, data_start, info, params)[ch].len() == section_len(info),
{
    assert forall|b: int| 0 <= b < info.block_count implies #[trigger] chunk_start(
        data_start,
        info,
        b,
        ch,
    ) + chunk_size(info, b) <= buf.len() by {
        assert(chunk_decodable(buf, data_start, info, params[ch], b, ch));
    }
    lemma_channel_exact_len(buf, data_start, info, params[ch], ch, info.block_count as nat);
}

/// The chunks of a block lie one behind the other, and a full block ends where the next starts.
proof fn lemma_chunk_steps(data_start: int, info: StreamInfo, b: int, ch: int)
    ensures
        chunk_start(data_start, info, b, ch + 1) == chunk_start(data_start, info, b, ch)
            + chunk_stride(info, b),
        !is_final_block(info, b) ==> chunk_start(data_start, info, b, info.channel_count as int)
            == chunk_start(data_start, info, b + 1, 0),
{
    let stride = chunk_stride(info, b);
    let row = info.channel_count * info.block_size;
    assert((ch + 1) * stride == ch * stride + stride) by (nonlinear_arith);
    assert((b + 1) * row == b * row + row) by (nonlinear_arith);
}

/// The end of every chunk's stride can be counted in a `usize`.
proof fn lemma_chunk_steps_fit(
    buf: Seq<u8>,
    data_start: int,
    info: StreamInfo,
    params: Seq<AdpcmParameters>,
    b: int,
    ch: int,
)
    requires
        buf.len() <= usize::MAX,
        section_decodable(buf, data_start, info, params),
        0 <= b < info.block_count,
        0 <= ch < info.channel_count,
    ensures
        chunk_start(data_start, info, b, ch + 1) <= usize::MAX,
{
    lemma_chunk_steps(data_start, info, b, ch);
    if ch + 1 < info.channel_count {
        assert(chunk_decodable(buf, data_start, info, params[ch + 1], b, ch + 1));
    } else if !is_final_block(info, b) {
        assert(chunk_decodable(buf, data_start, info, params[0], b + 1, 0));
    }
}

/// The history behind two runs of samples is that behind the second, with the first before it.
pub proof fn lemma_state_chain(state: AdpcmState, first: Seq<i16>, second: Seq<i16>)
    ensures
        state_after(state, first + second) == state_after(state_after(state, first), second),
{
    let whole = seq![state.hist2, state.hist1] + first + second;
    assert(seq![state.hist2, state.hist1] + (first + second) =~= whole);
}

/// Decodes the audio of every channel. The first audio byte stands at `data_start`.
pub fn decode_data_section(
    buf: &[u8],
    data_start: usize,
    stream_info: &StreamInfo,
    channel_params: &[AdpcmParameters],
) -> (decoded: Result<DecodedSampleData, BrstmError>)
    requires
        section_decodable(buf@, data_start as int, *stream_info, channel_params@),
    ensures
        decoded is Ok,
        decoded->Ok_0@ == section_samples(
            buf@,
            data_start as int,
            *stream_info,
            channel_params@,
        ),
        decoded->Ok_0.samples@.len() == stream_info.channel_count,
        forall|ch: int|
            0 <= ch < stream_info.channel_count ==> (#[trigger] decoded->Ok_0.samples@[ch])@
                == section_samples(buf@, data_start as int, *stream_info, channel_params@)[ch],
{
    let ghost info = *stream_info;
    let ghost params = channel_params@;
    let ghost start = data_start as int;
    let channel_count: usize = stream_info.channel_count as usize;
    let block_count: u32 = stream_info.block_count;
    let total: usize = if block_count == 0 {
        0
    } else {
        proof {
            assert((block_count - 1) * stream_info.block_samples >= 0) by (nonlinear_arith)
                requires
                    block_count >= 1,
                    stream_info.block_samples >= 0,
            ;
        }
        (block_count - 1) as usize * stream_info.block_samples as usize
            + stream_info.final_block_samples as usize
    };

    let mut decoded_samples: Vec<Vec<i16>> = Vec::new();
    while decoded_samples.len() < channel_count
        invariant
            decoded_samples@.len() <= channel_count,
            forall|c: int|
                0 <= c < decoded_samples@.len() ==> (#[trigger] decoded_samples@[c])@ == Seq::<
                    i16,
                >::empty(),
        decreases channel_count - decoded_samples.len(),
    {
        decoded_samples.push(Vec::with_capacity(total));
    }

    let mut states: Vec<AdpcmState> = Vec::new();
    while states.len() < channel_params.len()
        invariant
            params == channel_params@,
            states@.len() <= params.len(),
            forall|c: int|
                0 <= c < states@.len() ==> #[trigger] states@[c] == initial_state(params[c]),
        decreases channel_params.len() - states.len(),
    {
        let p: &AdpcmParameters = &channel_params[states.len()];
        states.push(AdpcmState { hist1: p.yn1, hist2: p.yn2 });
    }

    let mut offset: usize = data_start;
    let mut b: u32 = 0;
    while b < block_count
        invariant
            info == *stream_info,
            params == channel_params@,
            start == data_start,
            channel_count == info.channel_count,
            block_count == info.block_count,
            section_decodable(buf@, start, info, params),
            b <= block_count,
            b < block_count ==> offset == chunk_start(start, info, b as int, 0),
            decoded_samples@.len() == channel_count,
            states@.len() == params.len(),
            forall|c: int|
                0 <= c < channel_count ==> (#[trigger] decoded_samples@[c])@ == channel_samples(
                    buf@,
                    start,
                    info,
                    params[c],
                    c,
                    b as nat,
                ),
            b < block_count ==> forall|c: int|
                0 <= c < channel_count ==> #[trigger] states@[c] == state_after(
                    initial_state(params[c]),
                    channel_samples(buf@, start, info, params[c], c, b as nat),
                ),
        decreases block_count - b,
    {
        let last: bool = b == block_count - 1;
        let size: u32 = if last {
            stream_info.final_block_size
        } else {
            stream_info.block_size
        };
        let count: u32 = if last {
            stream_info.final_block_samples
        } else {
            stream_info.block_samples
        };
        let stride: u32 = if last {
            stream_info.final_block_size_padded
        } else {
            stream_info.block_size
        };

        let mut ch: usize = 0;
        while ch < channel_count
            invariant
                info == *stream_info,
                params == channel_params@,
                start == data_start,
                channel_count == info.channel_count,
                block_count == info.block_count,
                section_decodable(buf@, start, info, params),
                b < block_count,
                last == is_final_block(info, b as int),
                size == chunk_size(info, b as int),
                count == chunk_sample_count(info, b as int),
                stride == chunk_stride(info, b as int),
                ch <= channel_count,
                offset == chunk_start(start, info, b as int, ch as int),
                decoded_samples@.len() == channel_count,
                states@.len() == params.len(),
                forall|c: int|
                    0 <= c < channel_count ==> (#[trigger] decoded_samples@[c])@ == channel_samples(
                        buf@,
                        start,
                        info,
                        params[c],
                        c,
                        (if c < ch {
                            b + 1
                        } else {
                            b as int
                        }) as nat,
                    ),
                forall|c: int|
                    0 <= c < channel_count ==> #[trigger] states@[c] == state_after(
                        initial_state(params[c]),
                        channel_samples(
                            buf@,
                            start,
                            info,
                            params[c],
                            c,
                            (if c < ch {
                                b + 1
                            } else {
                                b as int
                            }) as nat,
                        ),
                    ),
            decreases channel_count - ch,
        {
            let ghost chi = ch as int;
            let ghost before = channel_samples(buf@, start, info, params[chi], chi, b as nat);
            proof {
                assert(buf.len() == buf@.len());
                assert(chunk_decodable(buf@, start, info, params[chi], b as int, chi));
                lemma_channel_len(buf@, start, info, params[chi], chi, b as nat);
                lemma_chunk_steps(start, info, b as int, chi);
                lemma_chunk_steps_fit(buf@, start, info, params, b as int, chi);
            }
            let chunk: &[u8] = slice_subrange(buf, offset, offset + size as usize);
            decode_adpcm_block(
                chunk,
                &channel_params[ch].coefficients,
                &mut states[ch],
                count as usize,
                &mut decoded_samples[ch],
            );
            offset += stride as usize;
            proof {
                let piece = block_samples(
                    chunk@,
                    params[chi].coefficients,
                    state_after(initial_state(params[chi]), before),
                    count as int,
                );
                lemma_state_chain(initial_state(params[chi]), before, piece);
            }
            ch += 1;
        }
        proof {
            lemma_chunk_steps(start, info, b as int, 0);
        }
        b += 1;
    }
    let decoded: DecodedSampleData = DecodedSampleData { samples: decoded_samples };
    assert(decoded@ =~= section_samples(buf@, start, info, params));
    Ok(decoded)
}

/// Whether the chunks of channel `ch` all lie in the buffer and can be decoded.
fn check_channel(
    buf: &[u8],
    data_start: usize,
    stream_info: &StreamInfo,
    params: &AdpcmParameters,
    ch: u8,
) -> (ok: bool)
    requires
        ch < stream_info.channel_count,
    ensures
        ok == forall|b: int|
            0 <= b < stream_info.block_count ==> #[trigger] chunk_decodable(
                buf@,
                data_start as int,
                *stream_info,
                *params,
                b,
                ch as int,
            ),
{
    let ghost info = *stream_info;
    let ghost start = data_start as int;
    let mut state: AdpcmState = AdpcmState { hist1: params.yn1, hist2: params.yn2 };
    let mut b: u32 = 0;
    while b < stream_info.block_count
        invariant
            info == *stream_info,
            start == data_start,
            ch < info.channel_count,
            b <= info.block_count,
            forall|a: int|
                0 <= a < b ==> #[trigger] chunk_decodable(buf@, start, info, *params, a, ch as int),
            state == state_after(
                initial_state(*params),
                channel_samples(buf@, start, info, *params, ch as int, b as nat),
            ),
        decreases stream_info.block_count - b,
    {
        let last: bool = b == stream_info.block_count - 1;
        let size: u32 = if last {
            stream_info.final_block_size
        } else {
            stream_info.block_size
        };
        let count: u32 = if last {
            stream_info.final_block_samples
        } else {
            stream_info.block_samples
        };
        let from: u128 = find_chunk(data_start, stream_info, b, ch);
        let ghost before = channel_samples(buf@, start, info, *params, ch as int, b as nat);
        let ghost here = chunk_decodable(buf@, start, info, *params, b as int, ch as int);
        if from + size as u128 > buf.len() as u128 {
            assert(!here);
            return false;
        }
        let chunk: &[u8] = slice_subrange(buf, from as usize, from as usize + size as usize);
        let ok: bool = check_adpcm_block(chunk, &params.coefficients, &mut state, count as usize);
        assert(ok == here);
        if !ok {
            return false;
        }
        proof {
            let piece = block_samples(
                chunk@,
                params.coefficients,
                state_after(initial_state(*params), before),
                count as int,
            );
            lemma_state_chain(initial_state(*params), before, piece);
        }
        b += 1;
    }
    true
}

/// Where the chunk of channel `ch` in block `b` starts.
fn find_chunk(data_start: usize, stream_info: &StreamInfo, b: u32, ch: u8) -> (from: u128)
    ensures
        from == chunk_start(data_start as int, *stream_info, b as int, ch as int),
        from <= 0x1000_0000_0000_0000_0000,
{
    let stride: u32 = if b as u64 + 1 == stream_info.block_count as u64 {
        stream_info.final_block_size_padded
    } else {
        stream_info.block_size
    };
    let ghost row = stream_info.channel_count * stream_info.block_size;
    proof {
        assert(0 <= row <= 0xff * 0xffff_ffff) by (nonlinear_arith)
            requires
                row == stream_info.channel_count * stream_info.block_size,
                0 <= stream_info.channel_count <= 0xff,
                0 <= stream_info.block_size <= 0xffff_ffff,
        ;
        assert(0 <= b * row <= 0xffff_ffff * (0xff * 0xffff_ffff)) by (nonlinear_arith)
            requires
                0 <= row <= 0xff * 0xffff_ffff,
                0 <= b <= 0xffff_ffff,
        ;
        assert(0 <= ch * stride <= 0xff * 0xffff_ffff) by (nonlinear_arith)
            requires
                0 <= ch <= 0xff,
                0 <= stride <= 0xffff_ffff,
        ;
    }
    data_start as u128 + b as u128 * (stream_info.channel_count as u128
        * stream_info.block_size as u128) + ch as u128 * stride as u128
}

/// Whether [`decode_data_section`] can decode the section.
pub fn check_data_section(
    buf: &[u8],
    data_start: usize,
    stream_info: &StreamInfo,
    channel_params: &[AdpcmParameters],
) -> (ok: bool)
    ensures
        ok == section_decodable(buf@, data_start as int, *stream_info, channel_params@),
{
    let ghost info = *stream_info;
    let ghost params = channel_params@;
    let ghost start = data_start as int;
    let channel_count: u8 = stream_info.channel_count;
    let block_count: u32 = stream_info.block_count;
    if block_count > 0 {
        proof {
            assert(0 <= (block_count - 1) * stream_info.block_samples <= 0xffff_ffff
                * 0xffff_ffff) by (nonlinear_arith)
                requires
                    1 <= block_count <= 0xffff_ffff,
                    0 <= stream_info.block_samples <= 0xffff_ffff,
            ;
        }
        let total: u128 = (block_count - 1) as u128 * stream_info.block_samples as u128
            + stream_info.final_block_samples as u128;
        if total > usize::MAX as u128 || (channel_count > 0 && 2 * total > isize::MAX as u128) {
            return false;
        }
        if channel_count as usize > channel_params.len() {
            return false;
        }
        let end: u128 = find_chunk(data_start, stream_info, block_count - 1, channel_count);
        if end > usize::MAX as u128 {
            return false;
        }
        let mut ch: u8 = 0;
        while ch < channel_count
            invariant
                info == *stream_info,
                params == channel_params@,
                start == data_start,
                channel_count == info.channel_count,
                channel_count <= params.len(),
                ch <= channel_count,
                forall|b: int, c: int|
                    0 <= b < info.block_count && 0 <= c < ch ==> #[trigger] chunk_decodable(
                        buf@,
                        start,
                        info,
                        params[c],
                        b,
                        c,
                    ),
            decreases channel_count - ch,
        {
            if !check_channel(buf, data_start, stream_info, &channel_params[ch as usize], ch) {
                return false;
            }
            ch += 1;
        }
    }
    true
}

} // verus!
