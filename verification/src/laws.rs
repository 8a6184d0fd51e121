//! What holds of the decoder as a whole.

pub mod audio;
pub mod files;
pub mod format;

use vstd::arithmetic::power2::pow2;
use vstd::prelude::*;

use crate::adpcm::{
    AdpcmState, block_decodable, block_samples, capacity, decoded_count, fine_sample_at,
    frame_header, frames_valid, lemma_samples_len, nibble_at, samples, saturate, state_after,
    sums_fit_at, sums_fit_below,
};
use crate::decoder::{
    channel_in_bounds, channel_info_start, channel_parameters, channel_table_start,
    channels_complete, channels_in_bounds, data_section_start, file_decodable, file_error,
    file_in_bounds, file_samples, head_base_of, head_start, parameters_ref, parameters_start,
    stream_info_of, stream_info_start, table_channel_count,
};
use crate::parse::{
    DATA_MAGIC, FILE_MAGIC, FORMAT_ADPCM, HEADER_SIZE, HEAD_MAGIC, parsed_file_header,
    parsed_head_section, parsed_stream_info,
};
use crate::records::{
    ADPCM_PARAMETERS_SIZE, AdpcmParameters, CHANNEL_TABLE_PREFIX, DATA_REF_SIZE, DATA_SECTION_SIZE,
    FILE_HEADER_SIZE, HEAD_SECTION_SIZE, STREAM_INFO_SIZE, StreamInfo, adpcm_parameters_at,
    coefficient_pair_at, data_ref_at, data_section_at, file_header_at_start, head_section_at,
    stream_info_at,
};
use crate::section::{
    channel_samples, chunk_at, chunk_decodable, chunk_size, chunk_start, chunk_stride,
    law_channel_length, lemma_state_chain, section_decodable, section_len, section_samples,
    total_samples,
};
use crate::util::{be_i16, be_u16, be_u24, be_u32, magic_at};
use crate::wav::{interleaved, lemma_interleaved_position};

verus! {

/// A 32-bit number is its upper half followed by its lower half.
pub proof fn law_u32_is_two_u16(buf: Seq<u8>, at: int)
    ensures
        be_u32(buf, at) == be_u16(buf, at) * 0x1_0000 + be_u16(buf, at + 2),
{
}

/// A 24-bit number is a 32-bit number whose first byte is zero.
pub proof fn law_u24_is_u32_with_zero(buf: Seq<u8>, at: int)
    ensures
        be_u24(buf, at) == be_u32(seq![0u8, buf[at], buf[at + 1], buf[at + 2]], 0),
        be_u24(buf, at) < 0x100_0000,
{
}

/// A signed number has the bytes of the unsigned number that it equals modulo 2 to the 16.
pub proof fn law_i16_is_u16_modulo(buf: Seq<u8>, at: int)
    ensures
        be_i16(buf, at) as int % 0x1_0000 == be_u16(buf, at),
{
}

/// Two bytes are determined by the number that they encode.
proof fn lemma_u16_keeps_its_bytes(a: Seq<u8>, b: Seq<u8>, at: int)
    requires
        be_u16(a, at) == be_u16(b, at),
    ensures
        a[at] == b[at],
        a[at + 1] == b[at + 1],
{
}

/// Four bytes are determined by the number that they encode.
proof fn lemma_u32_keeps_its_bytes(a: Seq<u8>, b: Seq<u8>, at: int)
    requires
        be_u32(a, at) == be_u32(b, at),
    ensures
        a[at] == b[at],
        a[at + 1] == b[at + 1],
        a[at + 2] == b[at + 2],
        a[at + 3] == b[at + 3],
{
    law_u32_is_two_u16(a, at);
    law_u32_is_two_u16(b, at);
    assert(be_u16(a, at) == be_u16(b, at) && be_u16(a, at + 2) == be_u16(b, at + 2));
    lemma_u16_keeps_its_bytes(a, b, at);
    lemma_u16_keeps_its_bytes(a, b, at + 2);
}

/// The same bytes encode the same header.
proof fn lemma_same_bytes_same_header(a: Seq<u8>, b: Seq<u8>)
    requires
        forall|i: int| 0 <= i < FILE_HEADER_SIZE ==> #[trigger] a[i] == b[i],
    ensures
        file_header_at_start(a) == file_header_at_start(b),
{
}

/// The tag of a file header determines its four bytes.
proof fn lemma_magic_keeps_its_bytes(a: Seq<u8>, b: Seq<u8>)
    requires
        magic_at(a, 0) == magic_at(b, 0),
    ensures
        a[0] == b[0],
        a[1] == b[1],
        a[2] == b[2],
        a[3] == b[3],
{
    assert(magic_at(a, 0)@[0] == a[0] && magic_at(a, 0)@[1] == a[1] && magic_at(a, 0)@[2] == a[2]
        && magic_at(a, 0)@[3] == a[3]);
    assert(magic_at(b, 0)@[0] == b[0] && magic_at(b, 0)@[1] == b[1] && magic_at(b, 0)@[2] == b[2]
        && magic_at(b, 0)@[3] == b[3]);
}

/// Two file headers are the same only if they were read from the same bytes: the header keeps all
/// that its bytes say.
pub proof fn law_file_header_keeps_its_bytes(a: Seq<u8>, b: Seq<u8>)
    requires
        FILE_HEADER_SIZE <= a.len(),
        FILE_HEADER_SIZE <= b.len(),
    ensures
        file_header_at_start(a) == file_header_at_start(b) <==> a.take(FILE_HEADER_SIZE as int)
            == b.take(FILE_HEADER_SIZE as int),
{
    let n = FILE_HEADER_SIZE as int;
    if a.take(n) == b.take(n) {
        assert forall|i: int| 0 <= i < n implies #[trigger] a[i] == b[i] by {
            assert(a.take(n)[i] == b.take(n)[i]);
        }
        lemma_same_bytes_same_header(a, b);
    }
    if file_header_at_start(a) == file_header_at_start(b) {
        lemma_magic_keeps_its_bytes(a, b);
        lemma_u16_keeps_its_bytes(a, b, 4);
        lemma_u16_keeps_its_bytes(a, b, 6);
        lemma_u32_keeps_its_bytes(a, b, 8);
        lemma_u16_keeps_its_bytes(a, b, 12);
        lemma_u16_keeps_its_bytes(a, b, 14);
        lemma_u32_keeps_its_bytes(a, b, 16);
        lemma_u32_keeps_its_bytes(a, b, 20);
        lemma_u32_keeps_its_bytes(a, b, 24);
        lemma_u32_keeps_its_bytes(a, b, 28);
        lemma_u32_keeps_its_bytes(a, b, 32);
        lemma_u32_keeps_its_bytes(a, b, 36);
        assert(a.take(n) =~= b.take(n));
    }
}

/// A file is decoded exactly if its three tags and its header size are the expected ones, its audio
/// is ADPCM, both channel counts agree, and every channel has decoder parameters.
pub proof fn law_accepted_files(buf: Seq<u8>)
    ensures
        file_error(buf) is None <==> {
            &&& file_header_at_start(buf).magic_string == FILE_MAGIC
            &&& file_header_at_start(buf).header_size == HEADER_SIZE
            &&& head_section_at(buf, head_start(buf)).magic_string == HEAD_MAGIC
            &&& stream_info_of(buf).format == FORMAT_ADPCM
            &&& table_channel_count(buf) == stream_info_of(buf).channel_count
            &&& channels_complete(buf, table_channel_count(buf) as int)
            &&& data_section_at(buf, data_section_start(buf)).magic_string == DATA_MAGIC
        },
{
}

/// Asking for fewer samples gives a prefix of what asking for more gives.
pub proof fn law_fewer_samples_are_a_prefix(
    chunk: Seq<u8>,
    coefficients: [[i16; 2]; 8],
    state: AdpcmState,
    fewer: int,
    more: int,
)
    requires
        0 <= fewer <= more,
    ensures
        block_samples(chunk, coefficients, state, fewer).is_prefix_of(
            block_samples(chunk, coefficients, state, more),
        ),
{
    let len = chunk.len() as int;
    lemma_samples_prefix(
        chunk,
        coefficients,
        state,
        decoded_count(len, fewer),
        decoded_count(len, more),
    );
}

/// The samples before a sample do not depend on how many come behind.
pub proof fn lemma_samples_prefix(
    chunk: Seq<u8>,
    coefficients: [[i16; 2]; 8],
    state: AdpcmState,
    fewer: nat,
    more: nat,
)
    requires
        fewer <= more,
    ensures
        samples(chunk, coefficients, state, fewer).is_prefix_of(
            samples(chunk, coefficients, state, more),
        ),
    decreases more,
{
    lemma_samples_len(chunk, coefficients, state, fewer);
    lemma_samples_len(chunk, coefficients, state, more);
    if fewer < more {
        lemma_samples_prefix(chunk, coefficients, state, fewer, (more - 1) as nat);
        lemma_samples_len(chunk, coefficients, state, (more - 1) as nat);
    }
    assert(samples(chunk, coefficients, state, fewer) =~= samples(
        chunk,
        coefficients,
        state,
        more,
    ).take(fewer as int));
}

/// The history behind two samples or more is the last two of them, whatever came before.
pub proof fn law_history_is_the_last_two(state: AdpcmState, line: Seq<i16>)
    requires
        line.len() >= 2,
    ensures
        state_after(state, line) == (AdpcmState {
            hist1: line[line.len() - 1],
            hist2: line[line.len() - 2],
        }),
{
}

/// Sample `j` has the same half byte and frame header in two chunks.
spec fn same_at(c: Seq<u8>, d: Seq<u8>, j: int) -> bool {
    &&& nibble_at(c, j) == nibble_at(d, j)
    &&& frame_header(c, j / 14) == frame_header(d, j / 14)
}

/// Samples are the same where the frame headers and half bytes are.
proof fn lemma_same_samples(
    c: Seq<u8>,
    d: Seq<u8>,
    coefficients: [[i16; 2]; 8],
    state: AdpcmState,
    n: nat,
)
    requires
        forall|j: int| 0 <= j < n ==> #[trigger] same_at(c, d, j),
    ensures
        samples(c, coefficients, state, n) == samples(d, coefficients, state, n),
    decreases n,
{
    if n > 0 {
        lemma_same_samples(c, d, coefficients, state, (n - 1) as nat);
        assert(same_at(c, d, n - 1));
    }
}

/// In a chunk that starts with whole frames, their half bytes and headers are where they were.
proof fn lemma_positions_before(first: Seq<u8>, second: Seq<u8>, j: int)
    requires
        first.len() % 8 == 0,
        0 <= j < capacity(first.len() as int),
    ensures
        nibble_at(first + second, j) == nibble_at(first, j),
        frame_header(first + second, j / 14) == frame_header(first, j / 14),
{
    assert(0 <= 8 * (j / 14) + 1 + (j % 14) / 2 < first.len());
}

/// Behind whole frames, half bytes and headers are shifted by those frames.
proof fn lemma_positions_behind(first: Seq<u8>, second: Seq<u8>, j: int)
    requires
        first.len() % 8 == 0,
        0 <= j < capacity(second.len() as int),
    ensures
        nibble_at(first + second, capacity(first.len() as int) + j) == nibble_at(second, j),
        frame_header(first + second, (capacity(first.len() as int) + j) / 14) == frame_header(
            second,
            j / 14,
        ),
{
    let frames = first.len() as int / 8;
    let at = capacity(first.len() as int) + j;
    assert(first.len() == 8 * frames);
    assert(at == 14 * frames + j);
    assert(at / 14 == frames + j / 14);
    assert(at % 14 == j % 14);
    assert(at % 2 == j % 2);
    assert(0 <= 8 * (j / 14) + 1 + (j % 14) / 2 < second.len());
}

/// Behind a run of whole frames, the samples of a longer chunk are those of its remainder.
proof fn lemma_samples_behind(
    first: Seq<u8>,
    second: Seq<u8>,
    coefficients: [[i16; 2]; 8],
    state: AdpcmState,
    n: nat,
)
    requires
        first.len() % 8 == 0,
        n <= capacity(second.len() as int),
    ensures
        ({
            let whole = capacity(first.len() as int);
            let before = samples(first, coefficients, state, whole as nat);
            samples(first + second, coefficients, state, (whole + n) as nat) == before + samples(
                second,
                coefficients,
                state_after(state, before),
                n,
            )
        }),
    decreases n,
{
    let whole = capacity(first.len() as int);
    let both = first + second;
    let before = samples(first, coefficients, state, whole as nat);
    let middle = state_after(state, before);
    if n == 0 {
        assert forall|j: int| 0 <= j < whole implies #[trigger] same_at(both, first, j) by {
            lemma_positions_before(first, second, j);
        }
        lemma_same_samples(both, first, coefficients, state, whole as nat);
        assert(before + samples(second, coefficients, middle, 0) =~= before);
    } else {
        let m = n - 1;
        lemma_samples_behind(first, second, coefficients, state, m as nat);
        let behind = samples(second, coefficients, middle, m as nat);
        lemma_state_chain(state, before, behind);
        lemma_positions_behind(first, second, m);
        let sample = saturate(
            fine_sample_at(second, coefficients, state_after(middle, behind), m) / 2048,
        );
        assert(samples(both, coefficients, state, (whole + n) as nat) == (before + behind).push(
            sample,
        ));
        assert((before + behind).push(sample) =~= before + behind.push(sample));
    }
}

/// Each frame of two chunks names a coefficient pair if and only if each frame of the chunk that
/// they make up does.
proof fn lemma_frames_join(first: Seq<u8>, second: Seq<u8>, count: int)
    requires
        first.len() % 8 == 0,
        count >= 0,
    ensures
        frames_valid(first + second, capacity(first.len() as int) + count) <==> {
            &&& frames_valid(first, capacity(first.len() as int))
            &&& frames_valid(second, count)
        },
{
    let frames = first.len() as int / 8;
    let whole = capacity(first.len() as int);
    let both = first + second;
    assert(first.len() == 8 * frames && whole == 14 * frames);
    if frames_valid(both, whole + count) {
        assert forall|k: int| 0 <= k && 8 * k < first.len() && 14 * k < whole implies
            #[trigger] frame_header(first, k) / 16 < 8 by {
            assert(frame_header(both, k) / 16 < 8);
        }
        assert forall|k: int| 0 <= k && 8 * k < second.len() && 14 * k < count implies
            #[trigger] frame_header(second, k) / 16 < 8 by {
            assert(frame_header(both, frames + k) / 16 < 8);
        }
    }
    if frames_valid(first, whole) && frames_valid(second, count) {
        assert forall|k: int| 0 <= k && 8 * k < both.len() && 14 * k < whole + count implies
            #[trigger] frame_header(both, k) / 16 < 8 by {
            if k < frames {
                assert(frame_header(first, k) / 16 < 8);
            } else {
                assert(frame_header(second, k - frames) / 16 < 8);
            }
        }
    }
}

/// In a chunk that starts with whole frames, the sums behind their samples are what they were.
proof fn lemma_sums_before(
    first: Seq<u8>,
    second: Seq<u8>,
    coefficients: [[i16; 2]; 8],
    state: AdpcmState,
    j: int,
)
    requires
        first.len() % 8 == 0,
        0 <= j < capacity(first.len() as int),
    ensures
        sums_fit_at(first + second, coefficients, state, j) == sums_fit_at(
            first,
            coefficients,
            state,
            j,
        ),
{
    let both = first + second;
    assert forall|i: int| 0 <= i < j implies #[trigger] same_at(both, first, i) by {
        lemma_positions_before(first, second, i);
    }
    lemma_same_samples(both, first, coefficients, state, j as nat);
    lemma_positions_before(first, second, j);
}

/// Behind whole frames, the sums behind a sample are what they are in the remainder.
proof fn lemma_sums_behind(
    first: Seq<u8>,
    second: Seq<u8>,
    coefficients: [[i16; 2]; 8],
    state: AdpcmState,
    j: int,
)
    requires
        first.len() % 8 == 0,
        0 <= j < capacity(second.len() as int),
    ensures
        ({
            let whole = capacity(first.len() as int);
            let middle = state_after(state, samples(first, coefficients, state, whole as nat));
            sums_fit_at(first + second, coefficients, state, whole + j) == sums_fit_at(
                second,
                coefficients,
                middle,
                j,
            )
        }),
{
    let whole = capacity(first.len() as int);
    let before = samples(first, coefficients, state, whole as nat);
    let middle = state_after(state, before);
    lemma_samples_behind(first, second, coefficients, state, j as nat);
    lemma_state_chain(state, before, samples(second, coefficients, middle, j as nat));
    lemma_positions_behind(first, second, j);
}

/// The sums behind the samples of two chunks fit if and only if those of the chunk that they make
/// up do.
proof fn lemma_sums_join(
    first: Seq<u8>,
    second: Seq<u8>,
    coefficients: [[i16; 2]; 8],
    state: AdpcmState,
    n: nat,
)
    requires
        first.len() % 8 == 0,
        n <= capacity(second.len() as int),
    ensures
        ({
            let whole = capacity(first.len() as int) as nat;
            let middle = state_after(state, samples(first, coefficients, state, whole));
            sums_fit_below(first + second, coefficients, state, whole + n) <==> {
                &&& sums_fit_below(first, coefficients, state, whole)
                &&& sums_fit_below(second, coefficients, middle, n)
            }
        }),
{
    let whole = capacity(first.len() as int) as nat;
    let both = first + second;
    let middle = state_after(state, samples(first, coefficients, state, whole));
    if sums_fit_below(both, coefficients, state, whole + n) {
        assert forall|j: int| 0 <= j < whole implies #[trigger] sums_fit_at(
            first,
            coefficients,
            state,
            j,
        ) by {
            lemma_sums_before(first, second, coefficients, state, j);
            assert(sums_fit_at(both, coefficients, state, j));
        }
        assert forall|j: int| 0 <= j < n implies #[trigger] sums_fit_at(
            second,
            coefficients,
            middle,
            j,
        ) by {
            lemma_sums_behind(first, second, coefficients, state, j);
            assert(sums_fit_at(both, coefficients, state, whole + j));
        }
    }
    if sums_fit_below(first, coefficients, state, whole) && sums_fit_below(
        second,
        coefficients,
        middle,
        n,
    ) {
        assert forall|j: int| 0 <= j < whole + n implies #[trigger] sums_fit_at(
            both,
            coefficients,
            state,
            j,
        ) by {
            if j < whole {
                lemma_sums_before(first, second, coefficients, state, j);
                assert(sums_fit_at(first, coefficients, state, j));
            } else {
                lemma_sums_behind(first, second, coefficients, state, j - whole);
                assert(sums_fit_at(second, coefficients, middle, j - whole));
            }
        }
    }
}

/// How many samples two runs of bytes hold, the first made of whole frames.
proof fn lemma_counts_join(first: int, second: int, count: int)
    requires
        0 <= first,
        0 <= second,
        first % 8 == 0,
        0 <= count,
    ensures
        0 <= capacity(first),
        decoded_count(first, capacity(first)) == capacity(first),
        decoded_count(first + second, capacity(first) + count) == capacity(first) + decoded_count(
            second,
            count,
        ),
        decoded_count(second, count) <= capacity(second),
{
    let frames = first / 8;
    assert(first == 8 * frames);
    assert((first + second) / 8 == frames + second / 8);
    assert((first + second) % 8 == second % 8);
    assert(capacity(first + second) == capacity(first) + capacity(second));
}

/// Two blocks that are decoded one behind the other give what both decode to as one block, if the
/// first is made of whole frames of which every sample is asked for. The one block can be decoded
/// if and only if the two can.
pub proof fn law_blocks_join(
    first: Seq<u8>,
    second: Seq<u8>,
    coefficients: [[i16; 2]; 8],
    state: AdpcmState,
    count: int,
)
    requires
        first.len() % 8 == 0,
        count >= 0,
    ensures
        ({
            let whole = capacity(first.len() as int);
            let before = block_samples(first, coefficients, state, whole);
            let behind = block_samples(
                second,
                coefficients,
                state_after(state, before),
                count,
            );
            &&& block_samples(first + second, coefficients, state, whole + count) == before + behind
            &&& block_decodable(first + second, coefficients, state, whole + count) <==> {
                &&& block_decodable(first, coefficients, state, whole)
                &&& block_decodable(second, coefficients, state_after(state, before), count)
            }
            &&& state_after(state, before + behind) == state_after(
                state_after(state, before),
                behind,
            )
        }),
{
    let whole = capacity(first.len() as int);
    let before = block_samples(first, coefficients, state, whole);
    let n = decoded_count(second.len() as int, count);
    lemma_counts_join(first.len() as int, second.len() as int, count);
    assert((first + second).len() == first.len() + second.len());
    lemma_frames_join(first, second, count);
    lemma_sums_join(first, second, coefficients, state, n);
    lemma_samples_behind(first, second, coefficients, state, n);
    lemma_state_chain(
        state,
        before,
        block_samples(second, coefficients, state_after(state, before), count),
    );
}

/// Silence decodes to silence: where the history and all half bytes are zero, so are all samples,
/// whatever the coefficients and scales are.
pub proof fn law_silence(chunk: Seq<u8>, coefficients: [[i16; 2]; 8], count: int)
    requires
        count >= 0,
        forall|j: int|
            0 <= j < decoded_count(chunk.len() as int, count) ==> #[trigger] nibble_at(chunk, j)
                == 0,
    ensures
        ({
            let silent = AdpcmState { hist1: 0, hist2: 0 };
            let decoded = block_samples(chunk, coefficients, silent, count);
            &&& decoded == Seq::new(decoded_count(chunk.len() as int, count), |j: int| 0i16)
            &&& state_after(silent, decoded) == silent
        }),
{
    let n = decoded_count(chunk.len() as int, count);
    lemma_silence(chunk, coefficients, n);
}

/// The first samples of silence.
proof fn lemma_silence(chunk: Seq<u8>, coefficients: [[i16; 2]; 8], n: nat)
    requires
        forall|j: int| 0 <= j < n ==> #[trigger] nibble_at(chunk, j) == 0,
    ensures
        ({
            let silent = AdpcmState { hist1: 0, hist2: 0 };
            &&& samples(chunk, coefficients, silent, n) == Seq::new(n, |j: int| 0i16)
            &&& state_after(silent, samples(chunk, coefficients, silent, n)) == silent
        }),
    decreases n,
{
    let silent = AdpcmState { hist1: 0, hist2: 0 };
    if n > 0 {
        lemma_silence(chunk, coefficients, (n - 1) as nat);
        let header = frame_header(chunk, (n - 1) / 14) as int;
        let pair = coefficients[header / 16];
        let scale = pow2((header % 16) as nat) as int;
        assert(nibble_at(chunk, n - 1) == 0);
        assert(pair[0] * silent.hist1 == 0 && pair[1] * silent.hist2 == 0 && 0 * scale == 0)
            by (nonlinear_arith)
            requires
                silent.hist1 == 0,
                silent.hist2 == 0,
        ;
        assert(fine_sample_at(chunk, coefficients, silent, n - 1) == 1024);
    }
    assert(samples(chunk, coefficients, silent, n) =~= Seq::new(n, |j: int| 0i16));
}

/// A channel never has more samples than the stream description announces. It has as many if every
/// block is large enough for the samples that it announces.
pub proof fn law_announced_samples(info: StreamInfo)
    ensures
        section_len(info) <= total_samples(info),
        info.block_samples <= capacity(info.block_size as int) && info.final_block_samples
            <= capacity(info.final_block_size as int) ==> section_len(info) == total_samples(info),
{
    let full = decoded_count(info.block_size as int, info.block_samples as int) as int;
    let announced = info.block_samples as int;
    if info.block_count > 0 {
        let blocks = info.block_count - 1;
        assert(blocks * full <= blocks * announced) by (nonlinear_arith)
            requires
                0 <= blocks,
                full <= announced,
        ;
    }
}

/// Among interleaved samples, that of channel `ch` at moment `i` stands at `i` times the number of
/// channels plus `ch`, so that every channel can be taken out again.
pub proof fn law_interleaved_sample(channels: Seq<Seq<i16>>, i: int, ch: int)
    requires
        0 <= i < channels[0].len(),
        0 <= ch < channels.len(),
    ensures
        i * channels.len() + ch < interleaved(channels).len(),
        interleaved(channels)[i * channels.len() + ch] == channels[ch][i],
{
    let count = channels.len() as int;
    let moments = channels[0].len() as int;
    lemma_interleaved_position(count, i, ch);
    assert(0 <= i * count + ch < count * moments) by (nonlinear_arith)
        requires
            0 <= i < moments,
            0 <= ch < count,
    ;
}

/// What a channel decodes to depends on its own parameters and chunks only.
pub proof fn law_channels_are_independent(
    buf: Seq<u8>,
    other: Seq<u8>,
    data_start: int,
    info: StreamInfo,
    params: Seq<AdpcmParameters>,
    other_params: Seq<AdpcmParameters>,
    ch: int,
)
    requires
        0 <= ch < info.channel_count,
        params[ch] == other_params[ch],
        forall|b: int|
            0 <= b < info.block_count ==> #[trigger] chunk_at(buf, data_start, info, b, ch)
                == chunk_at(other, data_start, info, b, ch),
    ensures
        section_samples(buf, data_start, info, params)[ch] == section_samples(
            other,
            data_start,
            info,
            other_params,
        )[ch],
{
    lemma_same_channel(
        buf,
        other,
        data_start,
        info,
        params[ch],
        ch,
        info.block_count as nat,
    );
}

/// The same chunks decode to the same samples.
proof fn lemma_same_channel(
    buf: Seq<u8>,
    other: Seq<u8>,
    data_start: int,
    info: StreamInfo,
    params: AdpcmParameters,
    ch: int,
    blocks: nat,
)
    requires
        blocks <= info.block_count,
        forall|b: int|
            0 <= b < blocks ==> #[trigger] chunk_at(buf, data_start, info, b, ch) == chunk_at(
                other,
                data_start,
                info,
                b,
                ch,
            ),
    ensures
        channel_samples(buf, data_start, info, params, ch, blocks) == channel_samples(
            other,
            data_start,
            info,
            params,
            ch,
            blocks,
        ),
    decreases blocks,
{
    if blocks > 0 {
        let b = blocks - 1;
        assert(chunk_at(buf, data_start, info, b, ch) == chunk_at(other, data_start, info, b, ch));
        lemma_same_channel(buf, other, data_start, info, params, ch, b as nat);
    }
}

/// The audio of a file has as many samples as a channel has, times the number of channels.
pub proof fn law_audio_length(buf: Seq<u8>)
    requires
        file_decodable(buf),
        file_error(buf) is None,
    ensures
        interleaved(file_samples(buf)).len() == stream_info_of(buf).channel_count * section_len(
            stream_info_of(buf),
        ),
{
    let info = stream_info_of(buf);
    law_channel_length(
        buf,
        info.actual_data_offset as int,
        info,
        channel_parameters(buf, info.channel_count as nat),
        0,
    );
}

/// `longer` starts with the bytes of `buf`.
spec fn starts_with(longer: Seq<u8>, buf: Seq<u8>) -> bool {
    &&& buf.len() <= longer.len()
    &&& forall|i: int| 0 <= i < buf.len() ==> #[trigger] longer[i] == buf[i]
}

/// A reference is read from its bytes alone.
proof fn lemma_trailing_data_ref(longer: Seq<u8>, buf: Seq<u8>, at: int)
    requires
        starts_with(longer, buf),
        0 <= at,
        at + DATA_REF_SIZE <= buf.len(),
    ensures
        data_ref_at(longer, at) == data_ref_at(buf, at),
{
}

/// A file header is read from its bytes alone.
proof fn lemma_trailing_file_header(longer: Seq<u8>, buf: Seq<u8>)
    requires
        starts_with(longer, buf),
        FILE_HEADER_SIZE <= buf.len(),
    ensures
        file_header_at_start(longer) == file_header_at_start(buf),
{
    lemma_same_bytes_same_header(longer, buf);
}

/// A HEAD section is read from its bytes alone.
proof fn lemma_trailing_head_section(longer: Seq<u8>, buf: Seq<u8>, at: int)
    requires
        starts_with(longer, buf),
        0 <= at,
        at + HEAD_SECTION_SIZE <= buf.len(),
    ensures
        head_section_at(longer, at) == head_section_at(buf, at),
{
    lemma_trailing_data_ref(longer, buf, at + 8);
    lemma_trailing_data_ref(longer, buf, at + 16);
    lemma_trailing_data_ref(longer, buf, at + 24);
}

/// A stream description is read from its bytes alone.
proof fn lemma_trailing_stream_info(longer: Seq<u8>, buf: Seq<u8>, at: int)
    requires
        starts_with(longer, buf),
        0 <= at,
        at + STREAM_INFO_SIZE <= buf.len(),
    ensures
        stream_info_at(longer, at) == stream_info_at(buf, at),
{
}

/// A signed number is read from its bytes alone.
proof fn lemma_trailing_i16(longer: Seq<u8>, buf: Seq<u8>, at: int)
    requires
        starts_with(longer, buf),
        0 <= at,
        at + 2 <= buf.len(),
    ensures
        be_i16(longer, at) == be_i16(buf, at),
{
}

/// A pair of coefficients is read from its bytes alone.
proof fn lemma_trailing_pair(longer: Seq<u8>, buf: Seq<u8>, at: int)
    requires
        starts_with(longer, buf),
        0 <= at,
        at + 4 <= buf.len(),
    ensures
        coefficient_pair_at(longer, at) == coefficient_pair_at(buf, at),
{
    lemma_trailing_i16(longer, buf, at);
    lemma_trailing_i16(longer, buf, at + 2);
}

/// Decoder parameters are read from their bytes alone.
proof fn lemma_trailing_adpcm_parameters(longer: Seq<u8>, buf: Seq<u8>, at: int)
    requires
        starts_with(longer, buf),
        0 <= at,
        at + ADPCM_PARAMETERS_SIZE <= buf.len(),
    ensures
        adpcm_parameters_at(longer, at) == adpcm_parameters_at(buf, at),
{
    lemma_trailing_pair(longer, buf, at);
    lemma_trailing_pair(longer, buf, at + 4);
    lemma_trailing_pair(longer, buf, at + 8);
    lemma_trailing_pair(longer, buf, at + 12);
    lemma_trailing_pair(longer, buf, at + 16);
    lemma_trailing_pair(longer, buf, at + 20);
    lemma_trailing_pair(longer, buf, at + 24);
    lemma_trailing_pair(longer, buf, at + 28);
    lemma_trailing_i16(longer, buf, at + 36);
    lemma_trailing_i16(longer, buf, at + 38);
    lemma_trailing_i16(longer, buf, at + 42);
    lemma_trailing_i16(longer, buf, at + 44);
}

/// A DATA section is read from its bytes alone.
proof fn lemma_trailing_data_section(longer: Seq<u8>, buf: Seq<u8>, at: int)
    requires
        starts_with(longer, buf),
        0 <= at,
        at + DATA_SECTION_SIZE <= buf.len(),
    ensures
        data_section_at(longer, at) == data_section_at(buf, at),
{
}

/// The records up to the channel table lie in the buffer.
spec fn table_in_bounds(buf: Seq<u8>) -> bool {
    &&& FILE_HEADER_SIZE <= buf.len()
    &&& head_start(buf) + HEAD_SECTION_SIZE <= buf.len()
    &&& channel_table_start(buf) + CHANNEL_TABLE_PREFIX + DATA_REF_SIZE * table_channel_count(buf)
        <= buf.len()
}

/// The records up to the channel table are read from their bytes alone.
proof fn lemma_trailing_table(longer: Seq<u8>, buf: Seq<u8>)
    requires
        starts_with(longer, buf),
        table_in_bounds(buf),
    ensures
        file_header_at_start(longer) == file_header_at_start(buf),
        head_section_at(longer, head_start(buf)) == head_section_at(buf, head_start(buf)),
        head_start(longer) == head_start(buf),
        head_base_of(longer) == head_base_of(buf),
        stream_info_start(longer) == stream_info_start(buf),
        channel_table_start(longer) == channel_table_start(buf),
        table_channel_count(longer) == table_channel_count(buf),
        table_in_bounds(longer),
{
    lemma_trailing_file_header(longer, buf);
    lemma_trailing_head_section(longer, buf, head_start(buf));
}

/// A channel's description and decoder parameters are read from their bytes alone.
proof fn lemma_trailing_channel(longer: Seq<u8>, buf: Seq<u8>, k: int)
    requires
        starts_with(longer, buf),
        table_in_bounds(buf),
        0 <= k < table_channel_count(buf),
        channel_in_bounds(buf, k),
    ensures
        channel_in_bounds(longer, k),
        parameters_ref(longer, k) == parameters_ref(buf, k),
        parameters_ref(buf, k).val != 0 ==> adpcm_parameters_at(longer, parameters_start(longer, k))
            == adpcm_parameters_at(buf, parameters_start(buf, k)),
{
    lemma_trailing_table(longer, buf);
    lemma_trailing_data_ref(
        longer,
        buf,
        channel_table_start(buf) + CHANNEL_TABLE_PREFIX + DATA_REF_SIZE * k,
    );
    assert(channel_info_start(longer, k) == channel_info_start(buf, k));
    lemma_trailing_data_ref(longer, buf, channel_info_start(buf, k));
    if parameters_ref(buf, k).val != 0 {
        lemma_trailing_adpcm_parameters(longer, buf, parameters_start(buf, k));
    }
}

/// Bytes behind a file do not change which of its channels have decoder parameters.
proof fn lemma_trailing_channels(longer: Seq<u8>, buf: Seq<u8>, n: int)
    requires
        starts_with(longer, buf),
        table_in_bounds(buf),
        channels_in_bounds(buf),
        0 <= n <= table_channel_count(buf),
    ensures
        channels_complete(longer, n) == channels_complete(buf, n),
    decreases n,
{
    if n > 0 {
        lemma_trailing_channels(longer, buf, n - 1);
        if channels_complete(buf, n - 1) {
            assert(channel_in_bounds(buf, n - 1));
            lemma_trailing_channel(longer, buf, n - 1);
            if channels_complete(buf, n) {
                assert(parameters_ref(buf, n - 1).val != 0);
                assert forall|k: int| 0 <= k < n implies (#[trigger] parameters_ref(longer, k)).val
                    != 0 by {
                    assert(k < n - 1 || k == n - 1);
                }
            }
            if channels_complete(longer, n) {
                assert(parameters_ref(longer, n - 1).val != 0);
                assert forall|k: int| 0 <= k < n implies (#[trigger] parameters_ref(buf, k)).val
                    != 0 by {
                    assert(k < n - 1 || k == n - 1);
                }
            }
        } else {
            assert(channels_complete(buf, n) ==> channels_complete(buf, n - 1));
            assert(channels_complete(longer, n) ==> channels_complete(longer, n - 1));
        }
    }
}

/// A chunk within the buffer is made of the buffer's bytes alone.
proof fn lemma_trailing_chunk(
    longer: Seq<u8>,
    buf: Seq<u8>,
    data_start: int,
    info: StreamInfo,
    b: int,
    ch: int,
)
    requires
        starts_with(longer, buf),
        0 <= data_start,
        0 <= b,
        0 <= ch,
        chunk_start(data_start, info, b, ch) + chunk_size(info, b) <= buf.len(),
    ensures
        chunk_at(longer, data_start, info, b, ch) == chunk_at(buf, data_start, info, b, ch),
{
    let row = info.channel_count * info.block_size;
    let stride = chunk_stride(info, b);
    assert(row >= 0 && b * row >= 0 && ch * stride >= 0) by (nonlinear_arith)
        requires
            row == info.channel_count * info.block_size,
            info.channel_count >= 0,
            info.block_size >= 0,
            b >= 0,
            ch >= 0,
            stride >= 0,
    ;
    assert(chunk_at(longer, data_start, info, b, ch) =~= chunk_at(buf, data_start, info, b, ch));
}

/// Bytes behind a file do not change what its audio decodes to.
proof fn lemma_trailing_section(
    longer: Seq<u8>,
    buf: Seq<u8>,
    data_start: int,
    info: StreamInfo,
    params: Seq<AdpcmParameters>,
)
    requires
        starts_with(longer, buf),
        0 <= data_start,
        section_decodable(buf, data_start, info, params),
    ensures
        section_decodable(longer, data_start, info, params),
        section_samples(longer, data_start, info, params) == section_samples(
            buf,
            data_start,
            info,
            params,
        ),
{
    let n = info.block_count as int;
    assert forall|b: int, ch: int|
        0 <= b < n && 0 <= ch < info.channel_count implies #[trigger] chunk_at(
        longer,
        data_start,
        info,
        b,
        ch,
    ) == chunk_at(buf, data_start, info, b, ch) by {
        assert(chunk_decodable(buf, data_start, info, params[ch], b, ch));
        lemma_trailing_chunk(longer, buf, data_start, info, b, ch);
    }
    assert forall|b: int, ch: int|
        0 <= b < n && 0 <= ch < info.channel_count implies #[trigger] chunk_decodable(
        longer,
        data_start,
        info,
        params[ch],
        b,
        ch,
    ) by {
        assert(chunk_decodable(buf, data_start, info, params[ch], b, ch));
        assert(chunk_at(longer, data_start, info, b, ch) == chunk_at(
            buf,
            data_start,
            info,
            b,
            ch,
        ));
        lemma_same_channel(longer, buf, data_start, info, params[ch], ch, b as nat);
    }
    assert forall|ch: int| 0 <= ch < info.channel_count implies #[trigger] channel_samples(
        longer,
        data_start,
        info,
        params[ch],
        ch,
        n as nat,
    ) == channel_samples(buf, data_start, info, params[ch], ch, n as nat) by {
        lemma_same_channel(longer, buf, data_start, info, params[ch], ch, n as nat);
    }
    assert(section_samples(longer, data_start, info, params) =~= section_samples(
        buf,
        data_start,
        info,
        params,
    ));
}

/// Bytes behind a file do not change which of its records are looked at, nor what they say.
proof fn lemma_trailing_records(longer: Seq<u8>, buf: Seq<u8>)
    requires
        starts_with(longer, buf),
        file_in_bounds(buf),
    ensures
        file_in_bounds(longer),
        file_error(longer) == file_error(buf),
        file_error(buf) is None ==> {
            &&& stream_info_of(longer) == stream_info_of(buf)
            &&& channel_parameters(longer, table_channel_count(buf) as nat) == channel_parameters(
                buf,
                table_channel_count(buf) as nat,
            )
        },
{
    lemma_trailing_file_header(longer, buf);
    if parsed_file_header(buf) is Ok {
        lemma_trailing_head_section(longer, buf, head_start(buf));
        if parsed_head_section(buf, head_start(buf)) is Ok {
            lemma_trailing_stream_info(longer, buf, stream_info_start(buf));
            if parsed_stream_info(buf, stream_info_start(buf)) is Ok {
                lemma_trailing_table(longer, buf);
                let n = table_channel_count(buf) as int;
                if n == stream_info_of(buf).channel_count {
                    lemma_trailing_channels(longer, buf, n);
                    assert forall|k: int|
                        0 <= k < n && channels_complete(
                            longer,
                            k,
                        ) implies #[trigger] channel_in_bounds(longer, k) by {
                        lemma_trailing_channels(longer, buf, k);
                        lemma_trailing_channel(longer, buf, k);
                    }
                    if channels_complete(buf, n) {
                        lemma_trailing_data_section(longer, buf, data_section_start(buf));
                        assert forall|k: int| 0 <= k < n implies #[trigger] adpcm_parameters_at(
                            longer,
                            parameters_start(longer, k),
                        ) == adpcm_parameters_at(buf, parameters_start(buf, k)) by {
                            assert(channels_complete(buf, k));
                            assert(channel_in_bounds(buf, k));
                            lemma_trailing_channel(longer, buf, k);
                            assert(parameters_ref(buf, k).val != 0);
                        }
                        assert(channel_parameters(longer, n as nat) =~= channel_parameters(
                            buf,
                            n as nat,
                        ));
                    }
                }
            }
        }
    }
}

/// Bytes behind the end of a file change nothing: with them it is refused with the same error, or
/// decoded to the same audio.
pub proof fn law_trailing_bytes_are_ignored(buf: Seq<u8>, longer: Seq<u8>)
    requires
        buf.is_prefix_of(longer),
        file_decodable(buf),
    ensures
        file_decodable(longer),
        file_error(longer) == file_error(buf),
        file_error(buf) is None ==> {
            &&& stream_info_of(longer) == stream_info_of(buf)
            &&& file_samples(longer) == file_samples(buf)
        },
{
    assert(starts_with(longer, buf)) by {
        assert forall|i: int| 0 <= i < buf.len() implies #[trigger] longer[i] == buf[i] by {
            assert(longer.subrange(0, buf.len() as int)[i] == buf[i]);
        }
    }
    lemma_trailing_records(longer, buf);
    if file_error(buf) is None {
        let info = stream_info_of(buf);
        lemma_trailing_section(
            longer,
            buf,
            info.actual_data_offset as int,
            info,
            channel_parameters(buf, info.channel_count as nat),
        );
    }
}

} // verus!
