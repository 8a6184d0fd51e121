//! What decoded audio is made of, sample by sample and chunk by chunk.

use vstd::arithmetic::power2::pow2;
use vstd::prelude::*;

use crate::adpcm::{
    AdpcmState, block_decodable, block_samples, decoded_count, fine_sample_at, frame_header,
    frames_valid, lemma_halves, lemma_samples_len, lemma_scale, lemma_scaled, samples, saturate,
    state_after, sums_fit_at, sums_fit_below,
};
use crate::laws::lemma_samples_prefix;
use crate::records::{AdpcmParameters, StreamInfo};
use crate::section::{
    channel_samples, chunk_at, chunk_decodable, chunk_sample_count, chunk_size, chunk_start,
    initial_state, lemma_channel_exact_len, lemma_chunk_inside, section_decodable, section_len,
    section_samples, total_samples,
};

verus! {

/// A block decodes to as many samples as are asked for, or to as many as have their byte in the
/// chunk. The two samples of a pair share a byte, seven bytes follow each frame header.
pub proof fn law_sample_count(
    chunk: Seq<u8>,
    coefficients: [[i16; 2]; 8],
    state: AdpcmState,
    count: int,
)
    requires
        0 <= count,
    ensures
        ({
            let n = block_samples(chunk, coefficients, state, count).len() as int;
            &&& n <= count
            &&& n < count ==> 8 * (n / 14) + 1 + (n % 14) / 2 >= chunk.len()
            &&& n > 0 ==> 8 * ((n - 1) / 14) + 1 + ((n - 1) % 14) / 2 < chunk.len()
        }),
{
    lemma_samples_len(
        chunk,
        coefficients,
        state,
        decoded_count(chunk.len() as int, count),
    );
}

/// The history is the two samples that were decoded last. Where fewer than two were decoded, the
/// older history moves up.
pub proof fn law_history(state: AdpcmState, line: Seq<i16>)
    ensures
        line.len() == 0 ==> state_after(state, line) == state,
        line.len() >= 1 ==> state_after(state, line).hist1 == line[line.len() - 1],
        line.len() == 1 ==> state_after(state, line).hist2 == state.hist1,
        line.len() >= 2 ==> state_after(state, line).hist2 == line[line.len() - 2],
{
}

/// A sample follows from those before it.
proof fn lemma_sample(
    chunk: Seq<u8>,
    coefficients: [[i16; 2]; 8],
    state: AdpcmState,
    n: nat,
    j: int,
)
    requires
        0 <= j < n,
    ensures
        ({
            let out = samples(chunk, coefficients, state, n);
            let here = AdpcmState {
                hist1: if j >= 1 {
                    out[j - 1]
                } else {
                    state.hist1
                },
                hist2: if j >= 2 {
                    out[j - 2]
                } else if j == 1 {
                    state.hist1
                } else {
                    state.hist2
                },
            };
            &&& out.len() == n
            &&& here == state_after(state, samples(chunk, coefficients, state, j as nat))
            &&& out[j] == saturate(fine_sample_at(chunk, coefficients, here, j) / 2048)
        }),
{
    let out = samples(chunk, coefficients, state, n);
    let before = samples(chunk, coefficients, state, j as nat);
    let upto = samples(chunk, coefficients, state, (j + 1) as nat);
    lemma_samples_len(chunk, coefficients, state, n);
    lemma_samples_len(chunk, coefficients, state, j as nat);
    lemma_samples_len(chunk, coefficients, state, (j + 1) as nat);
    lemma_samples_prefix(chunk, coefficients, state, j as nat, n);
    lemma_samples_prefix(chunk, coefficients, state, (j + 1) as nat, n);
    assert(out.subrange(0, j + 1)[j] == out[j]);
    assert(upto[j] == out[j]);
    if j >= 1 {
        assert(out.subrange(0, j)[j - 1] == out[j - 1]);
    }
    if j >= 2 {
        assert(out.subrange(0, j)[j - 2] == out[j - 2]);
    }
}

/// Every sample is its half byte, signed and scaled, plus what the coefficient pair that its frame
/// names makes of the two samples before it, rounded to the nearest step and held within 16 bits.
/// The upper half of the frame's first byte is the number of the pair, its lower half the exponent
/// of the scale.
pub proof fn law_sample_value(
    chunk: Seq<u8>,
    coefficients: [[i16; 2]; 8],
    state: AdpcmState,
    count: int,
    j: int,
)
    requires
        0 <= count,
        0 <= j < block_samples(chunk, coefficients, state, count).len(),
    ensures
        ({
            let out = block_samples(chunk, coefficients, state, count);
            let header = chunk[8 * (j / 14)];
            let pair = coefficients[(header >> 4) as int];
            let byte = chunk[8 * (j / 14) + 1 + (j % 14) / 2];
            let half = if j % 2 == 0 {
                (byte >> 4) as int
            } else {
                (byte & 0xf) as int
            };
            let last = if j >= 1 {
                out[j - 1]
            } else {
                state.hist1
            };
            let before_last = if j >= 2 {
                out[j - 2]
            } else if j == 1 {
                state.hist1
            } else {
                state.hist2
            };
            let step = if half < 8 {
                half
            } else {
                half - 16
            };
            let sum = step * pow2((header & 0xf) as nat) * 2048 + 1024 + pair[0] * last + pair[1]
                * before_last;
            &&& sum >= 32768 * 2048 ==> out[j] == 32767
            &&& sum < -32768 * 2048 ==> out[j] == -32768
            &&& -32768 * 2048 <= sum < 32768 * 2048 ==> out[j] * 2048 <= sum < out[j] * 2048 + 2048
        }),
{
    let n = decoded_count(chunk.len() as int, count);
    lemma_samples_len(chunk, coefficients, state, n);
    lemma_sample(chunk, coefficients, state, n, j);
    lemma_halves(chunk[8 * (j / 14)]);
    lemma_halves(chunk[8 * (j / 14) + 1 + (j % 14) / 2]);
}

/// The sums of sample `j` of `out` stay in the 32-bit range: that of the two weighted samples
/// before it, and that with the scaled half byte and the rounding added.
pub open spec fn sums_within_32_bits(
    chunk: Seq<u8>,
    coefficients: [[i16; 2]; 8],
    state: AdpcmState,
    out: Seq<i16>,
    j: int,
) -> bool {
    let header = chunk[8 * (j / 14)];
    let pair = coefficients[(header >> 4) as int];
    let byte = chunk[8 * (j / 14) + 1 + (j % 14) / 2];
    let half = if j % 2 == 0 {
        (byte >> 4) as int
    } else {
        (byte & 0xf) as int
    };
    let last = if j >= 1 {
        out[j - 1]
    } else {
        state.hist1
    };
    let before_last = if j >= 2 {
        out[j - 2]
    } else if j == 1 {
        state.hist1
    } else {
        state.hist2
    };
    let step = if half < 8 {
        half
    } else {
        half - 16
    };
    let guess = pair[0] * last + pair[1] * before_last;
    &&& guess <= 0x7fff_ffff
    &&& -0x8000_0000 <= step * pow2((header & 0xf) as nat) * 2048 + 1024 + guess <= 0x7fff_ffff
}

/// The sums of a sample, over the samples before it.
proof fn lemma_sums(
    chunk: Seq<u8>,
    coefficients: [[i16; 2]; 8],
    state: AdpcmState,
    n: nat,
    j: int,
)
    requires
        0 <= j < n,
    ensures
        sums_fit_at(chunk, coefficients, state, j) == sums_within_32_bits(
            chunk,
            coefficients,
            state,
            samples(chunk, coefficients, state, n),
            j,
        ),
{
    lemma_sample(chunk, coefficients, state, n, j);
    lemma_halves(chunk[8 * (j / 14)]);
    lemma_halves(chunk[8 * (j / 14) + 1 + (j % 14) / 2]);
}

/// A block can be decoded if and only if each frame header that is looked at is below 0x80, and so
/// names one of eight pairs, and the sums of no sample leave the 32-bit range.
pub proof fn law_decodable_blocks(
    chunk: Seq<u8>,
    coefficients: [[i16; 2]; 8],
    state: AdpcmState,
    count: int,
)
    requires
        0 <= count,
    ensures
        block_decodable(chunk, coefficients, state, count) <==> {
            let out = block_samples(chunk, coefficients, state, count);
            &&& forall|i: int|
                0 <= i < chunk.len() && i % 8 == 0 && 14 * (i / 8) < count ==> #[trigger] chunk[i]
                    < 0x80
            &&& forall|j: int|
                0 <= j < out.len() ==> #[trigger] sums_within_32_bits(
                    chunk,
                    coefficients,
                    state,
                    out,
                    j,
                )
        },
{
    let n = decoded_count(chunk.len() as int, count);
    let out = block_samples(chunk, coefficients, state, count);
    lemma_samples_len(chunk, coefficients, state, n);
    lemma_frames_by_index(chunk, count);
    if sums_fit_below(chunk, coefficients, state, n) {
        assert forall|j: int| 0 <= j < out.len() implies #[trigger] sums_within_32_bits(
            chunk,
            coefficients,
            state,
            out,
            j,
        ) by {
            lemma_sums(chunk, coefficients, state, n, j);
            assert(sums_fit_at(chunk, coefficients, state, j));
        }
    }
    if forall|j: int|
        0 <= j < out.len() ==> #[trigger] sums_within_32_bits(chunk, coefficients, state, out, j) {
        assert forall|j: int| 0 <= j < n implies #[trigger] sums_fit_at(
            chunk,
            coefficients,
            state,
            j,
        ) by {
            lemma_sums(chunk, coefficients, state, n, j);
            assert(sums_within_32_bits(chunk, coefficients, state, out, j));
        }
    }
}

/// The frame headers are every eighth byte.
proof fn lemma_frames_by_index(chunk: Seq<u8>, count: int)
    ensures
        frames_valid(chunk, count) <==> forall|i: int|
            0 <= i < chunk.len() && i % 8 == 0 && 14 * (i / 8) < count ==> #[trigger] chunk[i]
                < 0x80,
{
    if frames_valid(chunk, count) {
        assert forall|i: int|
            0 <= i < chunk.len() && i % 8 == 0 && 14 * (i / 8) < count implies #[trigger] chunk[i]
            < 0x80 by {
            assert(frame_header(chunk, i / 8) / 16 < 8);
        }
    }
    if forall|i: int|
        0 <= i < chunk.len() && i % 8 == 0 && 14 * (i / 8) < count ==> #[trigger] chunk[i] < 0x80 {
        assert forall|k: int| 0 <= k && 8 * k < chunk.len() && 14 * k < count implies
            #[trigger] frame_header(chunk, k) / 16 < 8 by {
            assert(chunk[8 * k] < 0x80);
        }
    }
}

/// Coefficients whose sizes add up to less than 0xc000 in every pair never drive a sum out of the
/// 32-bit range: with them a block can be decoded if its frame headers are below 0x80.
pub proof fn law_moderate_coefficients(
    chunk: Seq<u8>,
    coefficients: [[i16; 2]; 8],
    state: AdpcmState,
    count: int,
)
    requires
        0 <= count,
        forall|i: int|
            0 <= i < chunk.len() && i % 8 == 0 && 14 * (i / 8) < count ==> #[trigger] chunk[i]
                < 0x80,
        forall|p: int|
            0 <= p < 8 ==> {
                let pair = #[trigger] coefficients[p];
                &&& -0xc000 < pair[0] + pair[1] < 0xc000
                &&& -0xc000 < pair[0] - pair[1] < 0xc000
            },
    ensures
        block_decodable(chunk, coefficients, state, count),
{
    let out = block_samples(chunk, coefficients, state, count);
    let n = decoded_count(chunk.len() as int, count);
    lemma_samples_len(chunk, coefficients, state, n);
    law_decodable_blocks(chunk, coefficients, state, count);
    assert forall|j: int| 0 <= j < out.len() implies #[trigger] sums_within_32_bits(
        chunk,
        coefficients,
        state,
        out,
        j,
    ) by {
        let header = chunk[8 * (j / 14)];
        let byte = chunk[8 * (j / 14) + 1 + (j % 14) / 2];
        lemma_halves(header);
        lemma_halves(byte);
        lemma_scale(header % 16);
        let pair = coefficients[(header >> 4) as int];
        let half = if j % 2 == 0 {
            (byte >> 4) as int
        } else {
            (byte & 0xf) as int
        };
        lemma_scaled(half, pow2((header % 16) as nat) as int);
        let last = if j >= 1 {
            out[j - 1]
        } else {
            state.hist1
        };
        let before_last = if j >= 2 {
            out[j - 2]
        } else if j == 1 {
            state.hist1
        } else {
            state.hist2
        };
        lemma_moderate_guess(pair[0] as int, pair[1] as int, last as int, before_last as int);
    }
}

/// Two weighted samples stay well within 31 bits where the weights do not add up to much.
proof fn lemma_moderate_guess(c1: int, c2: int, x: int, y: int)
    requires
        -0xc000 < c1 + c2 < 0xc000,
        -0xc000 < c1 - c2 < 0xc000,
        -0x8000 <= x <= 0x7fff,
        -0x8000 <= y <= 0x7fff,
    ensures
        -0xbfff * 0x8000 <= c1 * x + c2 * y <= 0xbfff * 0x8000,
{
    let a1 = if c1 < 0 {
        -c1
    } else {
        c1
    };
    let a2 = if c2 < 0 {
        -c2
    } else {
        c2
    };
    assert(-a1 * 0x8000 <= c1 * x <= a1 * 0x8000) by (nonlinear_arith)
        requires
            a1 == c1 || a1 == -c1,
            a1 >= 0,
            -0x8000 <= x <= 0x7fff,
    ;
    assert(-a2 * 0x8000 <= c2 * y <= a2 * 0x8000) by (nonlinear_arith)
        requires
            a2 == c2 || a2 == -c2,
            a2 >= 0,
            -0x8000 <= y <= 0x7fff,
    ;
}

/// Coefficient pairs that no frame names do not matter: two tables that agree on the pairs that
/// are named give the same samples.
pub proof fn law_only_named_pairs_matter(
    chunk: Seq<u8>,
    coefficients: [[i16; 2]; 8],
    other: [[i16; 2]; 8],
    state: AdpcmState,
    count: int,
)
    requires
        0 <= count,
        forall|i: int|
            0 <= i < chunk.len() && i % 8 == 0 ==> coefficients[(#[trigger] chunk[i] >> 4) as int]
                == other[(chunk[i] >> 4) as int],
    ensures
        block_samples(chunk, coefficients, state, count) == block_samples(
            chunk,
            other,
            state,
            count,
        ),
{
    lemma_named_pairs(
        chunk,
        coefficients,
        other,
        state,
        decoded_count(chunk.len() as int, count),
    );
}

/// The first samples of a chunk, with two tables that agree on the pairs that are named.
proof fn lemma_named_pairs(
    chunk: Seq<u8>,
    coefficients: [[i16; 2]; 8],
    other: [[i16; 2]; 8],
    state: AdpcmState,
    n: nat,
)
    requires
        n <= decoded_count(chunk.len() as int, n as int),
        forall|i: int|
            0 <= i < chunk.len() && i % 8 == 0 ==> coefficients[(#[trigger] chunk[i] >> 4) as int]
                == other[(chunk[i] >> 4) as int],
    ensures
        samples(chunk, coefficients, state, n) == samples(chunk, other, state, n),
    decreases n,
{
    if n > 0 {
        lemma_named_pairs(chunk, coefficients, other, state, (n - 1) as nat);
        let i = 8 * ((n - 1) / 14);
        assert(0 <= i < chunk.len() && i % 8 == 0);
        lemma_halves(chunk[i]);
        assert(coefficients[(chunk[i] >> 4) as int] == other[(chunk[i] >> 4) as int]);
    }
}

/// What some of a channel's blocks decode to is a prefix of what more of them do.
proof fn lemma_channel_prefix(
    buf: Seq<u8>,
    data_start: int,
    info: StreamInfo,
    params: AdpcmParameters,
    ch: int,
    fewer: nat,
    more: nat,
)
    requires
        fewer <= more,
    ensures
        ({
            let some = channel_samples(buf, data_start, info, params, ch, fewer);
            let all = channel_samples(buf, data_start, info, params, ch, more);
            &&& some.len() <= all.len()
            &&& all.subrange(0, some.len() as int) == some
        }),
    decreases more,
{
    let some = channel_samples(buf, data_start, info, params, ch, fewer);
    let all = channel_samples(buf, data_start, info, params, ch, more);
    if fewer < more {
        lemma_channel_prefix(buf, data_start, info, params, ch, fewer, (more - 1) as nat);
        let nearly = channel_samples(buf, data_start, info, params, ch, (more - 1) as nat);
        assert(nearly.subrange(0, some.len() as int) == some);
        assert(all.subrange(0, some.len() as int) =~= nearly.subrange(0, some.len() as int));
    } else {
        assert(all.subrange(0, some.len() as int) =~= some);
    }
}

/// A section has one run of samples for each channel, and without blocks all of them are empty.
pub proof fn law_section_channels(
    buf: Seq<u8>,
    data_start: int,
    info: StreamInfo,
    params: Seq<AdpcmParameters>,
)
    ensures
        section_samples(buf, data_start, info, params).len() == info.channel_count,
        info.block_count == 0 ==> forall|ch: int|
            0 <= ch < info.channel_count ==> (#[trigger] section_samples(
                buf,
                data_start,
                info,
                params,
            )[ch]).len() == 0,
{
}

/// Where the products in a chunk's offset are the same.
proof fn lemma_chunk_offset(data_start: int, info: StreamInfo, b: int, ch: int)
    ensures
        b != info.block_count - 1 ==> chunk_start(data_start, info, b, ch) == data_start + (b
            * info.channel_count + ch) * info.block_size,
        b == info.block_count - 1 ==> chunk_start(data_start, info, b, ch) == data_start + (
        info.block_count - 1) * info.channel_count * info.block_size + ch
            * info.final_block_size_padded,
{
    let cc = info.channel_count as int;
    let bs = info.block_size as int;
    assert(b * (cc * bs) + ch * bs == (b * cc + ch) * bs) by (nonlinear_arith);
    assert(b * (cc * bs) == b * cc * bs) by (nonlinear_arith);
}

/// Each block of each channel stands at its own place in the file, and its samples at theirs among
/// the channel's. Every block but the last has `block_size` bytes of each channel in turn. In the
/// last block the channels are `final_block_size_padded` bytes apart, of which `final_block_size`
/// are decoded. Each block starts from the samples decoded before it, the first from the channel's
/// parameters.
pub proof fn law_section_block(
    buf: Seq<u8>,
    data_start: int,
    info: StreamInfo,
    params: Seq<AdpcmParameters>,
    b: int,
    ch: int,
)
    requires
        0 <= data_start,
        section_decodable(buf, data_start, info, params),
        0 <= b < info.block_count,
        0 <= ch < info.channel_count,
    ensures
        ({
            let line = section_samples(buf, data_start, info, params)[ch];
            let is_last = b == info.block_count - 1;
            let from = if is_last {
                data_start + (info.block_count - 1) * info.channel_count * info.block_size + ch
                    * info.final_block_size_padded
            } else {
                data_start + (b * info.channel_count + ch) * info.block_size
            };
            let size = if is_last {
                info.final_block_size as int
            } else {
                info.block_size as int
            };
            let count = if is_last {
                info.final_block_samples as int
            } else {
                info.block_samples as int
            };
            let held = 14 * (info.block_size as int / 8) + if info.block_size % 8 > 1 {
                2 * (info.block_size % 8 - 1)
            } else {
                0
            };
            let before = b * if info.block_samples <= held {
                info.block_samples as int
            } else {
                held
            };
            let history = AdpcmState {
                hist1: if before >= 1 {
                    line[before - 1]
                } else {
                    params[ch].yn1
                },
                hist2: if before >= 2 {
                    line[before - 2]
                } else if before == 1 {
                    params[ch].yn1
                } else {
                    params[ch].yn2
                },
            };
            let chunk = buf.subrange(from, from + size);
            let piece = block_samples(chunk, params[ch].coefficients, history, count);
            &&& 0 <= from && from + size <= buf.len()
            &&& block_decodable(chunk, params[ch].coefficients, history, count)
            &&& before + piece.len() <= line.len()
            &&& line.subrange(before, before + piece.len()) == piece
            &&& is_last ==> line.len() == before + piece.len()
        }),
{
    let p = params[ch];
    let line = section_samples(buf, data_start, info, params)[ch];
    let n = info.block_count as nat;
    assert forall|a: int| 0 <= a < n implies #[trigger] chunk_start(data_start, info, a, ch)
        + chunk_size(info, a) <= buf.len() by {
        assert(chunk_decodable(buf, data_start, info, params[ch], a, ch));
    }
    assert(chunk_decodable(buf, data_start, info, p, b, ch));
    lemma_chunk_offset(data_start, info, b, ch);
    lemma_chunk_inside(buf, data_start, info, b, ch);
    lemma_channel_exact_len(buf, data_start, info, p, ch, b as nat);
    lemma_channel_prefix(buf, data_start, info, p, ch, b as nat, n);
    lemma_channel_prefix(buf, data_start, info, p, ch, (b + 1) as nat, n);
    let done = channel_samples(buf, data_start, info, p, ch, b as nat);
    let upto = channel_samples(buf, data_start, info, p, ch, (b + 1) as nat);
    let before = done.len() as int;
    let chunk = chunk_at(buf, data_start, info, b, ch);
    let piece = block_samples(
        chunk,
        p.coefficients,
        state_after(initial_state(p), done),
        chunk_sample_count(info, b),
    );
    assert(line == channel_samples(buf, data_start, info, p, ch, n));
    assert(upto == done + piece);
    if before >= 1 {
        assert(line.subrange(0, before)[before - 1] == line[before - 1]);
    }
    if before >= 2 {
        assert(line.subrange(0, before)[before - 2] == line[before - 2]);
    }
    law_history(initial_state(p), done);
    assert(line.subrange(before, before + piece.len()) =~= line.subrange(
        0,
        upto.len() as int,
    ).subrange(before, before + piece.len()));
    assert(upto.subrange(before, before + piece.len()) =~= piece);
}

/// Where block `b` of channel `ch` starts, in bytes.
pub open spec fn block_place(data_start: int, info: StreamInfo, b: int, ch: int) -> int {
    if b == info.block_count - 1 {
        data_start + (info.block_count - 1) * info.channel_count * info.block_size + ch
            * info.final_block_size_padded
    } else {
        data_start + (b * info.channel_count + ch) * info.block_size
    }
}

/// Block `b` of channel `ch` lies in the buffer and can be decoded from the samples before it,
/// which `line` holds.
pub open spec fn block_ready(
    buf: Seq<u8>,
    data_start: int,
    info: StreamInfo,
    params: AdpcmParameters,
    line: Seq<i16>,
    b: int,
    ch: int,
) -> bool {
    let is_last = b == info.block_count - 1;
    let from = block_place(data_start, info, b, ch);
    let size = if is_last {
        info.final_block_size as int
    } else {
        info.block_size as int
    };
    let held = 14 * (info.block_size as int / 8) + if info.block_size % 8 > 1 {
        2 * (info.block_size % 8 - 1)
    } else {
        0
    };
    let before = b * if info.block_samples <= held {
        info.block_samples as int
    } else {
        held
    };
    let history = AdpcmState {
        hist1: if before >= 1 {
            line[before - 1]
        } else {
            params.yn1
        },
        hist2: if before >= 2 {
            line[before - 2]
        } else if before == 1 {
            params.yn1
        } else {
            params.yn2
        },
    };
    &&& from + size <= buf.len()
    &&& block_decodable(
        buf.subrange(from, from + size),
        params.coefficients,
        history,
        if is_last {
            info.final_block_samples as int
        } else {
            info.block_samples as int
        },
    )
}

/// A chunk can be decoded if and only if its block is ready, where all chunks lie in the buffer.
proof fn lemma_block_ready(
    buf: Seq<u8>,
    data_start: int,
    info: StreamInfo,
    params: AdpcmParameters,
    b: int,
    ch: int,
)
    requires
        0 <= data_start,
        0 <= b < info.block_count,
        0 <= ch,
        forall|a: int|
            0 <= a < info.block_count ==> #[trigger] chunk_start(data_start, info, a, ch)
                + chunk_size(info, a) <= buf.len(),
    ensures
        chunk_decodable(buf, data_start, info, params, b, ch) == block_ready(
            buf,
            data_start,
            info,
            params,
            channel_samples(buf, data_start, info, params, ch, info.block_count as nat),
            b,
            ch,
        ),
{
    let n = info.block_count as nat;
    let line = channel_samples(buf, data_start, info, params, ch, n);
    let done = channel_samples(buf, data_start, info, params, ch, b as nat);
    let before = done.len() as int;
    lemma_chunk_offset(data_start, info, b, ch);
    assert(chunk_start(data_start, info, b, ch) + chunk_size(info, b) <= buf.len());
    lemma_channel_exact_len(buf, data_start, info, params, ch, b as nat);
    lemma_channel_prefix(buf, data_start, info, params, ch, b as nat, n);
    if before >= 1 {
        assert(line.subrange(0, before)[before - 1] == line[before - 1]);
    }
    if before >= 2 {
        assert(line.subrange(0, before)[before - 2] == line[before - 2]);
    }
    law_history(initial_state(params), done);
}

/// A section can be decoded if and only if the announced samples can be counted and held, there are
/// parameters for every channel, the offset behind the last chunk can be counted, and every block
/// of every channel lies in the buffer and can be decoded.
pub proof fn law_decodable_sections(
    buf: Seq<u8>,
    data_start: int,
    info: StreamInfo,
    params: Seq<AdpcmParameters>,
)
    requires
        0 <= data_start,
    ensures
        section_decodable(buf, data_start, info, params) <==> {
            let lines = section_samples(buf, data_start, info, params);
            let announced = (info.block_count - 1) * info.block_samples + info.final_block_samples;
            &&& info.block_count > 0 ==> {
                &&& announced <= usize::MAX
                &&& info.channel_count > 0 ==> 2 * announced <= isize::MAX
                &&& info.channel_count <= params.len()
                &&& data_start + (info.block_count - 1) * info.channel_count * info.block_size
                    + info.channel_count * info.final_block_size_padded <= usize::MAX
            }
            &&& forall|b: int, ch: int|
                0 <= b < info.block_count && 0 <= ch < info.channel_count ==> #[trigger] block_ready(
                    buf,
                    data_start,
                    info,
                    params[ch],
                    lines[ch],
                    b,
                    ch,
                )
        },
{
    let n = info.block_count as nat;
    let lines = section_samples(buf, data_start, info, params);
    lemma_chunk_offset(data_start, info, info.block_count - 1, info.channel_count as int);
    if section_decodable(buf, data_start, info, params) {
        assert forall|b: int, ch: int|
            0 <= b < info.block_count && 0 <= ch < info.channel_count implies
            #[trigger] block_ready(buf, data_start, info, params[ch], lines[ch], b, ch) by {
            assert forall|a: int| 0 <= a < n implies #[trigger] chunk_start(
                data_start,
                info,
                a,
                ch,
            ) + chunk_size(info, a) <= buf.len() by {
                assert(chunk_decodable(buf, data_start, info, params[ch], a, ch));
            }
            assert(chunk_decodable(buf, data_start, info, params[ch], b, ch));
            lemma_block_ready(buf, data_start, info, params[ch], b, ch);
        }
    }
    if forall|b: int, ch: int|
        0 <= b < info.block_count && 0 <= ch < info.channel_count ==> #[trigger] block_ready(
            buf,
            data_start,
            info,
            params[ch],
            lines[ch],
            b,
            ch,
        ) {
        assert forall|b: int, ch: int|
            0 <= b < info.block_count && 0 <= ch < info.channel_count implies
            #[trigger] chunk_decodable(buf, data_start, info, params[ch], b, ch) by {
            assert forall|a: int| 0 <= a < n implies #[trigger] chunk_start(
                data_start,
                info,
                a,
                ch,
            ) + chunk_size(info, a) <= buf.len() by {
                assert(block_ready(buf, data_start, info, params[ch], lines[ch], a, ch));
                lemma_chunk_offset(data_start, info, a, ch);
            }
            assert(block_ready(buf, data_start, info, params[ch], lines[ch], b, ch));
            lemma_block_ready(buf, data_start, info, params[ch], b, ch);
        }
    }
}

/// In a section of one block, the size and the samples of full blocks do not matter: changing them
/// changes neither whether it can be decoded nor what it decodes to.
pub proof fn law_single_block(
    buf: Seq<u8>,
    data_start: int,
    info: StreamInfo,
    params: Seq<AdpcmParameters>,
    block_size: u32,
    block_samples: u32,
)
    requires
        info.block_count == 1,
    ensures
        ({
            let other = StreamInfo { block_size, block_samples, ..info };
            &&& section_samples(buf, data_start, other, params) == section_samples(
                buf,
                data_start,
                info,
                params,
            )
            &&& section_decodable(buf, data_start, other, params) == section_decodable(
                buf,
                data_start,
                info,
                params,
            )
        }),
{
    let other = StreamInfo { block_size, block_samples, ..info };
    assert forall|ch: int|
        #![trigger chunk_start(data_start, other, 0, ch)]
        chunk_start(data_start, other, 0, ch) == chunk_start(data_start, info, 0, ch) by {
        lemma_chunk_offset(data_start, info, 0, ch);
        lemma_chunk_offset(data_start, other, 0, ch);
    }
    assert forall|p: AdpcmParameters, ch: int|
        #![trigger channel_samples(buf, data_start, other, p, ch, 1)]
        channel_samples(buf, data_start, other, p, ch, 1) == channel_samples(
            buf,
            data_start,
            info,
            p,
            ch,
            1,
        ) by {
        assert(chunk_start(data_start, other, 0, ch) == chunk_start(data_start, info, 0, ch));
        assert(channel_samples(buf, data_start, other, p, ch, 0) == channel_samples(
            buf,
            data_start,
            info,
            p,
            ch,
            0,
        ));
    }
    assert(section_samples(buf, data_start, other, params) =~= section_samples(
        buf,
        data_start,
        info,
        params,
    ));
    assert forall|b: int, ch: int|
        0 <= b < 1 && 0 <= ch < info.channel_count implies #[trigger] chunk_decodable(
        buf,
        data_start,
        other,
        params[ch],
        b,
        ch,
    ) == chunk_decodable(buf, data_start, info, params[ch], b, ch) by {
        assert(chunk_start(data_start, other, 0, ch) == chunk_start(data_start, info, 0, ch));
        assert(channel_samples(buf, data_start, other, params[ch], ch, 0) == channel_samples(
            buf,
            data_start,
            info,
            params[ch],
            ch,
            0,
        ));
    }
    assert(chunk_start(data_start, other, 0, info.channel_count as int) == chunk_start(
        data_start,
        info,
        0,
        info.channel_count as int,
    ));
    if section_decodable(buf, data_start, info, params) {
        assert forall|b: int, ch: int|
            0 <= b < other.block_count && 0 <= ch < other.channel_count implies
            #[trigger] chunk_decodable(buf, data_start, other, params[ch], b, ch) by {
            assert(chunk_decodable(buf, data_start, info, params[ch], b, ch));
        }
    }
    if section_decodable(buf, data_start, other, params) {
        assert forall|b: int, ch: int|
            0 <= b < info.block_count && 0 <= ch < info.channel_count implies
            #[trigger] chunk_decodable(buf, data_start, info, params[ch], b, ch) by {
            assert(chunk_decodable(buf, data_start, other, params[ch], b, ch));
        }
    }
}

/// How many samples a channel has, and how many the stream description announces. Every block but
/// the last adds as many as it announces or, if these are fewer, as many as its bytes hold; so does
/// the last, by its own size and count.
pub proof fn law_section_length(info: StreamInfo)
    ensures
        info.block_count == 0 ==> section_len(info) == 0 && total_samples(info) == 0,
        info.block_count > 0 ==> {
            let held = 14 * (info.block_size as int / 8) + if info.block_size % 8 > 1 {
                2 * (info.block_size % 8 - 1)
            } else {
                0
            };
            let final_held = 14 * (info.final_block_size as int / 8) + if info.final_block_size % 8
                > 1 {
                2 * (info.final_block_size % 8 - 1)
            } else {
                0
            };
            &&& section_len(info) == (info.block_count - 1) * (if info.block_samples <= held {
                info.block_samples as int
            } else {
                held
            }) + if info.final_block_samples <= final_held {
                info.final_block_samples as int
            } else {
                final_held
            }
            &&& total_samples(info) == (info.block_count - 1) * info.block_samples
                + info.final_block_samples
        },
{
}

} // verus!
