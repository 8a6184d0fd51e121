//! Decoding of one block of 4-bit ADPCM audio.
//!
//! A block is a run of eight-byte frames, of which the last may be cut short. A frame's first byte
//! holds the number of a coefficient pair in its upper half and the exponent of a scale in its
//! lower half. Each of the seven bytes behind it holds two samples, the upper half first.

use vstd::arithmetic::power2::{lemma2_to64, pow2};
use vstd::prelude::*;

verus! {

/// The two samples that precede the next one: `hist1` the last, `hist2` the one before it.
#[derive(Debug, Clone, Copy, PartialEq, Eq)]
pub struct AdpcmState {
    pub hist1: i16,
    pub hist2: i16,
}

/// The first byte of frame `k`.
pub open spec fn frame_header(chunk: Seq<u8>, k: int) -> u8 {
    chunk[8 * k]
}

/// The half byte that holds sample `j`.
pub open spec fn nibble_at(chunk: Seq<u8>, j: int) -> int {
    let byte = chunk[8 * (j / 14) + 1 + (j % 14) / 2] as int;
    if j % 2 == 0 {
        byte / 16
    } else {
        byte % 16
    }
}

/// A half byte read as a number in two's complement.
pub open spec fn signed_nibble(nibble: int) -> int {
    if nibble >= 8 {
        nibble - 16
    } else {
        nibble
    }
}

/// The weighted sum of the two preceding samples.
pub open spec fn prediction(pair: [i16; 2], state: AdpcmState) -> int {
    pair[0] * state.hist1 + pair[1] * state.hist2
}

/// The next sample in units of 1/2048, with a half unit added so that it rounds when divided.
pub open spec fn fine_sample(nibble: int, scale: int, pair: [i16; 2], state: AdpcmState) -> int {
    signed_nibble(nibble) * scale * 2048 + 1024 + prediction(pair, state)
}

/// `x`, or the bound of the 16-bit range that it lies beyond.
pub open spec fn saturate(x: int) -> i16 {
    if x < i16::MIN {
        i16::MIN
    } else if x > i16::MAX {
        i16::MAX
    } else {
        x as i16
    }
}

/// Sample `j` of a block in units of 1/2048, given the samples before it.
pub open spec fn fine_sample_at(
    chunk: Seq<u8>,
    coefficients: [[i16; 2]; 8],
    state: AdpcmState,
    j: int,
) -> int {
    let header = frame_header(chunk, j / 14) as int;
    fine_sample(
        nibble_at(chunk, j),
        pow2((header % 16) as nat) as int,
        coefficients[header / 16],
        state,
    )
}

/// The history once `line` has followed `state`.
pub open spec fn state_after(state: AdpcmState, line: Seq<i16>) -> AdpcmState {
    let whole = seq![state.hist2, state.hist1] + line;
    AdpcmState { hist1: whole[whole.len() - 1], hist2: whole[whole.len() - 2] }
}

/// The first `n` samples of a block that is decoded from `state` on.
pub open spec fn samples(
    chunk: Seq<u8>,
    coefficients: [[i16; 2]; 8],
    state: AdpcmState,
    n: nat,
) -> Seq<i16>
    decreases n,
{
    if n == 0 {
        Seq::empty()
    } else {
        let before = samples(chunk, coefficients, state, (n - 1) as nat);
        before.push(
            saturate(
                fine_sample_at(chunk, coefficients, state_after(state, before), n - 1) / 2048,
            ),
        )
    }
}

/// The number of samples that `len` bytes hold.
pub open spec fn capacity(len: int) -> int {
    14 * (len / 8) + if len % 8 > 1 {
        2 * (len % 8 - 1)
    } else {
        0
    }
}

/// The number of samples decoded from `len` bytes when `count` are asked for.
pub open spec fn decoded_count(len: int, count: int) -> nat {
    if count <= capacity(len) {
        count as nat
    } else {
        capacity(len) as nat
    }
}

/// What a block decodes to when `count` samples are asked for.
pub open spec fn block_samples(
    chunk: Seq<u8>,
    coefficients: [[i16; 2]; 8],
    state: AdpcmState,
    count: int,
) -> Seq<i16> {
    samples(chunk, coefficients, state, decoded_count(chunk.len() as int, count))
}

/// The sums that lead to the next sample stay within 32 bits.
pub open spec fn sums_fit(nibble: int, scale: int, pair: [i16; 2], state: AdpcmState) -> bool {
    &&& prediction(pair, state) <= i32::MAX
    &&& i32::MIN <= fine_sample(nibble, scale, pair, state) <= i32::MAX
}

/// The sums that lead to sample `j` of a block stay within 32 bits.
pub open spec fn sums_fit_at(
    chunk: Seq<u8>,
    coefficients: [[i16; 2]; 8],
    state: AdpcmState,
    j: int,
) -> bool {
    let header = frame_header(chunk, j / 14) as int;
    let here = state_after(state, samples(chunk, coefficients, state, j as nat));
    sums_fit(
        nibble_at(chunk, j),
        pow2((header % 16) as nat) as int,
        coefficients[header / 16],
        here,
    )
}

/// Each frame that is looked at when `count` samples are asked for names one of the eight
/// coefficient pairs.
pub open spec fn frames_valid(chunk: Seq<u8>, count: int) -> bool {
    forall|k: int|
        0 <= k && 8 * k < chunk.len() && 14 * k < count ==> #[trigger] frame_header(chunk, k) / 16
            < 8
}

/// The sums that lead to the first `n` samples of a block stay within 32 bits.
pub open spec fn sums_fit_below(
    chunk: Seq<u8>,
    coefficients: [[i16; 2]; 8],
    state: AdpcmState,
    n: nat,
) -> bool {
    forall|j: int| 0 <= j < n ==> #[trigger] sums_fit_at(chunk, coefficients, state, j)
}

/// A block can be decoded: each frame that is looked at names one of the eight coefficient pairs,
/// and no sum outgrows 32 bits.
pub open spec fn block_decodable(
    chunk: Seq<u8>,
    coefficients: [[i16; 2]; 8],
    state: AdpcmState,
    count: int,
) -> bool {
    &&& frames_valid(chunk, count)
    &&& sums_fit_below(chunk, coefficients, state, decoded_count(chunk.len() as int, count))
}

/// There are as many samples as are asked of `samples`.
pub proof fn lemma_samples_len(
    chunk: Seq<u8>,
    coefficients: [[i16; 2]; 8],
    state: AdpcmState,
    n: nat,
)
    ensures
        samples(chunk, coefficients, state, n).len() == n,
    decreases n,
{
    if n > 0 {
        lemma_samples_len(chunk, coefficients, state, (n - 1) as nat);
    }
}

/// A power of two as a shift.
pub proof fn lemma_scale(exponent: u8)
    requires
        exponent < 16,
    ensures
        (1i32 << exponent) == pow2(exponent as nat),
        1 <= (1i32 << exponent) <= 0x8000,
{
    lemma2_to64();
    assert({
        &&& exponent == 0 ==> 1i32 << exponent == 1
        &&& exponent == 1 ==> 1i32 << exponent == 2
        &&& exponent == 2 ==> 1i32 << exponent == 4
        &&& exponent == 3 ==> 1i32 << exponent == 8
        &&& exponent == 4 ==> 1i32 << exponent == 0x10
        &&& exponent == 5 ==> 1i32 << exponent == 0x20
        &&& exponent == 6 ==> 1i32 << exponent == 0x40
        &&& exponent == 7 ==> 1i32 << exponent == 0x80
        &&& exponent == 8 ==> 1i32 << exponent == 0x100
        &&& exponent == 9 ==> 1i32 << exponent == 0x200
        &&& exponent == 10 ==> 1i32 << exponent == 0x400
        &&& exponent == 11 ==> 1i32 << exponent == 0x800
        &&& exponent == 12 ==> 1i32 << exponent == 0x1000
        &&& exponent == 13 ==> 1i32 << exponent == 0x2000
        &&& exponent == 14 ==> 1i32 << exponent == 0x4000
        &&& exponent == 15 ==> 1i32 << exponent == 0x8000
    }) by (bit_vector);
}

/// Products of two samples stay within 31 bits.
proof fn lemma_product(x: i16, y: i16)
    ensures
        -0x4000_0000 <= x * y <= 0x4000_0000,
{
    assert(-0x4000_0000 <= x * y <= 0x4000_0000) by (nonlinear_arith)
        requires
            -0x8000 <= x <= 0x7fff,
            -0x8000 <= y <= 0x7fff,
    ;
}

/// A half byte times a scale stays within 19 bits.
pub proof fn lemma_scaled(nibble: int, scale: int)
    requires
        0 <= nibble < 16,
        1 <= scale <= 0x8000,
    ensures
        -0x4_0000 <= signed_nibble(nibble) * scale < 0x4_0000,
{
    let signed = signed_nibble(nibble);
    assert(-0x4_0000 <= signed * scale < 0x4_0000) by (nonlinear_arith)
        requires
            -8 <= signed < 8,
            1 <= scale <= 0x8000,
    ;
}

/// Decodes one half byte.
fn decode_nibble(nibble: u8, scale: i32, pair: &[i16; 2], state: &AdpcmState) -> (sample: i16)
    requires
        nibble < 16,
        1 <= scale <= 0x8000,
        sums_fit(nibble as int, scale as int, *pair, *state),
    ensures
        sample == saturate(fine_sample(nibble as int, scale as int, *pair, *state) / 2048),
{
    let signed: i32 = if nibble >= 8 {
        nibble as i32 - 16
    } else {
        nibble as i32
    };
    proof {
        lemma_product(pair[0], state.hist1);
        lemma_product(pair[1], state.hist2);
        lemma_scaled(nibble as int, scale as int);
    }
    let prediction: i32 = pair[0] as i32 * state.hist1 as i32 + pair[1] as i32 * state.hist2 as i32;
    let scaled: i32 = signed * scale;
    let fine: i32 = scaled << 11;
    assert(fine == scaled * 2048) by (bit_vector)
        requires
            fine == scaled << 11u32,
            -0x4_0000 <= scaled < 0x4_0000,
    ;
    let sum: i32 = fine + 1024 + prediction;
    let raw: i32 = sum >> 11;
    assert(raw * 2048 <= sum < raw * 2048 + 2048) by (bit_vector)
        requires
            raw == sum >> 11u32,
    ;
    if raw < i16::MIN as i32 {
        i16::MIN
    } else if raw > i16::MAX as i32 {
        i16::MAX
    } else {
        raw as i16
    }
}

/// The two halves of a byte, by shift and mask.
pub proof fn lemma_halves(byte: u8)
    ensures
        byte >> 4 == byte / 16,
        byte & 0xf == byte % 16,
        (byte >> 4) & 0xf == byte / 16,
{
    assert(byte >> 4 == byte / 16 && byte & 0xf == byte % 16 && (byte >> 4) & 0xf == byte / 16)
        by (bit_vector);
}

/// The history after one more sample.
proof fn lemma_state_push(state: AdpcmState, line: Seq<i16>, sample: i16)
    ensures
        state_after(state, line.push(sample)).hist1 == sample,
        state_after(state, line.push(sample)).hist2 == state_after(state, line).hist1,
{
}

/// Decodes the next sample of a block, appends it to `out` and shifts it into the history.
fn push_sample(
    nibble: u8,
    scale: i32,
    pair: &[i16; 2],
    state: &mut AdpcmState,
    out: &mut Vec<i16>,
)
    requires
        nibble < 16,
        1 <= scale <= 0x8000,
        sums_fit(nibble as int, scale as int, *pair, *old(state)),
    ensures
        ({
            let sample = saturate(
                fine_sample(nibble as int, scale as int, *pair, *old(state)) / 2048,
            );
            &&& final(out)@ == old(out)@.push(sample)
            &&& *final(state) == (AdpcmState { hist1: sample, hist2: old(state).hist1 })
        }),
{
    let sample: i16 = decode_nibble(nibble, scale, pair, state);
    state.hist2 = state.hist1;
    state.hist1 = sample;
    out.push(sample);
}

/// `out` and `state` as they are once `n` samples of a block have been decoded.
spec fn decoded_so_far(
    chunk: Seq<u8>,
    coefficients: [[i16; 2]; 8],
    start: AdpcmState,
    base: Seq<i16>,
    n: int,
    state: AdpcmState,
    out: Seq<i16>,
) -> bool {
    &&& 0 <= n
    &&& out == base + samples(chunk, coefficients, start, n as nat)
    &&& out.len() == base.len() + n
    &&& state == state_after(start, samples(chunk, coefficients, start, n as nat))
}

/// One more sample takes `decoded_so_far` a step further.
proof fn lemma_decode_step(
    chunk: Seq<u8>,
    coefficients: [[i16; 2]; 8],
    start: AdpcmState,
    base: Seq<i16>,
    n: int,
    state: AdpcmState,
    out: Seq<i16>,
    sample: i16,
)
    requires
        decoded_so_far(chunk, coefficients, start, base, n, state, out),
        sample == saturate(fine_sample_at(chunk, coefficients, state, n) / 2048),
    ensures
        decoded_so_far(
            chunk,
            coefficients,
            start,
            base,
            n + 1,
            AdpcmState { hist1: sample, hist2: state.hist1 },
            out.push(sample),
        ),
{
    let before = samples(chunk, coefficients, start, n as nat);
    lemma_state_push(start, before, sample);
    assert(samples(chunk, coefficients, start, (n + 1) as nat) == before.push(sample));
    assert(out.push(sample) =~= base + before.push(sample));
}

/// Decodes `sample_count` samples of one channel, or as many as `chunk` holds, and appends them to
/// `out`. `state` is the history before the block, and afterwards the history behind it.
pub fn decode_adpcm_block(
    chunk: &[u8],
    coefficients: &[[i16; 2]; 8],
    state: &mut AdpcmState,
    sample_count: usize,
    out: &mut Vec<i16>,
)
    requires
        old(out)@.len() + sample_count <= usize::MAX,
        block_decodable(chunk@, *coefficients, *old(state), sample_count as int),
    ensures
        final(out)@ == old(out)@ + block_samples(
            chunk@,
            *coefficients,
            *old(state),
            sample_count as int,
        ),
        *final(state) == state_after(
            *old(state),
            block_samples(chunk@, *coefficients, *old(state), sample_count as int),
        ),
{
    let ghost bytes = chunk@;
    let ghost len = chunk@.len() as int;
    let ghost pairs = *coefficients;
    let ghost start = *state;
    let ghost base = out@;
    let ghost count = sample_count as int;
    let target_len: usize = out.len() + sample_count;
    let mut i: usize = 0;
    let ghost mut k: int = 0;
    while i < chunk.len() && out.len() < target_len
        invariant
            bytes == chunk@,
            len == chunk@.len(),
            pairs == *coefficients,
            count == sample_count,
            target_len == base.len() + count,
            block_decodable(bytes, pairs, start, count),
            0 <= k,
            i <= len,
            decoded_so_far(bytes, pairs, start, base, out@.len() - base.len(), *state, out@),
            out@.len() <= target_len,
            ({
                ||| i == 8 * k && out@.len() - base.len() == 14 * k
                ||| i == len && out@.len() - base.len() == decoded_count(len, count)
                ||| out@.len() == target_len && count == decoded_count(len, count)
            }),
        decreases chunk.len() - i,
    {
        let header: u8 = chunk[i];
        proof {
            assert(frame_header(bytes, k) / 16 < 8);
            lemma_halves(header);
            lemma_scale(header % 16);
        }
        let scale: i32 = 1i32 << (header & 0xf);
        let pair: [i16; 2] = coefficients[((header >> 4) & 0xf) as usize];
        i += 1;

        let mut b: usize = 0;
        while b < 7 && i < chunk.len() && out.len() < target_len
            invariant
                bytes == chunk@,
                len == chunk@.len(),
                pairs == *coefficients,
                target_len == base.len() + count,
                block_decodable(bytes, pairs, start, count),
                0 <= k,
                b <= 7,
                i == 8 * k + 1 + b,
                i <= len,
                header == frame_header(bytes, k),
                header / 16 < 8,
                pair == pairs[(header / 16) as int],
                1 <= scale <= 0x8000,
                scale == pow2((header % 16) as nat),
                decoded_so_far(bytes, pairs, start, base, out@.len() - base.len(), *state, out@),
                out@.len() - base.len() == 14 * k + 2 * b || (out@.len() == target_len && 14 * k
                    <= count < 14 * k + 2 * b),
                out@.len() <= target_len,
            decreases 7 - b,
        {
            let byte: u8 = chunk[i];
            i += 1;
            proof {
                lemma_halves(byte);
            }
            let ghost n = 14 * k + 2 * b;
            assert(n < count);
            assert(n < decoded_count(len, count));
            assert(n / 14 == k && n % 14 == 2 * b && n % 2 == 0);
            assert(nibble_at(bytes, n) == byte / 16);
            assert(sums_fit_at(bytes, pairs, start, n));
            let ghost out_before = out@;
            let ghost state_before = *state;
            push_sample(byte >> 4, scale, &pair, state, out);
            proof {
                lemma_decode_step(bytes, pairs, start, base, n, state_before, out_before, out@.last());
            }
            if out.len() < target_len {
                assert(n + 1 < decoded_count(len, count));
                assert((n + 1) / 14 == k && (n + 1) % 14 == 2 * b + 1 && (n + 1) % 2 == 1);
                assert(nibble_at(bytes, n + 1) == byte % 16);
                assert(sums_fit_at(bytes, pairs, start, n + 1));
                let ghost out_before = out@;
                let ghost state_before = *state;
                push_sample(byte & 0x0f, scale, &pair, state, out);
                proof {
                    lemma_decode_step(
                        bytes,
                        pairs,
                        start,
                        base,
                        n + 1,
                        state_before,
                        out_before,
                        out@.last(),
                    );
                }
            }
            b += 1;
        }
        proof {
            if b == 7 && out@.len() - base.len() == 14 * k + 14 {
                k = k + 1;
            }
        }
    }
}

/// Whether the sums that lead to the next sample stay within 32 bits.
fn sums_fit_in_i32(nibble: u8, scale: i32, pair: &[i16; 2], state: &AdpcmState) -> (fit: bool)
    requires
        nibble < 16,
        1 <= scale <= 0x8000,
    ensures
        fit == sums_fit(nibble as int, scale as int, *pair, *state),
{
    let signed: i64 = if nibble >= 8 {
        nibble as i64 - 16
    } else {
        nibble as i64
    };
    proof {
        lemma_product(pair[0], state.hist1);
        lemma_product(pair[1], state.hist2);
        lemma_scaled(nibble as int, scale as int);
    }
    let prediction: i64 = pair[0] as i64 * state.hist1 as i64 + pair[1] as i64 * state.hist2 as i64;
    let fine: i64 = signed * scale as i64 * 2048 + 1024 + prediction;
    prediction <= i32::MAX as i64 && i32::MIN as i64 <= fine && fine <= i32::MAX as i64
}

/// The number of samples decoded from `len` bytes when `count` are asked for.
fn count_decoded(len: usize, count: usize) -> (n: usize)
    ensures
        n == decoded_count(len as int, count as int),
{
    let rest: u128 = (len % 8) as u128;
    let tail: u128 = if rest > 1 {
        2 * (rest - 1)
    } else {
        0
    };
    let held: u128 = 14 * (len / 8) as u128 + tail;
    if count as u128 <= held {
        count
    } else {
        held as usize
    }
}

/// Whether each frame that is looked at names one of the eight coefficient pairs.
fn check_frames(chunk: &[u8], count: usize) -> (ok: bool)
    ensures
        ok == frames_valid(chunk@, count as int),
{
    let mut i: usize = 0;
    let mut left: usize = count;
    let ghost mut k: int = 0;
    while i < chunk.len() && left > 0
        invariant
            i <= chunk@.len(),
            0 <= k,
            i == 8 * k || (i == chunk@.len() && i < 8 * k),
            left == count - 14 * k || (left == 0 && count < 14 * k),
            forall|m: int|
                0 <= m < k && 8 * m < chunk@.len() && 14 * m < count ==> #[trigger] frame_header(
                    chunk@,
                    m,
                ) / 16 < 8,
        decreases chunk.len() - i,
    {
        if chunk[i] >= 0x80 {
            assert(frame_header(chunk@, k) / 16 >= 8);
            return false;
        }
        i = if chunk.len() - i > 8 {
            i + 8
        } else {
            chunk.len()
        };
        left = if left > 14 {
            left - 14
        } else {
            0
        };
        proof {
            k = k + 1;
        }
    }
    true
}

/// Whether [`decode_adpcm_block`] can decode a block. If so, `state` moves on to the history behind
/// the block.
pub fn check_adpcm_block(
    chunk: &[u8],
    coefficients: &[[i16; 2]; 8],
    state: &mut AdpcmState,
    sample_count: usize,
) -> (ok: bool)
    ensures
        ok == block_decodable(chunk@, *coefficients, *old(state), sample_count as int),
        ok ==> *final(state) == state_after(
            *old(state),
            block_samples(chunk@, *coefficients, *old(state), sample_count as int),
        ),
{
    if !check_frames(chunk, sample_count) {
        return false;
    }
    let ghost start = *state;
    let n: usize = count_decoded(chunk.len(), sample_count);
    let mut j: usize = 0;
    while j < n
        invariant
            start == *old(state),
            j <= n,
            n == decoded_count(chunk@.len() as int, sample_count as int),
            frames_valid(chunk@, sample_count as int),
            sums_fit_below(chunk@, *coefficients, start, j as nat),
            *state == state_after(start, samples(chunk@, *coefficients, start, j as nat)),
        decreases n - j,
    {
        let frame: usize = j / 14;
        let header: u8 = chunk[8 * frame];
        let byte: u8 = chunk[8 * frame + 1 + (j % 14) / 2];
        let nibble: u8 = if j % 2 == 0 {
            byte / 16
        } else {
            byte % 16
        };
        proof {
            assert(frame_header(chunk@, frame as int) / 16 < 8);
            lemma_scale(header % 16);
        }
        let scale: i32 = 1i32 << (header % 16);
        let pair: [i16; 2] = coefficients[(header / 16) as usize];
        let fit: bool = sums_fit_in_i32(nibble, scale, &pair, state);
        assert(fit == sums_fit_at(chunk@, *coefficients, start, j as int));
        if !fit {
            return false;
        }
        let ghost before = samples(chunk@, *coefficients, start, j as nat);
        let sample: i16 = decode_nibble(nibble, scale, &pair, state);
        proof {
            lemma_state_push(start, before, sample);
            assert(samples(chunk@, *coefficients, start, (j + 1) as nat) == before.push(sample));
        }
        *state = AdpcmState { hist1: sample, hist2: state.hist1 };
        j += 1;
    }
    true
}

} // verus!
