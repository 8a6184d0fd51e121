//! The shape in which decoded audio goes into a WAV file.

use vstd::prelude::*;

use crate::records::{DecodedSampleData, StreamInfo};

verus! {

/// The format of a WAV file with signed integer samples.
#[derive(Debug, Clone, Copy, PartialEq, Eq)]
pub struct WavFormat {
    pub channels: u16,
    pub sample_rate: u32,
    pub bits_per_sample: u16,
}

/// What goes into a WAV file.
#[derive(Debug, PartialEq, Eq)]
pub struct WavAudio {
    pub format: WavFormat,
    /// The samples in the order of the file: for each moment, one of every channel.
    pub samples: Vec<i16>,
}

/// The WAV format of a stream.
pub open spec fn wav_format_of(info: StreamInfo) -> WavFormat {
    WavFormat {
        channels: info.channel_count as u16,
        sample_rate: info.sample_rate,
        bits_per_sample: 16,
    }
}

/// The samples of all channels in the order of a WAV file, for as many moments as the first channel
/// has samples.
pub open spec fn interleaved(channels: Seq<Seq<i16>>) -> Seq<i16> {
    Seq::new(
        channels.len() * channels[0].len(),
        |j: int| channels[j % channels.len() as int][j / channels.len() as int],
    )
}

/// The WAV format of a stream.
pub fn wav_format(stream_info: &StreamInfo) -> (format: WavFormat)
    ensures
        format == wav_format_of(*stream_info),
        format.channels == stream_info.channel_count,
        format.sample_rate == stream_info.sample_rate,
        format.bits_per_sample == 16,
{
    WavFormat {
        channels: stream_info.channel_count as u16,
        sample_rate: stream_info.sample_rate,
        bits_per_sample: 16,
    }
}

/// Where the sample of channel `ch` at moment `i` stands among interleaved samples.
pub proof fn lemma_interleaved_position(count: int, i: int, ch: int)
    requires
        0 <= i,
        0 <= ch < count,
    ensures
        (i * count + ch) % count == ch,
        (i * count + ch) / count == i,
{
    vstd::arithmetic::div_mod::lemma_fundamental_div_mod_converse(i * count + ch, count, i, ch);
}

/// Puts the samples of all channels in the order of a WAV file.
pub fn interleave(decoded: &DecodedSampleData) -> (samples: Vec<i16>)
    requires
        decoded@.len() > 0,
        forall|ch: int|
            0 <= ch < decoded@.len() ==> decoded@[0].len() <= (#[trigger] decoded@[ch]).len(),
    ensures
        samples@ == interleaved(decoded@),
        samples@.len() == decoded.samples@.len() * decoded.samples@[0]@.len(),
        forall|i: int, ch: int|
            0 <= i < decoded.samples@[0]@.len() && 0 <= ch < decoded.samples@.len()
                ==> #[trigger] decoded.samples@[ch]@[i] == samples@[i * decoded.samples@.len()
                + ch],
{
    let ghost channels = decoded@;
    let ghost count = decoded@.len() as int;
    let num_samples: usize = decoded.samples[0].len();
    let mut samples: Vec<i16> = Vec::new();
    let mut i: usize = 0;
    while i < num_samples
        invariant
            channels == decoded@,
            count == channels.len(),
            count > 0,
            num_samples == channels[0].len(),
            forall|ch: int|
                0 <= ch < count ==> channels[0].len() <= (#[trigger] channels[ch]).len(),
            i <= num_samples,
            samples@.len() == i * count,
            forall|j: int|
                0 <= j < samples@.len() ==> #[trigger] samples@[j] == channels[j % count][j
                    / count],
        decreases num_samples - i,
    {
        let mut ch: usize = 0;
        assert(i * count + 0 == i * count);
        while ch < decoded.samples.len()
            invariant
                channels == decoded@,
                count == channels.len(),
                count > 0,
                num_samples == channels[0].len(),
                forall|c: int|
                    0 <= c < count ==> channels[0].len() <= (#[trigger] channels[c]).len(),
                i < num_samples,
                ch <= count,
                samples@.len() == i * count + ch,
                forall|j: int|
                    0 <= j < samples@.len() ==> #[trigger] samples@[j] == channels[j % count][j
                        / count],
            decreases decoded.samples.len() - ch,
        {
            proof {
                assert(channels[ch as int] == decoded.samples@[ch as int]@);
                lemma_interleaved_position(count, i as int, ch as int);
            }
            samples.push(decoded.samples[ch][i]);
            ch += 1;
        }
        assert(i * count + count == (i + 1) * count) by (nonlinear_arith);
        i += 1;
    }
    assert(num_samples * count == count * num_samples) by (nonlinear_arith);
    assert(samples@ =~= interleaved(channels));
    proof {
        assert forall|i: int, ch: int|
            0 <= i < decoded.samples@[0]@.len() && 0 <= ch < decoded.samples@.len() implies
            #[trigger] decoded.samples@[ch]@[i] == samples@[i * decoded.samples@.len() + ch] by {
            lemma_interleaved_position(count, i, ch);
            assert(0 <= i * count + ch < count * num_samples) by (nonlinear_arith)
                requires
                    0 <= i < num_samples,
                    0 <= ch < count,
            ;
            assert(channels[ch] == decoded.samples@[ch]@);
        }
    }
    samples
}

} // verus!
