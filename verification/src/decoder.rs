//! From the bytes of a file to the audio in it.
//!
//! The HEAD section refers to the stream description and to the channel table, the channel table to
//! one description per channel, and each of those to the channel's decoder parameters. All these
//! references count from the byte eight behind the start of the HEAD section.

use vstd::prelude::*;

use crate::error::BrstmError;
use crate::parse::{
    parse_adpcm_parameters, parse_channel_table, parse_data_ref, parse_data_section,
    parse_file_header, parse_head_section, parse_stream_info, parsed_data_section,
    parsed_file_header, parsed_head_section, parsed_stream_info,
};
use crate::records::{
    ADPCM_PARAMETERS_SIZE, AdpcmParameters, BrstmHeader, CHANNEL_TABLE_PREFIX, ChannelTable,
    DATA_REF_SIZE, DATA_SECTION_SIZE, DataRef, DataSection, DecodedSampleData, FILE_HEADER_SIZE,
    HEAD_SECTION_SIZE, HeadSection, STREAM_INFO_SIZE, StreamInfo, adpcm_parameters_at, data_ref_at,
    data_section_at, file_header_at_start, head_section_at, is_channel_table_at, stream_info_at,
};
use crate::section::{
    check_data_section, decode_data_section, law_channel_length, section_decodable, section_samples,
};
use crate::wav::{WavAudio, WavFormat, interleave, interleaved, wav_format, wav_format_of};

verus! {

/// Everything in a file but its audio.
#[derive(Debug, PartialEq, Eq)]
pub struct BrstmFile {
    pub header: BrstmHeader,
    pub head_section: HeadSection,
    pub stream_info: StreamInfo,
    pub channel_table: ChannelTable,
    pub channels: Vec<AdpcmParameters>,
    pub data_section: DataSection,
}

/// The distance from the start of the HEAD section to the base of the references in it.
pub const HEAD_BASE: usize = 8;

/// Where the HEAD section starts.
pub open spec fn head_start(buf: Seq<u8>) -> int {
    file_header_at_start(buf).head_offset as int
}

/// Where the references in the HEAD section count from.
pub open spec fn head_base_of(buf: Seq<u8>) -> int {
    head_start(buf) + HEAD_BASE
}

/// Where the stream description starts.
pub open spec fn stream_info_start(buf: Seq<u8>) -> int {
    head_base_of(buf) + head_section_at(buf, head_start(buf)).stream_data.val
}

/// The stream description of a file.
pub open spec fn stream_info_of(buf: Seq<u8>) -> StreamInfo {
    stream_info_at(buf, stream_info_start(buf))
}

/// Where the channel table starts.
pub open spec fn channel_table_start(buf: Seq<u8>) -> int {
    head_base_of(buf) + head_section_at(buf, head_start(buf)).channel_data.val
}

/// The number of channels that the channel table gives.
pub open spec fn table_channel_count(buf: Seq<u8>) -> u8 {
    buf[channel_table_start(buf)]
}

/// Where the description of channel `k` starts.
pub open spec fn channel_info_start(buf: Seq<u8>, k: int) -> int {
    head_base_of(buf) + data_ref_at(
        buf,
        channel_table_start(buf) + CHANNEL_TABLE_PREFIX + DATA_REF_SIZE * k,
    ).val
}

/// The reference from the description of channel `k` to its decoder parameters.
pub open spec fn parameters_ref(buf: Seq<u8>, k: int) -> DataRef {
    data_ref_at(buf, channel_info_start(buf, k))
}

/// Where the decoder parameters of channel `k` start.
pub open spec fn parameters_start(buf: Seq<u8>, k: int) -> int {
    head_base_of(buf) + parameters_ref(buf, k).val
}

/// The first `n` channels all have decoder parameters.
pub open spec fn channels_complete(buf: Seq<u8>, n: int) -> bool {
    forall|k: int| 0 <= k < n ==> (#[trigger] parameters_ref(buf, k)).val != 0
}

/// The decoder parameters of the first `n` channels.
pub open spec fn channel_parameters(buf: Seq<u8>, n: nat) -> Seq<AdpcmParameters> {
    Seq::new(n, |k: int| adpcm_parameters_at(buf, parameters_start(buf, k)))
}

/// Where the DATA section starts.
pub open spec fn data_section_start(buf: Seq<u8>) -> int {
    file_header_at_start(buf).data_offset as int
}

/// The first thing that keeps a file from being decoded, if there is one.
pub open spec fn file_error(buf: Seq<u8>) -> Option<BrstmError> {
    if let Err(e) = parsed_file_header(buf) {
        Some(e)
    } else if let Err(e) = parsed_head_section(buf, head_start(buf)) {
        Some(e)
    } else if let Err(e) = parsed_stream_info(buf, stream_info_start(buf)) {
        Some(e)
    } else if table_channel_count(buf) != stream_info_of(buf).channel_count {
        Some(
            BrstmError::ChannelCountMismatch {
                stream_info: stream_info_of(buf).channel_count,
                channel_table: table_channel_count(buf),
            },
        )
    } else if !channels_complete(buf, table_channel_count(buf) as int) {
        Some(BrstmError::MissingAdpcmParameters)
    } else if let Err(e) = parsed_data_section(buf, data_section_start(buf)) {
        Some(e)
    } else {
        None
    }
}

/// `file` is what the records of `buf` say.
pub open spec fn is_file_of(file: BrstmFile, buf: Seq<u8>) -> bool {
    &&& file.header == file_header_at_start(buf)
    &&& file.head_section == head_section_at(buf, head_start(buf))
    &&& file.stream_info == stream_info_of(buf)
    &&& is_channel_table_at(file.channel_table, buf, channel_table_start(buf))
    &&& file.channels@ == channel_parameters(buf, table_channel_count(buf) as nat)
    &&& file.data_section == data_section_at(buf, data_section_start(buf))
}

/// The description of channel `k`, and the decoder parameters if it has any, lie in the buffer.
pub open spec fn channel_in_bounds(buf: Seq<u8>, k: int) -> bool {
    &&& channel_info_start(buf, k) + DATA_REF_SIZE <= buf.len()
    &&& parameters_ref(buf, k).val != 0 ==> parameters_start(buf, k) + ADPCM_PARAMETERS_SIZE
        <= buf.len()
}

/// Every record that is looked at lies in the buffer. Behind the first error none is looked at.
pub open spec fn file_in_bounds(buf: Seq<u8>) -> bool {
    &&& FILE_HEADER_SIZE <= buf.len()
    &&& parsed_file_header(buf) is Ok ==> {
        &&& head_start(buf) + HEAD_SECTION_SIZE <= buf.len()
        &&& parsed_head_section(buf, head_start(buf)) is Ok ==> {
            &&& stream_info_start(buf) + STREAM_INFO_SIZE <= buf.len()
            &&& parsed_stream_info(buf, stream_info_start(buf)) is Ok ==> {
                &&& channel_table_start(buf) + CHANNEL_TABLE_PREFIX <= buf.len()
                &&& channel_table_start(buf) + CHANNEL_TABLE_PREFIX + DATA_REF_SIZE
                    * table_channel_count(buf) <= buf.len()
                &&& table_channel_count(buf) == stream_info_of(buf).channel_count
                    ==> channels_in_bounds(buf)
            }
        }
    }
}

/// The records that are looked at once the channel table has been read lie in the buffer.
pub open spec fn channels_in_bounds(buf: Seq<u8>) -> bool {
    let n = table_channel_count(buf) as int;
    &&& forall|k: int|
        0 <= k < n && channels_complete(buf, k) ==> #[trigger] channel_in_bounds(buf, k)
    &&& channels_complete(buf, n) ==> data_section_start(buf) + DATA_SECTION_SIZE <= buf.len()
}

/// What the audio of a file decodes to, channel by channel.
pub open spec fn file_samples(buf: Seq<u8>) -> Seq<Seq<i16>> {
    let info = stream_info_of(buf);
    section_samples(
        buf,
        info.actual_data_offset as int,
        info,
        channel_parameters(buf, info.channel_count as nat),
    )
}

/// A file can be decoded, or refused with an error: its records lie in the buffer and, unless one
/// of them is refused, it has a channel and its audio can be decoded.
pub open spec fn file_decodable(buf: Seq<u8>) -> bool {
    let info = stream_info_of(buf);
    &&& file_in_bounds(buf)
    &&& file_error(buf) is None ==> {
        &&& info.channel_count > 0
        &&& section_decodable(
            buf,
            info.actual_data_offset as int,
            info,
            channel_parameters(buf, info.channel_count as nat),
        )
    }
}

/// Parses everything in a file but its audio.
pub fn parse_brstm(buf: &[u8]) -> (parsed: Result<BrstmFile, BrstmError>)
    requires
        file_in_bounds(buf@),
    ensures
        match parsed {
            Ok(file) => {
                &&& file_error(buf@) is None
                &&& is_file_of(file, buf@)
                &&& file.channels@.len() == file.stream_info.channel_count
                &&& file.channel_table.channel_refs@.len() == file.stream_info.channel_count
                &&& forall|k: int|
                    0 <= k < file.channels@.len() ==> #[trigger] file.channels@[k]
                        == adpcm_parameters_at(
                        buf@,
                        file.header.head_offset + 8 + data_ref_at(
                            buf@,
                            file.header.head_offset + 8 + file.channel_table.channel_refs@[k].val,
                        ).val,
                    )
            },
            Err(e) => file_error(buf@) == Some(e),
        },
{
    assert(buf.len() == buf@.len());
    let header: BrstmHeader = match parse_file_header(buf) {
        Ok(header) => header,
        Err(e) => return Err(e),
    };
    let head_section: HeadSection = match parse_head_section(buf, header.head_offset as usize) {
        Ok(section) => section,
        Err(e) => return Err(e),
    };
    let head_base: usize = header.head_offset as usize + HEAD_BASE;
    let stream_info_offset: usize = head_base + head_section.stream_data.val as usize;
    let stream_info: StreamInfo = match parse_stream_info(buf, stream_info_offset) {
        Ok(info) => info,
        Err(e) => return Err(e),
    };
    let channel_table_offset: usize = head_base + head_section.channel_data.val as usize;
    let channel_table: ChannelTable = parse_channel_table(buf, channel_table_offset);
    if channel_table.channel_count != stream_info.channel_count {
        return Err(
            BrstmError::ChannelCountMismatch {
                stream_info: stream_info.channel_count,
                channel_table: channel_table.channel_count,
            },
        );
    }
    let mut channels: Vec<AdpcmParameters> = Vec::with_capacity(
        channel_table.channel_count as usize,
    );
    let mut k: usize = 0;
    while k < channel_table.channel_refs.len()
        invariant
            buf@.len() <= usize::MAX,
            head_base == head_base_of(buf@),
            is_channel_table_at(channel_table, buf@, channel_table_offset as int),
            channel_table_offset == channel_table_start(buf@),
            channels_in_bounds(buf@),
            k <= channel_table.channel_refs@.len(),
            channels_complete(buf@, k as int),
            channels@ == channel_parameters(buf@, k as nat),
            parsed_file_header(buf@) is Ok,
            parsed_head_section(buf@, head_start(buf@)) is Ok,
            parsed_stream_info(buf@, stream_info_start(buf@)) is Ok,
            table_channel_count(buf@) == stream_info_of(buf@).channel_count,
        decreases channel_table.channel_refs.len() - k,
    {
        assert(channel_in_bounds(buf@, k as int));
        let mut inner_offset: usize = head_base + channel_table.channel_refs[k].val as usize;
        let inner_ref: DataRef = parse_data_ref(buf, &mut inner_offset);
        assert(inner_ref == parameters_ref(buf@, k as int));
        if inner_ref.val == 0 {
            return Err(BrstmError::MissingAdpcmParameters);
        }
        let adpcm_offset: usize = head_base + inner_ref.val as usize;
        channels.push(parse_adpcm_parameters(buf, adpcm_offset));
        k += 1;
        assert(channels@ =~= channel_parameters(buf@, k as nat));
    }
    let data_section: DataSection = match parse_data_section(buf, header.data_offset as usize) {
        Ok(section) => section,
        Err(e) => return Err(e),
    };
    proof {
        assert forall|k: int| 0 <= k < channels@.len() implies #[trigger] channels@[k]
            == adpcm_parameters_at(
            buf@,
            header.head_offset + 8 + data_ref_at(
                buf@,
                header.head_offset + 8 + channel_table.channel_refs@[k].val,
            ).val,
        ) by {
            assert(channel_table.channel_refs@[k] == data_ref_at(
                buf@,
                channel_table_start(buf@) + CHANNEL_TABLE_PREFIX + DATA_REF_SIZE * k,
            ));
        }
    }
    Ok(BrstmFile { header, head_section, stream_info, channel_table, channels, data_section })
}

/// Decodes a file.
pub fn decode_brstm(buf: &[u8]) -> (decoded: Result<WavAudio, BrstmError>)
    requires
        file_decodable(buf@),
    ensures
        match decoded {
            Ok(audio) => {
                &&& file_error(buf@) is None
                &&& audio.format == wav_format_of(stream_info_of(buf@))
                &&& audio.samples@ == interleaved(file_samples(buf@))
                &&& audio.format.channels == stream_info_of(buf@).channel_count
                &&& audio.format.sample_rate == stream_info_of(buf@).sample_rate
                &&& audio.format.bits_per_sample == 16
                &&& file_samples(buf@).len() == audio.format.channels
                &&& forall|ch: int|
                    0 <= ch < audio.format.channels ==> audio.samples@.len()
                        == audio.format.channels * (#[trigger] file_samples(buf@)[ch]).len()
                &&& forall|ch: int, i: int|
                    0 <= ch < audio.format.channels && 0 <= i < file_samples(buf@)[ch].len()
                        ==> #[trigger] file_samples(buf@)[ch][i] == audio.samples@[i
                        * audio.format.channels + ch]
            },
            Err(e) => file_error(buf@) == Some(e),
        },
{
    let file: BrstmFile = match parse_brstm(buf) {
        Ok(file) => file,
        Err(e) => return Err(e),
    };
    let ghost info = file.stream_info;
    let data_start: usize = file.stream_info.actual_data_offset as usize;
    let decoded: DecodedSampleData = match decode_data_section(
        buf,
        data_start,
        &file.stream_info,
        &file.channels,
    ) {
        Ok(decoded) => decoded,
        Err(e) => return Err(e),
    };
    proof {
        assert(decoded@ == file_samples(buf@));
        assert forall|ch: int| 0 <= ch < decoded@.len() implies decoded@[0].len() == (
        #[trigger] decoded@[ch]).len() by {
            law_channel_length(buf@, data_start as int, info, file.channels@, 0);
            law_channel_length(buf@, data_start as int, info, file.channels@, ch);
        }
    }
    let format: WavFormat = wav_format(&file.stream_info);
    let samples: Vec<i16> = interleave(&decoded);
    proof {
        assert forall|ch: int, i: int|
            0 <= ch < format.channels && 0 <= i < decoded@[ch].len() implies
            #[trigger] decoded@[ch][i] == samples@[i * format.channels + ch] by {
            assert(decoded@[ch] == decoded.samples@[ch]@);
            assert(decoded@[0] == decoded.samples@[0]@);
        }
    }
    Ok(WavAudio { format, samples })
}

/// Whether `size` bytes from `at` on lie in the buffer.
fn in_bounds(buf: &[u8], at: u64, size: usize) -> (ok: bool)
    ensures
        ok == (at + size <= buf@.len()),
        ok ==> at <= usize::MAX,
{
    at as u128 + size as u128 <= buf.len() as u128
}

/// Whether the records of the channels, and the DATA section behind them, lie in the buffer.
fn check_channels(
    buf: &[u8],
    header: &BrstmHeader,
    channel_table: &ChannelTable,
) -> (ok: bool)
    requires
        FILE_HEADER_SIZE <= buf@.len(),
        *header == file_header_at_start(buf@),
        is_channel_table_at(*channel_table, buf@, channel_table_start(buf@)),
    ensures
        ok == channels_in_bounds(buf@),
{
    let head_base: u64 = header.head_offset as u64 + HEAD_BASE as u64;
    let mut k: usize = 0;
    while k < channel_table.channel_refs.len()
        invariant
            head_base == head_base_of(buf@),
            is_channel_table_at(*channel_table, buf@, channel_table_start(buf@)),
            k <= channel_table.channel_refs@.len(),
            channels_complete(buf@, k as int),
            forall|m: int| 0 <= m < k ==> #[trigger] channel_in_bounds(buf@, m),
        decreases channel_table.channel_refs.len() - k,
    {
        let ghost here = channel_in_bounds(buf@, k as int);
        let inner: u64 = head_base + channel_table.channel_refs[k].val as u64;
        assert(inner == channel_info_start(buf@, k as int));
        if !in_bounds(buf, inner, DATA_REF_SIZE) {
            assert(!here);
            return false;
        }
        let mut inner_offset: usize = inner as usize;
        let inner_ref: DataRef = parse_data_ref(buf, &mut inner_offset);
        assert(inner_ref == parameters_ref(buf@, k as int));
        if inner_ref.val == 0 {
            assert(here);
            assert forall|m: int| m > k implies !channels_complete(buf@, m) by {
                assert(parameters_ref(buf@, k as int).val == 0);
            }
            return true;
        }
        if !in_bounds(buf, head_base + inner_ref.val as u64, ADPCM_PARAMETERS_SIZE) {
            assert(!here);
            return false;
        }
        assert(here);
        k += 1;
    }
    in_bounds(buf, header.data_offset as u64, DATA_SECTION_SIZE)
}

/// Whether [`parse_brstm`] finds in the buffer every record that it looks at.
pub fn check_bounds(buf: &[u8]) -> (ok: bool)
    ensures
        ok == file_in_bounds(buf@),
{
    if buf.len() < FILE_HEADER_SIZE {
        return false;
    }
    let header: BrstmHeader = match parse_file_header(buf) {
        Ok(header) => header,
        Err(_) => return true,
    };
    if !in_bounds(buf, header.head_offset as u64, HEAD_SECTION_SIZE) {
        return false;
    }
    let head_section: HeadSection = match parse_head_section(buf, header.head_offset as usize) {
        Ok(section) => section,
        Err(_) => return true,
    };
    let head_base: u64 = header.head_offset as u64 + HEAD_BASE as u64;
    let info_at: u64 = head_base + head_section.stream_data.val as u64;
    if !in_bounds(buf, info_at, STREAM_INFO_SIZE) {
        return false;
    }
    let stream_info: StreamInfo = match parse_stream_info(buf, info_at as usize) {
        Ok(info) => info,
        Err(_) => return true,
    };
    let table_at: u64 = head_base + head_section.channel_data.val as u64;
    if !in_bounds(buf, table_at, CHANNEL_TABLE_PREFIX) {
        return false;
    }
    let channel_count: u8 = buf[table_at as usize];
    if !in_bounds(
        buf,
        table_at,
        CHANNEL_TABLE_PREFIX + DATA_REF_SIZE * channel_count as usize,
    ) {
        return false;
    }
    if channel_count != stream_info.channel_count {
        return true;
    }
    let channel_table: ChannelTable = parse_channel_table(buf, table_at as usize);
    check_channels(buf, &header, &channel_table)
}

/// Whether [`decode_brstm`] can decode a file, or refuse it with an error.
pub fn check_brstm(buf: &[u8]) -> (ok: bool)
    ensures
        ok == file_decodable(buf@),
{
    if !check_bounds(buf) {
        return false;
    }
    match parse_brstm(buf) {
        Ok(file) => file.stream_info.channel_count > 0 && check_data_section(
            buf,
            file.stream_info.actual_data_offset as usize,
            &file.stream_info,
            &file.channels,
        ),
        Err(_) => true,
    }
}

} // verus!
