//! Where a file keeps what is parsed from it, and which files are refused.

use vstd::prelude::*;

use crate::decoder::{
    BrstmFile, channel_in_bounds, channel_parameters, channels_complete, channels_in_bounds,
    file_decodable, file_error, file_in_bounds, file_samples, is_file_of, parameters_ref,
    parameters_start, stream_info_of,
};
use crate::error::BrstmError;
use crate::laws::law_interleaved_sample;
use crate::parse::{
    DATA_MAGIC, FILE_MAGIC, HEAD_MAGIC, parsed_data_section, parsed_file_header,
    parsed_head_section, parsed_stream_info,
};
use crate::records::{
    AdpcmParameters, DataRef, StreamInfo, adpcm_parameters_at, coefficient_pair_at, data_ref_at,
    data_section_at, file_header_at_start, head_section_at, is_channel_table_at, stream_info_at,
};
use crate::section::{law_channel_length, section_decodable, section_samples};
use crate::util::{be_i16, be_u16, be_u32};
use crate::wav::{interleaved, wav_format_of};

verus! {

/// A tag is the expected one exactly if its four bytes are.
proof fn lemma_tag(tag: [u8; 4], expected: [u8; 4])
    ensures
        tag@ == expected@ <==> tag == expected,
{
    if tag@ == expected@ {
        assert(tag =~= expected);
    }
}

/// A file header is refused if it does not start with "RSTM", or else if it does not give its size
/// as 64 bytes. Otherwise it is what its bytes say.
pub proof fn law_parsed_file_header(buf: Seq<u8>)
    ensures
        ({
            let header = file_header_at_start(buf);
            let tagged = header.magic_string@ == seq![0x52u8, 0x53, 0x54, 0x4d];
            match parsed_file_header(buf) {
                Ok(h) => tagged && header.header_size == 64 && h == header,
                Err(e) => if tagged {
                    header.header_size != 64 && e == (BrstmError::BadHeaderSize {
                        size: header.header_size,
                    })
                } else {
                    e == (BrstmError::BadFileMagic { magic: header.magic_string })
                },
            }
        }),
{
    lemma_tag(file_header_at_start(buf).magic_string, FILE_MAGIC);
    assert(FILE_MAGIC@ =~= seq![0x52u8, 0x53, 0x54, 0x4d]);
}

/// A HEAD section is refused if it does not start with "HEAD". Otherwise it is what its bytes say.
pub proof fn law_parsed_head_section(buf: Seq<u8>, at: int)
    ensures
        ({
            let head = head_section_at(buf, at);
            let tagged = head.magic_string@ == seq![0x48u8, 0x45, 0x41, 0x44];
            match parsed_head_section(buf, at) {
                Ok(h) => tagged && h == head,
                Err(e) => !tagged && e == (BrstmError::BadHeadMagic { magic: head.magic_string }),
            }
        }),
{
    lemma_tag(head_section_at(buf, at).magic_string, HEAD_MAGIC);
    assert(HEAD_MAGIC@ =~= seq![0x48u8, 0x45, 0x41, 0x44]);
}

/// A stream description is refused if its format is not 2. Otherwise it is what its bytes say.
pub proof fn law_parsed_stream_info(buf: Seq<u8>, at: int)
    ensures
        ({
            let info = stream_info_at(buf, at);
            match parsed_stream_info(buf, at) {
                Ok(i) => info.format == 2 && i == info,
                Err(e) => info.format != 2 && e == (BrstmError::UnsupportedFormat {
                    format: info.format,
                }),
            }
        }),
{
}

/// A DATA section is refused if it does not start with "DATA". Otherwise it is what its bytes say.
pub proof fn law_parsed_data_section(buf: Seq<u8>, at: int)
    ensures
        ({
            let data = data_section_at(buf, at);
            let tagged = data.magic_string@ == seq![0x44u8, 0x41, 0x54, 0x41];
            match parsed_data_section(buf, at) {
                Ok(d) => tagged && d == data,
                Err(e) => !tagged && e == (BrstmError::BadDataMagic { magic: data.magic_string }),
            }
        }),
{
    lemma_tag(data_section_at(buf, at).magic_string, DATA_MAGIC);
    assert(DATA_MAGIC@ =~= seq![0x44u8, 0x41, 0x54, 0x41]);
}

/// The records of a parsed file stand where its header and its HEAD section say: the HEAD section
/// at the header's `head_offset`, the stream description and the channel table at their references
/// counted from eight bytes behind that, the DATA section at the header's `data_offset`.
pub proof fn law_file_records(buf: Seq<u8>, file: BrstmFile)
    requires
        is_file_of(file, buf),
    ensures
        ({
            let base = file.header.head_offset + 8;
            let table = base + file.head_section.channel_data.val;
            &&& file.header == file_header_at_start(buf)
            &&& file.head_section == head_section_at(buf, file.header.head_offset as int)
            &&& file.stream_info == stream_info_at(buf, base + file.head_section.stream_data.val)
            &&& is_channel_table_at(file.channel_table, buf, table)
            &&& file.channel_table.channel_count == buf[table]
            &&& file.channel_table.channel_refs@.len() == buf[table]
            &&& forall|k: int|
                0 <= k < buf[table] ==> #[trigger] file.channel_table.channel_refs@[k]
                    == data_ref_at(buf, table + 4 + 8 * k)
            &&& file.channels@.len() == buf[table]
            &&& file.data_section == data_section_at(buf, file.header.data_offset as int)
        }),
{
}

/// The decoder parameters of channel `k` are found through two references. The channel table's
/// reference `k` leads to the channel's description, and that starts with the reference to the
/// parameters. Both count from eight bytes behind the start of the HEAD section.
pub proof fn law_channel_references(buf: Seq<u8>, file: BrstmFile, k: int)
    requires
        is_file_of(file, buf),
        0 <= k < file.channels@.len(),
    ensures
        ({
            let base = file.header.head_offset + 8;
            let r = data_ref_at(buf, base + file.channel_table.channel_refs@[k].val);
            file.channels@[k] == adpcm_parameters_at(buf, base + r.val)
        }),
{
    assert(parameters_ref(buf, k) == data_ref_at(
        buf,
        file.header.head_offset + 8 + file.channel_table.channel_refs@[k].val,
    ));
}

/// The 46 bytes of channel `k`'s decoder parameters, found through the channel table's reference to
/// the channel's description and the reference that the description starts with.
pub open spec fn parameter_bytes(buf: Seq<u8>, file: BrstmFile, k: int) -> Seq<u8> {
    let base = file.header.head_offset + 8;
    let r = data_ref_at(buf, base + file.channel_table.channel_refs@[k].val);
    buf.subrange(base + r.val, base + r.val + 46)
}

/// A signed number is the same wherever its bytes stand.
proof fn lemma_moved_i16(buf: Seq<u8>, from: int, to: int, at: int)
    requires
        0 <= from <= at,
        at + 2 <= to <= buf.len(),
    ensures
        be_i16(buf.subrange(from, to), at - from) == be_i16(buf, at),
{
}

/// A pair of coefficients is the same wherever its bytes stand.
proof fn lemma_moved_pair(buf: Seq<u8>, from: int, to: int, at: int)
    requires
        0 <= from <= at,
        at + 4 <= to <= buf.len(),
    ensures
        coefficient_pair_at(buf.subrange(from, to), at - from) == coefficient_pair_at(buf, at),
{
    lemma_moved_i16(buf, from, to, at);
    lemma_moved_i16(buf, from, to, at + 2);
}

/// Decoder parameters are the same wherever their bytes stand.
proof fn lemma_moved_parameters(buf: Seq<u8>, at: int)
    requires
        0 <= at,
        at + 46 <= buf.len(),
    ensures
        adpcm_parameters_at(buf.subrange(at, at + 46), 0) == adpcm_parameters_at(buf, at),
{
    let bytes = buf.subrange(at, at + 46);
    lemma_moved_pair(buf, at, at + 46, at);
    lemma_moved_pair(buf, at, at + 46, at + 4);
    lemma_moved_pair(buf, at, at + 46, at + 8);
    lemma_moved_pair(buf, at, at + 46, at + 12);
    lemma_moved_pair(buf, at, at + 46, at + 16);
    lemma_moved_pair(buf, at, at + 46, at + 20);
    lemma_moved_pair(buf, at, at + 46, at + 24);
    lemma_moved_pair(buf, at, at + 46, at + 28);
    lemma_moved_i16(buf, at, at + 46, at + 36);
    lemma_moved_i16(buf, at, at + 46, at + 38);
    lemma_moved_i16(buf, at, at + 46, at + 42);
    lemma_moved_i16(buf, at, at + 46, at + 44);
    assert(be_u16(bytes, 32) == be_u16(buf, at + 32));
    assert(be_u16(bytes, 34) == be_u16(buf, at + 34));
    assert(be_u16(bytes, 40) == be_u16(buf, at + 40));
}

/// Moving a channel's description, or its decoder parameters, together with the reference to it
/// does not change the parsed channels: two files have the same channels if the references of each
/// lead to the same parameters, wherever those and the descriptions on the way stand.
pub proof fn law_moved_descriptions(a: Seq<u8>, b: Seq<u8>, file: BrstmFile, moved: BrstmFile)
    requires
        is_file_of(file, a),
        file_in_bounds(a),
        file_error(a) is None,
        is_file_of(moved, b),
        file_in_bounds(b),
        file_error(b) is None,
        file.channel_table.channel_count == moved.channel_table.channel_count,
        forall|k: int|
            0 <= k < file.channel_table.channel_count ==> #[trigger] parameter_bytes(a, file, k)
                == parameter_bytes(b, moved, k),
    ensures
        file.channels@ == moved.channels@,
{
    assert forall|k: int| 0 <= k < file.channels@.len() implies #[trigger] file.channels@[k]
        == moved.channels@[k] by {
        law_channel_references(a, file, k);
        law_channel_references(b, moved, k);
        assert(channels_complete(a, k) && channels_complete(b, k));
        assert(channel_in_bounds(a, k) && channel_in_bounds(b, k));
        assert(parameters_ref(a, k).val != 0 && parameters_ref(b, k).val != 0);
        lemma_moved_parameters(a, parameters_start(a, k));
        lemma_moved_parameters(b, parameters_start(b, k));
        assert(parameter_bytes(a, file, k) == parameter_bytes(b, moved, k));
    }
    assert(file.channels@ =~= moved.channels@);
}

/// The reference to channel `k`'s decoder parameters, by the bytes that lead to it: bytes 16 to 19
/// of the file give the start of the HEAD section, and its bytes 28 to 31 the channel table. The
/// table's references follow its first four bytes and take eight bytes each, of which the last four
/// are the offset.
pub open spec fn parameters_found(buf: Seq<u8>, k: int) -> DataRef {
    let head = be_u32(buf, 16);
    let table = head + 8 + be_u32(buf, head + 28);
    data_ref_at(buf, head + 8 + be_u32(buf, table + 8 + 8 * k))
}

/// Channel `k`'s reference is the one that the bytes lead to.
proof fn lemma_parameters_found(buf: Seq<u8>)
    ensures
        forall|k: int| #[trigger] parameters_ref(buf, k) == parameters_found(buf, k),
        forall|k: int| #[trigger] parameters_found(buf, k) == parameters_ref(buf, k),
{
}

/// Which error a file is refused with. The tag of the file, the header size, the tag of the HEAD
/// section, the format, the two channel counts, the channels' references to decoder parameters and
/// the tag of the DATA section are looked at in this order, and the first that is wrong is the
/// error.
pub proof fn law_file_errors(buf: Seq<u8>)
    ensures
        ({
            let header = file_header_at_start(buf);
            let base = header.head_offset + 8;
            let head = head_section_at(buf, header.head_offset as int);
            let info = stream_info_at(buf, base + head.stream_data.val);
            let count = buf[base + head.channel_data.val];
            let data = data_section_at(buf, header.data_offset as int);
            let tagged = header.magic_string@ == seq![0x52u8, 0x53, 0x54, 0x4d];
            let sized = tagged && header.header_size == 64;
            let headed = sized && head.magic_string@ == seq![0x48u8, 0x45, 0x41, 0x44];
            let adpcm = headed && info.format == 2;
            let agreed = adpcm && count == info.channel_count;
            let complete = agreed && forall|k: int|
                0 <= k < count ==> (#[trigger] parameters_found(buf, k)).val != 0;
            match file_error(buf) {
                Some(BrstmError::BadFileMagic { magic }) => !tagged && magic == header.magic_string,
                Some(BrstmError::BadHeaderSize { size }) => tagged && !sized && size
                    == header.header_size,
                Some(BrstmError::BadHeadMagic { magic }) => sized && !headed && magic
                    == head.magic_string,
                Some(BrstmError::UnsupportedFormat { format }) => headed && !adpcm && format
                    == info.format,
                Some(BrstmError::ChannelCountMismatch { stream_info, channel_table }) => adpcm
                    && !agreed && stream_info == info.channel_count && channel_table == count,
                Some(BrstmError::MissingAdpcmParameters) => agreed && !complete,
                Some(BrstmError::BadDataMagic { magic }) => complete && data.magic_string@ != seq![
                    0x44u8,
                    0x41,
                    0x54,
                    0x41,
                ] && magic == data.magic_string,
                None => complete && data.magic_string@ == seq![0x44u8, 0x41, 0x54, 0x41],
            }
        }),
{
    let header = file_header_at_start(buf);
    let head = head_section_at(buf, header.head_offset as int);
    let info_at = header.head_offset + 8 + head.stream_data.val;
    law_parsed_file_header(buf);
    law_parsed_head_section(buf, header.head_offset as int);
    law_parsed_stream_info(buf, info_at);
    law_parsed_data_section(buf, header.data_offset as int);
    lemma_parameters_found(buf);
}

/// The records of channel `k` end in the buffer: eight bytes of its description and, if they refer
/// to decoder parameters, the 46 bytes of those.
pub open spec fn channel_held(buf: Seq<u8>, k: int) -> bool {
    let head = be_u32(buf, 16);
    let table = head + 8 + be_u32(buf, head + 28);
    let r = parameters_found(buf, k);
    &&& head + 8 + be_u32(buf, table + 8 + 8 * k) + 8 <= buf.len()
    &&& r.val == 0 || head + 8 + r.val + 46 <= buf.len()
}

/// The first `n` channels all refer to decoder parameters.
pub open spec fn parameters_found_below(buf: Seq<u8>, n: int) -> bool {
    forall|k: int| 0 <= k < n ==> (#[trigger] parameters_found(buf, k)).val != 0
}

/// The channels' records that are looked at, and the DATA section if it is, end in the buffer.
proof fn lemma_channels_in_bounds(buf: Seq<u8>)
    ensures
        ({
            let header = file_header_at_start(buf);
            let head = head_section_at(buf, header.head_offset as int);
            let count = buf[header.head_offset + 8 + head.channel_data.val] as int;
            channels_in_bounds(buf) <==> {
                &&& forall|k: int|
                    0 <= k < count && parameters_found_below(buf, k) ==> #[trigger] channel_held(
                        buf,
                        k,
                    )
                &&& parameters_found_below(buf, count) ==> header.data_offset + 12 <= buf.len()
            }
        }),
{
    lemma_parameters_found(buf);
    assert forall|k: int| #[trigger] channel_held(buf, k) == channel_in_bounds(buf, k) by {}
    assert forall|k: int| #[trigger] channel_in_bounds(buf, k) == channel_held(buf, k) by {}
    assert forall|k: int| #[trigger] channels_complete(buf, k) == parameters_found_below(
        buf,
        k,
    ) by {}
    assert forall|k: int| #[trigger] parameters_found_below(buf, k) == channels_complete(
        buf,
        k,
    ) by {}
}

/// A file has to hold each record that is looked at: 40 bytes of header, 32 bytes of the HEAD
/// section, 52 bytes of stream description, four bytes of the channel table and eight more for each
/// channel, the records of the channels up to the first without decoder parameters, and 12 bytes of
/// the DATA section. Nothing is looked at behind the first error.
pub proof fn law_files_in_bounds(buf: Seq<u8>)
    ensures
        file_in_bounds(buf) <==> {
            let header = file_header_at_start(buf);
            let base = header.head_offset + 8;
            let head = head_section_at(buf, header.head_offset as int);
            let info = stream_info_at(buf, base + head.stream_data.val);
            let table = base + head.channel_data.val;
            let count = buf[table];
            let sized = header.magic_string@ == seq![0x52u8, 0x53, 0x54, 0x4d]
                && header.header_size == 64;
            let headed = sized && head.magic_string@ == seq![0x48u8, 0x45, 0x41, 0x44];
            let adpcm = headed && info.format == 2;
            let agreed = adpcm && count == info.channel_count;
            &&& 40 <= buf.len()
            &&& sized ==> header.head_offset + 32 <= buf.len()
            &&& headed ==> base + head.stream_data.val + 52 <= buf.len()
            &&& adpcm ==> table + 4 <= buf.len() && table + 4 + 8 * count <= buf.len()
            &&& agreed ==> forall|k: int|
                0 <= k < count && parameters_found_below(buf, k) ==> #[trigger] channel_held(buf, k)
            &&& agreed && parameters_found_below(buf, count as int) ==> header.data_offset + 12
                <= buf.len()
        },
{
    let header = file_header_at_start(buf);
    let head = head_section_at(buf, header.head_offset as int);
    law_parsed_file_header(buf);
    law_parsed_head_section(buf, header.head_offset as int);
    law_parsed_stream_info(buf, header.head_offset + 8 + head.stream_data.val);
    lemma_channels_in_bounds(buf);
}

/// The decoder parameters of the first `n` channels, as the references lead to them.
pub open spec fn parameters_listed(buf: Seq<u8>, n: nat) -> Seq<AdpcmParameters> {
    Seq::new(
        n,
        |k: int| adpcm_parameters_at(buf, be_u32(buf, 16) + 8 + parameters_found(buf, k).val),
    )
}

/// A file's audio is its section of audio data at the stream description's `actual_data_offset`,
/// with the decoder parameters that the channels refer to. The file can be decoded, or refused with
/// an error, if and only if its records lie in the buffer and, where no error is found, it has a
/// channel and that section can be decoded.
pub proof fn law_file_audio(buf: Seq<u8>)
    ensures
        ({
            let head = be_u32(buf, 16);
            let info = stream_info_at(
                buf,
                head + 8 + head_section_at(buf, head as int).stream_data.val,
            );
            let at = info.actual_data_offset as int;
            let params = parameters_listed(buf, info.channel_count as nat);
            &&& stream_info_of(buf) == info
            &&& file_samples(buf) == section_samples(buf, at, info, params)
            &&& file_decodable(buf) <==> {
                &&& file_in_bounds(buf)
                &&& file_error(buf) is None ==> info.channel_count > 0 && section_decodable(
                    buf,
                    at,
                    info,
                    params,
                )
            }
        }),
{
    let n = stream_info_of(buf).channel_count as nat;
    lemma_parameters_found(buf);
    assert(channel_parameters(buf, n) =~= parameters_listed(buf, n));
}

/// A WAV file has the channels and the sample rate of the stream, and 16 bits per sample.
pub proof fn law_wav_format(info: StreamInfo)
    ensures
        wav_format_of(info).channels == info.channel_count,
        wav_format_of(info).sample_rate == info.sample_rate,
        wav_format_of(info).bits_per_sample == 16,
{
}

/// The samples of a file are interleaved for as many channels as the WAV format gives: there are
/// that many times the samples of a channel, and the samples of one moment stand that far from
/// those of the next.
pub proof fn law_audio_channels(buf: Seq<u8>, ch: int, i: int)
    requires
        file_decodable(buf),
        file_error(buf) is None,
        0 <= ch < wav_format_of(stream_info_of(buf)).channels,
    ensures
        ({
            let count = wav_format_of(stream_info_of(buf)).channels;
            let lines = file_samples(buf);
            let audio = interleaved(lines);
            &&& lines.len() == count
            &&& audio.len() == count * lines[ch].len()
            &&& 0 <= i < lines[ch].len() ==> i * count + ch < audio.len() && audio[i * count + ch]
                == lines[ch][i]
        }),
{
    let info = stream_info_of(buf);
    let at = info.actual_data_offset as int;
    let params = channel_parameters(buf, info.channel_count as nat);
    law_channel_length(buf, at, info, params, 0);
    law_channel_length(buf, at, info, params, ch);
    if 0 <= i < file_samples(buf)[ch].len() {
        law_interleaved_sample(file_samples(buf), i, ch);
    }
}

} // verus!
