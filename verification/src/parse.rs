//! Parsers for the container's records.
//!
//! Each parser reads its whole record before it looks at the tag in it, so the record has to lie in
//! the buffer even where the parser ends in an error.

use vstd::prelude::*;

use crate::error::BrstmError;
use crate::records::{
    ADPCM_PARAMETERS_SIZE, AdpcmParameters, BrstmHeader, CHANNEL_TABLE_PREFIX, ChannelTable,
    DATA_REF_SIZE, DATA_SECTION_SIZE, DataRef, DataSection, FILE_HEADER_SIZE, HEAD_SECTION_SIZE,
    HeadSection, STREAM_INFO_SIZE, StreamInfo, adpcm_parameters_at, coefficient_pair_at,
    data_ref_at, data_refs_at, data_section_at, file_header_at_start, head_section_at,
    is_channel_table_at, stream_info_at,
};
use crate::util::{read_i16, read_magic, read_u16, read_u24, read_u32, read_u8};

verus! {

/// "RSTM".
pub const FILE_MAGIC: [u8; 4] = [0x52, 0x53, 0x54, 0x4d];

/// "HEAD".
pub const HEAD_MAGIC: [u8; 4] = [0x48, 0x45, 0x41, 0x44];

/// "DATA".
pub const DATA_MAGIC: [u8; 4] = [0x44, 0x41, 0x54, 0x41];

/// The header size that a file header has to give.
pub const HEADER_SIZE: u16 = 0x40;

/// The format byte of ADPCM audio.
pub const FORMAT_ADPCM: u8 = 2;

/// What [`parse_file_header`] returns.
pub open spec fn parsed_file_header(buf: Seq<u8>) -> Result<BrstmHeader, BrstmError> {
    let header = file_header_at_start(buf);
    if header.magic_string != FILE_MAGIC {
        Err(BrstmError::BadFileMagic { magic: header.magic_string })
    } else if header.header_size != HEADER_SIZE {
        Err(BrstmError::BadHeaderSize { size: header.header_size })
    } else {
        Ok(header)
    }
}

/// What [`parse_head_section`] returns.
pub open spec fn parsed_head_section(buf: Seq<u8>, at: int) -> Result<HeadSection, BrstmError> {
    let section = head_section_at(buf, at);
    if section.magic_string != HEAD_MAGIC {
        Err(BrstmError::BadHeadMagic { magic: section.magic_string })
    } else {
        Ok(section)
    }
}

/// What [`parse_stream_info`] returns.
pub open spec fn parsed_stream_info(buf: Seq<u8>, at: int) -> Result<StreamInfo, BrstmError> {
    let info = stream_info_at(buf, at);
    if info.format != FORMAT_ADPCM {
        Err(BrstmError::UnsupportedFormat { format: info.format })
    } else {
        Ok(info)
    }
}

/// What [`parse_data_section`] returns.
pub open spec fn parsed_data_section(buf: Seq<u8>, at: int) -> Result<DataSection, BrstmError> {
    let section = data_section_at(buf, at);
    if section.magic_string != DATA_MAGIC {
        Err(BrstmError::BadDataMagic { magic: section.magic_string })
    } else {
        Ok(section)
    }
}

/// Whether two tags are the same.
fn same_magic(a: &[u8; 4], b: &[u8; 4]) -> (same: bool)
    ensures
        same == (*a == *b),
{
    let same: bool = a[0] == b[0] && a[1] == b[1] && a[2] == b[2] && a[3] == b[3];
    assert(same ==> *a =~= *b);
    same
}

/// Parses a reference and moves `offset` past it.
pub fn parse_data_ref(buf: &[u8], offset: &mut usize) -> (data_ref: DataRef)
    requires
        *old(offset) + DATA_REF_SIZE <= buf@.len(),
    ensures
        data_ref == data_ref_at(buf@, *old(offset) as int),
        *final(offset) == *old(offset) + DATA_REF_SIZE,
        *final(offset) == *old(offset) + 8,
{
    DataRef {
        ref_type: read_u8(buf, offset),
        data_type: read_u8(buf, offset),
        reserved: read_u16(buf, offset),
        val: read_u32(buf, offset),
    }
}

/// Parses the header at the start of a file.
pub fn parse_file_header(buf: &[u8]) -> (parsed: Result<BrstmHeader, BrstmError>)
    requires
        FILE_HEADER_SIZE <= buf@.len(),
    ensures
        parsed == parsed_file_header(buf@),
{
    let mut offset: usize = 0;
    let header = BrstmHeader {
        magic_string: read_magic(buf, &mut offset),
        byte_order_mark: read_u16(buf, &mut offset),
        version: read_u16(buf, &mut offset),
        file_size: read_u32(buf, &mut offset),
        header_size: read_u16(buf, &mut offset),
        section_count: read_u16(buf, &mut offset),
        head_offset: read_u32(buf, &mut offset),
        head_size: read_u32(buf, &mut offset),
        adpc_offset: read_u32(buf, &mut offset),
        adpc_size: read_u32(buf, &mut offset),
        data_offset: read_u32(buf, &mut offset),
        data_size: read_u32(buf, &mut offset),
    };
    if !same_magic(&header.magic_string, &FILE_MAGIC) {
        return Err(BrstmError::BadFileMagic { magic: header.magic_string });
    }
    if header.header_size != HEADER_SIZE {
        return Err(BrstmError::BadHeaderSize { size: header.header_size });
    }
    Ok(header)
}

/// Parses the start of the HEAD section.
pub fn parse_head_section(buf: &[u8], head_offset: usize) -> (parsed: Result<
    HeadSection,
    BrstmError,
>)
    requires
        head_offset + HEAD_SECTION_SIZE <= buf@.len(),
    ensures
        parsed == parsed_head_section(buf@, head_offset as int),
{
    let mut offset: usize = head_offset;
    let section = HeadSection {
        magic_string: read_magic(buf, &mut offset),
        size: read_u32(buf, &mut offset),
        stream_data: parse_data_ref(buf, &mut offset),
        track_table: parse_data_ref(buf, &mut offset),
        channel_data: parse_data_ref(buf, &mut offset),
    };
    if !same_magic(&section.magic_string, &HEAD_MAGIC) {
        return Err(BrstmError::BadHeadMagic { magic: section.magic_string });
    }
    Ok(section)
}

/// Parses the stream description.
pub fn parse_stream_info(buf: &[u8], offset: usize) -> (parsed: Result<StreamInfo, BrstmError>)
    requires
        offset + STREAM_INFO_SIZE <= buf@.len(),
    ensures
        parsed == parsed_stream_info(buf@, offset as int),
{
    let mut offset: usize = offset;
    let info = StreamInfo {
        format: read_u8(buf, &mut offset),
        loop_flag: read_u8(buf, &mut offset),
        channel_count: read_u8(buf, &mut offset),
        sample_rate: read_u24(buf, &mut offset),
        unknown_0x06: read_u16(buf, &mut offset),
        loop_start_sample: read_u32(buf, &mut offset),
        loop_end_sample: read_u32(buf, &mut offset),
        actual_data_offset: read_u32(buf, &mut offset),
        block_count: read_u32(buf, &mut offset),
        block_size: read_u32(buf, &mut offset),
        block_samples: read_u32(buf, &mut offset),
        final_block_size: read_u32(buf, &mut offset),
        final_block_samples: read_u32(buf, &mut offset),
        final_block_size_padded: read_u32(buf, &mut offset),
        adpc_interval: read_u32(buf, &mut offset),
        adpc_bytes_per_interval: read_u32(buf, &mut offset),
    };
    if info.format != FORMAT_ADPCM {
        return Err(BrstmError::UnsupportedFormat { format: info.format });
    }
    Ok(info)
}

/// Parses the channel table.
pub fn parse_channel_table(buf: &[u8], offset: usize) -> (table: ChannelTable)
    requires
        offset + CHANNEL_TABLE_PREFIX <= buf@.len(),
        offset + CHANNEL_TABLE_PREFIX + DATA_REF_SIZE * buf@[offset as int] <= buf@.len(),
    ensures
        is_channel_table_at(table, buf@, offset as int),
{
    let ghost start = offset as int;
    let mut offset: usize = offset;
    let channel_count: u8 = read_u8(buf, &mut offset);
    let padding: [u8; 3] = [
        read_u8(buf, &mut offset),
        read_u8(buf, &mut offset),
        read_u8(buf, &mut offset),
    ];
    let mut channel_refs: Vec<DataRef> = Vec::new();
    while channel_refs.len() < channel_count as usize
        invariant
            channel_refs@.len() <= channel_count,
            offset == start + CHANNEL_TABLE_PREFIX + DATA_REF_SIZE * channel_refs@.len(),
            start + CHANNEL_TABLE_PREFIX + DATA_REF_SIZE * channel_count <= buf@.len(),
            channel_refs@ == data_refs_at(
                buf@,
                start + CHANNEL_TABLE_PREFIX,
                channel_refs@.len(),
            ),
        decreases channel_count - channel_refs.len(),
    {
        let ghost before = channel_refs@;
        channel_refs.push(parse_data_ref(buf, &mut offset));
        assert(channel_refs@ =~= data_refs_at(
            buf@,
            start + CHANNEL_TABLE_PREFIX,
            before.len() + 1,
        ));
    }
    ChannelTable { channel_count, padding, channel_refs }
}

/// Parses the decoder parameters of one channel.
pub fn parse_adpcm_parameters(buf: &[u8], offset: usize) -> (params: AdpcmParameters)
    requires
        offset + ADPCM_PARAMETERS_SIZE <= buf@.len(),
    ensures
        params == adpcm_parameters_at(buf@, offset as int),
{
    let ghost start = offset as int;
    let mut offset: usize = offset;
    let mut coefficients: [[i16; 2]; 8] = [[0i16; 2]; 8];
    let mut i: usize = 0;
    while i < 8
        invariant
            i <= 8,
            offset == start + 4 * i,
            start + ADPCM_PARAMETERS_SIZE <= buf@.len(),
            forall|k: int|
                0 <= k < i ==> #[trigger] coefficients@[k] == coefficient_pair_at(
                    buf@,
                    start + 4 * k,
                ),
        decreases 8 - i,
    {
        coefficients[i] = [read_i16(buf, &mut offset), read_i16(buf, &mut offset)];
        i += 1;
    }
    assert(coefficients =~= adpcm_parameters_at(buf@, start).coefficients);
    AdpcmParameters {
        coefficients,
        gain: read_u16(buf, &mut offset),
        predictor_scale: read_u16(buf, &mut offset),
        yn1: read_i16(buf, &mut offset),
        yn2: read_i16(buf, &mut offset),
        loop_predictor_scale: read_u16(buf, &mut offset),
        loop_yn1: read_i16(buf, &mut offset),
        loop_yn2: read_i16(buf, &mut offset),
    }
}

/// Parses the start of the DATA section.
pub fn parse_data_section(buf: &[u8], offset: usize) -> (parsed: Result<DataSection, BrstmError>)
    requires
        offset + DATA_SECTION_SIZE <= buf@.len(),
    ensures
        parsed == parsed_data_section(buf@, offset as int),
{
    let mut offset: usize = offset;
    let section = DataSection {
        magic_string: read_magic(buf, &mut offset),
        size: read_u32(buf, &mut offset),
        offset_to_data: read_u32(buf, &mut offset),
    };
    if !same_magic(&section.magic_string, &DATA_MAGIC) {
        return Err(BrstmError::BadDataMagic { magic: section.magic_string });
    }
    Ok(section)
}

} // verus!
