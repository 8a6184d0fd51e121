//! The records of the container, and the bytes that each of them is read from.

use vstd::prelude::*;

use crate::util::{be_i16, be_u16, be_u24, be_u32, magic_at};

verus! {

/// A typed reference: `val` is an offset whose base depends on where the reference stands.
#[derive(Debug, Clone, Copy, PartialEq, Eq)]
pub struct DataRef {
    pub ref_type: u8,
    pub data_type: u8,
    pub reserved: u16,
    pub val: u32,
}

/// The header at the start of the file.
#[derive(Debug, Clone, Copy, PartialEq, Eq)]
pub struct BrstmHeader {
    /// Always "RSTM".
    pub magic_string: [u8; 4],
    /// Always 0xFEFF: the file is big-endian.
    pub byte_order_mark: u16,
    /// Always 0x0100.
    pub version: u16,
    pub file_size: u32,
    /// Always 0x40.
    pub header_size: u16,
    pub section_count: u16,
    pub head_offset: u32,
    pub head_size: u32,
    pub adpc_offset: u32,
    pub adpc_size: u32,
    pub data_offset: u32,
    pub data_size: u32,
}

/// The start of the HEAD section.
#[derive(Debug, Clone, Copy, PartialEq, Eq)]
pub struct HeadSection {
    /// Always "HEAD".
    pub magic_string: [u8; 4],
    pub size: u32,
    pub stream_data: DataRef,
    pub track_table: DataRef,
    pub channel_data: DataRef,
}

/// How the audio is encoded, and how it is cut into blocks.
#[derive(Debug, Clone, Copy, PartialEq, Eq)]
pub struct StreamInfo {
    /// 0 is PCM8, 1 is PCM16, 2 is ADPCM. Only ADPCM is supported.
    pub format: u8,
    pub loop_flag: u8,
    pub channel_count: u8,
    /// A 24-bit number in the file.
    pub sample_rate: u32,
    pub unknown_0x06: u16,
    pub loop_start_sample: u32,
    pub loop_end_sample: u32,
    /// The offset of the first audio byte from the start of the file, not of the DATA section.
    pub actual_data_offset: u32,
    pub block_count: u32,
    pub block_size: u32,
    pub block_samples: u32,
    pub final_block_size: u32,
    pub final_block_samples: u32,
    pub final_block_size_padded: u32,
    /// The number of samples between two entries of decoder history in the ADPC section.
    pub adpc_interval: u32,
    /// The bytes that such an entry takes for each channel.
    pub adpc_bytes_per_interval: u32,
}

/// The table that refers to each channel's description.
#[derive(Debug, PartialEq, Eq)]
pub struct ChannelTable {
    pub channel_count: u8,
    pub padding: [u8; 3],
    pub channel_refs: Vec<DataRef>,
}

/// The decoder parameters of one channel.
#[derive(Debug, Clone, Copy, PartialEq, Eq)]
pub struct AdpcmParameters {
    /// Eight pairs, of which each frame of audio chooses one.
    pub coefficients: [[i16; 2]; 8],
    pub gain: u16,
    pub predictor_scale: u16,
    /// The sample before the first.
    pub yn1: i16,
    /// The sample before that.
    pub yn2: i16,
    pub loop_predictor_scale: u16,
    pub loop_yn1: i16,
    pub loop_yn2: i16,
}

/// The start of the DATA section.
#[derive(Debug, Clone, Copy, PartialEq, Eq)]
pub struct DataSection {
    /// Always "DATA".
    pub magic_string: [u8; 4],
    pub size: u32,
    pub offset_to_data: u32,
}

/// The decoded samples of each channel.
#[derive(Debug, PartialEq, Eq)]
pub struct DecodedSampleData {
    pub samples: Vec<Vec<i16>>,
}

impl View for DecodedSampleData {
    type V = Seq<Seq<i16>>;

    open spec fn view(&self) -> Seq<Seq<i16>> {
        Seq::new(self.samples@.len(), |ch: int| self.samples@[ch]@)
    }
}

/// Number of bytes in a [`DataRef`].
pub const DATA_REF_SIZE: usize = 8;

/// Number of bytes that a [`BrstmHeader`] is read from.
pub const FILE_HEADER_SIZE: usize = 40;

/// Number of bytes that a [`HeadSection`] is read from.
pub const HEAD_SECTION_SIZE: usize = 32;

/// Number of bytes in a [`StreamInfo`].
pub const STREAM_INFO_SIZE: usize = 52;

/// Number of bytes in a [`ChannelTable`] before its references.
pub const CHANNEL_TABLE_PREFIX: usize = 4;

/// Number of bytes in an [`AdpcmParameters`].
pub const ADPCM_PARAMETERS_SIZE: usize = 46;

/// Number of bytes that a [`DataSection`] is read from.
pub const DATA_SECTION_SIZE: usize = 12;

/// The reference at `at`.
pub open spec fn data_ref_at(buf: Seq<u8>, at: int) -> DataRef {
    DataRef {
        ref_type: buf[at],
        data_type: buf[at + 1],
        reserved: be_u16(buf, at + 2),
        val: be_u32(buf, at + 4),
    }
}

/// The file header, which stands at the start of the buffer.
pub open spec fn file_header_at_start(buf: Seq<u8>) -> BrstmHeader {
    BrstmHeader {
        magic_string: magic_at(buf, 0),
        byte_order_mark: be_u16(buf, 4),
        version: be_u16(buf, 6),
        file_size: be_u32(buf, 8),
        header_size: be_u16(buf, 12),
        section_count: be_u16(buf, 14),
        head_offset: be_u32(buf, 16),
        head_size: be_u32(buf, 20),
        adpc_offset: be_u32(buf, 24),
        adpc_size: be_u32(buf, 28),
        data_offset: be_u32(buf, 32),
        data_size: be_u32(buf, 36),
    }
}

/// The HEAD section at `at`.
pub open spec fn head_section_at(buf: Seq<u8>, at: int) -> HeadSection {
    HeadSection {
        magic_string: magic_at(buf, at),
        size: be_u32(buf, at + 4),
        stream_data: data_ref_at(buf, at + 8),
        track_table: data_ref_at(buf, at + 16),
        channel_data: data_ref_at(buf, at + 24),
    }
}

/// The stream description at `at`.
pub open spec fn stream_info_at(buf: Seq<u8>, at: int) -> StreamInfo {
    StreamInfo {
        format: buf[at],
        loop_flag: buf[at + 1],
        channel_count: buf[at + 2],
        sample_rate: be_u24(buf, at + 3),
        unknown_0x06: be_u16(buf, at + 6),
        loop_start_sample: be_u32(buf, at + 8),
        loop_end_sample: be_u32(buf, at + 12),
        actual_data_offset: be_u32(buf, at + 16),
        block_count: be_u32(buf, at + 20),
        block_size: be_u32(buf, at + 24),
        block_samples: be_u32(buf, at + 28),
        final_block_size: be_u32(buf, at + 32),
        final_block_samples: be_u32(buf, at + 36),
        final_block_size_padded: be_u32(buf, at + 40),
        adpc_interval: be_u32(buf, at + 44),
        adpc_bytes_per_interval: be_u32(buf, at + 48),
    }
}

/// The `n` references that stand one behind the other from `at` on.
pub open spec fn data_refs_at(buf: Seq<u8>, at: int, n: nat) -> Seq<DataRef> {
    Seq::new(n, |k: int| data_ref_at(buf, at + DATA_REF_SIZE * k))
}

/// `table` is the channel table at `at`: a count, three bytes of padding, then as many references.
pub open spec fn is_channel_table_at(table: ChannelTable, buf: Seq<u8>, at: int) -> bool {
    &&& table.channel_count == buf[at]
    &&& table.padding == [buf[at + 1], buf[at + 2], buf[at + 3]]
    &&& table.channel_refs@ == data_refs_at(buf, at + CHANNEL_TABLE_PREFIX, buf[at] as nat)
}

/// The pair of prediction coefficients at `at`.
pub open spec fn coefficient_pair_at(buf: Seq<u8>, at: int) -> [i16; 2] {
    [be_i16(buf, at), be_i16(buf, at + 2)]
}

/// The decoder parameters at `at`.
pub open spec fn adpcm_parameters_at(buf: Seq<u8>, at: int) -> AdpcmParameters {
    AdpcmParameters {
        coefficients: [
            coefficient_pair_at(buf, at),
            coefficient_pair_at(buf, at + 4),
            coefficient_pair_at(buf, at + 8),
            coefficient_pair_at(buf, at + 12),
            coefficient_pair_at(buf, at + 16),
            coefficient_pair_at(buf, at + 20),
            coefficient_pair_at(buf, at + 24),
            coefficient_pair_at(buf, at + 28),
        ],
        gain: be_u16(buf, at + 32),
        predictor_scale: be_u16(buf, at + 34),
        yn1: be_i16(buf, at + 36),
        yn2: be_i16(buf, at + 38),
        loop_predictor_scale: be_u16(buf, at + 40),
        loop_yn1: be_i16(buf, at + 42),
        loop_yn2: be_i16(buf, at + 44),
    }
}

/// The DATA section at `at`.
pub open spec fn data_section_at(buf: Seq<u8>, at: int) -> DataSection {
    DataSection {
        magic_string: magic_at(buf, at),
        size: be_u32(buf, at + 4),
        offset_to_data: be_u32(buf, at + 8),
    }
}

} // verus!
