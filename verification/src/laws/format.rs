//! What the readers, the records and the messages say of their bytes.

use vstd::prelude::*;

use crate::error::{BrstmError, bytes_text, digit_text, number_text};
use crate::laws::law_u32_is_two_u16;
use crate::records::{
    AdpcmParameters, BrstmHeader, ChannelTable, DataRef, DataSection, DecodedSampleData,
    HeadSection, StreamInfo, adpcm_parameters_at, coefficient_pair_at, data_ref_at,
    data_section_at, file_header_at_start, head_section_at, is_channel_table_at, stream_info_at,
};
use crate::util::{be_i16, be_u16, be_u24, be_u32, magic_at};

verus! {

/// The two bytes that an unsigned 16-bit number is written as.
pub open spec fn u16_bytes(v: u16) -> Seq<u8> {
    seq![(v / 0x100) as u8, (v % 0x100) as u8]
}

/// The two bytes that a signed 16-bit number is written as.
pub open spec fn i16_bytes(v: i16) -> Seq<u8> {
    u16_bytes((v as int % 0x1_0000) as u16)
}

/// The three bytes that a number below 2 to the 24 is written as.
pub open spec fn u24_bytes(v: u32) -> Seq<u8> {
    seq![(v / 0x1_0000) as u8, (v / 0x100 % 0x100) as u8, (v % 0x100) as u8]
}

/// The four bytes that an unsigned 32-bit number is written as.
pub open spec fn u32_bytes(v: u32) -> Seq<u8> {
    seq![
        (v / 0x100_0000) as u8,
        (v / 0x1_0000 % 0x100) as u8,
        (v / 0x100 % 0x100) as u8,
        (v % 0x100) as u8,
    ]
}

/// Reading gives back what was written, and tells any two numbers apart.
pub proof fn law_u16_read_back(buf: Seq<u8>, at: int, v: u16)
    requires
        0 <= at,
        at + 2 <= buf.len(),
    ensures
        be_u16(buf, at) == v <==> buf.subrange(at, at + 2) == u16_bytes(v),
{
    if be_u16(buf, at) == v {
        assert(buf.subrange(at, at + 2) =~= u16_bytes(v));
    }
    if buf.subrange(at, at + 2) == u16_bytes(v) {
        assert(buf[at] == u16_bytes(v)[0] && buf[at + 1] == u16_bytes(v)[1]) by {
            assert(buf.subrange(at, at + 2)[0] == buf[at]);
            assert(buf.subrange(at, at + 2)[1] == buf[at + 1]);
        }
    }
}

/// Reading gives back what was written, and tells any two numbers apart.
pub proof fn law_i16_read_back(buf: Seq<u8>, at: int, v: i16)
    requires
        0 <= at,
        at + 2 <= buf.len(),
    ensures
        be_i16(buf, at) == v <==> buf.subrange(at, at + 2) == i16_bytes(v),
{
    law_u16_read_back(buf, at, (v as int % 0x1_0000) as u16);
}

/// Reading gives back what was written, and tells any two numbers apart.
pub proof fn law_u24_read_back(buf: Seq<u8>, at: int, v: u32)
    requires
        0 <= at,
        at + 3 <= buf.len(),
        v < 0x100_0000,
    ensures
        be_u24(buf, at) == v <==> buf.subrange(at, at + 3) == u24_bytes(v),
{
    if be_u24(buf, at) == v {
        assert(v / 0x1_0000 == buf[at]);
        assert(v % 0x1_0000 == buf[at + 1] * 0x100 + buf[at + 2]);
        assert(v / 0x100 == buf[at] * 0x100 + buf[at + 1]);
        assert(buf.subrange(at, at + 3) =~= u24_bytes(v));
    }
    if buf.subrange(at, at + 3) == u24_bytes(v) {
        assert(buf[at] == v / 0x1_0000 && buf[at + 1] == v / 0x100 % 0x100 && buf[at + 2] == v
            % 0x100) by {
            assert(buf.subrange(at, at + 3)[0] == buf[at]);
            assert(buf.subrange(at, at + 3)[1] == buf[at + 1]);
            assert(buf.subrange(at, at + 3)[2] == buf[at + 2]);
        }
        assert(v / 0x100 / 0x100 == v / 0x1_0000);
    }
}

/// A 32-bit number is written as its upper half and its lower half.
proof fn lemma_u32_bytes_split(v: u32)
    ensures
        u32_bytes(v) == u16_bytes((v / 0x1_0000) as u16) + u16_bytes((v % 0x1_0000) as u16),
{
    let high = (v / 0x1_0000) as u16;
    let low = (v % 0x1_0000) as u16;
    assert(high / 0x100 == v / 0x100_0000 && high % 0x100 == v / 0x1_0000 % 0x100);
    assert(low / 0x100 == v / 0x100 % 0x100 && low % 0x100 == v % 0x100);
    assert(u32_bytes(v) =~= u16_bytes(high) + u16_bytes(low));
}

/// Two pairs of bytes are the same if both pairs are.
proof fn lemma_pairs_of_bytes(buf: Seq<u8>, at: int, first: Seq<u8>, second: Seq<u8>)
    requires
        0 <= at,
        at + 4 <= buf.len(),
        first.len() == 2,
        second.len() == 2,
    ensures
        buf.subrange(at, at + 4) == first + second <==> buf.subrange(at, at + 2) == first
            && buf.subrange(at + 2, at + 4) == second,
{
    let whole = buf.subrange(at, at + 4);
    assert(whole =~= buf.subrange(at, at + 2) + buf.subrange(at + 2, at + 4));
    assert(buf.subrange(at, at + 2) =~= whole.subrange(0, 2));
    assert(buf.subrange(at + 2, at + 4) =~= whole.subrange(2, 4));
    assert(first =~= (first + second).subrange(0, 2));
    assert(second =~= (first + second).subrange(2, 4));
}

/// A number of two halves determines both.
proof fn lemma_u32_halves(high: u16, low: u16, v: u32)
    ensures
        high * 0x1_0000 + low == v <==> high == v / 0x1_0000 && low == v % 0x1_0000,
{
}

/// Reading gives back what was written, and tells any two numbers apart.
pub proof fn law_u32_read_back(buf: Seq<u8>, at: int, v: u32)
    requires
        0 <= at,
        at + 4 <= buf.len(),
    ensures
        be_u32(buf, at) == v <==> buf.subrange(at, at + 4) == u32_bytes(v),
{
    let high = (v / 0x1_0000) as u16;
    let low = (v % 0x1_0000) as u16;
    law_u16_read_back(buf, at, high);
    law_u16_read_back(buf, at + 2, low);
    law_u32_is_two_u16(buf, at);
    lemma_u32_halves(be_u16(buf, at), be_u16(buf, at + 2), v);
    lemma_u32_bytes_split(v);
    lemma_pairs_of_bytes(buf, at, u16_bytes(high), u16_bytes(low));
}

/// A tag is the four bytes that it is read from.
pub proof fn law_magic_read_back(buf: Seq<u8>, at: int, tag: [u8; 4])
    requires
        0 <= at,
        at + 4 <= buf.len(),
    ensures
        magic_at(buf, at) == tag <==> buf.subrange(at, at + 4) == tag@,
{
    let read = magic_at(buf, at);
    assert(read@[0] == buf[at] && read@[1] == buf[at + 1] && read@[2] == buf[at + 2] && read@[3]
        == buf[at + 3]);
    assert(read@ =~= buf.subrange(at, at + 4));
    if read@ == tag@ {
        assert forall|i: int| 0 <= i < 4 implies read[i] == tag[i] by {
            assert(read@[i] == tag@[i]);
        }
        assert(read =~= tag);
    }
}

/// A reference reads back from its fields, written one behind the other.
pub proof fn law_data_ref_read_back(buf: Seq<u8>, at: int, r: DataRef)
    requires
        0 <= at,
        at + 8 <= buf.len(),
        buf[at] == r.ref_type,
        buf[at + 1] == r.data_type,
        buf.subrange(at + 2, at + 4) == u16_bytes(r.reserved),
        buf.subrange(at + 4, at + 8) == u32_bytes(r.val),
    ensures
        data_ref_at(buf, at) == r,
{
    law_u16_read_back(buf, at + 2, r.reserved);
    law_u32_read_back(buf, at + 4, r.val);
}

/// A file header reads back from its fields, written one behind the other.
pub proof fn law_file_header_read_back(buf: Seq<u8>, h: BrstmHeader)
    requires
        40 <= buf.len(),
        buf.subrange(0, 4) == h.magic_string@,
        buf.subrange(4, 6) == u16_bytes(h.byte_order_mark),
        buf.subrange(6, 8) == u16_bytes(h.version),
        buf.subrange(8, 12) == u32_bytes(h.file_size),
        buf.subrange(12, 14) == u16_bytes(h.header_size),
        buf.subrange(14, 16) == u16_bytes(h.section_count),
        buf.subrange(16, 20) == u32_bytes(h.head_offset),
        buf.subrange(20, 24) == u32_bytes(h.head_size),
        buf.subrange(24, 28) == u32_bytes(h.adpc_offset),
        buf.subrange(28, 32) == u32_bytes(h.adpc_size),
        buf.subrange(32, 36) == u32_bytes(h.data_offset),
        buf.subrange(36, 40) == u32_bytes(h.data_size),
    ensures
        file_header_at_start(buf) == h,
{
    law_magic_read_back(buf, 0, h.magic_string);
    law_u16_read_back(buf, 4, h.byte_order_mark);
    law_u16_read_back(buf, 6, h.version);
    law_u32_read_back(buf, 8, h.file_size);
    law_u16_read_back(buf, 12, h.header_size);
    law_u16_read_back(buf, 14, h.section_count);
    law_u32_read_back(buf, 16, h.head_offset);
    law_u32_read_back(buf, 20, h.head_size);
    law_u32_read_back(buf, 24, h.adpc_offset);
    law_u32_read_back(buf, 28, h.adpc_size);
    law_u32_read_back(buf, 32, h.data_offset);
    law_u32_read_back(buf, 36, h.data_size);
}

/// A HEAD section reads back from its fields, written one behind the other.
pub proof fn law_head_section_read_back(buf: Seq<u8>, at: int, h: HeadSection)
    requires
        0 <= at,
        at + 32 <= buf.len(),
        buf.subrange(at, at + 4) == h.magic_string@,
        buf.subrange(at + 4, at + 8) == u32_bytes(h.size),
        data_ref_at(buf, at + 8) == h.stream_data,
        data_ref_at(buf, at + 16) == h.track_table,
        data_ref_at(buf, at + 24) == h.channel_data,
    ensures
        head_section_at(buf, at) == h,
{
    law_magic_read_back(buf, at, h.magic_string);
    law_u32_read_back(buf, at + 4, h.size);
}

/// A stream description reads back from its fields, written one behind the other.
pub proof fn law_stream_info_read_back(buf: Seq<u8>, at: int, info: StreamInfo)
    requires
        0 <= at,
        at + 52 <= buf.len(),
        info.sample_rate < 0x100_0000,
        buf[at] == info.format,
        buf[at + 1] == info.loop_flag,
        buf[at + 2] == info.channel_count,
        buf.subrange(at + 3, at + 6) == u24_bytes(info.sample_rate),
        buf.subrange(at + 6, at + 8) == u16_bytes(info.unknown_0x06),
        buf.subrange(at + 8, at + 12) == u32_bytes(info.loop_start_sample),
        buf.subrange(at + 12, at + 16) == u32_bytes(info.loop_end_sample),
        buf.subrange(at + 16, at + 20) == u32_bytes(info.actual_data_offset),
        buf.subrange(at + 20, at + 24) == u32_bytes(info.block_count),
        buf.subrange(at + 24, at + 28) == u32_bytes(info.block_size),
        buf.subrange(at + 28, at + 32) == u32_bytes(info.block_samples),
        buf.subrange(at + 32, at + 36) == u32_bytes(info.final_block_size),
        buf.subrange(at + 36, at + 40) == u32_bytes(info.final_block_samples),
        buf.subrange(at + 40, at + 44) == u32_bytes(info.final_block_size_padded),
        buf.subrange(at + 44, at + 48) == u32_bytes(info.adpc_interval),
        buf.subrange(at + 48, at + 52) == u32_bytes(info.adpc_bytes_per_interval),
    ensures
        stream_info_at(buf, at) == info,
{
    law_u24_read_back(buf, at + 3, info.sample_rate);
    law_u16_read_back(buf, at + 6, info.unknown_0x06);
    law_u32_read_back(buf, at + 8, info.loop_start_sample);
    law_u32_read_back(buf, at + 12, info.loop_end_sample);
    law_u32_read_back(buf, at + 16, info.actual_data_offset);
    law_u32_read_back(buf, at + 20, info.block_count);
    law_u32_read_back(buf, at + 24, info.block_size);
    law_u32_read_back(buf, at + 28, info.block_samples);
    law_u32_read_back(buf, at + 32, info.final_block_size);
    law_u32_read_back(buf, at + 36, info.final_block_samples);
    law_u32_read_back(buf, at + 40, info.final_block_size_padded);
    law_u32_read_back(buf, at + 44, info.adpc_interval);
    law_u32_read_back(buf, at + 48, info.adpc_bytes_per_interval);
}

/// A DATA section reads back from its fields, written one behind the other.
pub proof fn law_data_section_read_back(buf: Seq<u8>, at: int, d: DataSection)
    requires
        0 <= at,
        at + 12 <= buf.len(),
        buf.subrange(at, at + 4) == d.magic_string@,
        buf.subrange(at + 4, at + 8) == u32_bytes(d.size),
        buf.subrange(at + 8, at + 12) == u32_bytes(d.offset_to_data),
    ensures
        data_section_at(buf, at) == d,
{
    law_magic_read_back(buf, at, d.magic_string);
    law_u32_read_back(buf, at + 4, d.size);
    law_u32_read_back(buf, at + 8, d.offset_to_data);
}

/// Decoder parameters read back from their fields, written one behind the other: eight pairs of
/// coefficients, then seven numbers.
pub proof fn law_adpcm_parameters_read_back(buf: Seq<u8>, at: int, p: AdpcmParameters)
    requires
        0 <= at,
        at + 46 <= buf.len(),
        forall|i: int|
            0 <= i < 8 ==> buf.subrange(at + 4 * i, at + 4 * i + 4) == i16_bytes(
                (#[trigger] p.coefficients[i])[0],
            ) + i16_bytes(p.coefficients[i][1]),
        buf.subrange(at + 32, at + 34) == u16_bytes(p.gain),
        buf.subrange(at + 34, at + 36) == u16_bytes(p.predictor_scale),
        buf.subrange(at + 36, at + 38) == i16_bytes(p.yn1),
        buf.subrange(at + 38, at + 40) == i16_bytes(p.yn2),
        buf.subrange(at + 40, at + 42) == u16_bytes(p.loop_predictor_scale),
        buf.subrange(at + 42, at + 44) == i16_bytes(p.loop_yn1),
        buf.subrange(at + 44, at + 46) == i16_bytes(p.loop_yn2),
    ensures
        adpcm_parameters_at(buf, at) == p,
{
    let read = adpcm_parameters_at(buf, at);
    assert forall|i: int| 0 <= i < 8 implies read.coefficients[i] == p.coefficients[i] by {
        let here = buf.subrange(at + 4 * i, at + 4 * i + 4);
        let pair = p.coefficients[i];
        assert(buf.subrange(at + 4 * i, at + 4 * i + 2) =~= here.subrange(0, 2));
        assert(buf.subrange(at + 4 * i + 2, at + 4 * i + 4) =~= here.subrange(2, 4));
        assert(i16_bytes(pair[0]) =~= (i16_bytes(pair[0]) + i16_bytes(pair[1])).subrange(0, 2));
        assert(i16_bytes(pair[1]) =~= (i16_bytes(pair[0]) + i16_bytes(pair[1])).subrange(2, 4));
        law_i16_read_back(buf, at + 4 * i, pair[0]);
        law_i16_read_back(buf, at + 4 * i + 2, pair[1]);
        lemma_pair_of(buf, at, i);
        assert(read.coefficients[i] =~= pair);
    }
    assert(read.coefficients =~= p.coefficients);
    law_u16_read_back(buf, at + 32, p.gain);
    law_u16_read_back(buf, at + 34, p.predictor_scale);
    law_i16_read_back(buf, at + 36, p.yn1);
    law_i16_read_back(buf, at + 38, p.yn2);
    law_u16_read_back(buf, at + 40, p.loop_predictor_scale);
    law_i16_read_back(buf, at + 42, p.loop_yn1);
    law_i16_read_back(buf, at + 44, p.loop_yn2);
}

/// Where each pair of coefficients stands.
proof fn lemma_pair_of(buf: Seq<u8>, at: int, i: int)
    requires
        0 <= i < 8,
    ensures
        adpcm_parameters_at(buf, at).coefficients[i] == coefficient_pair_at(buf, at + 4 * i),
{
    assert(i == 0 || i == 1 || i == 2 || i == 3 || i == 4 || i == 5 || i == 6 || i == 7);
}

/// A channel table is a count, three bytes of padding, and as many references as it counts.
pub proof fn law_channel_table_fields(table: ChannelTable, buf: Seq<u8>, at: int)
    requires
        is_channel_table_at(table, buf, at),
    ensures
        table.channel_count == buf[at],
        table.padding[0] == buf[at + 1],
        table.padding[1] == buf[at + 2],
        table.padding[2] == buf[at + 3],
        table.channel_refs@.len() == table.channel_count,
        forall|k: int|
            0 <= k < table.channel_count ==> #[trigger] table.channel_refs@[k] == data_ref_at(
                buf,
                at + 4 + 8 * k,
            ),
{
}

/// The view of decoded samples has each channel's samples in the place of the channel.
pub proof fn law_decoded_view(decoded: DecodedSampleData)
    ensures
        decoded@.len() == decoded.samples@.len(),
        forall|ch: int|
            0 <= ch < decoded.samples@.len() ==> #[trigger] decoded@[ch] == decoded.samples@[ch]@,
{
}

/// A digit is the character of its value: from '0' up to nine, from 'a' above.
pub proof fn law_digits(d: int)
    requires
        0 <= d < 16,
    ensures
        digit_text(d) == seq![
            (if d < 10 {
                0x30 + d
            } else {
                0x61 + (d - 10)
            }) as char,
        ],
{
    reveal_strlit("0");
    reveal_strlit("1");
    reveal_strlit("2");
    reveal_strlit("3");
    reveal_strlit("4");
    reveal_strlit("5");
    reveal_strlit("6");
    reveal_strlit("7");
    reveal_strlit("8");
    reveal_strlit("9");
    reveal_strlit("a");
    reveal_strlit("b");
    reveal_strlit("c");
    reveal_strlit("d");
    reveal_strlit("e");
    reveal_strlit("f");
    assert(digit_text(d) =~= seq![
        (if d < 10 {
            0x30 + d
        } else {
            0x61 + (d - 10)
        }) as char,
    ]);
}

/// The value of the text of a number: each character's value, with the base to the power of its
/// place.
pub open spec fn text_value(text: Seq<char>, base: int) -> int
    decreases text.len(),
{
    if text.len() == 0 {
        0
    } else {
        let c = text.last() as int;
        text_value(text.drop_last(), base) * base + if c < 0x3a {
            c - 0x30
        } else {
            c - 0x57
        }
    }
}

/// The text of a number has the number's value, is not empty, and starts with a zero only if the
/// number is zero.
pub proof fn law_number_text(n: int, base: int)
    requires
        0 <= n,
        base == 10 || base == 16,
    ensures
        text_value(number_text(n, base), base) == n,
        number_text(n, base).len() > 0,
        number_text(n, base)[0] == '0' <==> n == 0,
        n == 0 ==> number_text(n, base).len() == 1,
        forall|i: int|
            0 <= i < number_text(n, base).len() ==> {
                let c = #[trigger] number_text(n, base)[i] as int;
                0x30 <= c < 0x3a || (base == 16 && 0x61 <= c < 0x67)
            },
    decreases n,
{
    if n < base {
        law_digits(n);
        let text = number_text(n, base);
        assert(text.drop_last() =~= Seq::empty());
        assert(text_value(text.drop_last(), base) == 0);
    } else {
        vstd::arithmetic::div_mod::lemma_div_decreases(n, base);
        vstd::arithmetic::div_mod::lemma_div_pos_is_pos(n, base);
        law_number_text(n / base, base);
        law_digits(n % base);
        let text = number_text(n, base);
        let rest = number_text(n / base, base);
        assert(text.drop_last() =~= rest);
        assert(text.last() == digit_text(n % base)[0]);
        assert((n / base) * base + n % base == n);
        assert(text[0] == rest[0]);
    }
}

/// Four bytes are listed in their order, in decimal, with commas between and brackets around.
pub proof fn law_bytes_text(bytes: [u8; 4])
    ensures
        bytes_text(bytes) == seq!['['] + number_text(bytes[0] as int, 10) + seq![',', ' ']
            + number_text(bytes[1] as int, 10) + seq![',', ' '] + number_text(bytes[2] as int, 10)
            + seq![',', ' '] + number_text(bytes[3] as int, 10) + seq![']'],
{
    reveal_strlit("[");
    reveal_strlit(", ");
    reveal_strlit("]");
    assert("["@ =~= seq!['[']);
    assert(", "@ =~= seq![',', ' ']);
    assert("]"@ =~= seq![']']);
}

/// Every message names its kind of error and, in order, all that the error holds.
pub proof fn law_messages(magic: [u8; 4], size: u16, format: u8, stream: u8, table: u8)
    ensures
        (BrstmError::BadFileMagic { magic }).message_text()
            == "not a valid RSTM/BRSTM file (bad magic: "@ + bytes_text(magic) + ")"@,
        (BrstmError::BadHeaderSize { size }).message_text() == "unexpected file header size: 0x"@
            + number_text(size as int, 16) + " (expected 0x40)"@,
        (BrstmError::BadHeadMagic { magic }).message_text() == "HEAD section magic mismatch: "@
            + bytes_text(magic),
        (BrstmError::UnsupportedFormat { format }).message_text()
            == "only ADPCM-encoded BRSTMs are supported (format byte = "@ + number_text(
            format as int,
            10,
        ) + ", expected 2)"@,
        (BrstmError::ChannelCountMismatch {
            stream_info: stream,
            channel_table: table,
        }).message_text() == "channel count mismatch: stream info says "@ + number_text(
            stream as int,
            10,
        ) + ", channel table says "@ + number_text(table as int, 10),
        BrstmError::MissingAdpcmParameters.message_text()
            == "channel has no ADPCM parameter data"@,
        (BrstmError::BadDataMagic { magic }).message_text() == "DATA section magic mismatch: "@
            + bytes_text(magic),
{
}

} // verus!
