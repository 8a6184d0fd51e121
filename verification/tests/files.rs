use brstm::decoder::{check_bounds, check_brstm, decode_brstm, parse_brstm};
use brstm::error::BrstmError;
use brstm::parse::{
    parse_adpcm_parameters, parse_channel_table, parse_data_ref, parse_data_section,
    parse_file_header, parse_head_section, parse_stream_info,
};
use brstm::records::{AdpcmParameters, DataRef, DecodedSampleData, StreamInfo};
use brstm::section::{check_data_section, decode_data_section};
use brstm::wav::{interleave, wav_format, WavFormat};
use std::io::Cursor;

const HEAD: usize = 0x40;
const INFO: usize = 0x60;
const TABLE: usize = 0x98;
const CHANNEL: [usize; 2] = [0xb0, 0xb8];
const PARAMS: [usize; 2] = [0xc8, 0xf8];
const DATA: usize = 0x140;
const AUDIO: usize = 0x160;

fn put(buf: &mut [u8], at: usize, bytes: &[u8]) {
    buf[at..at + bytes.len()].copy_from_slice(bytes);
}

fn put_u16(buf: &mut [u8], at: usize, value: u16) {
    put(buf, at, &value.to_be_bytes());
}

fn put_i16(buf: &mut [u8], at: usize, value: i16) {
    put(buf, at, &value.to_be_bytes());
}

fn put_u32(buf: &mut [u8], at: usize, value: u32) {
    put(buf, at, &value.to_be_bytes());
}

fn put_ref(buf: &mut [u8], at: usize, target: usize) {
    put(buf, at, &[1, 0, 0, 0]);
    put_u32(buf, at + 4, (target - HEAD - 8) as u32);
}

/// A file with two channels, a full block of 14 samples and a final block of 3.
fn two_channel_file() -> Vec<u8> {
    let mut buf = vec![0u8; AUDIO + 32];
    let len = buf.len() as u32;
    put(&mut buf, 0, b"RSTM");
    put_u16(&mut buf, 4, 0xfeff);
    put_u16(&mut buf, 6, 0x0100);
    put_u32(&mut buf, 8, len);
    put_u16(&mut buf, 12, 0x40);
    put_u16(&mut buf, 14, 2);
    put_u32(&mut buf, 16, HEAD as u32);
    put_u32(&mut buf, 20, 0x100);
    put_u32(&mut buf, 32, DATA as u32);
    put_u32(&mut buf, 36, 0x40);

    put(&mut buf, HEAD, b"HEAD");
    put_u32(&mut buf, HEAD + 4, 0x100);
    put_ref(&mut buf, HEAD + 8, INFO);
    put_ref(&mut buf, HEAD + 16, INFO);
    put_ref(&mut buf, HEAD + 24, TABLE);

    put(&mut buf, INFO, &[2, 1, 2, 0x00, 0x7d, 0x00]);
    put_u32(&mut buf, INFO + 8, 3);
    put_u32(&mut buf, INFO + 12, 17);
    put_u32(&mut buf, INFO + 16, AUDIO as u32);
    put_u32(&mut buf, INFO + 20, 2);
    put_u32(&mut buf, INFO + 24, 8);
    put_u32(&mut buf, INFO + 28, 14);
    put_u32(&mut buf, INFO + 32, 3);
    put_u32(&mut buf, INFO + 36, 3);
    put_u32(&mut buf, INFO + 40, 8);
    put_u32(&mut buf, INFO + 44, 14);
    put_u32(&mut buf, INFO + 48, 4);

    put(&mut buf, TABLE, &[2, 0, 0, 0]);
    for k in 0..2 {
        put_ref(&mut buf, TABLE + 4 + 8 * k, CHANNEL[k]);
        put_ref(&mut buf, CHANNEL[k], PARAMS[k]);
    }
    put_i16(&mut buf, PARAMS[0], 2048);
    put_i16(&mut buf, PARAMS[0] + 36, 100);
    put_i16(&mut buf, PARAMS[0] + 38, 99);

    put(&mut buf, DATA, b"DATA");
    put_u32(&mut buf, DATA + 4, 0x40);
    put_u32(&mut buf, DATA + 8, 0x18);
    put(&mut buf, AUDIO, &[0x00, 0x11, 0x11, 0x11, 0x11, 0x11, 0x11, 0x11]);
    put(&mut buf, AUDIO + 8, &[0x03, 0x21, 0x21, 0x21, 0x21, 0x21, 0x21, 0x21]);
    put(&mut buf, AUDIO + 16, &[0x00, 0x1f, 0x20]);
    put(&mut buf, AUDIO + 24, &[0x00, 0x7f, 0x80]);
    buf
}

fn first_channel() -> Vec<i16> {
    let mut samples: Vec<i16> = (101..=114).collect();
    samples.extend([115, 114, 116]);
    samples
}

fn second_channel() -> Vec<i16> {
    let mut samples: Vec<i16> = Vec::new();
    for _ in 0..7 {
        samples.extend([16, 8]);
    }
    samples.extend([7, -1, -8]);
    samples
}

fn error_of(buf: &[u8]) -> BrstmError {
    assert!(check_brstm(buf));
    assert_eq!(parse_brstm(buf).unwrap_err(), decode_brstm(buf).unwrap_err());
    decode_brstm(buf).unwrap_err()
}

fn mono_info() -> StreamInfo {
    StreamInfo {
        format: 2,
        loop_flag: 0,
        channel_count: 1,
        sample_rate: 8000,
        unknown_0x06: 0,
        loop_start_sample: 0,
        loop_end_sample: 0,
        actual_data_offset: 0,
        block_count: 1,
        block_size: 0,
        block_samples: 0,
        final_block_size: 2,
        final_block_samples: 2,
        final_block_size_padded: 2,
        adpc_interval: 0,
        adpc_bytes_per_interval: 0,
    }
}

fn plain_params() -> AdpcmParameters {
    AdpcmParameters {
        coefficients: [[0, 0]; 8],
        gain: 0,
        predictor_scale: 0,
        yn1: 0,
        yn2: 0,
        loop_predictor_scale: 0,
        loop_yn1: 0,
        loop_yn2: 0,
    }
}

#[test]
fn a_file_decodes_to_interleaved_samples() {
    let buf = two_channel_file();
    assert!(check_brstm(&buf));
    let audio = decode_brstm(&buf).unwrap();
    assert_eq!(
        audio.format,
        WavFormat { channels: 2, sample_rate: 32000, bits_per_sample: 16 }
    );
    let mut expected: Vec<i16> = Vec::new();
    for i in 0..17 {
        expected.push(first_channel()[i]);
        expected.push(second_channel()[i]);
    }
    assert_eq!(audio.samples, expected);
}

#[test]
fn decoded_audio_survives_a_wav_file() {
    let audio = decode_brstm(&two_channel_file()).unwrap();
    let spec = hound::WavSpec {
        channels: audio.format.channels,
        sample_rate: audio.format.sample_rate,
        bits_per_sample: audio.format.bits_per_sample,
        sample_format: hound::SampleFormat::Int,
    };
    let mut bytes = Cursor::new(Vec::new());
    let mut writer = hound::WavWriter::new(&mut bytes, spec).unwrap();
    for sample in &audio.samples {
        writer.write_sample(*sample).unwrap();
    }
    writer.finalize().unwrap();
    bytes.set_position(0);
    let mut reader = hound::WavReader::new(bytes).unwrap();
    assert_eq!(reader.spec(), spec);
    assert_eq!(reader.duration(), 17);
    let samples: Vec<i16> = reader.samples::<i16>().map(|sample| sample.unwrap()).collect();
    assert_eq!(samples, audio.samples);
}

#[test]
fn a_file_parses_to_its_records() {
    let buf = two_channel_file();
    let file = parse_brstm(&buf).unwrap();
    assert_eq!(Ok(file.header), parse_file_header(&buf));
    assert_eq!(Ok(file.head_section), parse_head_section(&buf, HEAD));
    assert_eq!(Ok(file.stream_info), parse_stream_info(&buf, INFO));
    assert_eq!(file.channel_table, parse_channel_table(&buf, TABLE));
    assert_eq!(file.channels.len(), 2);
    assert_eq!(file.channels[0], parse_adpcm_parameters(&buf, PARAMS[0]));
    assert_eq!(file.channels[1], parse_adpcm_parameters(&buf, PARAMS[1]));
    assert_eq!(Ok(file.data_section), parse_data_section(&buf, DATA));
}

#[test]
fn the_file_header_has_its_fields_in_order() {
    let mut buf: Vec<u8> = (0u8..40).collect();
    put(&mut buf, 0, b"RSTM");
    put_u16(&mut buf, 12, 0x40);
    let header = parse_file_header(&buf).unwrap();
    assert_eq!(header.magic_string, *b"RSTM");
    assert_eq!(header.byte_order_mark, 0x0405);
    assert_eq!(header.version, 0x0607);
    assert_eq!(header.file_size, 0x08090a0b);
    assert_eq!(header.header_size, 0x40);
    assert_eq!(header.section_count, 0x0e0f);
    assert_eq!(header.head_offset, 0x10111213);
    assert_eq!(header.head_size, 0x14151617);
    assert_eq!(header.adpc_offset, 0x18191a1b);
    assert_eq!(header.adpc_size, 0x1c1d1e1f);
    assert_eq!(header.data_offset, 0x20212223);
    assert_eq!(header.data_size, 0x24252627);
}

#[test]
fn every_byte_of_the_file_header_shows() {
    let buf = two_channel_file();
    let header = parse_file_header(&buf);
    for i in 0..40 {
        let mut changed = buf.clone();
        changed[i] ^= 1;
        assert_ne!(parse_file_header(&changed), header);
    }
    let mut changed = buf.clone();
    changed[40] ^= 1;
    assert_eq!(parse_file_header(&changed), header);
}

#[test]
fn the_head_section_has_its_fields_in_order() {
    let mut buf: Vec<u8> = (0u8..40).collect();
    put(&mut buf, 3, b"HEAD");
    let section = parse_head_section(&buf, 3).unwrap();
    assert_eq!(section.magic_string, *b"HEAD");
    assert_eq!(section.size, 0x0708090a);
    let reference = |at: u8| DataRef {
        ref_type: at,
        data_type: at + 1,
        reserved: u16::from_be_bytes([at + 2, at + 3]),
        val: u32::from_be_bytes([at + 4, at + 5, at + 6, at + 7]),
    };
    assert_eq!(section.stream_data, reference(11));
    assert_eq!(section.track_table, reference(19));
    assert_eq!(section.channel_data, reference(27));
}

#[test]
fn the_stream_info_has_its_fields_in_order() {
    let mut buf: Vec<u8> = (0u8..60).collect();
    buf[5] = 2;
    let info = parse_stream_info(&buf, 5).unwrap();
    assert_eq!(info.format, 2);
    assert_eq!(info.loop_flag, 6);
    assert_eq!(info.channel_count, 7);
    assert_eq!(info.sample_rate, 0x08090a);
    assert_eq!(info.unknown_0x06, 0x0b0c);
    assert_eq!(info.loop_start_sample, 0x0d0e0f10);
    assert_eq!(info.loop_end_sample, 0x11121314);
    assert_eq!(info.actual_data_offset, 0x15161718);
    assert_eq!(info.block_count, 0x191a1b1c);
    assert_eq!(info.block_size, 0x1d1e1f20);
    assert_eq!(info.block_samples, 0x21222324);
    assert_eq!(info.final_block_size, 0x25262728);
    assert_eq!(info.final_block_samples, 0x292a2b2c);
    assert_eq!(info.final_block_size_padded, 0x2d2e2f30);
    assert_eq!(info.adpc_interval, 0x31323334);
    assert_eq!(info.adpc_bytes_per_interval, 0x35363738);
}

#[test]
fn the_channel_table_counts_its_references() {
    let buf = [9, 2, 3, 4, 5, 1, 2, 3, 4, 5, 6, 7, 8, 11, 12, 13, 14, 15, 16, 17, 18, 9];
    let table = parse_channel_table(&buf, 1);
    assert_eq!(table.channel_count, 2);
    assert_eq!(table.padding, [3, 4, 5]);
    assert_eq!(table.channel_refs.len(), 2);
    let mut offset: usize = 5;
    assert_eq!(table.channel_refs[0], parse_data_ref(&buf, &mut offset));
    assert_eq!(table.channel_refs[1], parse_data_ref(&buf, &mut offset));
    assert_eq!(offset, 21);
    assert_eq!(
        table.channel_refs[1],
        DataRef { ref_type: 11, data_type: 12, reserved: 0x0d0e, val: 0x0f101112 }
    );
    assert_eq!(parse_channel_table(&[0, 1, 2, 3], 0).channel_refs.len(), 0);
}

#[test]
fn adpcm_parameters_have_their_fields_in_order() {
    let mut buf = vec![0u8; 48];
    for i in 0..23 {
        put_i16(&mut buf, 2 + 2 * i, -(i as i16) - 1);
    }
    let params = parse_adpcm_parameters(&buf, 2);
    assert_eq!(
        params.coefficients,
        [[-1, -2], [-3, -4], [-5, -6], [-7, -8], [-9, -10], [-11, -12], [-13, -14], [-15, -16]]
    );
    assert_eq!(params.gain, 0xffef);
    assert_eq!(params.predictor_scale, 0xffee);
    assert_eq!(params.yn1, -19);
    assert_eq!(params.yn2, -20);
    assert_eq!(params.loop_predictor_scale, 0xffeb);
    assert_eq!(params.loop_yn1, -22);
    assert_eq!(params.loop_yn2, -23);
}

#[test]
fn the_data_section_has_its_fields_in_order() {
    let section = parse_data_section(b"xDATA\x01\x02\x03\x04\x05\x06\x07\x08", 1).unwrap();
    assert_eq!(section.magic_string, *b"DATA");
    assert_eq!(section.size, 0x01020304);
    assert_eq!(section.offset_to_data, 0x05060708);
}

#[test]
fn other_files_are_refused() {
    let mut buf = two_channel_file();
    put(&mut buf, 0, b"RIFF");
    put_u16(&mut buf, 12, 0x20);
    assert_eq!(error_of(&buf), BrstmError::BadFileMagic { magic: *b"RIFF" });
}

#[test]
fn other_header_sizes_are_refused() {
    let mut buf = two_channel_file();
    put_u16(&mut buf, 12, 0x20);
    put(&mut buf, HEAD, b"HEAT");
    assert_eq!(error_of(&buf), BrstmError::BadHeaderSize { size: 0x20 });
}

#[test]
fn a_head_section_needs_its_tag() {
    let mut buf = two_channel_file();
    put(&mut buf, HEAD, b"HEAT");
    buf[INFO] = 1;
    assert_eq!(error_of(&buf), BrstmError::BadHeadMagic { magic: *b"HEAT" });
}

#[test]
fn only_adpcm_is_supported() {
    let mut buf = two_channel_file();
    buf[INFO] = 1;
    buf[TABLE] = 1;
    assert_eq!(error_of(&buf), BrstmError::UnsupportedFormat { format: 1 });
}

#[test]
fn channel_counts_have_to_agree() {
    let mut buf = two_channel_file();
    buf[TABLE] = 1;
    put_u32(&mut buf, CHANNEL[0] + 4, 0);
    assert_eq!(
        error_of(&buf),
        BrstmError::ChannelCountMismatch { stream_info: 2, channel_table: 1 }
    );
}

#[test]
fn every_channel_needs_parameters() {
    for k in 0..2 {
        let mut buf = two_channel_file();
        put_u32(&mut buf, CHANNEL[k] + 4, 0);
        put(&mut buf, DATA, b"DATE");
        assert_eq!(error_of(&buf), BrstmError::MissingAdpcmParameters);
    }
}

#[test]
fn a_data_section_needs_its_tag() {
    let mut buf = two_channel_file();
    put(&mut buf, DATA, b"DATE");
    assert_eq!(error_of(&buf), BrstmError::BadDataMagic { magic: *b"DATE" });
}

#[test]
fn errors_come_before_what_lies_behind_them() {
    let buf = two_channel_file();
    assert!(!check_bounds(&buf[..39]));
    assert!(!check_bounds(&buf[..40]));
    let mut other = buf[..40].to_vec();
    put(&mut other, 0, b"RIFF");
    assert_eq!(error_of(&other), BrstmError::BadFileMagic { magic: *b"RIFF" });
    let mut other = buf[..HEAD + 32].to_vec();
    other[HEAD] = 0;
    assert_eq!(error_of(&other), BrstmError::BadHeadMagic { magic: *b"\0EAD" });
    assert!(!check_bounds(&other[..HEAD + 31]));
    let mut other = buf[..CHANNEL[0] + 8].to_vec();
    put_u32(&mut other, CHANNEL[0] + 4, 0);
    assert_eq!(error_of(&other), BrstmError::MissingAdpcmParameters);
}

#[test]
fn a_cut_file_is_not_decodable() {
    let buf = two_channel_file();
    for len in 0..buf.len() - 5 {
        assert!(!check_brstm(&buf[..len]));
    }
    for len in 0..DATA + 12 {
        assert!(!check_bounds(&buf[..len]));
    }
    assert!(check_bounds(&buf[..DATA + 12]));
    assert_eq!(decode_brstm(&buf[..buf.len() - 5]), decode_brstm(&buf));
}

#[test]
fn bytes_behind_the_file_are_ignored() {
    let buf = two_channel_file();
    let mut longer = buf.clone();
    longer.extend([0xff; 100]);
    assert!(check_brstm(&longer));
    assert_eq!(decode_brstm(&longer), decode_brstm(&buf));
    put(&mut longer, HEAD, b"HEAT");
    assert_eq!(error_of(&longer), BrstmError::BadHeadMagic { magic: *b"HEAT" });
}

#[test]
fn a_file_without_channels_is_not_decodable() {
    let mut buf = two_channel_file();
    buf[INFO + 2] = 0;
    buf[TABLE] = 0;
    assert!(check_bounds(&buf));
    assert!(!check_brstm(&buf));
}

#[test]
fn references_far_outside_are_not_decodable() {
    let mut buf = two_channel_file();
    put_u32(&mut buf, 16, u32::MAX);
    assert!(!check_brstm(&buf));
    let mut buf = two_channel_file();
    put_u32(&mut buf, HEAD + 12, u32::MAX);
    assert!(!check_brstm(&buf));
    let mut buf = two_channel_file();
    put_u32(&mut buf, INFO + 20, u32::MAX);
    assert!(!check_brstm(&buf));
}

#[test]
fn the_audio_offset_counts_from_the_start_of_the_file() {
    let mut buf = two_channel_file();
    put_u32(&mut buf, DATA + 8, 0xffff_ffff);
    assert_eq!(decode_brstm(&buf), decode_brstm(&two_channel_file()));
}

#[test]
fn channels_decode_on_their_own() {
    let buf = two_channel_file();
    let file = parse_brstm(&buf).unwrap();
    let decoded = decode_data_section(&buf, AUDIO, &file.stream_info, &file.channels).unwrap();
    assert_eq!(decoded.samples, vec![first_channel(), second_channel()]);
    let mut changed = buf.clone();
    changed[AUDIO + 10] = 0x55;
    changed[AUDIO + 26] = 0x55;
    let decoded = decode_data_section(&changed, AUDIO, &file.stream_info, &file.channels).unwrap();
    assert_eq!(decoded.samples[0], first_channel());
    assert_ne!(decoded.samples[1], second_channel());
    assert_eq!(decoded.samples[0].len(), decoded.samples[1].len());
}

#[test]
fn a_stream_without_blocks_is_empty() {
    let info = StreamInfo { block_count: 0, channel_count: 3, ..mono_info() };
    assert!(check_data_section(&[], 0, &info, &[]));
    let decoded = decode_data_section(&[], 0, &info, &[]).unwrap();
    assert_eq!(decoded.samples, vec![Vec::<i16>::new(); 3]);
}

#[test]
fn a_single_block_is_the_final_one() {
    let info = mono_info();
    assert!(check_data_section(&[9, 0x00, 0x12], 1, &info, &[plain_params()]));
    let decoded = decode_data_section(&[9, 0x00, 0x12], 1, &info, &[plain_params()]).unwrap();
    assert_eq!(decoded.samples, vec![vec![1, 2]]);
}

#[test]
fn decoding_starts_from_the_parameters_history() {
    let mut params = plain_params();
    params.coefficients[0] = [2048, 4096];
    params.yn1 = 5;
    params.yn2 = 100;
    let decoded = decode_data_section(&[0x00, 0x00], 0, &mono_info(), &[params]).unwrap();
    assert_eq!(decoded.samples, vec![vec![205, 215]]);
}

#[test]
fn blocks_too_small_for_their_samples_give_fewer() {
    let info = StreamInfo {
        block_count: 3,
        block_size: 2,
        block_samples: 10,
        final_block_samples: 10,
        ..mono_info()
    };
    let buf = [0x00, 0x12, 0x00, 0x34, 0x00, 0x56];
    assert!(check_data_section(&buf, 0, &info, &[plain_params()]));
    let decoded = decode_data_section(&buf, 0, &info, &[plain_params()]).unwrap();
    assert_eq!(decoded.samples, vec![vec![1, 2, 3, 4, 5, 6]]);
}

#[test]
fn sections_that_cannot_be_decoded_are_found() {
    let info = mono_info();
    let params = [plain_params()];
    assert!(!check_data_section(&[0x00], 0, &info, &params));
    assert!(!check_data_section(&[0x00, 0x00], 1, &info, &params));
    assert!(!check_data_section(&[0x00, 0x00], 0, &info, &[]));
    assert!(!check_data_section(&[0x80, 0x00], 0, &info, &params));
    let huge = StreamInfo {
        block_count: u32::MAX,
        block_samples: u32::MAX,
        final_block_samples: u32::MAX,
        ..info
    };
    assert!(!check_data_section(&[0x00, 0x00], 0, &huge, &params));
}

#[test]
fn samples_are_interleaved_moment_by_moment() {
    let decoded = DecodedSampleData { samples: vec![vec![1, 2], vec![3, 4, 9], vec![5, 6]] };
    assert_eq!(interleave(&decoded), [1, 3, 5, 2, 4, 6]);
    let decoded = DecodedSampleData { samples: vec![vec![], vec![7]] };
    assert_eq!(interleave(&decoded), []);
}

#[test]
fn a_wav_file_has_the_rate_and_channels_of_the_stream() {
    let info = StreamInfo { channel_count: 255, sample_rate: 0xff_ffff, ..mono_info() };
    assert_eq!(
        wav_format(&info),
        WavFormat { channels: 255, sample_rate: 0xff_ffff, bits_per_sample: 16 }
    );
}

#[test]
fn history_runs_on_from_block_to_block() {
    let mut params = plain_params();
    params.coefficients[0] = [2048, 0];
    let info = StreamInfo { block_count: 2, block_size: 2, block_samples: 2, ..mono_info() };
    let decoded = decode_data_section(&[0x00, 0x11, 0x00, 0x11], 0, &info, &[params]).unwrap();
    assert_eq!(decoded.samples, vec![vec![1, 2, 3, 4]]);
}
