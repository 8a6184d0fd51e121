use brstm::error::BrstmError;

#[test]
fn bad_file_magic() {
    let magic = [0, 9, 10, 255];
    assert_eq!(
        BrstmError::BadFileMagic { magic }.message(),
        format!("not a valid RSTM/BRSTM file (bad magic: {:?})", magic)
    );
    assert_eq!(
        BrstmError::BadFileMagic { magic: *b"RIFF" }.message(),
        "not a valid RSTM/BRSTM file (bad magic: [82, 73, 70, 70])"
    );
}

#[test]
fn bad_header_size() {
    for size in 0..=u16::MAX {
        assert_eq!(
            BrstmError::BadHeaderSize { size }.message(),
            format!("unexpected file header size: 0x{:x} (expected 0x40)", size)
        );
    }
}

#[test]
fn bad_head_magic() {
    let magic = [100, 99, 1, 200];
    assert_eq!(
        BrstmError::BadHeadMagic { magic }.message(),
        format!("HEAD section magic mismatch: {:?}", magic)
    );
}

#[test]
fn unsupported_format() {
    for format in 0..=u8::MAX {
        assert_eq!(
            BrstmError::UnsupportedFormat { format }.message(),
            format!(
                "only ADPCM-encoded BRSTMs are supported (format byte = {}, expected 2)",
                format
            )
        );
    }
}

#[test]
fn channel_count_mismatch() {
    assert_eq!(
        BrstmError::ChannelCountMismatch { stream_info: 2, channel_table: 13 }.message(),
        "channel count mismatch: stream info says 2, channel table says 13"
    );
}

#[test]
fn missing_adpcm_parameters() {
    assert_eq!(
        BrstmError::MissingAdpcmParameters.message(),
        "channel has no ADPCM parameter data"
    );
}

#[test]
fn bad_data_magic() {
    assert_eq!(
        BrstmError::BadDataMagic { magic: *b"HEAD" }.message(),
        "DATA section magic mismatch: [72, 69, 65, 68]"
    );
}
