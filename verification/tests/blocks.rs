use brstm::adpcm::{check_adpcm_block, decode_adpcm_block, AdpcmState};

const SILENT: AdpcmState = AdpcmState { hist1: 0, hist2: 0 };

/// Eight coefficient pairs, of which the first two are the given ones.
fn pairs(first: [i16; 2], second: [i16; 2]) -> [[i16; 2]; 8] {
    [first, second, [0, 0], [0, 0], [0, 0], [0, 0], [0, 0], [0, 0]]
}

/// Decodes a block that has been found decodable.
fn decode(
    chunk: &[u8],
    coefficients: &[[i16; 2]; 8],
    start: AdpcmState,
    count: usize,
) -> (Vec<i16>, AdpcmState) {
    let mut checked = start;
    assert!(check_adpcm_block(chunk, coefficients, &mut checked, count));
    let mut state = start;
    let mut out: Vec<i16> = Vec::new();
    decode_adpcm_block(chunk, coefficients, &mut state, count, &mut out);
    assert_eq!(state, checked);
    (out, state)
}

fn decodable(chunk: &[u8], coefficients: &[[i16; 2]; 8], start: AdpcmState, count: usize) -> bool {
    let mut state = start;
    check_adpcm_block(chunk, coefficients, &mut state, count)
}

#[test]
fn half_bytes_are_signed_and_the_upper_comes_first() {
    let (out, state) = decode(&[0x00, 0x1f, 0x78], &pairs([0, 0], [0, 0]), SILENT, 4);
    assert_eq!(out, [1, -1, 7, -8]);
    assert_eq!(state, AdpcmState { hist1: -8, hist2: 7 });
}

#[test]
fn the_scale_is_a_power_of_two() {
    for exponent in 0u8..=12 {
        let (out, _) = decode(&[exponent, 0x3d], &pairs([0, 0], [0, 0]), SILENT, 2);
        assert_eq!(out, [3i16 << exponent, -3i16 << exponent]);
    }
}

#[test]
fn samples_are_clamped_to_sixteen_bits() {
    let (out, _) = decode(&[0x0f, 0x78], &pairs([0, 0], [0, 0]), SILENT, 2);
    assert_eq!(out, [32767, -32768]);
}

#[test]
fn the_first_coefficient_weighs_the_last_sample() {
    let start = AdpcmState { hist1: 5, hist2: 1000 };
    let (out, state) = decode(&[0x00, 0x1f], &pairs([2048, 0], [0, 0]), start, 2);
    assert_eq!(out, [6, 5]);
    assert_eq!(state, AdpcmState { hist1: 5, hist2: 6 });
}

#[test]
fn the_second_coefficient_weighs_the_sample_before_the_last() {
    let start = AdpcmState { hist1: 10, hist2: 7 };
    let (out, state) = decode(&[0x10, 0x00, 0x00], &pairs([0, 0], [4096, -2048]), start, 4);
    assert_eq!(out, [13, 16, 19, 22]);
    assert_eq!(state, AdpcmState { hist1: 22, hist2: 19 });
}

#[test]
fn predictions_round_half_up_and_towards_minus_infinity() {
    let one = |coefficient: i16, hist1: i16| {
        let start = AdpcmState { hist1, hist2: 0 };
        decode(&[0x00, 0x00], &pairs([coefficient, 0], [0, 0]), start, 1).0[0]
    };
    assert_eq!(one(1024, 1), 1);
    assert_eq!(one(1023, 1), 0);
    assert_eq!(one(1024, -1), 0);
    assert_eq!(one(1025, -1), -1);
    assert_eq!(one(1024, -3), -1);
    assert_eq!(one(1000, -3), -1);
}

#[test]
fn a_frame_holds_fourteen_samples() {
    let chunk = [
        0x00, 0x12, 0x34, 0x56, 0x71, 0x23, 0x45, 0x67, 0x01, 0x11, 0x11, 0x11, 0x11, 0x11, 0x11,
        0x11,
    ];
    let (out, state) = decode(&chunk, &pairs([0, 0], [0, 0]), SILENT, 100);
    assert_eq!(
        out,
        [1, 2, 3, 4, 5, 6, 7, 1, 2, 3, 4, 5, 6, 7, 2, 2, 2, 2, 2, 2, 2, 2, 2, 2, 2, 2, 2, 2]
    );
    assert_eq!(state, AdpcmState { hist1: 2, hist2: 2 });
}

#[test]
fn a_short_chunk_gives_what_it_holds() {
    let coefficients = pairs([0, 0], [0, 0]);
    for len in 0usize..=20 {
        let chunk = vec![0x01u8; len];
        let held = 14 * (len / 8) + if len % 8 > 1 { 2 * (len % 8 - 1) } else { 0 };
        assert_eq!(decode(&chunk, &coefficients, SILENT, 1000).0.len(), held);
    }
}

#[test]
fn no_more_samples_than_asked_for() {
    let chunk = [0x00, 0x12, 0x34, 0x56, 0x71, 0x23, 0x45, 0x67];
    let all = decode(&chunk, &pairs([1000, 500], [0, 0]), SILENT, 14).0;
    for count in 0usize..=14 {
        let (out, _) = decode(&chunk, &pairs([1000, 500], [0, 0]), SILENT, count);
        assert_eq!(out, all[..count]);
    }
}

#[test]
fn samples_are_appended() {
    let mut out: Vec<i16> = vec![42, 43];
    let mut state = SILENT;
    decode_adpcm_block(&[0x00, 0x12], &pairs([0, 0], [0, 0]), &mut state, 2, &mut out);
    assert_eq!(out, [42, 43, 1, 2]);
}

#[test]
fn nothing_asked_for_leaves_all_as_it_was() {
    let start = AdpcmState { hist1: -3, hist2: 9 };
    let (out, state) = decode(&[0xff, 0xff], &pairs([0, 0], [0, 0]), start, 0);
    assert_eq!(out, []);
    assert_eq!(state, start);
}

#[test]
fn one_sample_shifts_the_history_once() {
    let start = AdpcmState { hist1: -3, hist2: 9 };
    let (out, state) = decode(&[0x00, 0x40], &pairs([0, 0], [0, 0]), start, 1);
    assert_eq!(out, [4]);
    assert_eq!(state, AdpcmState { hist1: 4, hist2: -3 });
}

#[test]
fn two_blocks_are_one_long_block() {
    let coefficients = pairs([1800, -300], [2400, -500]);
    let start = AdpcmState { hist1: 120, hist2: -77 };
    let first = [0x02, 0x1f, 0x3c, 0x99, 0x70, 0x5a, 0xe1, 0x28];
    let second = [0x13, 0x71, 0x2b, 0xf0, 0x44];
    let (mut out, middle) = decode(&first, &coefficients, start, 14);
    let (behind, end) = decode(&second, &coefficients, middle, 7);
    out.extend(behind);
    let mut both = first.to_vec();
    both.extend(second);
    assert_eq!(decode(&both, &coefficients, start, 21), (out, end));
}

#[test]
fn silence_stays_silent() {
    let chunk = [0x1f, 0, 0, 0, 0, 0, 0, 0, 0x07, 0, 0];
    let (out, state) = decode(&chunk, &pairs([2048, -777], [31000, 31000]), SILENT, 18);
    assert_eq!(out, [0; 18]);
    assert_eq!(state, SILENT);
}

#[test]
fn a_frame_has_to_name_one_of_eight_pairs() {
    let coefficients = pairs([0, 0], [0, 0]);
    assert!(decodable(&[0x70, 0x11], &coefficients, SILENT, 2));
    assert!(!decodable(&[0x80, 0x11], &coefficients, SILENT, 2));
    assert!(!decodable(&[0xf0], &coefficients, SILENT, 1));
    assert!(decodable(&[0xf0], &coefficients, SILENT, 0));
}

#[test]
fn a_frame_counts_only_if_it_is_looked_at() {
    let chunk = [0x00, 0x11, 0x11, 0x11, 0x11, 0x11, 0x11, 0x11, 0x80];
    let coefficients = pairs([0, 0], [0, 0]);
    assert!(decodable(&chunk, &coefficients, SILENT, 14));
    assert!(!decodable(&chunk, &coefficients, SILENT, 15));
}

#[test]
fn sums_have_to_fit_in_thirty_two_bits() {
    let low = AdpcmState { hist1: -32768, hist2: -32768 };
    assert!(!decodable(&[0x00, 0x00], &pairs([-32768, -32768], [0, 0]), low, 1));
    assert!(!decodable(&[0x0f, 0x80], &pairs([-32768, -32768], [0, 0]), low, 1));
    assert!(!decodable(&[0x0f, 0x70], &pairs([-32768, -32767], [0, 0]), low, 1));
    assert!(!decodable(&[0x0f, 0x80], &pairs([32767, 32767], [0, 0]), low, 1));
    let (out, _) = decode(&[0x00, 0x00], &pairs([32767, 32767], [0, 0]), low, 1);
    assert_eq!(out, [-32768]);
    let (out, _) = decode(&[0x0f, 0x80], &pairs([-32768, -32767], [0, 0]), low, 1);
    assert_eq!(out, [32767]);
}
