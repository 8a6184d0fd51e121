use brstm::util::{read_i16, read_magic, read_u16, read_u24, read_u32, read_u8};

#[test]
fn magic_is_four_bytes() {
    let mut offset: usize = 1;
    assert_eq!(read_magic(b"xRSTMy", &mut offset), *b"RSTM");
    assert_eq!(offset, 5);
}

#[test]
fn bytes_are_read_one_by_one() {
    let mut offset: usize = 0;
    assert_eq!(read_u8(&[7, 255], &mut offset), 7);
    assert_eq!(read_u8(&[7, 255], &mut offset), 255);
    assert_eq!(offset, 2);
}

#[test]
fn signed_numbers_are_in_twos_complement() {
    let bytes = [0x7f, 0xff, 0x80, 0x00, 0xff, 0xff, 0x01, 0x02, 0x00, 0x00];
    let mut offset: usize = 0;
    assert_eq!(read_i16(&bytes, &mut offset), 32767);
    assert_eq!(read_i16(&bytes, &mut offset), -32768);
    assert_eq!(read_i16(&bytes, &mut offset), -1);
    assert_eq!(read_i16(&bytes, &mut offset), 258);
    assert_eq!(read_i16(&bytes, &mut offset), 0);
    assert_eq!(offset, 10);
}

#[test]
fn every_signed_number_comes_back_from_its_bytes() {
    for value in i16::MIN..=i16::MAX {
        let mut offset: usize = 0;
        assert_eq!(read_i16(&value.to_be_bytes(), &mut offset), value);
    }
}

#[test]
fn every_unsigned_number_comes_back_from_its_bytes() {
    for value in u16::MIN..=u16::MAX {
        let mut offset: usize = 0;
        assert_eq!(read_u16(&value.to_be_bytes(), &mut offset), value);
        assert_eq!(offset, 2);
    }
}

#[test]
fn three_byte_numbers_are_big_endian() {
    let mut offset: usize = 0;
    assert_eq!(read_u24(&[0x01, 0x02, 0x03, 0xff], &mut offset), 0x010203);
    assert_eq!(offset, 3);
    let mut offset: usize = 1;
    assert_eq!(read_u24(&[0x00, 0xff, 0xff, 0xff], &mut offset), 0xff_ffff);
    assert_eq!(offset, 4);
}

#[test]
fn four_byte_numbers_are_big_endian() {
    let bytes = [0x00, 0x12, 0x34, 0x56, 0x78];
    let mut offset: usize = 1;
    assert_eq!(read_u32(&bytes, &mut offset), 0x12345678);
    assert_eq!(offset, 5);
    let mut offset: usize = 0;
    assert_eq!(read_u32(&[0xff, 0xff, 0xff, 0xff], &mut offset), u32::MAX);
}

#[test]
fn a_four_byte_number_is_two_two_byte_numbers() {
    let bytes = [0xde, 0xad, 0xbe, 0xef];
    let mut offset: usize = 0;
    let high = read_u16(&bytes, &mut offset);
    let low = read_u16(&bytes, &mut offset);
    let mut offset: usize = 0;
    assert_eq!(read_u32(&bytes, &mut offset), high as u32 * 0x1_0000 + low as u32);
}
