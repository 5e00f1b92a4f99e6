use esprobe::bits::parity;
use esprobe::bytes::{
    get_le16, get_le32, get_le64, get_words, push_le16, push_le32, push_le64, push_words,
    to_signed16, to_signed32, to_unsigned16, to_unsigned32,
};
use esprobe::text::{chars_of, push_decimal, push_signed, read_decimal};

#[test]
fn fields_are_written_low_byte_first_and_read_back() {
    let mut out = Vec::new();
    push_le16(&mut out, 0x1234);
    push_le32(&mut out, 0xdead_beef);
    push_le64(&mut out, 0x0102_0304_0506_0708);
    assert_eq!(out, [0x34, 0x12, 0xef, 0xbe, 0xad, 0xde, 8, 7, 6, 5, 4, 3, 2, 1]);
    assert_eq!(get_le16(&out, 0), 0x1234);
    assert_eq!(get_le32(&out, 2), 0xdead_beef);
    assert_eq!(get_le64(&out, 6), 0x0102_0304_0506_0708);
}

#[test]
fn words_are_read_back_in_order() {
    let mut out = Vec::new();
    push_words(&mut out, &[1, 0xffff_ffff, 0x8000_0000]);
    assert_eq!(out, [1, 0, 0, 0, 0xff, 0xff, 0xff, 0xff, 0, 0, 0, 0x80]);
    assert_eq!(get_words(&out), [1, 0xffff_ffff, 0x8000_0000]);
}

#[test]
fn signed_fields_are_twos_complement() {
    for value in [i16::MIN, -500, -1, 0, 1, i16::MAX] {
        assert_eq!(to_unsigned16(value), value as u16);
        assert_eq!(to_signed16(to_unsigned16(value)), value);
    }
    for value in [i32::MIN, -70_000, -1, 0, 1, i32::MAX] {
        assert_eq!(to_unsigned32(value), value as u32);
        assert_eq!(to_signed32(to_unsigned32(value)), value);
    }
}

#[test]
fn parity_is_that_of_the_set_bits() {
    assert!(!parity(0));
    assert!(parity(0x8000_0000));
    assert!(!parity(0xffff_ffff));
    assert!(parity(0b0111));
}

#[test]
fn a_number_written_down_is_read_back() {
    for value in [0u64, 7, 10, 4_294_967_296, u64::MAX] {
        let mut text = String::new();
        push_decimal(&mut text, value);
        assert_eq!(text, value.to_string());
        let digits = chars_of(&text);
        assert_eq!(read_decimal(&digits, 0, digits.len(), u64::MAX), Some(value));
    }
    let mut text = String::new();
    push_signed(&mut text, i64::MIN);
    assert_eq!(text, i64::MIN.to_string());
}
