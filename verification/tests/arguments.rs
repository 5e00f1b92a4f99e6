use esprobe::arguments::{is_legible, parse_address, parse_hex, HexError, NumberError};
use esprobe::digest::{hex_digest, hex_text};

#[test]
fn addresses_are_hexadecimal_or_decimal() {
    assert_eq!(parse_address("0x08000000"), Ok(0x0800_0000));
    assert_eq!(parse_address(" 0XfF "), Ok(255));
    assert_eq!(parse_address("4096"), Ok(4096));
    assert_eq!(parse_address("+12"), Ok(12));
    assert_eq!(parse_address("18446744073709551615"), Ok(u64::MAX));
}

#[test]
fn what_is_no_address_is_refused_with_its_reason() {
    assert_eq!(parse_address(""), Err(NumberError::Nothing));
    assert_eq!(parse_address("0x"), Err(NumberError::Nothing));
    assert_eq!(parse_address("+"), Err(NumberError::InvalidDigit));
    assert_eq!(parse_address("-1"), Err(NumberError::InvalidDigit));
    assert_eq!(parse_address("12f"), Err(NumberError::InvalidDigit));
    assert_eq!(parse_address("18446744073709551616"), Err(NumberError::TooLarge));
    // The first character that cannot be taken decides.
    assert_eq!(parse_address("99999999999999999999x"), Err(NumberError::TooLarge));
    assert_eq!(NumberError::Nothing.message(), "".parse::<u64>().unwrap_err().to_string());
    assert_eq!(
        NumberError::InvalidDigit.message(),
        "x".parse::<u64>().unwrap_err().to_string()
    );
    assert_eq!(
        NumberError::TooLarge.message(),
        "18446744073709551616".parse::<u64>().unwrap_err().to_string()
    );
}

#[test]
fn hex_bytes_may_be_separated() {
    assert_eq!(parse_hex("7f").unwrap(), [0x7f]);
    assert_eq!(parse_hex(" 0x0xDE:ad_be ef\n").unwrap(), [0xde, 0xad, 0xbe, 0xef]);
    assert_eq!(parse_hex("").unwrap(), Vec::<u8>::new());
    assert_eq!(parse_hex("+f").unwrap(), [0x0f]);
}

#[test]
fn what_is_no_byte_string_is_refused() {
    match parse_hex("abc") {
        Err(HexError::OddDigits(3)) => {}
        other => panic!("{other:?}"),
    }
    assert_eq!(
        parse_hex("abc").unwrap_err().message(),
        "a hex payload needs an even number of digits, got 3"
    );
    assert_eq!(parse_hex("aazz").unwrap_err().message(), "`zz` is not a hex byte");
    assert_eq!(parse_hex("é").unwrap_err().message(), "`é` is not a hex byte");
    assert!(is_legible("é"));
    assert!(!is_legible("aé1"));
    assert!(!is_legible("€1"));
    // An odd number of bytes is noticed before any pair is looked at.
    assert!(is_legible("€"));
    assert_eq!(
        parse_hex("€").unwrap_err().message(),
        "a hex payload needs an even number of digits, got 3"
    );
}

#[test]
fn bytes_written_as_hex_are_read_back() {
    let bytes: Vec<u8> = (0..=255).collect();
    assert_eq!(parse_hex(&hex_text(&bytes)).unwrap(), bytes);
}

#[test]
fn the_digest_is_sha_256() {
    assert_eq!(
        hex_digest(b"abc"),
        "ba7816bf8f01cfea414140de5dae2223b00361a396177a9cb410ff61f20015ad"
    );
    assert_eq!(
        hex_digest(b""),
        "e3b0c44298fc1c149afbf4c8996fb92427ae41e4649b934ca495991b7852b855"
    );
}
