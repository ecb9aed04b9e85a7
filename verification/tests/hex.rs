use sqlx_squash::hex::{decode_hex, encode_hex_into, from_hex_digit};
use sqlx_squash::{MigrateError, SquashEpochParseError};

#[test]
fn hex_digits() {
    assert_eq!(from_hex_digit(b'0'), Ok(0));
    assert_eq!(from_hex_digit(b'9'), Ok(9));
    assert_eq!(from_hex_digit(b'a'), Ok(10));
    assert_eq!(from_hex_digit(b'F'), Ok(15));
    assert_eq!(
        from_hex_digit(b'G'),
        Err(MigrateError::SquashEpochParse(SquashEpochParseError::InvalidHexDigit(b'G')))
    );
}

#[test]
fn hex_decoding() {
    assert_eq!(decode_hex(b"").unwrap(), Vec::<u8>::new());
    assert_eq!(decode_hex(b"00fFa5").unwrap(), vec![0x00, 0xff, 0xa5]);
    assert_eq!(
        decode_hex(b"abc"),
        Err(MigrateError::SquashEpochParse(SquashEpochParseError::OddHexLength(3)))
    );
    assert_eq!(
        decode_hex(b"a-"),
        Err(MigrateError::SquashEpochParse(SquashEpochParseError::InvalidHexDigit(b'-')))
    );
}

#[test]
fn hex_encoding_appends() {
    let mut out = String::from("x:");
    encode_hex_into(&[0x01, 0xab, 0xf0], &mut out);
    assert_eq!(out, "x:01abf0");
    let bytes: Vec<u8> = (0u8..=255).collect();
    let mut all = String::new();
    encode_hex_into(&bytes, &mut all);
    assert_eq!(decode_hex(all.as_bytes()).unwrap(), bytes);
}
