use sqlx_squash::{
    format_squash_epoch_header, parse_squash_epoch, MigrateError, SquashEpochParseError,
};

fn parse_error(e: SquashEpochParseError) -> Result<Option<Vec<Vec<u8>>>, MigrateError> {
    Err(MigrateError::SquashEpochParse(e))
}

#[test]
fn parse_none_without_header() {
    assert!(parse_squash_epoch("CREATE TABLE t (id INT);")
        .unwrap()
        .is_none());
    assert!(parse_squash_epoch("").unwrap().is_none());
    assert!(parse_squash_epoch("\n\n  \nCREATE TABLE t;")
        .unwrap()
        .is_none());
}

#[test]
fn parse_and_format_roundtrip() {
    let checksums = [vec![0xde, 0xad], vec![0xbe, 0xef, 0x00]];
    let header = format_squash_epoch_header(&checksums);
    assert_eq!(header, "-- SQUASH EPOCH dead,beef00");

    let sql = format!("{header}\nCREATE TABLE t (id INT);\n");
    let parsed = parse_squash_epoch(&sql).unwrap().unwrap();
    assert_eq!(parsed, checksums);
}

#[test]
fn parse_rejects_bad_hex() {
    assert!(parse_squash_epoch("-- SQUASH EPOCH xyz\n").is_err());
    assert!(parse_squash_epoch("-- SQUASH EPOCH ab,\n").is_err());
    assert!(parse_squash_epoch("-- SQUASH EPOCH\n").is_err());
}

#[test]
fn parse_error_variants() {
    assert_eq!(
        parse_squash_epoch("-- SQUASH EPOCH xyz\n"),
        parse_error(SquashEpochParseError::OddHexLength(3))
    );
    assert_eq!(
        parse_squash_epoch("-- SQUASH EPOCH ab,\n"),
        parse_error(SquashEpochParseError::EmptyChecksumEntry)
    );
    assert_eq!(
        parse_squash_epoch("-- SQUASH EPOCH\n"),
        parse_error(SquashEpochParseError::MissingChecksums)
    );
    assert_eq!(
        parse_squash_epoch("-- SQUASH EPOCH ab,,cd"),
        parse_error(SquashEpochParseError::EmptyChecksumEntry)
    );
    assert_eq!(
        parse_squash_epoch("-- SQUASH EPOCH a0zz"),
        parse_error(SquashEpochParseError::InvalidHexDigit(b'z'))
    );
    assert_eq!(
        parse_squash_epoch("-- SQUASH EPOCH 0g"),
        parse_error(SquashEpochParseError::InvalidHexDigit(b'g'))
    );
}

#[test]
fn parse_first_error_wins() {
    // The first failing entry decides, in list order.
    assert_eq!(
        parse_squash_epoch("-- SQUASH EPOCH abc,,zz"),
        parse_error(SquashEpochParseError::OddHexLength(3))
    );
    assert_eq!(
        parse_squash_epoch("-- SQUASH EPOCH ab,zz,abc"),
        parse_error(SquashEpochParseError::InvalidHexDigit(b'z'))
    );
}

#[test]
fn parse_counts_utf8_bytes() {
    // "é0" is three bytes long.
    assert_eq!(
        parse_squash_epoch("-- SQUASH EPOCH \u{e9}0"),
        parse_error(SquashEpochParseError::OddHexLength(3))
    );
    // "éé" is four bytes; the first byte of 'é' (0xc3) is not a digit.
    assert_eq!(
        parse_squash_epoch("-- SQUASH EPOCH \u{e9}\u{e9}"),
        parse_error(SquashEpochParseError::InvalidHexDigit(0xc3))
    );
}

#[test]
fn parse_is_lenient_in_layout() {
    let sql = "\r\n   \t\n  --   squash Epoch   DEAD , Be00 ,01\r\nSELECT 1;";
    assert_eq!(
        parse_squash_epoch(sql).unwrap().unwrap(),
        vec![vec![0xde, 0xad], vec![0xbe, 0x00], vec![0x01]]
    );
    // No white space is needed after the keyword.
    assert_eq!(
        parse_squash_epoch("--SQUASH EPOCHab").unwrap().unwrap(),
        vec![vec![0xab]]
    );
    // Unicode white space is trimmed like ASCII white space.
    assert_eq!(
        parse_squash_epoch("\u{3000}-- SQUASH EPOCH\u{a0}ff\u{2003}").unwrap().unwrap(),
        vec![vec![0xff]]
    );
}

#[test]
fn parse_only_reads_first_content_line() {
    assert_eq!(
        parse_squash_epoch("CREATE TABLE t;\n-- SQUASH EPOCH ab").unwrap(),
        None
    );
    assert_eq!(parse_squash_epoch("-- some other comment\n").unwrap(), None);
    assert_eq!(parse_squash_epoch("-- SQUASH EPOC ab").unwrap(), None);
    assert_eq!(parse_squash_epoch("- SQUASH EPOCH ab").unwrap(), None);
    assert_eq!(parse_squash_epoch("  \n \t ").unwrap(), None);
    assert_eq!(
        parse_squash_epoch("-- squash epochs"),
        parse_error(SquashEpochParseError::OddHexLength(1))
    );
}

#[test]
fn format_writes_lowercase_hex() {
    assert_eq!(format_squash_epoch_header(&[]), "-- SQUASH EPOCH ");
    assert_eq!(
        format_squash_epoch_header(&[vec![0x00, 0x0f, 0xf0, 0xff]]),
        "-- SQUASH EPOCH 000ff0ff"
    );
    assert_eq!(
        format_squash_epoch_header(&[vec![1], vec![], vec![0xab]]),
        "-- SQUASH EPOCH 01,,ab"
    );
    let header = format_squash_epoch_header(&[vec![7u8; 48], vec![0x9a; 3]]);
    assert!(header.starts_with("-- SQUASH EPOCH "));
    assert_eq!(header.len(), 16 + 96 + 1 + 6);
}

#[test]
fn header_roundtrip_law_examples() {
    let sets: Vec<Vec<Vec<u8>>> = vec![
        vec![vec![0u8; 48], vec![1u8; 48]],
        vec![vec![0xff]],
        vec![(0u8..=255).collect()],
        vec![vec![0x10, 0x20], vec![0xa0], vec![0x0b, 0x0c, 0x0d]],
    ];
    for cs in sets {
        let header = format_squash_epoch_header(&cs);
        assert_eq!(parse_squash_epoch(&header).unwrap().unwrap(), cs);
        let with_tail = format!("{header}\nCREATE TABLE x (id INT);\n-- SQUASH EPOCH 00\n");
        assert_eq!(parse_squash_epoch(&with_tail).unwrap().unwrap(), cs);
    }
}

#[test]
fn header_roundtrip_fails_outside_the_law() {
    // An empty list: the header has no checksum after the keyword.
    let header = format_squash_epoch_header(&[]);
    assert_eq!(
        parse_squash_epoch(&header),
        parse_error(SquashEpochParseError::MissingChecksums)
    );
    // An empty checksum leaves an empty entry.
    let header = format_squash_epoch_header(&[vec![1], vec![]]);
    assert_eq!(
        parse_squash_epoch(&header),
        parse_error(SquashEpochParseError::EmptyChecksumEntry)
    );
}
