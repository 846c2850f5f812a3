use smt_cli::parse::{parse_hash, parse_hashes, parse_index, ParseError};

fn padded(prefix: &[u8]) -> [u8; 32] {
    let mut h = [0u8; 32];
    h[..prefix.len()].copy_from_slice(prefix);
    h
}

#[test]
fn test_parse_hashes() {
    let arg = "0xFF|0x0|0x1234567890";
    let hashes = parse_hashes(arg).unwrap();
    assert_eq!(
        hashes,
        vec![
            [
                0xff, 0, 0, 0, 0, 0, 0, 0, 0, 0, 0, 0, 0, 0, 0, 0, 0, 0, 0, 0, 0, 0, 0, 0, 0, 0, 0,
                0, 0, 0, 0, 0
            ],
            [0; 32],
            [
                0x12, 0x34, 0x56, 0x78, 0x90, 0, 0, 0, 0, 0, 0, 0, 0, 0, 0, 0, 0, 0, 0, 0, 0, 0, 0,
                0, 0, 0, 0, 0, 0, 0, 0, 0
            ]
        ]
    );
    let arg2 = "0xFF|0|12,34,56,78,90";
    let hashes2 = parse_hashes(arg2).unwrap();
    assert_eq!(
        hashes2,
        vec![
            [
                0xff, 0, 0, 0, 0, 0, 0, 0, 0, 0, 0, 0, 0, 0, 0, 0, 0, 0, 0, 0, 0, 0, 0, 0, 0, 0, 0,
                0, 0, 0, 0, 0
            ],
            [0; 32],
            [
                12, 34, 56, 78, 90, 0, 0, 0, 0, 0, 0, 0, 0, 0, 0, 0, 0, 0, 0, 0, 0, 0, 0, 0, 0, 0,
                0, 0, 0, 0, 0, 0
            ]
        ]
    );
}

#[test]
fn test_parse_hashes2() {
    let arg = "255 | 0 |12,34,56,78,90";
    let hashes = parse_hashes(arg).unwrap();
    assert_eq!(
        hashes,
        vec![
            [
                255, 0, 0, 0, 0, 0, 0, 0, 0, 0, 0, 0, 0, 0, 0, 0, 0, 0, 0, 0, 0, 0, 0, 0, 0, 0, 0,
                0, 0, 0, 0, 0
            ],
            [0; 32],
            [
                12, 34, 56, 78, 90, 0, 0, 0, 0, 0, 0, 0, 0, 0, 0, 0, 0, 0, 0, 0, 0, 0, 0, 0, 0, 0,
                0, 0, 0, 0, 0, 0
            ]
        ]
    );
}

#[test]
fn test_parse_index() {
    let arg = "0|1|2";
    let indexes = parse_index(arg).unwrap();
    assert_eq!(indexes, vec![0, 1, 2]);
}

#[test]
fn hex_literal_pads_with_zeros() {
    assert_eq!(parse_hash("0xFF"), Ok(padded(&[0xff])));
}

#[test]
fn decimal_literal_pads_with_zeros() {
    assert_eq!(parse_hash("12,34"), Ok(padded(&[12, 34])));
}

#[test]
fn upper_case_prefix_and_odd_digit_count() {
    assert_eq!(parse_hash("  0XaBc "), Ok(padded(&[0xab, 0x0c])));
}

#[test]
fn spaces_inside_decimal_list_are_ignored() {
    assert_eq!(parse_hash("1, 2 ,3"), Ok(padded(&[1, 2, 3])));
}

#[test]
fn full_width_hex_literal() {
    let text = format!("0x{}", "ab".repeat(32));
    assert_eq!(parse_hash(&text), Ok([0xab; 32]));
}

#[test]
fn bad_hex_digit_is_rejected() {
    assert_eq!(parse_hash("0xzz"), Err(ParseError::NotHex));
}

#[test]
fn bad_decimal_byte_is_rejected() {
    assert_eq!(parse_hash("256"), Err(ParseError::NotAByte));
    assert_eq!(parse_hash("1,,2"), Err(ParseError::NotAByte));
    assert_eq!(parse_hash("0x"), Err(ParseError::NotAByte));
}

#[test]
fn more_than_32_bytes_is_rejected() {
    let text = format!("0x{}", "00".repeat(33));
    assert_eq!(parse_hash(&text), Err(ParseError::TooLong));
    let list = vec!["1"; 33].join(",");
    assert_eq!(parse_hash(&list), Err(ParseError::TooLong));
}

#[test]
fn index_list_with_whitespace() {
    assert_eq!(parse_index(" 3 | 10|+7 "), Ok(vec![3, 10, 7]));
}

#[test]
fn bad_index_is_rejected() {
    assert_eq!(parse_index("1|x"), Err(ParseError::NotANumber));
    assert_eq!(parse_index("1||2"), Err(ParseError::NotANumber));
    assert_eq!(parse_index("-1"), Err(ParseError::NotANumber));
    assert_eq!(parse_index("99999999999999999999999"), Err(ParseError::NotANumber));
}

#[test]
fn first_bad_hash_gives_the_error() {
    assert_eq!(parse_hashes("0x01|256|0xzz"), Err(ParseError::NotAByte));
    assert_eq!(parse_hashes("0x01|0xzz|256"), Err(ParseError::NotHex));
}

#[test]
fn unicode_whitespace_is_trimmed() {
    assert_eq!(parse_hash("\u{a0}0xff"), Ok(padded(&[0xff])));
    assert_eq!(parse_hash("\u{3000}12,34\u{2029}\u{85}"), Ok(padded(&[12, 34])));
    assert_eq!(parse_index(" 1\u{3000}|2"), Ok(vec![1, 2]));
    assert_eq!(
        parse_hashes("\u{2003}0x01 |\u{1680}2\u{202f}"),
        Ok(vec![padded(&[1]), padded(&[2])])
    );
}
