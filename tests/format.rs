use smt_cli::format::{array_format, hex_format};

#[test]
fn hex_format_two_digits_per_byte() {
    assert_eq!(hex_format(&[0xff, 0x0a, 0x00]), "0xff0a00");
    assert_eq!(hex_format(&[]), "0x");
}

#[test]
fn array_format_decimal_with_commas() {
    assert_eq!(array_format(&[12, 34, 0, 255]), "12,34,0,255");
    assert_eq!(array_format(&[7]), "7");
    assert_eq!(array_format(&[]), "");
}
