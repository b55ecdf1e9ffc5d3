//! Tests for the hex, octal, and decimal codecs.

use gitcore::num::{_decode_hex_digit, dec_of_i64, dec_of_u64, oct_of, parse_dec_u64, parse_hex,
    parse_octal, to_hex};

#[test]
fn test_hex_decode() {
    assert_eq!(_decode_hex_digit(b'f').unwrap(), 0xf);
    assert_eq!(_decode_hex_digit(b'9').unwrap(), 0x9);
    assert_eq!(_decode_hex_digit(b'F').unwrap(), 0xf);
    assert_eq!(_decode_hex_digit(b'Z'), None);
}

#[test]
fn test_parse_hex() {
    assert_eq!(parse_hex(b"00").unwrap(), vec![0x00]);
    assert_eq!(parse_hex(b"10").unwrap(), vec![0x10]);
    assert_eq!(parse_hex(b"a1").unwrap(), vec![0xa1]);
    assert_eq!(parse_hex(b"a1b2").unwrap(), vec![0xa1, 0xb2]);
}

#[test]
fn test_parse_octal() {
    assert_eq!(parse_octal("777".as_bytes()).unwrap(), 0o777);
    assert_eq!(parse_octal("501".as_bytes()).unwrap(), 0o501);
    assert_eq!(parse_octal("8".as_bytes()), None);
}

#[test]
fn test_hex_encode() {
    assert_eq!(to_hex(&vec![0x00, 0xff, 0x1a]), b"00ff1a".to_vec());
    assert_eq!(to_hex(&Vec::new()), Vec::<u8>::new());
}

#[test]
fn test_octal_render() {
    assert_eq!(oct_of(0o100644), b"100644".to_vec());
    assert_eq!(oct_of(0), b"0".to_vec());
    assert_eq!(oct_of(0o40000), b"40000".to_vec());
}

#[test]
fn test_decimal_render() {
    assert_eq!(dec_of_u64(0), b"0".to_vec());
    assert_eq!(dec_of_u64(287), b"287".to_vec());
    assert_eq!(dec_of_i64(-1586391037), b"-1586391037".to_vec());
    assert_eq!(dec_of_i64(i64::MIN), b"-9223372036854775808".to_vec());
}

#[test]
fn test_decimal_parse() {
    assert_eq!(parse_dec_u64(&b"1586391037".to_vec()), Some(1586391037));
    assert_eq!(parse_dec_u64(&b"".to_vec()), None);
    assert_eq!(parse_dec_u64(&b"12x".to_vec()), None);
    assert_eq!(parse_dec_u64(&b"18446744073709551615".to_vec()), Some(u64::MAX));
    assert_eq!(parse_dec_u64(&b"18446744073709551616".to_vec()), None);
}
