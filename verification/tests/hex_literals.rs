use bytes::Bytes;
use meplang::raw::HexDecodeError;
use meplang::raw::decode_hex_literal;

#[test]
fn decodes_even_digits() {
    let b = decode_hex_literal("0x0102").unwrap();
    assert_eq!(b, Bytes::copy_from_slice(&[0x01, 0x02]));
}

#[test]
fn pads_odd_digits_with_a_leading_zero() {
    let b = decode_hex_literal("0x1").unwrap();
    assert_eq!(b, Bytes::copy_from_slice(&[0x01]));
    let b = decode_hex_literal("0x1ff").unwrap();
    assert_eq!(b, Bytes::copy_from_slice(&[0x01, 0xff]));
}

#[test]
fn mixed_case_digits_decode() {
    let b = decode_hex_literal("0xaAbB").unwrap();
    assert_eq!(b, Bytes::copy_from_slice(&[0xaa, 0xbb]));
}

#[test]
fn rejects_a_bad_character() {
    let e = decode_hex_literal("0x0g").unwrap_err();
    assert_eq!(e, HexDecodeError::InvalidChar { c: 'g', index: 1 });
}

#[test]
fn empty_digits_decode_to_no_bytes() {
    let b = decode_hex_literal("0x").unwrap();
    assert_eq!(b, Bytes::new());
}
