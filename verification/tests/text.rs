use projicio::error::Error;
use projicio::text::{read_string, trim_field};

#[test]
fn read_string_strips_padding() {
    assert_eq!(read_string(b"TEST    "), "TEST");
    assert_eq!(read_string(b"NONE\0\0\0\0"), "NONE");
    assert_eq!(read_string(b"  MID \0\0"), "MID");
    assert_eq!(read_string(b"\0\0\0\0\0\0\0\0"), "");
}

#[test]
fn read_string_keeps_inner_nul() {
    // Only trailing NULs go before the white space is trimmed.
    assert_eq!(read_string(b"AB \0 \0\0\0"), "AB \0");
}

#[test]
fn read_string_replaces_invalid_utf8() {
    assert_eq!(read_string(&[0x41, 0xFF, 0x42]), "A\u{FFFD}B");
    assert_eq!(read_string("é \u{3000}".as_bytes()), "é");
}

#[test]
fn trim_field_on_chars() {
    let chars: Vec<char> = "\u{a0}x y\t\0\0".chars().collect();
    assert_eq!(trim_field(&chars), vec!['x', ' ', 'y']);
}

#[test]
fn error_messages() {
    assert_eq!(Error::UnsupportedCrs("EPSG:1".to_string()).message(), "unsupported CRS: EPSG:1");
    assert_eq!(Error::InvalidCoordinate("lat".to_string()).message(), "invalid coordinate: lat");
    assert_eq!(Error::ProjectionError("x".to_string()).message(), "projection error: x");
}
