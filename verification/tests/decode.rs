use projicio::decode::{read_i32, read_u32, read_u64};
use projicio::utm::utm_origin;

#[test]
fn reads_both_byte_orders() {
    let buf = [0x01, 0x02, 0x03, 0x04, 0x05, 0x06, 0x07, 0x08];
    assert_eq!(read_u32(&buf, 0, true), 0x04030201);
    assert_eq!(read_u32(&buf, 0, false), 0x01020304);
    assert_eq!(read_u32(&buf, 4, true), 0x08070605);
    assert_eq!(read_u64(&buf, 0, true), 0x0807060504030201);
    assert_eq!(read_u64(&buf, 0, false), 0x0102030405060708);
}

#[test]
fn reads_negative_i32() {
    let buf = (-11i32).to_le_bytes();
    assert_eq!(read_i32(&buf, 0, true), -11);
    let buf = i32::MIN.to_be_bytes();
    assert_eq!(read_i32(&buf, 0, false), i32::MIN);
    let buf = 11i32.to_be_bytes();
    assert_eq!(read_i32(&buf, 0, false), 11);
    assert_eq!(read_i32(&buf, 0, true), 11 << 24);
}

#[test]
fn f64_bits_round_trip() {
    let buf = 1.5f64.to_be_bytes();
    assert_eq!(f64::from_bits(read_u64(&buf, 0, false)), 1.5);
}

#[test]
fn utm_zone_origins() {
    assert_eq!(utm_origin(18, true), (-75, 0));
    assert_eq!(utm_origin(1, false), (-177, 10_000_000));
    assert_eq!(utm_origin(31, true), (3, 0));
    assert_eq!(utm_origin(60, true), (177, 0));
}
