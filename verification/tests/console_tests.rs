use tg_rcore_tutorial::console::{decimal_digits, hex_digits};

#[test]
fn decimal_digits_have_no_leading_zeros() {
    assert_eq!(decimal_digits(0), b"0".to_vec());
    assert_eq!(decimal_digits(7), b"7".to_vec());
    assert_eq!(decimal_digits(1234), b"1234".to_vec());
    assert_eq!(decimal_digits(u32::MAX), b"4294967295".to_vec());
}

#[test]
fn hex_digits_are_sixteen_lowercase_nibbles() {
    assert_eq!(hex_digits(0), b"0x0000000000000000".to_vec());
    assert_eq!(hex_digits(0x1f), b"0x000000000000001f".to_vec());
    assert_eq!(hex_digits(0x8020_0000), b"0x0000000080200000".to_vec());
    assert_eq!(hex_digits(u64::MAX), b"0xffffffffffffffff".to_vec());
}
