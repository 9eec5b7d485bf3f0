use reducto::crc::CRC32;

#[test]
fn crc_of_nothing_is_zero() {
    let mut crc = CRC32::new();
    assert_eq!(crc.crc(&[]), 0x0000_0000);
}

#[test]
fn crc_of_check_string() {
    let mut crc = CRC32::new();
    assert_eq!(crc.crc(b"123456789"), 0xCBF4_3926);
}

#[test]
fn crc_in_two_parts() {
    let mut crc = CRC32::new();
    let first = crc.update_crc(0, b"1234");
    let both = crc.update_crc(first, b"56789");
    assert_eq!(both, 0xCBF4_3926);
}

#[test]
fn crc_of_one_byte() {
    let mut crc = CRC32::new();
    assert_eq!(crc.crc(b"a"), 0xE8B7_BE43);
}
