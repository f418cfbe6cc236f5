use daisy_midi::crc::crc32_ieee;

#[test]
fn crc32_check_value() {
    assert_eq!(crc32_ieee(b"123456789"), 0xCBF4_3926);
}

#[test]
fn crc32_empty_and_single() {
    assert_eq!(crc32_ieee(&[]), 0);
    assert_eq!(crc32_ieee(&[0]), 0xD202_EF8D);
}
