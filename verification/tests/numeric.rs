use r_vlr_util::numeric::{checked_cast, combine_u32, crc32, is_bit_set, is_single_bit, ResourceString};

#[test]
fn bit_and_combine_helpers_work() {
    assert!(is_bit_set(0b1011, 0b0011));
    assert!(!is_bit_set(0b1001, 0b0011));
    assert!(is_single_bit(8));
    assert!(!is_single_bit(0));
    assert!(!is_single_bit(3));
    assert_eq!(combine_u32(0x89ab_cdef, 0x0123_4567), 0x0123_4567_89ab_cdef);
}

#[test]
fn checked_cast_reports_range_errors() {
    assert_eq!(checked_cast::<u8, _>(42_u16), Ok(42));
    assert!(checked_cast::<u8, _>(256_u16).is_err());
    assert!(checked_cast::<u32, _>(-1_i32).is_err());
}

#[test]
fn checksum_matches_standard_vector() {
    assert_eq!(crc32(b"123456789"), 0xcbf4_3926);
    assert_eq!(ResourceString::new("value").crc32, crc32(b"value"));
}

#[test]
fn checksum_of_nothing_is_zero() {
    assert_eq!(crc32(b""), 0);
    assert_eq!(crc32(b"a"), 0xe8b7_be43);
}

#[test]
fn single_bits_cover_every_position() {
    assert!(is_single_bit(1));
    assert!(is_single_bit(1 << 63));
    assert!(!is_single_bit(u64::MAX));
}
