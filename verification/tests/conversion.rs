use r_vlr_util::conversion::{from_utf16, from_utf16_lossy, to_utf16};

#[test]
fn utf8_and_utf16_round_trip_non_ascii_text() {
    let original = "Hello, 世界";
    let utf16 = to_utf16(original);
    assert_eq!(from_utf16(&utf16).unwrap(), original);
    assert!(from_utf16_lossy(&[0xd800]).contains('\u{fffd}'));
}

#[test]
fn surrogate_pairs_encode_and_decode() {
    let text = "a😀b";
    let units = to_utf16(text);
    assert_eq!(units, vec![0x61, 0xD83D, 0xDE00, 0x62]);
    assert_eq!(from_utf16(&units).unwrap(), text);
}

#[test]
fn unpaired_surrogates_are_rejected_or_replaced() {
    assert!(from_utf16(&[0x61, 0xDC00]).is_err());
    assert!(from_utf16(&[0xD800, 0x61]).is_err());
    assert_eq!(from_utf16_lossy(&[0x61, 0xDC00, 0x62]), "a\u{fffd}b");
    assert_eq!(from_utf16_lossy(&[]), "");
}
