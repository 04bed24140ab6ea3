use r_vlr_util::data::{encode_multi_sz, parse_multi_sz, MultiSzError};

#[test]
fn multi_sz_round_trips() {
    let encoded = encode_multi_sz(&[b"one".as_slice(), b"two".as_slice()]).unwrap();
    assert_eq!(encoded, b"one\0two\0\0");
    assert_eq!(parse_multi_sz(&encoded).unwrap(), [b"one", b"two"]);
    let empty = encode_multi_sz::<u8>(&[] as &[&[u8]]).unwrap();
    assert_eq!(empty, b"\0\0");
    assert!(parse_multi_sz(&empty).unwrap().is_empty());
}

#[test]
fn malformed_multi_sz_is_rejected() {
    assert!(parse_multi_sz(b"one\0two\0").is_err());
    assert!(parse_multi_sz(b"one\0\0two\0\0").is_err());
}

#[test]
fn multi_sz_errors_name_their_cause() {
    assert_eq!(parse_multi_sz(b"one\0two\0"), Err(MultiSzError::MissingDoubleTerminator));
    assert_eq!(parse_multi_sz::<u8>(b"\0"), Err(MultiSzError::MissingDoubleTerminator));
    assert_eq!(encode_multi_sz(&[b"one".as_slice(), b"".as_slice()]), Err(MultiSzError::EmbeddedEmptyValue));
}

#[test]
fn multi_sz_works_on_wide_units() {
    let one: Vec<u16> = vec![0x41, 0x42];
    let two: Vec<u16> = vec![0x43];
    let encoded = encode_multi_sz(&[one.as_slice(), two.as_slice()]).unwrap();
    assert_eq!(encoded, vec![0x41, 0x42, 0, 0x43, 0, 0]);
    assert_eq!(parse_multi_sz(&encoded).unwrap(), [one.as_slice(), two.as_slice()]);
}

#[test]
fn multi_sz_parses_char_units() {
    let units = ['a', '\0', 'b', 'c', '\0', '\0'];
    let values = parse_multi_sz(&units).unwrap();
    assert_eq!(values, [&['a'][..], &['b', 'c'][..]]);
    assert_eq!(parse_multi_sz(&['a', '\0']), Err(MultiSzError::MissingDoubleTerminator));
}
