use sudo2fa::base64::{decode, encode};

#[test]
fn rfc4648() {
    assert_eq!(encode(b"foo"), "Zm9v");
    assert_eq!(encode(b"fo"), "Zm8");
    assert_eq!(encode(b"f"), "Zg");
    assert_eq!(encode(b"\xfb\xef\xff"), "--__");
    assert_eq!(decode("Zm9v").unwrap(), b"foo");
    assert_eq!(decode("Zm8=").unwrap(), b"fo");
}

#[test]
fn round_trip_all_lengths() {
    for len in 0..40 {
        let bytes = (0..len).map(|i| (i * 37 + 11) as u8).collect::<Vec<_>>();
        assert_eq!(decode(&encode(&bytes)).unwrap(), bytes);
    }
}

#[test]
fn base64_empty_and_whitespace() {
    assert_eq!(encode(b""), "");
    assert_eq!(decode("").unwrap(), Vec::<u8>::new());
    assert_eq!(decode(" Zm\n9v\t=").unwrap(), b"foo");
}

#[test]
fn base64_rejects_foreign_characters() {
    assert_eq!(decode("Zm9v+"), Err("invalid token".to_string()));
    assert_eq!(decode("Zm/v"), Err("invalid token".to_string()));
    assert_eq!(decode("é"), Err("invalid token".to_string()));
}

#[test]
fn base64_single_leftover_sextet_is_dropped() {
    assert_eq!(decode("Zm9vY").unwrap(), b"foo");
}

#[test]
fn base64_skipped_characters_do_not_count() {
    assert_eq!(decode(" Zm\t9v\n").unwrap(), b"foo");
    assert_eq!(decode("Zm8=").unwrap(), decode("Zm8").unwrap());
    // Five significant characters carry 6 * 5 / 8 = 3 bytes.
    assert_eq!(decode("Zm9v= Z").unwrap().len(), 3);
}
