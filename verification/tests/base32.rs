use sudo2fa::base32::{decode, encode};

#[test]
fn base32_rfc4648_vectors_without_padding() {
    assert_eq!(encode(b""), "");
    assert_eq!(encode(b"f"), "MY");
    assert_eq!(encode(b"fo"), "MZXQ");
    assert_eq!(encode(b"foo"), "MZXW6");
    assert_eq!(encode(b"foob"), "MZXW6YQ");
    assert_eq!(encode(b"fooba"), "MZXW6YTB");
    assert_eq!(encode(b"foobar"), "MZXW6YTBOI");
}

#[test]
fn base32_decode_tolerates_padding() {
    assert_eq!(decode("MZXW6YTBOI======").unwrap(), b"foobar");
    assert_eq!(decode("MY======").unwrap(), b"f");
    assert_eq!(decode("MZXW6YQ=").unwrap(), b"foob");
    assert_eq!(decode("JBSWY3DPEHPK3PXP").unwrap(), b"Hello!\xde\xad\xbe\xef");
}

#[test]
fn base32_rejects_foreign_characters() {
    assert_eq!(decode("MZXW1"), Err("invalid base32 secret".to_string()));
    assert_eq!(decode("mzxw6"), Err("invalid base32 secret".to_string()));
}

#[test]
fn base32_round_trip_all_lengths() {
    for len in 0..41 {
        let bytes = (0..len).map(|i| (i * 53 + 7) as u8).collect::<Vec<_>>();
        assert_eq!(decode(&encode(&bytes)).unwrap(), bytes);
    }
}
