use sudo2fa::keyfile::{key_owner, lookup, otpauth_uri, replace_record, setup_allowed, setup_target};

#[test]
fn keyfile_lookup_finds_the_users_record() {
    let store = "0:JBSWY3DPEHPK3PXP\n1000:MZXW6YTBOI\n";
    assert_eq!(lookup(store, "1000").unwrap(), b"foobar");
    assert_eq!(lookup(store, "0").unwrap(), b"Hello!\xde\xad\xbe\xef");
    assert_eq!(lookup(store, "100"), Err("no TOTP key for this user".to_string()));
    assert_eq!(lookup("", "0"), Err("no TOTP key for this user".to_string()));
    assert_eq!(
        lookup("0:not base32!\n", "0"),
        Err("invalid base32 secret".to_string())
    );
    // The first record wins; a bare uid line has an empty secret.
    assert_eq!(lookup("7:MY\n7:MZXQ\n", "7").unwrap(), b"f");
    assert_eq!(lookup("7\n7:MY\n", "7").unwrap(), Vec::<u8>::new());
}

#[test]
fn keyfile_replace_keeps_other_admins() {
    let store = "0:JBSWY3DPEHPK3PXP\n1000:MZXW6YTBOI\n10000:MY\n";
    let updated = replace_record(store, 1000, b"fo");
    assert_eq!(updated, "0:JBSWY3DPEHPK3PXP\n10000:MY\n1000:MZXQ\n");
    assert_eq!(lookup(&updated, "1000").unwrap(), b"fo");
    assert_eq!(lookup(&updated, "0").unwrap(), b"Hello!\xde\xad\xbe\xef");
    assert_eq!(lookup(&updated, "10000").unwrap(), b"f");
    assert_eq!(replace_record("", 0, b"f"), "0:MY\n");
}

#[test]
fn keyfile_otpauth_uri() {
    assert_eq!(
        otpauth_uri(b"Hello!\xde\xad\xbe\xef"),
        "otpauth://totp/sudo2fa?secret=JBSWY3DPEHPK3PXP&issuer=sudo2fa"
    );
}

#[test]
fn keyfile_owner_and_setup_target() {
    assert_eq!(key_owner(Some(1000), 0), 1000);
    assert_eq!(key_owner(None, 1001), 1001);
    assert_eq!(setup_target(Some(1000)), 1000);
    assert_eq!(setup_target(None), 0);
    assert_eq!(setup_allowed(0), Ok(()));
    assert_eq!(setup_allowed(1000), Err("setup must be run as root".to_string()));
}
