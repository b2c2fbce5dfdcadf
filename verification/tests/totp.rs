use sudo2fa::totp::{accept_at, code, recorded_step, secret_text, step_text, verify, verify_at};

#[test]
fn rfc6238_sha1() {
    let secret = b"12345678901234567890";
    assert_eq!(code(secret, 59), 287082);
    assert_eq!(code(secret, 1111111109), 81804);
}

#[test]
fn totp_more_rfc6238_times() {
    let secret = b"12345678901234567890";
    assert_eq!(code(secret, 1111111111), 50471);
    assert_eq!(code(secret, 1234567890), 5924);
    assert_eq!(code(secret, 2000000000), 279037);
}

#[test]
fn totp_window_accepts_neighbouring_steps() {
    let secret = b"12345678901234567890";
    let now = 1111111109;
    for t in [now, now - 30, now - 60, now + 30] {
        let c = format!("{:06}", code(secret, t));
        assert!(verify_at(secret, &c, now));
    }
    let far = format!("{:06}", code(secret, now - 90));
    let far_next = format!("{:06}", code(secret, now + 60));
    let expected_far = far == format!("{:06}", code(secret, now))
        || far == format!("{:06}", code(secret, now - 30))
        || far == format!("{:06}", code(secret, now - 60))
        || far == format!("{:06}", code(secret, now + 30));
    assert_eq!(verify_at(secret, &far, now), expected_far);
    let expected_next = far_next == format!("{:06}", code(secret, now))
        || far_next == format!("{:06}", code(secret, now - 30))
        || far_next == format!("{:06}", code(secret, now - 60))
        || far_next == format!("{:06}", code(secret, now + 30));
    assert_eq!(verify_at(secret, &far_next, now), expected_next);
}

#[test]
fn totp_rejects_non_numbers() {
    let secret = b"12345678901234567890";
    assert!(!verify_at(secret, "", 59));
    assert!(!verify_at(secret, "abc", 59));
    assert!(!verify_at(secret, "-287082", 59));
    assert!(verify_at(secret, "+287082", 59));
    assert!(!verify_at(secret, "99999999999", 59));
    assert!(!verify(secret, "not-a-code"));
}

#[test]
fn totp_secret_text_is_base32() {
    assert_eq!(secret_text(b"Hello!\xde\xad\xbe\xef"), "JBSWY3DPEHPK3PXP");
}

#[test]
fn totp_accept_records_the_step() {
    let secret = b"12345678901234567890";
    let now = 1111111109;
    let step = now / 30;
    let c = format!("{:06}", code(secret, now));
    assert_eq!(accept_at(secret, &c, now, None), Some(step));
    assert_eq!(accept_at(secret, &c, now, Some(step - 1)), Some(step));
    assert_eq!(accept_at(secret, &c, now, Some(step)), None);
    assert_eq!(accept_at(secret, &c, now + 10, Some(step + 1)), None);
    let previous = format!("{:06}", code(secret, now - 30));
    assert_eq!(accept_at(secret, &previous, now, Some(step - 2)), Some(step - 1));
    assert_eq!(accept_at(secret, &previous, now, Some(step - 1)), None);
    let next = format!("{:06}", code(secret, now + 30));
    assert_eq!(accept_at(secret, &next, now, Some(step)), Some(step + 1));
    assert_eq!(accept_at(secret, "abc", now, None), None);
}

#[test]
fn totp_recorded_step_state() {
    assert_eq!(step_text(37037036), "37037036");
    assert_eq!(recorded_step(0, 0o100600, Some("37037036\n")), Some(37037036));
    assert_eq!(recorded_step(1000, 0o600, Some("37037036")), None);
    assert_eq!(recorded_step(0, 0o644, Some("37037036")), None);
    assert_eq!(recorded_step(0, 0o600, Some("step")), None);
    assert_eq!(recorded_step(0, 0o600, None), None);
}
