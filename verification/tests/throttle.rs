use sudo2fa::throttle::{
    check, check_at, last_failure, record_failure, retry_after, state_text, WINDOW_MS,
};

#[test]
fn window_blocks_then_opens() {
    let last = 1_000_000;
    assert_eq!(retry_after(last, last), Some(WINDOW_MS));
    assert_eq!(retry_after(last, last + 2_999), Some(1));
    assert_eq!(retry_after(last, last + 3_000), None);
    assert_eq!(retry_after(last, last + 10_000), None);
    // A clock that jumped backwards must not extend the lockout forever.
    assert_eq!(retry_after(last, last - 5_000), Some(WINDOW_MS));
}

#[test]
fn throttle_check_messages() {
    assert_eq!(check_at(None, 5), Ok(()));
    assert_eq!(
        check_at(Some(1_000), 1_000),
        Err("too many failed attempts; try again in 3s".to_string())
    );
    assert_eq!(
        check_at(Some(1_000), 2_001),
        Err("too many failed attempts; try again in 2s".to_string())
    );
    assert_eq!(
        check_at(Some(1_000), 3_999),
        Err("too many failed attempts; try again in 1s".to_string())
    );
    assert_eq!(check_at(Some(1_000), 4_000), Ok(()));
    assert_eq!(check(None), Ok(()));
}

#[test]
fn throttle_state_round_trip() {
    assert_eq!(state_text(0), "0");
    assert_eq!(state_text(1_712_345_678_901), "1712345678901");
    let text = state_text(1_712_345_678_901);
    assert_eq!(last_failure(0, 0o100600, Some(&text)), Some(1_712_345_678_901));
    assert_eq!(last_failure(0, 0o600, Some(" 42\n")), Some(42));
    let now = record_failure();
    assert!(last_failure(0, 0o600, Some(&now)).is_some());
}

#[test]
fn throttle_untrusted_state_is_ignored() {
    assert_eq!(last_failure(1000, 0o600, Some("42")), None);
    assert_eq!(last_failure(0, 0o644, Some("42")), None);
    assert_eq!(last_failure(0, 0o600, None), None);
    assert_eq!(last_failure(0, 0o600, Some("4x2")), None);
    assert_eq!(last_failure(0, 0o600, Some("")), None);
    assert_eq!(
        last_failure(0, 0o600, Some("340282366920938463463374607431768211456")),
        None
    );
    assert_eq!(
        last_failure(0, 0o600, Some("340282366920938463463374607431768211455")),
        Some(u128::MAX)
    );
}
