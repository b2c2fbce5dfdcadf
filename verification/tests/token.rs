use sudo2fa::token::{issue, issue_at, verify, verify_at};

#[test]
fn round_trip() {
    let t = issue(b"secret", 120, 42);
    assert_eq!(t.len(), 16);
    assert_eq!(verify(b"secret", &t, 42), Ok(()));
    assert!(verify(b"wrong", &t, 42).is_err());
    assert!(verify(b"secret", &t, 7).is_err());
}

#[test]
fn cross_process_token_matches_any_parent() {
    let t = issue(b"secret", 120, 0);
    assert_eq!(verify(b"secret", &t, 12345), Ok(()));
}

#[test]
fn tampering_is_rejected() {
    let t = issue(b"secret", 120, 42);
    let mut chars: Vec<char> = t.chars().collect();
    chars[0] = if chars[0] == 'A' { 'B' } else { 'A' };
    let bad: String = chars.into_iter().collect();
    assert!(verify(b"secret", &bad, 42).is_err());
}

#[test]
fn token_expiry_is_enforced() {
    let t = issue_at(b"secret", 120, 42, 1_000_000);
    assert_eq!(verify_at(b"secret", &t, 42, 1_000_120), Ok(()));
    assert_eq!(
        verify_at(b"secret", &t, 42, 1_000_121),
        Err("token expired".to_string())
    );
}

#[test]
fn token_errors_name_their_cause() {
    assert_eq!(
        verify_at(b"secret", "!!!!", 42, 0),
        Err("invalid token".to_string())
    );
    assert_eq!(
        verify_at(b"secret", "AAAA", 42, 0),
        Err("invalid token length".to_string())
    );
    assert_eq!(
        verify_at(b"secret", "AAAAAAAAAAAAAAAA", 42, 0),
        Err("invalid token signature".to_string())
    );
    let t = issue_at(b"secret", 120, 42, 1_000_000);
    assert_eq!(
        verify_at(b"secret", &t, 7, 1_000_000),
        Err("invalid token signature".to_string())
    );
}

#[test]
fn token_is_deterministic_for_a_given_time() {
    let a = issue_at(b"secret", 120, 42, 1_000_000);
    let b = issue_at(b"secret", 100, 42, 1_000_020);
    assert_eq!(a, b);
    assert_ne!(a, issue_at(b"secret", 120, 43, 1_000_000));
}
