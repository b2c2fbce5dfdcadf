use sudo2fa::cli::{authenticate_at, parse, plan, Action, Invocation};
use sudo2fa::token::issue_at;
use sudo2fa::totp::code;

fn args(v: &[&str]) -> Vec<String> {
    v.iter().map(|s| s.to_string()).collect()
}

fn request(v: &[&str]) -> sudo2fa::cli::Request {
    match parse(&args(v)).unwrap() {
        Invocation::Authorize(r) => r,
        Invocation::Setup { .. } => panic!("not a request"),
    }
}

#[test]
fn cli_usage_and_setup() {
    assert_eq!(
        parse(&args(&[])).err(),
        Some("usage: sudo2fa <code|token> [options] command...".to_string())
    );
    assert!(matches!(parse(&args(&["setup"])), Ok(Invocation::Setup { qrcode: false })));
    assert!(matches!(parse(&args(&["setup", "-q"])), Ok(Invocation::Setup { qrcode: true })));
    assert!(matches!(
        parse(&args(&["setup", "--qrcode"])),
        Ok(Invocation::Setup { qrcode: true })
    ));
}

#[test]
fn cli_flags_and_command() {
    let r = request(&["123456", "apt", "update"]);
    assert_eq!(r.credential, "123456");
    assert_eq!(r.command, args(&["apt", "update"]));
    assert!(!r.token_mode && !r.login && !r.cross && r.user.is_none());

    let r = request(&["123456", "-t", "300", "-c"]);
    assert!(r.token_mode && r.cross);
    assert_eq!(r.seconds, 300);
    assert!(r.command.is_empty());

    let r = request(&["123456", "--user", "bob", "-i"]);
    assert_eq!(r.user.as_deref(), Some("bob"));
    assert!(r.login);

    let r = request(&["123456", "--", "ls", "-t", "-u", "x"]);
    assert_eq!(r.command, args(&["ls", "-t", "-u", "x"]));
    assert!(!r.token_mode);

    // A number is a lifetime only in token mode before any command word.
    let r = request(&["123456", "sleep", "5"]);
    assert_eq!(r.command, args(&["sleep", "5"]));
    assert_eq!(r.seconds, 120);

    let r = request(&["123456", "-u"]);
    assert!(r.user.is_none());
}

#[test]
fn cli_plan() {
    let r = request(&["c", "-t", "10"]);
    assert_eq!(
        plan(&r, None, 7).err(),
        Some("token lifetime must be between 20 and 1800 seconds".to_string())
    );
    let r = request(&["c", "-t"]);
    assert!(matches!(plan(&r, None, 7), Ok(Action::MintToken { seconds: 120, parent: 7 })));
    let r = request(&["c", "-t", "1800", "--cross-process"]);
    assert!(matches!(plan(&r, None, 7), Ok(Action::MintToken { seconds: 1800, parent: 0 })));

    let r = request(&["c"]);
    assert_eq!(plan(&r, None, 7).err(), Some("no command specified".to_string()));

    let r = request(&["c", "ls", "-l", "/root"]);
    match plan(&r, None, 7).unwrap() {
        Action::Run { program, args: a } => {
            assert_eq!(program, "ls");
            assert_eq!(a, args(&["-l", "/root"]));
        }
        _ => panic!("expected Run"),
    }

    let r = request(&["c", "-i"]);
    match plan(&r, Some("/bin/zsh".to_string()), 7).unwrap() {
        Action::Run { program, args: a } => {
            assert_eq!(program, "/bin/zsh");
            assert!(a.is_empty());
        }
        _ => panic!("expected Run"),
    }

    let r = request(&["c", "-u", "bob", "--", "id", "-u"]);
    match plan(&r, None, 7).unwrap() {
        Action::RunAs { user, script } => {
            assert_eq!(user, "bob");
            assert_eq!(script, "id -u");
        }
        _ => panic!("expected RunAs"),
    }
}

#[test]
fn cli_authenticate_code_or_token() {
    let secret = b"12345678901234567890";
    let now = 1111111109;
    let c = format!("{:06}", code(secret, now));
    assert_eq!(authenticate_at(secret, &c, 42, now, None), Ok(Some(now / 30)));
    let t = issue_at(secret, 120, 42, now);
    assert_eq!(authenticate_at(secret, &t, 42, now, None), Ok(None));
    assert_eq!(authenticate_at(secret, &t, 42, now, Some(now / 30)), Ok(None));
    assert_eq!(
        authenticate_at(secret, &t, 42, now + 121, None),
        Err("token expired".to_string())
    );
    assert_eq!(
        authenticate_at(secret, "000000!", 42, now, None),
        Err("invalid token".to_string())
    );
}

#[test]
fn cli_code_authorizes_once() {
    let secret = b"12345678901234567890";
    let now = 1111111109;
    let c = format!("{:06}", code(secret, now));
    let first = authenticate_at(secret, &c, 42, now, Some(now / 30 - 1));
    assert_eq!(first, Ok(Some(now / 30)));
    let again = authenticate_at(secret, &c, 42, now - 5, Some(now / 30));
    assert_eq!(again, Err("code already used".to_string()));
    // The next step's code is still good after this one was used.
    let next = format!("{:06}", code(secret, now + 30));
    assert_eq!(
        authenticate_at(secret, &next, 42, now, Some(now / 30)),
        Ok(Some(now / 30 + 1))
    );
}

#[test]
fn cli_user_flag_without_name_clears_user() {
    // "-u" as the last argument takes no account name and leaves none.
    let r = request(&["c", "-u", "bob", "id", "-u"]);
    assert!(r.user.is_none());
    assert_eq!(r.command, args(&["id"]));
}
