use sudo2fa::procinfo::{named_uid, parent_pid, real_uid};

#[test]
fn procinfo_real_uid() {
    let status = "Name:\tsudo2fa\nUmask:\t0022\nState:\tR (running)\nUid:\t1000\t0\t0\t0\nGid:\t1000\t1000\t1000\t1000\n";
    assert_eq!(real_uid(status), 1000);
    assert_eq!(real_uid("Name:\tx\n"), 65534);
    assert_eq!(real_uid("Uid:\n"), 65534);
    assert_eq!(real_uid("Uid:\tabc\t0\nUid:\t5\n"), 65534);
}

#[test]
fn procinfo_parent_pid() {
    assert_eq!(parent_pid("4242 (bash) S 987 4242 4242 34816"), 987);
    // A command name may itself hold ") ".
    assert_eq!(parent_pid("1 (odd) name) R 55 1 1"), 55);
    assert_eq!(parent_pid("garbage"), 0);
    assert_eq!(parent_pid("1 (x) S"), 0);
}

#[test]
fn procinfo_named_uid() {
    assert_eq!(named_uid("1000\n", "alice"), Ok(1000));
    assert_eq!(
        named_uid("", "nosuch"),
        Err("cannot resolve user nosuch".to_string())
    );
    assert_eq!(
        named_uid("id: 'x': no such user\n", "x"),
        Err("cannot resolve user x".to_string())
    );
}
