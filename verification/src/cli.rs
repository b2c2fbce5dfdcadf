//! The command line: what the arguments ask for, whether the credential
//! authorizes it, and what is to be run.
//!
//! ```text
//! sudo2fa <code|token> command [args...]      execute as root
//! sudo2fa <code|token> --token [seconds]      mint a token (default 120s, 20-1800s)
//! sudo2fa <code|token> --token --cross-process [seconds]
//! sudo2fa <code|token> --user <name> command  execute as another user
//! sudo2fa <code|token> -i                     start a login shell
//! sudo2fa setup [-q|--qrcode]                 (re)init the invoking admin's key
//! ```
//!
//! Everything after `--` belongs to the command.
use vstd::prelude::*;
use crate::split::same_chars;
use crate::text::{chars_of, parse_u64_chars, parse_u64_spec};

verus! {

/// What an authorized invocation asks for.
pub struct Request {
    /// The TOTP code or token given first.
    pub credential: String,
    /// `-t`/`--token`: mint a token instead of running a command.
    pub token_mode: bool,
    /// `-i`: run a login shell.
    pub login: bool,
    /// `-c`/`--cross-process`: leave a minted token unbound.
    pub cross: bool,
    /// `-u`/`--user`: the account to run the command as.
    pub user: Option<String>,
    /// Token lifetime in seconds.
    pub seconds: u64,
    /// The command and its arguments.
    pub command: Vec<String>,
}

/// What the arguments ask for.
pub enum Invocation {
    /// `setup`: (re)initialize the invoking administrator's key; `qrcode`
    /// when `-q` or `--qrcode` is among the arguments.
    Setup { qrcode: bool },
    /// Anything else: a credential and what it should authorize.
    Authorize(Request),
}

/// What to do once the credential is accepted.
pub enum Action {
    /// Print a token valid for `seconds`, bound to `parent` (0 for none).
    MintToken { seconds: u64, parent: u32 },
    /// Run `program` with `args`.
    Run { program: String, args: Vec<String> },
    /// Run `script` through `/bin/sh -c` as `user`, by way of `su`.
    RunAs { user: String, script: String },
}

/// The views of a sequence of strings.
pub open spec fn string_views(v: Seq<String>) -> Seq<Seq<char>> {
    v.map_values(|s: String| s@)
}

/// The view of an optional string.
pub open spec fn opt_view(o: Option<String>) -> Option<Seq<char>> {
    match o {
        Some(s) => Some(s@),
        None => None,
    }
}

/// Flag-parsing state: after `--`, token mode, login, cross-process,
/// user, token lifetime, command words.
pub type FlagState = (bool, bool, bool, bool, Option<Seq<char>>, u64, Seq<Seq<char>>);

/// The state before any flag.
pub open spec fn initial_flags() -> FlagState {
    (false, false, false, false, None, 120, seq![])
}

/// The state after reading `args[i..]` from state `st`. Before `--`,
/// `--` ends the flags, `-t`/`--token`, `-i` and `-c`/`--cross-process` set
/// their switches, `-u`/`--user` takes the next argument as the account
/// (none when there is no next argument), `-q`/`--qrcode` is ignored, a
/// number read in token mode before any command word is the lifetime, and
/// anything else is a command word. After `--`, every argument is a
/// command word.
pub open spec fn flags_spec(args: Seq<Seq<char>>, i: int, st: FlagState) -> FlagState
    decreases args.len() - i,
{
    if i < 0 || i >= args.len() {
        st
    } else {
        let x = args[i];
        let (done, token_mode, login, cross, user, seconds, command) = st;
        if done {
            flags_spec(args, i + 1, (done, token_mode, login, cross, user, seconds, command.push(x)))
        } else if x == "--"@ {
            flags_spec(args, i + 1, (true, token_mode, login, cross, user, seconds, command))
        } else if x == "-t"@ || x == "--token"@ {
            flags_spec(args, i + 1, (done, true, login, cross, user, seconds, command))
        } else if x == "-i"@ {
            flags_spec(args, i + 1, (done, token_mode, true, cross, user, seconds, command))
        } else if x == "-c"@ || x == "--cross-process"@ {
            flags_spec(args, i + 1, (done, token_mode, login, true, user, seconds, command))
        } else if x == "-u"@ || x == "--user"@ {
            if i + 1 < args.len() {
                flags_spec(
                    args,
                    i + 2,
                    (done, token_mode, login, cross, Some(args[i + 1]), seconds, command),
                )
            } else {
                flags_spec(args, i + 1, (done, token_mode, login, cross, None, seconds, command))
            }
        } else if x == "-q"@ || x == "--qrcode"@ {
            flags_spec(args, i + 1, st)
        } else if token_mode && command.len() == 0 && parse_u64_spec(x) is Some {
            flags_spec(
                args,
                i + 1,
                (done, token_mode, login, cross, user, parse_u64_spec(x).unwrap(), command),
            )
        } else {
            flags_spec(args, i + 1, (done, token_mode, login, cross, user, seconds, command.push(x)))
        }
    }
}

/// Whether `-q` or `--qrcode` is among `args`.
pub open spec fn wants_qrcode(args: Seq<Seq<char>>) -> bool {
    exists|i: int| 0 <= i < args.len() && (args[i] == "-q"@ || args[i] == "--qrcode"@)
}

/// Whether `req` holds what `flags_spec` gives for `args` after the credential.
pub open spec fn request_matches(req: Request, args: Seq<Seq<char>>) -> bool {
    let f = flags_spec(args, 1, initial_flags());
    &&& req.credential@ == args[0]
    &&& req.token_mode == f.1
    &&& req.login == f.2
    &&& req.cross == f.3
    &&& opt_view(req.user) == f.4
    &&& req.seconds == f.5
    &&& string_views(req.command@) == f.6
}

fn is_str(x: &String, lit: &str) -> (b: bool)
    ensures
        b == (x@ == lit@),
{
    let a = chars_of(x.as_str());
    let b = chars_of(lit);
    same_chars(&a, &b)
}

/// Reads the arguments (without the program name).
pub fn parse(args: &Vec<String>) -> (r: Result<Invocation, String>)
    ensures
        match r {
            Err(e) => args@.len() == 0 && e@ == "usage: sudo2fa <code|token> [options] command..."@,
            Ok(Invocation::Setup { qrcode }) => args@.len() > 0 && args@[0]@ == "setup"@ && qrcode
                == wants_qrcode(string_views(args@)),
            Ok(Invocation::Authorize(req)) => args@.len() > 0 && args@[0]@ != "setup"@
                && request_matches(req, string_views(args@)),
        },
{
    let n = args.len();
    if n == 0 {
        return Err(String::from_str("usage: sudo2fa <code|token> [options] command..."));
    }
    let ghost a = string_views(args@);
    if is_str(&args[0], "setup") {
        let mut qrcode = false;
        let mut j: usize = 0;
        while j < n
            invariant
                j <= n,
                n == args@.len(),
                a == string_views(args@),
                qrcode <==> exists|k: int| 0 <= k < j && (a[k] == "-q"@ || a[k] == "--qrcode"@),
            decreases n - j,
        {
            if is_str(&args[j], "-q") || is_str(&args[j], "--qrcode") {
                qrcode = true;
            }
            assert(a[j as int] == args@[j as int]@);
            j += 1;
        }
        return Ok(Invocation::Setup { qrcode });
    }
    let credential = args[0].clone();
    let mut done = false;
    let mut token_mode = false;
    let mut login = false;
    let mut cross = false;
    let mut user: Option<String> = None;
    let mut seconds: u64 = 120;
    let mut command: Vec<String> = Vec::new();
    let mut i: usize = 1;
    assert(string_views(command@) == Seq::<Seq<char>>::empty());
    while i < n
        invariant
            1 <= i <= n,
            n == args@.len(),
            a == string_views(args@),
            flags_spec(a, 1, initial_flags()) == flags_spec(
                a,
                i as int,
                (done, token_mode, login, cross, opt_view(user), seconds, string_views(command@)),
            ),
        decreases n - i,
    {
        let x = args[i].clone();
        assert(a[i as int] == x@);
        let ghost cmd = string_views(command@);
        if done {
            command.push(x);
            assert(string_views(command@) == cmd.push(a[i as int]));
            i += 1;
        } else if is_str(&x, "--") {
            done = true;
            i += 1;
        } else if is_str(&x, "-t") || is_str(&x, "--token") {
            token_mode = true;
            i += 1;
        } else if is_str(&x, "-i") {
            login = true;
            i += 1;
        } else if is_str(&x, "-c") || is_str(&x, "--cross-process") {
            cross = true;
            i += 1;
        } else if is_str(&x, "-u") || is_str(&x, "--user") {
            if i + 1 < n {
                user = Some(args[i + 1].clone());
                assert(a[i + 1] == args@[i + 1]@);
                i += 2;
            } else {
                user = None;
                i += 1;
            }
        } else if is_str(&x, "-q") || is_str(&x, "--qrcode") {
            i += 1;
        } else {
            let xc = chars_of(x.as_str());
            let num = if token_mode && command.len() == 0 {
                parse_u64_chars(&xc)
            } else {
                None
            };
            match num {
                Some(v) => {
                    seconds = v;
                },
                None => {
                    command.push(x);
                    assert(string_views(command@) == cmd.push(a[i as int]));
                },
            }
            i += 1;
        }
    }
    assert(credential@ == a[0]);
    Ok(Invocation::Authorize(Request { credential, token_mode, login, cross, user, seconds, command }))
}

/// The command line for `su -c`: the words joined by single spaces.
pub open spec fn join_words(ws: Seq<Seq<char>>) -> Seq<char>
    decreases ws.len(),
{
    if ws.len() == 0 {
        seq![]
    } else if ws.len() == 1 {
        ws[0]
    } else {
        ws[0] + seq![' '] + join_words(ws.drop_first())
    }
}

/// The command to run: the login shell (`/bin/sh` when `SHELL` is unset)
/// for `-i`, else the command words.
pub open spec fn command_spec(req: Request, shell: Option<Seq<char>>) -> Seq<Seq<char>> {
    if req.login {
        seq![
            match shell {
                Some(s) => s,
                None => "/bin/sh"@,
            },
        ]
    } else {
        string_views(req.command@)
    }
}

/// Whether `action` is what `req` asks for, given the login shell and the
/// parent pid: a token within 20 to 1800 seconds (unbound for
/// `--cross-process`), else the command, run as `user` when one is given.
pub open spec fn plan_matches(
    req: Request,
    shell: Option<Seq<char>>,
    parent: u32,
    r: Result<Action, String>,
) -> bool {
    if req.token_mode {
        if req.seconds < 20 || req.seconds > 1800 {
            r matches Err(e) && e@ == "token lifetime must be between 20 and 1800 seconds"@
        } else {
            r matches Ok(Action::MintToken { seconds, parent: p }) && seconds == req.seconds && p == (
            if req.cross {
                0
            } else {
                parent
            })
        }
    } else {
        let cmd = command_spec(req, shell);
        if cmd.len() == 0 {
            r matches Err(e) && e@ == "no command specified"@
        } else {
            match req.user {
                Some(u) => r matches Ok(Action::RunAs { user, script }) && user@ == u@ && script@
                    == join_words(cmd),
                None => r matches Ok(Action::Run { program, args }) && program@ == cmd[0]
                    && string_views(args@) == cmd.drop_first(),
            }
        }
    }
}

/// Decides what an authorized request does.
pub fn plan(req: &Request, shell: Option<String>, parent: u32) -> (r: Result<Action, String>)
    ensures
        plan_matches(*req, opt_view(shell), parent, r),
{
    if req.token_mode {
        if req.seconds < 20 || req.seconds > 1800 {
            return Err(String::from_str("token lifetime must be between 20 and 1800 seconds"));
        }
        return Ok(
            Action::MintToken {
                seconds: req.seconds,
                parent: if req.cross {
                    0
                } else {
                    parent
                },
            },
        );
    }
    let mut command: Vec<String> = Vec::new();
    if req.login {
        let sh = match shell {
            Some(s) => s,
            None => String::from_str("/bin/sh"),
        };
        command.push(sh);
    } else {
        let n = req.command.len();
        let mut k: usize = 0;
        while k < n
            invariant
                k <= n,
                n == req.command@.len(),
                string_views(command@) == string_views(req.command@).take(k as int),
            decreases n - k,
        {
            let c = req.command[k].clone();
            assert(c@ == string_views(req.command@)[k as int]);
            let ghost before = command@;
            command.push(c);
            assert(string_views(command@) == string_views(before).push(c@));
            assert(string_views(req.command@).take(k + 1) == string_views(req.command@).take(
                k as int,
            ).push(c@));
            k += 1;
            assert(string_views(command@) == string_views(req.command@).take(k as int));
        }
        assert(string_views(req.command@).take(n as int) == string_views(req.command@));
    }
    let ghost cmd = string_views(command@);
    assert(cmd == command_spec(*req, opt_view(shell)));
    if command.len() == 0 {
        return Err(String::from_str("no command specified"));
    }
    match &req.user {
        Some(u) => {
            let mut script = String::new();
            let n = command.len();
            let mut k: usize = 0;
            assert(cmd.skip(0) == cmd);
            while k < n
                invariant
                    k <= n,
                    n == command@.len(),
                    n > 0,
                    cmd == string_views(command@),
                    k == 0 ==> script@ == Seq::<char>::empty(),
                    0 < k < n ==> join_words(cmd) == script@ + seq![' '] + join_words(
                        cmd.skip(k as int),
                    ),
                    k == n ==> join_words(cmd) == script@,
                decreases n - k,
            {
                let ghost before = script@;
                let ghost rest = cmd.skip(k as int);
                assert(rest[0] == command@[k as int]@);
                assert(rest.drop_first() == cmd.skip(k + 1));
                if k > 0 {
                    script.append(" ");
                    proof {
                        reveal_strlit(" ");
                    }
                }
                script.append(command[k].as_str());
                proof {
                    if k + 1 < n {
                        assert(join_words(rest) == rest[0] + seq![' '] + join_words(rest.drop_first()));
                    } else {
                        assert(rest.len() == 1);
                    }
                }
                k += 1;
            }
            Ok(Action::RunAs { user: u.clone(), script })
        },
        None => {
            let program = command[0].clone();
            let mut args: Vec<String> = Vec::new();
            let n = command.len();
            let mut k: usize = 1;
            while k < n
                invariant
                    1 <= k <= n,
                    n == command@.len(),
                    cmd == string_views(command@),
                    string_views(args@) == cmd.subrange(1, k as int),
                decreases n - k,
            {
                let c = command[k].clone();
                assert(c@ == cmd[k as int]);
                let ghost before = args@;
                args.push(c);
                assert(string_views(args@) == string_views(before).push(c@));
                assert(cmd.subrange(1, k + 1) == cmd.subrange(1, k as int).push(c@));
                k += 1;
                assert(string_views(args@) == cmd.subrange(1, k as int));
            }
            assert(cmd.subrange(1, n as int) == cmd.drop_first());
            Ok(Action::Run { program, args })
        },
    }
}

/// Whether a credential authorizes at time `now`, given the step of the last
/// code accepted for the account: a TOTP code of a window step after that one
/// (`Ok(Some(step))`, the step to record); a code of the window that was
/// already used is refused; anything else is checked as a token for
/// `parent` (`Ok(None)`), whose refusal is the answer.
pub open spec fn authenticate_spec(
    secret: Seq<u8>,
    credential: Seq<char>,
    parent: u32,
    now: u64,
    last: Option<u64>,
) -> Result<Option<u64>, Seq<char>> {
    match crate::totp::accept_spec(secret, credential, now, last) {
        Some(step) => Ok(Some(step)),
        None => if crate::totp::verify_spec(secret, credential, now) {
            Err("code already used"@)
        } else {
            match crate::token::verify_spec(secret, credential, parent, now) {
                Ok(()) => Ok(None),
                Err(e) => Err(e),
            }
        },
    }
}

/// Whether `r` is the outcome `authenticate_spec` gives, messages by their text.
pub open spec fn authenticate_matches(
    r: Result<Option<u64>, String>,
    secret: Seq<u8>,
    credential: Seq<char>,
    parent: u32,
    now: u64,
    last: Option<u64>,
) -> bool {
    match r {
        Ok(step) => authenticate_spec(secret, credential, parent, now, last) == Ok::<
            Option<u64>,
            Seq<char>,
        >(step),
        Err(e) => authenticate_spec(secret, credential, parent, now, last) == Err::<
            Option<u64>,
            Seq<char>,
        >(e@),
    }
}

/// Checks a credential at time `now`, given the step of the last code
/// accepted for the account.
pub fn authenticate_at(
    secret: &[u8],
    credential: &str,
    parent: u32,
    now: u64,
    last: Option<u64>,
) -> (r: Result<Option<u64>, String>)
    ensures
        authenticate_matches(r, secret@, credential@, parent, now, last),
{
    if let Some(step) = crate::totp::accept_at(secret, credential, now, last) {
        return Ok(Some(step));
    }
    if crate::totp::verify_at(secret, credential, now) {
        return Err(String::from_str("code already used"));
    }
    match crate::token::verify_at(secret, credential, parent, now) {
        Ok(()) => Ok(None),
        Err(e) => Err(e),
    }
}

/// Checks a credential now, given the step of the last code accepted for
/// the account.
pub fn authenticate(secret: &[u8], credential: &str, parent: u32, last: Option<u64>) -> (r: Result<
    Option<u64>,
    String,
>)
    ensures
        exists|now: u64| authenticate_matches(r, secret@, credential@, parent, now, last),
{
    authenticate_at(secret, credential, parent, crate::clock::now(), last)
}

/// One code, one command: once a code has authorized a command at `t1` and
/// its step is recorded, the same code is refused at any `t2` of the same
/// 30-second step, with "code already used". (Times within 30 seconds of the
/// end of `u64`, where the next step wraps, are left out.)
pub proof fn code_authorizes_once(
    secret: Seq<u8>,
    credential: Seq<char>,
    parent: u32,
    t1: u64,
    t2: u64,
    last: Option<u64>,
    step: u64,
)
    requires
        authenticate_spec(secret, credential, parent, t1, last) == Ok::<Option<u64>, Seq<char>>(
            Some(step),
        ),
        t1 / 30 == t2 / 30,
        t1 <= u64::MAX - 30,
        t2 <= u64::MAX - 30,
    ensures
        authenticate_spec(secret, credential, parent, t2, Some(step)) == Err::<Option<u64>, Seq<char>>(
            "code already used"@,
        ),
{
    assert(crate::totp::accept_spec(secret, credential, t1, last) == Some(step));
    crate::totp::code_works_once(secret, credential, t1, t2, last);
}

/// A token, or a code with no step recorded, authorizes exactly as the
/// window check and the token check say.
pub proof fn unrecorded_credentials_as_before(
    secret: Seq<u8>,
    credential: Seq<char>,
    parent: u32,
    now: u64,
)
    ensures
        authenticate_spec(secret, credential, parent, now, None) is Ok <==> (crate::totp::verify_spec(
            secret,
            credential,
            now,
        ) || crate::token::verify_spec(secret, credential, parent, now) is Ok),
{
    crate::totp::unrecorded_matches_window(secret, credential, now);
}

proof fn lemma_after_separator(args: Seq<Seq<char>>, i: int, st: FlagState)
    requires
        st.0,
        0 <= i <= args.len(),
    ensures
        flags_spec(args, i, st) == (st.0, st.1, st.2, st.3, st.4, st.5, st.6 + args.skip(i)),
    decreases args.len() - i,
{
    if i < args.len() {
        let next = (st.0, st.1, st.2, st.3, st.4, st.5, st.6.push(args[i]));
        lemma_after_separator(args, i + 1, next);
        assert(st.6.push(args[i]) + args.skip(i + 1) == st.6 + args.skip(i));
    } else {
        assert(st.6 + args.skip(i) == st.6);
    }
}

/// Everything after `--` belongs to the command, word for word, even words
/// that look like flags; the switches stay as they were before it.
pub proof fn separator_ends_flags(args: Seq<Seq<char>>, i: int, st: FlagState)
    requires
        0 <= i < args.len(),
        args[i] == "--"@,
        !st.0,
    ensures
        flags_spec(args, i, st) == (true, st.1, st.2, st.3, st.4, st.5, st.6 + args.skip(i + 1)),
{
    lemma_after_separator(args, i + 1, (true, st.1, st.2, st.3, st.4, st.5, st.6));
}

} // verus!
