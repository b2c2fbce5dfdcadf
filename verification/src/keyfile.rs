//! The secret store: one record per line in `UID:BASE32_SECRET` form.
//! Looking up a user's secret, replacing one user's record while keeping
//! the others, and the otpauth URI an authenticator is given.
use vstd::prelude::*;
use crate::split::{
    find_char, find_colon, lines, lines_of, record_key, record_value, same_chars, slice_chars,
    starts_with, starts_with_exec, strip_cr, unlines, unlines_exec, views,
    lemma_find_char_at, lemma_find_char_found, lemma_lines_unlines,
};
use crate::text::{chars_of, decimal, decimal_string};

verus! {

/// The value of the first record whose key is `me` (empty when that line
/// has no `:`), if there is one.
pub open spec fn find_record(ls: Seq<Seq<char>>, me: Seq<char>) -> Option<Seq<char>>
    decreases ls.len(),
{
    if ls.len() == 0 {
        None
    } else if record_key(ls[0]) == me {
        Some(
            match record_value(ls[0]) {
                Some(v) => v,
                None => seq![],
            },
        )
    } else {
        find_record(ls.drop_first(), me)
    }
}

/// The secret of user `me` (a decimal uid) in the store text `contents`.
pub open spec fn lookup_spec(contents: Seq<char>, me: Seq<char>) -> Result<Seq<u8>, Seq<char>> {
    match find_record(lines(contents), me) {
        None => Err("no TOTP key for this user"@),
        Some(v) => match crate::base32::decode_spec(v) {
            Some(b) => Ok(b),
            None => Err("invalid base32 secret"@),
        },
    }
}

/// The start of every record of user `target`.
pub open spec fn record_prefix(target: u32) -> Seq<char> {
    decimal(target as nat) + seq![':']
}

/// The record that stores `secret` for `target`.
pub open spec fn new_record(target: u32, secret: Seq<u8>) -> Seq<char> {
    record_prefix(target) + crate::base32::encode_spec(secret)
}

/// The lines that do not begin with `p`, in order.
pub open spec fn others(ls: Seq<Seq<char>>, p: Seq<char>) -> Seq<Seq<char>>
    decreases ls.len(),
{
    if ls.len() == 0 {
        seq![]
    } else {
        (if starts_with(ls[0], p) {
            seq![]
        } else {
            seq![ls[0]]
        }) + others(ls.drop_first(), p)
    }
}

/// The store text after setting `target`'s secret: every other line kept in
/// order, `target`'s old records dropped, the new record last, each line
/// ending in `\n`.
pub open spec fn replace_spec(contents: Seq<char>, target: u32, secret: Seq<u8>) -> Seq<char> {
    unlines(others(lines(contents), record_prefix(target)).push(new_record(target, secret)))
}

/// The otpauth URI that hands `secret` to an authenticator app.
pub open spec fn otpauth_uri_spec(secret: Seq<u8>) -> Seq<char> {
    "otpauth://totp/sudo2fa?secret="@ + crate::base32::encode_spec(secret) + "&issuer=sudo2fa"@
}

/// Whether the store may be used: owned by root with permission bits 0600.
pub open spec fn trusted_store_spec(owner_uid: u32, mode: u32) -> bool {
    owner_uid == 0 && mode & 0o777u32 == 0o600u32
}

/// Whether a store with this owner and mode may be used; any other store is
/// refused, not repaired.
pub fn trusted_store(owner_uid: u32, mode: u32) -> (ok: bool)
    ensures
        ok == trusted_store_spec(owner_uid, mode),
{
    owner_uid == 0 && mode & 0o777u32 == 0o600u32
}

/// The secret of user `me` in the store text `contents`: the base32 value of
/// the first line whose part before `:` is `me`.
pub fn lookup(contents: &str, me: &str) -> (r: Result<Vec<u8>, String>)
    ensures
        match r {
            Ok(b) => lookup_spec(contents@, me@) == Ok::<Seq<u8>, Seq<char>>(b@),
            Err(e) => lookup_spec(contents@, me@) == Err::<Seq<u8>, Seq<char>>(e@),
        },
{
    let text = chars_of(contents);
    let who = chars_of(me);
    let ls = lines_of(&text);
    let n = ls.len();
    let mut i: usize = 0;
    assert(views(ls@).skip(0) == views(ls@));
    while i < n
        invariant
            i <= n,
            n == ls@.len(),
            views(ls@) == lines(text@),
            text@ == contents@,
            who@ == me@,
            find_record(lines(text@), me@) == find_record(views(ls@).skip(i as int), me@),
        decreases n - i,
    {
        let line = &ls[i];
        let ghost rest = views(ls@).skip(i as int);
        assert(rest[0] == line@);
        assert(rest.drop_first() == views(ls@).skip(i + 1));
        let colon = find_colon(line);
        let key = match colon {
            Some(c) => slice_chars(line, 0, c),
            None => slice_chars(line, 0, line.len()),
        };
        assert(key@ == record_key(line@));
        if same_chars(&key, &who) {
            let value = match colon {
                Some(c) => slice_chars(line, c + 1, line.len()),
                None => Vec::new(),
            };
            proof {
                match colon {
                    Some(c) => {
                        assert(line@.subrange(c + 1, line@.len() as int) == line@.skip(c + 1));
                    },
                    None => {},
                }
            }
            return crate::base32::decode_chars(&value);
        }
        i += 1;
    }
    Err(String::from_str("no TOTP key for this user"))
}

/// The store text after setting `target`'s secret to `secret`.
pub fn replace_record(contents: &str, target: u32, secret: &[u8]) -> (s: String)
    ensures
        s@ == replace_spec(contents@, target, secret@),
{
    let text = chars_of(contents);
    let ls = lines_of(&text);
    let mut prefix_text = decimal_string(target as u128);
    prefix_text.append(":");
    proof {
        reveal_strlit(":");
    }
    let prefix = chars_of(prefix_text.as_str());
    assert(prefix@ == record_prefix(target));
    let n = ls.len();
    let mut kept: Vec<Vec<char>> = Vec::new();
    let mut i: usize = 0;
    assert(views(ls@).skip(0) == views(ls@));
    assert(views(kept@) == Seq::<Seq<char>>::empty());
    while i < n
        invariant
            i <= n,
            n == ls@.len(),
            prefix@ == record_prefix(target),
            others(views(ls@), prefix@) == views(kept@) + others(
                views(ls@).skip(i as int),
                prefix@,
            ),
        decreases n - i,
    {
        let ghost rest = views(ls@).skip(i as int);
        assert(rest[0] == ls@[i as int]@);
        assert(rest.drop_first() == views(ls@).skip(i + 1));
        let line = slice_chars(&ls[i], 0, ls[i].len());
        assert(ls@[i as int]@.subrange(0, ls@[i as int]@.len() as int) == ls@[i as int]@);
        if !starts_with_exec(&line, &prefix) {
            let ghost prev = kept@;
            kept.push(line);
            assert(views(kept@) == views(prev) + seq![rest[0]]);
        }
        i += 1;
    }
    assert(views(ls@).skip(n as int).len() == 0);
    let mut record = prefix_text;
    let code = crate::base32::encode(secret);
    record.append(code.as_str());
    let record_chars = chars_of(record.as_str());
    let ghost prev = kept@;
    kept.push(record_chars);
    assert(views(kept@) == views(prev).push(new_record(target, secret@)));
    unlines_exec(&kept)
}

/// The otpauth URI for `secret`.
pub fn otpauth_uri(secret: &[u8]) -> (s: String)
    ensures
        s@ == otpauth_uri_spec(secret@),
{
    let mut s = String::from_str("otpauth://totp/sudo2fa?secret=");
    let code = crate::base32::encode(secret);
    s.append(code.as_str());
    s.append("&issuer=sudo2fa");
    s
}

/// No line holds a line feed.
pub open spec fn no_newlines(ls: Seq<Seq<char>>) -> bool {
    forall|i: int, k: int| 0 <= i < ls.len() && 0 <= k < ls[i].len() ==> #[trigger] ls[i][k] != '\n'
}

/// The account whose key authorizes: the one named by `SUDO_USER` when the
/// tool runs under sudo (its uid given as `sudo_user`), else the real uid.
pub fn key_owner(sudo_user: Option<u32>, real_uid: u32) -> (owner: u32)
    ensures
        owner == match sudo_user {
            Some(u) => u,
            None => real_uid,
        },
{
    match sudo_user {
        Some(u) => u,
        None => real_uid,
    }
}

/// The account whose record `setup` replaces: the one named by `SUDO_USER`
/// under sudo, else root.
pub fn setup_target(sudo_user: Option<u32>) -> (target: u32)
    ensures
        target == match sudo_user {
            Some(u) => u,
            None => 0,
        },
{
    match sudo_user {
        Some(u) => u,
        None => 0,
    }
}

/// `setup` runs only for a real uid of root.
pub fn setup_allowed(real_uid: u32) -> (r: Result<(), String>)
    ensures
        r is Ok <==> real_uid == 0,
        r matches Err(e) ==> e@ == "setup must be run as root"@,
{
    if real_uid != 0 {
        return Err(String::from_str("setup must be run as root"));
    }
    Ok(())
}

proof fn lemma_strip_cr_prefix(t: Seq<char>)
    ensures
        strip_cr(t).len() <= t.len(),
        forall|k: int| 0 <= k < strip_cr(t).len() ==> #[trigger] strip_cr(t)[k] == t[k],
{
}

proof fn lemma_lines_no_newline(s: Seq<char>)
    ensures
        no_newlines(lines(s)),
    decreases s.len(),
{
    if s.len() > 0 {
        lemma_find_char_found(s, '\n');
        match find_char(s, '\n') {
            None => {
                assert(lines(s) == seq![s]);
            },
            Some(i) => {
                lemma_lines_no_newline(s.skip(i + 1));
                let first = strip_cr(s.take(i));
                lemma_strip_cr_prefix(s.take(i));
                let ls = lines(s);
                assert(ls == seq![first] + lines(s.skip(i + 1)));
                assert forall|a: int, k: int| 0 <= a < ls.len() && 0 <= k < ls[a].len() implies #[trigger] ls[a][k]
                    != '\n' by {
                    if a == 0 {
                        assert(ls[a][k] == s.take(i)[k]);
                    } else {
                        assert(ls[a] == lines(s.skip(i + 1))[a - 1]);
                    }
                }
            },
        }
    }
}

proof fn lemma_others_no_newline(ls: Seq<Seq<char>>, p: Seq<char>)
    requires
        no_newlines(ls),
    ensures
        no_newlines(others(ls, p)),
    decreases ls.len(),
{
    if ls.len() > 0 {
        let rest = ls.drop_first();
        assert forall|i: int, k: int| 0 <= i < rest.len() && 0 <= k < rest[i].len() implies #[trigger] rest[i][k]
            != '\n' by {
            assert(rest[i] == ls[i + 1]);
        }
        lemma_others_no_newline(rest, p);
        let o = others(ls, p);
        let head: Seq<Seq<char>> = if starts_with(ls[0], p) {
            seq![]
        } else {
            seq![ls[0]]
        };
        assert(o == head + others(rest, p));
        assert forall|i: int, k: int| 0 <= i < o.len() && 0 <= k < o[i].len() implies #[trigger] o[i][k]
            != '\n' by {
            if i < head.len() {
                assert(o[i] == ls[0]);
            } else {
                assert(o[i] == others(rest, p)[i - head.len()]);
            }
        }
    }
}

proof fn lemma_decimal_chars(n: nat)
    ensures
        forall|k: int| 0 <= k < decimal(n).len() ==> '0' <= #[trigger] decimal(n)[k] <= '9',
{
    crate::text::lemma_decimal_digits(n);
    assert forall|k: int| 0 <= k < decimal(n).len() implies '0' <= #[trigger] decimal(n)[k] <= '9' by {
        assert(crate::text::digit_value(decimal(n)[k]) is Some);
    }
}

proof fn lemma_new_record(target: u32, secret: Seq<u8>)
    ensures
        record_key(new_record(target, secret)) == decimal(target as nat),
        record_value(new_record(target, secret)) == Some(crate::base32::encode_spec(secret)),
        strip_cr(new_record(target, secret)) == new_record(target, secret),
        forall|k: int|
            0 <= k < new_record(target, secret).len() ==> #[trigger] new_record(target, secret)[k]
                != '\n',
{
    let d = decimal(target as nat);
    let e = crate::base32::encode_spec(secret);
    let r = new_record(target, secret);
    lemma_decimal_chars(target as nat);
    crate::base32::lemma_quintets_round_trip(secret);
    let q = crate::base32::quintets_of(secret);
    assert forall|k: int| 0 <= k < e.len() implies ('A' <= #[trigger] e[k] <= 'Z' || '2' <= e[k]
        <= '7') by {
        assert(e[k] == crate::base32::quintet_char(q[k]));
        assert(q[k] < 32);
        if q[k] < 26 {
            assert(crate::base32::quintet_char(q[k]) as int == 65 + q[k]);
        } else {
            assert(crate::base32::quintet_char(q[k]) as int == 50 + q[k] - 26);
        }
    }
    assert(r[d.len() as int] == ':');
    assert forall|k: int| 0 <= k < d.len() implies r[k] != ':' by {
        assert(r[k] == d[k]);
    }
    lemma_find_char_at(r, ':', d.len() as int);
    assert(r.take(d.len() as int) == d);
    assert(r.skip(d.len() as int + 1) == e);
    assert forall|k: int| 0 <= k < r.len() implies #[trigger] r[k] != '\n' && r[k] != '\r' by {
        if k < d.len() {
            assert(r[k] == d[k]);
        } else if k > d.len() {
            assert(r[k] == e[k - d.len() - 1]);
        }
    }
    assert(r.last() != '\r');
}

proof fn lemma_key_of_kept(h: Seq<char>, target: u32)
    requires
        !starts_with(h, record_prefix(target)),
        strip_cr(h) != decimal(target as nat),
    ensures
        record_key(strip_cr(h)) != decimal(target as nat),
{
    let d = decimal(target as nat);
    let sh = strip_cr(h);
    lemma_find_char_found(sh, ':');
    lemma_strip_cr_prefix(h);
    match find_char(sh, ':') {
        Some(i) => {
            if sh.take(i) == d {
                assert(h.take(d.len() as int + 1) == record_prefix(target)) by {
                    assert forall|k: int| 0 <= k < d.len() + 1 implies h.take(d.len() as int + 1)[k]
                        == record_prefix(target)[k] by {
                        assert(h[k] == sh[k]);
                        if k < d.len() {
                            assert(sh.take(i)[k] == sh[k]);
                        }
                    }
                }
            }
        },
        None => {},
    }
}

proof fn lemma_find_after_replace(ls: Seq<Seq<char>>, target: u32, secret: Seq<u8>)
    requires
        forall|i: int| 0 <= i < ls.len() ==> strip_cr(#[trigger] ls[i]) != decimal(target as nat),
    ensures
        find_record(
            others(ls, record_prefix(target)).push(new_record(target, secret)).map_values(
                |l: Seq<char>| strip_cr(l),
            ),
            decimal(target as nat),
        ) == Some(crate::base32::encode_spec(secret)),
    decreases ls.len(),
{
    let p = record_prefix(target);
    let nr = new_record(target, secret);
    lemma_new_record(target, secret);
    if ls.len() == 0 {
        let l = others(ls, p).push(nr).map_values(|l: Seq<char>| strip_cr(l));
        assert(l == seq![nr]);
    } else {
        let rest = ls.drop_first();
        assert forall|i: int| 0 <= i < rest.len() implies strip_cr(#[trigger] rest[i]) != decimal(
            target as nat,
        ) by {
            assert(rest[i] == ls[i + 1]);
        }
        lemma_find_after_replace(rest, target, secret);
        let tail = others(rest, p).push(nr).map_values(|l: Seq<char>| strip_cr(l));
        if starts_with(ls[0], p) {
            assert(others(ls, p) == others(rest, p));
        } else {
            assert(others(ls, p) == seq![ls[0]] + others(rest, p));
            let l = others(ls, p).push(nr).map_values(|l: Seq<char>| strip_cr(l));
            assert(l == seq![strip_cr(ls[0])] + tail);
            assert(l.drop_first() == tail);
            lemma_key_of_kept(ls[0], target);
        }
    }
}

proof fn lemma_find_other_after_replace(
    ls: Seq<Seq<char>>,
    target: u32,
    secret: Seq<u8>,
    me: Seq<char>,
)
    requires
        me != decimal(target as nat),
        forall|i: int| 0 <= i < ls.len() ==> strip_cr(#[trigger] ls[i]) == ls[i],
    ensures
        find_record(
            others(ls, record_prefix(target)).push(new_record(target, secret)).map_values(
                |l: Seq<char>| strip_cr(l),
            ),
            me,
        ) == find_record(ls, me),
    decreases ls.len(),
{
    let p = record_prefix(target);
    let nr = new_record(target, secret);
    lemma_new_record(target, secret);
    if ls.len() == 0 {
        let l = others(ls, p).push(nr).map_values(|l: Seq<char>| strip_cr(l));
        assert(l == seq![nr]);
        assert(l.drop_first() == Seq::<Seq<char>>::empty());
        assert(record_key(l[0]) != me);
        assert(find_record(l.drop_first(), me) is None);
        assert(find_record(l, me) is None);
    } else {
        let rest = ls.drop_first();
        assert forall|i: int| 0 <= i < rest.len() implies strip_cr(#[trigger] rest[i]) == rest[i] by {
            assert(rest[i] == ls[i + 1]);
        }
        lemma_find_other_after_replace(rest, target, secret, me);
        let tail = others(rest, p).push(nr).map_values(|l: Seq<char>| strip_cr(l));
        let h = ls[0];
        if starts_with(h, p) {
            assert(others(ls, p) == others(rest, p));
            let d = decimal(target as nat);
            lemma_decimal_chars(target as nat);
            assert(h[d.len() as int] == h.take(p.len() as int)[d.len() as int]);
            assert forall|k: int| 0 <= k < d.len() implies h[k] != ':' by {
                assert(h[k] == h.take(p.len() as int)[k]);
            }
            lemma_find_char_at(h, ':', d.len() as int);
            assert(h.take(d.len() as int) == d) by {
                assert forall|k: int| 0 <= k < d.len() implies h.take(d.len() as int)[k] == d[k] by {
                    assert(h[k] == h.take(p.len() as int)[k]);
                }
            }
            assert(record_key(h) == d);
            assert(find_record(ls, me) == find_record(rest, me));
            assert(others(ls, p).push(nr).map_values(|l: Seq<char>| strip_cr(l)) == tail);
        } else {
            assert(others(ls, p) == seq![h] + others(rest, p));
            let l = others(ls, p).push(nr).map_values(|l: Seq<char>| strip_cr(l));
            assert(l == seq![strip_cr(h)] + tail);
            assert(l.drop_first() == tail);
            assert(strip_cr(h) == h);
        }
    }
}

/// The lines of the replaced store are the kept lines followed by the new
/// record, each without a trailing carriage return.
proof fn lemma_replaced_lines(contents: Seq<char>, target: u32, secret: Seq<u8>)
    ensures
        lines(replace_spec(contents, target, secret)) == others(lines(contents), record_prefix(target)).push(
            new_record(target, secret),
        ).map_values(|l: Seq<char>| strip_cr(l)),
{
    let p = record_prefix(target);
    let nr = new_record(target, secret);
    let kept = others(lines(contents), p).push(nr);
    lemma_lines_no_newline(contents);
    lemma_others_no_newline(lines(contents), p);
    lemma_new_record(target, secret);
    assert(no_newlines(kept)) by {
        assert forall|i: int, k: int| 0 <= i < kept.len() && 0 <= k < kept[i].len() implies #[trigger] kept[i][k]
            != '\n' by {
            if i < kept.len() - 1 {
                assert(kept[i] == others(lines(contents), p)[i]);
            }
        }
    }
    lemma_lines_unlines(kept);
}

/// After setting `target`'s secret, looking `target` up gives the new
/// secret, for stores where no line is the bare uid without a `:`.
pub proof fn replaced_record_is_found(contents: Seq<char>, target: u32, secret: Seq<u8>)
    requires
        forall|i: int|
            0 <= i < lines(contents).len() ==> strip_cr(#[trigger] lines(contents)[i]) != decimal(
                target as nat,
            ),
    ensures
        lookup_spec(replace_spec(contents, target, secret), decimal(target as nat)) == Ok::<
            Seq<u8>,
            Seq<char>,
        >(secret),
{
    lemma_replaced_lines(contents, target, secret);
    lemma_find_after_replace(lines(contents), target, secret);
    crate::base32::decode_encode_round_trip(secret);
}

/// Setting `target`'s secret leaves what every other user looks up
/// unchanged, for stores whose lines do not end in a carriage return.
pub proof fn replace_keeps_other_records(
    contents: Seq<char>,
    target: u32,
    secret: Seq<u8>,
    me: Seq<char>,
)
    requires
        me != decimal(target as nat),
        forall|i: int|
            0 <= i < lines(contents).len() ==> strip_cr(#[trigger] lines(contents)[i]) == lines(
                contents,
            )[i],
    ensures
        lookup_spec(replace_spec(contents, target, secret), me) == lookup_spec(contents, me),
{
    lemma_replaced_lines(contents, target, secret);
    lemma_find_other_after_replace(lines(contents), target, secret, me);
}

} // verus!
