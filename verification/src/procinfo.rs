//! What the process learns about itself and other accounts from text the
//! kernel and `id` produce: `/proc/self/status`, `/proc/self/stat` and the
//! output of `id -u NAME`.
use vstd::prelude::*;
use crate::split::{
    lines, lines_of, rfind_paren_space, rfind_paren_space_exec, slice_chars, starts_with,
    starts_with_exec, views, words, words_of,
};
use crate::text::{chars_of, parse_u32_chars, parse_u32_spec, trim, trim_chars};

verus! {

/// The first line that begins with `p`.
pub open spec fn first_with_prefix(ls: Seq<Seq<char>>, p: Seq<char>) -> Option<Seq<char>>
    decreases ls.len(),
{
    if ls.len() == 0 {
        None
    } else if starts_with(ls[0], p) {
        Some(ls[0])
    } else {
        first_with_prefix(ls.drop_first(), p)
    }
}

/// The second word of `s` read as a `u32`, if there is one and it parses.
pub open spec fn second_word_u32(s: Seq<char>) -> Option<u32> {
    let w = words(s);
    if w.len() > 1 {
        parse_u32_spec(w[1])
    } else {
        None
    }
}

/// The real uid that `/proc/self/status` reports: the first field after
/// `Uid:` on the first line that begins with it; 65534 (nobody) when there
/// is no such line or it does not parse.
pub open spec fn status_uid_spec(status: Seq<char>) -> u32 {
    match first_with_prefix(lines(status), "Uid:"@) {
        Some(l) => match second_word_u32(l) {
            Some(v) => v,
            None => 65534,
        },
        None => 65534,
    }
}

/// The parent pid that `/proc/self/stat` reports: the second field after
/// the last `") "` (which ends the command name); 0 when absent.
pub open spec fn stat_ppid_spec(stat: Seq<char>) -> u32 {
    match rfind_paren_space(stat) {
        Some(i) => match second_word_u32(stat.skip(i + 2)) {
            Some(v) => v,
            None => 0,
        },
        None => 0,
    }
}

fn second_word_u32_exec(s: &Vec<char>) -> (r: Option<u32>)
    ensures
        r == second_word_u32(s@),
{
    let w = words_of(s);
    if w.len() > 1 {
        assert(views(w@)[1] == w@[1]@);
        parse_u32_chars(&w[1])
    } else {
        None
    }
}

/// The real uid from the text of `/proc/self/status`.
pub fn real_uid(status: &str) -> (uid: u32)
    ensures
        uid == status_uid_spec(status@),
{
    let text = chars_of(status);
    let ls = lines_of(&text);
    let prefix = chars_of("Uid:");
    let n = ls.len();
    let mut i: usize = 0;
    assert(views(ls@).skip(0) == views(ls@));
    while i < n
        invariant
            i <= n,
            n == ls@.len(),
            prefix@ == "Uid:"@,
            views(ls@) == lines(status@),
            first_with_prefix(lines(status@), "Uid:"@) == first_with_prefix(
                views(ls@).skip(i as int),
                "Uid:"@,
            ),
        decreases n - i,
    {
        let ghost rest = views(ls@).skip(i as int);
        assert(rest[0] == ls@[i as int]@);
        assert(rest.drop_first() == views(ls@).skip(i + 1));
        if starts_with_exec(&ls[i], &prefix) {
            return match second_word_u32_exec(&ls[i]) {
                Some(v) => v,
                None => 65534,
            };
        }
        i += 1;
    }
    65534
}

/// The parent pid from the text of `/proc/self/stat`.
pub fn parent_pid(stat: &str) -> (pid: u32)
    ensures
        pid == stat_ppid_spec(stat@),
{
    let text = chars_of(stat);
    match rfind_paren_space_exec(&text) {
        Some(i) => {
            proof {
                crate::split::lemma_rfind_paren_space_range(text@);
            }
            let tail = slice_chars(&text, i + 2, text.len());
            assert(tail@ == text@.skip(i + 2));
            match second_word_u32_exec(&tail) {
                Some(v) => v,
                None => 0,
            }
        },
        None => 0,
    }
}

/// The uid that `id -u` printed, after trimming whitespace.
pub open spec fn id_output_spec(output: Seq<char>) -> Option<u32> {
    parse_u32_spec(trim(output))
}

/// The uid of account `name` from the output of `id -u name`; text that is
/// not a uid means the name does not resolve, which is refused rather than
/// read as any default.
pub fn named_uid(output: &str, name: &str) -> (r: Result<u32, String>)
    ensures
        match r {
            Ok(uid) => id_output_spec(output@) == Some(uid),
            Err(e) => id_output_spec(output@) is None && e@ == "cannot resolve user "@ + name@,
        },
{
    let text = chars_of(output);
    let t = trim_chars(&text);
    match parse_u32_chars(&t) {
        Some(v) => Ok(v),
        None => {
            let mut e = String::from_str("cannot resolve user ");
            e.append(name);
            Err(e)
        },
    }
}

} // verus!
