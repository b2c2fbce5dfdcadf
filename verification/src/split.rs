//! Splitting text into lines, whitespace-separated words and `key:value`
//! records, with the semantics of std's `str::lines`, `str::split_whitespace`,
//! `str::splitn(2, ..)` and `str::rsplit_once`.
use vstd::prelude::*;
use crate::text::{is_whitespace, push_chars};

verus! {

/// Index of the first `c` in `s`.
pub open spec fn find_char(s: Seq<char>, c: char) -> Option<int>
    decreases s.len(),
{
    if s.len() == 0 {
        None
    } else if s[0] == c {
        Some(0)
    } else {
        match find_char(s.drop_first(), c) {
            Some(i) => Some(i + 1),
            None => None,
        }
    }
}

/// `t` without one trailing carriage return.
pub open spec fn strip_cr(t: Seq<char>) -> Seq<char> {
    if t.len() > 0 && t.last() == '\r' {
        t.drop_last()
    } else {
        t
    }
}

/// The lines of `s` as std's `str::lines` yields them: split at `\n`, a
/// `\r` right before a `\n` dropped, no empty line after a final `\n`.
pub open spec fn lines(s: Seq<char>) -> Seq<Seq<char>>
    decreases s.len(),
{
    if s.len() == 0 {
        seq![]
    } else {
        match find_char(s, '\n') {
            None => seq![s],
            Some(i) => {
                proof {
                    lemma_find_char_found(s, '\n');
                }
                seq![strip_cr(s.take(i))] + lines(s.skip(i + 1))
            },
        }
    }
}

/// Index of the first whitespace character of `s`, or its length.
pub open spec fn word_end(s: Seq<char>) -> nat
    decreases s.len(),
{
    if s.len() == 0 || is_whitespace(s[0]) {
        0
    } else {
        1 + word_end(s.drop_first())
    }
}

pub proof fn lemma_word_end_bound(s: Seq<char>)
    ensures
        word_end(s) <= s.len(),
    decreases s.len(),
{
    if s.len() > 0 {
        lemma_word_end_bound(s.drop_first());
    }
}

/// The words of `s` as std's `str::split_whitespace` yields them.
pub open spec fn words(s: Seq<char>) -> Seq<Seq<char>>
    decreases s.len(),
{
    if s.len() == 0 {
        seq![]
    } else if is_whitespace(s[0]) {
        words(s.drop_first())
    } else {
        proof {
            lemma_word_end_bound(s);
        }
        seq![s.take(word_end(s) as int)] + words(s.skip(word_end(s) as int))
    }
}
/// Whether `s` begins with `p`.
pub open spec fn starts_with(s: Seq<char>, p: Seq<char>) -> bool {
    p.len() <= s.len() && s.take(p.len() as int) == p
}

/// The part of `line` before its first `:` (all of it when there is none),
/// the first item of std's `splitn(2, ':')`.
pub open spec fn record_key(line: Seq<char>) -> Seq<char> {
    match find_char(line, ':') {
        Some(i) => line.take(i),
        None => line,
    }
}

/// The part of `line` after its first `:`, the second item of std's
/// `splitn(2, ':')`, if there is one.
pub open spec fn record_value(line: Seq<char>) -> Option<Seq<char>> {
    match find_char(line, ':') {
        Some(i) => Some(line.skip(i + 1)),
        None => None,
    }
}

/// Index of the last `") "` in `s`.
pub open spec fn rfind_paren_space(s: Seq<char>) -> Option<int>
    decreases s.len(),
{
    if s.len() < 2 {
        None
    } else if s[s.len() - 2] == ')' && s[s.len() - 1] == ' ' {
        Some(s.len() - 2)
    } else {
        rfind_paren_space(s.drop_last())
    }
}

/// The lines joined, each followed by `\n`.
pub open spec fn unlines(ls: Seq<Seq<char>>) -> Seq<char>
    decreases ls.len(),
{
    if ls.len() == 0 {
        seq![]
    } else {
        ls[0] + seq!['\n'] + unlines(ls.drop_first())
    }
}

/// The views of a vector of character vectors.
pub open spec fn views(v: Seq<Vec<char>>) -> Seq<Seq<char>> {
    v.map_values(|x: Vec<char>| x@)
}

pub proof fn lemma_find_char_none(s: Seq<char>, c: char)
    requires
        forall|k: int| 0 <= k < s.len() ==> s[k] != c,
    ensures
        find_char(s, c) is None,
    decreases s.len(),
{
    if s.len() > 0 {
        lemma_find_char_none(s.drop_first(), c);
    }
}

pub proof fn lemma_find_char_at(s: Seq<char>, c: char, i: int)
    requires
        0 <= i < s.len(),
        s[i] == c,
        forall|k: int| 0 <= k < i ==> s[k] != c,
    ensures
        find_char(s, c) == Some(i),
    decreases i,
{
    if i > 0 {
        lemma_find_char_at(s.drop_first(), c, i - 1);
    }
}

pub proof fn lemma_find_char_found(s: Seq<char>, c: char)
    ensures
        match find_char(s, c) {
            Some(i) => 0 <= i < s.len() && s[i] == c && forall|k: int| 0 <= k < i ==> s[k] != c,
            None => forall|k: int| 0 <= k < s.len() ==> s[k] != c,
        },
    decreases s.len(),
{
    if s.len() > 0 {
        lemma_find_char_found(s.drop_first(), c);
        if s[0] != c {
            match find_char(s.drop_first(), c) {
                Some(i) => {
                    assert forall|k: int| 0 <= k < i + 1 implies s[k] != c by {
                        if k > 0 {
                            assert(s[k] == s.drop_first()[k - 1]);
                        }
                    }
                },
                None => {
                    assert forall|k: int| 0 <= k < s.len() implies s[k] != c by {
                        if k > 0 {
                            assert(s[k] == s.drop_first()[k - 1]);
                        }
                    }
                },
            }
        }
    }
}

fn strip_cr_exec(v: &mut Vec<char>)
    ensures
        final(v)@ == strip_cr(old(v)@),
{
    let n = v.len();
    if n > 0 && v[n - 1] == '\r' {
        v.pop();
    }
}

/// The lines of `s`, as `lines` describes.
pub fn lines_of(s: &Vec<char>) -> (r: Vec<Vec<char>>)
    ensures
        views(r@) == lines(s@),
{
    let n = s.len();
    let mut out: Vec<Vec<char>> = Vec::new();
    let mut cur: Vec<char> = Vec::new();
    let mut start: usize = 0;
    let mut i: usize = 0;
    assert(s@.skip(0) == s@);
    assert(views(out@) == Seq::<Seq<char>>::empty());
    while i < n
        invariant
            start <= i <= n,
            n == s@.len(),
            cur@ == s@.subrange(start as int, i as int),
            forall|k: int| start <= k < i ==> s@[k] != '\n',
            lines(s@) == views(out@) + lines(s@.skip(start as int)),
        decreases n - i,
    {
        let c = s[i];
        if c == '\n' {
            let ghost rest = s@.skip(start as int);
            proof {
                lemma_find_char_at(rest, '\n', i - start);
                assert(rest.take(i - start) == cur@);
                assert(rest.skip(i - start + 1) == s@.skip(i + 1));
            }
            let mut line = cur;
            strip_cr_exec(&mut line);
            let ghost prev = out@;
            out.push(line);
            assert(views(out@) == views(prev) + seq![strip_cr(rest.take(i - start))]);
            cur = Vec::new();
            start = i + 1;
        } else {
            cur.push(c);
        }
        i += 1;
    }
    let ghost rest = s@.skip(start as int);
    if start < n {
        proof {
            lemma_find_char_none(rest, '\n');
            assert(cur@ == rest);
        }
        let ghost prev = out@;
        out.push(cur);
        assert(views(out@) == views(prev) + seq![rest]);
    } else {
        assert(rest.len() == 0);
        assert(views(out@) + lines(rest) == views(out@));
    }
    out
}

proof fn lemma_word_end(s: Seq<char>, e: int)
    requires
        0 <= e <= s.len(),
        forall|k: int| 0 <= k < e ==> !is_whitespace(#[trigger] s[k]),
        e == s.len() || is_whitespace(s[e]),
    ensures
        word_end(s) == e,
    decreases e,
{
    if e > 0 {
        lemma_word_end(s.drop_first(), e - 1);
    }
}

/// The whitespace-separated words of `s`, as `words` describes.
pub fn words_of(s: &Vec<char>) -> (r: Vec<Vec<char>>)
    ensures
        views(r@) == words(s@),
{
    let n = s.len();
    let mut out: Vec<Vec<char>> = Vec::new();
    let mut i: usize = 0;
    assert(s@.skip(0) == s@);
    assert(views(out@) == Seq::<Seq<char>>::empty());
    while i < n
        invariant
            i <= n,
            n == s@.len(),
            words(s@) == views(out@) + words(s@.skip(i as int)),
        decreases n - i,
    {
        if crate::text::is_whitespace_exec(s[i]) {
            assert(s@.skip(i as int).drop_first() == s@.skip(i + 1));
            i += 1;
        } else {
            let mut w: Vec<char> = Vec::new();
            let mut j: usize = i;
            while j < n && !crate::text::is_whitespace_exec(s[j])
                invariant
                    i <= j <= n,
                    n == s@.len(),
                    w@ == s@.subrange(i as int, j as int),
                    forall|k: int| i <= k < j ==> !is_whitespace(#[trigger] s@[k]),
                decreases n - j,
            {
                w.push(s[j]);
                j += 1;
            }
            let ghost rest = s@.skip(i as int);
            proof {
                assert forall|k: int| 0 <= k < j - i implies !is_whitespace(#[trigger] rest[k]) by {
                    assert(rest[k] == s@[i + k]);
                }
                if j < n {
                    assert(rest[j - i] == s@[j as int]);
                }
                lemma_word_end(rest, j - i);
                assert(rest.take(j - i) == w@);
                assert(rest.skip(j - i) == s@.skip(j as int));
            }
            let ghost prev = out@;
            out.push(w);
            assert(views(out@) == views(prev) + seq![rest.take(j - i)]);
            i = j;
        }
    }
    assert(s@.skip(n as int).len() == 0);
    assert(views(out@) + words(s@.skip(n as int)) == views(out@));
    out
}

/// Whether `s` begins with `p`.
pub fn starts_with_exec(s: &Vec<char>, p: &Vec<char>) -> (b: bool)
    ensures
        b == starts_with(s@, p@),
{
    if p.len() > s.len() {
        return false;
    }
    let mut i: usize = 0;
    while i < p.len()
        invariant
            i <= p@.len() <= s@.len(),
            forall|k: int| 0 <= k < i ==> s@[k] == p@[k],
        decreases p@.len() - i,
    {
        if s[i] != p[i] {
            assert(s@.take(p@.len() as int)[i as int] != p@[i as int]);
            return false;
        }
        i += 1;
    }
    assert(s@.take(p@.len() as int) == p@);
    true
}

/// Whether `a` and `b` hold the same characters.
pub fn same_chars(a: &Vec<char>, b: &Vec<char>) -> (eq: bool)
    ensures
        eq == (a@ == b@),
{
    if a.len() != b.len() {
        return false;
    }
    let mut i: usize = 0;
    while i < a.len()
        invariant
            i <= a@.len(),
            a@.len() == b@.len(),
            forall|k: int| 0 <= k < i ==> a@[k] == b@[k],
        decreases a@.len() - i,
    {
        if a[i] != b[i] {
            return false;
        }
        i += 1;
    }
    assert(a@ == b@);
    true
}

/// The first `:` in `line`, if any.
pub fn find_colon(line: &Vec<char>) -> (r: Option<usize>)
    ensures
        match r {
            Some(i) => find_char(line@, ':') == Some(i as int) && i < line@.len(),
            None => find_char(line@, ':') is None,
        },
{
    let mut i: usize = 0;
    while i < line.len()
        invariant
            i <= line@.len(),
            forall|k: int| 0 <= k < i ==> line@[k] != ':',
        decreases line@.len() - i,
    {
        if line[i] == ':' {
            proof {
                lemma_find_char_at(line@, ':', i as int);
            }
            return Some(i);
        }
        i += 1;
    }
    proof {
        lemma_find_char_none(line@, ':');
    }
    None
}

/// The characters `v[lo..hi]`.
pub fn slice_chars(v: &Vec<char>, lo: usize, hi: usize) -> (r: Vec<char>)
    requires
        lo <= hi <= v@.len(),
    ensures
        r@ == v@.subrange(lo as int, hi as int),
{
    let mut r: Vec<char> = Vec::new();
    let mut i: usize = lo;
    while i < hi
        invariant
            lo <= i <= hi,
            hi <= v@.len(),
            r@ == v@.subrange(lo as int, i as int),
        decreases hi - i,
    {
        r.push(v[i]);
        i += 1;
    }
    r
}

/// The index of the last `") "` in `s`, if any.
pub fn rfind_paren_space_exec(s: &Vec<char>) -> (r: Option<usize>)
    ensures
        match r {
            Some(i) => rfind_paren_space(s@) == Some(i as int),
            None => rfind_paren_space(s@) is None,
        },
{
    let mut j: usize = s.len();
    assert(s@.take(j as int) == s@);
    while j >= 2
        invariant
            j <= s@.len(),
            rfind_paren_space(s@) == rfind_paren_space(s@.take(j as int)),
        decreases j,
    {
        let ghost t = s@.take(j as int);
        if s[j - 2] == ')' && s[j - 1] == ' ' {
            assert(t[t.len() - 2] == ')' && t[t.len() - 1] == ' ');
            return Some(j - 2);
        }
        assert(t.drop_last() == s@.take(j - 1));
        j -= 1;
    }
    assert(s@.take(j as int).len() < 2);
    None
}

/// The characters of all lines, each followed by `\n`.
pub fn unlines_exec(ls: &Vec<Vec<char>>) -> (s: String)
    ensures
        s@ == unlines(views(ls@)),
{
    let n = ls.len();
    let mut s = String::new();
    let mut parts: Vec<char> = Vec::new();
    let mut k: usize = 0;
    assert(views(ls@).skip(0) == views(ls@));
    let ghost mut done: Seq<char> = seq![];
    while k < n
        invariant
            k <= n,
            n == ls@.len(),
            parts@ == done,
            unlines(views(ls@)) == done + unlines(views(ls@).skip(k as int)),
        decreases n - k,
    {
        let ghost rest = views(ls@).skip(k as int);
        assert(rest[0] == ls@[k as int]@);
        assert(rest.drop_first() == views(ls@).skip(k + 1));
        let line = &ls[k];
        let mut j: usize = 0;
        let ghost before = parts@;
        while j < line.len()
            invariant
                j <= line@.len(),
                parts@ == before + line@.take(j as int),
            decreases line@.len() - j,
        {
            parts.push(line[j]);
            j += 1;
            assert(parts@ == before + line@.take(j as int));
        }
        assert(line@.take(line@.len() as int) == line@);
        parts.push('\n');
        proof {
            done = done + (line@ + seq!['\n']);
            assert(parts@ == done);
        }
        k += 1;
    }
    assert(views(ls@).skip(n as int).len() == 0);
    assert(done + unlines(views(ls@).skip(n as int)) == done);
    push_chars(&mut s, &parts);
    s
}

/// Joining lines that hold no `\n` and then splitting gives them back,
/// less a carriage return at the end of each.
pub proof fn lemma_lines_unlines(ls: Seq<Seq<char>>)
    requires
        forall|i: int, k: int| 0 <= i < ls.len() && 0 <= k < ls[i].len() ==> #[trigger] ls[i][k]
            != '\n',
    ensures
        lines(unlines(ls)) == ls.map_values(|l: Seq<char>| strip_cr(l)),
    decreases ls.len(),
{
    if ls.len() > 0 {
        let s = unlines(ls);
        let l0 = ls[0];
        assert forall|k: int| 0 <= k < l0.len() implies s[k] != '\n' by {
            assert(s[k] == l0[k]);
            assert(ls[0][k] != '\n');
        }
        assert(s[l0.len() as int] == '\n');
        lemma_find_char_at(s, '\n', l0.len() as int);
        assert(s.take(l0.len() as int) == l0);
        assert(s.skip(l0.len() as int + 1) == unlines(ls.drop_first()));
        assert forall|i: int, k: int|
            0 <= i < ls.drop_first().len() && 0 <= k < ls.drop_first()[i].len() implies #[trigger] ls.drop_first()[i][k]
            != '\n' by {
            assert(ls.drop_first()[i] == ls[i + 1]);
        }
        lemma_lines_unlines(ls.drop_first());
        assert(ls.map_values(|l: Seq<char>| strip_cr(l)) == seq![strip_cr(l0)] + ls.drop_first().map_values(
            |l: Seq<char>| strip_cr(l),
        ));
    } else {
        assert(unlines(ls).len() == 0);
    }
}

/// The last `") "` lies inside `s`.
pub proof fn lemma_rfind_paren_space_range(s: Seq<char>)
    ensures
        rfind_paren_space(s) matches Some(i) ==> 0 <= i && i + 2 <= s.len(),
    decreases s.len(),
{
    if s.len() >= 2 {
        lemma_rfind_paren_space_range(s.drop_last());
    }
}

} // verus!
