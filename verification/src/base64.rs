//! URL-safe base64 without padding (RFC 4648 §5 with the `=` stripped).
//! Token payloads are fixed-length, so the decoder leaves short-input
//! validation to the caller, which checks the exact byte count.
use vstd::prelude::*;
use crate::text::{chars_of, push_char};

verus! {

/// The character of the 6-bit value `v` in the URL-safe alphabet
/// `A-Z a-z 0-9 - _`.
pub open spec fn sextet_char(v: u8) -> char {
    if v < 26 {
        (65 + v) as char
    } else if v < 52 {
        (97 + v - 26) as char
    } else if v < 62 {
        (48 + v - 52) as char
    } else if v == 62 {
        '-'
    } else {
        '_'
    }
}

/// The 6-bit value of an alphabet character.
pub open spec fn char_sextet(c: char) -> Option<u8> {
    if 'A' <= c && c <= 'Z' {
        Some((c as int - 65) as u8)
    } else if 'a' <= c && c <= 'z' {
        Some((c as int - 97 + 26) as u8)
    } else if '0' <= c && c <= '9' {
        Some((c as int - 48 + 52) as u8)
    } else if c == '-' {
        Some(62u8)
    } else if c == '_' {
        Some(63u8)
    } else {
        None
    }
}

/// Characters the decoder skips: ASCII whitespace and padding `=`.
pub open spec fn is_skipped(c: char) -> bool {
    c == ' ' || c == '\t' || c == '\n' || c == '\x0C' || c == '\r' || c == '='
}

/// The 6-bit values that encode `d`: four per three bytes, and two or three
/// for a final group of one or two bytes (missing bits taken as zero).
pub open spec fn sextets_of(d: Seq<u8>) -> Seq<u8>
    decreases d.len(),
{
    if d.len() == 0 {
        seq![]
    } else if d.len() == 1 {
        seq![d[0] >> 2u8, (d[0] & 3u8) << 4u8]
    } else if d.len() == 2 {
        seq![d[0] >> 2u8, ((d[0] & 3u8) << 4u8) | (d[1] >> 4u8), (d[1] & 15u8) << 2u8]
    } else {
        seq![
            d[0] >> 2u8,
            ((d[0] & 3u8) << 4u8) | (d[1] >> 4u8),
            ((d[1] & 15u8) << 2u8) | (d[2] >> 6u8),
            d[2] & 63u8,
        ] + sextets_of(d.skip(3))
    }
}

/// The encoding of `d`.
pub open spec fn encode_spec(d: Seq<u8>) -> Seq<char> {
    sextets_of(d).map_values(|v: u8| sextet_char(v))
}

/// The 6-bit values of `t`, skipping whitespace and `=`; `None` when a
/// character is outside the alphabet.
pub open spec fn text_sextets(t: Seq<char>) -> Option<Seq<u8>>
    decreases t.len(),
{
    if t.len() == 0 {
        Some(seq![])
    } else {
        match text_sextets(t.drop_first()) {
            None => None,
            Some(rest) => if is_skipped(t[0]) {
                Some(rest)
            } else {
                match char_sextet(t[0]) {
                    Some(v) => Some(seq![v] + rest),
                    None => None,
                }
            },
        }
    }
}

/// The bytes that the 6-bit values `v` carry: three per four values, one or
/// two for a final group of two or three values (leftover bits dropped).
pub open spec fn bytes_of(v: Seq<u8>) -> Seq<u8>
    decreases v.len(),
{
    if v.len() < 2 {
        seq![]
    } else if v.len() == 2 {
        seq![(v[0] << 2u8) | (v[1] >> 4u8)]
    } else if v.len() == 3 {
        seq![(v[0] << 2u8) | (v[1] >> 4u8), ((v[1] & 15u8) << 4u8) | (v[2] >> 2u8)]
    } else {
        seq![
            (v[0] << 2u8) | (v[1] >> 4u8),
            ((v[1] & 15u8) << 4u8) | (v[2] >> 2u8),
            ((v[2] & 3u8) << 6u8) | v[3],
        ] + bytes_of(v.skip(4))
    }
}

/// The decoding of `t`: `None` when `t` holds a character outside the
/// alphabet other than whitespace and `=`.
pub open spec fn decode_spec(t: Seq<char>) -> Option<Seq<u8>> {
    match text_sextets(t) {
        Some(v) => Some(bytes_of(v)),
        None => None,
    }
}

fn sextet_to_char(v: u8) -> (c: char)
    requires
        v < 64,
    ensures
        c == sextet_char(v),
{
    if v < 26 {
        (65 + v) as char
    } else if v < 52 {
        (97 + v - 26) as char
    } else if v < 62 {
        (48 + v - 52) as char
    } else if v == 62 {
        '-'
    } else {
        '_'
    }
}

fn char_to_sextet(c: char) -> (r: Option<u8>)
    ensures
        r == char_sextet(c),
{
    if 'A' <= c && c <= 'Z' {
        Some(((c as u32) - 65) as u8)
    } else if 'a' <= c && c <= 'z' {
        Some(((c as u32) - 97 + 26) as u8)
    } else if '0' <= c && c <= '9' {
        Some(((c as u32) - 48 + 52) as u8)
    } else if c == '-' {
        Some(62)
    } else if c == '_' {
        Some(63)
    } else {
        None
    }
}

proof fn lemma_sextets_step(d: Seq<u8>, i: int)
    requires
        0 <= i,
        i + 3 <= d.len(),
    ensures
        sextets_of(d.skip(i)) == seq![
            d[i] >> 2u8,
            ((d[i] & 3u8) << 4u8) | (d[i + 1] >> 4u8),
            ((d[i + 1] & 15u8) << 2u8) | (d[i + 2] >> 6u8),
            d[i + 2] & 63u8,
        ] + sextets_of(d.skip(i + 3)),
{
    assert(d.skip(i).skip(3) == d.skip(i + 3));
}

fn push_sextet(out: &mut String, v: u8, Ghost(acc): Ghost<Seq<u8>>)
    requires
        v < 64,
        old(out)@ == acc.map_values(|w: u8| sextet_char(w)),
    ensures
        final(out)@ == acc.push(v).map_values(|w: u8| sextet_char(w)),
{
    push_char(out, sextet_to_char(v));
    assert(acc.push(v).map_values(|w: u8| sextet_char(w)) == acc.map_values(
        |w: u8| sextet_char(w),
    ).push(sextet_char(v)));
}

/// The URL-safe base64 encoding of `input`, without padding.
pub fn encode(input: &[u8]) -> (out: String)
    ensures
        out@ == encode_spec(input@),
{
    let n = input.len();
    let mut out = String::new();
    let ghost mut acc: Seq<u8> = seq![];
    let mut i: usize = 0;
    assert(input@.skip(0) == input@);
    assert(out@ == acc.map_values(|w: u8| sextet_char(w)));
    while n - i >= 3
        invariant
            i <= n,
            n == input@.len(),
            sextets_of(input@) == acc + sextets_of(input@.skip(i as int)),
            out@ == acc.map_values(|w: u8| sextet_char(w)),
        decreases n - i,
    {
        let b0 = input[i];
        let b1 = input[i + 1];
        let b2 = input[i + 2];
        proof {
            lemma_sextets_step(input@, i as int);
        }
        let v0 = b0 >> 2u8;
        let v1 = ((b0 & 3u8) << 4u8) | (b1 >> 4u8);
        let v2 = ((b1 & 15u8) << 2u8) | (b2 >> 6u8);
        let v3 = b2 & 63u8;
        assert(v0 < 64 && v1 < 64 && v2 < 64 && v3 < 64) by (bit_vector)
            requires
                v0 == b0 >> 2u8,
                v1 == ((b0 & 3u8) << 4u8) | (b1 >> 4u8),
                v2 == ((b1 & 15u8) << 2u8) | (b2 >> 6u8),
                v3 == b2 & 63u8,
        ;
        push_sextet(&mut out, v0, Ghost(acc));
        push_sextet(&mut out, v1, Ghost(acc.push(v0)));
        push_sextet(&mut out, v2, Ghost(acc.push(v0).push(v1)));
        push_sextet(&mut out, v3, Ghost(acc.push(v0).push(v1).push(v2)));
        proof {
            assert(acc.push(v0).push(v1).push(v2).push(v3) == acc + seq![v0, v1, v2, v3]);
            acc = acc + seq![v0, v1, v2, v3];
        }
        i += 3;
    }
    let rem = n - i;
    let ghost last = input@.skip(i as int);
    assert(last.len() == rem);
    if rem == 1 {
        let b0 = input[i];
        assert(last[0] == b0);
        let v0 = b0 >> 2u8;
        let v1 = (b0 & 3u8) << 4u8;
        assert(v0 < 64 && v1 < 64) by (bit_vector)
            requires
                v0 == b0 >> 2u8,
                v1 == (b0 & 3u8) << 4u8,
        ;
        push_sextet(&mut out, v0, Ghost(acc));
        push_sextet(&mut out, v1, Ghost(acc.push(v0)));
        proof {
            assert(acc.push(v0).push(v1) == acc + sextets_of(last));
        }
    } else if rem == 2 {
        let b0 = input[i];
        let b1 = input[i + 1];
        assert(last[0] == b0 && last[1] == b1);
        let v0 = b0 >> 2u8;
        let v1 = ((b0 & 3u8) << 4u8) | (b1 >> 4u8);
        let v2 = (b1 & 15u8) << 2u8;
        assert(v0 < 64 && v1 < 64 && v2 < 64) by (bit_vector)
            requires
                v0 == b0 >> 2u8,
                v1 == ((b0 & 3u8) << 4u8) | (b1 >> 4u8),
                v2 == (b1 & 15u8) << 2u8,
        ;
        push_sextet(&mut out, v0, Ghost(acc));
        push_sextet(&mut out, v1, Ghost(acc.push(v0)));
        push_sextet(&mut out, v2, Ghost(acc.push(v0).push(v1)));
        proof {
            assert(acc.push(v0).push(v1).push(v2) == acc + sextets_of(last));
        }
    } else {
        assert(acc + sextets_of(last) == acc);
    }
    out
}

/// The 6-bit values of `chars`, or `None` at a character outside the alphabet.
fn sextets_from_chars(chars: &Vec<char>) -> (r: Option<Vec<u8>>)
    ensures
        match r {
            Some(v) => text_sextets(chars@) == Some(v@) && forall|k: int|
                0 <= k < v@.len() ==> #[trigger] v@[k] < 64,
            None => text_sextets(chars@) is None,
        },
{
    let n = chars.len();
    let mut vals: Vec<u8> = Vec::new();
    let mut i: usize = 0;
    assert(chars@.skip(0) == chars@);
    while i < n
        invariant
            i <= n,
            n == chars@.len(),
            forall|k: int| 0 <= k < vals@.len() ==> #[trigger] vals@[k] < 64,
            text_sextets(chars@) == match text_sextets(chars@.skip(i as int)) {
                Some(rest) => Some(vals@ + rest),
                None => None::<Seq<u8>>,
            },
        decreases n - i,
    {
        let c = chars[i];
        assert(chars@.skip(i as int).drop_first() == chars@.skip(i + 1));
        assert(chars@.skip(i as int)[0] == c);
        if c == ' ' || c == '\t' || c == '\n' || c == '\x0C' || c == '\r' || c == '=' {
        } else {
            match char_to_sextet(c) {
                Some(v) => {
                    let ghost prev = vals@;
                    vals.push(v);
                    proof {
                        match text_sextets(chars@.skip(i + 1)) {
                            Some(rest) => {
                                assert(vals@ + rest == prev + (seq![v] + rest));
                            },
                            None => {},
                        }
                    }
                },
                None => {
                    return None;
                },
            }
        }
        i += 1;
    }
    assert(chars@.skip(n as int) == Seq::<char>::empty());
    assert(vals@ + Seq::<u8>::empty() == vals@);
    Some(vals)
}

/// The bytes that the 6-bit values `vals` carry.
fn bytes_from_sextets(vals: &Vec<u8>) -> (out: Vec<u8>)
    ensures
        out@ == bytes_of(vals@),
{
    let m = vals.len();
    let mut out: Vec<u8> = Vec::new();
    let mut j: usize = 0;
    assert(vals@.skip(0) == vals@);
    while m - j >= 4
        invariant
            j <= m,
            m == vals@.len(),
            bytes_of(vals@) == out@ + bytes_of(vals@.skip(j as int)),
        decreases m - j,
    {
        let v0 = vals[j];
        let v1 = vals[j + 1];
        let v2 = vals[j + 2];
        let v3 = vals[j + 3];
        assert(vals@.skip(j as int).skip(4) == vals@.skip(j + 4));
        out.push((v0 << 2u8) | (v1 >> 4u8));
        out.push(((v1 & 15u8) << 4u8) | (v2 >> 2u8));
        out.push(((v2 & 3u8) << 6u8) | v3);
        j += 4;
    }
    let ghost last = vals@.skip(j as int);
    let rem = m - j;
    if rem == 2 {
        let v0 = vals[j];
        let v1 = vals[j + 1];
        out.push((v0 << 2u8) | (v1 >> 4u8));
    } else if rem == 3 {
        let v0 = vals[j];
        let v1 = vals[j + 1];
        let v2 = vals[j + 2];
        out.push((v0 << 2u8) | (v1 >> 4u8));
        out.push(((v1 & 15u8) << 4u8) | (v2 >> 2u8));
    }
    assert(bytes_of(vals@) == out@);
    out
}

/// Decodes URL-safe base64, ignoring ASCII whitespace and `=`. Any other
/// character outside the alphabet is refused with "invalid token".
pub fn decode(input: &str) -> (r: Result<Vec<u8>, String>)
    ensures
        match r {
            Ok(bytes) => decode_spec(input@) == Some(bytes@),
            Err(e) => decode_spec(input@) is None && e@ == "invalid token"@,
        },
{
    let chars = chars_of(input);
    match sextets_from_chars(&chars) {
        Some(vals) => Ok(bytes_from_sextets(&vals)),
        None => Err(String::from_str("invalid token")),
    }
}

proof fn lemma_sextet_char(v: u8)
    requires
        v < 64,
    ensures
        !is_skipped(sextet_char(v)),
        char_sextet(sextet_char(v)) == Some(v),
{
    if v < 26 {
        assert(sextet_char(v) as int == 65 + v);
    } else if v < 52 {
        assert(sextet_char(v) as int == 97 + v - 26);
    } else if v < 62 {
        assert(sextet_char(v) as int == 48 + v - 52);
    }
}

proof fn lemma_chars_round_trip(s: Seq<u8>)
    requires
        forall|k: int| 0 <= k < s.len() ==> #[trigger] s[k] < 64,
    ensures
        text_sextets(s.map_values(|v: u8| sextet_char(v))) == Some(s),
    decreases s.len(),
{
    let t = s.map_values(|v: u8| sextet_char(v));
    if s.len() > 0 {
        assert(t.drop_first() == s.drop_first().map_values(|v: u8| sextet_char(v)));
        lemma_chars_round_trip(s.drop_first());
        lemma_sextet_char(s[0]);
        assert(seq![s[0]] + s.drop_first() == s);
    } else {
        assert(t.len() == 0);
    }
}

proof fn lemma_sextets_round_trip(d: Seq<u8>)
    ensures
        bytes_of(sextets_of(d)) == d,
        forall|k: int| 0 <= k < sextets_of(d).len() ==> #[trigger] sextets_of(d)[k] < 64,
    decreases d.len(),
{
    if d.len() == 1 {
        let b0 = d[0];
        assert(b0 >> 2u8 < 64 && (b0 & 3u8) << 4u8 < 64 && ((b0 >> 2u8) << 2u8) | (((b0 & 3u8)
            << 4u8) >> 4u8) == b0) by (bit_vector);
        assert(bytes_of(sextets_of(d)) == seq![b0]);
    } else if d.len() == 2 {
        let b0 = d[0];
        let b1 = d[1];
        let v0 = b0 >> 2u8;
        let v1 = ((b0 & 3u8) << 4u8) | (b1 >> 4u8);
        let v2 = (b1 & 15u8) << 2u8;
        assert(v0 < 64 && v1 < 64 && v2 < 64 && (v0 << 2u8) | (v1 >> 4u8) == b0 && ((v1 & 15u8)
            << 4u8) | (v2 >> 2u8) == b1) by (bit_vector)
            requires
                v0 == b0 >> 2u8,
                v1 == ((b0 & 3u8) << 4u8) | (b1 >> 4u8),
                v2 == (b1 & 15u8) << 2u8,
        ;
        assert(bytes_of(sextets_of(d)) == seq![b0, b1]);
    } else if d.len() >= 3 {
        let b0 = d[0];
        let b1 = d[1];
        let b2 = d[2];
        let v0 = b0 >> 2u8;
        let v1 = ((b0 & 3u8) << 4u8) | (b1 >> 4u8);
        let v2 = ((b1 & 15u8) << 2u8) | (b2 >> 6u8);
        let v3 = b2 & 63u8;
        assert(v0 < 64 && v1 < 64 && v2 < 64 && v3 < 64 && (v0 << 2u8) | (v1 >> 4u8) == b0 && ((
        v1 & 15u8) << 4u8) | (v2 >> 2u8) == b1 && ((v2 & 3u8) << 6u8) | v3 == b2) by (bit_vector)
            requires
                v0 == b0 >> 2u8,
                v1 == ((b0 & 3u8) << 4u8) | (b1 >> 4u8),
                v2 == ((b1 & 15u8) << 2u8) | (b2 >> 6u8),
                v3 == b2 & 63u8,
        ;
        lemma_sextets_round_trip(d.skip(3));
        let g = seq![v0, v1, v2, v3];
        let rest = sextets_of(d.skip(3));
        assert(sextets_of(d) == g + rest);
        assert((g + rest).skip(4) == rest);
        assert(bytes_of(g + rest) == seq![b0, b1, b2] + bytes_of(rest));
        assert(seq![b0, b1, b2] + d.skip(3) == d);
        assert forall|k: int| 0 <= k < sextets_of(d).len() implies #[trigger] sextets_of(d)[k]
            < 64 by {
            if k >= 4 {
                assert(sextets_of(d)[k] == rest[k - 4]);
            }
        }
    }
}

/// Decoding what `encode` produced gives back the input bytes.
pub proof fn decode_encode_round_trip(data: Seq<u8>)
    ensures
        decode_spec(encode_spec(data)) == Some(data),
{
    lemma_sextets_round_trip(data);
    lemma_chars_round_trip(sextets_of(data));
}

/// Four characters per three bytes, two or three for a final partial group.
pub proof fn lemma_sextets_len(d: Seq<u8>)
    ensures
        sextets_of(d).len() == (4 * d.len() + 2) / 3,
        encode_spec(d).len() == (4 * d.len() + 2) / 3,
    decreases d.len(),
{
    if d.len() >= 3 {
        lemma_sextets_len(d.skip(3));
    }
}

/// The characters of `t` that are not skipped, in order.
pub open spec fn unskipped(t: Seq<char>) -> Seq<char>
    decreases t.len(),
{
    if t.len() == 0 {
        seq![]
    } else if is_skipped(t[0]) {
        unskipped(t.drop_first())
    } else {
        seq![t[0]] + unskipped(t.drop_first())
    }
}

proof fn lemma_text_sextets_unskipped(t: Seq<char>)
    ensures
        text_sextets(t) == text_sextets(unskipped(t)),
        text_sextets(t) matches Some(v) ==> v.len() == unskipped(t).len(),
    decreases t.len(),
{
    if t.len() > 0 {
        lemma_text_sextets_unskipped(t.drop_first());
        if !is_skipped(t[0]) {
            let u = seq![t[0]] + unskipped(t.drop_first());
            assert(u.drop_first() == unskipped(t.drop_first()));
            assert(u[0] == t[0]);
        }
    }
}

proof fn lemma_bytes_len(v: Seq<u8>)
    ensures
        bytes_of(v).len() == 6 * v.len() / 8,
    decreases v.len(),
{
    if v.len() >= 4 {
        lemma_bytes_len(v.skip(4));
    }
}

/// Whitespace and `=` do not change what decodes: the decoding of a text is
/// that of its other characters, and `n` of those give `6n/8` bytes.
pub proof fn decode_ignores_skipped(t: Seq<char>)
    ensures
        decode_spec(t) == decode_spec(unskipped(t)),
        decode_spec(t) matches Some(b) ==> b.len() == 6 * unskipped(t).len() / 8,
{
    lemma_text_sextets_unskipped(t);
    if let Some(v) = text_sextets(t) {
        lemma_bytes_len(v);
    }
}

} // verus!
