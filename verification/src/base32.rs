//! RFC 4648 base32 (alphabet `A-Z 2-7`), the storage format of TOTP secrets.
//! The encoder writes no `=` padding, as otpauth URIs expect; the decoder
//! tolerates padding by skipping `=`.
use vstd::prelude::*;
use crate::text::{chars_of, push_char};

verus! {

/// The character of the 5-bit value `v`.
pub open spec fn quintet_char(v: u8) -> char {
    if v < 26 {
        (65 + v) as char
    } else {
        (50 + v - 26) as char
    }
}

/// The 5-bit value of an alphabet character.
pub open spec fn char_quintet(c: char) -> Option<u8> {
    if 'A' <= c && c <= 'Z' {
        Some((c as int - 65) as u8)
    } else if '2' <= c && c <= '7' {
        Some((c as int - 50 + 26) as u8)
    } else {
        None
    }
}

/// Byte `i` of a group, zero past its end.
pub open spec fn at_or_zero(g: Seq<u8>, i: int) -> u8 {
    if 0 <= i < g.len() {
        g[i]
    } else {
        0u8
    }
}

/// The eight 5-bit values of a 5-byte group `b0..b4`.
pub open spec fn quintets5(b0: u8, b1: u8, b2: u8, b3: u8, b4: u8) -> Seq<u8> {
    seq![
        b0 >> 3u8,
        ((b0 & 7u8) << 2u8) | (b1 >> 6u8),
        (b1 >> 1u8) & 31u8,
        ((b1 & 1u8) << 4u8) | (b2 >> 4u8),
        ((b2 & 15u8) << 1u8) | (b3 >> 7u8),
        (b3 >> 2u8) & 31u8,
        ((b3 & 3u8) << 3u8) | (b4 >> 5u8),
        b4 & 31u8,
    ]
}

/// The five bytes of an 8-value group `v0..v7`.
pub open spec fn bytes8(v0: u8, v1: u8, v2: u8, v3: u8, v4: u8, v5: u8, v6: u8, v7: u8) -> Seq<u8> {
    seq![
        (v0 << 3u8) | (v1 >> 2u8),
        (v1 << 6u8) | (v2 << 1u8) | (v3 >> 4u8),
        (v3 << 4u8) | (v4 >> 1u8),
        (v4 << 7u8) | (v5 << 2u8) | (v6 >> 3u8),
        (v6 << 5u8) | v7,
    ]
}

/// How many 5-bit values encode a group of `n` bytes (`1 <= n <= 5`).
pub open spec fn encoded_len(n: int) -> int {
    if n == 1 {
        2
    } else if n == 2 {
        4
    } else if n == 3 {
        5
    } else if n == 4 {
        7
    } else {
        8
    }
}

/// The values of one group of up to five bytes (missing bits taken as zero).
pub open spec fn encode_group(g: Seq<u8>) -> Seq<u8> {
    quintets5(
        at_or_zero(g, 0),
        at_or_zero(g, 1),
        at_or_zero(g, 2),
        at_or_zero(g, 3),
        at_or_zero(g, 4),
    ).take(encoded_len(g.len() as int))
}

/// The bytes of one group of up to eight values: `5 * n / 8` of them
/// (leftover bits dropped).
pub open spec fn decode_group(v: Seq<u8>) -> Seq<u8> {
    bytes8(
        at_or_zero(v, 0),
        at_or_zero(v, 1),
        at_or_zero(v, 2),
        at_or_zero(v, 3),
        at_or_zero(v, 4),
        at_or_zero(v, 5),
        at_or_zero(v, 6),
        at_or_zero(v, 7),
    ).take((5 * v.len() / 8) as int)
}

/// The 5-bit values that encode `d`, group by group.
pub open spec fn quintets_of(d: Seq<u8>) -> Seq<u8>
    decreases d.len(),
{
    if d.len() == 0 {
        seq![]
    } else if d.len() <= 5 {
        encode_group(d)
    } else {
        encode_group(d.take(5)) + quintets_of(d.skip(5))
    }
}

/// The base32 encoding of `d`, without padding.
pub open spec fn encode_spec(d: Seq<u8>) -> Seq<char> {
    quintets_of(d).map_values(|v: u8| quintet_char(v))
}

/// The 5-bit values of `t`, skipping `=`; `None` at any other character
/// outside the alphabet.
pub open spec fn text_quintets(t: Seq<char>) -> Option<Seq<u8>>
    decreases t.len(),
{
    if t.len() == 0 {
        Some(seq![])
    } else {
        match text_quintets(t.drop_first()) {
            None => None,
            Some(rest) => if t[0] == '=' {
                Some(rest)
            } else {
                match char_quintet(t[0]) {
                    Some(v) => Some(seq![v] + rest),
                    None => None,
                }
            },
        }
    }
}

/// The bytes that the 5-bit values `v` carry, group by group.
pub open spec fn bytes_of(v: Seq<u8>) -> Seq<u8>
    decreases v.len(),
{
    if v.len() <= 8 {
        decode_group(v)
    } else {
        decode_group(v.take(8)) + bytes_of(v.skip(8))
    }
}

/// The decoding of `t`, or `None` when `t` holds a character outside the
/// alphabet other than `=`.
pub open spec fn decode_spec(t: Seq<char>) -> Option<Seq<u8>> {
    match text_quintets(t) {
        Some(v) => Some(bytes_of(v)),
        None => None,
    }
}

fn quintet_to_char(v: u8) -> (c: char)
    requires
        v < 32,
    ensures
        c == quintet_char(v),
{
    if v < 26 {
        (65 + v) as char
    } else {
        (50 + v - 26) as char
    }
}

fn char_to_quintet(c: char) -> (r: Option<u8>)
    ensures
        r == char_quintet(c),
{
    if 'A' <= c && c <= 'Z' {
        Some(((c as u32) - 65) as u8)
    } else if '2' <= c && c <= '7' {
        Some(((c as u32) - 50 + 26) as u8)
    } else {
        None
    }
}

fn byte_or_zero(d: &[u8], i: usize) -> (b: u8)
    ensures
        b == at_or_zero(d@, i as int),
{
    if i < d.len() {
        d[i]
    } else {
        0
    }
}

proof fn lemma_quintets_small(b0: u8, b1: u8, b2: u8, b3: u8, b4: u8)
    ensures
        forall|k: int| 0 <= k < 8 ==> #[trigger] quintets5(b0, b1, b2, b3, b4)[k] < 32,
{
    assert(b0 >> 3u8 < 32 && ((b0 & 7u8) << 2u8) | (b1 >> 6u8) < 32 && (b1 >> 1u8) & 31u8 < 32
        && ((b1 & 1u8) << 4u8) | (b2 >> 4u8) < 32 && ((b2 & 15u8) << 1u8) | (b3 >> 7u8) < 32 && (b3
        >> 2u8) & 31u8 < 32 && ((b3 & 3u8) << 3u8) | (b4 >> 5u8) < 32 && b4 & 31u8 < 32)
        by (bit_vector);
}

/// The 5-bit values of the group `d[i..min(i+5, len)]`.
fn encode_group_exec(d: &[u8], i: usize) -> (r: Vec<u8>)
    requires
        i < d@.len(),
    ensures
        r@ == encode_group(d@.subrange(i as int, if i + 5 <= d@.len() {
            i + 5
        } else {
            d@.len() as int
        })),
        forall|k: int| 0 <= k < r@.len() ==> #[trigger] r@[k] < 32,
{
    let n = d.len();
    let end = if n - i >= 5 {
        i + 5
    } else {
        n
    };
    let ghost g = d@.subrange(i as int, end as int);
    let b0 = byte_or_zero(d, i);
    let b1 = if end - i > 1 {
        d[i + 1]
    } else {
        0
    };
    let b2 = if end - i > 2 {
        d[i + 2]
    } else {
        0
    };
    let b3 = if end - i > 3 {
        d[i + 3]
    } else {
        0
    };
    let b4 = if end - i > 4 {
        d[i + 4]
    } else {
        0
    };
    assert(b0 == at_or_zero(g, 0) && b1 == at_or_zero(g, 1) && b2 == at_or_zero(g, 2) && b3
        == at_or_zero(g, 3) && b4 == at_or_zero(g, 4));
    let all: Vec<u8> = vec![
        b0 >> 3u8,
        ((b0 & 7u8) << 2u8) | (b1 >> 6u8),
        (b1 >> 1u8) & 31u8,
        ((b1 & 1u8) << 4u8) | (b2 >> 4u8),
        ((b2 & 15u8) << 1u8) | (b3 >> 7u8),
        (b3 >> 2u8) & 31u8,
        ((b3 & 3u8) << 3u8) | (b4 >> 5u8),
        b4 & 31u8,
    ];
    proof {
        lemma_quintets_small(b0, b1, b2, b3, b4);
    }
    assert(all@ == quintets5(b0, b1, b2, b3, b4));
    let glen = end - i;
    let count: usize = if glen == 1 {
        2
    } else if glen == 2 {
        4
    } else if glen == 3 {
        5
    } else if glen == 4 {
        7
    } else {
        8
    };
    let mut r: Vec<u8> = Vec::new();
    let mut k: usize = 0;
    while k < count
        invariant
            k <= count,
            count <= 8,
            all@.len() == 8,
            forall|j: int| 0 <= j < 8 ==> #[trigger] all@[j] < 32,
            r@ == all@.take(k as int),
        decreases count - k,
    {
        r.push(all[k]);
        k += 1;
        assert(r@ == all@.take(k as int));
    }
    r
}

/// The base32 encoding of `input`, without padding.
pub fn encode(input: &[u8]) -> (out: String)
    ensures
        out@ == encode_spec(input@),
{
    let n = input.len();
    let mut out = String::new();
    let ghost mut acc: Seq<u8> = seq![];
    let mut i: usize = 0;
    assert(input@.skip(0) == input@);
    while i < n
        invariant
            i <= n,
            n == input@.len(),
            quintets_of(input@) == acc + quintets_of(input@.skip(i as int)),
            out@ == acc.map_values(|w: u8| quintet_char(w)),
        decreases n - i,
    {
        let g = encode_group_exec(input, i);
        let ghost rest = input@.skip(i as int);
        proof {
            if n - i <= 5 {
                assert(input@.subrange(i as int, n as int) == rest);
                assert(quintets_of(rest) == g@);
            } else {
                assert(input@.subrange(i as int, i + 5) == rest.take(5));
                assert(rest.skip(5) == input@.skip(i + 5));
            }
        }
        let glen = g.len();
        let ghost before = acc;
        let mut k: usize = 0;
        while k < glen
            invariant
                k <= glen,
                glen == g@.len(),
                forall|j: int| 0 <= j < g@.len() ==> #[trigger] g@[j] < 32,
                acc == before + g@.take(k as int),
                out@ == acc.map_values(|w: u8| quintet_char(w)),
            decreases glen - k,
        {
            let v = g[k];
            push_char(&mut out, quintet_to_char(v));
            proof {
                assert(acc.push(v).map_values(|w: u8| quintet_char(w)) == acc.map_values(
                    |w: u8| quintet_char(w),
                ).push(quintet_char(v)));
                acc = acc.push(v);
                assert(g@.take(k + 1) == g@.take(k as int).push(v));
            }
            k += 1;
        }
        assert(g@.take(glen as int) == g@);
        if n - i <= 5 {
            i = n;
            assert(input@.skip(n as int) == Seq::<u8>::empty());
            assert(acc + Seq::<u8>::empty() == acc);
        } else {
            i += 5;
        }
    }
    out
}

proof fn lemma_group_round_trip(g: Seq<u8>)
    requires
        1 <= g.len() <= 5,
    ensures
        decode_group(encode_group(g)) == g,
        forall|k: int| 0 <= k < encode_group(g).len() ==> #[trigger] encode_group(g)[k] < 32,
{
    let b0 = at_or_zero(g, 0);
    let b1 = at_or_zero(g, 1);
    let b2 = at_or_zero(g, 2);
    let b3 = at_or_zero(g, 3);
    let b4 = at_or_zero(g, 4);
    lemma_quintets_small(b0, b1, b2, b3, b4);
    let q = quintets5(b0, b1, b2, b3, b4);
    let e = encode_group(g);
    let v0 = q[0];
    let v1 = q[1];
    let v2 = q[2];
    let v3 = q[3];
    let v4 = q[4];
    let v5 = q[5];
    let v6 = q[6];
    let v7 = q[7];
    assert((v0 << 3u8) | (v1 >> 2u8) == b0 && (v1 << 6u8) | (v2 << 1u8) | (v3 >> 4u8) == b1 && (v3
        << 4u8) | (v4 >> 1u8) == b2 && (v4 << 7u8) | (v5 << 2u8) | (v6 >> 3u8) == b3 && (v6 << 5u8)
        | v7 == b4) by (bit_vector)
        requires
            v0 == b0 >> 3u8,
            v1 == ((b0 & 7u8) << 2u8) | (b1 >> 6u8),
            v2 == (b1 >> 1u8) & 31u8,
            v3 == ((b1 & 1u8) << 4u8) | (b2 >> 4u8),
            v4 == ((b2 & 15u8) << 1u8) | (b3 >> 7u8),
            v5 == (b3 >> 2u8) & 31u8,
            v6 == ((b3 & 3u8) << 3u8) | (b4 >> 5u8),
            v7 == b4 & 31u8,
    ;
    assert(e.len() == encoded_len(g.len() as int));
    assert forall|j: int| 0 <= j < e.len() implies #[trigger] at_or_zero(e, j) == q[j] by {}
    let full = bytes8(v0, v1, v2, v3, v4, v5, v6, v7);
    let dec = bytes8(
        at_or_zero(e, 0),
        at_or_zero(e, 1),
        at_or_zero(e, 2),
        at_or_zero(e, 3),
        at_or_zero(e, 4),
        at_or_zero(e, 5),
        at_or_zero(e, 6),
        at_or_zero(e, 7),
    );
    assert(at_or_zero(e, 0) == v0 && at_or_zero(e, 1) == v1);
    if g.len() >= 2 {
        assert(at_or_zero(e, 2) == v2 && at_or_zero(e, 3) == v3);
    }
    if g.len() >= 3 {
        assert(at_or_zero(e, 4) == v4);
    }
    if g.len() >= 4 {
        assert(at_or_zero(e, 5) == v5 && at_or_zero(e, 6) == v6);
    }
    if g.len() >= 5 {
        assert(at_or_zero(e, 7) == v7);
    }
    assert(decode_group(e) =~= full.take(g.len() as int));
    assert(g =~= seq![b0, b1, b2, b3, b4].take(g.len() as int));
}

/// The 5-bit values of `chars`, or `None` at a character outside the alphabet.
fn quintets_from_chars(chars: &Vec<char>) -> (r: Option<Vec<u8>>)
    ensures
        match r {
            Some(v) => text_quintets(chars@) == Some(v@),
            None => text_quintets(chars@) is None,
        },
{
    let n = chars.len();
    let mut vals: Vec<u8> = Vec::new();
    let mut i: usize = 0;
    assert(chars@.skip(0) == chars@);
    while i < n
        invariant
            i <= n,
            n == chars@.len(),
            text_quintets(chars@) == match text_quintets(chars@.skip(i as int)) {
                Some(rest) => Some(vals@ + rest),
                None => None::<Seq<u8>>,
            },
        decreases n - i,
    {
        let c = chars[i];
        assert(chars@.skip(i as int).drop_first() == chars@.skip(i + 1));
        assert(chars@.skip(i as int)[0] == c);
        if c != '=' {
            match char_to_quintet(c) {
                Some(v) => {
                    let ghost prev = vals@;
                    vals.push(v);
                    proof {
                        match text_quintets(chars@.skip(i + 1)) {
                            Some(rest) => {
                                assert(vals@ + rest == prev + (seq![v] + rest));
                            },
                            None => {},
                        }
                    }
                },
                None => {
                    return None;
                },
            }
        }
        i += 1;
    }
    assert(chars@.skip(n as int) == Seq::<char>::empty());
    assert(vals@ + Seq::<u8>::empty() == vals@);
    Some(vals)
}

/// The bytes that the group `vals[j..min(j+8, len)]` carries.
fn decode_group_exec(vals: &Vec<u8>, j: usize, out: &mut Vec<u8>)
    requires
        j < vals@.len(),
    ensures
        final(out)@ == old(out)@ + decode_group(vals@.subrange(j as int, if j + 8 <= vals@.len() {
            j + 8
        } else {
            vals@.len() as int
        })),
{
    let m = vals.len();
    let end = if m - j >= 8 {
        j + 8
    } else {
        m
    };
    let ghost g = vals@.subrange(j as int, end as int);
    let glen = end - j;
    let mut w: Vec<u8> = Vec::new();
    let mut k: usize = 0;
    while k < 8
        invariant
            k <= 8,
            glen == end - j,
            glen <= 8,
            end <= vals@.len(),
            g == vals@.subrange(j as int, end as int),
            w@.len() == k,
            forall|t: int| 0 <= t < k ==> #[trigger] w@[t] == at_or_zero(g, t),
        decreases 8 - k,
    {
        let b = if k < glen {
            vals[j + k]
        } else {
            0
        };
        w.push(b);
        k += 1;
    }
    let all = bytes8_exec(w[0], w[1], w[2], w[3], w[4], w[5], w[6], w[7]);
    let count = 5 * glen / 8;
    let mut t: usize = 0;
    let ghost start = out@;
    while t < count
        invariant
            t <= count,
            count <= 5,
            all@.len() == 5,
            out@ == start + all@.take(t as int),
        decreases count - t,
    {
        out.push(all[t]);
        t += 1;
        assert(out@ == start + all@.take(t as int));
    }
}

fn bytes8_exec(v0: u8, v1: u8, v2: u8, v3: u8, v4: u8, v5: u8, v6: u8, v7: u8) -> (r: Vec<u8>)
    ensures
        r@ == bytes8(v0, v1, v2, v3, v4, v5, v6, v7),
{
    let r = vec![
        (v0 << 3u8) | (v1 >> 2u8),
        (v1 << 6u8) | (v2 << 1u8) | (v3 >> 4u8),
        (v3 << 4u8) | (v4 >> 1u8),
        (v4 << 7u8) | (v5 << 2u8) | (v6 >> 3u8),
        (v6 << 5u8) | v7,
    ];
    assert(r@ == bytes8(v0, v1, v2, v3, v4, v5, v6, v7));
    r
}

/// Decodes base32 text given as characters, skipping `=` padding.
pub fn decode_chars(chars: &Vec<char>) -> (r: Result<Vec<u8>, String>)
    ensures
        match r {
            Ok(bytes) => decode_spec(chars@) == Some(bytes@),
            Err(e) => decode_spec(chars@) is None && e@ == "invalid base32 secret"@,
        },
{
    let vals = match quintets_from_chars(chars) {
        Some(v) => v,
        None => return Err(String::from_str("invalid base32 secret")),
    };
    let m = vals.len();
    let mut out: Vec<u8> = Vec::new();
    let mut j: usize = 0;
    assert(vals@.skip(0) == vals@);
    if m == 0 {
        assert(bytes_of(vals@) == decode_group(vals@));
        assert(decode_group(vals@) =~= Seq::<u8>::empty());
        return Ok(out);
    }
    while j < m
        invariant
            j <= m,
            m == vals@.len(),
            m > 0,
            j < m ==> bytes_of(vals@) == out@ + bytes_of(vals@.skip(j as int)),
            j == m ==> bytes_of(vals@) == out@,
        decreases m - j,
    {
        let ghost rest = vals@.skip(j as int);
        decode_group_exec(&vals, j, &mut out);
        if m - j <= 8 {
            assert(vals@.subrange(j as int, m as int) == rest);
            j = m;
        } else {
            assert(vals@.subrange(j as int, j + 8) == rest.take(8));
            assert(rest.skip(8) == vals@.skip(j + 8));
            j += 8;
        }
    }
    Ok(out)
}

/// Decodes base32, skipping `=` padding. Any other character outside the
/// alphabet is refused with "invalid base32 secret".
pub fn decode(input: &str) -> (r: Result<Vec<u8>, String>)
    ensures
        match r {
            Ok(bytes) => decode_spec(input@) == Some(bytes@),
            Err(e) => decode_spec(input@) is None && e@ == "invalid base32 secret"@,
        },
{
    let chars = chars_of(input);
    decode_chars(&chars)
}

/// Alphabet characters are neither `=` nor outside the alphabet.
pub proof fn lemma_quintet_char(v: u8)
    requires
        v < 32,
    ensures
        quintet_char(v) != '=',
        char_quintet(quintet_char(v)) == Some(v),
{
    if v < 26 {
        assert(quintet_char(v) as int == 65 + v);
    } else {
        assert(quintet_char(v) as int == 50 + v - 26);
    }
}

proof fn lemma_chars_round_trip(s: Seq<u8>)
    requires
        forall|k: int| 0 <= k < s.len() ==> #[trigger] s[k] < 32,
    ensures
        text_quintets(s.map_values(|v: u8| quintet_char(v))) == Some(s),
    decreases s.len(),
{
    let t = s.map_values(|v: u8| quintet_char(v));
    if s.len() > 0 {
        assert(t.drop_first() == s.drop_first().map_values(|v: u8| quintet_char(v)));
        lemma_chars_round_trip(s.drop_first());
        lemma_quintet_char(s[0]);
        assert(seq![s[0]] + s.drop_first() == s);
    } else {
        assert(t.len() == 0);
    }
}

/// Decoding the values of an encoding gives back the bytes, and every value fits 5 bits.
pub proof fn lemma_quintets_round_trip(d: Seq<u8>)
    ensures
        bytes_of(quintets_of(d)) == d,
        forall|k: int| 0 <= k < quintets_of(d).len() ==> #[trigger] quintets_of(d)[k] < 32,
    decreases d.len(),
{
    if d.len() == 0 {
        assert(decode_group(seq![]) =~= Seq::<u8>::empty());
    } else if d.len() <= 5 {
        lemma_group_round_trip(d);
    } else {
        let g = encode_group(d.take(5));
        let rest = quintets_of(d.skip(5));
        lemma_group_round_trip(d.take(5));
        lemma_quintets_round_trip(d.skip(5));
        assert(g.len() == 8);
        assert(rest.len() > 0) by {
            if d.skip(5).len() <= 5 {
                assert(encode_group(d.skip(5)).len() >= 2);
            }
        }
        assert((g + rest).take(8) == g);
        assert((g + rest).skip(8) == rest);
        assert(d.take(5) + d.skip(5) == d);
        assert forall|k: int| 0 <= k < quintets_of(d).len() implies #[trigger] quintets_of(d)[k]
            < 32 by {
            if k >= 8 {
                assert(quintets_of(d)[k] == rest[k - 8]);
            } else {
                assert(quintets_of(d)[k] == g[k]);
            }
        }
    }
}

/// Decoding what `encode` produced gives back the input bytes.
pub proof fn decode_encode_round_trip(data: Seq<u8>)
    ensures
        decode_spec(encode_spec(data)) == Some(data),
{
    lemma_quintets_round_trip(data);
    lemma_chars_round_trip(quintets_of(data));
}

} // verus!
