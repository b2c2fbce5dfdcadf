//! Signed, expiring tokens that stand in for a TOTP code.
//!
//! Layout: 4-byte expiry (u32 epoch seconds, good past 2106) followed by an
//! 8-byte truncated HMAC-SHA1. The bound parent pid is not stored; it is
//! folded into the signed message and re-supplied by the verifier, which
//! keeps the token to 12 bytes, i.e. 16 URL-safe base64 characters.
use vstd::prelude::*;
use crate::base64::{decode_encode_round_trip, decode_spec, encode_spec};
use crate::crypto::{be32, hmac_sha1, hmac_sha1_spec, sha1_spec, word_be};

verus! {

/// Bytes of the expiry field.
pub const EXPIRY_LEN: usize = 4;

/// Bytes of the truncated MAC.
pub const MAC_LEN: usize = 8;

/// Bytes of a decoded token.
pub const TOKEN_LEN: usize = 12;

/// The full MAC over an expiry and a bound parent pid (0 for none).
pub open spec fn sign_spec(secret: Seq<u8>, expiry: u32, parent: u32) -> Seq<u8> {
    hmac_sha1_spec(secret, be32(expiry) + be32(parent))
}

/// The token bytes: the expiry, then the first eight bytes of its MAC.
pub open spec fn payload_spec(secret: Seq<u8>, expiry: u32, parent: u32) -> Seq<u8> {
    be32(expiry) + sign_spec(secret, expiry, parent).take(8)
}

/// The token text for an expiry and a bound parent.
pub open spec fn token_spec(secret: Seq<u8>, expiry: u32, parent: u32) -> Seq<char> {
    encode_spec(payload_spec(secret, expiry, parent))
}

/// The expiry of a token issued at `now` for `seconds`: the sum, as the
/// 32-bit seconds field keeps it (modulo 2^32).
pub open spec fn expiry_of(now: u64, seconds: u64) -> u32 {
    now.wrapping_add(seconds) as u32
}

/// Whether the MAC bytes `p[4..12]` match the MAC for `expiry` and `parent`.
pub open spec fn mac_matches(secret: Seq<u8>, p: Seq<u8>, expiry: u32, parent: u32) -> bool {
    sign_spec(secret, expiry, parent).take(8) == p.subrange(4, 12)
}

/// The outcome of checking token text `value` for `parent` at time `now`:
/// undecodable text, a wrong length, a MAC that matches neither the bound
/// parent nor the unbound form (parent 0), and an expiry before `now` are
/// refused, in that order.
pub open spec fn verify_spec(secret: Seq<u8>, value: Seq<char>, parent: u32, now: u64) -> Result<
    (),
    Seq<char>,
> {
    match decode_spec(value) {
        None => Err("invalid token"@),
        Some(p) => if p.len() != 12 {
            Err("invalid token length"@)
        } else {
            let expiry = word_be(p, 0);
            if !(mac_matches(secret, p, expiry, parent) || mac_matches(secret, p, expiry, 0)) {
                Err("invalid token signature"@)
            } else if (expiry as u64) < now {
                Err("token expired"@)
            } else {
                Ok(())
            }
        },
    }
}

/// The MAC over `expiry` and `parent`.
fn sign(secret: &[u8], expiry: u32, parent: u32) -> (mac: Vec<u8>)
    ensures
        mac@ == sign_spec(secret@, expiry, parent),
        mac@.len() == 20,
{
    let mut msg: Vec<u8> = Vec::new();
    push_be32(&mut msg, expiry);
    push_be32(&mut msg, parent);
    assert(msg@ == be32(expiry) + be32(parent));
    hmac_sha1(secret, msg.as_slice())
}

fn push_be32(out: &mut Vec<u8>, v: u32)
    ensures
        final(out)@ == old(out)@ + be32(v),
{
    out.push((v >> 24u32) as u8);
    out.push((v >> 16u32) as u8);
    out.push((v >> 8u32) as u8);
    out.push(v as u8);
}

/// The token for `secret`, valid for `seconds` after `now`, bound to
/// `parent` (0 leaves it unbound).
pub fn issue_at(secret: &[u8], seconds: u64, parent: u32, now: u64) -> (t: String)
    ensures
        t@ == token_spec(secret@, expiry_of(now, seconds), parent),
{
    let expiry = now.wrapping_add(seconds) as u32;
    let mac = sign(secret, expiry, parent);
    let mut p: Vec<u8> = Vec::new();
    push_be32(&mut p, expiry);
    let mut i: usize = 0;
    let ghost head = p@;
    while i < MAC_LEN
        invariant
            i <= 8,
            mac@.len() == 20,
            p@ == head + mac@.take(i as int),
        decreases 8 - i,
    {
        p.push(mac[i]);
        i += 1;
        assert(p@ == head + mac@.take(i as int));
    }
    crate::base64::encode(p.as_slice())
}

/// The token for `secret`, valid for `seconds` from now, bound to `parent`.
pub fn issue(secret: &[u8], seconds: u64, parent: u32) -> (t: String)
    ensures
        exists|now: u64| t@ == token_spec(secret@, expiry_of(now, seconds), parent),
{
    issue_at(secret, seconds, parent, crate::clock::now())
}

/// Compares the first eight bytes of `mac` with `p[4..12]`, touching every
/// byte whatever the outcome.
fn mac_equal(mac: &Vec<u8>, p: &Vec<u8>) -> (eq: bool)
    requires
        mac@.len() == 20,
        p@.len() == 12,
    ensures
        eq == (mac@.take(8) == p@.subrange(4, 12)),
{
    let mut diff: u8 = 0;
    let mut i: usize = 0;
    while i < MAC_LEN
        invariant
            i <= 8,
            mac@.len() == 20,
            p@.len() == 12,
            diff == 0 <==> forall|j: int| 0 <= j < i ==> mac@[j] == p@[4 + j],
        decreases 8 - i,
    {
        let a = mac[i];
        let b = p[EXPIRY_LEN + i];
        let d0 = diff;
        diff |= a ^ b;
        assert((d0 | (a ^ b)) == 0 <==> (d0 == 0 && a == b)) by (bit_vector);
        i += 1;
    }
    assert(diff == 0 <==> mac@.take(8) == p@.subrange(4, 12)) by {
        if diff == 0 {
            assert(mac@.take(8) =~= p@.subrange(4, 12));
        }
        if mac@.take(8) == p@.subrange(4, 12) {
            assert forall|j: int| 0 <= j < 8 implies mac@[j] == p@[4 + j] by {
                assert(mac@.take(8)[j] == p@.subrange(4, 12)[j]);
            }
        }
    }
    diff == 0
}

/// Checks token text `value` for `parent` at time `now`.
pub fn verify_at(secret: &[u8], value: &str, parent: u32, now: u64) -> (r: Result<(), String>)
    ensures
        match r {
            Ok(()) => verify_spec(secret@, value@, parent, now) == Ok::<(), Seq<char>>(()),
            Err(e) => verify_spec(secret@, value@, parent, now) == Err::<(), Seq<char>>(e@),
        },
{
    let p = match crate::base64::decode(value) {
        Ok(p) => p,
        Err(e) => return Err(e),
    };
    if p.len() != TOKEN_LEN {
        return Err(String::from_str("invalid token length"));
    }
    let expiry = ((p[0] as u32) << 24u32) | ((p[1] as u32) << 16u32) | ((p[2] as u32) << 8u32) | (
    p[3] as u32);
    assert(expiry == word_be(p@, 0));
    // A cross-process token is signed with parent 0, so both candidates are
    // tried; both comparisons always run.
    let bound = mac_equal(&sign(secret, expiry, parent), &p);
    let unbound = mac_equal(&sign(secret, expiry, 0), &p);
    let ok = bound || unbound;
    if !ok {
        return Err(String::from_str("invalid token signature"));
    }
    if (expiry as u64) < now {
        return Err(String::from_str("token expired"));
    }
    Ok(())
}

/// Checks token text `value` for `parent` at the current time.
pub fn verify(secret: &[u8], value: &str, parent: u32) -> (r: Result<(), String>)
    ensures
        exists|now: u64|
            match r {
                Ok(()) => verify_spec(secret@, value@, parent, now) == Ok::<(), Seq<char>>(()),
                Err(e) => verify_spec(secret@, value@, parent, now) == Err::<(), Seq<char>>(e@),
            },
{
    verify_at(secret, value, parent, crate::clock::now())
}

proof fn lemma_payload(secret: Seq<u8>, expiry: u32, parent: u32)
    ensures
        payload_spec(secret, expiry, parent).len() == 12,
        word_be(payload_spec(secret, expiry, parent), 0) == expiry,
        mac_matches(secret, payload_spec(secret, expiry, parent), expiry, parent),
        decode_spec(token_spec(secret, expiry, parent)) == Some(payload_spec(secret, expiry, parent)),
{
    let p = payload_spec(secret, expiry, parent);
    let k0 = crate::crypto::hmac_key_block(secret);
    assert(sha1_spec(crate::crypto::xor_pad(k0, 0x5c) + sha1_spec(
        crate::crypto::xor_pad(k0, 0x36) + be32(expiry) + be32(parent),
    )).len() == 20);
    assert(sign_spec(secret, expiry, parent).len() == 20);
    assert(p.len() == 12);
    let b0 = (expiry >> 24u32) as u8;
    let b1 = (expiry >> 16u32) as u8;
    let b2 = (expiry >> 8u32) as u8;
    let b3 = expiry as u8;
    assert(p[0] == b0 && p[1] == b1 && p[2] == b2 && p[3] == b3);
    assert(((b0 as u32) << 24u32) | ((b1 as u32) << 16u32) | ((b2 as u32) << 8u32) | (b3 as u32)
        == expiry) by (bit_vector)
        requires
            b0 == (expiry >> 24u32) as u8,
            b1 == (expiry >> 16u32) as u8,
            b2 == (expiry >> 8u32) as u8,
            b3 == expiry as u8,
    ;
    assert(p.subrange(4, 12) == sign_spec(secret, expiry, parent).take(8));
    decode_encode_round_trip(p);
}

/// A token verifies, for the parent it is bound to, at any time up to its expiry.
pub proof fn issued_token_verifies(secret: Seq<u8>, expiry: u32, parent: u32, now: u64)
    requires
        now <= expiry,
    ensures
        verify_spec(secret, token_spec(secret, expiry, parent), parent, now) == Ok::<
            (),
            Seq<char>,
        >(()),
{
    lemma_payload(secret, expiry, parent);
}

/// An unbound token (issued for parent 0) verifies for every parent up to its expiry.
pub proof fn unbound_token_verifies_for_any_parent(
    secret: Seq<u8>,
    expiry: u32,
    parent: u32,
    now: u64,
)
    requires
        now <= expiry,
    ensures
        verify_spec(secret, token_spec(secret, expiry, 0), parent, now) == Ok::<(), Seq<char>>(
            (),
        ),
{
    lemma_payload(secret, expiry, 0);
}

/// Past its expiry, a genuine token is refused as expired.
pub proof fn issued_token_expires(secret: Seq<u8>, expiry: u32, parent: u32, now: u64)
    requires
        now > expiry,
    ensures
        verify_spec(secret, token_spec(secret, expiry, parent), parent, now) == Err::<
            (),
            Seq<char>,
        >("token expired"@),
{
    lemma_payload(secret, expiry, parent);
}

/// A token is 16 characters long.
pub proof fn token_length(secret: Seq<u8>, expiry: u32, parent: u32)
    ensures
        token_spec(secret, expiry, parent).len() == 16,
{
    lemma_payload(secret, expiry, parent);
    let p = payload_spec(secret, expiry, parent);
    crate::base64::lemma_sextets_len(p);
}

} // verus!
