//! RFC 6238 TOTP: HMAC-SHA1, 30-second steps, six decimal digits.
use vstd::prelude::*;
use crate::crypto::{be64, hmac_sha1, hmac_sha1_spec, push_be64, word_be};
use crate::text::{
    chars_of, decimal, decimal_string, parse_u32, parse_u32_spec, parse_u64_chars, parse_u64_spec,
    trim, trim_chars,
};

verus! {

/// Dynamic truncation (RFC 4226 §5.3) of a 20-byte HMAC to six digits.
pub open spec fn truncate(d: Seq<u8>) -> u32 {
    let o = (d[19] & 15u8) as int;
    (word_be(d, o) & 0x7fff_ffffu32) % 1_000_000
}

/// The TOTP code of `secret` for the 30-second step numbered `step`.
#[verifier::opaque]
pub open spec fn step_code(secret: Seq<u8>, step: u64) -> u32 {
    truncate(hmac_sha1_spec(secret, be64(step)))
}

/// The TOTP code of `secret` at Unix time `timestamp`.
pub open spec fn code_spec(secret: Seq<u8>, timestamp: u64) -> u32 {
    step_code(secret, timestamp / 30)
}

/// Whether `supplied` is, as an unsigned decimal, the code of the current
/// step, of one of the two steps before it, or of the next step. Steps
/// before the epoch are clamped to time zero; the step after `now` wraps
/// as `u64` addition does.
pub open spec fn verify_spec(secret: Seq<u8>, supplied: Seq<char>, now: u64) -> bool {
    match parse_u32_spec(supplied) {
        None => false,
        Some(v) => {
            ||| code_spec(secret, now) == v
            ||| code_spec(secret, now.saturating_sub(30)) == v
            ||| code_spec(secret, now.saturating_sub(60)) == v
            ||| code_spec(secret, now.wrapping_add(30)) == v
        },
    }
}

/// The six-digit code of `secret` for step `step`.
pub fn code_for_step(secret: &[u8], step: u64) -> (c: u32)
    ensures
        c == step_code(secret@, step),
        c < 1_000_000,
{
    proof {
        reveal(step_code);
    }
    let mut msg: Vec<u8> = Vec::new();
    push_be64(&mut msg, step);
    assert(msg@ == be64(step));
    let digest = hmac_sha1(secret, msg.as_slice());
    let last = digest[19];
    let offset = (last & 15u8) as usize;
    assert(last & 15u8 <= 15u8) by (bit_vector);
    let word = ((digest[offset] as u32) << 24u32) | ((digest[offset + 1] as u32) << 16u32) | ((
    digest[offset + 2] as u32) << 8u32) | (digest[offset + 3] as u32);
    (word & 0x7fff_ffffu32) % 1_000_000
}

/// The six-digit code of `secret` at `timestamp`.
pub fn code(secret: &[u8], timestamp: u64) -> (c: u32)
    ensures
        c == code_spec(secret@, timestamp),
        c < 1_000_000,
{
    code_for_step(secret, timestamp / 30)
}

/// Checks `supplied` against the TOTP codes around `now`.
pub fn verify_at(secret: &[u8], supplied: &str, now: u64) -> (ok: bool)
    ensures
        ok == verify_spec(secret@, supplied@, now),
{
    let value = match parse_u32(supplied) {
        Some(v) => v,
        None => return false,
    };
    // The current step and the two before it, then the next one.
    code(secret, now) == value || code(secret, now.saturating_sub(30)) == value || code(
        secret,
        now.saturating_sub(60),
    ) == value || code(secret, now.wrapping_add(30)) == value
}

/// Checks `supplied` against the TOTP codes around the current time.
pub fn verify(secret: &[u8], supplied: &str) -> (ok: bool)
    ensures
        exists|now: u64| ok == verify_spec(secret@, supplied@, now),
{
    let now = crate::clock::now();
    verify_at(secret, supplied, now)
}

/// The secret as base32 text, as stored and shown to authenticators.
pub fn secret_text(secret: &[u8]) -> (s: String)
    ensures
        s@ == crate::base32::encode_spec(secret@),
{
    crate::base32::encode(secret)
}

/// The code of the current step, written in decimal, is accepted; so are
/// the codes of the two previous steps and of the next one.
pub proof fn current_code_accepted(secret: Seq<u8>, now: u64)
    ensures
        verify_spec(secret, decimal(code_spec(secret, now) as nat), now),
        verify_spec(secret, decimal(code_spec(secret, now.saturating_sub(30)) as nat), now),
        verify_spec(secret, decimal(code_spec(secret, now.saturating_sub(60)) as nat), now),
        verify_spec(secret, decimal(code_spec(secret, now.wrapping_add(30)) as nat), now),
{
    crate::text::lemma_parse_decimal(code_spec(secret, now) as nat);
    crate::text::lemma_parse_decimal(code_spec(secret, now.saturating_sub(30)) as nat);
    crate::text::lemma_parse_decimal(code_spec(secret, now.saturating_sub(60)) as nat);
    crate::text::lemma_parse_decimal(code_spec(secret, now.wrapping_add(30)) as nat);
}


// ---------------------------------------------------------------------------
// Single use: a code is accepted once. The step of the last accepted code is
// recorded per account, and only codes of later steps are accepted after it.

/// The steps whose codes the window accepts at `now`, in the order they are
/// tried: the current step, the two before it, and the next one.
pub open spec fn window_steps(now: u64) -> Seq<u64> {
    seq![now / 30, now.saturating_sub(30) / 30, now.saturating_sub(60) / 30, now.wrapping_add(30) / 30]
}

/// Whether `step` comes after the recorded step `last` (any step does when
/// nothing is recorded).
pub open spec fn is_fresh(step: u64, last: Option<u64>) -> bool {
    match last {
        None => true,
        Some(l) => step > l,
    }
}

/// Whether `step` is one that a code of value `v` may be accepted for.
pub open spec fn usable(secret: Seq<u8>, v: u32, step: u64, last: Option<u64>) -> bool {
    step_code(secret, step) == v && is_fresh(step, last)
}

/// The latest of the `steps` whose code is `v` and that come after `last`.
pub open spec fn latest_usable(secret: Seq<u8>, v: u32, steps: Seq<u64>, last: Option<u64>) -> Option<
    u64,
>
    decreases steps.len(),
{
    if steps.len() == 0 {
        None
    } else {
        let rest = latest_usable(secret, v, steps.drop_last(), last);
        let s = steps.last();
        if usable(secret, v, s, last) {
            match rest {
                Some(r) => if r >= s {
                    Some(r)
                } else {
                    Some(s)
                },
                None => Some(s),
            }
        } else {
            rest
        }
    }
}

/// The step that `supplied` is accepted for at `now` when `last` is the
/// recorded step: the latest window step whose code `supplied` is, as an
/// unsigned decimal, and that comes after `last`; `None` when there is none.
pub open spec fn accept_spec(secret: Seq<u8>, supplied: Seq<char>, now: u64, last: Option<u64>) -> Option<
    u64,
> {
    match parse_u32_spec(supplied) {
        None => None,
        Some(v) => latest_usable(secret, v, window_steps(now), last),
    }
}

/// Decides whether `supplied` is accepted at `now` given the recorded step
/// `last`; when it is, the step to record in its place.
pub fn accept_at(secret: &[u8], supplied: &str, now: u64, last: Option<u64>) -> (r: Option<u64>)
    ensures
        r == accept_spec(secret@, supplied@, now, last),
{
    let value = match parse_u32(supplied) {
        Some(v) => v,
        None => return None,
    };
    let steps: Vec<u64> = vec![
        now / 30,
        now.saturating_sub(30) / 30,
        now.saturating_sub(60) / 30,
        now.wrapping_add(30) / 30,
    ];
    assert(steps@ == window_steps(now));
    let mut best: Option<u64> = None;
    let mut i: usize = 0;
    while i < 4
        invariant
            i <= 4,
            steps@ == window_steps(now),
            best == latest_usable(secret@, value, steps@.take(i as int), last),
        decreases 4 - i,
    {
        let s = steps[i];
        assert(steps@.take(i + 1).drop_last() == steps@.take(i as int));
        let fresh = match last {
            None => true,
            Some(l) => s > l,
        };
        if fresh && code_for_step(secret, s) == value {
            best = match best {
                Some(b) => if b >= s {
                    Some(b)
                } else {
                    Some(s)
                },
                None => Some(s),
            };
        }
        i += 1;
    }
    assert(steps@.take(4) == steps@);
    best
}

/// The recorded step from the state file's owner, permission bits and
/// contents (`None` when unreadable). A file that is not root-owned with
/// mode 0600, or that does not hold a decimal step after trimming
/// whitespace, records nothing.
pub open spec fn recorded_step_spec(owner_uid: u32, mode: u32, contents: Option<Seq<char>>) -> Option<
    u64,
> {
    if owner_uid != 0 || mode & 0o777u32 != 0o600u32 {
        None
    } else {
        match contents {
            Some(t) => parse_u64_spec(trim(t)),
            None => None,
        }
    }
}

/// The recorded step, from what the state file's metadata and contents show.
pub fn recorded_step(owner_uid: u32, mode: u32, contents: Option<&str>) -> (r: Option<u64>)
    ensures
        r == recorded_step_spec(owner_uid, mode, match contents {
            Some(t) => Some(t@),
            None => None,
        }),
{
    if owner_uid != 0 || mode & 0o777u32 != 0o600u32 {
        return None;
    }
    match contents {
        Some(t) => {
            let cs = chars_of(t);
            let trimmed = trim_chars(&cs);
            parse_u64_chars(&trimmed)
        },
        None => None,
    }
}

/// The state text that records `step`.
pub fn step_text(step: u64) -> (s: String)
    ensures
        s@ == decimal(step as nat),
{
    decimal_string(step as u128)
}

proof fn lemma_latest_usable(secret: Seq<u8>, v: u32, steps: Seq<u64>, last: Option<u64>)
    ensures
        latest_usable(secret, v, steps, last) matches Some(s) ==> {
            &&& steps.contains(s)
            &&& usable(secret, v, s, last)
            &&& forall|i: int| 0 <= i < steps.len() && usable(secret, v, steps[i], last) ==> steps[i] <= s
        },
        latest_usable(secret, v, steps, last) is None <==> forall|i: int|
            0 <= i < steps.len() ==> !usable(secret, v, steps[i], last),
    decreases steps.len(),
{
    if steps.len() > 0 {
        let init = steps.drop_last();
        lemma_latest_usable(secret, v, init, last);
        assert forall|i: int| 0 <= i < init.len() implies init[i] == steps[i] by {}
        if let Some(r) = latest_usable(secret, v, init, last) {
            assert(init.contains(r));
            let k = choose|k: int| 0 <= k < init.len() && init[k] == r;
            assert(steps[k] == r);
        }
        assert(steps[steps.len() - 1] == steps.last());
    }
}

/// A code is accepted only for a window step that comes after the recorded
/// one, and for the latest such step whose code it is; it is refused exactly
/// when no window step after the recorded one has it as its code.
pub proof fn accepted_step_is_fresh(secret: Seq<u8>, supplied: Seq<char>, now: u64, last: Option<u64>)
    ensures
        accept_spec(secret, supplied, now, last) matches Some(s) ==> {
            &&& window_steps(now).contains(s)
            &&& is_fresh(s, last)
            &&& parse_u32_spec(supplied) == Some(step_code(secret, s))
            &&& forall|i: int|
                0 <= i < 4 && usable(secret, step_code(secret, s), window_steps(now)[i], last)
                    ==> window_steps(now)[i] <= s
        },
        accept_spec(secret, supplied, now, last) is None <==> (parse_u32_spec(supplied) matches Some(v)
            ==> forall|i: int| 0 <= i < 4 ==> !usable(secret, v, window_steps(now)[i], last)),
{
    if let Some(v) = parse_u32_spec(supplied) {
        lemma_latest_usable(secret, v, window_steps(now), last);
    }
}

/// With no step recorded, a code is accepted exactly when the window check
/// accepts it.
pub proof fn unrecorded_matches_window(secret: Seq<u8>, supplied: Seq<char>, now: u64)
    ensures
        accept_spec(secret, supplied, now, None) is Some <==> verify_spec(secret, supplied, now),
{
    if let Some(v) = parse_u32_spec(supplied) {
        lemma_latest_usable(secret, v, window_steps(now), None);
        let w = window_steps(now);
        if verify_spec(secret, supplied, now) {
            if code_spec(secret, now) == v {
                assert(usable(secret, v, w[0], None));
            } else if code_spec(secret, now.saturating_sub(30)) == v {
                assert(usable(secret, v, w[1], None));
            } else if code_spec(secret, now.saturating_sub(60)) == v {
                assert(usable(secret, v, w[2], None));
            } else {
                assert(usable(secret, v, w[3], None));
            }
        }
    }
}

/// An accepted code is a code of the window.
pub proof fn accepted_code_in_window(secret: Seq<u8>, supplied: Seq<char>, now: u64, last: Option<u64>)
    ensures
        accept_spec(secret, supplied, now, last) is Some ==> verify_spec(secret, supplied, now),
{
    accepted_step_is_fresh(secret, supplied, now, last);
}

proof fn lemma_same_window(t1: u64, t2: u64)
    requires
        t1 / 30 == t2 / 30,
        t1 <= u64::MAX - 30,
        t2 <= u64::MAX - 30,
    ensures
        window_steps(t1) == window_steps(t2),
{
    assert(t1.wrapping_add(30) == t1 + 30);
    assert(t2.wrapping_add(30) == t2 + 30);
    assert((t1 + 30) / 30 == t1 / 30 + 1);
    assert((t2 + 30) / 30 == t2 / 30 + 1);
    if t1 >= 30 {
        assert((t1 - 30) / 30 == t1 / 30 - 1);
    }
    if t2 >= 30 {
        assert((t2 - 30) / 30 == t2 / 30 - 1);
    }
    if t1 >= 60 {
        assert((t1 - 60) / 30 == t1 / 30 - 2);
    }
    if t2 >= 60 {
        assert((t2 - 60) / 30 == t2 / 30 - 2);
    }
}

/// One code, one use: once a code is accepted at `t1` and its step is
/// recorded, the same code is refused at any `t2` in the same 30-second
/// step. (Times within 30 seconds of the end of `u64` are left out: there
/// the step after `now` wraps to the start of time.)
pub proof fn code_works_once(
    secret: Seq<u8>,
    supplied: Seq<char>,
    t1: u64,
    t2: u64,
    last: Option<u64>,
)
    requires
        accept_spec(secret, supplied, t1, last) is Some,
        t1 / 30 == t2 / 30,
        t1 <= u64::MAX - 30,
        t2 <= u64::MAX - 30,
    ensures
        accept_spec(secret, supplied, t2, accept_spec(secret, supplied, t1, last)) is None,
        verify_spec(secret, supplied, t2),
{
    let s = accept_spec(secret, supplied, t1, last).unwrap();
    accepted_step_is_fresh(secret, supplied, t1, last);
    accepted_step_is_fresh(secret, supplied, t2, Some(s));
    let v = step_code(secret, s);
    let w1 = window_steps(t1);
    let w2 = window_steps(t2);
    lemma_same_window(t1, t2);
    assert forall|i: int| 0 <= i < 4 implies !usable(secret, v, w2[i], Some(s)) by {
        if usable(secret, v, w2[i], Some(s)) {
            assert(is_fresh(w1[i], last)) by {
                match last {
                    None => {},
                    Some(l) => {
                        assert(s > l);
                    },
                }
            }
            assert(usable(secret, v, w1[i], last));
        }
    }
    accepted_code_in_window(secret, supplied, t1, last);
    assert(code_spec(secret, t2) == step_code(secret, w2[0]));
    assert(code_spec(secret, t2.saturating_sub(30)) == step_code(secret, w2[1]));
    assert(code_spec(secret, t2.saturating_sub(60)) == step_code(secret, w2[2]));
    assert(code_spec(secret, t2.wrapping_add(30)) == step_code(secret, w2[3]));
    assert(code_spec(secret, t1) == step_code(secret, w1[0]));
    assert(code_spec(secret, t1.saturating_sub(30)) == step_code(secret, w1[1]));
    assert(code_spec(secret, t1.saturating_sub(60)) == step_code(secret, w1[2]));
    assert(code_spec(secret, t1.wrapping_add(30)) == step_code(secret, w1[3]));
}

/// A recorded step written with `step_text` to a root-owned 0600 file reads
/// back as the same step.
pub proof fn recorded_step_reads_back(step: u64)
    ensures
        recorded_step_spec(0, 0o600, Some(decimal(step as nat))) == Some(step),
{
    crate::text::lemma_trim_decimal(step as nat);
    crate::text::lemma_parse_decimal(step as nat);
    assert(0o600u32 & 0o777u32 == 0o600u32) by (bit_vector);
}

} // verus!
