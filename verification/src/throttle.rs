//! Global failed-attempt rate limiting, shared by TOTP codes and tokens.
//!
//! One root-owned file records the timestamp (milliseconds) of the last failed
//! authentication. Any attempt arriving less than [`WINDOW_MS`] after it is
//! rejected without verification. The state is global on purpose (a single
//! attacker must not be able to lock everyone out for long), which is why the
//! window is short. Rate-limited attempts are not recorded, so hammering the
//! binary cannot extend the lockout indefinitely.
//!
//! This module decides; reading and writing the state file is the caller's.
use vstd::prelude::*;
use crate::text::{chars_of, decimal, decimal_string, parse_u128, parse_u128_spec, trim, trim_chars};

verus! {

/// Lockout after a failed attempt, in milliseconds.
pub const WINDOW_MS: u128 = 3_000;

/// Remaining lockout for a failure at `last` seen at `now`, or `None` once
/// the window has passed. A clock that went backwards counts as no time elapsed.
pub open spec fn retry_after_spec(last: u128, now: u128) -> Option<u128> {
    let elapsed = if now > last {
        now - last
    } else {
        0
    };
    if elapsed < WINDOW_MS {
        Some((WINDOW_MS - elapsed) as u128)
    } else {
        None
    }
}

/// Remaining lockout for a failure at `last`, or `None` if the window has passed.
pub fn retry_after(last: u128, now: u128) -> (r: Option<u128>)
    ensures
        r == retry_after_spec(last, now),
        r matches Some(ms) ==> 1 <= ms <= WINDOW_MS,
{
    let elapsed = now.saturating_sub(last);
    if elapsed < WINDOW_MS {
        Some(WINDOW_MS - elapsed)
    } else {
        None
    }
}

/// The recorded failure time from the state file's owner, permission bits
/// and contents (`None` when unreadable). A file that is not root-owned
/// with mode 0600, unreadable, or not a decimal timestamp after trimming
/// whitespace, means "no recent failure": no attempt is refused on state
/// that cannot be trusted.
pub open spec fn last_failure_spec(owner_uid: u32, mode: u32, contents: Option<Seq<char>>) -> Option<
    u128,
> {
    if owner_uid != 0 || mode & 0o777u32 != 0o600u32 {
        None
    } else {
        match contents {
            Some(t) => parse_u128_spec(trim(t)),
            None => None,
        }
    }
}

/// The recorded failure time, from what the state file's metadata and
/// contents show.
pub fn last_failure(owner_uid: u32, mode: u32, contents: Option<&str>) -> (r: Option<u128>)
    ensures
        r == last_failure_spec(owner_uid, mode, match contents {
            Some(t) => Some(t@),
            None => None,
        }),
{
    if owner_uid != 0 || mode & 0o777u32 != 0o600u32 {
        return None;
    }
    match contents {
        Some(t) => {
            let cs = chars_of(t);
            let trimmed = trim_chars(&cs);
            parse_u128(&trimmed)
        },
        None => None,
    }
}

/// Whole seconds of a remaining lockout, rounded up.
pub open spec fn wait_seconds(ms: u128) -> nat {
    ((ms + 999) / 1000) as nat
}

/// The outcome of an attempt at `now` given the last recorded failure.
pub open spec fn check_spec(last: Option<u128>, now: u128) -> Result<(), Seq<char>> {
    match last {
        Some(l) => match retry_after_spec(l, now) {
            Some(remaining) => Err(
                "too many failed attempts; try again in "@ + decimal(wait_seconds(remaining))
                    + "s"@,
            ),
            None => Ok(()),
        },
        None => Ok(()),
    }
}

/// Whether an attempt at `now` may proceed, given the last recorded failure.
pub fn check_at(last: Option<u128>, now: u128) -> (r: Result<(), String>)
    ensures
        match r {
            Ok(()) => check_spec(last, now) == Ok::<(), Seq<char>>(()),
            Err(e) => check_spec(last, now) == Err::<(), Seq<char>>(e@),
        },
{
    if let Some(l) = last {
        if let Some(remaining) = retry_after(l, now) {
            let mut msg = String::from_str("too many failed attempts; try again in ");
            let secs = decimal_string((remaining + 999) / 1000);
            msg.append(secs.as_str());
            msg.append("s");
            return Err(msg);
        }
    }
    Ok(())
}

/// Whether an attempt may proceed now, given the last recorded failure.
pub fn check(last: Option<u128>) -> (r: Result<(), String>)
    ensures
        exists|now: u128|
            match r {
                Ok(()) => check_spec(last, now) == Ok::<(), Seq<char>>(()),
                Err(e) => check_spec(last, now) == Err::<(), Seq<char>>(e@),
            },
{
    check_at(last, crate::clock::now_ms())
}

/// The state text that records a failure at `now`.
pub fn state_text(now: u128) -> (s: String)
    ensures
        s@ == decimal(now as nat),
{
    decimal_string(now)
}

/// The state text that records a failure now; the caller persists it.
pub fn record_failure() -> (s: String)
    ensures
        exists|now: u128| s@ == decimal(now as nat),
{
    state_text(crate::clock::now_ms())
}

/// A failure recorded with `state_text` in a root-owned 0600 file reads back
/// as the same time.
pub proof fn recorded_failure_reads_back(now: u128)
    ensures
        last_failure_spec(0, 0o600, Some(decimal(now as nat))) == Some(now),
{
    crate::text::lemma_trim_decimal(now as nat);
    crate::text::lemma_parse_decimal(now as nat);
    assert(0o600u32 & 0o777u32 == 0o600u32) by (bit_vector);
}

/// An attempt less than the window after the last failure is refused; one
/// at or after the end of the window is let through.
pub proof fn window_decides(last: u128, now: u128)
    ensures
        (now < last + WINDOW_MS) ==> check_spec(Some(last), now) is Err,
        (now >= last + WINDOW_MS) ==> check_spec(Some(last), now) == Ok::<(), Seq<char>>(()),
{
}

/// Whatever the clock does, a lockout never lasts longer than the window.
pub proof fn lockout_bounded(last: u128, now: u128)
    ensures
        retry_after_spec(last, now) matches Some(ms) ==> ms <= WINDOW_MS,
{
}

} // verus!
