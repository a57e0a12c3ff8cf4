//! Trusted wrappers around outside crates and the few std functions that
//! vstd leaves unspecified.  Each wrapper's contract states only what the
//! called function's own source or documentation shows.

use vstd::prelude::*;

verus! {

/// Relies on fastrand::u64: a value uniformly drawn from the given range,
/// which panics only on an empty range.  The range here is the constant
/// [5000, 10000), so the call cannot panic and the result is the advisory
/// retry delay in milliseconds.
#[verifier::external_body]
pub fn jitter_retry_millis() -> (r: u64)
    ensures
        5000 <= r < 10000,
{
    fastrand::u64(5000..10000)
}

/// Relies on fastrand::bool: a random boolean; nothing more is promised.
#[verifier::external_body]
pub fn random_bool() -> (r: bool) {
    fastrand::bool()
}

/// Relies on uuid::Uuid::new_v4 and the hyphenated Display form: a random
/// version-4 UUID rendered as 36 ASCII characters (32 hex digits and 4
/// hyphens).  The value itself is random, so nothing is said about it.
#[verifier::external_body]
pub fn uuid_new_hyphenated() -> (r: String)
    ensures
        r@.len() == 36,
{
    uuid::Uuid::new_v4().to_string()
}

/// Relies on uuid::Uuid::new_v4 and the Simple Display form: a random
/// version-4 UUID rendered as 32 lower-case hex ASCII characters.
#[verifier::external_body]
pub fn uuid_new_simple() -> (r: String)
    ensures
        r@.len() == 32,
{
    uuid::Uuid::new_v4().simple().to_string()
}

/// Relies on chrono::Utc::now and to_rfc3339: the current wall-clock time
/// rendered as an RFC 3339 string.  The clock decides the value, so nothing
/// is promised about it.
#[verifier::external_body]
pub fn now_rfc3339() -> (r: String) {
    chrono::Utc::now().to_rfc3339()
}

/// Relies on String::push: appends one character to the string.
#[verifier::external_body]
pub fn push_char(s: &mut String, c: char)
    ensures
        final(s)@ == old(s)@.push(c),
{
    s.push(c);
}

} // verus!
