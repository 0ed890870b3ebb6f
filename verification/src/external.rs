//! Items of std that the library calls and that vstd does not specify.

use vstd::prelude::*;
use std::time::{Duration, SystemTime, UNIX_EPOCH};

verus! {

/// Appends one character to a string (`String::push`): the string's characters
/// are the old ones followed by `c`.
#[verifier::external_body]
pub(crate) fn push_char(s: &mut String, c: char)
    ensures
        final(s)@ == old(s)@.push(c),
{
    s.push(c);
}

/// A point in time of the system clock, carried as it is.
#[verifier::external_type_specification]
#[verifier::external_body]
pub struct ExSystemTime(SystemTime);

/// A JSON value of any shape, carried as it is.
#[verifier::external_type_specification]
#[verifier::external_body]
pub struct ExJsonValue(serde_json::Value);

/// `<SystemTime as Clone>::clone`, which the derived `Clone` of a decision calls.
/// Nothing is stated of the copy.
pub assume_specification[ <SystemTime as Clone>::clone ](t: &SystemTime) -> SystemTime;

/// `<serde_json::Value as Clone>::clone`, which the derived `Clone` of a decision
/// calls. Nothing is stated of the copy.
pub assume_specification[ <serde_json::Value as Clone>::clone ](v: &serde_json::Value) -> serde_json::Value;

/// `SystemTime::now()`: the current time of the system clock. It depends on the
/// clock alone, so nothing is stated of it.
#[verifier::external_body]
pub(crate) fn system_now() -> SystemTime {
    SystemTime::now()
}

/// `SystemTime::duration_since(UNIX_EPOCH)`, its error turned into `None`: the time
/// elapsed since the Unix epoch, `None` when `t` lies before it. What it returns
/// depends on the clock's reading that `t` holds, so nothing is stated of it.
#[verifier::external_body]
pub(crate) fn since_unix_epoch(t: &SystemTime) -> Option<Duration> {
    t.duration_since(UNIX_EPOCH).ok()
}

/// `Duration::as_nanos`: the whole nanoseconds in `d`. A `Duration` is opaque here,
/// so nothing is stated of the number.
#[verifier::external_body]
pub(crate) fn duration_nanos(d: &Duration) -> u128 {
    d.as_nanos()
}

} // verus!
