//! Instants, and the commit time that a benchmark name holds.
use vstd::prelude::*;

use crate::text::{chars_of, string_of, sub_chars};

verus! {

/// An instant: whole seconds since the Unix epoch and the nanoseconds past them.
#[derive(Clone, Copy, Debug, PartialEq, Eq, Structural)]
pub struct Timestamp {
    pub secs: i64,
    pub nanos: u32,
}

/// What chrono's RFC 3339 parser reads from `s`, as an instant in UTC.
pub uninterp spec fn rfc3339_instant(s: Seq<char>) -> Option<Timestamp>;

/// Relies on `chrono::DateTime::parse_from_rfc3339`, read back through
/// `timestamp` and `timestamp_subsec_nanos`: the instant that `s` names, or
/// `None` when `s` is not RFC 3339.
#[verifier::external_body]
fn parse_rfc3339(s: &str) -> (r: Option<Timestamp>)
    ensures
        r == rfc3339_instant(s@),
{
    chrono::DateTime::parse_from_rfc3339(s).ok().map(
        |d| Timestamp { secs: d.timestamp(), nanos: d.timestamp_subsec_nanos() },
    )
}

/// The commit time that a benchmark name `<8 characters><RFC 3339 time>` holds.
pub open spec fn commit_time(name: Seq<char>) -> Option<Timestamp> {
    if name.len() < 8 {
        None
    } else {
        rfc3339_instant(name.subrange(8, name.len() as int))
    }
}

/// Reads the commit time of a benchmark name, dropping its first eight
/// characters (a short commit hash and a separator).
pub fn str_to_datetime(input: &str) -> (r: Option<Timestamp>)
    ensures
        r == commit_time(input@),
{
    let cs = chars_of(input);
    if cs.len() < 8 {
        return None;
    }
    let rest = sub_chars(&cs, 8, cs.len());
    let s = string_of(rest.as_slice());
    parse_rfc3339(s.as_str())
}

/// `a` is no later than `b`.
pub open spec fn ts_le(a: Timestamp, b: Timestamp) -> bool {
    a.secs < b.secs || (a.secs == b.secs && a.nanos <= b.nanos)
}

pub(crate) fn ts_lt_exec(a: Timestamp, b: Timestamp) -> (r: bool)
    ensures
        r == !ts_le(b, a),
{
    a.secs < b.secs || (a.secs == b.secs && a.nanos < b.nanos)
}

} // verus!
