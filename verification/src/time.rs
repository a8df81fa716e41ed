//! Moments, with the offset of the place where they were taken.
use chrono::{DateTime, FixedOffset, SecondsFormat, Utc};
use vstd::prelude::*;

verus! {

/// A moment: Unix milliseconds, and how many seconds local time was ahead of
/// UTC then.
#[derive(Clone, Copy, Debug, PartialEq, Eq, Structural)]
pub struct Time {
    pub ms: i64,
    pub offset: i32,
}

/// The farthest a moment may be from 1970, in milliseconds: some 253,000
/// years.
pub const TIME_RANGE: i64 = 8000000000000000;

impl Time {
    /// A moment that has a date.
    pub open spec fn valid(self) -> bool {
        -TIME_RANGE <= self.ms <= TIME_RANGE && -86400 < self.offset < 86400
    }
}

/// A moment as RFC 3339 writes it, with milliseconds and the offset.
pub uninterp spec fn rfc3339_text(ms: i64, offset: i32) -> Seq<char>;

/// A moment as `chrono`'s format string says.
pub uninterp spec fn time_text(ms: i64, offset: i32, format: Seq<char>) -> Seq<char>;

/// The moment an RFC 3339 text names, and its offset.
pub uninterp spec fn rfc3339_time(s: Seq<char>) -> Option<(i64, i32)>;

/// `DateTime::to_rfc3339_opts` with milliseconds and a numeric offset: a
/// function of the moment and the offset.
#[verifier::external_body]
pub(crate) fn to_rfc3339(t: Time) -> (out: String)
    requires
        t.valid(),
    ensures
        out@ == rfc3339_text(t.ms, t.offset),
{
    let zone = FixedOffset::east_opt(t.offset).expect("an offset under a day");
    let utc: DateTime<Utc> = DateTime::from_timestamp_millis(t.ms).expect("a moment in range");
    utc.with_timezone(&zone).to_rfc3339_opts(SecondsFormat::Millis, false)
}

/// The formats moments are shown in: a day, a time of day, or both.
pub open spec fn is_time_format(f: Seq<char>) -> bool {
    f == "%Y-%m-%d"@ || f == "%H:%M:%S"@ || f == "%m-%d %H:%M:%S"@ || f == "%Y-%m-%d %H:%M:%S"@
}

/// `DateTime::format`: a function of the moment, the offset and the format.
#[verifier::external_body]
pub(crate) fn format_time(t: Time, format: &str) -> (out: String)
    requires
        t.valid(),
        is_time_format(format@),
    ensures
        out@ == time_text(t.ms, t.offset, format@),
{
    let zone = FixedOffset::east_opt(t.offset).expect("an offset under a day");
    let utc: DateTime<Utc> = DateTime::from_timestamp_millis(t.ms).expect("a moment in range");
    utc.with_timezone(&zone).format(format).to_string()
}

/// A moment that RFC 3339 can write in full: a year of four digits, an offset
/// of whole minutes.
pub open spec fn in_years(t: Time) -> bool {
    0 <= t.ms <= 253_370_764_800_000 && -86400 < t.offset < 86400 && t.offset % 60 == 0
}

/// `DateTime::parse_from_rfc3339`: a function of the text. It reads years of
/// four digits and offsets of less than a day. A moment that was written in
/// full is read back.
#[verifier::external_body]
pub(crate) fn from_rfc3339(s: &str) -> (t: Option<Time>)
    ensures
        match t {
            Some(v) => rfc3339_time(s@) == Some((v.ms, v.offset)),
            None => rfc3339_time(s@) is None,
        },
        t is Some ==> t->0.valid(),
        forall|a: Time| #![trigger rfc3339_text(a.ms, a.offset)] in_years(a) && rfc3339_text(a.ms, a.offset) == s@ ==> t == Some(a),
{
    let t = DateTime::parse_from_rfc3339(s).ok()?;
    Some(Time { ms: t.timestamp_millis(), offset: t.offset().local_minus_utc() })
}

/// How long from `a` to `b` in milliseconds, nothing when `b` was first.
pub open spec fn elapsed(a: Time, b: Time) -> int {
    if b.ms > a.ms {
        b.ms - a.ms
    } else {
        0
    }
}

/// How long from `a` to `b`.
pub fn since(a: Time, b: Time) -> (ms: i64)
    requires
        a.valid(),
        b.valid(),
    ensures
        ms == elapsed(a, b),
{
    if b.ms > a.ms {
        b.ms - a.ms
    } else {
        0
    }
}

} // verus!
