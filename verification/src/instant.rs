//! Instants of time, as the `chrono` crate reads and writes them.
use vstd::prelude::*;
use std::fmt::Write;

verus! {

/// An instant: whole seconds since the start of 1970 in UTC, and the
/// nanoseconds into that second.
#[derive(Clone, Copy, Debug, PartialEq, Eq, Structural)]
pub struct Timestamp {
    pub secs: i64,
    pub nanos: u32,
}

impl Timestamp {
    /// `self` is strictly earlier than `other`.
    pub open spec fn is_before(self, other: Timestamp) -> bool {
        self.secs < other.secs || (self.secs == other.secs && self.nanos < other.nanos)
    }

    /// Tells whether `self` is strictly earlier than `other`.
    pub fn before(&self, other: &Timestamp) -> (b: bool)
        ensures
            b == self.is_before(*other),
    {
        self.secs < other.secs || (self.secs == other.secs && self.nanos < other.nanos)
    }
}

/// The instant that an RFC 3339 date and time names, as seconds since the
/// start of 1970 in UTC and nanoseconds; `None` for a text that is none.
pub uninterp spec fn rfc3339_instant(text: Seq<char>) -> Option<(i64, u32)>;

/// The seconds east of UTC that an offset such as `+09:00` names; `None` for a
/// text that is no offset.
pub uninterp spec fn utc_offset_seconds(text: Seq<char>) -> Option<i32>;

/// The text that `layout` gives for an instant, seen at `offset` seconds east
/// of UTC; `None` where the instant or the offset is out of range, or the
/// layout cannot be written.
pub uninterp spec fn instant_text(secs: i64, nanos: u32, offset: i32, layout: Seq<char>) -> Option<
    Seq<char>,
>;

/// `DateTime::parse_from_rfc3339`, then `timestamp` and
/// `timestamp_subsec_nanos` of what it found. The result depends on the text
/// alone.
#[verifier::external_body]
pub(crate) fn parse_rfc3339(text: &str) -> (r: Option<(i64, u32)>)
    ensures
        r == rfc3339_instant(text@),
{
    match chrono::DateTime::parse_from_rfc3339(text) {
        Ok(at) => Some((at.timestamp(), at.timestamp_subsec_nanos())),
        Err(_) => None,
    }
}

/// `FixedOffset::from_str`, then `local_minus_utc` of what it found. The
/// result depends on the text alone.
#[verifier::external_body]
pub(crate) fn parse_utc_offset(text: &str) -> (r: Option<i32>)
    ensures
        r == utc_offset_seconds(text@),
{
    match text.parse::<chrono::FixedOffset>() {
        Ok(offset) => Some(offset.local_minus_utc()),
        Err(_) => None,
    }
}

/// `DateTime::from_timestamp`, `FixedOffset::east_opt`, `with_timezone` and
/// `format`: the instant written by `layout` as seen at the offset. The result
/// depends on the four arguments alone.
#[verifier::external_body]
pub(crate) fn format_instant(secs: i64, nanos: u32, offset: i32, layout: &str) -> (r: Option<
    String,
>)
    ensures
        r.deep_view() == instant_text(secs, nanos, offset, layout@),
{
    let at = chrono::DateTime::from_timestamp(secs, nanos)?;
    let zone = chrono::FixedOffset::east_opt(offset)?;
    let mut out = String::new();
    match write!(out, "{}", at.with_timezone(&zone).format(layout)) {
        Ok(()) => Some(out),
        Err(_) => None,
    }
}

} // verus!
