//! UTC instants as plain values.
//!
//! A [`Timestamp`] holds the whole seconds since the Unix epoch and the
//! nanoseconds within that second. As in chrono's `DateTime<Utc>`, a leap
//! second is written as the 59th second of a minute with `nanos` of one
//! second or more.

use vstd::prelude::*;

verus! {

/// Unix seconds of -262143-01-01T00:00:00Z, the earliest representable instant.
pub const MIN_UNIX_SECS: i64 = -8_334_601_228_800;

/// Unix seconds of +262142-12-31T23:59:59Z, the second of the latest representable instant.
pub const MAX_UNIX_SECS: i64 = 8_210_266_876_799;

/// Nanoseconds in one second.
pub const NANOS_PER_SEC: u32 = 1_000_000_000;

/// The largest number of seconds that a duration can hold.
pub const MAX_DELTA_SECS: i64 = 9_223_372_036_854_775;

/// A UTC instant.
#[derive(Clone, Copy, Debug, PartialEq, Eq, Hash, Structural)]
pub struct Timestamp {
    /// Whole seconds since 1970-01-01T00:00:00Z.
    pub secs: i64,
    /// Nanoseconds within the second; at least one second only in a leap second.
    pub nanos: u32,
}

/// Drops the extra second of a leap-second fraction.
pub open spec fn strip_leap(nanos: int) -> int {
    if nanos >= NANOS_PER_SEC { nanos - NANOS_PER_SEC } else { nanos }
}

impl Timestamp {
    /// The instant lies in the representable range and its fraction is well formed.
    pub open spec fn wf(self) -> bool {
        &&& MIN_UNIX_SECS <= self.secs <= MAX_UNIX_SECS
        &&& self.nanos < 2 * NANOS_PER_SEC
        &&& (self.nanos < NANOS_PER_SEC || self.secs % 60 == 59)
    }

    /// Position on the time line: instants are ordered by this value.
    pub open spec fn pos(self) -> int {
        self.secs * 2_000_000_000 + self.nanos
    }

    /// The instant `s` whole seconds later (for `s > 0`); a leap second is
    /// first folded into the second before it.
    pub open spec fn plus_secs(self, s: int) -> Timestamp {
        Timestamp { secs: (self.secs + s) as i64, nanos: strip_leap(self.nanos as int) as u32 }
    }

    /// Builds an instant from Unix seconds and nanoseconds, if it is representable.
    pub fn from_unix(secs: i64, nanos: u32) -> (r: Option<Timestamp>)
        ensures
            r == (if (Timestamp { secs, nanos }).wf() {
                Some(Timestamp { secs, nanos })
            } else {
                None::<Timestamp>
            }),
    {
        let t = Timestamp { secs, nanos };
        if MIN_UNIX_SECS <= secs && secs <= MAX_UNIX_SECS && nanos < 2 * NANOS_PER_SEC && (nanos
            < NANOS_PER_SEC || secs % 60 == 59 || secs % 60 == -1) {
            Some(t)
        } else {
            None
        }
    }

    /// `self` is strictly earlier than `other`.
    pub fn is_before(&self, other: &Timestamp) -> (r: bool)
        requires
            self.wf(),
            other.wf(),
        ensures
            r == (self.pos() < other.pos()),
    {
        self.secs < other.secs || (self.secs == other.secs && self.nanos < other.nanos)
    }

    /// `self` is earlier than or equal to `other`.
    pub fn is_not_after(&self, other: &Timestamp) -> (r: bool)
        requires
            self.wf(),
            other.wf(),
        ensures
            r == (self.pos() <= other.pos()),
    {
        self.secs < other.secs || (self.secs == other.secs && self.nanos <= other.nanos)
    }

    /// The later of two instants, `other` when they are equal.
    pub fn latest(self, other: Timestamp) -> (r: Timestamp)
        requires
            self.wf(),
            other.wf(),
        ensures
            r == (if self.pos() <= other.pos() { other } else { self }),
    {
        if self.is_not_after(&other) {
            other
        } else {
            self
        }
    }

    /// The earlier of two instants, `self` when they are equal.
    pub fn earliest(self, other: Timestamp) -> (r: Timestamp)
        requires
            self.wf(),
            other.wf(),
        ensures
            r == (if self.pos() <= other.pos() { self } else { other }),
    {
        if self.is_not_after(&other) {
            self
        } else {
            other
        }
    }

    /// Adds `s` whole seconds, or `None` when the result leaves the representable range.
    pub fn checked_add_secs(self, s: i64) -> (r: Option<Timestamp>)
        requires
            self.wf(),
            0 < s <= MAX_DELTA_SECS,
        ensures
            r == (if self.secs + s <= MAX_UNIX_SECS {
                Some(self.plus_secs(s as int))
            } else {
                None::<Timestamp>
            }),
            r matches Some(t) ==> t.wf(),
    {
        let secs = self.secs + s;
        if secs <= MAX_UNIX_SECS {
            let nanos = if self.nanos >= NANOS_PER_SEC {
                self.nanos - NANOS_PER_SEC
            } else {
                self.nanos
            };
            Some(Timestamp { secs, nanos })
        } else {
            None
        }
    }
}

/// Two well-formed instants at the same position are the same instant.
pub proof fn lemma_pos_injective(a: Timestamp, b: Timestamp)
    requires
        a.nanos < 2 * NANOS_PER_SEC,
        b.nanos < 2 * NANOS_PER_SEC,
        a.pos() == b.pos(),
    ensures
        a == b,
{
    if a.secs < b.secs {
        assert(a.pos() < b.pos());
    } else if a.secs > b.secs {
        assert(a.pos() > b.pos());
    }
}


// ---------------------------------------------------------------------------
// Reading, writing and taking instants with chrono.

/// The instant at midnight UTC of the date that chrono's
/// `NaiveDate::parse_from_str` reads from `text` with the format `fmt`.
pub uninterp spec fn parsed_date(text: Seq<char>, fmt: Seq<char>) -> Option<Timestamp>;

/// The UTC instant that chrono's `NaiveDateTime::parse_from_str` reads from
/// `text` with the format `fmt`.
pub uninterp spec fn parsed_naive(text: Seq<char>, fmt: Seq<char>) -> Option<Timestamp>;

/// The instant that chrono's `DateTime::parse_from_rfc3339` reads from `text`.
pub uninterp spec fn parsed_rfc3339(text: Seq<char>) -> Option<Timestamp>;

/// The text that chrono's `DateTime::<Utc>::format` writes for `t` with the format `fmt`.
pub uninterp spec fn formatted(t: Timestamp, fmt: Seq<char>) -> Seq<char>;

/// Reads a date with chrono's `NaiveDate::parse_from_str` and takes its
/// midnight UTC. Claimed: the result is `parsed_date(text, fmt)`, and a
/// date that chrono returns lies in its range.
#[verifier::external_body]
pub fn parse_date(text: &str, fmt: &str) -> (r: Option<Timestamp>)
    ensures
        r == parsed_date(text@, fmt@),
        r matches Some(t) ==> t.wf(),
{
    match chrono::NaiveDate::parse_from_str(text, fmt) {
        Ok(date) => match date.and_hms_opt(0, 0, 0) {
            Some(midnight) => {
                let utc = midnight.and_utc();
                Some(Timestamp { secs: utc.timestamp(), nanos: utc.timestamp_subsec_nanos() })
            },
            None => None,
        },
        Err(_) => None,
    }
}

/// Reads a date and time with chrono's `NaiveDateTime::parse_from_str`, as
/// UTC. Claimed: the result is `parsed_naive(text, fmt)`, and a value that
/// chrono returns lies in its range.
#[verifier::external_body]
pub fn parse_naive(text: &str, fmt: &str) -> (r: Option<Timestamp>)
    ensures
        r == parsed_naive(text@, fmt@),
        r matches Some(t) ==> t.wf(),
{
    match chrono::NaiveDateTime::parse_from_str(text, fmt) {
        Ok(naive) => {
            let utc = naive.and_utc();
            Some(Timestamp { secs: utc.timestamp(), nanos: utc.timestamp_subsec_nanos() })
        },
        Err(_) => None,
    }
}

/// Reads an RFC 3339 date and time with chrono's
/// `DateTime::parse_from_rfc3339`, converted to UTC. Claimed: the result is
/// `parsed_rfc3339(text)`, and a value that chrono returns lies in its range.
#[verifier::external_body]
pub fn parse_rfc3339(text: &str) -> (r: Option<Timestamp>)
    ensures
        r == parsed_rfc3339(text@),
        r matches Some(t) ==> t.wf(),
{
    match chrono::DateTime::parse_from_rfc3339(text) {
        Ok(fixed) => {
            let utc = fixed.with_timezone(&chrono::Utc);
            Some(Timestamp { secs: utc.timestamp(), nanos: utc.timestamp_subsec_nanos() })
        },
        Err(_) => None,
    }
}

/// The format in which iCalendar writes UTC instants.
pub open spec fn ical_format() -> Seq<char> {
    "%Y%m%dT%H%M%SZ"@
}

/// Writes `t` with chrono's `DateTime::<Utc>::format` in the iCalendar
/// format. Claimed: the result is `formatted(t, fmt)`. Nothing more is stated
/// of the text.
#[verifier::external_body]
pub fn format_utc(t: Timestamp, fmt: &str) -> (r: String)
    requires
        t.wf(),
        fmt@ == ical_format(),
    ensures
        r@ == formatted(t, fmt@),
{
    match chrono::DateTime::from_timestamp(t.secs, t.nanos) {
        Some(utc) => utc.format(fmt).to_string(),
        None => String::new(),
    }
}

/// The current instant, read with chrono's `Utc::now`. Claimed: it lies in
/// chrono's range; nothing else is stated of it.
#[verifier::external_body]
pub fn now() -> (r: Timestamp)
    ensures
        r.wf(),
{
    let utc = chrono::Utc::now();
    Timestamp { secs: utc.timestamp(), nanos: utc.timestamp_subsec_nanos() }
}

/// Microseconds since the Unix epoch, leap fractions included, as chrono's
/// `timestamp_micros`.
pub open spec fn micros(t: Timestamp) -> int {
    t.secs * 1_000_000 + t.nanos / 1000
}

impl Timestamp {
    /// Microseconds since the Unix epoch.
    pub fn timestamp_micros(&self) -> (r: i64)
        requires
            self.wf(),
        ensures
            r == micros(*self),
    {
        self.secs * 1_000_000 + (self.nanos / 1000) as i64
    }
}

} // verus!
