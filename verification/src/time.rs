//! Instants and calendar days in UTC.

use crate::text::{format_i64, is_decimal, parse_up_to};
use chrono::{DateTime, Datelike, NaiveDate, NaiveDateTime, Utc};
use vstd::prelude::*;

verus! {

/// Format of a calendar day.
pub const DATE_FMT: &'static str = "%Y-%m-%d";

/// Format of a stored instant: whole seconds, always `Z`.
pub const INSTANT_FMT: &'static str = "%Y-%m-%dT%H:%M:%SZ";

/// The first day that the calendar holds, counted from 1970-01-01.
pub const MIN_DAY: i64 = -96_465_292;

/// The last day that the calendar holds.
pub const MAX_DAY: i64 = 95_026_236;

/// The first second that the calendar holds, counted from 1970-01-01T00:00:00Z.
pub const MIN_SECS: i64 = -8_334_601_228_800;

/// The last second that the calendar holds.
pub const MAX_SECS: i64 = 8_210_266_876_799;

/// A calendar day, counted from 1970-01-01.
#[derive(Clone, Copy, Debug, PartialEq, Eq, Structural)]
pub struct Date {
    pub day: i64,
}

/// A UTC instant: seconds since 1970-01-01T00:00:00Z and nanoseconds within the second.
/// A leap second counts its nanoseconds from 1 000 000 000 within the second before it.
#[derive(Clone, Copy, Debug, PartialEq, Eq, Structural)]
pub struct Instant {
    pub secs: i64,
    pub nanos: u32,
}

/// The days that the calendar holds.
pub open spec fn day_in_range(day: int) -> bool {
    MIN_DAY <= day <= MAX_DAY
}

impl Date {
    /// The calendar holds the day.
    pub open spec fn wf(&self) -> bool {
        day_in_range(self.day as int)
    }

    /// The day `n` days later, where the calendar holds it.
    pub fn checked_add_days(&self, n: i64) -> (r: Option<Date>)
        ensures
            match r {
                Some(d) => d.day == self.day + n && d.wf(),
                None => !day_in_range(self.day + n),
            },
    {
        let day: i128 = self.day as i128 + n as i128;
        if MIN_DAY as i128 <= day && day <= MAX_DAY as i128 {
            Some(Date { day: day as i64 })
        } else {
            None
        }
    }

    /// The instant at a time of this day.
    pub fn at(&self, hour: u32, minute: u32, second: u32) -> (r: Instant)
        requires
            self.wf(),
            hour < 24,
            minute < 60,
            second < 60,
        ensures
            r.wf(),
            r.nanos == 0,
            r.secs == self.day * 86_400 + hour * 3_600 + minute * 60 + second,
            instant_day(r) == self.day,
    {
        let r = Instant {
            secs: self.day * 86_400 + hour as i64 * 3_600 + minute as i64 * 60 + second as i64,
            nanos: 0,
        };
        assert(r.secs as int / 86_400 == self.day) by (nonlinear_arith)
            requires
                r.secs == self.day * 86_400 + hour * 3_600 + minute * 60 + second,
                hour < 24,
                minute < 60,
                second < 60,
        ;
        r
    }
}

/// The calendar day of an instant.
pub open spec fn instant_day(i: Instant) -> int {
    i.secs as int / 86_400
}

/// Chronological order.
pub open spec fn earlier(a: Instant, b: Instant) -> bool {
    a.secs < b.secs || (a.secs == b.secs && a.nanos < b.nanos)
}

/// Nanoseconds from `b` to `a`. Where the two times of day differ, a leap second that the
/// earlier time of day stands in counts as one more second between them.
pub open spec fn elapsed_nanos(a: Instant, b: Instant) -> int {
    let ta = a.secs as int % 86_400;
    let tb = b.secs as int % 86_400;
    let leap = if ta > tb && b.nanos >= 1_000_000_000 {
        1int
    } else if ta < tb && a.nanos >= 1_000_000_000 {
        -1int
    } else {
        0int
    };
    (a.secs - b.secs + leap) * 1_000_000_000 + (a.nanos - b.nanos)
}

/// `n` divided by `d` and rounded toward zero.
pub open spec fn truncated_quotient(n: int, d: int) -> int {
    if n >= 0 {
        n / d
    } else {
        -((-n) / d)
    }
}

/// Whole seconds from `b` to `a`, rounded toward zero.
pub open spec fn whole_seconds(a: Instant, b: Instant) -> int {
    truncated_quotient(elapsed_nanos(a, b), 1_000_000_000)
}

/// Whole days from `b` to `a`, rounded toward zero.
pub open spec fn whole_days(a: Instant, b: Instant) -> int {
    truncated_quotient(whole_seconds(a, b), 86_400)
}

/// The instant `days` days before `i`, as seconds and nanoseconds. Leaving a leap second
/// backward starts from the second that follows it.
pub open spec fn days_before(i: Instant, days: int) -> (int, int) {
    if days > 0 && i.nanos >= 1_000_000_000 {
        (i.secs + 1 - days * 86_400, i.nanos - 1_000_000_000)
    } else if days < 0 && i.nanos >= 1_000_000_000 {
        (i.secs - days * 86_400, i.nanos - 1_000_000_000)
    } else {
        (i.secs - days * 86_400, i.nanos as int)
    }
}

/// The calendar holds the instant `days` days before `i`.
pub open spec fn days_before_in_range(i: Instant, days: int) -> bool {
    MIN_SECS <= days_before(i, days).0 <= MAX_SECS
}

fn quotient(n: i128, d: i128) -> (r: i128)
    requires
        d > 0,
        n > i128::MIN,
    ensures
        r == truncated_quotient(n as int, d as int),
{
    if n >= 0 {
        assert(0 <= n as int / d as int <= n) by (nonlinear_arith)
            requires
                n >= 0,
                d > 0,
        ;
        n / d
    } else {
        let m: i128 = -n;
        assert(0 <= m as int / d as int <= m) by (nonlinear_arith)
            requires
                m >= 0,
                d > 0,
        ;
        -(m / d)
    }
}

fn floor_day(secs: i64) -> (r: i64)
    ensures
        r == secs as int / 86_400,
{
    match secs.checked_div_euclid(86_400) {
        Some(d) => d,
        None => 0,
    }
}

fn time_of_day(secs: i64) -> (r: i64)
    ensures
        r == secs as int % 86_400,
        0 <= r < 86_400,
{
    match secs.checked_rem_euclid(86_400) {
        Some(d) => d,
        None => 0,
    }
}

impl Instant {
    /// The calendar holds the instant; only the last second of a minute holds a leap second.
    pub open spec fn wf(&self) -> bool {
        &&& MIN_SECS <= self.secs <= MAX_SECS
        &&& self.nanos < 2_000_000_000
        &&& self.nanos >= 1_000_000_000 ==> self.secs as int % 60 == 59
    }

    /// The instant, where the calendar holds it.
    pub fn new(secs: i64, nanos: u32) -> (r: Option<Instant>)
        ensures
            match r {
                Some(i) => i.wf() && i.secs == secs && i.nanos == nanos,
                None => !(Instant { secs, nanos }).wf(),
            },
    {
        if secs < MIN_SECS || secs > MAX_SECS || nanos >= 2_000_000_000 {
            return None;
        }
        if nanos >= 1_000_000_000 {
            match secs.checked_rem_euclid(60) {
                Some(m) => {
                    if m != 59 {
                        return None;
                    }
                },
                None => {},
            }
        }
        Some(Instant { secs, nanos })
    }

    /// Tells whether this instant lies before another.
    pub fn is_earlier(&self, other: &Instant) -> (r: bool)
        ensures
            r == earlier(*self, *other),
    {
        self.secs < other.secs || (self.secs == other.secs && self.nanos < other.nanos)
    }

    /// The calendar day of the instant.
    pub fn date(&self) -> (r: Date)
        ensures
            r.day == instant_day(*self),
            self.wf() ==> r.wf(),
    {
        Date { day: floor_day(self.secs) }
    }

    fn nanos_since(&self, other: &Instant) -> (r: i128)
        ensures
            r == elapsed_nanos(*self, *other),
            -0x1_0000_0000_0000_0000_0000_0000 < r < 0x1_0000_0000_0000_0000_0000_0000,
    {
        let ta: i64 = time_of_day(self.secs);
        let tb: i64 = time_of_day(other.secs);
        let mut leap: i128 = 0;
        if ta > tb && other.nanos >= 1_000_000_000 {
            leap = 1;
        } else if ta < tb && self.nanos >= 1_000_000_000 {
            leap = -1;
        }
        (self.secs as i128 - other.secs as i128 + leap) * 1_000_000_000 + (self.nanos as i128
            - other.nanos as i128)
    }

    /// Whole seconds since another instant, rounded toward zero.
    pub fn seconds_since(&self, other: &Instant) -> (r: i128)
        ensures
            r == whole_seconds(*self, *other),
            -0x2_0000_0000_0000_0000 < r < 0x2_0000_0000_0000_0000,
    {
        quotient(self.nanos_since(other), 1_000_000_000)
    }

    /// Whole days since another instant, rounded toward zero.
    pub fn days_since(&self, other: &Instant) -> (r: i64)
        ensures
            r == whole_days(*self, *other),
            -500_000_000_000_000 <= r <= 500_000_000_000_000,
    {
        quotient(self.seconds_since(other), 86_400) as i64
    }

    /// The instant `days` days earlier.
    pub fn minus_days(&self, days: i64) -> (r: Instant)
        requires
            days_before_in_range(*self, days as int),
        ensures
            r.secs == days_before(*self, days as int).0,
            r.nanos == days_before(*self, days as int).1,
    {
        if days > 0 && self.nanos >= 1_000_000_000 {
            Instant {
                secs: (self.secs as i128 + 1 - days as i128 * 86_400) as i64,
                nanos: self.nanos - 1_000_000_000,
            }
        } else if days < 0 && self.nanos >= 1_000_000_000 {
            Instant {
                secs: (self.secs as i128 - days as i128 * 86_400) as i64,
                nanos: self.nanos - 1_000_000_000,
            }
        } else {
            Instant {
                secs: (self.secs as i128 - days as i128 * 86_400) as i64,
                nanos: self.nanos,
            }
        }
    }

    /// Tells whether the calendar holds the instant `days` days earlier.
    pub fn can_subtract_days(&self, days: i64) -> (r: bool)
        ensures
            r == days_before_in_range(*self, days as int),
    {
        let base: i128 = if days > 0 && self.nanos >= 1_000_000_000 {
            self.secs as i128 + 1
        } else {
            self.secs as i128
        };
        let secs: i128 = base - days as i128 * 86_400;
        MIN_SECS as i128 <= secs && secs <= MAX_SECS as i128
    }
}

// ---- text forms of days and instants ----

/// The day that a text spells in `YYYY-MM-DD` form, counted from 1970-01-01.
pub uninterp spec fn parsed_date(s: Seq<char>) -> Option<int>;

/// The `YYYY-MM-DD` form of the day counted from 1970-01-01.
pub uninterp spec fn date_text(day: int) -> Seq<char>;

/// The instant that an RFC 3339 text spells, as seconds and nanoseconds.
pub uninterp spec fn parsed_rfc3339(s: Seq<char>) -> Option<(int, int)>;

/// The RFC 3339 form of an instant.
pub uninterp spec fn rfc3339_text(secs: int, nanos: int) -> Seq<char>;

/// The stored form of an instant.
pub uninterp spec fn iso_text(secs: int, nanos: int) -> Seq<char>;

/// The second that a stored instant spells.
pub uninterp spec fn parsed_iso(s: Seq<char>) -> Option<int>;

/// A year has a day more.
pub open spec fn is_leap_year(y: int) -> bool {
    y % 4 == 0 && (y % 100 != 0 || y % 400 == 0)
}

/// The number of days of a month.
pub open spec fn month_days(y: int, m: int) -> int {
    if m == 2 {
        if is_leap_year(y) {
            29
        } else {
            28
        }
    } else if m == 4 || m == 6 || m == 9 || m == 11 {
        30
    } else {
        31
    }
}

/// The days before a year that begins in March, counted from the year 0.
pub open spec fn days_before_year(y: int) -> int {
    365 * y + y / 4 - y / 100 + y / 400
}

/// The days before a month of a year that begins in March.
pub open spec fn days_before_month(m: int) -> int {
    (153 * ((m + 9) % 12) + 2) / 5
}

/// The year that begins in March and holds a month.
pub open spec fn march_year(y: int, m: int) -> int {
    if m <= 2 {
        y - 1
    } else {
        y
    }
}

/// A day counted from 1970-01-01 is a date of the Gregorian calendar, which is taken to hold in
/// all years.
pub open spec fn is_date(day: int, y: int, m: int, d: int) -> bool {
    &&& 1 <= m <= 12
    &&& 1 <= d <= month_days(y, m)
    &&& day == days_before_year(march_year(y, m)) + days_before_month(m) + d - 1 - 719_468
}

proof fn lemma_month_fits(y: int, m: int, d: int)
    requires
        1 <= m <= 12,
        1 <= d <= month_days(y, m),
    ensures
        0 <= days_before_month(m) + d - 1,
        days_before_month(m) + d - 1 < days_before_year(march_year(y, m) + 1) - days_before_year(
            march_year(y, m),
        ),
{
    lemma_year_days(march_year(y, m) + 1);
    lemma_month_starts(m);
}

/// A day is one date at most.
pub proof fn a_day_is_one_date(day: int, y: int, m: int, d: int, y2: int, m2: int, d2: int)
    requires
        is_date(day, y, m, d),
        is_date(day, y2, m2, d2),
    ensures
        y == y2 && m == m2 && d == d2,
{
    lemma_month_fits(y, m, d);
    lemma_month_fits(y2, m2, d2);
    lemma_month_starts(m);
    lemma_month_starts(m2);
    let a = march_year(y, m);
    let b = march_year(y2, m2);
    assert(a == b) by {
        if a < b {
            assert(days_before_year(a + 1) <= days_before_year(b));
        }
        if b < a {
            assert(days_before_year(b + 1) <= days_before_year(a));
        }
    }
    assert(m == m2);
}

/// The first ten characters of a text are a day's.
pub open spec fn begins_with_day(s: Seq<char>, day: Seq<char>) -> bool {
    s.len() >= 10 && s.subrange(0, 10) == day
}

/// The days of the years 1 to 9999.
pub open spec fn four_digit_year_day(day: int) -> bool {
    -719_162 <= day <= 2_932_896
}

/// `chrono::NaiveDate::parse_from_str` with `%Y-%m-%d`: its result, as a day count, depends on
/// the text alone, and is a day that the calendar holds.
#[verifier::external_body]
fn chrono_parse_date(s: &str) -> (r: Option<i32>)
    ensures
        match r {
            Some(d) => parsed_date(s@) == Some(d as int) && day_in_range(d as int),
            None => parsed_date(s@) is None,
        },
{
    NaiveDate::parse_from_str(s, DATE_FMT).ok().map(|d| d.to_epoch_days())
}

/// `chrono::NaiveDate`'s `Display`: the text depends on the day alone, and reads back as that day:
/// years without a sign have four digits, and the others, which have one, are read with it.
#[verifier::external_body]
fn chrono_format_date(day: i32) -> (r: String)
    requires
        day_in_range(day as int),
    ensures
        r@ == date_text(day as int),
        parsed_date(r@) == Some(day as int),
{
    NaiveDate::from_epoch_days(day).unwrap().to_string()
}

/// `chrono::Datelike::year`, of the day: the year of its date.
#[verifier::external_body]
fn chrono_year(day: i32) -> (r: i32)
    requires
        day_in_range(day as int),
    ensures
        exists|m: int, d: int| #[trigger] is_date(day as int, r as int, m, d),
{
    NaiveDate::from_epoch_days(day).unwrap().year()
}

/// `chrono::Datelike::month`, of the day: the month of its date, from 1.
#[verifier::external_body]
fn chrono_month(day: i32) -> (r: u32)
    requires
        day_in_range(day as int),
    ensures
        exists|y: int, d: int| #[trigger] is_date(day as int, y, r as int, d),
{
    NaiveDate::from_epoch_days(day).unwrap().month()
}

/// `chrono::Datelike::day`, of the day: the day of the month of its date, from 1.
#[verifier::external_body]
fn chrono_day(day: i32) -> (r: u32)
    requires
        day_in_range(day as int),
    ensures
        exists|y: int, m: int| #[trigger] is_date(day as int, y, m, r as int),
{
    NaiveDate::from_epoch_days(day).unwrap().day()
}

/// `chrono::DateTime::parse_from_rfc3339`: its result depends on the text alone, and is an
/// instant that the calendar holds.
#[verifier::external_body]
fn chrono_parse_rfc3339(s: &str) -> (r: Option<(i64, u32)>)
    ensures
        match r {
            Some((secs, nanos)) => parsed_rfc3339(s@) == Some((secs as int, nanos as int)) && (
            Instant { secs, nanos }).wf(),
            None => parsed_rfc3339(s@) is None,
        },
{
    DateTime::parse_from_rfc3339(s).ok().map(|d| (d.timestamp(), d.timestamp_subsec_nanos()))
}

/// `chrono::DateTime::to_rfc3339` in UTC: the text depends on the instant alone.
#[verifier::external_body]
fn chrono_rfc3339(secs: i64, nanos: u32) -> (r: String)
    requires
        (Instant { secs, nanos }).wf(),
    ensures
        r@ == rfc3339_text(secs as int, nanos as int),
{
    DateTime::<Utc>::from_timestamp(secs, nanos).unwrap().to_rfc3339()
}

/// `chrono::DateTime::format` with the stored-instant format: the text depends on the instant
/// alone. Outside leap seconds it reads back as its second, and within the years 1 to 9999 its
/// first ten characters are the text of the day.
#[verifier::external_body]
fn chrono_iso(secs: i64, nanos: u32) -> (r: String)
    requires
        (Instant { secs, nanos }).wf(),
    ensures
        r@ == iso_text(secs as int, nanos as int),
        four_digit_year_day(secs as int / 86_400) ==> begins_with_day(
            r@,
            date_text(secs as int / 86_400),
        ),
        nanos < 1_000_000_000 ==> parsed_iso(r@) == Some(secs as int),
{
    DateTime::<Utc>::from_timestamp(secs, nanos).unwrap().format(INSTANT_FMT).to_string()
}

/// `chrono::NaiveDateTime::parse_from_str` with the stored-instant format, read as UTC: the
/// second depends on the text alone, and is one that the calendar holds.
#[verifier::external_body]
fn chrono_parse_iso(s: &str) -> (r: Option<i64>)
    ensures
        match r {
            Some(secs) => parsed_iso(s@) == Some(secs as int) && MIN_SECS <= secs <= MAX_SECS,
            None => parsed_iso(s@) is None,
        },
{
    NaiveDateTime::parse_from_str(s, INSTANT_FMT).ok().map(|d| d.and_utc().timestamp())
}

impl Date {
    /// The year.
    pub fn year(&self) -> (r: i32)
        requires
            self.wf(),
        ensures
            exists|m: int, d: int| #[trigger] is_date(self.day as int, r as int, m, d),
    {
        chrono_year(self.day as i32)
    }

    /// The month, from 1.
    pub fn month(&self) -> (r: u32)
        requires
            self.wf(),
        ensures
            exists|y: int, d: int| #[trigger] is_date(self.day as int, y, r as int, d),
    {
        chrono_month(self.day as i32)
    }

    /// The day of the month, from 1.
    pub fn day(&self) -> (r: u32)
        requires
            self.wf(),
        ensures
            exists|y: int, m: int| #[trigger] is_date(self.day as int, y, m, r as int),
    {
        chrono_day(self.day as i32)
    }

    /// The day in `YYYY-MM-DD` form.
    pub fn text(&self) -> (r: String)
        requires
            self.wf(),
        ensures
            r@ == date_text(self.day as int),
            parsed_date(r@) == Some(self.day as int),
    {
        chrono_format_date(self.day as i32)
    }
}

/// What keeps a text from being read as a day or an instant.
#[derive(Clone, Debug)]
pub enum TimeError {
    /// Not a `YYYY-MM-DD` day.
    Date { raw: String },
    /// Not an RFC 3339 instant, nor a number of seconds that fits.
    Instant { raw: String },
    /// A number of seconds that the calendar does not hold.
    OutOfRange { raw: String },
}

/// Reads a `YYYY-MM-DD` day.
pub fn parse_ymd(raw: &str) -> (r: Result<Date, TimeError>)
    ensures
        match r {
            Ok(d) => d.wf() && parsed_date(raw@) == Some(d.day as int),
            Err(e) => parsed_date(raw@) is None && (e matches TimeError::Date { raw: t } && t@
                == raw@),
        },
{
    match chrono_parse_date(raw) {
        Some(d) => Ok(Date { day: d as i64 }),
        None => Err(TimeError::Date { raw: raw.to_owned() }),
    }
}

/// The day of an instant in `YYYY-MM-DD` form.
pub fn utc_date(i: Instant) -> (r: String)
    requires
        i.wf(),
    ensures
        r@ == date_text(instant_day(i)),
{
    i.date().text()
}

/// The stored form of an instant: whole seconds.
pub fn utc_iso(i: Instant) -> (r: String)
    requires
        i.wf(),
    ensures
        r@ == iso_text(i.secs as int, i.nanos as int),
        four_digit_year_day(instant_day(i)) ==> begins_with_day(r@, date_text(instant_day(i))),
        i.nanos < 1_000_000_000 ==> parsed_iso(r@) == Some(i.secs as int),
{
    chrono_iso(i.secs, i.nanos)
}

/// Reads a stored instant.
pub fn parse_utc_iso(raw: &str) -> (r: Result<Instant, TimeError>)
    ensures
        match r {
            Ok(i) => i.wf() && i.nanos == 0 && parsed_iso(raw@) == Some(i.secs as int),
            Err(e) => parsed_iso(raw@) is None && (e matches TimeError::Instant { raw: t } && t@
                == raw@),
        },
{
    match chrono_parse_iso(raw) {
        Some(secs) => Ok(Instant { secs, nanos: 0 }),
        None => Err(TimeError::Instant { raw: raw.to_owned() }),
    }
}

/// The RFC 3339 form of an instant.
pub fn to_rfc3339(i: Instant) -> (r: String)
    requires
        i.wf(),
    ensures
        r@ == rfc3339_text(i.secs as int, i.nanos as int),
{
    chrono_rfc3339(i.secs, i.nanos)
}

/// A window bound as the broker takes it: digits as they are, an RFC 3339 instant as its
/// second.
pub fn normalize_ts(raw: &str) -> (r: Result<String, TimeError>)
    ensures
        match r {
            Ok(t) => if crate::text::all_digits(raw@) {
                t@ == raw@
            } else {
                parsed_rfc3339(raw@) matches Some((secs, _)) && t@ == crate::text::signed_decimal(
                    secs,
                )
            },
            Err(e) => !crate::text::all_digits(raw@) && parsed_rfc3339(raw@) is None && (
            e matches TimeError::Instant { raw: t } && t@ == raw@),
        },
{
    if is_decimal(raw) {
        return Ok(raw.to_owned());
    }
    match chrono_parse_rfc3339(raw) {
        Some((secs, _nanos)) => Ok(format_i64(secs)),
        None => Err(TimeError::Instant { raw: raw.to_owned() }),
    }
}

/// The instant that a window bound spells: digits count seconds, other text is RFC 3339.
pub open spec fn window_instant(raw: Seq<char>) -> Option<(int, int)> {
    if crate::text::all_digits(raw) {
        match crate::text::number_in(raw, i64::MAX as nat) {
            Some(n) => if n <= MAX_SECS {
                Some((n as int, 0int))
            } else {
                None
            },
            None => None,
        }
    } else {
        parsed_rfc3339(raw)
    }
}

/// Reads a window bound.
pub fn parse_window_instant(raw: &str) -> (r: Result<Instant, TimeError>)
    ensures
        match r {
            Ok(i) => i.wf() && window_instant(raw@) == Some((i.secs as int, i.nanos as int)),
            Err(TimeError::OutOfRange { raw: t }) => t@ == raw@ && crate::text::all_digits(raw@)
                && (crate::text::number_in(raw@, i64::MAX as nat) matches Some(n) && n
                > MAX_SECS),
            Err(TimeError::Instant { raw: t }) => t@ == raw@ && (if crate::text::all_digits(raw@) {
                crate::text::number_in(raw@, i64::MAX as nat) is None
            } else {
                parsed_rfc3339(raw@) is None
            }),
            Err(TimeError::Date { .. }) => false,
        },
{
    if is_decimal(raw) {
        return match parse_up_to(raw, i64::MAX as u64) {
            Some(n) => if n <= MAX_SECS as u64 {
                Ok(Instant { secs: n as i64, nanos: 0 })
            } else {
                Err(TimeError::OutOfRange { raw: raw.to_owned() })
            },
            None => Err(TimeError::Instant { raw: raw.to_owned() }),
        };
    }
    match chrono_parse_rfc3339(raw) {
        Some((secs, nanos)) => Ok(Instant { secs, nanos }),
        None => Err(TimeError::Instant { raw: raw.to_owned() }),
    }
}

/// The instant of an archive time: the first of `(secs, nanos)`, `(secs, 0)` and the start of
/// 1970 that the calendar holds.
pub fn archive_instant(secs: i64, nanos: u32) -> (r: Instant)
    ensures
        r.wf(),
        (Instant { secs, nanos }).wf() ==> r == (Instant { secs, nanos }),
        !(Instant { secs, nanos }).wf() && MIN_SECS <= secs <= MAX_SECS ==> r == (Instant {
            secs,
            nanos: 0,
        }),
        !(MIN_SECS <= secs <= MAX_SECS) ==> r == (Instant { secs: 0, nanos: 0 }),
{
    match Instant::new(secs, nanos) {
        Some(i) => i,
        None => match Instant::new(secs, 0) {
            Some(i) => i,
            None => Instant { secs: 0, nanos: 0 },
        },
    }
}

// ---- laws ----

/// The nanoseconds of an instant, counted from 1970.
pub open spec fn nanos_of(i: Instant) -> int {
    i.secs * 1_000_000_000 + i.nanos
}

/// Instants outside leap seconds are in the order of their nanoseconds.
pub proof fn earlier_is_fewer_nanos(a: Instant, b: Instant)
    requires
        a.nanos < 1_000_000_000 && b.nanos < 1_000_000_000,
    ensures
        earlier(a, b) <==> nanos_of(a) < nanos_of(b),
{
}

/// The whole days from one instant to a later one, outside leap seconds, are as many as fit between
/// them; from the later to the earlier they are as many, and negative.
pub proof fn whole_days_fit(a: Instant, b: Instant)
    requires
        a.nanos < 1_000_000_000 && b.nanos < 1_000_000_000,
        nanos_of(b) <= nanos_of(a),
    ensures
        whole_days(a, b) >= 0,
        nanos_of(b) + whole_days(a, b) * 86_400_000_000_000 <= nanos_of(a),
        nanos_of(a) < nanos_of(b) + (whole_days(a, b) + 1) * 86_400_000_000_000,
        whole_days(b, a) == -whole_days(a, b),
        whole_seconds(a, b) >= 0,
        nanos_of(b) + whole_seconds(a, b) * 1_000_000_000 <= nanos_of(a),
        nanos_of(a) < nanos_of(b) + (whole_seconds(a, b) + 1) * 1_000_000_000,
{
    let n = elapsed_nanos(a, b);
    assert(n == nanos_of(a) - nanos_of(b));
    assert(elapsed_nanos(b, a) == -n);
    let s = whole_seconds(a, b);
    assert(s == n / 1_000_000_000);
    assert(whole_days(a, b) == s / 86_400);
}

/// An instant some days before another, outside leap seconds, lies that many times 86,400 seconds
/// before it; and its day is that many days before the other's.
pub proof fn days_before_are_days(i: Instant, days: int)
    requires
        i.nanos < 1_000_000_000,
    ensures
        days_before(i, days).0 * 1_000_000_000 + days_before(i, days).1 == nanos_of(i) - days
            * 86_400_000_000_000,
        days_before(i, days).0 / 86_400 == instant_day(i) - days,
{
    assert(days_before(i, days) == (i.secs - days * 86_400, i.nanos as int));
    assert((i.secs - days * 86_400) * 1_000_000_000 == i.secs * 1_000_000_000 - days
        * 86_400_000_000_000) by (nonlinear_arith);
    assert((i.secs - days * 86_400) / 86_400 == i.secs as int / 86_400 - days);
}

/// The day of an instant holds it.
pub proof fn a_day_holds_its_instants(i: Instant)
    ensures
        instant_day(i) * 86_400 <= i.secs < (instant_day(i) + 1) * 86_400,
{
}

/// The calendar counts from 1970-01-01, and a day later is the next date: the next day of the
/// month, or the first of the next month, or the first of January. April, June, September and
/// November have 30 days, February has 28, or 29 in a year that 4 divides, unless 100 divides it
/// and 400 does not; the others have 31.
pub proof fn dates_follow_each_other(day: int, y: int, m: int, d: int)
    requires
        is_date(day, y, m, d),
    ensures
        is_date(0, 1970, 1, 1),
        1 <= m <= 12 && d >= 1,
        ({
            let last = if m == 2 {
                if y % 400 == 0 || (y % 4 == 0 && y % 100 != 0) {
                    29int
                } else {
                    28int
                }
            } else if m == 4 || m == 6 || m == 9 || m == 11 {
                30int
            } else {
                31int
            };
            &&& d <= last
            &&& d < last ==> is_date(day + 1, y, m, d + 1)
            &&& d == last && m < 12 ==> is_date(day + 1, y, m + 1, 1)
            &&& d == last && m == 12 ==> is_date(day + 1, y + 1, 1, 1)
        }),
{
    assert(is_date(0, 1970, 1, 1));
    lemma_year_days(y);
    lemma_month_starts(m);
    lemma_month_starts(m + 1);
    lemma_month_starts(1);
}

proof fn lemma_year_days(y: int)
    ensures
        days_before_year(y) == days_before_year(y - 1) + (if is_leap_year(y) {
            366int
        } else {
            365
        }),
{
    assert(y / 4 - (y - 1) / 4 == (if y % 4 == 0 {
        1int
    } else {
        0
    }));
    assert(y / 100 - (y - 1) / 100 == (if y % 100 == 0 {
        1int
    } else {
        0
    }));
    assert(y / 400 - (y - 1) / 400 == (if y % 400 == 0 {
        1int
    } else {
        0
    }));
    assert(y % 100 == 0 ==> y % 4 == 0);
    assert(y % 400 == 0 ==> y % 100 == 0);
}

proof fn lemma_month_starts(m: int)
    ensures
        m == 1 ==> days_before_month(m) == 306,
        m == 2 ==> days_before_month(m) == 337,
        m == 3 ==> days_before_month(m) == 0,
        m == 4 ==> days_before_month(m) == 31,
        m == 5 ==> days_before_month(m) == 61,
        m == 6 ==> days_before_month(m) == 92,
        m == 7 ==> days_before_month(m) == 122,
        m == 8 ==> days_before_month(m) == 153,
        m == 9 ==> days_before_month(m) == 184,
        m == 10 ==> days_before_month(m) == 214,
        m == 11 ==> days_before_month(m) == 245,
        m == 12 ==> days_before_month(m) == 275,
{
}

/// A bound that is a number counts seconds from 1970; any other is read as RFC 3339.
pub proof fn bounds_are_seconds_or_rfc3339(raw: Seq<char>, n: nat)
    ensures
        raw == crate::text::decimal(n) && n <= MAX_SECS ==> window_instant(raw) == Some(
            (n as int, 0int),
        ),
        raw == crate::text::decimal(n) && n > MAX_SECS ==> window_instant(raw) is None,
        (exists|i: int| 0 <= i < raw.len() && !crate::text::is_digit(#[trigger] raw[i]))
            ==> window_instant(raw) == parsed_rfc3339(raw),
{
    crate::text::decimal_is_digits(n);
    if n <= i64::MAX {
        crate::text::parse_undoes_format(n, i64::MAX as nat);
    }
    crate::text::numbers_read_with_zeros_and_a_plus(n, i64::MAX as nat);
}

} // verus!
