//! Calendar dates and instants, as plain values.
use vstd::prelude::*;

verus! {

/// A calendar date (a deadline).
#[derive(Debug, Clone, Copy, PartialEq, Eq, Structural)]
pub struct Date {
    pub year: i32,
    pub month: u32,
    pub day: u32,
}

/// An instant, as seconds and nanoseconds since the Unix epoch (UTC).
#[derive(Debug, Clone, Copy, PartialEq, Eq, Structural)]
pub struct Timestamp {
    pub secs: i64,
    pub nanos: u32,
}

impl Date {
    /// Calendar order: by year, then month, then day.
    pub open spec fn before(self, other: Date) -> bool {
        ||| self.year < other.year
        ||| self.year == other.year && self.month < other.month
        ||| self.year == other.year && self.month == other.month && self.day < other.day
    }

    /// Whether `self` comes strictly before `other` in the calendar.
    pub fn is_before(&self, other: &Date) -> (b: bool)
        ensures
            b == self.before(*other),
    {
        self.year < other.year || (self.year == other.year && self.month < other.month) || (
        self.year == other.year && self.month == other.month && self.day < other.day)
    }
}

/// A leap year of the proleptic Gregorian calendar.
pub open spec fn leap_year(y: int) -> bool {
    y % 4 == 0 && (y % 100 != 0 || y % 400 == 0)
}

/// The number of days of month `m` of year `y`.
pub open spec fn days_in_month(y: int, m: int) -> int {
    if m == 2 {
        if leap_year(y) { 29 } else { 28 }
    } else if m == 4 || m == 6 || m == 9 || m == 11 {
        30
    } else {
        31
    }
}

/// A day of the calendar in a year from 0 to 9999.
pub open spec fn four_digit_date(y: int, m: int, d: int) -> bool {
    &&& 0 <= y <= 9999
    &&& 1 <= m <= 12
    &&& 1 <= d <= days_in_month(y, m)
}

/// The decimal digit of `n`, from 0 to 9.
pub open spec fn digit(n: int) -> char {
    if n == 0 { '0' } else if n == 1 { '1' } else if n == 2 { '2' } else if n == 3 { '3' } else if n == 4 {
        '4'
    } else if n == 5 { '5' } else if n == 6 { '6' } else if n == 7 { '7' } else if n == 8 { '8' } else { '9' }
}

pub open spec fn is_digit(c: char) -> bool {
    '0' <= c <= '9'
}

/// The value of a decimal digit.
pub open spec fn digit_value(c: char) -> int {
    if c == '0' { 0 } else if c == '1' { 1 } else if c == '2' { 2 } else if c == '3' { 3 } else if c == '4' {
        4
    } else if c == '5' { 5 } else if c == '6' { 6 } else if c == '7' { 7 } else if c == '8' { 8 } else { 9 }
}

/// A date written `YYYY-MM-DD`, each number zero-padded.
pub open spec fn ymd_text(y: int, m: int, d: int) -> Seq<char> {
    seq![
        digit(y / 1000), digit((y / 100) % 10), digit((y / 10) % 10), digit(y % 10), '-',
        digit(m / 10), digit(m % 10), '-', digit(d / 10), digit(d % 10),
    ]
}

/// The date that `s` writes as `YYYY-MM-DD`, if it writes one of a year
/// from 0 to 9999.
pub open spec fn text_ymd(s: Seq<char>) -> Option<(i32, u32, u32)> {
    if s.len() == 10 && s[4] == '-' && s[7] == '-' && is_digit(s[0]) && is_digit(s[1]) && is_digit(s[2])
        && is_digit(s[3]) && is_digit(s[5]) && is_digit(s[6]) && is_digit(s[8]) && is_digit(s[9]) {
        let y = 1000 * digit_value(s[0]) + 100 * digit_value(s[1]) + 10 * digit_value(s[2]) + digit_value(s[3]);
        let m = 10 * digit_value(s[5]) + digit_value(s[6]);
        let d = 10 * digit_value(s[8]) + digit_value(s[9]);
        if four_digit_date(y, m, d) {
            Some((y as i32, m as u32, d as u32))
        } else {
            None
        }
    } else {
        None
    }
}

proof fn lemma_four_digits(y: int)
    by (nonlinear_arith)
    requires
        0 <= y <= 9999,
    ensures
        0 <= y / 1000 <= 9,
        0 <= (y / 100) % 10 <= 9,
        0 <= (y / 10) % 10 <= 9,
        0 <= y % 10 <= 9,
        1000 * (y / 1000) + 100 * ((y / 100) % 10) + 10 * ((y / 10) % 10) + y % 10 == y,
{
}

proof fn lemma_two_digits(n: int)
    by (nonlinear_arith)
    requires
        0 <= n <= 99,
    ensures
        0 <= n / 10 <= 9,
        0 <= n % 10 <= 9,
        10 * (n / 10) + n % 10 == n,
{
}

proof fn lemma_digit(n: int)
    requires
        0 <= n <= 9,
    ensures
        is_digit(digit(n)),
        digit_value(digit(n)) == n,
{
}

/// A date written `YYYY-MM-DD` is read back as that date.
pub proof fn lemma_ymd_text_read(y: int, m: int, d: int)
    requires
        four_digit_date(y, m, d),
    ensures
        text_ymd(ymd_text(y, m, d)) == Some((y as i32, m as u32, d as u32)),
        ymd_text(y, m, d).len() == 10,
{
    lemma_four_digits(y);
    lemma_two_digits(m);
    lemma_two_digits(d);
    let (y0, y1, y2, y3) = (y / 1000, (y / 100) % 10, (y / 10) % 10, y % 10);
    let (m0, m1, d0, d1) = (m / 10, m % 10, d / 10, d % 10);
    lemma_digit(y0);
    lemma_digit(y1);
    lemma_digit(y2);
    lemma_digit(y3);
    lemma_digit(m0);
    lemma_digit(m1);
    lemma_digit(d0);
    lemma_digit(d1);
    let s = ymd_text(y, m, d);
    assert(s =~= seq![digit(y0), digit(y1), digit(y2), digit(y3), '-', digit(m0), digit(m1), '-', digit(d0), digit(d1)]);
    assert(1000 * digit_value(s[0]) + 100 * digit_value(s[1]) + 10 * digit_value(s[2]) + digit_value(s[3]) == y);
    assert(10 * digit_value(s[5]) + digit_value(s[6]) == m);
    assert(10 * digit_value(s[8]) + digit_value(s[9]) == d);
}

/// What chrono's `NaiveDate::parse_from_str(s, "%Y-%m-%d")` gives for `s`:
/// the year, month and day it reads, or the text of its parse error.
pub uninterp spec fn chrono_ymd(s: Seq<char>) -> Result<(i32, u32, u32), Seq<char>>;

/// Reads a `YYYY-MM-DD` date with chrono's `NaiveDate::parse_from_str`.
/// Trusted: on success the result is the date's year, month and day, as
/// `chrono_ymd` names them; on failure it is the `Display` text of chrono's
/// `ParseError`, also as `chrono_ymd` names it. Of the inputs chrono accepts,
/// only this is stated: a day of a year from 0 to 9999 written `YYYY-MM-DD`
/// with its numbers zero-padded is read as that day (chrono reads an
/// unsigned year of up to four digits, then two-digit month and day, and
/// checks the date).
#[verifier::external_body]
pub(crate) fn parse_ymd(s: &str) -> (r: Result<(i32, u32, u32), String>)
    ensures
        match chrono_ymd(s@) {
            Ok(t) => r == Ok::<(i32, u32, u32), String>(t),
            Err(e) => r matches Err(m) && m@ == e,
        },
        match text_ymd(s@) {
            Some(t) => r == Ok::<(i32, u32, u32), String>(t),
            None => true,
        },
{
    match chrono::NaiveDate::parse_from_str(s, "%Y-%m-%d") {
        Ok(d) => Ok((chrono::Datelike::year(&d), chrono::Datelike::month(&d), chrono::Datelike::day(&d))),
        Err(e) => Err(e.to_string()),
    }
}

/// An instant as the clock gives it: at or after the Unix epoch, its
/// nanoseconds within a second.
pub open spec fn clock_reading(t: Timestamp) -> bool {
    &&& t.secs >= 0
    &&& t.nanos < 1_000_000_000
}

/// The time elapsed since the Unix epoch, as whole seconds and the
/// nanoseconds past them, from std's `SystemTime::now().duration_since(UNIX_EPOCH)`.
/// Trusted: `None` when the clock reads earlier than the epoch; the
/// nanoseconds are below one billion, as std documents `subsec_nanos`.
/// Which time it is depends on the clock and is not stated.
#[verifier::external_body]
fn elapsed_since_epoch() -> (r: Option<(u64, u32)>)
    ensures
        r matches Some((_, n)) ==> n < 1_000_000_000,
{
    match std::time::SystemTime::now().duration_since(std::time::UNIX_EPOCH) {
        Ok(d) => Some((d.as_secs(), d.subsec_nanos())),
        Err(_) => None,
    }
}

/// The last second of year 9999, as seconds after the Unix epoch.
pub open spec fn end_of_year_9999() -> int {
    253_402_300_799
}

/// The instant `secs` seconds and `nanos` nanoseconds after the Unix
/// epoch, from chrono's `DateTime::from_timestamp`. Trusted: when chrono
/// makes it, it has those seconds and nanoseconds; it makes it for every
/// second from the epoch to the end of year 9999 (chrono's dates run to
/// year 262142). Where its range ends beyond that is not stated.
#[verifier::external_body]
fn utc_from_timestamp(secs: i64, nanos: u32) -> (r: Option<Timestamp>)
    requires
        nanos < 1_000_000_000,
    ensures
        r matches Some(t) ==> t.secs == secs && t.nanos == nanos,
        0 <= secs <= end_of_year_9999() ==> r is Some,
{
    match chrono::DateTime::from_timestamp(secs, nanos) {
        Some(t) => Some(Timestamp { secs: t.timestamp(), nanos: t.timestamp_subsec_nanos() }),
        None => None,
    }
}

/// The message when the clock cannot be read.
pub open spec fn msg_clock() -> Seq<char> {
    "system time is before the Unix epoch or out of range"@
}

/// The instant `secs` seconds and `nanos` nanoseconds after the Unix
/// epoch, if chrono can hold it: always up to the end of year 9999, never
/// past the range of `i64`.
pub fn timestamp_after_epoch(secs: u64, nanos: u32) -> (r: Option<Timestamp>)
    requires
        nanos < 1_000_000_000,
    ensures
        r matches Some(t) ==> t.secs == secs && t.nanos == nanos,
        secs <= end_of_year_9999() ==> r is Some,
        secs > 0x7fff_ffff_ffff_ffff ==> r is None,
{
    if secs <= 0x7fff_ffff_ffff_ffffu64 {
        utc_from_timestamp(secs as i64, nanos)
    } else {
        None
    }
}

/// The current instant, if the clock reads a time at or after the Unix
/// epoch that chrono can hold.
pub(crate) fn now() -> (r: Option<Timestamp>)
    ensures
        r matches Some(t) ==> clock_reading(t),
{
    match elapsed_since_epoch() {
        Some((secs, nanos)) => timestamp_after_epoch(secs, nanos),
        None => None,
    }
}

/// The message when the clock cannot be read.
pub(crate) fn clock_error() -> (r: String)
    ensures
        r@ == msg_clock(),
{
    "system time is before the Unix epoch or out of range".to_owned()
}

/// What chrono writes for the date of year `y`, month `m` and day `d` in
/// the format `%Y-%m-%d`, or nothing if there is no such date.
pub uninterp spec fn chrono_date_text(y: i32, m: u32, d: u32) -> Option<Seq<char>>;

/// A date written as `YYYY-MM-DD` by chrono: `NaiveDate::from_ymd_opt`,
/// then `format("%Y-%m-%d")`. Trusted: the result is what `chrono_date_text`
/// names for the date's year, month and day; for a day of a year from 0 to
/// 9999 it is `ymd_text` of it (chrono writes such a year with four digits,
/// zero-padded, and month and day with two). What chrono writes for other
/// years (a sign and more digits) is not stated.
#[verifier::external_body]
pub(crate) fn date_text(d: Date) -> (r: Option<String>)
    ensures
        match r {
            Some(t) => chrono_date_text(d.year, d.month, d.day) == Some(t@),
            None => chrono_date_text(d.year, d.month, d.day) is None,
        },
        if four_digit_date(d.year as int, d.month as int, d.day as int) {
            r matches Some(t) && t@ == ymd_text(d.year as int, d.month as int, d.day as int)
        } else {
            true
        },
{
    chrono::NaiveDate::from_ymd_opt(d.year, d.month, d.day).map(|n| n.format("%Y-%m-%d").to_string())
}

/// The date that chrono reads from `s`, if it reads one: the day that
/// `s` writes as `YYYY-MM-DD`, else what `chrono_ymd` names.
pub open spec fn read_date(s: Seq<char>) -> Result<Date, Seq<char>> {
    match text_ymd(s) {
        Some((y, m, d)) => Ok(Date { year: y, month: m, day: d }),
        None => match chrono_ymd(s) {
            Ok((y, m, d)) => Ok(Date { year: y, month: m, day: d }),
            Err(e) => Err(e),
        },
    }
}

/// Reads a `YYYY-MM-DD` date.
pub fn read_date_str(s: &str) -> (r: Result<Date, String>)
    ensures
        match read_date(s@) {
            Ok(d) => r == Ok::<Date, String>(d),
            Err(e) => r matches Err(m) && m@ == e,
        },
{
    match parse_ymd(s) {
        Ok((y, m, d)) => Ok(Date { year: y, month: m, day: d }),
        Err(e) => Err(e),
    }
}

/// `before` is the calendar order: a date of an earlier year comes before
/// any date of a later year, whatever their months and days; within a year
/// an earlier month comes first, whatever the days; within a month an
/// earlier day. Of two dates exactly one of "before", "the same" and
/// "after" holds, and the order is transitive.
pub proof fn law_calendar_order(a: Date, b: Date, c: Date)
    ensures
        a.year < b.year ==> a.before(b),
        a.year == b.year && a.month < b.month ==> a.before(b),
        a.year == b.year && a.month == b.month && a.day < b.day ==> a.before(b),
        a.before(b) ==> a.year <= b.year,
        !a.before(a),
        a.before(b) ==> !b.before(a),
        a == b || a.before(b) || b.before(a),
        a.before(b) && b.before(c) ==> a.before(c),
{
}

} // verus!
