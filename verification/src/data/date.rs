//! Calendar dates and clock times of the proleptic Gregorian calendar.
//!
//! A `Date` is identified by its day number (`days_from_ce`): 0001-01-01 is day 1,
//! and consecutive calendar days have consecutive numbers. Chronological order,
//! week membership and weekday are all read off that number.
use vstd::prelude::*;

use chrono::Datelike;
use chrono::Timelike;

verus! {

/// The smallest year a date can carry.
pub const MIN_YEAR: i32 = -262143;

/// The largest year a date can carry.
pub const MAX_YEAR: i32 = 262142;

/// A calendar date.
#[derive(Debug, Clone, Copy, PartialEq, Eq, Structural, PartialOrd, Ord, Hash)]
pub struct Date {
    pub year: i32,
    pub month: u32,
    pub day: u32,
}

/// A clock time with whole seconds.
#[derive(Debug, Clone, Copy, PartialEq, Eq, Structural, PartialOrd, Ord, Hash)]
pub struct Time {
    pub hour: u32,
    pub minute: u32,
    pub second: u32,
}

pub open spec fn is_leap_year(y: int) -> bool {
    (y % 4 == 0 && y % 100 != 0) || y % 400 == 0
}

pub open spec fn days_in_month(y: int, m: int) -> int {
    if m == 2 {
        if is_leap_year(y) {
            29
        } else {
            28
        }
    } else if m == 4 || m == 6 || m == 9 || m == 11 {
        30
    } else {
        31
    }
}

pub open spec fn days_in_year(y: int) -> int {
    if is_leap_year(y) {
        366
    } else {
        365
    }
}

pub open spec fn valid_ymd(y: int, m: int, d: int) -> bool {
    &&& MIN_YEAR <= y <= MAX_YEAR
    &&& 1 <= m <= 12
    &&& 1 <= d <= days_in_month(y, m)
}

/// Days of the year `y` that lie in the months before month `m`.
pub open spec fn days_before_month(y: int, m: int) -> int {
    let common: int = if m <= 1 {
        0
    } else if m == 2 {
        31
    } else if m == 3 {
        59
    } else if m == 4 {
        90
    } else if m == 5 {
        120
    } else if m == 6 {
        151
    } else if m == 7 {
        181
    } else if m == 8 {
        212
    } else if m == 9 {
        243
    } else if m == 10 {
        273
    } else if m == 11 {
        304
    } else {
        334
    };
    if is_leap_year(y) && m > 2 {
        common + 1
    } else {
        common
    }
}

/// Days in the years 1 .. y-1 (negative for years before 1).
pub open spec fn days_before_year(y: int) -> int {
    let p = y - 1;
    365 * p + p / 4 - p / 100 + p / 400
}

/// The day number: 0001-01-01 is day 1.
pub open spec fn day_number(y: int, m: int, d: int) -> int {
    days_before_year(y) + days_before_month(y, m) + d
}

/// Monday-based week index: days share a week index exactly when they lie in the
/// same Monday-to-Sunday week (0001-01-01 is a Monday), that is, in the same ISO week.
pub open spec fn week_of(dn: int) -> int {
    (dn - 1) / 7
}

/// Weekday of a day number, Monday = 0 .. Sunday = 6.
pub open spec fn weekday_of(dn: int) -> int {
    (dn - 1) % 7
}

pub open spec fn max_date() -> Date {
    Date { year: MAX_YEAR, month: 12, day: 31 }
}

impl Date {
    pub open spec fn wf(self) -> bool {
        valid_ymd(self.year as int, self.month as int, self.day as int)
    }

    pub open spec fn dn(self) -> int {
        day_number(self.year as int, self.month as int, self.day as int)
    }

    pub open spec fn is_max(self) -> bool {
        self.year == MAX_YEAR && self.month == 12 && self.day == 31
    }
}

pub open spec fn valid_hms(h: int, m: int, s: int) -> bool {
    0 <= h < 24 && 0 <= m < 60 && 0 <= s < 60
}

impl Time {
    pub open spec fn wf(self) -> bool {
        valid_hms(self.hour as int, self.minute as int, self.second as int)
    }

    pub open spec fn secs(self) -> int {
        self.hour * 3600 + self.minute * 60 + self.second
    }
}

pub open spec fn dates_dn(s: Seq<Date>) -> Seq<int> {
    s.map_values(|d: Date| d.dn())
}

pub open spec fn all_wf(s: Seq<Date>) -> bool {
    forall|i: int| 0 <= i < s.len() ==> (#[trigger] s[i]).wf()
}

// ---------------------------------------------------------------------------
// Lemmas on the day number

proof fn lemma_div_step(y: int)
    ensures
        y / 4 - (y - 1) / 4 == (if y % 4 == 0 { 1int } else { 0int }),
        y / 100 - (y - 1) / 100 == (if y % 100 == 0 { 1int } else { 0int }),
        y / 400 - (y - 1) / 400 == (if y % 400 == 0 { 1int } else { 0int }),
{
}

/// A year has 365 days, 366 when it is a leap year.
#[verifier::spinoff_prover]
pub proof fn lemma_year_length(y: int)
    ensures
        days_before_year(y + 1) == days_before_year(y) + days_in_year(y),
{
    lemma_div_step(y);
    let a = y / 4 - (y - 1) / 4;
    let b = y / 100 - (y - 1) / 100;
    let c = y / 400 - (y - 1) / 400;
    assert(days_before_year(y + 1) - days_before_year(y) == 365 + a - b + c);
    if y % 400 == 0 {
        assert(y % 100 == 0 && y % 4 == 0) by {
            vstd::arithmetic::div_mod::lemma_mod_mod(y, 100, 4);
            vstd::arithmetic::div_mod::lemma_mod_mod(y, 4, 100);
        }
    } else if y % 100 == 0 {
        assert(y % 4 == 0) by {
            vstd::arithmetic::div_mod::lemma_mod_mod(y, 4, 25);
        }
    }
}

proof fn lemma_years_monotone(y1: int, y2: int)
    requires
        y1 <= y2,
    ensures
        days_before_year(y2) >= days_before_year(y1) + 365 * (y2 - y1),
    decreases y2 - y1,
{
    if y1 < y2 {
        lemma_years_monotone(y1, y2 - 1);
        lemma_year_length(y2 - 1);
    }
}

proof fn lemma_in_year(y: int, m: int, d: int)
    requires
        1 <= m <= 12,
        1 <= d <= days_in_month(y, m),
    ensures
        days_before_year(y) < day_number(y, m, d) <= days_before_year(y) + days_in_year(y),
{
}

/// Distinct valid dates have distinct day numbers.
pub proof fn lemma_dn_injective(a: Date, b: Date)
    requires
        a.wf(),
        b.wf(),
        a.dn() == b.dn(),
    ensures
        a == b,
{
    let ya = a.year as int;
    let yb = b.year as int;
    lemma_in_year(ya, a.month as int, a.day as int);
    lemma_in_year(yb, b.month as int, b.day as int);
    if ya < yb {
        lemma_years_monotone(ya + 1, yb);
        lemma_year_length(ya);
        assert(false);
    } else if yb < ya {
        lemma_years_monotone(yb + 1, ya);
        lemma_year_length(yb);
        assert(false);
    }
    assert(a.month == b.month);
}

/// Day numbers of valid dates stay within a bounded window.
pub proof fn lemma_dn_bounds(a: Date)
    requires
        a.wf(),
    ensures
        -100_000_000 < a.dn() < 100_000_000,
{
    lemma_in_year(a.year as int, a.month as int, a.day as int);
}

/// A date no later than the year 9999 lies more than a week before the last
/// representable date.
pub proof fn lemma_year_window(a: Date)
    requires
        a.wf(),
        a.year <= 9999,
    ensures
        a.dn() + 7 <= max_date().dn(),
{
    let y = a.year as int;
    lemma_in_year(y, a.month as int, a.day as int);
    lemma_year_length(y);
    lemma_years_monotone(y + 1, 262142);
    lemma_in_year(262142, 12, 31);
}

/// The day number of any field values stays within a window that wide integers hold.
pub proof fn lemma_dn_wide_bounds(a: Date)
    ensures
        -1_000_000_000_000 < a.dn() < 10_000_000_000_000,
{
    let p = a.year - 1;
    assert(-2_147_483_649 <= p < 2_147_483_647);
    assert(-600_000_000 <= p / 4 <= 600_000_000);
    assert(-30_000_000 <= p / 100 <= 30_000_000);
    assert(-6_000_000 <= p / 400 <= 6_000_000);
}

/// No valid date comes after the maximum date.
pub proof fn lemma_dn_le_max(a: Date)
    requires
        a.wf(),
    ensures
        a.dn() <= max_date().dn(),
        a.dn() == max_date().dn() ==> a.is_max(),
{
    let y = a.year as int;
    lemma_in_year(y, a.month as int, a.day as int);
    lemma_in_year(MAX_YEAR as int, 12, 31);
    if y < MAX_YEAR {
        lemma_years_monotone(y + 1, MAX_YEAR as int);
        lemma_year_length(y);
    }
    if a.dn() == max_date().dn() {
        lemma_dn_injective(a, max_date());
    }
}

// ---------------------------------------------------------------------------
// Executable operations

impl Date {
    /// The date with the given year, month and day, when it exists.
    pub fn from_ymd_opt(year: i32, month: u32, day: u32) -> (r: Option<Date>)
        ensures
            r is Some <==> valid_ymd(year as int, month as int, day as int),
            r matches Some(d) ==> d.year == year && d.month == month && d.day == day,
    {
        if year < MIN_YEAR || year > MAX_YEAR || month < 1 || month > 12 || day < 1 {
            return None;
        }
        if day > month_length(year, month) {
            return None;
        }
        Some(Date { year, month, day })
    }

    /// The day number (0001-01-01 is day 1).
    pub fn days_from_ce(&self) -> (r: i32)
        requires
            self.wf(),
        ensures
            r == self.dn(),
    {
        proof {
            lemma_dn_bounds(*self);
        }
        let y = self.year as i64;
        // shift by 1000 Gregorian cycles of 400 years so that all divisions see a
        // non-negative value
        let p: u64 = (y - 1 + 400_000) as u64;
        let before_year: i64 = (365 * p + p / 4 - p / 100 + p / 400) as i64 - 146_097 * 1000;
        proof {
            let q = y - 1;
            assert(p as int == q + 400_000);
            assert((q + 400_000) / 4 == q / 4 + 100_000);
            assert((q + 400_000) / 100 == q / 100 + 4_000);
            assert((q + 400_000) / 400 == q / 400 + 1_000);
            assert(before_year == days_before_year(self.year as int));
        }
        let before_month = month_offset(self.year, self.month) as i64;
        (before_year + before_month + self.day as i64) as i32
    }

    /// The day number as a wide integer, for any field values (used as a sort key).
    pub fn dn_wide(&self) -> (r: i128)
        ensures
            r == self.dn(),
    {
        let y = self.year as i128;
        // shift by whole 400-year cycles so that all divisions see a non-negative value
        let p: i128 = y - 1 + 400 * 6_000_000;
        let before_year: i128 = 365 * p + p / 4 - p / 100 + p / 400 - 146_097 * 6_000_000;
        proof {
            let q = y - 1;
            assert(p as int == q + 2_400_000_000);
            assert((q + 2_400_000_000) / 4 == q / 4 + 600_000_000);
            assert((q + 2_400_000_000) / 100 == q / 100 + 24_000_000);
            assert((q + 2_400_000_000) / 400 == q / 400 + 6_000_000);
            assert(before_year == days_before_year(self.year as int));
        }
        let m = self.month;
        let common: i128 = if m <= 1 {
            0
        } else if m == 2 {
            31
        } else if m == 3 {
            59
        } else if m == 4 {
            90
        } else if m == 5 {
            120
        } else if m == 6 {
            151
        } else if m == 7 {
            181
        } else if m == 8 {
            212
        } else if m == 9 {
            243
        } else if m == 10 {
            273
        } else if m == 11 {
            304
        } else {
            334
        };
        let before_month = if is_leap(self.year) && m > 2 {
            common + 1
        } else {
            common
        };
        before_year + before_month + self.day as i128
    }

    /// The next calendar day, or `None` for the last representable date.
    pub fn succ_opt(&self) -> (r: Option<Date>)
        requires
            self.wf(),
        ensures
            r is None <==> self.is_max(),
            r matches Some(n) ==> n.wf() && n.dn() == self.dn() + 1,
    {
        if self.day < month_length(self.year, self.month) {
            Some(Date { year: self.year, month: self.month, day: self.day + 1 })
        } else if self.month < 12 {
            Some(Date { year: self.year, month: self.month + 1, day: 1 })
        } else if self.year < MAX_YEAR {
            proof {
                lemma_year_length(self.year as int);
            }
            Some(Date { year: self.year + 1, month: 1, day: 1 })
        } else {
            None
        }
    }

    /// `self` is not later than `other`.
    pub fn le(&self, other: &Date) -> (r: bool)
        requires
            self.wf(),
            other.wf(),
        ensures
            r == (self.dn() <= other.dn()),
    {
        self.days_from_ce() <= other.days_from_ce()
    }

    /// Whole days from `other` to `self` (negative when `self` is earlier).
    pub fn days_since(&self, other: &Date) -> (r: i64)
        requires
            self.wf(),
            other.wf(),
        ensures
            r == self.dn() - other.dn(),
    {
        self.days_from_ce() as i64 - other.days_from_ce() as i64
    }

    /// The Monday-based week this date lies in (see `week_of`).
    pub fn week_index(&self) -> (r: i64)
        requires
            self.wf(),
        ensures
            r == week_of(self.dn()),
    {
        let n = self.days_from_ce() as i64;
        proof {
            lemma_dn_bounds(*self);
        }
        let shifted: u64 = (n - 1 + 7 * 20_000_000) as u64;
        proof {
            assert((n - 1 + 7 * 20_000_000) / 7 == (n - 1) / 7 + 20_000_000);
        }
        (shifted / 7) as i64 - 20_000_000
    }

    /// Weekday, Monday = 0 .. Sunday = 6.
    pub fn weekday(&self) -> (r: u32)
        requires
            self.wf(),
        ensures
            r == weekday_of(self.dn()),
            r < 7,
    {
        let n = self.days_from_ce() as i64;
        proof {
            lemma_dn_bounds(*self);
        }
        let shifted: u64 = (n - 1 + 7 * 20_000_000) as u64;
        proof {
            assert((n - 1 + 7 * 20_000_000) % 7 == (n - 1) % 7);
        }
        (shifted % 7) as u32
    }

    /// The date `days` days later, when it exists.
    pub fn add_days(&self, days: u32) -> (r: Option<Date>)
        requires
            self.wf(),
        ensures
            r matches Some(n) ==> n.wf() && n.dn() == self.dn() + days,
            r is None ==> self.dn() + days > max_date().dn(),
    {
        let mut cur = *self;
        let mut i: u32 = 0;
        while i < days
            invariant
                cur.wf(),
                i <= days,
                cur.dn() == self.dn() + i,
            decreases days - i,
        {
            match cur.succ_opt() {
                Some(n) => {
                    cur = n;
                },
                None => {
                    return None;
                },
            }
            i = i + 1;
        }
        Some(cur)
    }
}

/// Number of days in the month.
pub fn month_length(year: i32, month: u32) -> (r: u32)
    requires
        1 <= month <= 12,
    ensures
        r == days_in_month(year as int, month as int),
{
    if month == 2 {
        if is_leap(year) {
            29
        } else {
            28
        }
    } else if month == 4 || month == 6 || month == 9 || month == 11 {
        30
    } else {
        31
    }
}

/// Leap year test of the Gregorian calendar.
pub fn is_leap(year: i32) -> (r: bool)
    ensures
        r == is_leap_year(year as int),
{
    // `%` on a negative left operand: shift into the non-negative range first
    let y: u64 = (year as i64 + 400 * 10_000_000) as u64;
    proof {
        vstd::arithmetic::div_mod::lemma_mod_multiples_vanish(1_000_000_000, year as int, 4);
        vstd::arithmetic::div_mod::lemma_mod_multiples_vanish(40_000_000, year as int, 100);
        vstd::arithmetic::div_mod::lemma_mod_multiples_vanish(10_000_000, year as int, 400);
        assert(y as int == 4 * 1_000_000_000 + year);
        assert(y as int == 100 * 40_000_000 + year);
        assert(y as int == 400 * 10_000_000 + year);
    }
    (y % 4 == 0 && y % 100 != 0) || y % 400 == 0
}

fn month_offset(year: i32, month: u32) -> (r: u32)
    requires
        1 <= month <= 12,
    ensures
        r == days_before_month(year as int, month as int),
{
    let common: u32 = if month == 1 {
        0
    } else if month == 2 {
        31
    } else if month == 3 {
        59
    } else if month == 4 {
        90
    } else if month == 5 {
        120
    } else if month == 6 {
        151
    } else if month == 7 {
        181
    } else if month == 8 {
        212
    } else if month == 9 {
        243
    } else if month == 10 {
        273
    } else if month == 11 {
        304
    } else {
        334
    };
    if is_leap(year) && month > 2 {
        common + 1
    } else {
        common
    }
}

impl Time {
    /// The time with the given hour, minute and second, when it exists.
    pub fn from_hms_opt(hour: u32, minute: u32, second: u32) -> (r: Option<Time>)
        ensures
            r is Some <==> valid_hms(hour as int, minute as int, second as int),
            r matches Some(t) ==> t.hour == hour && t.minute == minute && t.second == second,
    {
        if hour < 24 && minute < 60 && second < 60 {
            Some(Time { hour, minute, second })
        } else {
            None
        }
    }

    /// Seconds since midnight.
    pub fn seconds_from_midnight(&self) -> (r: u32)
        requires
            self.wf(),
        ensures
            r == self.secs(),
            r < 86400,
    {
        self.hour * 3600 + self.minute * 60 + self.second
    }
}

// ---------------------------------------------------------------------------
// Parsing through chrono

/// The date with a parsed (year, month, day).
pub open spec fn date_of(t: (int, int, int)) -> Date {
    Date { year: t.0 as i32, month: t.1 as u32, day: t.2 as u32 }
}

/// What `chrono::NaiveDate::parse_from_str(s, fmt)` gives: the year, month and day of
/// the date, or the text of the parse error.
pub uninterp spec fn chrono_parse_date(s: Seq<char>, fmt: Seq<char>) -> Result<(int, int, int), Seq<char>>;

/// What `chrono::NaiveTime::parse_from_str(s, fmt)` gives: hour, minute and second,
/// or the text of the parse error.
pub uninterp spec fn chrono_parse_time(s: Seq<char>, fmt: Seq<char>) -> Result<(int, int, int), Seq<char>>;

/// The value of the ASCII decimal digits `s[lo..hi]`.
pub open spec fn digits_value(s: Seq<char>, lo: int, hi: int) -> int
    decreases hi - lo,
{
    if hi <= lo {
        0
    } else {
        digits_value(s, lo, hi - 1) * 10 + (s[hi - 1] as u32 - '0' as u32)
    }
}

/// `s` is written `YYYY-MM-DD` with ASCII digits: the year, month and day it names.
pub open spec fn ymd_text(s: Seq<char>) -> Option<(int, int, int)> {
    if s.len() == 10 && s[4] == '-' && s[7] == '-' && forall|i: int|
        0 <= i < 10 && i != 4 && i != 7 ==> '0' <= #[trigger] s[i] <= '9' {
        Some((digits_value(s, 0, 4), digits_value(s, 5, 7), digits_value(s, 8, 10)))
    } else {
        None
    }
}

/// Calls `chrono::NaiveDate::parse_from_str`. The contract states that the result is
/// the named outcome for `(s, fmt)` and, as chrono documents for every `NaiveDate`,
/// that a parsed date is a valid calendar date within chrono's year range; and, as
/// chrono's `%Y`, `%m` and `%d` specifiers document, that with the format
/// `%Y-%m-%d` a text `YYYY-MM-DD` of ASCII digits naming a valid date parses as that
/// date. Which other strings chrono accepts is not stated.
#[verifier::external_body]
pub fn parse_date(s: &str, fmt: &str) -> (r: Result<Date, String>)
    ensures
        match r {
            Ok(d) => d.wf() && chrono_parse_date(s@, fmt@) == Ok::<(int, int, int), Seq<char>>(
                (d.year as int, d.month as int, d.day as int),
            ),
            Err(e) => chrono_parse_date(s@, fmt@) == Err::<(int, int, int), Seq<char>>(e@),
        },
        fmt@ == "%Y-%m-%d"@ ==> match ymd_text(s@) {
            Some((y, m, d)) => valid_ymd(y, m, d) ==> (r matches Ok(x) && x.year == y && x.month
                == m && x.day == d),
            None => true,
        },
{
    match chrono::NaiveDate::parse_from_str(s, fmt) {
        Ok(d) => Ok(Date { year: d.year(), month: d.month(), day: d.day() }),
        Err(e) => Err(e.to_string()),
    }
}

/// `s` is written `HH:MM` with ASCII digits: the hour and minute it names.
pub open spec fn hm_text(s: Seq<char>) -> Option<(int, int)> {
    if s.len() == 5 && s[2] == ':' && forall|i: int|
        0 <= i < 5 && i != 2 ==> '0' <= #[trigger] s[i] <= '9' {
        Some((digits_value(s, 0, 2), digits_value(s, 3, 5)))
    } else {
        None
    }
}

/// Calls `chrono::NaiveTime::parse_from_str`. The contract states that the result is
/// the named outcome for `(s, fmt)`; a parsed time has whole seconds for the
/// formats of this crate, so only hour, minute and second are kept; chrono
/// documents hours below 24 and minutes below 60, and the second is below 60 except
/// for a leap second, which chrono reports as second 59 with extra nanoseconds. As
/// chrono's `%H` and `%M` specifiers document (and a missing second counts as 0),
/// with the format `%H:%M` a text `HH:MM` of ASCII digits with an hour below 24 and
/// a minute below 60 parses as that time. Which other strings chrono accepts is not
/// stated.
#[verifier::external_body]
pub fn parse_time(s: &str, fmt: &str) -> (r: Result<Time, String>)
    ensures
        match r {
            Ok(t) => t.wf() && chrono_parse_time(s@, fmt@) == Ok::<(int, int, int), Seq<char>>(
                (t.hour as int, t.minute as int, t.second as int),
            ),
            Err(e) => chrono_parse_time(s@, fmt@) == Err::<(int, int, int), Seq<char>>(e@),
        },
        fmt@ == "%H:%M"@ ==> match hm_text(s@) {
            Some((h, m)) => h < 24 && m < 60 ==> (r matches Ok(t) && t.hour == h && t.minute == m
                && t.second == 0),
            None => true,
        },
{
    match chrono::NaiveTime::parse_from_str(s, fmt) {
        Ok(t) => Ok(Time { hour: t.hour(), minute: t.minute(), second: t.second() }),
        Err(e) => Err(e.to_string()),
    }
}

/// ISO weeks: weekdays run Monday = 0 to Sunday = 6, one step a day, 2026-08-03 is
/// a Monday; two days share a week exactly when they lie in the same
/// Monday-to-Sunday span, so days seven or more apart never share one, the day a week
/// later lies in the next week, and a week ends after its Sunday.
pub proof fn law_iso_weeks(a: int, b: int)
    ensures
        0 <= weekday_of(a) < 7,
        weekday_of(a + 1) == (weekday_of(a) + 1) % 7,
        weekday_of(a + 7) == weekday_of(a),
        weekday_of(day_number(2026, 8, 3)) == 0,
        (week_of(a) == week_of(b)) == (a - weekday_of(a) == b - weekday_of(b)),
        a - b >= 7 || b - a >= 7 ==> week_of(a) != week_of(b),
        week_of(a + 7) == week_of(a) + 1,
        weekday_of(a) == 6 ==> week_of(a + 1) == week_of(a) + 1,
        weekday_of(a) < 6 ==> week_of(a + 1) == week_of(a),
{
    assert(days_before_year(2026) == 739616);
    assert(days_before_month(2026, 8) == 212);
    assert(day_number(2026, 8, 3) == 739831);
    assert(weekday_of(739831) == 0);
}

} // verus!
