//! A plain-value model of calendar dates and times of day.
//!
//! Instants are proleptic-Gregorian calendar dates (year, month, day)
//! paired with a wall-clock time of day (hour, minute, second). The model
//! carries its own arithmetic: day numbering from year 0, weekday
//! computation, and day-by-day stepping. Years are limited to
//! `MAX_YEAR`, mirroring the range of common calendar libraries and
//! keeping every second count comfortably inside `i64`.

use vstd::prelude::*;

verus! {

/// Largest year a `Date` may carry.
pub const MAX_YEAR: i64 = 262_143;

/// A calendar date in the proleptic Gregorian calendar.
#[derive(Clone, Copy, PartialEq, Eq, Structural, Debug)]
pub struct Date {
    pub year: i64,
    pub month: u8,
    pub day: u8,
}

/// A wall-clock time of day with second resolution.
#[derive(Clone, Copy, PartialEq, Eq, Structural, Debug)]
pub struct TimeOfDay {
    pub hour: u8,
    pub minute: u8,
    pub second: u8,
}

/// A date combined with a time of day: one instant of local time.
#[derive(Clone, Copy, PartialEq, Eq, Structural, Debug)]
pub struct DateTime {
    pub date: Date,
    pub time: TimeOfDay,
}

pub open spec fn leap_year(y: int) -> bool {
    y % 4 == 0 && (y % 100 != 0 || y % 400 == 0)
}

pub open spec fn days_in_year(y: int) -> int {
    if leap_year(y) {
        366
    } else {
        365
    }
}

pub open spec fn days_in_month(y: int, m: int) -> int {
    if m == 2 {
        if leap_year(y) {
            29
        } else {
            28
        }
    } else if m == 4 || m == 6 || m == 9 || m == 11 {
        30
    } else {
        31
    }
}

/// Days in all years before `y`, counting from year 0.
pub open spec fn days_before_year(y: int) -> int
    decreases y,
{
    if y <= 0 {
        0
    } else {
        days_before_year(y - 1) + days_in_year(y - 1)
    }
}

/// Days in all months of year `y` before month `m`.
pub open spec fn days_before_month(y: int, m: int) -> int
    decreases m,
{
    if m <= 1 {
        0
    } else {
        days_before_month(y, m - 1) + days_in_month(y, m - 1)
    }
}

/// Zero-based day count from 0000-01-01.
pub open spec fn day_number(d: Date) -> int {
    days_before_year(d.year as int) + days_before_month(d.year as int, d.month as int) + d.day - 1
}

/// Weekday of a date, Monday = 1 through Sunday = 7.
pub open spec fn weekday_of(d: Date) -> int {
    (day_number(d) + 5) % 7 + 1
}

/// The calendar day after `d`.
pub open spec fn next_day(d: Date) -> Date {
    if d.day < days_in_month(d.year as int, d.month as int) {
        Date { year: d.year, month: d.month, day: (d.day + 1) as u8 }
    } else if d.month < 12 {
        Date { year: d.year, month: (d.month + 1) as u8, day: 1 }
    } else {
        Date { year: (d.year + 1) as i64, month: 1, day: 1 }
    }
}

/// The date `n` days after `d`.
pub open spec fn add_days(d: Date, n: nat) -> Date
    decreases n,
{
    if n == 0 {
        d
    } else {
        next_day(add_days(d, (n - 1) as nat))
    }
}

impl Date {
    /// The fields form a real calendar date with a non-negative year.
    pub open spec fn fields_ok(self) -> bool {
        0 <= self.year && 1 <= self.month <= 12 && 1 <= self.day <= days_in_month(
            self.year as int,
            self.month as int,
        )
    }

    /// A real calendar date within the representable year range.
    pub open spec fn wf(self) -> bool {
        self.fields_ok() && self.year <= MAX_YEAR
    }
}

impl TimeOfDay {
    pub open spec fn wf(self) -> bool {
        self.hour <= 23 && self.minute <= 59 && self.second <= 59
    }

    /// Seconds since midnight.
    pub open spec fn seconds(self) -> int {
        self.hour * 3600 + self.minute * 60 + self.second
    }
}

impl DateTime {
    pub open spec fn wf(self) -> bool {
        self.date.wf() && self.time.wf()
    }

    /// Seconds since 0000-01-01 00:00:00; the total order on instants.
    pub open spec fn as_seconds(self) -> int {
        day_number(self.date) * 86400 + self.time.seconds()
    }
}

pub fn is_leap_year(y: i64) -> (r: bool)
    requires
        0 <= y,
    ensures
        r == leap_year(y as int),
{
    y % 4 == 0 && (y % 100 != 0 || y % 400 == 0)
}

/// Number of days in month `m` of year `y`.
pub fn month_length(y: i64, m: u8) -> (r: u8)
    requires
        0 <= y,
        1 <= m <= 12,
    ensures
        r == days_in_month(y as int, m as int),
{
    if m == 2 {
        if is_leap_year(y) {
            29
        } else {
            28
        }
    } else if m == 4 || m == 6 || m == 9 || m == 11 {
        30
    } else {
        31
    }
}

proof fn lemma_days_before_month_mono(y: int, a: int, b: int)
    requires
        1 <= a <= b <= 13,
    ensures
        days_before_month(y, a) <= days_before_month(y, b),
    decreases b,
{
    if b > a {
        lemma_days_before_month_mono(y, a, b - 1);
        assert(days_before_month(y, b) == days_before_month(y, b - 1) + days_in_month(y, b - 1));
    }
}

proof fn lemma_days_before_month_nonneg(y: int, m: int)
    requires
        1 <= m <= 13,
    ensures
        0 <= days_before_month(y, m),
{
    lemma_days_before_month_mono(y, 1, m);
}

/// The months of a year sum to its length.
proof fn lemma_year_month_sum(y: int)
    ensures
        days_before_month(y, 13) == days_in_year(y),
{
    reveal_with_fuel(days_before_month, 14);
}

/// Stepping a date by one day raises its day number by exactly one.
pub proof fn lemma_day_number_next_day(d: Date)
    requires
        d.fields_ok(),
        d.year < i64::MAX,
    ensures
        next_day(d).fields_ok(),
        day_number(next_day(d)) == day_number(d) + 1,
        d.year <= next_day(d).year <= d.year + 1,
{
    let y = d.year as int;
    let m = d.month as int;
    if d.day < days_in_month(y, m) {
    } else if d.month < 12 {
        assert(days_before_month(y, m + 1) == days_before_month(y, m) + days_in_month(y, m));
    } else {
        lemma_year_month_sum(y);
        assert(days_before_month(y, 13) == days_before_month(y, 12) + days_in_month(y, 12));
        assert(days_before_year(y + 1) == days_before_year(y) + days_in_year(y));
        assert(days_before_month(y + 1, 1) == 0);
    }
}

/// A date's day number sits between the day numbers of its year's bounds.
pub proof fn lemma_day_number_in_year(d: Date)
    requires
        d.fields_ok(),
    ensures
        days_before_year(d.year as int) <= day_number(d),
        day_number(d) <= days_before_year(d.year as int) + days_in_year(d.year as int) - 1,
{
    let y = d.year as int;
    let m = d.month as int;
    lemma_days_before_month_nonneg(y, m);
    lemma_days_before_month_mono(y, m + 1, 13);
    lemma_year_month_sum(y);
    assert(days_before_month(y, m + 1) == days_before_month(y, m) + days_in_month(y, m));
}

/// Every year contributes at least 365 days to the day count.
pub proof fn lemma_days_before_year_lower(y: int)
    requires
        0 <= y,
    ensures
        days_before_year(y) >= 365 * y,
    decreases y,
{
    if y > 0 {
        lemma_days_before_year_lower(y - 1);
    }
}

/// Every year contributes at most 366 days to the day count.
pub proof fn lemma_days_before_year_upper(y: int)
    requires
        0 <= y,
    ensures
        days_before_year(y) <= 366 * y,
    decreases y,
{
    if y > 0 {
        lemma_days_before_year_upper(y - 1);
    }
}

proof fn lemma_days_before_year_add(y: int, n: int)
    requires
        0 <= y,
        0 <= n,
    ensures
        days_before_year(y + n) >= days_before_year(y) + 365 * n,
    decreases n,
{
    if n > 0 {
        lemma_days_before_year_add(y, n - 1);
    }
}

/// Adding days preserves date validity and advances the day number in step.
pub proof fn lemma_add_days(d: Date, n: nat)
    requires
        d.fields_ok(),
        d.year + n <= i64::MAX,
    ensures
        add_days(d, n).fields_ok(),
        day_number(add_days(d, n)) == day_number(d) + n,
        d.year <= add_days(d, n).year <= d.year + n,
    decreases n,
{
    if n > 0 {
        lemma_add_days(d, (n - 1) as nat);
        lemma_day_number_next_day(add_days(d, (n - 1) as nat));
    }
}

/// A bounded number of day steps cannot raise the year by more than `k`
/// whenever `k` whole years cover the stepped days.
pub proof fn lemma_add_days_year_bound(d: Date, n: nat, k: int)
    requires
        d.fields_ok(),
        0 <= k,
        365 * k >= 366 + n,
        d.year + n <= i64::MAX,
    ensures
        add_days(d, n).year <= d.year + k,
{
    let e = add_days(d, n);
    lemma_add_days(d, n);
    if e.year > d.year + k {
        lemma_day_number_in_year(d);
        lemma_day_number_in_year(e);
        lemma_days_before_year_add(d.year as int, e.year - d.year);
        assert(365 * (e.year - d.year) >= 365 * (k + 1)) by (nonlinear_arith)
            requires
                e.year - d.year >= k + 1,
        ;
        assert(false);
    }
}

/// A year past the limit pushes the day number past what a bounded
/// second count allows.
pub proof fn lemma_year_within(d: Date)
    requires
        d.fields_ok(),
        day_number(d) <= 365 * (MAX_YEAR as int),
    ensures
        d.year <= MAX_YEAR,
{
    if d.year > MAX_YEAR {
        lemma_day_number_in_year(d);
        lemma_days_before_year_lower(d.year as int);
        assert(365 * (d.year as int) >= 365 * (MAX_YEAR as int + 1)) by (nonlinear_arith)
            requires
                d.year as int >= MAX_YEAR as int + 1,
        ;
        assert(false);
    }
}

/// Day numbering is strictly monotone in the lexicographic date order.
proof fn lemma_day_number_mono(d1: Date, d2: Date)
    requires
        d1.fields_ok(),
        d2.fields_ok(),
        (d1.year, d1.month, d1.day) != (d2.year, d2.month, d2.day),
        d1.year < d2.year || (d1.year == d2.year && (d1.month < d2.month || (d1.month == d2.month
            && d1.day < d2.day))),
    ensures
        day_number(d1) < day_number(d2),
{
    let y1 = d1.year as int;
    let y2 = d2.year as int;
    lemma_day_number_in_year(d1);
    lemma_day_number_in_year(d2);
    if y1 < y2 {
        assert(days_before_year(y1 + 1) == days_before_year(y1) + days_in_year(y1));
        lemma_days_before_year_add(y1 + 1, y2 - (y1 + 1));
    } else if d1.month < d2.month {
        assert(days_before_month(y1, d1.month + 1) == days_before_month(y1, d1.month as int)
            + days_in_month(y1, d1.month as int));
        lemma_days_before_month_mono(y1, d1.month + 1, d2.month as int);
    }
}

/// Two real dates with the same day number are the same date.
pub proof fn lemma_day_number_injective(d1: Date, d2: Date)
    requires
        d1.fields_ok(),
        d2.fields_ok(),
        day_number(d1) == day_number(d2),
    ensures
        d1 == d2,
{
    if (d1.year, d1.month, d1.day) != (d2.year, d2.month, d2.day) {
        if d1.year < d2.year || (d1.year == d2.year && (d1.month < d2.month || (d1.month
            == d2.month && d1.day < d2.day))) {
            lemma_day_number_mono(d1, d2);
        } else {
            lemma_day_number_mono(d2, d1);
        }
    }
}

/// Two well-formed instants with the same second count are the same
/// instant.
pub proof fn lemma_as_seconds_injective(a: DateTime, b: DateTime)
    requires
        a.wf(),
        b.wf(),
        a.as_seconds() == b.as_seconds(),
    ensures
        a == b,
{
    let da = day_number(a.date);
    let db = day_number(b.date);
    let ta = a.time.seconds();
    let tb = b.time.seconds();
    assert(0 <= ta < 86400);
    assert(0 <= tb < 86400);
    assert(da * 86400 + ta == db * 86400 + tb);
    if da < db {
        assert(da * 86400 + 86400 <= db * 86400) by (nonlinear_arith)
            requires
                da + 1 <= db,
        ;
        assert(false);
    }
    if db < da {
        assert(db * 86400 + 86400 <= da * 86400) by (nonlinear_arith)
            requires
                db + 1 <= da,
        ;
        assert(false);
    }
    lemma_day_number_injective(a.date, b.date);
    assert(ta == tb);
    assert(a.time.hour == b.time.hour && a.time.minute == b.time.minute && a.time.second
        == b.time.second);
}

/// Zero-based day count of `d` from 0000-01-01.
pub fn date_day_number(d: &Date) -> (r: i64)
    requires
        d.wf(),
    ensures
        r == day_number(*d),
        0 <= r <= 366 * (d.year as int) + 366,
{
    let mut acc: i64 = 0;
    let mut y: i64 = 0;
    while y < d.year
        invariant
            0 <= y <= d.year <= MAX_YEAR,
            acc == days_before_year(y as int),
            0 <= acc <= 366 * y,
        decreases d.year - y,
    {
        acc += if is_leap_year(y) {
            366
        } else {
            365
        };
        y += 1;
    }
    let mut m: u8 = 1;
    let mut macc: i64 = 0;
    while m < d.month
        invariant
            d.wf(),
            1 <= m <= d.month,
            macc == days_before_month(d.year as int, m as int),
            0 <= macc <= 31 * m,
        decreases d.month - m,
    {
        macc += month_length(d.year, m) as i64;
        m += 1;
    }
    proof {
        lemma_day_number_in_year(*d);
        lemma_days_before_year_upper(d.year as int);
    }
    acc + macc + (d.day as i64) - 1
}

/// Weekday of `d`, Monday = 1 through Sunday = 7.
pub fn date_weekday(d: &Date) -> (r: u8)
    requires
        d.wf(),
    ensures
        r == weekday_of(*d),
        1 <= r <= 7,
{
    let dn = date_day_number(d);
    ((dn + 5) % 7 + 1) as u8
}

/// The calendar day after `d`.
pub fn date_next_day(d: &Date) -> (r: Date)
    requires
        d.wf(),
    ensures
        r == next_day(*d),
        r.fields_ok(),
        day_number(r) == day_number(*d) + 1,
        d.year <= r.year <= d.year + 1,
{
    proof {
        lemma_day_number_next_day(*d);
    }
    if d.day < month_length(d.year, d.month) {
        Date { year: d.year, month: d.month, day: d.day + 1 }
    } else if d.month < 12 {
        Date { year: d.year, month: d.month + 1, day: 1 }
    } else {
        Date { year: d.year + 1, month: 1, day: 1 }
    }
}

/// Builds the time of day `s` seconds after midnight.
pub fn time_from_seconds(s: i64) -> (r: TimeOfDay)
    requires
        0 <= s < 86400,
    ensures
        r.wf(),
        r.seconds() == s,
{
    let h = s / 3600;
    let rest = s % 3600;
    let m = rest / 60;
    let sec = rest % 60;
    proof {
        vstd::arithmetic::div_mod::lemma_fundamental_div_mod(s as int, 3600);
        vstd::arithmetic::div_mod::lemma_fundamental_div_mod(rest as int, 60);
    }
    TimeOfDay { hour: h as u8, minute: m as u8, second: sec as u8 }
}

impl TimeOfDay {
    /// Seconds since midnight.
    pub fn to_seconds(&self) -> (r: i64)
        requires
            self.wf(),
        ensures
            r == self.seconds(),
            0 <= r < 86400,
    {
        (self.hour as i64) * 3600 + (self.minute as i64) * 60 + (self.second as i64)
    }
}

impl DateTime {
    /// Seconds since 0000-01-01 00:00:00.
    pub fn to_seconds(&self) -> (r: i64)
        requires
            self.wf(),
        ensures
            r == self.as_seconds(),
            0 <= r,
    {
        proof {
            lemma_day_number_in_year(self.date);
            lemma_days_before_year_upper(self.date.year as int);
        }
        let dn = date_day_number(&self.date);
        dn * 86400 + self.time.to_seconds()
    }
}

/// Validates the given fields and assembles an instant from them.
pub fn datetime_from_parts(year: i64, month: u8, day: u8, hour: u8, minute: u8, second: u8) -> (r:
    Option<DateTime>)
    ensures
        match r {
            Some(dt) => {
                &&& dt.wf()
                &&& dt.date == (Date { year, month, day })
                &&& dt.time == (TimeOfDay { hour, minute, second })
            },
            None => !(Date { year, month, day }).wf() || !(TimeOfDay {
                hour,
                minute,
                second,
            }).wf(),
        },
{
    if year < 0 || year > MAX_YEAR || month < 1 || month > 12 {
        return None;
    }
    if day < 1 || day > month_length(year, month) {
        return None;
    }
    if hour > 23 || minute > 59 || second > 59 {
        return None;
    }
    Some(
        DateTime {
            date: Date { year, month, day },
            time: TimeOfDay { hour, minute, second },
        },
    )
}

/// Relies on chrono's `Local::now` and its `Datelike`/`Timelike`
/// accessors: the wall clock's local calendar fields, with month in
/// 1..=12, day of month in 1..=31, hour in 0..=23, minute and second in
/// 0..=59, as chrono documents them. The year carries no promise.
#[verifier::external_body]
fn clock_now_parts() -> (r: (i64, u8, u8, u8, u8, u8))
    ensures
        1 <= r.1 <= 12,
        1 <= r.2 <= 31,
        r.3 <= 23,
        r.4 <= 59,
        r.5 <= 59,
{
    let now = chrono::Local::now().naive_local();
    (
        chrono::Datelike::year(&now) as i64,
        chrono::Datelike::month(&now) as u8,
        chrono::Datelike::day(&now) as u8,
        chrono::Timelike::hour(&now) as u8,
        chrono::Timelike::minute(&now) as u8,
        chrono::Timelike::second(&now) as u8,
    )
}

/// The current local wall-clock instant, or nothing if the clock reads
/// outside the representable range.
pub fn current_datetime() -> (r: Option<DateTime>)
    ensures
        match r {
            Some(dt) => dt.wf(),
            None => true,
        },
{
    let (year, month, day, hour, minute, second) = clock_now_parts();
    datetime_from_parts(year, month, day, hour, minute, second)
}

} // verus!
