//! Timing rules and the search for their next occurrence.
//!
//! A rule is either a calendar pattern (*On*: field sets for second,
//! minute, hour, weekday, day of month and month), a fixed period
//! (*Every*), or a fixed delay (*After*). `next_run` computes the first
//! instant after a reference instant at which the rule fires; for *On*
//! rules the search is the two-phase scan: pick the first time of day,
//! then scan forward day by day within a bounded lookahead horizon.

use vstd::prelude::*;

use crate::datetime::{
    add_days, day_number, lemma_add_days_year_bound, lemma_day_number_in_year,
    lemma_days_before_year_lower, next_day, weekday_of, date_next_day, date_weekday,
    time_from_seconds, Date, DateTime, TimeOfDay, MAX_YEAR,
};

verus! {

/// How many days ahead the calendar scan looks before giving up.
pub const LOOKAHEAD_DAYS: u32 = 366 * 4 * 7;

/// A timing rule: when a task becomes due, and due again.
#[derive(Debug, Clone)]
pub enum Time {
    /// Fires when every field of the current instant lies in the
    /// corresponding set; an empty weekday, day or month set is a
    /// wildcard and matches anything. Weekdays are Monday = 1 through
    /// Sunday = 7.
    On {
        second: Vec<u8>,
        minute: Vec<u8>,
        hour: Vec<u8>,
        weekday: Vec<u8>,
        day: Vec<u8>,
        month: Vec<u8>,
    },
    /// Fires the given number of seconds after the instant the previous
    /// run was scheduled for.
    Every { seconds: i64 },
    /// Fires the given number of seconds after the previous run finished.
    After { seconds: i64 },
}

/// The calendar search found no matching date within the horizon.
#[derive(Debug, Clone, Copy, PartialEq, Eq, Structural)]
pub enum ScheduleError {
    NoOccurrenceFound,
}

/// Why a rule could not be built.
#[derive(Debug, Clone, Copy, PartialEq, Eq, Structural)]
pub enum RuleError {
    /// An *On* rule needs at least one field to be given.
    NoFieldSet,
    /// A given field held no values at all.
    EmptyField,
    /// A given field held a value outside its valid range.
    ValueOutOfRange,
    /// An *Every* or *After* interval was shorter than one second.
    IntervalTooShort,
}

/// A strictly increasing sequence of values drawn from `lo..=hi`.
pub open spec fn sorted_set(s: Seq<u8>, lo: u8, hi: u8) -> bool {
    &&& forall|i: int| 0 <= i < s.len() ==> lo <= #[trigger] s[i] <= hi
    &&& forall|i: int, j: int| 0 <= i < j < s.len() ==> s[i] < s[j]
}

impl Time {
    pub open spec fn wf(self) -> bool {
        match self {
            Time::On { second, minute, hour, weekday, day, month } => {
                &&& sorted_set(second@, 0, 59) && second@.len() > 0
                &&& sorted_set(minute@, 0, 59) && minute@.len() > 0
                &&& sorted_set(hour@, 0, 23) && hour@.len() > 0
                &&& sorted_set(weekday@, 1, 7)
                &&& sorted_set(day@, 1, 31)
                &&& sorted_set(month@, 1, 12)
            },
            Time::Every { seconds } => seconds >= 1,
            Time::After { seconds } => seconds >= 1,
        }
    }
}

/// Every field of `t` lies in the corresponding set.
pub open spec fn tod_in_sets(t: TimeOfDay, hour: Seq<u8>, minute: Seq<u8>, second: Seq<u8>) -> bool {
    hour.contains(t.hour) && minute.contains(t.minute) && second.contains(t.second)
}

/// Some admissible time of day lies strictly after `now`.
pub open spec fn has_tod_after(now: TimeOfDay, hour: Seq<u8>, minute: Seq<u8>, second: Seq<u8>) -> bool {
    exists|u: TimeOfDay| #[trigger] tod_in_sets(u, hour, minute, second) && u.seconds() > now.seconds()
}

/// `t` is the earliest admissible time of day strictly after `now`.
pub open spec fn is_first_tod_after(
    t: TimeOfDay,
    now: TimeOfDay,
    hour: Seq<u8>,
    minute: Seq<u8>,
    second: Seq<u8>,
) -> bool {
    &&& tod_in_sets(t, hour, minute, second)
    &&& t.seconds() > now.seconds()
    &&& forall|u: TimeOfDay|
        #[trigger] tod_in_sets(u, hour, minute, second) && u.seconds() > now.seconds()
            ==> t.seconds() <= u.seconds()
}

/// `t` is the earliest admissible time of day overall.
pub open spec fn is_min_tod(t: TimeOfDay, hour: Seq<u8>, minute: Seq<u8>, second: Seq<u8>) -> bool {
    &&& tod_in_sets(t, hour, minute, second)
    &&& forall|u: TimeOfDay| #[trigger] tod_in_sets(u, hour, minute, second) ==> t.seconds() <= u.seconds()
}

/// The date's weekday, day and month lie in their sets, empty sets
/// matching anything.
pub open spec fn date_matches(d: Date, weekday: Seq<u8>, day: Seq<u8>, month: Seq<u8>) -> bool {
    &&& weekday.len() == 0 || weekday.contains(weekday_of(d) as u8)
    &&& day.len() == 0 || day.contains(d.day)
    &&& month.len() == 0 || month.contains(d.month)
}

proof fn lemma_member_bounds(s: Seq<u8>, lo: u8, hi: u8, x: u8)
    requires
        sorted_set(s, lo, hi),
        s.contains(x),
    ensures
        lo <= x <= hi,
{
    let i = choose|i: int| 0 <= i < s.len() && s[i] == x;
    assert(lo <= s[i] <= hi);
}

proof fn lemma_first_is_min(s: Seq<u8>, lo: u8, hi: u8, x: u8)
    requires
        sorted_set(s, lo, hi),
        s.contains(x),
        s.len() > 0,
    ensures
        s[0] <= x,
{
    let i = choose|i: int| 0 <= i < s.len() && s[i] == x;
    if i > 0 {
        assert(s[0] < s[i]);
    }
}

/// Members of well-formed field sets are valid clock fields.
proof fn lemma_tod_member_wf(u: TimeOfDay, hour: Seq<u8>, minute: Seq<u8>, second: Seq<u8>)
    requires
        sorted_set(hour, 0, 23),
        sorted_set(minute, 0, 59),
        sorted_set(second, 0, 59),
        tod_in_sets(u, hour, minute, second),
    ensures
        u.wf(),
{
    lemma_member_bounds(hour, 0, 23, u.hour);
    lemma_member_bounds(minute, 0, 59, u.minute);
    lemma_member_bounds(second, 0, 59, u.second);
}

fn contains_val(v: &Vec<u8>, x: u8) -> (r: bool)
    ensures
        r == v@.contains(x),
{
    let mut i: usize = 0;
    while i < v.len()
        invariant
            0 <= i <= v@.len(),
            forall|j: int| 0 <= j < i ==> v@[j] != x,
        decreases v@.len() - i,
    {
        if v[i] == x {
            return true;
        }
        i += 1;
    }
    false
}

/// The least element of a sorted `v` strictly greater than `x`, if any.
fn first_gt(v: &Vec<u8>, x: u8) -> (r: Option<u8>)
    requires
        forall|i: int, j: int| 0 <= i < j < v@.len() ==> v@[i] < v@[j],
    ensures
        match r {
            Some(y) => v@.contains(y) && y > x && forall|z: u8|
                v@.contains(z) && z > x ==> y <= z,
            None => forall|z: u8| v@.contains(z) ==> z <= x,
        },
{
    let mut i: usize = 0;
    while i < v.len()
        invariant
            0 <= i <= v@.len(),
            forall|i2: int, j2: int| 0 <= i2 < j2 < v@.len() ==> v@[i2] < v@[j2],
            forall|j: int| 0 <= j < i ==> v@[j] <= x,
        decreases v@.len() - i,
    {
        if v[i] > x {
            let y = v[i];
            assert(v@.contains(y));
            assert forall|z: u8| v@.contains(z) && z > x implies y <= z by {
                let k = choose|k: int| 0 <= k < v@.len() && v@[k] == z;
                if k < i as int {
                    assert(v@[k] <= x);
                } else if k > i as int {
                    assert(v@[i as int] < v@[k]);
                }
            }
            return Some(y);
        }
        i += 1;
    }
    assert forall|z: u8| v@.contains(z) implies z <= x by {
        let k = choose|k: int| 0 <= k < v@.len() && v@[k] == z;
    }
    None
}

/// Time-of-day phase: the earliest admissible time of day strictly after
/// `now`, or nothing when every admissible time of day has already passed.
fn first_time_after(now: &TimeOfDay, hour: &Vec<u8>, minute: &Vec<u8>, second: &Vec<u8>) -> (r:
    Option<TimeOfDay>)
    requires
        now.wf(),
        sorted_set(hour@, 0, 23),
        hour@.len() > 0,
        sorted_set(minute@, 0, 59),
        minute@.len() > 0,
        sorted_set(second@, 0, 59),
        second@.len() > 0,
    ensures
        match r {
            Some(t) => t.wf() && is_first_tod_after(t, *now, hour@, minute@, second@),
            None => !has_tod_after(*now, hour@, minute@, second@),
        },
{
    let hour_now = contains_val(hour, now.hour);
    let minute_now = if hour_now {
        contains_val(minute, now.minute)
    } else {
        false
    };
    if hour_now {
        if minute_now {
            if let Some(s) = first_gt(second, now.second) {
                let t = TimeOfDay { hour: now.hour, minute: now.minute, second: s };
                proof {
                    lemma_member_bounds(second@, 0, 59, s);
                    assert forall|u: TimeOfDay|
                        #[trigger] tod_in_sets(u, hour@, minute@, second@) && u.seconds()
                            > now.seconds() implies t.seconds() <= u.seconds() by {
                        lemma_tod_member_wf(u, hour@, minute@, second@);
                    }
                }
                return Some(t);
            }
        }
        if let Some(m) = first_gt(minute, now.minute) {
            let t = TimeOfDay { hour: now.hour, minute: m, second: second[0] };
            proof {
                lemma_member_bounds(minute@, 0, 59, m);
                lemma_member_bounds(second@, 0, 59, second@[0]);
                assert(second@.contains(second@[0]));
                assert forall|u: TimeOfDay|
                    #[trigger] tod_in_sets(u, hour@, minute@, second@) && u.seconds()
                        > now.seconds() implies t.seconds() <= u.seconds() by {
                    lemma_tod_member_wf(u, hour@, minute@, second@);
                    if u.hour == now.hour && u.minute == now.minute {
                        // every admissible second in this minute has passed
                        assert(u.second <= now.second);
                    } else if u.hour == now.hour && u.minute > now.minute {
                        if u.minute == m {
                            lemma_first_is_min(second@, 0, 59, u.second);
                        }
                    }
                }
            }
            return Some(t);
        }
    }
    if let Some(h) = first_gt(hour, now.hour) {
        let t = TimeOfDay { hour: h, minute: minute[0], second: second[0] };
        proof {
            lemma_member_bounds(hour@, 0, 23, h);
            lemma_member_bounds(minute@, 0, 59, minute@[0]);
            lemma_member_bounds(second@, 0, 59, second@[0]);
            assert(minute@.contains(minute@[0]));
            assert(second@.contains(second@[0]));
            assert forall|u: TimeOfDay|
                #[trigger] tod_in_sets(u, hour@, minute@, second@) && u.seconds() > now.seconds()
                implies t.seconds() <= u.seconds() by {
                lemma_tod_member_wf(u, hour@, minute@, second@);
                if u.hour == now.hour {
                    if u.minute == now.minute {
                        assert(u.second <= now.second);
                    } else if u.minute > now.minute {
                        assert(false);
                    }
                } else if u.hour > now.hour {
                    if u.hour == h {
                        lemma_first_is_min(minute@, 0, 59, u.minute);
                        if u.minute == minute@[0] {
                            lemma_first_is_min(second@, 0, 59, u.second);
                        }
                    }
                }
            }
        }
        return Some(t);
    }
    proof {
        assert forall|u: TimeOfDay| #[trigger] tod_in_sets(u, hour@, minute@, second@)
            implies u.seconds() <= now.seconds() by {
            lemma_tod_member_wf(u, hour@, minute@, second@);
            if u.hour == now.hour {
                if u.minute == now.minute {
                    assert(u.second <= now.second);
                } else if u.minute > now.minute {
                    assert(false);
                }
            } else if u.hour > now.hour {
                assert(false);
            }
        }
    }
    None
}

/// Stepping one day forward advances the weekday cyclically.
proof fn lemma_weekday_next(d: Date)
    requires
        d.fields_ok(),
        d.year < i64::MAX,
    ensures
        weekday_of(next_day(d)) == if weekday_of(d) == 7 {
            1int
        } else {
            weekday_of(d) + 1
        },
{
    crate::datetime::lemma_day_number_next_day(d);
    let x = day_number(d) + 5;
    vstd::arithmetic::div_mod::lemma_add_mod_noop(x, 1, 7);
    vstd::arithmetic::div_mod::lemma_mod_bound(x, 7);
    vstd::arithmetic::div_mod::lemma_mod_bound(x + 1, 7);
    if x % 7 == 6 {
        vstd::arithmetic::div_mod::lemma_mod_self_0(7);
    } else {
        vstd::arithmetic::div_mod::lemma_small_mod((x % 7 + 1) as nat, 7);
    }
    vstd::arithmetic::div_mod::lemma_small_mod(1nat, 7nat);
}

/// The date the scan starts from: today while an admissible time of day
/// is still ahead, otherwise tomorrow.
pub open spec fn start_date_for(now: DateTime, hour: Seq<u8>, minute: Seq<u8>, second: Seq<u8>) -> Date {
    if has_tod_after(now.time, hour, minute, second) {
        now.date
    } else {
        next_day(now.date)
    }
}

/// No date within the lookahead horizon of `start` matches the sets.
pub open spec fn no_matching_date(start: Date, weekday: Seq<u8>, day: Seq<u8>, month: Seq<u8>) -> bool {
    forall|j: int|
        0 <= j < LOOKAHEAD_DAYS ==> !date_matches(
            #[trigger] add_days(start, j as nat),
            weekday,
            day,
            month,
        )
}

/// What a successful two-phase search returns: the selected time of day
/// paired with the first matching date at or after the start date.
pub open spec fn on_result(
    now: DateTime,
    v: DateTime,
    second: Seq<u8>,
    minute: Seq<u8>,
    hour: Seq<u8>,
    weekday: Seq<u8>,
    day: Seq<u8>,
    month: Seq<u8>,
) -> bool {
    let start = start_date_for(now, hour, minute, second);
    &&& if has_tod_after(now.time, hour, minute, second) {
        is_first_tod_after(v.time, now.time, hour, minute, second)
    } else {
        is_min_tod(v.time, hour, minute, second)
    }
    &&& exists|k: int|
        {
            &&& 0 <= k < LOOKAHEAD_DAYS
            &&& v.date == #[trigger] add_days(start, k as nat)
            &&& date_matches(v.date, weekday, day, month)
            &&& forall|j: int|
                0 <= j < k ==> !date_matches(#[trigger] add_days(start, j as nat), weekday, day, month)
        }
}

/// Two-phase linear search for the next instant matching the field sets.
///
/// Phase one picks the earliest admissible time of day strictly after
/// `now`'s, or the earliest overall while moving the start to tomorrow.
/// Phase two scans forward day by day, within `LOOKAHEAD_DAYS`, for a
/// date whose weekday, day and month all match.
pub fn find_next_datetime(
    now: &DateTime,
    second: &Vec<u8>,
    minute: &Vec<u8>,
    hour: &Vec<u8>,
    weekday: &Vec<u8>,
    day: &Vec<u8>,
    month: &Vec<u8>,
) -> (r: Result<DateTime, ScheduleError>)
    requires
        now.wf(),
        now.date.year + 31 <= MAX_YEAR,
        sorted_set(second@, 0, 59),
        second@.len() > 0,
        sorted_set(minute@, 0, 59),
        minute@.len() > 0,
        sorted_set(hour@, 0, 23),
        hour@.len() > 0,
        sorted_set(weekday@, 1, 7),
        sorted_set(day@, 1, 31),
        sorted_set(month@, 1, 12),
    ensures
        match r {
            Ok(v) => {
                &&& v.wf()
                &&& v.as_seconds() > now.as_seconds()
                &&& on_result(*now, v, second@, minute@, hour@, weekday@, day@, month@)
            },
            Err(e) => {
                &&& e == ScheduleError::NoOccurrenceFound
                &&& no_matching_date(
                    start_date_for(*now, hour@, minute@, second@),
                    weekday@,
                    day@,
                    month@,
                )
            },
        },
{
    let ghost start_spec = start_date_for(*now, hour@, minute@, second@);
    let (time, start): (TimeOfDay, Date) = match first_time_after(&now.time, hour, minute, second) {
        Some(t) => (t, now.date),
        None => {
            let t = TimeOfDay { hour: hour[0], minute: minute[0], second: second[0] };
            proof {
                lemma_member_bounds(hour@, 0, 23, hour@[0]);
                lemma_member_bounds(minute@, 0, 59, minute@[0]);
                lemma_member_bounds(second@, 0, 59, second@[0]);
                assert(hour@.contains(hour@[0]));
                assert(minute@.contains(minute@[0]));
                assert(second@.contains(second@[0]));
                assert forall|u: TimeOfDay| #[trigger] tod_in_sets(u, hour@, minute@, second@)
                    implies t.seconds() <= u.seconds() by {
                    lemma_tod_member_wf(u, hour@, minute@, second@);
                    lemma_first_is_min(hour@, 0, 23, u.hour);
                    if u.hour == hour@[0] {
                        lemma_first_is_min(minute@, 0, 59, u.minute);
                        if u.minute == minute@[0] {
                            lemma_first_is_min(second@, 0, 59, u.second);
                        }
                    }
                }
            }
            (t, date_next_day(&now.date))
        },
    };
    let ghost picked_after = has_tod_after(now.time, hour@, minute@, second@);
    proof {
        assert(start == start_spec);
        assert(day_number(start) >= day_number(now.date));
        if picked_after {
            assert(time.seconds() > now.time.seconds());
        } else {
            assert(day_number(start) == day_number(now.date) + 1);
        }
    }
    let mut cur = start;
    let mut wd = date_weekday(&cur);
    let mut i: u32 = 0;
    while i < LOOKAHEAD_DAYS
        invariant
            now.wf(),
            now.date.year + 31 <= MAX_YEAR,
            sorted_set(weekday@, 1, 7),
            sorted_set(day@, 1, 31),
            sorted_set(month@, 1, 12),
            start.fields_ok(),
            now.date.year <= start.year <= now.date.year + 1,
            day_number(start) >= day_number(now.date),
            start == start_date_for(*now, hour@, minute@, second@),
            time.wf(),
            picked_after == has_tod_after(now.time, hour@, minute@, second@),
            if picked_after {
                is_first_tod_after(time, now.time, hour@, minute@, second@)
            } else {
                is_min_tod(time, hour@, minute@, second@)
            },
            !picked_after ==> day_number(start) == day_number(now.date) + 1,
            0 <= i <= LOOKAHEAD_DAYS,
            cur == add_days(start, i as nat),
            cur.fields_ok(),
            start.year <= cur.year <= start.year + 30,
            day_number(cur) == day_number(start) + i,
            wd == weekday_of(cur),
            1 <= wd <= 7,
            forall|j: int|
                0 <= j < i ==> !date_matches(#[trigger] add_days(start, j as nat), weekday@, day@, month@),
        decreases LOOKAHEAD_DAYS - i,
    {
        let wd_ok = weekday.len() == 0 || contains_val(weekday, wd);
        let d_ok = day.len() == 0 || contains_val(day, cur.day);
        let m_ok = month.len() == 0 || contains_val(month, cur.month);
        if wd_ok && d_ok && m_ok {
            let v = DateTime { date: cur, time };
            proof {
                assert(date_matches(cur, weekday@, day@, month@));
                let kw: int = i as int;
                assert(v.date == add_days(start, kw as nat));
                assert(forall|j: int|
                    0 <= j < kw ==> !date_matches(
                        #[trigger] add_days(start, j as nat),
                        weekday@,
                        day@,
                        month@,
                    ));
                assert(on_result(*now, v, second@, minute@, hour@, weekday@, day@, month@));
                if picked_after {
                    if day_number(cur) == day_number(now.date) {
                        assert(v.as_seconds() > now.as_seconds());
                    } else {
                        assert(day_number(cur) >= day_number(now.date) + 1);
                        assert(now.time.seconds() < 86400);
                        assert(v.as_seconds() > now.as_seconds());
                    }
                } else {
                    assert(day_number(cur) >= day_number(now.date) + 1);
                    assert(v.as_seconds() > now.as_seconds());
                }
            }
            return Ok(v);
        }
        proof {
            assert(!date_matches(add_days(start, i as nat), weekday@, day@, month@));
            lemma_weekday_next(cur);
        }
        cur = date_next_day(&cur);
        wd = if wd == 7 {
            1
        } else {
            wd + 1
        };
        i += 1;
        proof {
            lemma_add_days_year_bound(start, i as nat, 30);
        }
    }
    Err(ScheduleError::NoOccurrenceFound)
}

/// Largest second count additions may reach; keeps results inside the
/// representable year range.
pub open spec fn max_add_seconds() -> int {
    (365 * (MAX_YEAR as int)) * 86400
}

/// The instant `delta` seconds after `t`.
pub fn datetime_add_seconds(t: &DateTime, delta: i64) -> (r: DateTime)
    requires
        t.wf(),
        1 <= delta,
        t.as_seconds() + delta <= max_add_seconds(),
    ensures
        r.wf(),
        r.as_seconds() == t.as_seconds() + delta,
{
    proof {
        lemma_day_number_in_year(t.date);
        lemma_days_before_year_lower(t.date.year as int);
    }
    let tod = t.time.to_seconds();
    let total = tod + delta;
    let extra = total / 86400;
    let rem = total % 86400;
    proof {
        vstd::arithmetic::div_mod::lemma_fundamental_div_mod(total as int, 86400);
        vstd::arithmetic::div_mod::lemma_mod_bound(total as int, 86400);
        vstd::arithmetic::div_mod::lemma_div_pos_is_pos(total as int, 86400);
    }
    let mut cur = t.date;
    let mut i: i64 = 0;
    while i < extra
        invariant
            t.wf(),
            t.as_seconds() + delta <= max_add_seconds(),
            total == t.time.seconds() + delta,
            86400 * extra + rem == total,
            0 <= rem < 86400,
            0 <= i <= extra,
            cur == add_days(t.date, i as nat),
            cur.fields_ok(),
            cur.year <= MAX_YEAR,
            day_number(cur) == day_number(t.date) + i,
        decreases extra - i,
    {
        cur = date_next_day(&cur);
        i += 1;
        proof {
            assert(day_number(cur) <= day_number(t.date) + extra);
            assert((day_number(t.date) + extra) * 86400 + rem == t.as_seconds() + delta);
            assert(day_number(cur) * 86400 <= (day_number(t.date) + extra) * 86400);
            crate::datetime::lemma_year_within(cur);
        }
    }
    let new_time = time_from_seconds(rem);
    DateTime { date: cur, time: new_time }
}

/// What `next_run` returns for a rule and a reference instant: the exact
/// sum for *Every* and *After*, the two-phase search result or exhaustion
/// for *On*.
pub open spec fn next_run_result(t: Time, now: DateTime, r: Result<DateTime, ScheduleError>) -> bool {
    match t {
        Time::Every { seconds } | Time::After { seconds } => match r {
            Ok(v) => v.wf() && v.as_seconds() == now.as_seconds() + seconds,
            Err(_) => false,
        },
        Time::On { second, minute, hour, weekday, day, month } => match r {
            Ok(v) => {
                &&& v.wf()
                &&& v.as_seconds() > now.as_seconds()
                &&& on_result(now, v, second@, minute@, hour@, weekday@, day@, month@)
            },
            Err(e) => {
                &&& e == ScheduleError::NoOccurrenceFound
                &&& no_matching_date(
                    start_date_for(now, hour@, minute@, second@),
                    weekday@,
                    day@,
                    month@,
                )
            },
        },
    }
}

impl Time {
    /// The next instant at which this rule fires, given that `now` is the
    /// reference instant: the anchor for *Every* and *After*, the instant
    /// the calendar search starts from for *On*.
    pub fn next_run(&self, now: &DateTime) -> (r: Result<DateTime, ScheduleError>)
        requires
            self.wf(),
            now.wf(),
            now.date.year + 31 <= MAX_YEAR,
            match *self {
                Time::Every { seconds } => now.as_seconds() + seconds <= max_add_seconds(),
                Time::After { seconds } => now.as_seconds() + seconds <= max_add_seconds(),
                Time::On { .. } => true,
            },
        ensures
            next_run_result(*self, *now, r),
    {
        match self {
            Time::Every { seconds } => Ok(datetime_add_seconds(now, *seconds)),
            Time::After { seconds } => Ok(datetime_add_seconds(now, *seconds)),
            Time::On { second, minute, hour, weekday, day, month } => find_next_datetime(
                now,
                second,
                minute,
                hour,
                weekday,
                day,
                month,
            ),
        }
    }
}

/// The values `lo..=hi` in increasing order.
pub open spec fn range_seq(lo: u8, hi: u8) -> Seq<u8> {
    Seq::new((hi - lo + 1) as nat, |i: int| (lo + i) as u8)
}

fn full_range(lo: u8, hi: u8) -> (r: Vec<u8>)
    requires
        lo <= hi < 255,
    ensures
        r@ == range_seq(lo, hi),
{
    let mut out: Vec<u8> = Vec::new();
    let mut x: u8 = lo;
    while x <= hi
        invariant
            lo <= x,
            x <= hi + 1,
            hi < 255,
            out@.len() == x - lo,
            forall|j: int| 0 <= j < out@.len() ==> out@[j] == lo + j,
        decreases hi + 1 - x,
    {
        out.push(x);
        x += 1;
    }
    proof {
        assert(out@ =~= range_seq(lo, hi));
    }
    out
}

/// A given field holds at least one value, all within `lo..=hi`.
pub open spec fn field_given_ok(o: Option<Vec<u8>>, lo: u8, hi: u8) -> bool {
    match o {
        Some(v) => v@.len() > 0 && forall|i: int| 0 <= i < v@.len() ==> lo <= #[trigger] v@[i] <= hi,
        None => true,
    }
}

/// A field was given but holds no values.
pub open spec fn given_empty(o: Option<Vec<u8>>) -> bool {
    match o {
        Some(v) => v@.len() == 0,
        None => false,
    }
}

/// `out` holds exactly the given values, or the default when none were given.
pub open spec fn resolved_field(given: Option<Vec<u8>>, dflt: Seq<u8>, out: Seq<u8>) -> bool {
    match given {
        Some(g) => forall|x: u8| #[trigger] out.contains(x) <==> g@.contains(x),
        None => out == dflt,
    }
}

/// Validates a given field set and returns it sorted and deduplicated.
fn field_values(v: &Vec<u8>, lo: u8, hi: u8) -> (r: Result<Vec<u8>, RuleError>)
    requires
        lo <= hi < 255,
    ensures
        match r {
            Ok(out) => {
                &&& v@.len() > 0
                &&& forall|i: int| 0 <= i < v@.len() ==> lo <= #[trigger] v@[i] <= hi
                &&& sorted_set(out@, lo, hi)
                &&& out@.len() > 0
                &&& forall|x: u8| #[trigger] out@.contains(x) <==> v@.contains(x)
            },
            Err(e) => {
                ||| (v@.len() == 0 && e == RuleError::EmptyField)
                ||| (e == RuleError::ValueOutOfRange && exists|i: int|
                    0 <= i < v@.len() && !(lo <= #[trigger] v@[i] <= hi))
            },
        },
{
    if v.len() == 0 {
        return Err(RuleError::EmptyField);
    }
    let mut i: usize = 0;
    while i < v.len()
        invariant
            0 <= i <= v@.len(),
            forall|j: int| 0 <= j < i ==> lo <= #[trigger] v@[j] <= hi,
        decreases v@.len() - i,
    {
        if v[i] < lo || v[i] > hi {
            return Err(RuleError::ValueOutOfRange);
        }
        i += 1;
    }
    let mut out: Vec<u8> = Vec::new();
    let mut w: u8 = lo;
    while w <= hi
        invariant
            lo <= w,
            w <= hi + 1,
            hi < 255,
            forall|a: int| 0 <= a < out@.len() ==> lo <= #[trigger] out@[a] < w,
            forall|a: int, b: int| 0 <= a < b < out@.len() ==> out@[a] < out@[b],
            forall|x: u8| #[trigger] out@.contains(x) <==> (v@.contains(x) && lo <= x < w),
        decreases hi + 1 - w,
    {
        if contains_val(v, w) {
            let ghost old_out = out@;
            out.push(w);
            proof {
                assert forall|x: u8| #[trigger] out@.contains(x) implies (v@.contains(x) && lo <= x
                    < w + 1) by {
                    let k = choose|k: int| 0 <= k < out@.len() && out@[k] == x;
                    if k < out@.len() - 1 {
                        assert(old_out[k] == x);
                        assert(old_out.contains(x));
                    }
                }
                assert forall|x: u8| (v@.contains(x) && lo <= x < w + 1) implies #[trigger] out@
                    .contains(x) by {
                    if x < w {
                        assert(old_out.contains(x));
                        let k = choose|k: int| 0 <= k < old_out.len() && old_out[k] == x;
                        assert(out@[k] == x);
                    } else {
                        assert(out@[out@.len() - 1] == x);
                    }
                }
            }
        }
        w += 1;
    }
    proof {
        assert(v@.contains(v@[0]));
        assert(out@.contains(v@[0]));
        assert forall|x: u8| #[trigger] out@.contains(x) <==> v@.contains(x) by {
            if v@.contains(x) {
                let k = choose|k: int| 0 <= k < v@.len() && v@[k] == x;
            }
        }
    }
    Ok(out)
}

impl Time {
    /// Builds an *On* rule from the optional field sets. Defaults when a
    /// field is not given: second `{0}`; minute and hour the full valid
    /// range; weekday, day and month wildcard. Given sets are validated,
    /// sorted and deduplicated. At least one field must be given.
    pub fn on_rule(
        second: Option<Vec<u8>>,
        minute: Option<Vec<u8>>,
        hour: Option<Vec<u8>>,
        weekday: Option<Vec<u8>>,
        day: Option<Vec<u8>>,
        month: Option<Vec<u8>>,
    ) -> (r: Result<Time, RuleError>)
        ensures
            r is Ok <==> {
                &&& !(second is None && minute is None && hour is None && weekday is None
                    && day is None && month is None)
                &&& field_given_ok(second, 0, 59)
                &&& field_given_ok(minute, 0, 59)
                &&& field_given_ok(hour, 0, 23)
                &&& field_given_ok(weekday, 1, 7)
                &&& field_given_ok(day, 1, 31)
                &&& field_given_ok(month, 1, 12)
            },
            match r {
                Ok(t) => {
                    &&& t.wf()
                    &&& match t {
                        Time::On { second: s2, minute: m2, hour: h2, weekday: w2, day: d2, month: mo2 } => {
                            &&& resolved_field(second, seq![0u8], s2@)
                            &&& resolved_field(minute, range_seq(0, 59), m2@)
                            &&& resolved_field(hour, range_seq(0, 23), h2@)
                            &&& resolved_field(weekday, Seq::empty(), w2@)
                            &&& resolved_field(day, Seq::empty(), d2@)
                            &&& resolved_field(month, Seq::empty(), mo2@)
                        },
                        _ => false,
                    }
                },
                Err(e) => {
                    ||| (e == RuleError::NoFieldSet && second is None && minute is None
                        && hour is None && weekday is None && day is None && month is None)
                    ||| (e == RuleError::EmptyField && (given_empty(second) || given_empty(minute)
                        || given_empty(hour) || given_empty(weekday) || given_empty(day)
                        || given_empty(month)))
                    ||| (e == RuleError::ValueOutOfRange
                        && !(field_given_ok(second, 0, 59) && field_given_ok(minute, 0, 59)
                        && field_given_ok(hour, 0, 23) && field_given_ok(weekday, 1, 7)
                        && field_given_ok(day, 1, 31) && field_given_ok(month, 1, 12)))
                },
            },
    {
        let all_none = second.is_none() && minute.is_none() && hour.is_none() && weekday.is_none()
            && day.is_none() && month.is_none();
        let s2 = match &second {
            Some(v) => match field_values(v, 0, 59) {
                Ok(out) => out,
                Err(e) => {
                    return Err(e);
                },
            },
            None => {
                let mut one: Vec<u8> = Vec::new();
                one.push(0);
                proof {
                    assert(one@ =~= seq![0u8]);
                }
                one
            },
        };
        let m2 = match &minute {
            Some(v) => match field_values(v, 0, 59) {
                Ok(out) => out,
                Err(e) => {
                    return Err(e);
                },
            },
            None => full_range(0, 59),
        };
        let h2 = match &hour {
            Some(v) => match field_values(v, 0, 23) {
                Ok(out) => out,
                Err(e) => {
                    return Err(e);
                },
            },
            None => full_range(0, 23),
        };
        let w2 = match &weekday {
            Some(v) => match field_values(v, 1, 7) {
                Ok(out) => out,
                Err(e) => {
                    return Err(e);
                },
            },
            None => Vec::new(),
        };
        let d2 = match &day {
            Some(v) => match field_values(v, 1, 31) {
                Ok(out) => out,
                Err(e) => {
                    return Err(e);
                },
            },
            None => Vec::new(),
        };
        let mo2 = match &month {
            Some(v) => match field_values(v, 1, 12) {
                Ok(out) => out,
                Err(e) => {
                    return Err(e);
                },
            },
            None => Vec::new(),
        };
        if all_none {
            return Err(RuleError::NoFieldSet);
        }
        proof {
            assert(sorted_set(seq![0u8], 0, 59));
            assert(sorted_set(range_seq(0, 59), 0, 59));
            assert(sorted_set(range_seq(0, 23), 0, 23));
            assert(range_seq(0, 59).len() == 60);
            assert(range_seq(0, 23).len() == 24);
            assert(sorted_set(Seq::<u8>::empty(), 1, 7));
            assert(sorted_set(Seq::<u8>::empty(), 1, 31));
            assert(sorted_set(Seq::<u8>::empty(), 1, 12));
        }
        Ok(Time::On { second: s2, minute: m2, hour: h2, weekday: w2, day: d2, month: mo2 })
    }

    /// Total seconds of an interval given in mixed units; the interval
    /// must come to at least one second.
    pub fn interval_seconds(seconds: i64, minutes: i64, hours: i64, days: i64, weeks: i64) -> (r:
        Result<i64, RuleError>)
        requires
            0 <= seconds,
            0 <= minutes,
            0 <= hours,
            0 <= days,
            0 <= weeks,
            seconds + 60 * minutes + 3600 * hours + 86400 * days + 604800 * weeks <= i64::MAX,
        ensures
            match r {
                Ok(total) => total == seconds + 60 * minutes + 3600 * hours + 86400 * days
                    + 604800 * weeks && total >= 1,
                Err(e) => e == RuleError::IntervalTooShort && seconds + 60 * minutes + 3600 * hours
                    + 86400 * days + 604800 * weeks < 1,
            },
    {
        let total = seconds + minutes * 60 + hours * 3600 + days * 86400 + weeks * 604800;
        if total < 1 {
            Err(RuleError::IntervalTooShort)
        } else {
            Ok(total)
        }
    }
}

/// The two-phase search result is unique: any two instants satisfying the
/// search's contract for the same rule and reference instant are equal.
/// Together with the exact *Every*/*After* arithmetic this makes
/// `next_run` a pure function of the rule and the reference instant.
pub proof fn lemma_on_result_unique(
    now: DateTime,
    v1: DateTime,
    v2: DateTime,
    second: Seq<u8>,
    minute: Seq<u8>,
    hour: Seq<u8>,
    weekday: Seq<u8>,
    day: Seq<u8>,
    month: Seq<u8>,
)
    requires
        sorted_set(second, 0, 59),
        sorted_set(minute, 0, 59),
        sorted_set(hour, 0, 23),
        on_result(now, v1, second, minute, hour, weekday, day, month),
        on_result(now, v2, second, minute, hour, weekday, day, month),
    ensures
        v1 == v2,
{
    lemma_tod_member_wf(v1.time, hour, minute, second);
    lemma_tod_member_wf(v2.time, hour, minute, second);
    if has_tod_after(now.time, hour, minute, second) {
        assert(v1.time.seconds() <= v2.time.seconds());
        assert(v2.time.seconds() <= v1.time.seconds());
    } else {
        assert(v1.time.seconds() <= v2.time.seconds());
        assert(v2.time.seconds() <= v1.time.seconds());
    }
    assert(v1.time == v2.time) by {
        assert(v1.time.seconds() == v2.time.seconds());
        assert(v1.time.hour == v2.time.hour && v1.time.minute == v2.time.minute && v1.time.second
            == v2.time.second);
    }
    let start = start_date_for(now, hour, minute, second);
    let k1 = choose|k: int|
        {
            &&& 0 <= k < LOOKAHEAD_DAYS
            &&& v1.date == #[trigger] add_days(start, k as nat)
            &&& date_matches(v1.date, weekday, day, month)
            &&& forall|j: int|
                0 <= j < k ==> !date_matches(#[trigger] add_days(start, j as nat), weekday, day, month)
        };
    let k2 = choose|k: int|
        {
            &&& 0 <= k < LOOKAHEAD_DAYS
            &&& v2.date == #[trigger] add_days(start, k as nat)
            &&& date_matches(v2.date, weekday, day, month)
            &&& forall|j: int|
                0 <= j < k ==> !date_matches(#[trigger] add_days(start, j as nat), weekday, day, month)
        };
    if k1 < k2 {
        assert(!date_matches(add_days(start, k1 as nat), weekday, day, month));
        assert(false);
    } else if k2 < k1 {
        assert(!date_matches(add_days(start, k2 as nat), weekday, day, month));
        assert(false);
    }
    assert(v1.date == v2.date);
}

/// `next_run` is deterministic: its contract admits one result for a
/// given rule and reference instant, so two calls with identical inputs
/// return identical results.
pub proof fn lemma_next_run_deterministic(
    t: Time,
    now: DateTime,
    r1: Result<DateTime, ScheduleError>,
    r2: Result<DateTime, ScheduleError>,
)
    requires
        t.wf(),
        next_run_result(t, now, r1),
        next_run_result(t, now, r2),
    ensures
        r1 == r2,
{
    match t {
        Time::Every { .. } | Time::After { .. } => {
            let v1 = r1->Ok_0;
            let v2 = r2->Ok_0;
            crate::datetime::lemma_as_seconds_injective(v1, v2);
        },
        Time::On { second, minute, hour, weekday, day, month } => {
            match (r1, r2) {
                (Ok(v1), Ok(v2)) => {
                    lemma_on_result_unique(
                        now,
                        v1,
                        v2,
                        second@,
                        minute@,
                        hour@,
                        weekday@,
                        day@,
                        month@,
                    );
                },
                (Ok(v1), Err(_)) => {
                    lemma_on_result_not_exhausted(
                        now,
                        v1,
                        second@,
                        minute@,
                        hour@,
                        weekday@,
                        day@,
                        month@,
                    );
                },
                (Err(_), Ok(v2)) => {
                    lemma_on_result_not_exhausted(
                        now,
                        v2,
                        second@,
                        minute@,
                        hour@,
                        weekday@,
                        day@,
                        month@,
                    );
                },
                (Err(_), Err(_)) => {},
            }
        },
    }
}

/// What the search returns respects every field set: the instant's hour,
/// minute and second are members of their sets, and its weekday, day and
/// month are members of theirs unless the set is a wildcard.
pub proof fn lemma_on_result_in_sets(
    now: DateTime,
    v: DateTime,
    second: Seq<u8>,
    minute: Seq<u8>,
    hour: Seq<u8>,
    weekday: Seq<u8>,
    day: Seq<u8>,
    month: Seq<u8>,
)
    requires
        on_result(now, v, second, minute, hour, weekday, day, month),
    ensures
        hour.contains(v.time.hour),
        minute.contains(v.time.minute),
        second.contains(v.time.second),
        weekday.len() == 0 || weekday.contains(weekday_of(v.date) as u8),
        day.len() == 0 || day.contains(v.date.day),
        month.len() == 0 || month.contains(v.date.month),
{
    let start = start_date_for(now, hour, minute, second);
    let k = choose|k: int|
        {
            &&& 0 <= k < LOOKAHEAD_DAYS
            &&& v.date == #[trigger] add_days(start, k as nat)
            &&& date_matches(v.date, weekday, day, month)
            &&& forall|j: int|
                0 <= j < k ==> !date_matches(#[trigger] add_days(start, j as nat), weekday, day, month)
        };
    assert(date_matches(v.date, weekday, day, month));
}

/// Success and exhaustion exclude one another: a result that satisfies the
/// search's contract witnesses a matching date within the horizon.
pub proof fn lemma_on_result_not_exhausted(
    now: DateTime,
    v: DateTime,
    second: Seq<u8>,
    minute: Seq<u8>,
    hour: Seq<u8>,
    weekday: Seq<u8>,
    day: Seq<u8>,
    month: Seq<u8>,
)
    requires
        on_result(now, v, second, minute, hour, weekday, day, month),
    ensures
        !no_matching_date(start_date_for(now, hour, minute, second), weekday, day, month),
{
    let start = start_date_for(now, hour, minute, second);
    let k = choose|k: int|
        {
            &&& 0 <= k < LOOKAHEAD_DAYS
            &&& v.date == #[trigger] add_days(start, k as nat)
            &&& date_matches(v.date, weekday, day, month)
            &&& forall|j: int|
                0 <= j < k ==> !date_matches(#[trigger] add_days(start, j as nat), weekday, day, month)
        };
    assert(date_matches(add_days(start, k as nat), weekday, day, month));
}

} // verus!
