use ocron::datetime::{Date, DateTime, TimeOfDay};
use ocron::rules::{find_next_datetime, RuleError, ScheduleError, Time};

fn at(year: i64, month: u8, day: u8, hour: u8, minute: u8, second: u8) -> DateTime {
    DateTime { date: Date { year, month, day }, time: TimeOfDay { hour, minute, second } }
}

fn on(
    second: Vec<u8>,
    minute: Vec<u8>,
    hour: Vec<u8>,
    weekday: Vec<u8>,
    day: Vec<u8>,
    month: Vec<u8>,
) -> Time {
    Time::On { second, minute, hour, weekday, day, month }
}

#[test]
fn every_adds_exactly() {
    let now = at(2023, 6, 15, 10, 0, 0);
    let next = Time::Every { seconds: 5 }.next_run(&now).unwrap();
    assert_eq!(next, at(2023, 6, 15, 10, 0, 5));
    let next = Time::Every { seconds: 3600 }.next_run(&now).unwrap();
    assert_eq!(next, at(2023, 6, 15, 11, 0, 0));
}

#[test]
fn after_adds_exactly() {
    let now = at(2023, 6, 15, 10, 0, 0);
    let next = Time::After { seconds: 90 }.next_run(&now).unwrap();
    assert_eq!(next, at(2023, 6, 15, 10, 1, 30));
}

#[test]
fn addition_carries_across_midnight_and_month() {
    let now = at(2023, 12, 31, 23, 59, 59);
    let next = Time::Every { seconds: 2 }.next_run(&now).unwrap();
    assert_eq!(next, at(2024, 1, 1, 0, 0, 1));
    let now = at(2024, 2, 28, 23, 0, 0);
    let next = Time::After { seconds: 2 * 3600 }.next_run(&now).unwrap();
    assert_eq!(next, at(2024, 2, 29, 1, 0, 0));
}

#[test]
fn after_reschedules_from_completion() {
    // A run dispatched at t that takes two seconds finishes at t + 2; with
    // `after = 5s` the next run lands at t + 7, not t + 5.
    let dispatched = at(2023, 6, 15, 10, 0, 0);
    let finished = at(2023, 6, 15, 10, 0, 2);
    let next = Time::After { seconds: 5 }.next_run(&finished).unwrap();
    assert_eq!(next, at(2023, 6, 15, 10, 0, 7));
    assert_ne!(next, Time::After { seconds: 5 }.next_run(&dispatched).unwrap());
}

#[test]
fn lexicographic_tie_break() {
    // 03:00:00 has passed, so 09:00:00 on the same date wins.
    let now = at(2023, 6, 15, 5, 0, 0);
    let rule = on(vec![0], vec![0], vec![3, 9], vec![], vec![], vec![]);
    assert_eq!(rule.next_run(&now).unwrap(), at(2023, 6, 15, 9, 0, 0));
}

#[test]
fn rollover_to_next_day() {
    // Every admissible time of day has passed: first one tomorrow.
    let now = at(2023, 6, 15, 5, 0, 0);
    let rule = on(vec![0], vec![0], vec![3], vec![], vec![], vec![]);
    assert_eq!(rule.next_run(&now).unwrap(), at(2023, 6, 16, 3, 0, 0));
}

#[test]
fn exhaustion_fails() {
    // February never has a 31st day.
    let now = at(2023, 6, 15, 5, 0, 0);
    let rule = on(vec![0], vec![0], vec![3], vec![], vec![31], vec![2]);
    assert_eq!(rule.next_run(&now), Err(ScheduleError::NoOccurrenceFound));
}

#[test]
fn midnight_rule_next_day() {
    let now = at(2023, 1, 1, 12, 0, 0);
    let rule = on(vec![0], vec![0], vec![0], vec![], vec![], vec![]);
    assert_eq!(rule.next_run(&now).unwrap(), at(2023, 1, 2, 0, 0, 0));
}

#[test]
fn weekday_constraint_scans_forward() {
    // 2023-01-01 is a Sunday; the next Monday is 2023-01-02.
    let now = at(2023, 1, 1, 10, 0, 0);
    let rule = on(vec![0], vec![30], vec![10], vec![1], vec![], vec![]);
    assert_eq!(rule.next_run(&now).unwrap(), at(2023, 1, 2, 10, 30, 0));
}

#[test]
fn month_and_day_constraint_waits_for_leap_day() {
    let now = at(2023, 3, 1, 0, 0, 0);
    let rule = on(vec![0], vec![0], vec![3], vec![], vec![29], vec![2]);
    assert_eq!(rule.next_run(&now).unwrap(), at(2024, 2, 29, 3, 0, 0));
}

#[test]
fn chosen_time_is_kept_on_later_days() {
    // The time of day picked in phase one stays fixed while the date
    // scan moves forward, as the two-phase search prescribes.
    let now = at(2023, 1, 1, 5, 0, 0);
    let rule = on(vec![0], vec![0], vec![3, 9], vec![1], vec![], vec![]);
    // 09:00 is still ahead on Sunday, but Monday is the first matching
    // date; the result keeps 09:00 rather than falling back to 03:00.
    assert_eq!(rule.next_run(&now).unwrap(), at(2023, 1, 2, 9, 0, 0));
}

#[test]
fn search_is_deterministic() {
    let now = at(2023, 5, 7, 13, 37, 21);
    let rule = on(vec![0, 30], vec![15], vec![8, 20], vec![2, 4], vec![], vec![]);
    let a = rule.next_run(&now);
    let b = rule.next_run(&now);
    assert_eq!(a, b);
}

#[test]
fn direct_search_minute_step() {
    let now = at(2023, 6, 15, 3, 0, 0);
    let r = find_next_datetime(
        &now,
        &vec![0],
        &vec![0, 30],
        &vec![3, 9],
        &vec![],
        &vec![],
        &vec![],
    );
    assert_eq!(r.unwrap(), at(2023, 6, 15, 3, 30, 0));
}

#[test]
fn on_rule_defaults() {
    let rule = Time::on_rule(None, None, Some(vec![7]), None, None, None).unwrap();
    match rule {
        Time::On { second, minute, hour, weekday, day, month } => {
            assert_eq!(second, vec![0]);
            assert_eq!(minute, (0..60).collect::<Vec<u8>>());
            assert_eq!(hour, vec![7]);
            assert!(weekday.is_empty());
            assert!(day.is_empty());
            assert!(month.is_empty());
        }
        _ => panic!("expected an On rule"),
    }
    let rule = Time::on_rule(Some(vec![5]), None, None, None, None, None).unwrap();
    match rule {
        Time::On { second, minute, hour, .. } => {
            assert_eq!(second, vec![5]);
            assert_eq!(minute, (0..60).collect::<Vec<u8>>());
            assert_eq!(hour, (0..24).collect::<Vec<u8>>());
        }
        _ => panic!("expected an On rule"),
    }
}

#[test]
fn on_rule_sorts_and_dedups() {
    let rule = Time::on_rule(Some(vec![5, 3, 5, 1]), None, Some(vec![23, 0, 23]), None, None, None)
        .unwrap();
    match rule {
        Time::On { second, hour, .. } => {
            assert_eq!(second, vec![1, 3, 5]);
            assert_eq!(hour, vec![0, 23]);
        }
        _ => panic!("expected an On rule"),
    }
}

#[test]
fn on_rule_errors() {
    assert!(matches!(
        Time::on_rule(None, None, None, None, None, None),
        Err(RuleError::NoFieldSet)
    ));
    assert!(matches!(
        Time::on_rule(Some(vec![]), None, None, None, None, None),
        Err(RuleError::EmptyField)
    ));
    assert!(matches!(
        Time::on_rule(Some(vec![60]), None, None, None, None, None),
        Err(RuleError::ValueOutOfRange)
    ));
    assert!(matches!(
        Time::on_rule(None, None, Some(vec![24]), None, None, None),
        Err(RuleError::ValueOutOfRange)
    ));
    assert!(matches!(
        Time::on_rule(None, None, None, Some(vec![0]), None, None),
        Err(RuleError::ValueOutOfRange)
    ));
    assert!(matches!(
        Time::on_rule(None, None, None, None, Some(vec![32]), None),
        Err(RuleError::ValueOutOfRange)
    ));
}

#[test]
fn every_ticks_once_per_second() {
    // Re-arming an `every = 1s` rule from each scheduled instant yields
    // one occurrence per second, however long the executions take.
    let rule = Time::Every { seconds: 1 };
    let mut scheduled = at(2023, 6, 15, 10, 0, 0);
    for tick in 1..=5u8 {
        scheduled = rule.next_run(&scheduled).unwrap();
        assert_eq!(scheduled, at(2023, 6, 15, 10, 0, tick));
    }
}

#[test]
fn interval_seconds_sums_units() {
    assert_eq!(Time::interval_seconds(30, 1, 0, 0, 0), Ok(90));
    assert_eq!(Time::interval_seconds(0, 0, 1, 1, 1), Ok(3600 + 86400 + 604800));
    assert_eq!(Time::interval_seconds(1, 0, 0, 0, 0), Ok(1));
    assert_eq!(
        Time::interval_seconds(0, 0, 0, 0, 0),
        Err(RuleError::IntervalTooShort)
    );
}
