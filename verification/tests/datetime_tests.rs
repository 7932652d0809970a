use ocron::datetime::{
    current_datetime, date_day_number, date_next_day, date_weekday, datetime_from_parts,
    is_leap_year, month_length, Date, DateTime, TimeOfDay,
};

fn date(year: i64, month: u8, day: u8) -> Date {
    Date { year, month, day }
}

#[test]
fn leap_years() {
    assert!(is_leap_year(2024));
    assert!(!is_leap_year(2023));
    assert!(!is_leap_year(1900));
    assert!(is_leap_year(2000));
}

#[test]
fn month_lengths() {
    assert_eq!(month_length(2024, 2), 29);
    assert_eq!(month_length(2023, 2), 28);
    assert_eq!(month_length(2023, 1), 31);
    assert_eq!(month_length(2023, 4), 30);
    assert_eq!(month_length(2023, 12), 31);
}

#[test]
fn day_numbers() {
    assert_eq!(date_day_number(&date(0, 1, 1)), 0);
    assert_eq!(date_day_number(&date(0, 1, 2)), 1);
    assert_eq!(date_day_number(&date(1970, 1, 1)), 719_528);
    assert_eq!(date_day_number(&date(2023, 1, 1)), 738_886);
}

#[test]
fn weekdays_of_known_dates() {
    // 1970-01-01 was a Thursday, 2023-01-01 a Sunday, 2024-02-29 a Thursday.
    assert_eq!(date_weekday(&date(1970, 1, 1)), 4);
    assert_eq!(date_weekday(&date(2023, 1, 1)), 7);
    assert_eq!(date_weekday(&date(2024, 2, 29)), 4);
    assert_eq!(date_weekday(&date(2023, 1, 2)), 1);
}

#[test]
fn weekdays_match_chrono() {
    let mut ours = date(2019, 12, 25);
    let mut theirs = chrono::NaiveDate::from_ymd_opt(2019, 12, 25).unwrap();
    for _ in 0..1200 {
        assert_eq!(
            date_weekday(&ours) as u32,
            chrono::Datelike::weekday(&theirs).number_from_monday()
        );
        assert_eq!(chrono::Datelike::day(&theirs) as u8, ours.day);
        assert_eq!(chrono::Datelike::month(&theirs) as u8, ours.month);
        ours = date_next_day(&ours);
        theirs = theirs.succ_opt().unwrap();
    }
}

#[test]
fn next_day_rollovers() {
    assert_eq!(date_next_day(&date(2023, 1, 31)), date(2023, 2, 1));
    assert_eq!(date_next_day(&date(2023, 12, 31)), date(2024, 1, 1));
    assert_eq!(date_next_day(&date(2024, 2, 28)), date(2024, 2, 29));
    assert_eq!(date_next_day(&date(2024, 2, 29)), date(2024, 3, 1));
    assert_eq!(date_next_day(&date(2023, 2, 28)), date(2023, 3, 1));
}

#[test]
fn from_parts_validates() {
    let dt = datetime_from_parts(2023, 6, 15, 12, 30, 45).unwrap();
    assert_eq!(dt.date, date(2023, 6, 15));
    assert_eq!(dt.time, TimeOfDay { hour: 12, minute: 30, second: 45 });
    assert!(datetime_from_parts(2023, 2, 29, 0, 0, 0).is_none());
    assert!(datetime_from_parts(2024, 2, 29, 0, 0, 0).is_some());
    assert!(datetime_from_parts(2023, 13, 1, 0, 0, 0).is_none());
    assert!(datetime_from_parts(2023, 4, 31, 0, 0, 0).is_none());
    assert!(datetime_from_parts(2023, 4, 30, 24, 0, 0).is_none());
    assert!(datetime_from_parts(-5, 1, 1, 0, 0, 0).is_none());
}

#[test]
fn second_counts() {
    let dt = DateTime { date: date(0, 1, 1), time: TimeOfDay { hour: 0, minute: 0, second: 30 } };
    assert_eq!(dt.to_seconds(), 30);
    let dt = DateTime { date: date(0, 1, 2), time: TimeOfDay { hour: 1, minute: 2, second: 3 } };
    assert_eq!(dt.to_seconds(), 86400 + 3600 + 120 + 3);
}

#[test]
fn clock_reads_valid_instant() {
    let now = current_datetime().expect("the wall clock should be in range");
    assert!((1..=12).contains(&now.date.month));
    assert!((1..=31).contains(&now.date.day));
    assert!(now.time.hour <= 23 && now.time.minute <= 59 && now.time.second <= 59);
    assert!(now.date.year >= 2020);
}
