use ledgers::calendar::{Instant, Weekday};

fn seconds_of(year: i32, month: u32, day: u32, hour: u32) -> i64 {
    chrono::NaiveDate::from_ymd_opt(year, month, day)
        .unwrap()
        .and_hms_opt(hour, 0, 0)
        .unwrap()
        .and_utc()
        .timestamp()
}

#[test]
fn weekday_numbers_run_from_monday() {
    assert_eq!(Weekday::Mon.number_from_monday(), 1);
    assert_eq!(Weekday::Tue.number_from_monday(), 2);
    assert_eq!(Weekday::Wed.number_from_monday(), 3);
    assert_eq!(Weekday::Thu.number_from_monday(), 4);
    assert_eq!(Weekday::Fri.number_from_monday(), 5);
    assert_eq!(Weekday::Sat.number_from_monday(), 6);
    assert_eq!(Weekday::Sun.number_from_monday(), 7);
}

#[test]
fn weekday_from_number_reads_the_number_back() {
    for n in 1..=7u32 {
        let day = Weekday::from_number(n).unwrap();
        assert_eq!(day.number_from_monday(), n);
    }
    assert_eq!(Weekday::from_number(1), Some(Weekday::Mon));
    assert_eq!(Weekday::from_number(7), Some(Weekday::Sun));
}

#[test]
fn weekday_from_number_refuses_other_numbers() {
    assert_eq!(Weekday::from_number(0), None);
    assert_eq!(Weekday::from_number(8), None);
    assert_eq!(Weekday::from_number(u32::MAX), None);
}

#[test]
fn the_epoch_is_a_thursday_the_first() {
    let at = Instant::from_unix_seconds(0).unwrap();
    assert_eq!(at.unix_seconds(), 0);
    assert_eq!(at.weekday(), Weekday::Thu);
    assert_eq!(at.day(), 1);
}

#[test]
fn three_days_after_the_epoch_is_a_sunday_the_fourth() {
    let at = Instant::from_unix_seconds(3 * 86_400).unwrap();
    assert_eq!(at.unix_seconds(), 259_200);
    assert_eq!(at.weekday(), Weekday::Sun);
    assert_eq!(at.day(), 4);
}

#[test]
fn the_second_before_the_epoch_is_a_wednesday_the_thirty_first() {
    let at = Instant::from_unix_seconds(-1).unwrap();
    assert_eq!(at.weekday(), Weekday::Wed);
    assert_eq!(at.day(), 31);
}

#[test]
fn a_leap_day_is_the_twenty_ninth() {
    let at = Instant::from_unix_seconds(seconds_of(2024, 2, 29, 12)).unwrap();
    assert_eq!(at.weekday(), Weekday::Thu);
    assert_eq!(at.day(), 29);
}

#[test]
fn the_day_changes_at_midnight() {
    let late = Instant::from_unix_seconds(seconds_of(2024, 1, 7, 23) + 3599).unwrap();
    let early = Instant::from_unix_seconds(seconds_of(2024, 1, 8, 0)).unwrap();
    assert_eq!(late.weekday(), Weekday::Sun);
    assert_eq!(late.day(), 7);
    assert_eq!(early.weekday(), Weekday::Mon);
    assert_eq!(early.day(), 8);
}

#[test]
fn the_common_years_are_all_on_the_calendar() {
    let first = Instant::from_unix_seconds(ledgers::calendar::FIRST_COMMON_SECOND).unwrap();
    assert_eq!(first.day(), 1);
    assert_eq!(first.weekday(), Weekday::Sat);
    let last = Instant::from_unix_seconds(ledgers::calendar::LAST_COMMON_SECOND).unwrap();
    assert_eq!(last.day(), 31);
    assert_eq!(last.weekday(), Weekday::Fri);
}

#[test]
fn instants_beyond_the_calendar_are_refused() {
    assert!(Instant::from_unix_seconds(i64::MAX).is_none());
    assert!(Instant::from_unix_seconds(i64::MIN).is_none());
}
