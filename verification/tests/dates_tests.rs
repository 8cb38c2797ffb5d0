use chrono::{Datelike, NaiveDate};
use pii::dates::{
    dates_between, date_string, day_string, days_from_ce, in_calendar, parse_i32, parse_u32, relative_time,
    weekday_from_sunday, ymd_of,
};
use pii::heatmap::heat_window;

fn ce(y: i32, m: u32, d: u32) -> i32 {
    NaiveDate::from_ymd_opt(y, m, d).unwrap().num_days_from_ce()
}

#[test]
fn day_numbers_agree_with_the_calendar() {
    for (y, m, d) in [(1, 1, 1), (1970, 1, 1), (2000, 2, 29), (2024, 7, 25), (1900, 3, 1), (-44, 3, 15), (0, 1, 1), (262142, 12, 31), (-262143, 1, 1)] {
        assert_eq!(days_from_ce(y, m, d), Some(ce(y, m, d) as i64), "{}-{}-{}", y, m, d);
    }
    for y in [1999, 2000, 2023, 2024, 1900, 2100, -1, -4, -100] {
        for m in 1..=12u32 {
            for d in [1u32, 28, 29, 30, 31] {
                let want = NaiveDate::from_ymd_opt(y, m, d).map(|x| x.num_days_from_ce() as i64);
                assert_eq!(days_from_ce(y, m, d), want, "{}-{}-{}", y, m, d);
            }
        }
    }
    assert_eq!(days_from_ce(262143, 1, 1), None);
    assert_eq!(days_from_ce(2024, 0, 1), None);
    assert_eq!(days_from_ce(2024, 13, 1), None);
    assert_eq!(days_from_ce(2023, 2, 29), None);
    assert_eq!(days_from_ce(2024, 1, 0), None);
}

#[test]
fn consecutive_days_have_consecutive_numbers() {
    let a = days_from_ce(2023, 12, 31).unwrap();
    let b = days_from_ce(2024, 1, 1).unwrap();
    assert_eq!(b, a + 1);
    let c = days_from_ce(2024, 2, 29).unwrap();
    let d = days_from_ce(2024, 3, 1).unwrap();
    assert_eq!(d, c + 1);
}

#[test]
fn integers_parse_as_std_does() {
    for s in ["0", "42", "-42", "+7", "-", "+", "", " 1", "1 ", "2147483647", "2147483648", "-2147483648", "-2147483649", "0007", "1e3", "12a", "-0"] {
        assert_eq!(parse_i32(s), s.parse::<i32>().ok(), "{:?}", s);
        assert_eq!(parse_u32(s), s.parse::<u32>().ok(), "{:?}", s);
    }
    assert_eq!(parse_u32("4294967295"), Some(u32::MAX));
    assert_eq!(parse_u32("4294967296"), None);
}

#[test]
fn ages_read_like_the_tree_shows_them() {
    let today = ce(2024, 7, 25);
    assert_eq!(relative_time("2024-07-25", "10:00", today, 600), "today");
    assert_eq!(relative_time("2024-07-24", "10:00", today, 600), "1d");
    assert_eq!(relative_time("2024-06-26", "10:00", today, 600), "29d");
    assert_eq!(relative_time("2024-06-25", "10:00", today, 600), "1mo");
    assert_eq!(relative_time("2023-07-25", "10:00", today, 600), "12mo");
    assert_eq!(relative_time("2024-08-01", "10:00", today, 600), "today");
    assert_eq!(relative_time("2024-02-30", "10:00", today, 600), "--");
    assert_eq!(relative_time("2024-07", "10:00", today, 600), "--");
    assert_eq!(relative_time("2024-07-25-01", "10:00", today, 600), "--");
    assert_eq!(relative_time("x-7-25", "10:00", today, 600), relative_time("0-07-25", "10:00", today, 600));
    assert_eq!(relative_time("2024-xx-25", "10:00", today, 600), relative_time("2024-01-25", "10:00", today, 600));
    assert_eq!(relative_time("", "10:00", today, 600), "--");
    assert_eq!(relative_time("2024-07-25", "08:00", today, 600), "2h");
    assert_eq!(relative_time("2024-07-25", "09:01", today, 600), "today");
    assert_eq!(relative_time("2024-07-25", "09:00", today, 600), "1h");
    assert_eq!(relative_time("2024-07-25", "00:00", today, 1439), "23h");
    assert_eq!(relative_time("2024-07-25", "bad", today, 600), "today");
    assert_eq!(relative_time("2024-07-25", "25:00", today, 600), "today");
    assert_eq!(relative_time("2024-07-24", "08:00", today, 600), "1d");
}

#[test]
fn day_numbers_turn_back_into_dates() {
    for n in [1i64, 2, 365, 366, 730_000, 738_000, 739_000, -1, 0, -365, -100_000] {
        let want = NaiveDate::from_num_days_from_ce_opt(n as i32).unwrap();
        let (y, m, d) = ymd_of(n);
        assert_eq!((y, m, d), (want.year(), want.month(), want.day()), "n = {}", n);
        assert_eq!(day_string(n), want.format("%Y-%m-%d").to_string());
        assert_eq!(weekday_from_sunday(n), want.weekday().num_days_from_sunday());
    }
    let mut n = ce(1999, 12, 1) as i64;
    while n < ce(2001, 3, 1) as i64 {
        let want = NaiveDate::from_num_days_from_ce_opt(n as i32).unwrap();
        assert_eq!(day_string(n), want.format("%Y-%m-%d").to_string());
        n += 1;
    }
    let first = NaiveDate::MIN.num_days_from_ce() as i64;
    let last = NaiveDate::MAX.num_days_from_ce() as i64;
    assert!(in_calendar(first) && in_calendar(last));
    assert!(!in_calendar(first - 1) && !in_calendar(last + 1));
    assert_eq!(day_string(first), NaiveDate::MIN.format("%Y-%m-%d").to_string());
    assert_eq!(day_string(last), NaiveDate::MAX.format("%Y-%m-%d").to_string());
}

#[test]
fn dates_are_written_as_chrono_writes_them() {
    for (y, m, d) in [(2024, 7, 5), (5, 1, 9), (0, 3, 3), (-44, 3, 15), (12345, 12, 31), (-262143, 1, 1)] {
        let want = NaiveDate::from_ymd_opt(y, m, d).unwrap().format("%Y-%m-%d").to_string();
        assert_eq!(date_string(y, m, d), want);
    }
}

#[test]
fn distinct_dates_have_distinct_numbers() {
    let a = days_from_ce(2024, 2, 29).unwrap();
    let b = days_from_ce(2024, 3, 1).unwrap();
    assert_ne!(a, b);
    assert_eq!(ymd_of(a), (2024, 2, 29));
}

#[test]
fn the_heatmap_window_spans_the_last_days() {
    let today = ce(2024, 7, 25) as i64;
    let (first, lead, days) = heat_window(today);
    let start = NaiveDate::from_ymd_opt(2024, 7, 25).unwrap() - chrono::Duration::days(180);
    assert_eq!(first, start.format("%Y-%m-%d").to_string());
    assert_eq!(lead, start.weekday().num_days_from_sunday() as usize);
    assert_eq!(days.len(), 181);
    assert_eq!(days[0], first);
    assert_eq!(days[180], "2024-07-25");
    assert_eq!(dates_between(5, 4), Vec::<String>::new());
    assert_eq!(dates_between(1, 2), vec!["0001-01-01".to_string(), "0001-01-02".to_string()]);
}
