use chrono::{Datelike, NaiveDate};
use game_releases::date::{CanonicalDate, MAX_YEAR, MIN_YEAR};

fn date(year: i32, month: u32, day: u32) -> CanonicalDate {
    CanonicalDate::new(year, month, day).unwrap()
}

#[test]
fn new_accepts_days_that_exist() {
    assert_eq!(
        CanonicalDate::new(2023, 3, 10),
        Some(CanonicalDate { year: 2023, month: 3, day: 10 })
    );
    assert!(CanonicalDate::new(2024, 2, 29).is_some());
    assert!(CanonicalDate::new(2000, 2, 29).is_some());
    assert!(CanonicalDate::new(-4, 2, 29).is_some());
    assert!(CanonicalDate::new(2023, 12, 31).is_some());
    assert!(CanonicalDate::new(0, 1, 1).is_some());
}

#[test]
fn new_refuses_days_that_do_not_exist() {
    assert_eq!(CanonicalDate::new(2023, 2, 29), None);
    assert_eq!(CanonicalDate::new(1900, 2, 29), None);
    assert_eq!(CanonicalDate::new(2023, 4, 31), None);
    assert_eq!(CanonicalDate::new(2023, 0, 1), None);
    assert_eq!(CanonicalDate::new(2023, 13, 1), None);
    assert_eq!(CanonicalDate::new(2023, 1, 0), None);
    assert_eq!(CanonicalDate::new(2023, 1, 32), None);
}

#[test]
fn new_keeps_to_the_range_of_years() {
    assert_eq!(MIN_YEAR, -262143);
    assert_eq!(MAX_YEAR, 262142);
    assert!(CanonicalDate::new(MIN_YEAR, 1, 1).is_some());
    assert!(CanonicalDate::new(MAX_YEAR, 12, 31).is_some());
    assert_eq!(CanonicalDate::new(MIN_YEAR - 1, 12, 31), None);
    assert_eq!(CanonicalDate::new(MAX_YEAR + 1, 1, 1), None);
    assert_eq!(CanonicalDate::new(i32::MIN, 1, 1), None);
    assert_eq!(CanonicalDate::new(i32::MAX, 1, 1), None);
}

#[test]
fn new_agrees_with_chrono_on_which_days_exist() {
    let years = [-262144, -262143, -401, -400, -100, -4, -1, 0, 1, 4, 100, 400, 1900, 1980, 2000,
        2023, 2024, 2100, 9999, 10000, 262142, 262143];
    for year in years {
        for month in 0..=13u32 {
            for day in 0..=32u32 {
                let ours = CanonicalDate::new(year, month, day);
                let theirs = NaiveDate::from_ymd_opt(year, month, day);
                assert_eq!(ours.is_some(), theirs.is_some(), "{year}-{month}-{day}");
                if let (Some(ours), Some(theirs)) = (ours, theirs) {
                    assert_eq!((ours.year, ours.month, ours.day),
                        (theirs.year(), theirs.month(), theirs.day()));
                }
            }
        }
    }
}

#[test]
fn the_sentinel_is_the_first_day_of_1980() {
    assert_eq!(CanonicalDate::sentinel(), CanonicalDate { year: 1980, month: 1, day: 1 });
    assert!(CanonicalDate::sentinel().is_sentinel());
    assert!(!date(1980, 1, 2).is_sentinel());
    assert!(!date(1981, 1, 1).is_sentinel());
    assert!(!date(1980, 2, 1).is_sentinel());
}

#[test]
fn precedes_orders_by_year_then_month_then_day() {
    assert!(date(2022, 12, 22).precedes(&date(2023, 3, 10)));
    assert!(!date(2023, 3, 10).precedes(&date(2022, 12, 22)));
    assert!(date(2023, 3, 9).precedes(&date(2023, 3, 10)));
    assert!(date(2023, 2, 28).precedes(&date(2023, 3, 1)));
    assert!(!date(2023, 3, 10).precedes(&date(2023, 3, 10)));
    assert!(date(-1, 12, 31).precedes(&date(0, 1, 1)));
    assert!(!date(2024, 1, 1).precedes(&date(2023, 12, 31)));
}

#[test]
fn precedes_agrees_with_chrono() {
    let days = [(1979, 12, 31), (1980, 1, 1), (1980, 1, 2), (2022, 12, 22), (2023, 3, 10),
        (2023, 3, 11), (2023, 4, 1), (2024, 1, 1), (-5, 6, 7), (10000, 1, 1)];
    for a in days {
        for b in days {
            let ours = date(a.0, a.1, a.2).precedes(&date(b.0, b.1, b.2));
            let theirs = NaiveDate::from_ymd_opt(a.0, a.1, a.2).unwrap()
                < NaiveDate::from_ymd_opt(b.0, b.1, b.2).unwrap();
            assert_eq!(ours, theirs);
        }
    }
}

#[test]
fn iso_text_pads_month_and_day_to_two_digits_and_the_year_to_four() {
    assert_eq!(date(2023, 3, 10).to_iso_text(), "2023-03-10");
    assert_eq!(date(2022, 12, 22).to_iso_text(), "2022-12-22");
    assert_eq!(date(2024, 1, 5).to_iso_text(), "2024-01-05");
    assert_eq!(date(0, 1, 1).to_iso_text(), "0000-01-01");
    assert_eq!(date(5, 6, 7).to_iso_text(), "0005-06-07");
    assert_eq!(date(987, 10, 31).to_iso_text(), "0987-10-31");
    assert_eq!(date(9999, 12, 31).to_iso_text(), "9999-12-31");
}

#[test]
fn iso_text_signs_years_outside_four_digits() {
    assert_eq!(date(-1, 1, 1).to_iso_text(), "-0001-01-01");
    assert_eq!(date(10000, 12, 31).to_iso_text(), "+10000-12-31");
    assert_eq!(date(-12345, 2, 3).to_iso_text(), "-12345-02-03");
    assert_eq!(date(MAX_YEAR, 12, 31).to_iso_text(), "+262142-12-31");
    assert_eq!(date(MIN_YEAR, 1, 1).to_iso_text(), "-262143-01-01");
}

#[test]
fn iso_text_agrees_with_chrono() {
    let years = [-262143, -10000, -9999, -1000, -999, -1, 0, 1, 9, 10, 99, 100, 999, 1000, 1980,
        2024, 9999, 10000, 99999, 100000, 262142];
    for year in years {
        for month in 1..=12u32 {
            for day in [1u32, 9, 10, 28] {
                let theirs = NaiveDate::from_ymd_opt(year, month, day).unwrap().to_string();
                assert_eq!(date(year, month, day).to_iso_text(), theirs);
            }
        }
    }
}

#[test]
fn iso_text_writes_fields_that_are_no_date_in_full() {
    assert_eq!(CanonicalDate { year: 2023, month: 123, day: 4567 }.to_iso_text(), "2023-123-4567");
    assert_eq!(CanonicalDate { year: i32::MIN, month: 0, day: u32::MAX }.to_iso_text(),
        "-2147483648-00-4294967295");
}
