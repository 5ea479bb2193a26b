use garfield::date::{days_in_month, parse_iso, CalendarDate};

fn d(year: u32, month: u32, day: u32) -> CalendarDate {
    CalendarDate { year, month, day }
}

#[test]
fn format_pads_month_and_day() {
    assert_eq!(d(2020, 1, 2).format_iso(), "2020-01-02");
    assert_eq!(d(1978, 6, 19).format_iso(), "1978-06-19");
    assert_eq!(d(999, 12, 31).format_iso(), "0999-12-31");
}

#[test]
fn parse_accepts_valid_dates() {
    assert_eq!(parse_iso("2020-01-02"), Ok(d(2020, 1, 2)));
    assert_eq!(parse_iso("1978-06-19"), Ok(d(1978, 6, 19)));
    assert_eq!(parse_iso("2020-02-29"), Ok(d(2020, 2, 29)));
    assert_eq!(parse_iso("2000-02-29"), Ok(d(2000, 2, 29)));
    assert_eq!(parse_iso("9999-12-31"), Ok(d(9999, 12, 31)));
    assert_eq!(parse_iso("1000-01-01"), Ok(d(1000, 1, 1)));
}

#[test]
fn parse_rejects_malformed_strings() {
    assert!(parse_iso("").is_err());
    assert!(parse_iso("2020-1-2").is_err());
    assert!(parse_iso("garbage in").is_err());
    assert!(parse_iso("2020/01/02").is_err());
    assert!(parse_iso("2020-01-02x").is_err());
    assert!(parse_iso("20-01-0002").is_err());
    assert!(parse_iso("yyyy-mm-dd").is_err());
}

#[test]
fn parse_rejects_impossible_dates() {
    assert!(parse_iso("2019-02-29").is_err());
    assert!(parse_iso("1900-02-29").is_err());
    assert!(parse_iso("2020-02-30").is_err());
    assert!(parse_iso("2020-13-01").is_err());
    assert!(parse_iso("2020-00-10").is_err());
    assert!(parse_iso("2020-01-32").is_err());
    assert!(parse_iso("2020-04-31").is_err());
    assert!(parse_iso("0000-01-01").is_err());
}

#[test]
fn round_trip_over_sample_of_range() {
    let years = [1000u32, 1234, 1899, 1900, 1978, 2000, 2020, 2023, 2024, 9999];
    for &year in years.iter() {
        for month in 1..=12u32 {
            for day in 1..=days_in_month(year, month) {
                let date = d(year, month, day);
                let text = date.format_iso();
                assert_eq!(parse_iso(&text), Ok(date));
            }
        }
    }
}

#[test]
fn leap_year_day_counts() {
    assert_eq!(days_in_month(2020, 2), 29);
    assert_eq!(days_in_month(2000, 2), 29);
    assert_eq!(days_in_month(1900, 2), 28);
    assert_eq!(days_in_month(2019, 2), 28);
    assert_eq!(days_in_month(2021, 4), 30);
    assert_eq!(days_in_month(2021, 7), 31);
    assert_eq!(days_in_month(2021, 12), 31);
}

#[test]
fn predecessor_steps_back_one_day() {
    assert_eq!(d(2020, 5, 10).pred(), d(2020, 5, 9));
    assert_eq!(d(2020, 3, 1).pred(), d(2020, 2, 29));
    assert_eq!(d(2021, 3, 1).pred(), d(2021, 2, 28));
    assert_eq!(d(2020, 1, 1).pred(), d(2019, 12, 31));
    assert_eq!(d(1978, 6, 19).pred(), d(1978, 6, 18));
}

#[test]
fn ordering_is_lexicographic() {
    assert!(d(2019, 12, 31).is_before(&d(2020, 1, 1)));
    assert!(d(2020, 1, 31).is_before(&d(2020, 2, 1)));
    assert!(d(2020, 2, 1).is_before(&d(2020, 2, 2)));
    assert!(!d(2020, 2, 2).is_before(&d(2020, 2, 2)));
    assert!(!d(2020, 2, 2).is_before(&d(2020, 2, 1)));
}
