use rofitodo::Date;
use rofitodo::day_in_month;

#[test]
fn days_of_months() {
    assert_eq!(day_in_month(1, 2021), 31);
    assert_eq!(day_in_month(2, 2021), 28);
    assert_eq!(day_in_month(3, 2021), 31);
    assert_eq!(day_in_month(4, 2021), 30);
    assert_eq!(day_in_month(5, 2021), 31);
    assert_eq!(day_in_month(6, 2021), 30);
    assert_eq!(day_in_month(7, 2021), 31);
    assert_eq!(day_in_month(8, 2021), 31);
    assert_eq!(day_in_month(9, 2021), 30);
    assert_eq!(day_in_month(10, 2021), 31);
    assert_eq!(day_in_month(11, 2021), 30);
    assert_eq!(day_in_month(12, 2021), 31);
}

#[test]
fn bissextile_years() {
    assert_eq!(day_in_month(2, 1900), 28);
    assert_eq!(day_in_month(2, 2000), 29);
    assert_eq!(day_in_month(2, 2001), 28);
    assert_eq!(day_in_month(2, 2004), 29);
    assert_eq!(day_in_month(2, 2100), 28);
    assert_eq!(day_in_month(2, 2400), 29);
}

#[test]
fn date_text_round_trip() {
    let d = Date::new(2021, 9, 1).unwrap();
    let txt = d.format_ymd();
    assert_eq!(txt, String::from("2021-09-01"));
    let back = rofitodo::dates::parse_ymd(txt.as_str()).unwrap();
    assert_eq!(back, d);
}

#[test]
fn date_rejects_invalid() {
    assert!(Date::new(2021, 2, 29).is_none());
    assert!(Date::new(2020, 2, 29).is_some());
    assert!(Date::new(2021, 13, 1).is_none());
    assert!(Date::new(2021, 0, 1).is_none());
    assert!(Date::new(-1, 1, 1).is_none());
    assert!(Date::new(10000, 1, 1).is_none());
    assert!(rofitodo::dates::parse_ymd("2021-9-1").is_none());
    assert!(rofitodo::dates::parse_ymd("not a date").is_none());
    assert!(rofitodo::dates::parse_ymd("2021-99-01").is_none());
}
