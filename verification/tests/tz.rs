use walzecore::tz::{dmy, hms, parse_tz_date_time, Error};

#[test]
fn parses_full_time_stamps() {
    assert_eq!(hms("12h30m5s").unwrap(), (12, 30, 5));
    assert_eq!(hms("9h59m59s").unwrap(), (9, 59, 59));
    assert_eq!(hms("23h0m0s").unwrap(), (23, 0, 0));
    assert_eq!(hms("00h00m00s").unwrap(), (0, 0, 0));
}

#[test]
fn omitted_time_groups_count_as_zero() {
    assert_eq!(hms("hms").unwrap(), (0, 0, 0));
    assert_eq!(hms("5hms").unwrap(), (5, 0, 0));
    assert_eq!(hms("h30ms").unwrap(), (0, 30, 0));
}

#[test]
fn rejects_out_of_range_or_unanchored_times() {
    assert!(matches!(hms("24h0m0s"), Err(Error::TimeParseFail(_))));
    assert!(matches!(hms("12h60m0s"), Err(Error::TimeParseFail(_))));
    assert!(matches!(hms("0h1m1s"), Err(Error::TimeParseFail(_))));
    assert!(matches!(hms("5h3m2s tail"), Err(Error::TimeParseFail(_))));
    assert!(matches!(hms(""), Err(Error::TimeParseFail(_))));
    assert!(matches!(hms("123h0m0s"), Err(Error::TimeParseFail(_))));
}

#[test]
fn finds_the_leftmost_date_stamp() {
    assert_eq!(dmy("31/12/2023").unwrap(), (31, 12, 2023));
    assert_eq!(dmy("meet on 9/10/2024, ok?").unwrap(), (9, 10, 2024));
    assert_eq!(dmy("12345/6/78").unwrap(), (45, 6, 2078));
}

#[test]
fn short_years_shift_into_the_two_thousands() {
    assert_eq!(dmy("1/2/95").unwrap(), (1, 2, 2095));
    assert_eq!(dmy("1/2/995").unwrap(), (1, 2, 2995));
    assert_eq!(dmy("1/2/2095").unwrap(), (1, 2, 2095));
}

#[test]
fn rejects_inputs_without_a_date_stamp() {
    assert!(matches!(dmy("no date here"), Err(Error::DateParseError(_))));
    assert!(matches!(dmy("1/2/20245"), Err(Error::DateParseError(_))));
    assert_eq!(dmy("123/4/56").unwrap(), (23, 4, 2056));
}

#[test]
fn combines_timezone_date_and_time() {
    let (tz, date, time) = parse_tz_date_time("Europe/Paris", "31/12/2023", "12h30m5s").unwrap();
    assert_eq!(tz.name(), "Europe/Paris");
    assert_eq!(date, (31, 12, 2023));
    assert_eq!(time, (12, 30, 5));
}

#[test]
fn reports_each_failing_component() {
    assert!(matches!(
        parse_tz_date_time("Not/AZone", "1/1/2024", "1h2m3s"),
        Err(Error::TzParseFail(_))
    ));
    assert!(matches!(
        parse_tz_date_time("Europe/Paris", "nope", "1h2m3s"),
        Err(Error::DateParseError(_))
    ));
    assert!(matches!(
        parse_tz_date_time("Europe/Paris", "1/1/2024", "nope"),
        Err(Error::TimeParseFail(_))
    ));
}
