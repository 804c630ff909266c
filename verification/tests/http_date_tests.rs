use http_ranges::http_date::HttpDate;

#[test]
fn from_str_imf_fixdate() {
    // Sun, 06 Nov 1994 08:49:37 GMT    ; IMF-fixdate
    let http_date = HttpDate::from_str("Sun, 06 Nov 1994 08:49:37 GMT").unwrap();
    assert_eq!(
        http_date,
        HttpDate {
            day_name: "Sun".to_string(),
            date: "06 Nov 1994".to_string(),
            day: 6,
            month: "Nov".to_string(),
            year: 1994,
            time_of_day: "08:49:37".to_string(),
            hour: 8,
            minute: 49,
            second: 37
        }
    );
}

#[test]
fn from_str_obsolete_rfc850() {
    // Sunday, 06-Nov-94 08:49:37 GMT   ; obsolete RFC 850 format
    let http_date = HttpDate::from_str("Sunday, 06-Nov-94 08:49:37 GMT").unwrap();
    assert_eq!(
        http_date,
        HttpDate {
            day_name: "Sun".to_string(),
            date: "06 Nov 1994".to_string(),
            day: 6,
            month: "Nov".to_string(),
            year: 1994,
            time_of_day: "08:49:37".to_string(),
            hour: 8,
            minute: 49,
            second: 37
        }
    );
}

#[test]
fn from_str_obsolete_asctime() {
    //  Sun Nov  6 08:49:37 1994         ; ANSI C's asctime() format
    let http_date = HttpDate::from_str("Sun Nov  6 08:49:37 1994").unwrap();
    assert_eq!(
        http_date,
        HttpDate {
            day_name: "Sun".to_string(),
            date: "06 Nov 1994".to_string(),
            day: 6,
            month: "Nov".to_string(),
            year: 1994,
            time_of_day: "08:49:37".to_string(),
            hour: 8,
            minute: 49,
            second: 37
        }
    );
}

#[test]
fn preferred_format_is_written_back() {
    let inputs = [
        "Sun, 06 Nov 1994 08:49:37 GMT",
        "Sunday, 06-Nov-94 08:49:37 GMT",
        "Sun Nov  6 08:49:37 1994",
        "Sun Nov 06 08:49:37 1994",
    ];
    for input in inputs {
        let date = HttpDate::from_str(input).unwrap();
        assert_eq!(date.to_imf_fixdate(), "Sun, 06 Nov 1994 08:49:37 GMT");
    }
}

#[test]
fn every_long_day_name_is_read() {
    let names = ["Monday", "Tuesday", "Wednesday", "Thursday", "Friday", "Saturday", "Sunday"];
    for name in names {
        let text = format!("{}, 31-Dec-69 23:59:60 GMT", name);
        let date = HttpDate::from_str(&text).unwrap();
        assert_eq!(date.day_name, name[..3].to_string());
        assert_eq!(date.year, 2069);
        assert_eq!(date.date, "31 Dec 2069");
        assert_eq!(date.time_of_day, "23:59:60");
        assert_eq!((date.day, date.hour, date.minute, date.second), (31, 23, 59, 60));
    }
    assert_eq!(HttpDate::from_str("Sundays, 06-Nov-94 08:49:37 GMT"), None);
    assert_eq!(HttpDate::from_str("Tueday, 06-Nov-94 08:49:37 GMT"), None);
    assert_eq!(HttpDate::from_str("Sun, 06-Nov-94 08:49:37 GMT"), None);
}

#[test]
fn two_digit_years_split_at_seventy() {
    let old = HttpDate::from_str("Thursday, 01-Jan-70 00:00:00 GMT").unwrap();
    assert_eq!(old.year, 1970);
    assert_eq!(old.date, "01 Jan 1970");
    let new = HttpDate::from_str("Saturday, 01-Jan-00 00:00:00 GMT").unwrap();
    assert_eq!(new.year, 2000);
    assert_eq!(new.date, "01 Jan 2000");
}

#[test]
fn numbers_out_of_range_are_declined() {
    assert_eq!(HttpDate::from_str("Sun, 00 Nov 1994 08:49:37 GMT"), None);
    assert_eq!(HttpDate::from_str("Sun, 32 Nov 1994 08:49:37 GMT"), None);
    assert_eq!(HttpDate::from_str("Sun, 06 Nov 1994 24:49:37 GMT"), None);
    assert_eq!(HttpDate::from_str("Sun, 06 Nov 1994 08:60:37 GMT"), None);
    assert_eq!(HttpDate::from_str("Sun, 06 Nov 1994 08:49:61 GMT"), None);
    assert!(HttpDate::from_str("Sun, 31 Nov 0000 23:59:60 GMT").is_some());
}

#[test]
fn misshapen_dates_are_declined() {
    assert_eq!(HttpDate::from_str(""), None);
    assert_eq!(HttpDate::from_str("Sun, 06 Nov 1994 08:49:37 UTC"), None);
    assert_eq!(HttpDate::from_str("Sun, 06 Nov 1994 08:49:37 GMT "), None);
    assert_eq!(HttpDate::from_str("sun, 06 Nov 1994 08:49:37 GMT"), None);
    assert_eq!(HttpDate::from_str("Sun, 06 Nvo 1994 08:49:37 GMT"), None);
    assert_eq!(HttpDate::from_str("Sun, 6 Nov 1994 08:49:37 GMT"), None);
    assert_eq!(HttpDate::from_str("Sun, 06 Nov 1994 08-49-37 GMT"), None);
    assert_eq!(HttpDate::from_str("Sun, 06 Nov 19x4 08:49:37 GMT"), None);
    assert_eq!(HttpDate::from_str("Sun Nov 6  08:49:37 1994"), None);
    assert_eq!(HttpDate::from_str("Sun Nov  6 08:49:37 94"), None);
    assert_eq!(HttpDate::from_str("Sun, 06 Nov 1994 08:49:37 GM\u{e9}"), None);
}

#[test]
fn single_format_readers() {
    let imf: Vec<char> = "Mon, 01 Feb 2021 00:00:00 GMT".chars().collect();
    let old: Vec<char> = "Monday, 01-Feb-21 00:00:00 GMT".chars().collect();
    let c: Vec<char> = "Mon Feb  1 00:00:00 2021".chars().collect();
    let a = http_ranges::http_date::read_imf_fixdate(&imf).unwrap();
    let b = http_ranges::http_date::read_rfc850_date(&old).unwrap();
    let d = http_ranges::http_date::read_asctime_date(&c).unwrap();
    assert_eq!(a, b);
    assert_eq!(a, d);
    assert_eq!(a.date, "01 Feb 2021");
    assert_eq!((a.day, a.year), (1, 2021));
    assert_eq!(http_ranges::http_date::read_imf_fixdate(&old), None);
    assert_eq!(http_ranges::http_date::read_rfc850_date(&c), None);
    assert_eq!(http_ranges::http_date::read_asctime_date(&imf), None);
}

#[test]
fn zone_constant_is_gmt() {
    assert_eq!(http_ranges::http_date::GMT, "GMT");
    let date = HttpDate::from_str("Sun Nov  6 08:49:37 1994").unwrap();
    assert!(date.to_imf_fixdate().ends_with(http_ranges::http_date::GMT));
}
