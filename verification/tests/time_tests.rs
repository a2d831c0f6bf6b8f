use comtrade_io::error::{Error, TimeError};
use comtrade_io::time::{format_cfg, parse, Timestamp};

#[test]
fn test_parse_standard() {
    let ts = parse("01/15/2023,10:30:45.123456").unwrap();
    assert_eq!(ts.year, 2023);
    assert_eq!(ts.month, 1);
    assert_eq!(ts.day, 15);
    assert_eq!(ts.hour, 10);
    assert_eq!(ts.minute, 30);
    assert_eq!(ts.second, 45);
    assert_eq!(ts.micro, 123456);
}

#[test]
fn test_parse_european() {
    let ts = parse("15/01/2023,10:30:45.123456").unwrap();
    assert_eq!(ts.day, 15);
    assert_eq!(ts.month, 1);
}

#[test]
fn test_parse_iso() {
    let ts = parse("2023-01-15 10:30:45.123456").unwrap();
    assert_eq!(ts.year, 2023);
    assert_eq!(ts.month, 1);
    assert_eq!(ts.day, 15);
}

#[test]
fn test_parse_short_micro() {
    let ts = parse("01/15/2023,10:30:45.123").unwrap();
    assert_eq!(ts.micro, 123000);
}

#[test]
fn test_format_cfg() {
    let ts = Timestamp::new(2023, 1, 15, 10, 30, 45, 123456).unwrap();
    assert_eq!(format_cfg(&ts), "01/15/2023,10:30:45.123456");
}

#[test]
fn format_then_parse_gives_the_timestamp_back() {
    for ts in [
        Timestamp::new(2023, 1, 15, 10, 30, 45, 123456).unwrap(),
        Timestamp::new(1999, 12, 31, 23, 59, 59, 999999).unwrap(),
        Timestamp::new(2016, 3, 1, 0, 0, 0, 0).unwrap(),
        Timestamp::new(7, 11, 30, 5, 6, 7, 8).unwrap(),
    ] {
        assert_eq!(parse(&format_cfg(&ts)).unwrap(), ts);
    }
}

#[test]
fn twenty_ninth_of_february_stays_in_leap_years_only() {
    let leap = Timestamp::new(2024, 2, 29, 1, 2, 3, 4).unwrap();
    assert_eq!(leap.day, 29);
    let back = parse(&format_cfg(&leap)).unwrap();
    assert_eq!(back, leap);
    // Timestamp::new moves a 29 February of a common year back a day.
    assert_eq!(Timestamp::new(2023, 2, 29, 0, 0, 0, 0).unwrap().day, 28);
}

#[test]
fn parse_tolerates_spaces_around_colons_and_long_fractions() {
    let ts = parse("  01/15/2023,10 : 30 : 45.1234567 ").unwrap();
    assert_eq!((ts.hour, ts.minute, ts.second, ts.micro), (10, 30, 45, 123456));
    let ts = parse("2023/01/15 10:30:45").unwrap();
    assert_eq!((ts.year, ts.month, ts.day, ts.micro), (2023, 1, 15, 0));
    let ts = parse("01/15/23,10:30:45.5").unwrap();
    assert_eq!((ts.year, ts.micro), (2023, 500000));
}

#[test]
fn parse_refuses_unknown_layouts() {
    match parse("yesterday") {
        Err(Error::Time(TimeError::Unparsable(t))) => assert_eq!(t, "yesterday"),
        other => panic!("unexpected {:?}", other),
    }
}

#[test]
fn new_checks_every_field() {
    assert_eq!(Timestamp::new(2023, 13, 1, 0, 0, 0, 0), Err(Error::Time(TimeError::InvalidMonth(13))));
    assert_eq!(Timestamp::new(2023, 1, 0, 0, 0, 0, 0), Err(Error::Time(TimeError::InvalidDay(0))));
    assert_eq!(Timestamp::new(2023, 1, 1, 24, 0, 0, 0), Err(Error::Time(TimeError::InvalidTime)));
    assert_eq!(
        Timestamp::new(2023, 1, 1, 0, 0, 0, 1_000_000),
        Err(Error::Time(TimeError::InvalidMicro(1_000_000)))
    );
    assert_eq!(
        Timestamp::new(2023, 4, 31, 0, 0, 0, 0),
        Err(Error::Time(TimeError::InvalidDate { year: 2023, month: 4, day: 31 }))
    );
}

#[test]
fn add_micros_moves_across_days_months_and_years() {
    let t = Timestamp::new(2023, 12, 31, 23, 59, 59, 999_999).unwrap();
    let u = t.add_micros(1).unwrap();
    assert_eq!(u, Timestamp::new(2024, 1, 1, 0, 0, 0, 0).unwrap());
    assert_eq!(u.add_micros(-1).unwrap(), t);
    assert_eq!(t.add_micros(0).unwrap(), t);
    let leap = Timestamp::new(2024, 2, 28, 12, 0, 0, 0).unwrap();
    assert_eq!(leap.add_micros(86_400_000_000).unwrap(), Timestamp::new(2024, 2, 29, 12, 0, 0, 0).unwrap());
    let first = Timestamp::new(1, 1, 1, 0, 0, 0, 0).unwrap();
    assert_eq!(first.add_micros(-1), None);
}

#[test]
fn micros_can_be_added_within_range() {
    let t = Timestamp { year: 2000, month: 1, day: 1, hour: 0, minute: 0, second: 0, micro: 0 };
    assert!(t.can_add_micros(0));
    assert!(t.can_add_micros(-1_000_000));
    assert!(!t.can_add_micros(i64::MAX));
    let zero_day = Timestamp { day: 0, ..t };
    assert!(!zero_day.can_add_micros(0));
}

#[test]
fn leap_day_written_by_format_cfg_reads_back() {
    let leap = Timestamp::new(2024, 2, 29, 0, 0, 0, 0).unwrap();
    assert_eq!(format_cfg(&leap), "02/29/2024,00:00:00.000000");
    assert_eq!(parse("02/29/2024,00:00:00.000000").unwrap(), leap);
    assert_eq!(parse("02/29/24,00:00:00.000000").unwrap(), leap);
    // A 29 February of a common year is moved back a day.
    assert_eq!(parse("02/29/2023,00:00:00.000000").unwrap(), Timestamp::new(2023, 2, 28, 0, 0, 0, 0).unwrap());
}

#[test]
fn shifting_there_and_back_gives_the_timestamp() {
    let ts = Timestamp::new(2023, 12, 31, 23, 59, 59, 999_999).unwrap();
    let d: i64 = 86_400_000_001;
    let r = ts.add_micros(d).unwrap();
    assert_eq!(r, Timestamp::new(2024, 1, 2, 0, 0, 0, 0).unwrap());
    assert_eq!(r.add_micros(-d).unwrap(), ts);
    assert_eq!(ts.add_micros(0).unwrap(), ts);
    assert!(r > ts);
}
