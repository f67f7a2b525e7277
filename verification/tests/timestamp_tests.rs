use chrono::{Datelike, FixedOffset, Offset, SecondsFormat, TimeZone, Timelike};
use mush::timestamp::Timestamp;

fn chrono_text(
    year: i32,
    month: u32,
    day: u32,
    hour: u32,
    minute: u32,
    second: u32,
    nanos: u32,
    offset_minutes: i32,
) -> String {
    let off = FixedOffset::east_opt(offset_minutes * 60).unwrap();
    let dt = off
        .with_ymd_and_hms(year, month, day, hour, minute, second)
        .unwrap()
        .with_nanosecond(nanos)
        .unwrap();
    dt.to_rfc3339_opts(SecondsFormat::AutoSi, true)
}

#[test]
fn render_matches_chrono_with_microseconds() {
    let t = Timestamp::new(2021, 6, 7, 12, 34, 56, 123_456_789, -300).unwrap();
    // the fractional second is truncated to whole microseconds
    assert_eq!(t.micros, 123_456);
    assert_eq!(
        t.render(),
        chrono_text(2021, 6, 7, 12, 34, 56, 123_456_000, -300)
    );
    assert_eq!(t.render(), "2021-06-07T12:34:56.123456-05:00");
}

#[test]
fn render_matches_chrono_on_whole_seconds() {
    let t = Timestamp::new(1999, 12, 31, 23, 59, 59, 0, 330).unwrap();
    assert_eq!(t.render(), chrono_text(1999, 12, 31, 23, 59, 59, 0, 330));
    assert_eq!(t.render(), "1999-12-31T23:59:59+05:30");
}

#[test]
fn render_matches_chrono_on_whole_milliseconds() {
    let t = Timestamp::new(2004, 2, 29, 0, 0, 1, 250_000_000, 0).unwrap();
    assert_eq!(t.render(), chrono_text(2004, 2, 29, 0, 0, 1, 250_000_000, 0));
    assert_eq!(t.render(), "2004-02-29T00:00:01.250Z");
}

#[test]
fn render_pads_every_component() {
    let t = Timestamp::new(33, 1, 2, 3, 4, 5, 6_000, 60).unwrap();
    assert_eq!(t.render(), chrono_text(33, 1, 2, 3, 4, 5, 6_000, 60));
    assert_eq!(t.render(), "0033-01-02T03:04:05.000006+01:00");
}

#[test]
fn nanoseconds_truncate_to_microseconds() {
    let t = Timestamp::new(2021, 1, 1, 0, 0, 0, 999, 0).unwrap();
    assert_eq!(t.micros, 0);
    assert_eq!(t.render(), "2021-01-01T00:00:00Z");
}

#[test]
fn invalid_dates_are_rejected() {
    assert!(Timestamp::new(2021, 2, 29, 0, 0, 0, 0, 0).is_none());
    assert!(Timestamp::new(2020, 2, 29, 0, 0, 0, 0, 0).is_some());
    assert!(Timestamp::new(1900, 2, 29, 0, 0, 0, 0, 0).is_none());
    assert!(Timestamp::new(2000, 2, 29, 0, 0, 0, 0, 0).is_some());
    assert!(Timestamp::new(2021, 4, 31, 0, 0, 0, 0, 0).is_none());
    assert!(Timestamp::new(2021, 0, 1, 0, 0, 0, 0, 0).is_none());
    assert!(Timestamp::new(2021, 13, 1, 0, 0, 0, 0, 0).is_none());
    assert!(Timestamp::new(2021, 1, 0, 0, 0, 0, 0, 0).is_none());
    assert!(Timestamp::new(2021, 1, 1, 24, 0, 0, 0, 0).is_none());
    assert!(Timestamp::new(2021, 1, 1, 0, 60, 0, 0, 0).is_none());
    assert!(Timestamp::new(2021, 1, 1, 0, 0, 60, 0, 0).is_none());
    assert!(Timestamp::new(2021, 1, 1, 0, 0, 0, 2_000_000_000, 0).is_none());
    assert!(Timestamp::new(2021, 1, 1, 0, 0, 0, 0, 1440).is_none());
    assert!(Timestamp::new(2021, 1, 1, 0, 0, 0, 0, -1440).is_none());
}

#[test]
fn negative_offsets_render_with_sign() {
    let t = Timestamp::new(2021, 6, 7, 1, 2, 3, 0, -90).unwrap();
    assert_eq!(t.render(), chrono_text(2021, 6, 7, 1, 2, 3, 0, -90));
    assert_eq!(t.render(), "2021-06-07T01:02:03-01:30");
}

#[test]
fn chrono_parses_what_render_writes() {
    let t = Timestamp::new(2021, 6, 7, 12, 34, 56, 123_456_789, 765).unwrap();
    let parsed = chrono::DateTime::parse_from_rfc3339(&t.render()).unwrap();
    assert_eq!(parsed.year(), 2021);
    assert_eq!(parsed.month(), 6);
    assert_eq!(parsed.day(), 7);
    assert_eq!(parsed.hour(), 12);
    assert_eq!(parsed.minute(), 34);
    assert_eq!(parsed.second(), 56);
    assert_eq!(parsed.timestamp_subsec_micros(), 123_456);
    assert_eq!(parsed.offset().fix().local_minus_utc(), 765 * 60);
}
