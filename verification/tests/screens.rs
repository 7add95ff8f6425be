use skyscreen::countdown::{countdown_screen, push_decimal, CountdownScreen};
use skyscreen::temperature::{next_refresh, on_sensor_result, RefreshMode, SensorScreen};

fn text(secs: i64) -> String {
    match countdown_screen(secs) {
        CountdownScreen::Remaining(t) => t,
        CountdownScreen::Over => panic!("countdown over at {secs}"),
    }
}

#[test]
fn countdown_with_days() {
    assert_eq!(text(86400 + 3600 + 60 + 1), "1 Tage\n1 Stunden\n1 Minuten");
    assert_eq!(text(3 * 86400 + 23 * 3600 + 59 * 60 + 59), "3 Tage\n23 Stunden\n59 Minuten");
}

#[test]
fn countdown_without_days() {
    assert_eq!(text(5 * 3600 + 120), "5 Stunden\n2 Minuten");
    assert_eq!(text(59), "0 Stunden\n0 Minuten");
    assert_eq!(text(86399), "23 Stunden\n59 Minuten");
}

#[test]
fn countdown_over() {
    assert!(matches!(countdown_screen(0), CountdownScreen::Over));
    assert!(matches!(countdown_screen(-100), CountdownScreen::Over));
}

#[test]
fn decimal_digits() {
    let mut s = String::from("n=");
    push_decimal(&mut s, 0);
    push_decimal(&mut s, 1234567890);
    assert_eq!(s, "n=01234567890");
    let mut m = String::new();
    push_decimal(&mut m, u64::MAX);
    assert_eq!(m, u64::MAX.to_string());
}

#[test]
fn refresh_cycle() {
    let mut count = 0u64;
    assert_eq!(next_refresh(&mut count), None);
    assert_eq!(count, 1);
    assert_eq!(next_refresh(&mut count), Some(RefreshMode::Quick));
    assert_eq!(count, 2);
    for expected in 3..=11 {
        assert_eq!(next_refresh(&mut count), None);
        assert_eq!(count, expected);
    }
    assert_eq!(next_refresh(&mut count), Some(RefreshMode::Full));
    assert_eq!(count, 1);
    let mut big = u64::MAX;
    assert_eq!(next_refresh(&mut big), Some(RefreshMode::Full));
    assert_eq!(big, 1);
}

#[test]
fn sensor_failures() {
    let mut errors = 0i32;
    for _ in 0..9 {
        assert_eq!(on_sensor_result(&mut errors, false), SensorScreen::Keep);
    }
    assert_eq!(on_sensor_result(&mut errors, false), SensorScreen::Failure);
    assert_eq!(on_sensor_result(&mut errors, false), SensorScreen::Keep);
    assert_eq!(errors, 11);
    assert_eq!(on_sensor_result(&mut errors, true), SensorScreen::Reading);
    assert_eq!(errors, 0);
}

use skyscreen::countdown::{countdown_screen_at, parse_target, remaining_seconds};

fn instant(text: &str) -> (i64, u32) {
    let t = chrono::DateTime::parse_from_rfc3339(text).unwrap();
    (t.timestamp(), t.timestamp_subsec_nanos())
}

fn chrono_seconds(target: &str, now: &str) -> i64 {
    let t = chrono::DateTime::parse_from_rfc3339(target).unwrap();
    let n = chrono::DateTime::parse_from_rfc3339(now).unwrap();
    (t - n).num_seconds()
}

#[test]
fn parse_target_reads_rfc3339() {
    assert_eq!(parse_target("2025-04-14T19:00:00+02:00"), Some((1744650000, 0)));
    assert_eq!(parse_target("1970-01-01T00:00:01.5Z"), Some((1, 500_000_000)));
    assert_eq!(parse_target("not a date"), None);
}

#[test]
fn remaining_seconds_matches_chrono() {
    let cases = [
        ("2025-04-14T19:00:00+02:00", "2025-04-13T18:59:59.250+02:00"),
        ("2025-04-14T19:00:00+02:00", "2025-04-14T19:00:00.750+02:00"),
        ("2025-04-14T19:00:00+02:00", "2025-04-14T19:00:05.750+02:00"),
        ("2025-04-14T19:00:00.100Z", "2025-04-14T18:59:59.900Z"),
        ("1969-12-31T23:59:59.500Z", "1970-01-01T00:00:00Z"),
        ("2016-12-31T23:59:60.500Z", "2016-12-31T23:59:58Z"),
        ("2017-01-01T00:00:01Z", "2016-12-31T23:59:60.250Z"),
        ("2016-12-31T23:59:59Z", "2016-12-31T23:59:60.700Z"),
    ];
    for (t, n) in cases {
        assert_eq!(remaining_seconds(instant(t), instant(n)), chrono_seconds(t, n), "{t} - {n}");
    }
}

#[test]
fn countdown_at_instants() {
    let target = parse_target("2025-04-14T19:00:00+02:00").unwrap();
    let now = instant("2025-04-13T17:58:30.5+02:00");
    match countdown_screen_at(target, now) {
        Some(CountdownScreen::Remaining(t)) => assert_eq!(t, "1 Tage\n1 Stunden\n1 Minuten"),
        _ => panic!("expected the time left"),
    }
    let later = instant("2025-04-14T19:00:00.5+02:00");
    assert!(matches!(countdown_screen_at(target, later), Some(CountdownScreen::Over)));
    assert!(countdown_screen_at((0, 2_000_000_000), (0, 0)).is_none());
    assert!(countdown_screen_at((i64::MAX, 0), (i64::MIN, 0)).is_none());
}
