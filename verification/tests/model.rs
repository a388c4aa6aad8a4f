use alarm::clock::now_timestamp;
use alarm::data::Alarm;
use alarm::text::{month_abbrev_str, pad2_string, u64_to_string};
use alarm::timestamp::Timestamp;

fn ts(year: i32, month: u32, day: u32, hour: u32, minute: u32, second: u32) -> Timestamp {
    Timestamp::new(year, month, day, hour, minute, second).expect("valid timestamp")
}

#[test]
fn construction_checks_the_calendar() {
    assert!(Timestamp::new(2024, 2, 29, 0, 0, 0).is_some());
    assert!(Timestamp::new(2023, 2, 29, 0, 0, 0).is_none());
    assert!(Timestamp::new(2024, 13, 1, 0, 0, 0).is_none());
    assert!(Timestamp::new(2024, 4, 31, 0, 0, 0).is_none());
    assert!(Timestamp::new(2024, 1, 1, 24, 0, 0).is_none());
    assert!(Timestamp::new(2024, 1, 1, 0, 60, 0).is_none());
    assert!(Timestamp::new(2024, 1, 0, 0, 0, 0).is_none());
}

#[test]
fn epoch_seconds_matches_known_values() {
    assert_eq!(ts(1970, 1, 1, 0, 0, 0).epoch_seconds(), 0);
    assert_eq!(ts(1970, 1, 2, 0, 0, 0).epoch_seconds(), 86400);
    assert_eq!(ts(1969, 12, 31, 23, 59, 59).epoch_seconds(), -1);
    // A civil-time reference point well away from the epoch.
    assert_eq!(ts(2024, 12, 25, 9, 15, 0).epoch_seconds(), 1735118100);
}

#[test]
fn ordering_follows_the_linear_scale() {
    let a = ts(2024, 6, 7, 10, 0, 0);
    let b = ts(2024, 6, 7, 10, 0, 1);
    let c = ts(2025, 1, 1, 0, 0, 0);
    assert!(a.le(&b));
    assert!(!b.le(&a));
    assert!(b.le(&c));
    assert!(a.le(&a));
}

#[test]
fn plus_minutes_carries_through_the_calendar() {
    let t = ts(2024, 2, 28, 23, 30, 15);
    assert_eq!(t.plus_minutes(45), Some(ts(2024, 2, 29, 0, 15, 15)));
    let end_of_year = ts(2024, 12, 31, 23, 59, 0);
    assert_eq!(end_of_year.plus_minutes(1), Some(ts(2025, 1, 1, 0, 0, 0)));
    assert_eq!(t.plus_minutes(0), Some(t));
}

#[test]
fn plus_minutes_rejects_the_unrepresentable() {
    let t = ts(400000, 12, 31, 23, 59, 0);
    assert_eq!(t.plus_minutes(1), None);
    let small = ts(2024, 1, 1, 0, 0, 0);
    assert_eq!(small.plus_minutes(u64::MAX), None);
}

#[test]
fn clock_reading_is_a_valid_timestamp() {
    let n = now_timestamp();
    assert!((1..=12).contains(&n.month));
    assert!((1..=31).contains(&n.day));
    assert!(n.hour <= 23);
    assert!(n.minute <= 59);
    assert!(n.second <= 59);
    // A valid reading survives the library's own validity check.
    assert!(Timestamp::new(n.year, n.month, n.day, n.hour, n.minute, n.second).is_some());
    // And sits on the linear scale consistently with itself.
    assert_eq!(n.plus_minutes(0), Some(n));
}

#[test]
fn decimal_rendering_is_exact() {
    assert_eq!(u64_to_string(0), "0");
    assert_eq!(u64_to_string(7), "7");
    assert_eq!(u64_to_string(42), "42");
    assert_eq!(u64_to_string(1234567890), "1234567890");
    assert_eq!(pad2_string(5), "05");
    assert_eq!(pad2_string(59), "59");
    assert_eq!(month_abbrev_str(1), "Jan");
    assert_eq!(month_abbrev_str(12), "Dec");
}

#[test]
fn notification_text_is_exact() {
    let a = Alarm::new(3, ts(2024, 12, 25, 9, 15, 0), String::from("tea"));
    assert_eq!(a.notification_summary(), "ALARM: tea");
    assert_eq!(a.notification_body(), "09:15 on Dec 25");
    let b = Alarm::new(4, ts(2024, 6, 7, 23, 5, 0), String::from("late"));
    assert_eq!(b.notification_body(), "23:05 on Jun 7");
}
