use alarm::time::parse_time;
use alarm::timestamp::Timestamp;

fn ts(year: i32, month: u32, day: u32, hour: u32, minute: u32, second: u32) -> Timestamp {
    Timestamp::new(year, month, day, hour, minute, second).expect("valid timestamp")
}

#[test]
fn duration_single_token() {
    let now = ts(2024, 1, 15, 10, 0, 0);
    let r = parse_time("30m", &now).expect("parse");
    assert_eq!(r, ts(2024, 1, 15, 10, 30, 0));
}

#[test]
fn duration_mixed_tokens() {
    let now = ts(2024, 1, 15, 10, 0, 0);
    let r = parse_time("1h30m", &now).expect("parse");
    assert_eq!(r, ts(2024, 1, 15, 11, 30, 0));
}

#[test]
fn duration_order_does_not_matter() {
    let now = ts(2024, 1, 15, 10, 0, 0);
    let a = parse_time("1h30m", &now).expect("parse");
    let b = parse_time("30m1h", &now).expect("parse");
    assert_eq!(a, b);
}

#[test]
fn duration_repeated_units_accumulate() {
    let now = ts(2024, 1, 15, 10, 0, 0);
    let r = parse_time("10m10m10m", &now).expect("parse");
    assert_eq!(r, ts(2024, 1, 15, 10, 30, 0));
}

#[test]
fn duration_carries_into_next_day() {
    let now = ts(2024, 1, 31, 23, 0, 0);
    let r = parse_time("2h", &now).expect("parse");
    assert_eq!(r, ts(2024, 2, 1, 1, 0, 0));
}

#[test]
fn duration_days_cross_year() {
    let now = ts(2024, 12, 31, 8, 15, 30);
    let r = parse_time("1d", &now).expect("parse");
    assert_eq!(r, ts(2025, 1, 1, 8, 15, 30));
}

#[test]
fn duration_days_respect_leap_year() {
    let now = ts(2024, 2, 28, 12, 0, 0);
    let r = parse_time("1d", &now).expect("parse");
    assert_eq!(r, ts(2024, 2, 29, 12, 0, 0));
    let now2 = ts(2023, 2, 28, 12, 0, 0);
    let r2 = parse_time("1d", &now2).expect("parse");
    assert_eq!(r2, ts(2023, 3, 1, 12, 0, 0));
}

#[test]
fn absolute_full_date() {
    let now = ts(2024, 1, 15, 10, 0, 0);
    let r = parse_time("12|25|2024|9:15am", &now).expect("parse");
    assert_eq!(r, ts(2024, 12, 25, 9, 15, 0));
}

#[test]
fn absolute_time_only_defaults_date_to_now() {
    let now = ts(2024, 6, 7, 10, 0, 0);
    let r = parse_time("9:15am", &now).expect("parse");
    assert_eq!(r, ts(2024, 6, 7, 9, 15, 0));
}

#[test]
fn absolute_month_only_defaults_day_and_year() {
    let now = ts(2024, 6, 7, 10, 0, 0);
    let r = parse_time("12|9am", &now).expect("parse");
    assert_eq!(r, ts(2024, 12, 7, 9, 0, 0));
}

#[test]
fn absolute_month_and_day_default_year() {
    let now = ts(2024, 6, 7, 10, 0, 0);
    let r = parse_time("12|25|9am", &now).expect("parse");
    assert_eq!(r, ts(2024, 12, 25, 9, 0, 0));
}

#[test]
fn absolute_missing_minutes_default_to_zero() {
    let now = ts(2024, 6, 7, 10, 0, 0);
    let r = parse_time("3pm", &now).expect("parse");
    assert_eq!(r, ts(2024, 6, 7, 15, 0, 0));
}

#[test]
fn pm_adds_twelve() {
    let now = ts(2024, 6, 7, 10, 0, 0);
    let r = parse_time("1:30pm", &now).expect("parse");
    assert_eq!(r, ts(2024, 6, 7, 13, 30, 0));
}

#[test]
fn twelve_pm_is_rejected_by_the_grammar_quirk() {
    let now = ts(2024, 6, 7, 10, 0, 0);
    assert!(parse_time("12pm", &now).is_err());
}

#[test]
fn twelve_am_is_noon_not_midnight() {
    let now = ts(2024, 6, 7, 10, 0, 0);
    let r = parse_time("12am", &now).expect("parse");
    assert_eq!(r, ts(2024, 6, 7, 12, 0, 0));
}

#[test]
fn invalid_calendar_date_fails() {
    let now = ts(2024, 6, 7, 10, 0, 0);
    assert!(parse_time("2|30|2024|9am", &now).is_err());
}

#[test]
fn minutes_out_of_range_fail() {
    let now = ts(2024, 6, 7, 10, 0, 0);
    assert!(parse_time("9:99am", &now).is_err());
}

#[test]
fn garbage_fails() {
    let now = ts(2024, 6, 7, 10, 0, 0);
    assert!(parse_time("", &now).is_err());
    assert!(parse_time("soon", &now).is_err());
    assert!(parse_time("|", &now).is_err());
    assert!(parse_time("9:15", &now).is_err());
}

#[test]
fn number_too_large_fails() {
    let now = ts(2024, 6, 7, 10, 0, 0);
    assert!(parse_time("4294967296h", &now).is_err());
}

#[test]
fn trailing_text_after_a_match_is_ignored() {
    let now = ts(2024, 1, 15, 10, 0, 0);
    let r = parse_time("1h2x", &now).expect("parse");
    assert_eq!(r, ts(2024, 1, 15, 11, 0, 0));
}

#[test]
fn negative_year_is_accepted() {
    let now = ts(2024, 6, 7, 10, 0, 0);
    let r = parse_time("6|7|-44|9am", &now).expect("parse");
    assert_eq!(r, ts(-44, 6, 7, 9, 0, 0));
}
