use nyado::time::{date_midnight, parse_datetime, parse_i32, parse_u32};

fn chars(s: &str) -> Vec<char> {
    s.chars().collect()
}

#[test]
fn date_and_time_to_epoch_seconds() {
    assert_eq!(parse_datetime("2024-01-15", ""), Some(1705276800));
    assert_eq!(parse_datetime("2024-01-15", "10:30"), Some(1705276800 + 37800));
    assert_eq!(parse_datetime("1970-01-01", "00:00"), Some(0));
    assert_eq!(parse_datetime("2000-03-01", ""), Some(951868800));
}

#[test]
fn invalid_dates_and_times() {
    assert_eq!(parse_datetime("2023-02-29", ""), None);
    assert!(parse_datetime("2024-02-29", "").is_some());
    assert_eq!(parse_datetime("2024-13-01", ""), None);
    assert_eq!(parse_datetime("2024-01", ""), None);
    assert_eq!(parse_datetime("2024-01-15", "24:00"), None);
    assert_eq!(parse_datetime("2024-01-15", "10"), None);
    assert_eq!(parse_datetime("2024-01-15", "10:60"), None);
    assert_eq!(parse_datetime("x-01-15", ""), None);
}

#[test]
fn dates_before_epoch_wrap_like_a_cast() {
    assert_eq!(parse_datetime("1969-12-31", ""), Some((-86400i64) as u64));
}

#[test]
fn chrono_date_text() {
    assert_eq!(date_midnight("2015-05-15"), Some(1431648000));
    assert_eq!(date_midnight("2015-02-30"), None);
    assert_eq!(date_midnight("tomorrow"), None);
}

#[test]
fn integer_reading() {
    assert_eq!(parse_i32(&chars("-2147483648")), Some(i32::MIN));
    assert_eq!(parse_i32(&chars("2147483648")), None);
    assert_eq!(parse_i32(&chars("+12")), Some(12));
    assert_eq!(parse_i32(&chars("-+1")), None);
    assert_eq!(parse_i32(&chars("-")), None);
    assert_eq!(parse_u32(&chars("4294967295")), Some(u32::MAX));
    assert_eq!(parse_u32(&chars("4294967296")), None);
}
