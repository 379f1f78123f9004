use jp_holidays::date::{CivilDate, next_day, is_leap_year, days_in_month};
use jp_holidays::text::{parse_u32, u32_to_string, i32_to_string, zero_padded_u32, trim};

#[test]
fn test_parse_u32_basics() {
    assert_eq!(parse_u32("0"), Some(0));
    assert_eq!(parse_u32("1955"), Some(1955));
    assert_eq!(parse_u32("007"), Some(7));
    assert_eq!(parse_u32(""), None);
    assert_eq!(parse_u32("12a"), None);
    assert_eq!(parse_u32("-3"), None);
}

#[test]
fn test_parse_u32_overflow_boundary() {
    assert_eq!(parse_u32("4294967295"), Some(u32::MAX));
    assert_eq!(parse_u32("4294967296"), None);
    assert_eq!(parse_u32("99999999999999999999"), None);
}

#[test]
fn test_number_formatting() {
    assert_eq!(u32_to_string(0), "0");
    assert_eq!(u32_to_string(1955), "1955");
    assert_eq!(i32_to_string(-42), "-42");
    assert_eq!(i32_to_string(7), "7");
    assert_eq!(zero_padded_u32(3, 4), "0003");
    assert_eq!(zero_padded_u32(12345, 4), "12345");
}

#[test]
fn test_format_parse_number_roundtrip() {
    for n in [0u32, 1, 9, 10, 99, 100, 1955, 4294967295] {
        assert_eq!(parse_u32(&u32_to_string(n)), Some(n));
    }
}

#[test]
fn test_trim_matches_str_trim() {
    for s in ["", "  ", "a", " a ", "\t元日\r\n", "　全角　", "a b"] {
        assert_eq!(trim(s), s.trim());
    }
}

#[test]
fn test_leap_year_and_month_lengths() {
    assert!(is_leap_year(2000));
    assert!(!is_leap_year(1900));
    assert!(is_leap_year(2020));
    assert!(!is_leap_year(2019));
    assert_eq!(days_in_month(2020, 2), 29);
    assert_eq!(days_in_month(2019, 2), 28);
    assert_eq!(days_in_month(1955, 4), 30);
    assert_eq!(days_in_month(1955, 12), 31);
}

#[test]
fn test_next_day_rollovers() {
    let d = next_day(CivilDate::from_ymd(1955, 1, 31).unwrap());
    assert_eq!((d.year, d.month, d.day), (1955, 2, 1));
    let d = next_day(CivilDate::from_ymd(1955, 12, 31).unwrap());
    assert_eq!((d.year, d.month, d.day), (1956, 1, 1));
    let d = next_day(CivilDate::from_ymd(2020, 2, 28).unwrap());
    assert_eq!((d.year, d.month, d.day), (2020, 2, 29));
    let d = next_day(CivilDate::from_ymd(2019, 2, 28).unwrap());
    assert_eq!((d.year, d.month, d.day), (2019, 3, 1));
}

#[test]
fn test_from_ymd_validation() {
    assert!(CivilDate::from_ymd(1955, 2, 30).is_none());
    assert!(CivilDate::from_ymd(1955, 0, 1).is_none());
    assert!(CivilDate::from_ymd(1955, 13, 1).is_none());
    assert!(CivilDate::from_ymd(1955, 1, 0).is_none());
    assert!(CivilDate::from_ymd(1955, 1, 32).is_none());
    assert!(CivilDate::from_ymd(1955, 1, 31).is_some());
}
