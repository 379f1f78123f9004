use jp_holidays::date::CivilDate;
use jp_holidays::date_format::deserialize;

#[test]
fn test_deserialize_valid_date() {
    let result = deserialize("1955/05/03");
    assert!(result.is_ok());

    let expected_date = CivilDate::from_ymd(1955, 5, 3).unwrap();
    assert_eq!(result.unwrap(), expected_date);
}

#[test]
fn test_deserialize_invalid_date_format() {
    let result = deserialize("1955-05-03");
    assert!(result.is_err());
}

#[test]
fn test_deserialize_non_date_string() {
    let result = deserialize("not a date");
    assert!(result.is_err());
}

#[test]
fn test_deserialize_empty_string() {
    let result = deserialize("");
    assert!(result.is_err());
}

#[test]
fn test_deserialize_leap_year_date() {
    let result = deserialize("2020/02/29");
    assert!(result.is_ok());

    let expected_date = CivilDate::from_ymd(2020, 2, 29).unwrap();
    assert_eq!(result.unwrap(), expected_date);
}

#[test]
fn test_deserialize_non_leap_year_date() {
    let result = deserialize("2019/02/29");
    assert!(result.is_err());
}

#[test]
fn test_deserialize_unpadded_and_padded() {
    assert_eq!(
        deserialize("1955/1/1").unwrap(),
        CivilDate::from_ymd(1955, 1, 1).unwrap()
    );
    assert_eq!(
        deserialize("1955/01/01").unwrap(),
        CivilDate::from_ymd(1955, 1, 1).unwrap()
    );
}

#[test]
fn test_deserialize_rejects_trailing_garbage() {
    assert!(deserialize("1955/1/1/1").is_err());
    assert!(deserialize("1955/1/1x").is_err());
    assert!(deserialize("1955//1").is_err());
}

#[test]
fn test_century_leap_year_rules() {
    // 2000 is a leap year, 1900 is not.
    assert!(deserialize("2000/2/29").is_ok());
    assert!(deserialize("1900/2/29").is_err());
}
