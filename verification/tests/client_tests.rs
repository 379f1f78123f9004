use jp_holidays::client::Client;
use jp_holidays::date::CivilDate;
use jp_holidays::error::Error;
use jp_holidays::holiday::Holiday;

fn fixture_csv() -> &'static str {
    "国民の祝日・休日月日,国民の祝日・休日名称\n1955/1/1,元日\n1955/1/15,成人の日\n1955/3/21,春分の日\n1955/5/5,こどもの日\n"
}

fn fixture_bytes() -> Vec<u8> {
    let (bytes, _, had_errors) = encoding_rs::SHIFT_JIS.encode(fixture_csv());
    assert!(!had_errors);
    bytes.into_owned()
}

fn stub_client() -> Client {
    Client::from_csv_bytes(&fixture_bytes()).unwrap()
}

#[test]
fn client_test_get_holiday_known_date() {
    let client = stub_client();
    let holiday = client.get_holiday_ymd(1955, 1, 1).unwrap();
    assert_eq!(holiday, Some("元日"));
}

#[test]
fn client_test_get_holiday_unknown_date() {
    let client = stub_client();
    let holiday = client.get_holiday_ymd(1955, 1, 2).unwrap();
    assert_eq!(holiday, None);
}

#[test]
fn client_test_is_holiday_true() {
    let client = stub_client();
    let is_holiday = client.is_holiday_ymd(1955, 5, 5).unwrap();
    assert!(is_holiday);
}

#[test]
fn client_test_is_holiday_false() {
    let client = stub_client();
    let is_holiday = client.is_holiday_ymd(1955, 5, 4).unwrap();
    assert!(!is_holiday);
}

#[test]
fn client_test_invalid_date() {
    let client = stub_client();
    let result = client.get_holiday_ymd(1955, 2, 30);
    assert!(result.is_err());
}

#[test]
fn client_test_is_day_off_holiday() {
    let client = stub_client();
    let is_day_off = client.is_day_off_ymd(1955, 1, 1).unwrap();
    assert!(is_day_off);
}

#[test]
fn client_test_is_day_off_weekend() {
    let client = stub_client();
    let is_day_off = client.is_day_off_ymd(1955, 1, 8).unwrap();
    assert!(is_day_off);
}

#[test]
fn client_test_is_day_off_weekday_non_holiday() {
    let client = stub_client();
    let is_day_off = client.is_day_off_ymd(1955, 1, 5).unwrap();
    assert!(!is_day_off);
}

#[test]
fn integration_test_get_holiday_known_date() {
    let client = stub_client();
    let holiday = client.get_holiday_ymd(1955, 1, 1).unwrap();
    assert_eq!(holiday, Some("元日"));
}

#[test]
fn integration_test_get_holiday_unknown_date() {
    let client = stub_client();
    let holiday = client.get_holiday_ymd(1955, 1, 2).unwrap();
    assert_eq!(holiday, None);
}

#[test]
fn integration_test_is_holiday_true() {
    let client = stub_client();
    let is_holiday = client.is_holiday_ymd(1955, 5, 5).unwrap();
    assert!(is_holiday);
}

#[test]
fn integration_test_is_holiday_false() {
    let client = stub_client();
    let is_holiday = client.is_holiday_ymd(1955, 5, 4).unwrap();
    assert!(!is_holiday);
}

#[test]
fn integration_test_invalid_date() {
    let client = stub_client();
    let result = client.get_holiday_ymd(1955, 2, 30);
    assert!(result.is_err());
}

#[test]
fn integration_test_is_day_off_holiday() {
    let client = stub_client();
    let is_day_off = client.is_day_off_ymd(1955, 1, 1).unwrap();
    assert!(is_day_off);
}

#[test]
fn integration_test_is_day_off_weekend() {
    let client = stub_client();
    let is_day_off = client.is_day_off_ymd(1955, 1, 8).unwrap();
    assert!(is_day_off);
}

#[test]
fn integration_test_is_day_off_weekday_non_holiday() {
    let client = stub_client();
    let is_day_off = client.is_day_off_ymd(1955, 1, 5).unwrap();
    assert!(!is_day_off);
}

#[test]
fn test_invalid_date_error_variant() {
    let client = stub_client();
    let result = client.get_holiday_ymd(1955, 2, 30);
    assert!(matches!(result, Err(Error::InvalidDate(_))));
    if let Err(e) = result {
        let msg = e.message().to_string();
        assert!(msg.contains("1955"));
        assert!(msg.contains("30"));
    }
}

#[test]
fn test_parse_error_fails_whole_build() {
    // A single malformed data line (February 30) fails the entire build.
    let csv = "header\n1955/1/1,元日\n1955/2/30,bad\n1955/3/21,春分の日\n";
    let (bytes, _, _) = encoding_rs::SHIFT_JIS.encode(csv);
    let result = Client::from_csv_bytes(&bytes.into_owned());
    assert!(matches!(result, Err(Error::Parse(_))));
}

#[test]
fn test_duplicate_dates_last_wins() {
    let csv = "header\n1955/1/1,first\n1955/1/1,second\n";
    let (bytes, _, _) = encoding_rs::SHIFT_JIS.encode(csv);
    let client = Client::from_csv_bytes(&bytes.into_owned()).unwrap();
    assert_eq!(client.get_holiday_ymd(1955, 1, 1).unwrap(), Some("second"));
    assert_eq!(client.list_holidays().len(), 1);
}

#[test]
fn test_list_holidays_sorted_unique() {
    // Records out of order and duplicated fold into a sorted unique mapping.
    let csv = "header\n1955/3/21,c\n1955/1/1,a\n1955/1/15,b\n1955/1/1,z\n";
    let (bytes, _, _) = encoding_rs::SHIFT_JIS.encode(csv);
    let client = Client::from_csv_bytes(&bytes.into_owned()).unwrap();
    let entries = client.list_holidays();
    assert_eq!(entries.len(), 3);
    assert_eq!((entries[0].date.month, entries[0].date.day), (1, 1));
    assert_eq!(entries[0].name, "z");
    assert_eq!((entries[1].date.month, entries[1].date.day), (1, 15));
    assert_eq!((entries[2].date.month, entries[2].date.day), (3, 21));
}

#[test]
fn test_range_half_open() {
    let client = stub_client();
    let start = CivilDate::from_ymd(1955, 1, 1).unwrap();
    let end = CivilDate::from_ymd(1955, 3, 21).unwrap();
    // End is exclusive: the equinox holiday on the end date is not included.
    let hits = client.range(start, end);
    assert_eq!(hits.len(), 2);
    assert_eq!(hits[0].name, "元日");
    assert_eq!(hits[1].name, "成人の日");
    // Ascending order.
    assert!(hits[0].date.lt(&hits[1].date));
    // Empty when nothing qualifies.
    let s2 = CivilDate::from_ymd(1956, 1, 1).unwrap();
    let e2 = CivilDate::from_ymd(1957, 1, 1).unwrap();
    assert!(client.range(s2, e2).is_empty());
}

#[test]
fn test_roundtrip_format_reparse() {
    // Formatting the calendar's entries and re-parsing them rebuilds the
    // same records.
    let client = stub_client();
    let entries = client.list_holidays();
    let mut text = String::new();
    text.push_str("date,name\n");
    for h in entries.iter() {
        text.push_str(jp_holidays::holiday::format_line(h).as_str());
        text.push('\n');
    }
    let reparsed = Holiday::deserialize_from_csv(&text).unwrap();
    assert_eq!(&reparsed, entries);
    let whole = jp_holidays::holiday::format_csv(entries);
    let reparsed2 = Holiday::deserialize_from_csv(&whole).unwrap();
    assert_eq!(&reparsed2, entries);
}

#[test]
fn test_first_and_last_date() {
    let records = Holiday::deserialize_from_csv(
        "h\n1955/3/21,c\n1955/1/1,a\n1955/11/23,d\n",
    )
    .unwrap();
    let first = Holiday::get_first_date(&records).unwrap();
    let last = Holiday::get_last_date(&records).unwrap();
    assert_eq!((first.year, first.month, first.day), (1955, 1, 1));
    assert_eq!((last.year, last.month, last.day), (1955, 11, 23));
    let empty: Vec<Holiday> = Vec::new();
    assert!(Holiday::get_first_date(&empty).is_none());
    assert!(Holiday::get_last_date(&empty).is_none());
}
