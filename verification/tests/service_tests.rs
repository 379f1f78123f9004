use jp_holidays::client::Client;
use jp_holidays::holiday::Holiday;
use jp_holidays::util::to_utf8;

#[test]
fn test_deserialize_csv() {
    let csv = r#"国民の祝日・休日月日,国民の祝日・休日名称
        1955/1/1,元日
        1955/1/15,成人の日
        1955/3/21,春分の日
        "#;

    let results = Holiday::deserialize_from_csv(csv).unwrap();
    assert_eq!(results.len(), 3);
    assert_eq!(
        (results[0].date.year, results[0].date.month, results[0].date.day),
        (1955, 1, 1)
    );
    assert_eq!(results[0].name, "元日");
    assert_eq!(
        (results[1].date.year, results[1].date.month, results[1].date.day),
        (1955, 1, 15)
    );
    assert_eq!(results[1].name, "成人の日");
    assert_eq!(
        (results[2].date.year, results[2].date.month, results[2].date.day),
        (1955, 3, 21)
    );
    assert_eq!(results[2].name, "春分の日");

    let client = Client::from_records(&results);
    assert_eq!(client.get_holiday_ymd(1955, 1, 1).unwrap(), Some("元日"));
    assert_eq!(client.get_holiday_ymd(1955, 1, 15).unwrap(), Some("成人の日"));
    assert_eq!(client.get_holiday_ymd(1955, 3, 21).unwrap(), Some("春分の日"));
    assert_eq!(client.list_holidays().len(), 3);
}

#[test]
fn test_get_utf8_csv_string() {
    let csv = "国民の祝日・休日月日,国民の祝日・休日名称\n1955/1/1,元日\n";
    let (bytes, _, had_errors) = encoding_rs::SHIFT_JIS.encode(csv);
    assert!(!had_errors);
    let decoded = to_utf8(&bytes.into_owned()).unwrap();
    assert_eq!(decoded, csv);
    let records = Holiday::deserialize_from_csv(&decoded).unwrap();
    assert_eq!(records.len(), 1);
}

#[test]
fn test_blank_lines_and_whitespace_tolerated() {
    let csv = "header\n\n   \n  1955/1/1 , 元日  \n\n";
    let records = Holiday::deserialize_from_csv(csv).unwrap();
    assert_eq!(records.len(), 1);
    assert_eq!(records[0].name, "元日");
    assert_eq!(
        (records[0].date.year, records[0].date.month, records[0].date.day),
        (1955, 1, 1)
    );
}

#[test]
fn test_header_only_yields_no_records() {
    let records = Holiday::deserialize_from_csv("only a header line").unwrap();
    assert!(records.is_empty());
    let empty = Holiday::deserialize_from_csv("").unwrap();
    assert!(empty.is_empty());
}

#[test]
fn test_line_without_delimiter_fails() {
    assert!(Holiday::deserialize_from_csv("h\n1955/1/1 元日\n").is_err());
}

#[test]
fn test_empty_name_fails() {
    assert!(Holiday::deserialize_from_csv("h\n1955/1/1,\n").is_err());
    assert!(Holiday::deserialize_from_csv("h\n1955/1/1,   \n").is_err());
}

#[test]
fn test_name_keeps_later_commas() {
    // Only the first comma splits the line; the name keeps the rest.
    let records = Holiday::deserialize_from_csv("h\n1955/1/1,a,b,c\n").unwrap();
    assert_eq!(records.len(), 1);
    assert_eq!(records[0].name, "a,b,c");
}

#[test]
fn test_records_in_file_order_with_duplicates() {
    // Parsing keeps one record per data line, in file order, duplicate
    // dates included; only the calendar fold collapses them.
    let records =
        Holiday::deserialize_from_csv("h\n1955/1/2,b\n1955/1/1,a\n1955/1/2,c\n").unwrap();
    assert_eq!(records.len(), 3);
    assert_eq!(records[0].name, "b");
    assert_eq!(records[1].name, "a");
    assert_eq!(records[2].name, "c");
}
