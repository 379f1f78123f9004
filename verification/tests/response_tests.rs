use jp_holidays::date::{CivilDate, Weekday, weekday};
use jp_holidays::holiday::Holiday;
use jp_holidays::response::{Response, iso_date_string};
use jp_holidays::response_list::ResponseList;

#[test]
fn test_to_japanese_weekday() {
    assert_eq!(Response::to_japanese_weekday(Weekday::Mon), "月");
    assert_eq!(Response::to_japanese_weekday(Weekday::Tue), "火");
    assert_eq!(Response::to_japanese_weekday(Weekday::Wed), "水");
    assert_eq!(Response::to_japanese_weekday(Weekday::Thu), "木");
    assert_eq!(Response::to_japanese_weekday(Weekday::Fri), "金");
    assert_eq!(Response::to_japanese_weekday(Weekday::Sat), "土");
    assert_eq!(Response::to_japanese_weekday(Weekday::Sun), "日");
}

#[test]
fn test_response_from_naive_date() {
    let date = CivilDate::from_ymd(2025, 11, 11).expect("Invalid date");
    let response = Response::from_date(date);

    assert_eq!(response.name, None);
    assert_eq!(response.date, "2025-11-11");
    assert_eq!(response.year, 2025);
    assert_eq!(response.month, 11);
    assert_eq!(response.day, 11);
    assert_eq!(response.day_of_week, "Tuesday");
    assert_eq!(response.day_of_week_ja, "火");
    assert!(!response.public);
    assert!(!response.holiday);
}

#[test]
fn test_response_from_holiday() {
    let holiday = Holiday {
        name: "祝日".to_string(),
        date: CivilDate::from_ymd(2025, 11, 23).expect("Invalid date"),
    };

    let response = Response::from_holiday(&holiday);

    assert_eq!(response.name, Some("祝日".to_string()));
    assert_eq!(response.date, "2025-11-23");
    assert_eq!(response.year, 2025);
    assert_eq!(response.month, 11);
    assert_eq!(response.day, 23);
    assert_eq!(response.day_of_week, "Sunday");
    assert_eq!(response.day_of_week_ja, "日");
    assert!(response.public);
    assert!(response.holiday);
}

#[test]
fn test_response_weekend_date_sets_holiday_flag() {
    // A Saturday snapshot built from a bare date carries holiday: true,
    // public: false — the day-off classification of the richer shape.
    let date = CivilDate::from_ymd(1955, 1, 8).unwrap();
    let response = Response::from_date(date);
    assert_eq!(response.day_of_week, "Saturday");
    assert!(!response.public);
    assert!(response.holiday);
}

#[test]
fn test_iso_date_zero_padding() {
    assert_eq!(iso_date_string(CivilDate::from_ymd(850, 3, 7).unwrap()), "0850-03-07");
    assert_eq!(iso_date_string(CivilDate::from_ymd(1955, 11, 23).unwrap()), "1955-11-23");
    assert_eq!(iso_date_string(CivilDate::from_ymd(5, 1, 1).unwrap()), "0005-01-01");
}

#[test]
fn test_weekday_known_dates() {
    assert_eq!(weekday(CivilDate::from_ymd(1970, 1, 1).unwrap()), Weekday::Thu);
    assert_eq!(weekday(CivilDate::from_ymd(1955, 1, 8).unwrap()), Weekday::Sat);
    assert_eq!(weekday(CivilDate::from_ymd(1955, 1, 5).unwrap()), Weekday::Wed);
    assert_eq!(weekday(CivilDate::from_ymd(2000, 2, 29).unwrap()), Weekday::Tue);
    assert_eq!(weekday(CivilDate::from_ymd(1600, 1, 1).unwrap()), Weekday::Sat);
}

#[test]
fn test_response_list_from_holidays() {
    let holidays = vec![
        Holiday {
            date: CivilDate::from_ymd(1955, 1, 1).unwrap(),
            name: "元日".to_string(),
        },
        Holiday {
            date: CivilDate::from_ymd(1955, 11, 23).unwrap(),
            name: "勤労感謝の日".to_string(),
        },
    ];
    let list = ResponseList::from_holidays(&holidays);
    assert_eq!(list.results.len(), 2);
    assert_eq!(list.results[0].date, "1955-01-01");
    assert_eq!(list.results[0].name, Some("元日".to_string()));
    assert!(list.results[0].public && list.results[0].holiday);
    assert_eq!(list.results[1].date, "1955-11-23");
}
