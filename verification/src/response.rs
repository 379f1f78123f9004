//! The per-day snapshot shape the site generator emits.
//!
//! The shape is the richer one: `public` is true exactly for gazetted
//! holidays (dates present in the calendar); `holiday` is true for gazetted
//! holidays, and — on snapshots built from a bare date, which the generator
//! uses only for non-calendar dates — for weekend days, classifying the day
//! off. `holiday` is therefore not the same field as the calendar's
//! `is_day_off`, which always unions weekends in.

use vstd::prelude::*;

use crate::date::{CivilDate, Weekday, spec_weekday, weekday, is_weekend, weekday_index};
use crate::holiday::Holiday;
use crate::text::{spec_zero_pad, spec_u32_digits, zero_padded_u32};

verus! {

/// One calendar day as the generator serializes it.
#[derive(Clone, Debug, PartialEq)]
pub struct Response {
    pub name: Option<String>,
    pub date: String,
    pub year: i32,
    pub month: u32,
    pub day: u32,
    pub day_of_week: String,
    pub day_of_week_ja: String,
    pub public: bool,
    pub holiday: bool,
}

/// The English weekday name.
pub open spec fn spec_weekday_name(w: Weekday) -> Seq<char> {
    match w {
        Weekday::Mon => "Monday"@,
        Weekday::Tue => "Tuesday"@,
        Weekday::Wed => "Wednesday"@,
        Weekday::Thu => "Thursday"@,
        Weekday::Fri => "Friday"@,
        Weekday::Sat => "Saturday"@,
        Weekday::Sun => "Sunday"@,
    }
}

/// The single-character Japanese weekday name.
pub open spec fn spec_weekday_ja(w: Weekday) -> Seq<char> {
    match w {
        Weekday::Mon => "月"@,
        Weekday::Tue => "火"@,
        Weekday::Wed => "水"@,
        Weekday::Thu => "木"@,
        Weekday::Fri => "金"@,
        Weekday::Sat => "土"@,
        Weekday::Sun => "日"@,
    }
}

/// The date as `YYYY-MM-DD`: year, month and day zero-padded to four and
/// two digits (a year above 9999 keeps all its digits).
pub open spec fn spec_iso_date(d: CivilDate) -> Seq<char> {
    spec_zero_pad(spec_u32_digits(d.year as int), 4) + "-"@ + spec_zero_pad(
        spec_u32_digits(d.month as int),
        2,
    ) + "-"@ + spec_zero_pad(spec_u32_digits(d.day as int), 2)
}

/// Formats a date as `YYYY-MM-DD`.
pub fn iso_date_string(d: CivilDate) -> (r: String)
    requires
        d.year >= 0,
    ensures
        r@ == spec_iso_date(d),
{
    let mut s = zero_padded_u32(d.year as u32, 4);
    s.append("-");
    let ms = zero_padded_u32(d.month, 2);
    s.append(ms.as_str());
    s.append("-");
    let ds = zero_padded_u32(d.day, 2);
    s.append(ds.as_str());
    proof {
        assert(s@ =~= spec_iso_date(d));
    }
    s
}

fn weekday_name(w: Weekday) -> (r: &'static str)
    ensures
        r@ == spec_weekday_name(w),
{
    match w {
        Weekday::Mon => "Monday",
        Weekday::Tue => "Tuesday",
        Weekday::Wed => "Wednesday",
        Weekday::Thu => "Thursday",
        Weekday::Fri => "Friday",
        Weekday::Sat => "Saturday",
        Weekday::Sun => "Sunday",
    }
}

/// The snapshot fields a gazetted holiday yields.
pub open spec fn spec_holiday_response(r: Response, h: (CivilDate, Seq<char>)) -> bool {
    &&& match r.name {
        Some(n) => n@ == h.1,
        None => false,
    }
    &&& r.date@ == spec_iso_date(h.0)
    &&& r.year == h.0.year
    &&& r.month == h.0.month
    &&& r.day == h.0.day
    &&& r.day_of_week@ == spec_weekday_name(spec_weekday(h.0))
    &&& r.day_of_week_ja@ == spec_weekday_ja(spec_weekday(h.0))
    &&& r.public == true
    &&& r.holiday == true
}

/// The snapshot fields a bare, non-holiday date yields.
pub open spec fn spec_date_response(r: Response, d: CivilDate) -> bool {
    &&& r.name is None
    &&& r.date@ == spec_iso_date(d)
    &&& r.year == d.year
    &&& r.month == d.month
    &&& r.day == d.day
    &&& r.day_of_week@ == spec_weekday_name(spec_weekday(d))
    &&& r.day_of_week_ja@ == spec_weekday_ja(spec_weekday(d))
    &&& r.public == false
    &&& r.holiday == is_weekend(d)
}

impl Response {
    /// The single-character Japanese name of a weekday.
    pub fn to_japanese_weekday(weekday: Weekday) -> (r: &'static str)
        ensures
            r@ == spec_weekday_ja(weekday),
    {
        match weekday {
            Weekday::Mon => "月",
            Weekday::Tue => "火",
            Weekday::Wed => "水",
            Weekday::Thu => "木",
            Weekday::Fri => "金",
            Weekday::Sat => "土",
            Weekday::Sun => "日",
        }
    }

    /// The snapshot of a gazetted holiday: named, `public` and `holiday`
    /// both set.
    pub fn from_holiday(h: &Holiday) -> (r: Response)
        requires
            h.date.valid(),
            h.date.year >= 0,
        ensures
            spec_holiday_response(r, h@),
    {
        let w = weekday(h.date);
        Response {
            name: Some(h.name.clone()),
            date: iso_date_string(h.date),
            year: h.date.year,
            month: h.date.month,
            day: h.date.day,
            day_of_week: String::from_str(weekday_name(w)),
            day_of_week_ja: String::from_str(Response::to_japanese_weekday(w)),
            public: true,
            holiday: true,
        }
    }

    /// The snapshot of a date with no gazetted holiday: unnamed, `public`
    /// clear, `holiday` set exactly on weekends.
    pub fn from_date(date: CivilDate) -> (r: Response)
        requires
            date.valid(),
            date.year >= 0,
        ensures
            spec_date_response(r, date),
    {
        let w = weekday(date);
        let weekend = match w {
            Weekday::Sat => true,
            Weekday::Sun => true,
            _ => false,
        };
        proof {
            assert(0 <= weekday_index(date) < 7);
            assert(weekend == is_weekend(date));
        }
        Response {
            name: None,
            date: iso_date_string(date),
            year: date.year,
            month: date.month,
            day: date.day,
            day_of_week: String::from_str(weekday_name(w)),
            day_of_week_ja: String::from_str(Response::to_japanese_weekday(w)),
            public: false,
            holiday: weekend,
        }
    }
}

} // verus!
