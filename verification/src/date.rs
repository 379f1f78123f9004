//! Civil (proleptic Gregorian) dates: validity, ordering, weekdays.

use vstd::prelude::*;

verus! {

/// A civil date: a year/month/day triple with no time of day or time zone.
/// Years are astronomical (signed); months run 1..=12, days 1..=31 subject
/// to the Gregorian month-length and leap-year rules.
#[derive(Clone, Copy, Debug, PartialEq, Eq, Structural, Hash)]
pub struct CivilDate {
    pub year: i32,
    pub month: u32,
    pub day: u32,
}

/// A day of the week, Monday through Sunday.
#[derive(Clone, Copy, Debug, PartialEq, Eq, Structural, Hash)]
pub enum Weekday {
    Mon,
    Tue,
    Wed,
    Thu,
    Fri,
    Sat,
    Sun,
}

/// A Gregorian year is a leap year when it is divisible by 4 but not by 100,
/// or divisible by 400.
pub open spec fn spec_is_leap_year(y: int) -> bool {
    (y % 4 == 0 && y % 100 != 0) || y % 400 == 0
}

/// Number of days in the given month of the given year.
pub open spec fn spec_days_in_month(y: int, m: int) -> int {
    if m == 2 {
        if spec_is_leap_year(y) {
            29
        } else {
            28
        }
    } else if m == 4 || m == 6 || m == 9 || m == 11 {
        30
    } else {
        31
    }
}

impl CivilDate {
    /// The triple names an existing calendar day.
    pub open spec fn valid(self) -> bool {
        &&& 1 <= self.month <= 12
        &&& 1 <= self.day <= spec_days_in_month(self.year as int, self.month as int)
    }
}

/// Dates ordered as a single integer: lexicographic on (year, month, day)
/// once months and days are packed into disjoint bit ranges.
pub open spec fn date_key(d: CivilDate) -> int {
    (d.year as int) * 4096 + (d.month as int) * 64 + (d.day as int)
}

pub open spec fn date_lt(a: CivilDate, b: CivilDate) -> bool {
    date_key(a) < date_key(b)
}

pub open spec fn date_le(a: CivilDate, b: CivilDate) -> bool {
    date_key(a) <= date_key(b)
}

/// Packing the fields keeps the lexicographic order, so the key order and the
/// field-by-field order agree on valid dates.
pub proof fn lemma_key_order(a: CivilDate, b: CivilDate)
    requires
        a.valid(),
        b.valid(),
    ensures
        date_lt(a, b) <==> (a.year < b.year || (a.year == b.year && (a.month < b.month || (a.month
            == b.month && a.day < b.day)))),
        date_key(a) == date_key(b) <==> a == b,
{
}

/// Days elapsed since 1970-01-01 (negative before it), by the standard
/// era-based count: years are shifted so each era is a 400-year cycle
/// beginning on March 1, and the day of the cycle is summed from the
/// day-of-year polynomial.
pub open spec fn day_number(d: CivilDate) -> int {
    let y = if d.month <= 2 {
        d.year as int - 1
    } else {
        d.year as int
    };
    let era = y / 400;
    let yoe = y - era * 400;
    let mp = if d.month >= 3 {
        d.month as int - 3
    } else {
        d.month as int + 9
    };
    let doy = (153 * mp + 2) / 5 + d.day as int - 1;
    let doe = yoe * 365 + yoe / 4 - yoe / 100 + doy;
    era * 146097 + doe - 719468
}

/// Weekday of a date as an index, 0 = Monday .. 6 = Sunday.
/// Day 0 of the count (1970-01-01) is a Thursday, index 3.
pub open spec fn weekday_index(d: CivilDate) -> int {
    (day_number(d) + 3) % 7
}

pub open spec fn weekday_of_index(i: int) -> Weekday {
    if i == 0 {
        Weekday::Mon
    } else if i == 1 {
        Weekday::Tue
    } else if i == 2 {
        Weekday::Wed
    } else if i == 3 {
        Weekday::Thu
    } else if i == 4 {
        Weekday::Fri
    } else if i == 5 {
        Weekday::Sat
    } else {
        Weekday::Sun
    }
}

pub open spec fn spec_weekday(d: CivilDate) -> Weekday {
    weekday_of_index(weekday_index(d))
}

/// The date falls on a Saturday or a Sunday.
pub open spec fn is_weekend(d: CivilDate) -> bool {
    weekday_index(d) >= 5
}

pub fn is_leap_year(y: i32) -> (r: bool)
    ensures
        r == spec_is_leap_year(y as int),
{
    (y % 4 == 0 && y % 100 != 0) || y % 400 == 0
}

pub fn days_in_month(y: i32, m: u32) -> (r: u32)
    requires
        1 <= m <= 12,
    ensures
        r as int == spec_days_in_month(y as int, m as int),
{
    if m == 2 {
        if is_leap_year(y) {
            29
        } else {
            28
        }
    } else if m == 4 || m == 6 || m == 9 || m == 11 {
        30
    } else {
        31
    }
}

/// The calendar day after a date: the next day of the month, else the first
/// of the next month, else New Year's Day of the next year.
pub open spec fn spec_next_day(d: CivilDate) -> CivilDate {
    if (d.day as int) < spec_days_in_month(d.year as int, d.month as int) {
        CivilDate { year: d.year, month: d.month, day: (d.day + 1) as u32 }
    } else if d.month < 12 {
        CivilDate { year: d.year, month: (d.month + 1) as u32, day: 1 }
    } else {
        CivilDate { year: (d.year + 1) as i32, month: 1, day: 1 }
    }
}

/// Steps a valid date to the next calendar day, which is valid and later.
pub fn next_day(d: CivilDate) -> (r: CivilDate)
    requires
        d.valid(),
        d.year < i32::MAX,
    ensures
        r == spec_next_day(d),
        r.valid(),
        date_lt(d, r),
{
    let dim = days_in_month(d.year, d.month);
    if d.day < dim {
        CivilDate { year: d.year, month: d.month, day: d.day + 1 }
    } else if d.month < 12 {
        CivilDate { year: d.year, month: d.month + 1, day: 1 }
    } else {
        CivilDate { year: d.year + 1, month: 1, day: 1 }
    }
}

/// Consecutive calendar days have consecutive day numbers, so the weekday
/// advances by exactly one step, wrapping after Sunday: the day count and
/// the calendar structure agree.
pub proof fn lemma_day_number_next(d: CivilDate)
    requires
        d.valid(),
        d.year < i32::MAX,
    ensures
        day_number(spec_next_day(d)) == day_number(d) + 1,
        weekday_index(spec_next_day(d)) == (weekday_index(d) + 1) % 7,
{
    let yy = d.year as int;
    let m = d.month as int;
    let dd = d.day as int;
    let nx = spec_next_day(d);
    if dd < spec_days_in_month(yy, m) {
        // Within a month the day-of-year term grows by one.
    } else if m == 2 {
        // February 28 or 29 to March 1: the shifted year advances, and the
        // length of February accounts exactly for the leap-day corrections
        // in the era arithmetic.
        let y = yy - 1;
        let era = y / 400;
        vstd::arithmetic::div_mod::lemma_fundamental_div_mod(y, 400);
        vstd::arithmetic::div_mod::lemma_mod_division_less_than_divisor(y, 400);
        let yoe = y - era * 400;
        assert(yoe == y % 400);
        assert(0 <= yoe < 400);
        if yoe == 399 {
            // The new year is a multiple of 400: a leap year, and the era
            // advances.
            assert(yy == (era + 1) * 400);
            vstd::arithmetic::div_mod::lemma_mod_multiples_basic(era + 1, 400);
            assert(yy % 400 == 0);
            vstd::arithmetic::div_mod::lemma_mod_multiples_basic((era + 1) * 100, 4);
            assert(yy % 4 == 0);
            assert(spec_is_leap_year(yy));
            assert(spec_days_in_month(yy, 2) == 29);
            vstd::arithmetic::div_mod::lemma_fundamental_div_mod_converse_div(
                yy,
                400,
                era + 1,
                0,
            );
            assert(yy / 400 == era + 1);
            assert(day_number(nx) == day_number(d) + 1);
        } else {
            // The era is unchanged; the year-of-era advances by one. The
            // quarter and century quotients jump exactly when the new year
            // of era is divisible by 4 or by 100, which matches the leap
            // rule for the new year.
            let q4 = yoe / 4;
            let r4 = yoe % 4;
            vstd::arithmetic::div_mod::lemma_fundamental_div_mod(yoe, 4);
            vstd::arithmetic::div_mod::lemma_mod_division_less_than_divisor(yoe, 4);
            let q100 = yoe / 100;
            let r100 = yoe % 100;
            vstd::arithmetic::div_mod::lemma_fundamental_div_mod(yoe, 100);
            vstd::arithmetic::div_mod::lemma_mod_division_less_than_divisor(yoe, 100);
            // The new shifted year has the same era.
            vstd::arithmetic::div_mod::lemma_fundamental_div_mod_converse_div(
                y + 1,
                400,
                era,
                yoe + 1,
            );
            assert((y + 1) / 400 == era);
            // Quotient steps for the divisor 4.
            if r4 == 3 {
                vstd::arithmetic::div_mod::lemma_fundamental_div_mod_converse_div(
                    yoe + 1,
                    4,
                    q4 + 1,
                    0,
                );
                vstd::arithmetic::div_mod::lemma_fundamental_div_mod_converse(
                    yoe + 1,
                    4,
                    q4 + 1,
                    0,
                );
            } else {
                vstd::arithmetic::div_mod::lemma_fundamental_div_mod_converse_div(
                    yoe + 1,
                    4,
                    q4,
                    r4 + 1,
                );
                vstd::arithmetic::div_mod::lemma_fundamental_div_mod_converse(
                    yoe + 1,
                    4,
                    q4,
                    r4 + 1,
                );
            }
            // Quotient steps for the divisor 100.
            if r100 == 99 {
                vstd::arithmetic::div_mod::lemma_fundamental_div_mod_converse_div(
                    yoe + 1,
                    100,
                    q100 + 1,
                    0,
                );
                vstd::arithmetic::div_mod::lemma_fundamental_div_mod_converse(
                    yoe + 1,
                    100,
                    q100 + 1,
                    0,
                );
            } else {
                vstd::arithmetic::div_mod::lemma_fundamental_div_mod_converse_div(
                    yoe + 1,
                    100,
                    q100,
                    r100 + 1,
                );
                vstd::arithmetic::div_mod::lemma_fundamental_div_mod_converse(
                    yoe + 1,
                    100,
                    q100,
                    r100 + 1,
                );
            }
            // The new year's leap rule, read off the year of era.
            vstd::arithmetic::div_mod::lemma_mod_multiples_vanish(100 * era, yoe + 1, 4);
            assert(yy % 4 == (yoe + 1) % 4);
            vstd::arithmetic::div_mod::lemma_mod_multiples_vanish(4 * era, yoe + 1, 100);
            assert(yy % 100 == (yoe + 1) % 100);
            vstd::arithmetic::div_mod::lemma_mod_multiples_vanish(era, yoe + 1, 400);
            vstd::arithmetic::div_mod::lemma_small_mod((yoe + 1) as nat, 400nat);
            assert(yy % 400 == yoe + 1);
            // A year of era divisible by 100 is divisible by 4.
            if (yoe + 1) % 100 == 0 {
                assert(yoe + 1 == (q100 + 1) * 100);
                vstd::arithmetic::div_mod::lemma_mod_multiples_basic((q100 + 1) * 25, 4);
                assert((yoe + 1) % 4 == 0);
            }
            assert(day_number(nx) == day_number(d) + 1);
        }
    } else {
        // Month rollover away from February (December wraps the civil year,
        // but the shifted year is unchanged): the day-of-year polynomial
        // advances by exactly the month's length.
    }
    // The weekday index follows from the day count.
    vstd::arithmetic::div_mod::lemma_mod_multiples_vanish(
        (day_number(d) + 3) / 7,
        (day_number(d) + 3) % 7 + 1,
        7,
    );
    vstd::arithmetic::div_mod::lemma_fundamental_div_mod(day_number(d) + 3, 7);
    vstd::arithmetic::div_mod::lemma_mod_division_less_than_divisor(day_number(d) + 3, 7);
    assert((day_number(d) + 4) % 7 == ((day_number(d) + 3) % 7 + 1) % 7);
}

/// Computes the weekday of a valid date.
///
/// The year is shifted by a multiple of 400 so every intermediate quotient
/// and remainder is taken on a nonnegative value; the shift vanishes from
/// the weekday because a 400-year Gregorian cycle (146097 days) is a whole
/// number of weeks.
pub fn weekday(d: CivilDate) -> (w: Weekday)
    requires
        d.valid(),
    ensures
        w == spec_weekday(d),
{
    let y: i64 = if d.month <= 2 {
        d.year as i64 - 1
    } else {
        d.year as i64
    };
    let y2: i64 = y + 2_400_000_000;
    let era2: i64 = y2 / 400;
    let yoe: i64 = y2 % 400;
    let mp: i64 = if d.month >= 3 {
        d.month as i64 - 3
    } else {
        d.month as i64 + 9
    };
    let doy: i64 = (153 * mp + 2) / 5 + d.day as i64 - 1;
    let doe: i64 = yoe * 365 + yoe / 4 - yoe / 100 + doy;
    let idx: i64 = (doe + 2) % 7;
    proof {
        let yi = y as int;
        let era = yi / 400;
        vstd::arithmetic::div_mod::lemma_hoist_over_denominator(yi, 6_000_000, 400);
        vstd::arithmetic::div_mod::lemma_mod_multiples_vanish(6_000_000, yi, 400);
        vstd::arithmetic::div_mod::lemma_fundamental_div_mod(yi, 400);
        assert(yoe as int == yi - era * 400);
        let doe_i = doe as int;
        let dn = day_number(d);
        assert(dn + 3 == 7 * (era * 20871 - 102781) + (doe_i + 2));
        vstd::arithmetic::div_mod::lemma_mod_multiples_vanish(
            era * 20871 - 102781,
            doe_i + 2,
            7,
        );
        assert(weekday_index(d) == idx as int);
    }
    if idx == 0 {
        Weekday::Mon
    } else if idx == 1 {
        Weekday::Tue
    } else if idx == 2 {
        Weekday::Wed
    } else if idx == 3 {
        Weekday::Thu
    } else if idx == 4 {
        Weekday::Fri
    } else if idx == 5 {
        Weekday::Sat
    } else {
        Weekday::Sun
    }
}

impl CivilDate {
    /// Validates the triple into a calendar date.
    pub fn from_ymd(year: i32, month: u32, day: u32) -> (r: Option<CivilDate>)
        ensures
            match r {
                Some(d) => d == (CivilDate { year, month, day }) && d.valid(),
                None => !(CivilDate { year, month, day }).valid(),
            },
    {
        if 1 <= month && month <= 12 && 1 <= day && day <= days_in_month(year, month) {
            Some(CivilDate { year, month, day })
        } else {
            None
        }
    }

    /// Field-by-field strict order; agrees with `date_lt` on valid dates.
    pub fn lt(&self, other: &CivilDate) -> (r: bool)
        requires
            self.valid(),
            other.valid(),
        ensures
            r == date_lt(*self, *other),
    {
        proof {
            lemma_key_order(*self, *other);
        }
        self.year < other.year || (self.year == other.year && (self.month < other.month || (
        self.month == other.month && self.day < other.day)))
    }

    /// Field-by-field order; agrees with `date_le` on valid dates.
    pub fn le(&self, other: &CivilDate) -> (r: bool)
        requires
            self.valid(),
            other.valid(),
        ensures
            r == date_le(*self, *other),
    {
        proof {
            lemma_key_order(*self, *other);
            lemma_key_order(*other, *self);
        }
        !other.lt(self)
    }
}

} // verus!
