//! The feed's date pattern: `year/month/day` in plain decimal digits.

use vstd::prelude::*;

use crate::date::CivilDate;
use crate::error::Error;
use crate::text::{first_index_of, spec_parse_u32, find_char, parse_u32, lemma_first_index_of_props};

verus! {

/// The date the three parsed components name, if they form a valid
/// calendar date whose year fits a signed 32-bit year.
pub open spec fn spec_date_from_parts(y: Option<u32>, m: Option<u32>, d: Option<u32>) -> Option<
    CivilDate,
> {
    match (y, m, d) {
        (Some(yv), Some(mv), Some(dv)) => if yv <= i32::MAX as u32 {
            let c = CivilDate { year: yv as i32, month: mv, day: dv };
            if c.valid() {
                Some(c)
            } else {
                None
            }
        } else {
            None
        },
        _ => None,
    }
}

/// Strict parse of a date string: exactly `year/month/day`, each component a
/// nonempty run of decimal digits (leading zeros allowed, no sign), the
/// triple naming an existing calendar day. Anything else is rejected —
/// including a month/day pair invalid for the year, such as February 30.
pub open spec fn spec_parse_date(s: Seq<char>) -> Option<CivilDate> {
    let i = first_index_of(s, '/');
    if i < 0 {
        None
    } else {
        let j = first_index_of(s.skip(i + 1), '/');
        if j < 0 {
            None
        } else {
            spec_date_from_parts(
                spec_parse_u32(s.take(i)),
                spec_parse_u32(s.skip(i + 1).take(j)),
                spec_parse_u32(s.skip(i + 1).skip(j + 1)),
            )
        }
    }
}

/// Parses a date string against the fixed `year/month/day` pattern.
pub fn parse_date(s: &str) -> (r: Option<CivilDate>)
    ensures
        r == spec_parse_date(s@),
{
    let n = s.unicode_len();
    let i = match find_char(s, '/') {
        Some(i) => i,
        None => {
            return None;
        },
    };
    proof {
        lemma_first_index_of_props(s@, '/');
    }
    let rest = s.substring_char(i + 1, n);
    proof {
        assert(rest@ =~= s@.skip(i + 1));
    }
    let m = rest.unicode_len();
    let j = match find_char(rest, '/') {
        Some(j) => j,
        None => {
            return None;
        },
    };
    proof {
        lemma_first_index_of_props(rest@, '/');
    }
    let ys = s.substring_char(0, i);
    let ms = rest.substring_char(0, j);
    let ds = rest.substring_char(j + 1, m);
    proof {
        assert(ys@ =~= s@.take(i as int));
        assert(ms@ =~= s@.skip(i + 1).take(j as int));
        assert(ds@ =~= s@.skip(i + 1).skip(j + 1));
    }
    let yv = match parse_u32(ys) {
        Some(v) => v,
        None => {
            return None;
        },
    };
    let mv = match parse_u32(ms) {
        Some(v) => v,
        None => {
            return None;
        },
    };
    let dv = match parse_u32(ds) {
        Some(v) => v,
        None => {
            return None;
        },
    };
    if yv <= 0x7fff_ffff {
        CivilDate::from_ymd(yv as i32, mv, dv)
    } else {
        None
    }
}

/// Parses a date string, reporting failure as a `Parse` error that carries
/// the offending text.
pub fn deserialize(s: &str) -> (r: Result<CivilDate, Error>)
    ensures
        match r {
            Ok(d) => spec_parse_date(s@) == Some(d),
            Err(e) => spec_parse_date(s@) is None && e is Parse,
        },
{
    match parse_date(s) {
        Some(d) => Ok(d),
        None => {
            let mut msg = String::new();
            msg.append("invalid date: ");
            msg.append(s);
            Err(Error::Parse(msg))
        },
    }
}

} // verus!
