//! The calendar: an immutable sorted date-to-name mapping and its queries.

use vstd::prelude::*;
use vstd::pervasive::VecAdditionalExecFns;

use crate::date::{
    CivilDate,
    Weekday,
    date_key,
    date_lt,
    date_le,
    lemma_key_order,
    weekday,
    weekday_index,
    is_weekend,
};
use crate::error::Error;
use crate::holiday::{
    Holiday,
    view_records,
    spec_parse_csv,
    spec_split_lines,
    lemma_parse_records_wf,
    lemma_parse_csv_record_wf,
    lemma_format_parse_roundtrip,
    record_wf,
    spec_format_csv,
};
use crate::text::{i32_to_string, u32_to_string};
use crate::util::{sjis_decode, to_utf8};

verus! {

/// An entry list that is a well-formed calendar: every date valid, dates
/// strictly ascending.
pub open spec fn calendar_wf(s: Seq<(CivilDate, Seq<char>)>) -> bool {
    &&& (forall|i: int| 0 <= i < s.len() ==> (#[trigger] s[i]).0.valid())
    &&& (forall|i: int, j: int|
        0 <= i < j < s.len() ==> date_key(s[i].0) < date_key(s[j].0))
}

/// The name bound to a date by an entry sequence, where a later entry
/// overrides an earlier one with the same date (last write wins).
pub open spec fn seq_lookup(s: Seq<(CivilDate, Seq<char>)>, d: CivilDate) -> Option<Seq<char>>
    decreases s.len(),
{
    if s.len() == 0 {
        None
    } else if s.last().0 == d {
        Some(s.last().1)
    } else {
        seq_lookup(s.drop_last(), d)
    }
}

/// In a sequence where `d` occurs at exactly one position, the lookup
/// returns that position's name.
pub proof fn lemma_seq_lookup_at(s: Seq<(CivilDate, Seq<char>)>, p: int)
    requires
        0 <= p < s.len(),
        forall|j: int| 0 <= j < s.len() && j != p ==> (#[trigger] s[j]).0 != s[p].0,
    ensures
        seq_lookup(s, s[p].0) == Some(s[p].1),
    decreases s.len(),
{
    if p == s.len() - 1 {
    } else {
        assert(s.last().0 != s[p].0);
        lemma_seq_lookup_at(s.drop_last(), p);
    }
}

/// A date occurring nowhere in the sequence looks up to nothing.
pub proof fn lemma_seq_lookup_none(s: Seq<(CivilDate, Seq<char>)>, d: CivilDate)
    requires
        forall|j: int| 0 <= j < s.len() ==> (#[trigger] s[j]).0 != d,
    ensures
        seq_lookup(s, d) is None,
    decreases s.len(),
{
    if s.len() > 0 {
        lemma_seq_lookup_none(s.drop_last(), d);
    }
}

/// For all record lists, a date bound by several records is looked up to
/// the name of the record appearing last in the list: together with the
/// contract of `Client::from_records`, the calendar built from the list
/// retains exactly that name.
pub proof fn lemma_last_record_wins(records: Seq<(CivilDate, Seq<char>)>, i: int)
    requires
        0 <= i < records.len(),
        forall|j: int| i < j < records.len() ==> (#[trigger] records[j]).0 != records[i].0,
    ensures
        seq_lookup(records, records[i].0) == Some(records[i].1),
    decreases records.len(),
{
    if i < records.len() - 1 {
        lemma_last_record_wins(records.drop_last(), i);
    }
}

/// A successful lookup returns the name of some entry with that date.
pub proof fn lemma_seq_lookup_binding(s: Seq<(CivilDate, Seq<char>)>, d: CivilDate)
    ensures
        match seq_lookup(s, d) {
            Some(n) => exists|j: int| 0 <= j < s.len() && s[j] == (d, n),
            None => true,
        },
    decreases s.len(),
{
    if s.len() > 0 && s.last().0 != d {
        lemma_seq_lookup_binding(s.drop_last(), d);
        if seq_lookup(s, d) is Some {
            let n = seq_lookup(s, d)->Some_0;
            let j = choose|j: int| 0 <= j < s.drop_last().len() && s.drop_last()[j] == (d, n);
            assert(s[j] == (d, n));
        }
    }
}

/// In a well-formed calendar all dates are distinct: the keys are strictly
/// increasing.
pub proof fn lemma_wf_distinct(s: Seq<(CivilDate, Seq<char>)>)
    requires
        calendar_wf(s),
    ensures
        forall|i: int, j: int|
            0 <= i < s.len() && 0 <= j < s.len() && i != j ==> (#[trigger] s[i]).0 != (
            #[trigger] s[j]).0,
{
    assert forall|i: int, j: int|
        0 <= i < s.len() && 0 <= j < s.len() && i != j implies (#[trigger] s[i]).0 != (
    #[trigger] s[j]).0 by {
        if s[i].0 == s[j].0 {
            assert(date_key(s[i].0) == date_key(s[j].0));
        }
    }
}

/// An `InvalidDate` error naming the offending year/month/day triple.
fn ymd_error(year: i32, month: u32, day: u32) -> (e: Error)
    ensures
        e is InvalidDate,
{
    let mut m = String::from_str("invalid date: ");
    let ys = i32_to_string(year);
    m.append(ys.as_str());
    m.append("/");
    let ms = u32_to_string(month);
    m.append(ms.as_str());
    m.append("/");
    let ds = u32_to_string(day);
    m.append(ds.as_str());
    Error::InvalidDate(m)
}

/// The holiday calendar: an immutable mapping from civil dates to holiday
/// names, built once from parsed records and then only queried.
pub struct Client {
    data: Vec<Holiday>,
}

impl View for Client {
    type V = Seq<(CivilDate, Seq<char>)>;

    closed spec fn view(&self) -> Seq<(CivilDate, Seq<char>)> {
        view_records(self.data@)
    }
}

impl Client {
    #[verifier::type_invariant]
    closed spec fn type_inv(self) -> bool {
        calendar_wf(view_records(self.data@))
    }

    /// Folds parsed records into a calendar: the result binds exactly the
    /// dates the record list binds, and a date occurring on several records
    /// gets the name of the record appearing last.
    pub fn from_records(records: &Vec<Holiday>) -> (r: Client)
        requires
            forall|k: int| 0 <= k < records@.len() ==> (#[trigger] records@[k]).date.valid(),
        ensures
            calendar_wf(r@),
            forall|d: CivilDate| #[trigger] seq_lookup(r@, d) == seq_lookup(
                view_records(records@),
                d,
            ),
    {
        let mut data: Vec<Holiday> = Vec::new();
        let n = records.len();
        let mut i: usize = 0;
        proof {
            assert(view_records(data@) =~= Seq::<(CivilDate, Seq<char>)>::empty());
            assert(view_records(records@.take(0)) =~= Seq::<(CivilDate, Seq<char>)>::empty());
        }
        while i < n
            invariant
                0 <= i <= n,
                n == records@.len(),
                forall|k: int| 0 <= k < records@.len() ==> (#[trigger] records@[k]).date.valid(),
                calendar_wf(view_records(data@)),
                forall|k: int| 0 <= k < data@.len() ==> (#[trigger] data@[k]).date.valid(),
                forall|d: CivilDate| #[trigger] seq_lookup(view_records(data@), d) == seq_lookup(
                    view_records(records@.take(i as int)),
                    d,
                ),
            decreases n - i,
        {
            let d = records[i].date;
            let name = records[i].name.clone();
            let h = Holiday { date: d, name };
            let ghost old_v = view_records(data@);
            let ghost pre_records = view_records(records@.take(i as int));
            proof {
                assert(h@ == records@[i as int]@);
                assert(records@.take(i + 1).drop_last() =~= records@.take(i as int));
                assert(records@.take(i + 1).last() == records@[i as int]);
                assert(view_records(records@.take(i + 1)) =~= pre_records.push((d, h.name@)));
                assert(view_records(records@.take(i + 1)).drop_last() =~= pre_records);
                assert(view_records(records@.take(i + 1)).last() == (d, records@[i as int].name@));
                lemma_wf_distinct(old_v);
            }
            // Find the insertion point: the first entry not below the new date.
            let mut p: usize = 0;
            while p < data.len() && data[p].date.lt(&d)
                invariant
                    0 <= p <= data@.len(),
                    calendar_wf(view_records(data@)),
                    old_v == view_records(data@),
                    forall|k: int| 0 <= k < data@.len() ==> (#[trigger] data@[k]).date.valid(),
                    d.valid(),
                    forall|k: int| 0 <= k < p ==> date_key(#[trigger] old_v[k].0) < date_key(d),
                decreases data@.len() - p,
            {
                p = p + 1;
            }
            if p < data.len() && data[p].date == d {
                // Same date: the later record overrides the earlier name.
                data.set(p, h);
                proof {
                    let new_v = view_records(data@);
                    assert(new_v =~= old_v.update(p as int, (d, records@[i as int].name@)));
                    assert(forall|k: int|
                        0 <= k < new_v.len() ==> (#[trigger] new_v[k]).0 == old_v[k].0);
                    assert(calendar_wf(new_v));
                    assert(forall|k: int|
                        0 <= k < data@.len() ==> (#[trigger] data@[k]).date == new_v[k].0);
                    lemma_wf_distinct(new_v);
                    let tv = view_records(records@.take(i + 1));
                    assert forall|q: CivilDate| #[trigger] seq_lookup(new_v, q) == seq_lookup(
                        view_records(records@.take(i + 1)),
                        q,
                    ) by {
                        assert(seq_lookup(tv, q) == if q == d {
                            Some(records@[i as int].name@)
                        } else {
                            seq_lookup(pre_records, q)
                        });
                        if q == d {
                            lemma_seq_lookup_at(new_v, p as int);
                        } else {
                            if exists|j: int| 0 <= j < old_v.len() && (#[trigger] old_v[j]).0
                                == q {
                                let j = choose|j: int|
                                    0 <= j < old_v.len() && (#[trigger] old_v[j]).0 == q;
                                lemma_seq_lookup_at(old_v, j);
                                lemma_seq_lookup_at(new_v, j);
                            } else {
                                lemma_seq_lookup_none(old_v, q);
                                lemma_seq_lookup_none(new_v, q);
                            }
                        }
                    }
                }
            } else {
                proof {
                    // The new date differs from every present date by key.
                    if p < data@.len() {
                        lemma_key_order(old_v[p as int].0, d);
                    }
                    assert(forall|k: int|
                        p <= k < old_v.len() ==> date_key(d) < date_key(
                            #[trigger] old_v[k].0,
                        ));
                }
                data.insert(p, h);
                proof {
                    let new_v = view_records(data@);
                    assert(new_v =~= old_v.insert(p as int, (d, records@[i as int].name@)));
                    assert(forall|k: int| 0 <= k < p ==> new_v[k] == old_v[k]);
                    assert(forall|k: int|
                        p < k < new_v.len() ==> #[trigger] new_v[k] == old_v[k - 1]);
                    assert(new_v[p as int] == (d, records@[i as int].name@));
                    assert(calendar_wf(new_v));
                    assert(forall|k: int|
                        0 <= k < data@.len() ==> (#[trigger] data@[k]).date == new_v[k].0);
                    lemma_wf_distinct(new_v);
                    let tv = view_records(records@.take(i + 1));
                    assert forall|q: CivilDate| #[trigger] seq_lookup(new_v, q) == seq_lookup(
                        view_records(records@.take(i + 1)),
                        q,
                    ) by {
                        assert(seq_lookup(tv, q) == if q == d {
                            Some(records@[i as int].name@)
                        } else {
                            seq_lookup(pre_records, q)
                        });
                        if q == d {
                            lemma_seq_lookup_at(new_v, p as int);
                        } else {
                            if exists|j: int| 0 <= j < old_v.len() && (#[trigger] old_v[j]).0
                                == q {
                                let j = choose|j: int|
                                    0 <= j < old_v.len() && (#[trigger] old_v[j]).0 == q;
                                lemma_seq_lookup_at(old_v, j);
                                if j < p {
                                    lemma_seq_lookup_at(new_v, j);
                                } else {
                                    lemma_seq_lookup_at(new_v, j + 1);
                                }
                            } else {
                                lemma_seq_lookup_none(old_v, q);
                                lemma_seq_lookup_none(new_v, q);
                            }
                        }
                    }
                }
            }
            i = i + 1;
        }
        proof {
            assert(records@.take(n as int) =~= records@);
        }
        Client { data }
    }

    /// Builds the calendar from the raw Shift-JIS CSV bytes: strict decode,
    /// fail-fast parse, then the fold. The length bound is the decoder's
    /// machine limit.
    pub fn from_csv_bytes(bytes: &[u8]) -> (r: Result<Client, Error>)
        requires
            bytes@.len() <= usize::MAX / 8,
        ensures
            match r {
                Ok(c) => {
                    &&& !sjis_decode(bytes@).1
                    &&& spec_parse_csv(sjis_decode(bytes@).0) is Some
                    &&& calendar_wf(c@)
                    &&& forall|d: CivilDate| #[trigger] seq_lookup(c@, d) == seq_lookup(
                        spec_parse_csv(sjis_decode(bytes@).0)->Some_0,
                        d,
                    )
                },
                Err(e) => match e {
                    Error::Decode(_) => sjis_decode(bytes@).1,
                    Error::Parse(_) => !sjis_decode(bytes@).1 && spec_parse_csv(
                        sjis_decode(bytes@).0,
                    ) is None,
                    _ => false,
                },
            },
    {
        let csv = match to_utf8(bytes) {
            Ok(s) => s,
            Err(e) => {
                return Err(e);
            },
        };
        let records = match Holiday::deserialize_from_csv(csv.as_str()) {
            Ok(rs) => rs,
            Err(e) => {
                return Err(e);
            },
        };
        proof {
            lemma_parse_records_wf(spec_split_lines(csv@).skip(1));
            assert forall|k: int| 0 <= k < records@.len() implies (
            #[trigger] records@[k]).date.valid() by {
                assert(view_records(records@)[k] == records@[k]@);
            }
        }
        Ok(Client::from_records(&records))
    }

    /// Exact-date lookup: the name the mapping binds to the date, nothing
    /// when the date is no gazetted holiday.
    pub fn get_holiday(&self, date: CivilDate) -> (r: Option<&str>)
        requires
            date.valid(),
        ensures
            match r {
                Some(s) => seq_lookup(self@, date) == Some(s@),
                None => seq_lookup(self@, date) is None,
            },
    {
        proof {
            use_type_invariant(&*self);
            assert forall|k: int| 0 <= k < self.data@.len() implies (
            #[trigger] self.data@[k]).date.valid() by {
                assert(view_records(self.data@)[k] == self.data@[k]@);
            }
        }
        let mut lo: usize = 0;
        let mut hi: usize = self.data.len();
        while lo < hi
            invariant
                0 <= lo <= hi <= self.data@.len(),
                calendar_wf(self@),
                self@ == view_records(self.data@),
                forall|k: int| 0 <= k < self.data@.len() ==> (#[trigger] self.data@[k]).date.valid(),
                date.valid(),
                forall|k: int| 0 <= k < lo ==> date_key((#[trigger] self@[k]).0) < date_key(date),
                forall|k: int|
                    hi <= k < self@.len() ==> date_key((#[trigger] self@[k]).0) >= date_key(date),
            decreases hi - lo,
        {
            let mid = lo + (hi - lo) / 2;
            if self.data[mid].date.lt(&date) {
                proof {
                    assert forall|k: int| 0 <= k < mid + 1 implies date_key(
                        (#[trigger] self@[k]).0,
                    ) < date_key(date) by {
                        if lo <= k < mid {
                            assert(date_key(self@[k].0) < date_key(self@[mid as int].0));
                        }
                    }
                }
                lo = mid + 1;
            } else {
                proof {
                    assert forall|k: int| mid <= k < self@.len() implies date_key(
                        (#[trigger] self@[k]).0,
                    ) >= date_key(date) by {
                        if k > mid {
                            assert(date_key(self@[mid as int].0) < date_key(self@[k].0));
                        }
                    }
                }
                hi = mid;
            }
        }
        if lo < self.data.len() && (self.data[lo].date == date) {
            proof {
                lemma_wf_distinct(self@);
                lemma_seq_lookup_at(self@, lo as int);
            }
            Some(self.data[lo].name.as_str())
        } else {
            proof {
                assert forall|k: int| 0 <= k < self@.len() implies (#[trigger] self@[k]).0
                    != date by {
                    if k >= lo {
                        if k > lo {
                            assert(date_key(self@[lo as int].0) >= date_key(date));
                            assert(date_key(self@[k].0) > date_key(self@[lo as int].0));
                        }
                        if self@[k].0 == date {
                            assert(date_key(self@[k].0) == date_key(date));
                        }
                    } else {
                        if self@[k].0 == date {
                            assert(date_key(self@[k].0) == date_key(date));
                        }
                    }
                }
                lemma_seq_lookup_none(self@, date);
            }
            None
        }
    }

    /// The date is a gazetted holiday: exactly when the lookup succeeds.
    pub fn is_holiday(&self, date: CivilDate) -> (r: bool)
        requires
            date.valid(),
        ensures
            r == (seq_lookup(self@, date) is Some),
    {
        match self.get_holiday(date) {
            Some(_) => true,
            None => false,
        }
    }

    /// The date is a day off: its weekday is Saturday or Sunday, or it is a
    /// gazetted holiday.
    pub fn is_day_off(&self, date: CivilDate) -> (r: bool)
        requires
            date.valid(),
        ensures
            r == (is_weekend(date) || seq_lookup(self@, date) is Some),
    {
        let w = weekday(date);
        let weekend = match w {
            Weekday::Sat => true,
            Weekday::Sun => true,
            _ => false,
        };
        proof {
            assert(0 <= weekday_index(date) < 7);
            assert(weekend == is_weekend(date));
        }
        weekend || self.is_holiday(date)
    }

    /// All entries, ascending by date: the full mapping.
    pub fn list_holidays(&self) -> (r: &Vec<Holiday>)
        ensures
            view_records(r@) == self@,
            calendar_wf(self@),
    {
        proof {
            use_type_invariant(&*self);
        }
        &self.data
    }

    /// The entries whose date lies in `[start, end)`, ascending; the end
    /// date itself is never included.
    pub fn range(&self, start: CivilDate, end: CivilDate) -> (r: Vec<Holiday>)
        requires
            start.valid(),
            end.valid(),
        ensures
            view_records(r@) == self@.filter(
                |e: (CivilDate, Seq<char>)| date_le(start, e.0) && date_lt(e.0, end),
            ),
            calendar_wf(view_records(r@)),
    {
        let ghost pred = |e: (CivilDate, Seq<char>)| date_le(start, e.0) && date_lt(e.0, end);
        proof {
            use_type_invariant(&*self);
            assert forall|k: int| 0 <= k < self.data@.len() implies (
            #[trigger] self.data@[k]).date.valid() by {
                assert(view_records(self.data@)[k] == self.data@[k]@);
            }
            reveal(Seq::filter);
            assert(self@.take(0).filter(pred) =~= Seq::<(CivilDate, Seq<char>)>::empty());
            assert(view_records(Seq::<Holiday>::empty()) =~= Seq::<(CivilDate, Seq<char>)>::empty());
        }
        let mut out: Vec<Holiday> = Vec::new();
        let n = self.data.len();
        let mut k: usize = 0;
        while k < n
            invariant
                0 <= k <= n,
                n == self.data@.len(),
                self@ == view_records(self.data@),
                calendar_wf(self@),
                forall|j: int| 0 <= j < self.data@.len() ==> (#[trigger] self.data@[j]).date.valid(),
                start.valid(),
                end.valid(),
                pred == (|e: (CivilDate, Seq<char>)| date_le(start, e.0) && date_lt(e.0, end)),
                view_records(out@) == self@.take(k as int).filter(pred),
                calendar_wf(view_records(out@)),
                forall|j: int, m: int|
                    0 <= j < out@.len() && k <= m < self@.len() ==> date_key(
                        (#[trigger] view_records(out@)[j]).0,
                    ) < date_key((#[trigger] self@[m]).0),
            decreases n - k,
        {
            let ghost prev_out = view_records(out@);
            proof {
                reveal(Seq::filter);
                assert(self@.take(k + 1).drop_last() =~= self@.take(k as int));
                assert(self@.take(k + 1).last() == self@[k as int]);
            }
            if start.le(&self.data[k].date) && self.data[k].date.lt(&end) {
                let h = Holiday {
                    date: self.data[k].date,
                    name: self.data[k].name.clone(),
                };
                proof {
                    assert(h@ == self@[k as int]);
                    assert(pred(self@[k as int]));
                }
                out.push(h);
                proof {
                    reveal(Seq::filter);
                    assert(view_records(out@) =~= prev_out.push(self@[k as int]));
                    assert(view_records(out@) =~= self@.take(k + 1).filter(pred));
                }
            } else {
                proof {
                    reveal(Seq::filter);
                    assert(!pred(self@[k as int]));
                    assert(view_records(out@) =~= self@.take(k + 1).filter(pred));
                }
            }
            k = k + 1;
        }
        proof {
            assert(self@.take(n as int) =~= self@);
        }
        out
    }

    /// Exact-date lookup from a year/month/day triple; an invalid triple is
    /// an `InvalidDate` error, not a lookup miss.
    pub fn get_holiday_ymd(&self, year: i32, month: u32, day: u32) -> (r: Result<
        Option<&str>,
        Error,
    >)
        ensures
            match r {
                Ok(o) => (CivilDate { year, month, day }).valid() && match o {
                    Some(s) => seq_lookup(self@, (CivilDate { year, month, day })) == Some(s@),
                    None => seq_lookup(self@, (CivilDate { year, month, day })) is None,
                },
                Err(e) => !(CivilDate { year, month, day }).valid() && e is InvalidDate,
            },
    {
        match CivilDate::from_ymd(year, month, day) {
            Some(d) => Ok(self.get_holiday(d)),
            None => Err(ymd_error(year, month, day)),
        }
    }

    /// Holiday check from a year/month/day triple; an invalid triple is an
    /// `InvalidDate` error.
    pub fn is_holiday_ymd(&self, year: i32, month: u32, day: u32) -> (r: Result<bool, Error>)
        ensures
            match r {
                Ok(b) => (CivilDate { year, month, day }).valid() && b == (seq_lookup(
                    self@,
                    (CivilDate { year, month, day }),
                ) is Some),
                Err(e) => !(CivilDate { year, month, day }).valid() && e is InvalidDate,
            },
    {
        match CivilDate::from_ymd(year, month, day) {
            Some(d) => Ok(self.is_holiday(d)),
            None => Err(ymd_error(year, month, day)),
        }
    }

    /// Day-off check (weekend or holiday) from a year/month/day triple; an
    /// invalid triple is an `InvalidDate` error.
    pub fn is_day_off_ymd(&self, year: i32, month: u32, day: u32) -> (r: Result<bool, Error>)
        ensures
            match r {
                Ok(b) => (CivilDate { year, month, day }).valid() && b == (is_weekend(
                    (CivilDate { year, month, day }),
                ) || seq_lookup(self@, (CivilDate { year, month, day })) is Some),
                Err(e) => !(CivilDate { year, month, day }).valid() && e is InvalidDate,
            },
    {
        match CivilDate::from_ymd(year, month, day) {
            Some(d) => Ok(self.is_day_off(d)),
            None => Err(ymd_error(year, month, day)),
        }
    }
}

/// Every entry of a calendar that agrees, lookup for lookup, with a list of
/// well-formed records is itself a well-formed record: each entry is some
/// record's binding.
pub proof fn lemma_calendar_entries_wf(
    entries: Seq<(CivilDate, Seq<char>)>,
    records: Seq<(CivilDate, Seq<char>)>,
)
    requires
        calendar_wf(entries),
        forall|q: CivilDate| #[trigger] seq_lookup(entries, q) == seq_lookup(records, q),
        forall|k: int| 0 <= k < records.len() ==> record_wf(#[trigger] records[k]),
    ensures
        forall|k: int| 0 <= k < entries.len() ==> record_wf(#[trigger] entries[k]),
{
    lemma_wf_distinct(entries);
    assert forall|k: int| 0 <= k < entries.len() implies record_wf(#[trigger] entries[k]) by {
        let (d, n) = entries[k];
        lemma_seq_lookup_at(entries, k);
        assert(seq_lookup(entries, d) == Some(n));
        assert(seq_lookup(records, d) == Some(n));
        lemma_seq_lookup_binding(records, d);
        let j = choose|j: int| 0 <= j < records.len() && records[j] == (d, n);
        assert(record_wf(records[j]));
    }
}

/// Round trip at the calendar level: the entries of a calendar built from
/// any successfully parsed feed, formatted as feed lines and re-parsed,
/// yield exactly those entries — and so, re-folded, the same mapping. The
/// duplicates the first parse carried were folded away and stay away.
pub proof fn lemma_calendar_roundtrip(text: Seq<char>, entries: Seq<(CivilDate, Seq<char>)>)
    requires
        spec_parse_csv(text) is Some,
        calendar_wf(entries),
        forall|q: CivilDate| #[trigger] seq_lookup(entries, q) == seq_lookup(
            spec_parse_csv(text)->Some_0,
            q,
        ),
    ensures
        spec_parse_csv(spec_format_csv(entries)) == Some(entries),
{
    lemma_parse_csv_record_wf(text);
    lemma_calendar_entries_wf(entries, spec_parse_csv(text)->Some_0);
    lemma_format_parse_roundtrip(entries);
}

} // verus!
