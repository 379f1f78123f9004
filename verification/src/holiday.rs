//! Tolerant line-based parsing of the holiday CSV into dated records.
//!
//! The first line is a header and is skipped regardless of content; blank
//! lines are skipped; every other line must be `date,name` with a strict
//! `year/month/day` date and a nonempty name, or the whole parse fails.

use vstd::prelude::*;

use crate::date::{CivilDate, date_le};
use crate::date_format::{spec_parse_date, parse_date};
use crate::error::Error;
use crate::text::{
    first_index_of,
    spec_trim,
    find_char,
    trim,
    lemma_first_index_of_props,
    lemma_first_index_of,
    spec_u32_digits,
    u32_to_string,
    lemma_u32_digits_roundtrip,
    is_digit,
    is_space,
    lemma_trim_of_fixed,
    lemma_trim_props,
    lemma_trim_no_char,
};

verus! {

/// One feed record: a civil date and the holiday's name.
#[derive(Clone, Debug, PartialEq)]
pub struct Holiday {
    pub date: CivilDate,
    pub name: String,
}

impl View for Holiday {
    type V = (CivilDate, Seq<char>);

    open spec fn view(&self) -> (CivilDate, Seq<char>) {
        (self.date, self.name@)
    }
}

impl DeepView for Holiday {
    type V = (CivilDate, Seq<char>);

    open spec fn deep_view(&self) -> (CivilDate, Seq<char>) {
        self.view()
    }
}

/// The record sequence a holiday sequence stands for.
pub open spec fn view_records(hs: Seq<Holiday>) -> Seq<(CivilDate, Seq<char>)> {
    hs.map_values(|h: Holiday| h@)
}

/// The text split at every newline; the final fragment is a line even
/// without a terminator, and an empty text is one empty line.
pub open spec fn spec_split_lines(text: Seq<char>) -> Seq<Seq<char>>
    decreases text.len(),
{
    let i = first_index_of(text, '\n');
    if 0 <= i && i < text.len() {
        seq![text.take(i)] + spec_split_lines(text.skip(i + 1))
    } else {
        seq![text]
    }
}

/// A line that is skipped: nothing but whitespace.
pub open spec fn spec_is_blank(line: Seq<char>) -> bool {
    spec_trim(line).len() == 0
}

/// One data line: split at the first comma, both parts trimmed, the date
/// strict, the name nonempty.
pub open spec fn spec_parse_line(line: Seq<char>) -> Option<(CivilDate, Seq<char>)> {
    let t = spec_trim(line);
    let i = first_index_of(t, ',');
    if !(0 <= i && i < t.len()) {
        None
    } else {
        let date_s = spec_trim(t.take(i));
        let name_s = spec_trim(t.skip(i + 1));
        match spec_parse_date(date_s) {
            Some(d) => if name_s.len() > 0 {
                Some((d, name_s))
            } else {
                None
            },
            None => None,
        }
    }
}

/// Records of a run of data lines, in file order: blank lines skipped, any
/// malformed line failing the whole run.
pub open spec fn spec_parse_records(lines: Seq<Seq<char>>) -> Option<
    Seq<(CivilDate, Seq<char>)>,
>
    decreases lines.len(),
{
    if lines.len() == 0 {
        Some(Seq::empty())
    } else {
        match spec_parse_records(lines.drop_last()) {
            None => None,
            Some(rs) => {
                let l = lines.last();
                if spec_is_blank(l) {
                    Some(rs)
                } else {
                    match spec_parse_line(l) {
                        Some(r) => Some(rs.push(r)),
                        None => None,
                    }
                }
            },
        }
    }
}

/// The whole feed: the header line dropped, the rest parsed as data lines.
pub open spec fn spec_parse_csv(text: Seq<char>) -> Option<Seq<(CivilDate, Seq<char>)>> {
    spec_parse_records(spec_split_lines(text).skip(1))
}

/// Parsing one run after another parses each run and concatenates, failing
/// when either fails: lines are parsed independently.
pub proof fn lemma_parse_records_append(a: Seq<Seq<char>>, b: Seq<Seq<char>>)
    ensures
        spec_parse_records(a + b) == match spec_parse_records(a) {
            None => None::<Seq<(CivilDate, Seq<char>)>>,
            Some(ra) => match spec_parse_records(b) {
                None => None,
                Some(rb) => Some(ra + rb),
            },
        },
    decreases b.len(),
{
    if b.len() == 0 {
        assert(a + b =~= a);
        if spec_parse_records(a) is Some {
            assert(spec_parse_records(a)->Some_0 + Seq::<(CivilDate, Seq<char>)>::empty()
                =~= spec_parse_records(a)->Some_0);
        }
    } else {
        lemma_parse_records_append(a, b.drop_last());
        assert((a + b).drop_last() =~= a + b.drop_last());
        assert((a + b).last() == b.last());
        assert((a + b).len() > 0);
        if spec_parse_records(a) is Some && spec_parse_records(b.drop_last()) is Some {
            let ra = spec_parse_records(a)->Some_0;
            let rb = spec_parse_records(b.drop_last())->Some_0;
            if !spec_is_blank(b.last()) && spec_parse_line(b.last()) is Some {
                let r = spec_parse_line(b.last())->Some_0;
                assert((ra + rb).push(r) =~= ra + rb.push(r));
            }
        }
    }
}

/// Every record of a successful parse carries a valid calendar date and a
/// nonempty, trimmed name.
pub proof fn lemma_parse_records_wf(lines: Seq<Seq<char>>)
    requires
        spec_parse_records(lines) is Some,
    ensures
        forall|k: int|
            0 <= k < spec_parse_records(lines)->Some_0.len() ==> {
                &&& (#[trigger] spec_parse_records(lines)->Some_0[k]).0.valid()
                &&& spec_parse_records(lines)->Some_0[k].1.len() > 0
                &&& spec_trim(spec_parse_records(lines)->Some_0[k].1) == spec_parse_records(
                    lines,
                )->Some_0[k].1
            },
    decreases lines.len(),
{
    if lines.len() > 0 {
        lemma_parse_records_wf(lines.drop_last());
        let l = lines.last();
        if !spec_is_blank(l) {
            let t = spec_trim(l);
            let i = first_index_of(t, ',');
            if 0 <= i && i < t.len() {
                crate::text::lemma_trim_fixed(t.skip(i + 1));
            }
        }
    }
}

/// No fragment of the split contains a newline.
proof fn lemma_split_lines_no_newline(text: Seq<char>)
    ensures
        forall|p: int, k: int|
            0 <= p < spec_split_lines(text).len() && 0 <= k < spec_split_lines(text)[p].len()
                ==> spec_split_lines(text)[p][k] != '\n',
    decreases text.len(),
{
    lemma_first_index_of_props(text, '\n');
    let i = first_index_of(text, '\n');
    if 0 <= i && i < text.len() {
        lemma_split_lines_no_newline(text.skip(i + 1));
        let rest = spec_split_lines(text.skip(i + 1));
        assert forall|p: int, k: int|
            0 <= p < spec_split_lines(text).len() && 0 <= k < spec_split_lines(text)[p].len()
                implies spec_split_lines(text)[p][k] != '\n' by {
            if p == 0 {
                assert(spec_split_lines(text)[0] == text.take(i));
            } else {
                assert(spec_split_lines(text)[p] == rest[p - 1]);
            }
        }
    }
}

/// Every record parsed from lines that contain no newline is well-formed in
/// the formatter's sense: valid nonnegative-year date, nonempty trimmed
/// newline-free name.
proof fn lemma_parse_records_record_wf(lines: Seq<Seq<char>>)
    requires
        spec_parse_records(lines) is Some,
        forall|p: int, k: int|
            0 <= p < lines.len() && 0 <= k < lines[p].len() ==> lines[p][k] != '\n',
    ensures
        forall|k: int|
            0 <= k < spec_parse_records(lines)->Some_0.len() ==> record_wf(
                #[trigger] spec_parse_records(lines)->Some_0[k],
            ),
    decreases lines.len(),
{
    if lines.len() > 0 {
        assert(forall|p: int, k: int|
            0 <= p < lines.drop_last().len() && 0 <= k < lines.drop_last()[p].len()
                ==> lines.drop_last()[p][k] != '\n');
        lemma_parse_records_record_wf(lines.drop_last());
        let l = lines.last();
        assert(forall|k: int| 0 <= k < l.len() ==> l[k] != '\n');
        if !spec_is_blank(l) {
            let t = spec_trim(l);
            lemma_trim_no_char(l, '\n');
            let i = first_index_of(t, ',');
            if 0 <= i && i < t.len() {
                let part = t.skip(i + 1);
                assert(forall|k: int| 0 <= k < part.len() ==> part[k] == t[k + i + 1]);
                assert(forall|k: int| 0 <= k < part.len() ==> part[k] != '\n');
                lemma_trim_no_char(part, '\n');
                crate::text::lemma_trim_fixed(part);
            }
        }
    }
}

/// Every record of a successfully parsed feed is well-formed in the
/// formatter's sense, so the round-trip law applies to it.
pub proof fn lemma_parse_csv_record_wf(text: Seq<char>)
    requires
        spec_parse_csv(text) is Some,
    ensures
        forall|k: int|
            0 <= k < spec_parse_csv(text)->Some_0.len() ==> record_wf(
                #[trigger] spec_parse_csv(text)->Some_0[k],
            ),
{
    lemma_split_lines_no_newline(text);
    let data = spec_split_lines(text).skip(1);
    assert forall|p: int, k: int|
        0 <= p < data.len() && 0 <= k < data[p].len() implies data[p][k] != '\n' by {
        assert(data[p] == spec_split_lines(text)[p + 1]);
    }
    lemma_parse_records_record_wf(data);
}

/// For all runs of lines that are each blank or well-formed, parsing
/// succeeds and yields exactly one record per non-blank line, in order —
/// duplicate dates included.
pub proof fn lemma_parse_records_all_valid(lines: Seq<Seq<char>>)
    requires
        forall|k: int|
            0 <= k < lines.len() ==> spec_is_blank(#[trigger] lines[k]) || spec_parse_line(
                lines[k],
            ) is Some,
    ensures
        spec_parse_records(lines) == Some(
            lines.filter(|l: Seq<char>| !spec_is_blank(l)).map_values(
                |l: Seq<char>| spec_parse_line(l)->Some_0,
            ),
        ),
    decreases lines.len(),
{
    reveal(Seq::filter);
    let f = |l: Seq<char>| !spec_is_blank(l);
    let g = |l: Seq<char>| spec_parse_line(l)->Some_0;
    if lines.len() == 0 {
        assert(lines.filter(f) =~= lines);
        assert(lines.filter(f).map_values(g) =~= Seq::<(CivilDate, Seq<char>)>::empty());
    } else {
        lemma_parse_records_all_valid(lines.drop_last());
        if spec_is_blank(lines.last()) {
            assert(lines.filter(f) == lines.drop_last().filter(f));
        } else {
            assert(lines.filter(f) == lines.drop_last().filter(f).push(lines.last()));
            assert(lines.filter(f).map_values(g) =~= lines.drop_last().filter(f).map_values(
                g,
            ).push(g(lines.last())));
        }
    }
}

/// The whole-feed form of the same law: header skipped, one record per
/// non-blank data line, in file order.
pub proof fn lemma_parse_csv_all_valid(text: Seq<char>)
    requires
        forall|k: int|
            1 <= k < spec_split_lines(text).len() ==> spec_is_blank(
                #[trigger] spec_split_lines(text)[k],
            ) || spec_parse_line(spec_split_lines(text)[k]) is Some,
    ensures
        spec_parse_csv(text) == Some(
            spec_split_lines(text).skip(1).filter(|l: Seq<char>| !spec_is_blank(l)).map_values(
                |l: Seq<char>| spec_parse_line(l)->Some_0,
            ),
        ),
{
    let data = spec_split_lines(text).skip(1);
    assert forall|k: int|
        0 <= k < data.len() implies spec_is_blank(#[trigger] data[k]) || spec_parse_line(
        data[k],
    ) is Some by {
        assert(data[k] == spec_split_lines(text)[k + 1]);
    }
    lemma_parse_records_all_valid(data);
}

fn err_msg(prefix: &str, line: &str) -> (r: String)
    ensures
        r@ == prefix@ + line@,
{
    let mut m = String::new();
    m.append(prefix);
    m.append(line);
    proof {
        assert(m@ =~= prefix@ + line@);
    }
    m
}

/// Parses one data line into a record, reporting a `Parse` error carrying
/// the offending line otherwise.
pub fn parse_line(line: &str) -> (r: Result<Holiday, Error>)
    ensures
        match r {
            Ok(h) => spec_parse_line(line@) == Some(h@),
            Err(e) => spec_parse_line(line@) is None && e is Parse,
        },
{
    let t = trim(line);
    let tn = t.unicode_len();
    let i = match find_char(t, ',') {
        Some(i) => i,
        None => {
            return Err(Error::Parse(err_msg("missing name field: ", line)));
        },
    };
    proof {
        lemma_first_index_of_props(t@, ',');
    }
    let date_part = trim(t.substring_char(0, i));
    let name_part = trim(t.substring_char(i + 1, tn));
    proof {
        assert(t@.subrange(0, i as int) =~= t@.take(i as int));
        assert(t@.subrange(i + 1, tn as int) =~= t@.skip(i + 1));
    }
    let d = match parse_date(date_part) {
        Some(d) => d,
        None => {
            return Err(Error::Parse(err_msg("invalid date field: ", line)));
        },
    };
    if name_part.unicode_len() == 0 {
        return Err(Error::Parse(err_msg("missing name field: ", line)));
    }
    Ok(Holiday { date: d, name: String::from_str(name_part) })
}

impl Holiday {
    /// The earliest date among the records, or nothing when there are none.
    pub fn get_first_date(holidays: &Vec<Holiday>) -> (r: Option<CivilDate>)
        requires
            forall|k: int| 0 <= k < holidays@.len() ==> (#[trigger] holidays@[k]).date.valid(),
        ensures
            match r {
                Some(d) => {
                    &&& d.valid()
                    &&& exists|k: int|
                        0 <= k < holidays@.len() && (#[trigger] holidays@[k]).date == d
                    &&& forall|k: int|
                        0 <= k < holidays@.len() ==> date_le(d, (#[trigger] holidays@[k]).date)
                },
                None => holidays@.len() == 0,
            },
    {
        let n = holidays.len();
        if n == 0 {
            return None;
        }
        let mut best = holidays[0].date;
        let mut i: usize = 1;
        while i < n
            invariant
                1 <= i <= n,
                n == holidays@.len(),
                forall|k: int| 0 <= k < holidays@.len() ==> (#[trigger] holidays@[k]).date.valid(),
                best.valid(),
                exists|k: int| 0 <= k < i && (#[trigger] holidays@[k]).date == best,
                forall|k: int| 0 <= k < i ==> date_le(best, (#[trigger] holidays@[k]).date),
            decreases n - i,
        {
            if holidays[i].date.lt(&best) {
                best = holidays[i].date;
            }
            i = i + 1;
        }
        Some(best)
    }

    /// The latest date among the records, or nothing when there are none.
    pub fn get_last_date(holidays: &Vec<Holiday>) -> (r: Option<CivilDate>)
        requires
            forall|k: int| 0 <= k < holidays@.len() ==> (#[trigger] holidays@[k]).date.valid(),
        ensures
            match r {
                Some(d) => {
                    &&& d.valid()
                    &&& exists|k: int|
                        0 <= k < holidays@.len() && (#[trigger] holidays@[k]).date == d
                    &&& forall|k: int|
                        0 <= k < holidays@.len() ==> date_le((#[trigger] holidays@[k]).date, d)
                },
                None => holidays@.len() == 0,
            },
    {
        let n = holidays.len();
        if n == 0 {
            return None;
        }
        let mut best = holidays[0].date;
        let mut i: usize = 1;
        while i < n
            invariant
                1 <= i <= n,
                n == holidays@.len(),
                forall|k: int| 0 <= k < holidays@.len() ==> (#[trigger] holidays@[k]).date.valid(),
                best.valid(),
                exists|k: int| 0 <= k < i && (#[trigger] holidays@[k]).date == best,
                forall|k: int| 0 <= k < i ==> date_le((#[trigger] holidays@[k]).date, best),
            decreases n - i,
        {
            if best.lt(&holidays[i].date) {
                best = holidays[i].date;
            }
            i = i + 1;
        }
        Some(best)
    }

    /// Parses the whole feed text: skips the header line and blank lines,
    /// turns every other line into a record in file order, and fails fast
    /// on the first malformed line.
    pub fn deserialize_from_csv(csv: &str) -> (r: Result<Vec<Holiday>, Error>)
        ensures
            match r {
                Ok(hs) => spec_parse_csv(csv@) == Some(view_records(hs@)),
                Err(e) => spec_parse_csv(csv@) is None && e is Parse,
            },
    {
        let mut out: Vec<Holiday> = Vec::new();
        let n = csv.unicode_len();
        let ghost all_lines = spec_split_lines(csv@);
        let mut rest: &str = match find_char(csv, '\n') {
            None => {
                // The whole text is the header: no data lines.
                proof {
                    assert(all_lines =~= seq![csv@]);
                    assert(all_lines.skip(1) =~= Seq::<Seq<char>>::empty());
                    assert(view_records(out@) =~= Seq::<(CivilDate, Seq<char>)>::empty());
                }
                return Ok(out);
            },
            Some(i) => {
                proof {
                    lemma_first_index_of_props(csv@, '\n');
                }
                csv.substring_char(i + 1, n)
            },
        };
        let ghost mut done: Seq<Seq<char>> = seq![all_lines[0]];
        proof {
            let i = first_index_of(csv@, '\n');
            assert(rest@ =~= csv@.skip(i + 1));
            assert(all_lines == seq![csv@.take(i)] + spec_split_lines(csv@.skip(i + 1)));
            assert(all_lines[0] == csv@.take(i));
            assert(all_lines =~= done + spec_split_lines(rest@));
            assert(done.skip(1) =~= Seq::<Seq<char>>::empty());
        }
        loop
            invariant
                all_lines == spec_split_lines(csv@),
                all_lines =~= done + spec_split_lines(rest@),
                done.len() >= 1,
                spec_parse_records(done.skip(1)) == Some(view_records(out@)),
            decreases rest@.len(),
        {
            let m = rest.unicode_len();
            let nl = find_char(rest, '\n');
            let (line, next): (&str, &str) = match nl {
                Some(i) => {
                    proof {
                        lemma_first_index_of_props(rest@, '\n');
                    }
                    (rest.substring_char(0, i), rest.substring_char(i + 1, m))
                },
                None => (rest, rest),
            };
            proof {
                let i = first_index_of(rest@, '\n');
                if i >= 0 {
                    lemma_first_index_of_props(rest@, '\n');
                    assert(line@ =~= rest@.take(i));
                    assert(next@ =~= rest@.skip(i + 1));
                    assert(spec_split_lines(rest@) == seq![rest@.take(i)] + spec_split_lines(
                        rest@.skip(i + 1),
                    ));
                    assert(spec_split_lines(rest@) == seq![line@] + spec_split_lines(next@));
                } else {
                    assert(spec_split_lines(rest@) =~= seq![rest@]);
                }
            }
            let t = trim(line);
            if t.unicode_len() > 0 {
                match parse_line(line) {
                    Ok(h) => {
                        proof {
                            lemma_parse_records_append(done.skip(1), seq![line@]);
                            assert(spec_parse_records(Seq::<Seq<char>>::empty()) == Some(
                                Seq::<(CivilDate, Seq<char>)>::empty(),
                            ));
                            assert(spec_parse_records(Seq::<Seq<char>>::empty()) == Some(
                        Seq::<(CivilDate, Seq<char>)>::empty(),
                    ));
                    assert(seq![line@].drop_last() =~= Seq::<Seq<char>>::empty());
                            assert(seq![line@].last() == line@);
                            let r = spec_parse_line(line@)->Some_0;
                            assert(spec_parse_records(seq![line@]) == Some(
                                Seq::<(CivilDate, Seq<char>)>::empty().push(r),
                            ));
                            assert(done.push(line@).skip(1) =~= done.skip(1) + seq![line@]);
                            assert(view_records(out@) + Seq::<(CivilDate, Seq<char>)>::empty().push(
                                h@,
                            ) =~= view_records(out@.push(h)));
                        }
                        out.push(h);
                    },
                    Err(e) => {
                        proof {
                            lemma_parse_records_append(done.skip(1), seq![line@]);
                            assert(spec_parse_records(Seq::<Seq<char>>::empty()) == Some(
                                Seq::<(CivilDate, Seq<char>)>::empty(),
                            ));
                            assert(spec_parse_records(Seq::<Seq<char>>::empty()) == Some(
                        Seq::<(CivilDate, Seq<char>)>::empty(),
                    ));
                    assert(seq![line@].drop_last() =~= Seq::<Seq<char>>::empty());
                            assert(seq![line@].last() == line@);
                            assert(spec_parse_records(seq![line@]) is None);
                            let i = first_index_of(rest@, '\n');
                            let tail = if 0 <= i && i < rest@.len() {
                                spec_split_lines(rest@.skip(i + 1))
                            } else {
                                Seq::<Seq<char>>::empty()
                            };
                            assert(all_lines.skip(1) =~= (done.skip(1) + seq![line@]) + tail);
                            lemma_parse_records_append(done.skip(1) + seq![line@], tail);
                        }
                        return Err(e);
                    },
                }
            } else {
                proof {
                    lemma_parse_records_append(done.skip(1), seq![line@]);
                    assert(spec_parse_records(Seq::<Seq<char>>::empty()) == Some(
                        Seq::<(CivilDate, Seq<char>)>::empty(),
                    ));
                    assert(seq![line@].drop_last() =~= Seq::<Seq<char>>::empty());
                    assert(seq![line@].last() == line@);
                    assert(spec_parse_records(seq![line@]) == Some(
                        Seq::<(CivilDate, Seq<char>)>::empty(),
                    ));
                    assert(done.push(line@).skip(1) =~= done.skip(1) + seq![line@]);
                    assert(view_records(out@) + Seq::<(CivilDate, Seq<char>)>::empty()
                        =~= view_records(out@));
                }
            }
            proof {
                done = done.push(line@);
            }
            match nl {
                Some(_) => {
                    proof {
                        assert(all_lines =~= done + spec_split_lines(next@));
                    }
                    rest = next;
                },
                None => {
                    proof {
                        assert(all_lines =~= done);
                        assert(all_lines.skip(1) =~= done.skip(1));
                    }
                    return Ok(out);
                },
            }
        }
    }
}

/// A record that a line formatter can write and the parser read back: a
/// valid date with a nonnegative year, and a nonempty, trimmed,
/// newline-free name. Every record parsed from a feed satisfies this.
pub open spec fn record_wf(r: (CivilDate, Seq<char>)) -> bool {
    &&& r.0.valid()
    &&& r.0.year >= 0
    &&& r.1.len() > 0
    &&& spec_trim(r.1) == r.1
    &&& forall|k: int| 0 <= k < r.1.len() ==> r.1[k] != '\n'
}

/// One record as a feed line: unpadded `year/month/day`, a comma, the name.
pub open spec fn spec_format_line(r: (CivilDate, Seq<char>)) -> Seq<char> {
    spec_u32_digits(r.0.year as int) + seq!['/'] + spec_u32_digits(r.0.month as int) + seq!['/']
        + spec_u32_digits(r.0.day as int) + seq![','] + r.1
}

/// The records as feed lines, each terminated by a newline.
pub open spec fn spec_format_lines(rs: Seq<(CivilDate, Seq<char>)>) -> Seq<char>
    decreases rs.len(),
{
    if rs.len() == 0 {
        Seq::empty()
    } else {
        spec_format_lines(rs.drop_last()) + spec_format_line(rs.last()) + seq!['\n']
    }
}

/// A whole feed: a header line, then the records as lines.
pub open spec fn spec_format_csv(rs: Seq<(CivilDate, Seq<char>)>) -> Seq<char> {
    "date,name"@ + seq!['\n'] + spec_format_lines(rs)
}

/// Formats one record as a feed line.
pub fn format_line(h: &Holiday) -> (r: String)
    requires
        h.date.year >= 0,
    ensures
        r@ == spec_format_line(h@),
{
    proof {
        reveal_strlit("/");
        reveal_strlit(",");
    }
    let mut s = u32_to_string(h.date.year as u32);
    s.append("/");
    let ms = u32_to_string(h.date.month);
    s.append(ms.as_str());
    s.append("/");
    let ds = u32_to_string(h.date.day);
    s.append(ds.as_str());
    s.append(",");
    s.append(h.name.as_str());
    proof {
        assert(s@ =~= spec_format_line(h@));
    }
    s
}

/// Formats records as a whole feed, header included.
pub fn format_csv(hs: &Vec<Holiday>) -> (r: String)
    requires
        forall|k: int| 0 <= k < hs@.len() ==> (#[trigger] hs@[k]).date.year >= 0,
    ensures
        r@ == spec_format_csv(view_records(hs@)),
{
    proof {
        reveal_strlit("\n");
    }
    let mut s = String::from_str("date,name");
    s.append("\n");
    let n = hs.len();
    let mut i: usize = 0;
    proof {
        assert(view_records(hs@.take(0)) =~= Seq::<(CivilDate, Seq<char>)>::empty());
        assert(s@ =~= spec_format_csv(view_records(hs@.take(0))));
    }
    while i < n
        invariant
            0 <= i <= n,
            n == hs@.len(),
            forall|k: int| 0 <= k < hs@.len() ==> (#[trigger] hs@[k]).date.year >= 0,
            s@ == spec_format_csv(view_records(hs@.take(i as int))),
            "\n"@ =~= seq!['\n'],
        decreases n - i,
    {
        let line = format_line(&hs[i]);
        s.append(line.as_str());
        s.append("\n");
        proof {
            assert(view_records(hs@.take(i + 1)).drop_last() =~= view_records(
                hs@.take(i as int),
            ));
            assert(view_records(hs@.take(i + 1)).last() == hs@[i as int]@);
            assert(view_records(hs@.take(i + 1)).len() > 0);
            assert(s@ =~= spec_format_csv(view_records(hs@.take(i + 1))));
        }
        i = i + 1;
    }
    proof {
        assert(hs@.take(n as int) =~= hs@);
    }
    s
}

/// A formatted line parses back to exactly its record, is not blank, and
/// contains no newline.
proof fn lemma_format_line_parses(r: (CivilDate, Seq<char>))
    requires
        record_wf(r),
    ensures
        spec_parse_line(spec_format_line(r)) == Some(r),
        !spec_is_blank(spec_format_line(r)),
        forall|k: int| 0 <= k < spec_format_line(r).len() ==> spec_format_line(r)[k] != '\n',
{
    let ys = spec_u32_digits(r.0.year as int);
    let ms = spec_u32_digits(r.0.month as int);
    let ds = spec_u32_digits(r.0.day as int);
    lemma_u32_digits_roundtrip(r.0.year as int);
    lemma_u32_digits_roundtrip(r.0.month as int);
    lemma_u32_digits_roundtrip(r.0.day as int);
    let line = spec_format_line(r);
    let dstr = ys + seq!['/'] + ms + seq!['/'] + ds;
    assert(line =~= dstr + seq![','] + r.1);
    let yl = ys.len() as int;
    let ml = ms.len() as int;
    let dl = ds.len() as int;
    let p = dstr.len() as int;
    assert(p == yl + 1 + ml + 1 + dl);
    // Where each character of the date part comes from.
    assert(forall|k: int| 0 <= k < yl ==> dstr[k] == ys[k]);
    assert(dstr[yl] == '/');
    assert(forall|k: int| 0 <= k < ml ==> dstr[yl + 1 + k] == ms[k]);
    assert(dstr[yl + 1 + ml] == '/');
    assert(forall|k: int| 0 <= k < dl ==> dstr[yl + 1 + ml + 1 + k] == ds[k]);
    assert(forall|k: int| 0 <= k < p ==> line[k] == dstr[k]);
    assert(line[p] == ',');
    assert(forall|k: int| 0 <= k < r.1.len() ==> line[p + 1 + k] == r.1[k]);
    // No character of the date part is a comma, a newline, or whitespace.
    assert forall|k: int| 0 <= k < p implies dstr[k] != ',' && dstr[k] != '\n' by {
        if k < yl {
            assert(is_digit(ys[k]));
        } else if k == yl {
        } else if k < yl + 1 + ml {
            assert(dstr[k] == ms[k - yl - 1]);
            assert(is_digit(ms[k - yl - 1]));
        } else if k == yl + 1 + ml {
        } else {
            assert(dstr[k] == ds[k - yl - 1 - ml - 1]);
            assert(is_digit(ds[k - yl - 1 - ml - 1]));
        }
    }
    // The line trims to itself: it starts with a digit and ends with the
    // name's last character, which is not whitespace.
    lemma_trim_props(r.1);
    assert(line[0] == ys[0]);
    assert(is_digit(ys[0]));
    assert(!is_space(line[0]));
    assert(line.last() == r.1.last());
    assert(!is_space(line.last()));
    lemma_trim_of_fixed(line);
    // The first comma is at the end of the date part.
    assert forall|k: int| 0 <= k < p implies line[k] != ',' by {
        assert(line[k] == dstr[k]);
    }
    lemma_first_index_of(line, ',', p);
    assert(line.take(p) =~= dstr);
    assert(line.skip(p + 1) =~= r.1);
    // Both parts trim to themselves.
    assert(is_digit(dstr[0]) && is_digit(dstr.last()));
    assert(!is_space(dstr[0]) && !is_space(dstr.last()));
    lemma_trim_of_fixed(dstr);
    // The date part parses back to the date: slashes sit after the year
    // digits and after the month digits.
    assert forall|k: int| 0 <= k < yl implies dstr[k] != '/' by {
        assert(is_digit(ys[k]));
    }
    lemma_first_index_of(dstr, '/', yl);
    let rest = dstr.skip(yl + 1);
    assert(rest =~= ms + seq!['/'] + ds);
    assert forall|k: int| 0 <= k < ml implies rest[k] != '/' by {
        assert(rest[k] == ms[k]);
        assert(is_digit(ms[k]));
    }
    assert(rest[ml] == '/');
    lemma_first_index_of(rest, '/', ml);
    assert(dstr.take(yl) =~= ys);
    assert(rest.take(ml) =~= ms);
    assert(rest.skip(ml + 1) =~= ds);
    assert(crate::text::spec_parse_u32(ys) == Some(r.0.year as u32));
    assert(crate::text::spec_parse_u32(ms) == Some(r.0.month));
    assert(crate::text::spec_parse_u32(ds) == Some(r.0.day));
    assert(spec_parse_date(dstr) == Some(r.0));
    assert(spec_parse_line(line) == Some(r));
    // Not blank, and no newline anywhere.
    assert(!spec_is_blank(line));
    assert forall|k: int| 0 <= k < line.len() implies line[k] != '\n' by {
        if k < p {
            assert(line[k] == dstr[k]);
        } else if k == p {
        } else {
            assert(line[k] == r.1[k - p - 1]);
        }
    }
}

/// Splitting a newline-free fragment, a newline, and a remainder yields the
/// fragment as the first line and the split of the remainder.
proof fn lemma_split_prefix(a: Seq<char>, b: Seq<char>)
    requires
        forall|k: int| 0 <= k < a.len() ==> a[k] != '\n',
    ensures
        spec_split_lines(a + seq!['\n'] + b) == seq![a] + spec_split_lines(b),
{
    let t = a + seq!['\n'] + b;
    assert(forall|k: int| 0 <= k < a.len() ==> t[k] == a[k]);
    assert(t[a.len() as int] == '\n');
    lemma_first_index_of(t, '\n', a.len() as int);
    assert(t.take(a.len() as int) =~= a);
    assert(t.skip(a.len() as int + 1) =~= b);
    assert(spec_split_lines(t) =~= seq![a] + spec_split_lines(b));
}

/// The lines of several records are the first record's line, a newline, and
/// the lines of the rest.
proof fn lemma_format_lines_first(rs: Seq<(CivilDate, Seq<char>)>)
    requires
        rs.len() > 0,
    ensures
        spec_format_lines(rs) == spec_format_line(rs[0]) + seq!['\n'] + spec_format_lines(
            rs.drop_first(),
        ),
    decreases rs.len(),
{
    if rs.len() == 1 {
        assert(rs.drop_last() =~= Seq::<(CivilDate, Seq<char>)>::empty());
        assert(rs.drop_first() =~= Seq::<(CivilDate, Seq<char>)>::empty());
        assert(rs.last() == rs[0]);
        assert(spec_format_lines(rs) =~= spec_format_line(rs[0]) + seq!['\n']
            + spec_format_lines(rs.drop_first()));
    } else {
        lemma_format_lines_first(rs.drop_last());
        assert(rs.drop_last()[0] == rs[0]);
        assert(rs.drop_first().drop_last() =~= rs.drop_last().drop_first());
        assert(rs.drop_first().last() == rs.last());
        assert(rs.drop_first().len() > 0);
        assert(spec_format_lines(rs.drop_first()) == spec_format_lines(
            rs.drop_first().drop_last(),
        ) + spec_format_line(rs.drop_first().last()) + seq!['\n']);
        assert(spec_format_lines(rs) =~= spec_format_line(rs[0]) + seq!['\n']
            + spec_format_lines(rs.drop_first()));
    }
}

/// Splitting formatted lines yields one line per record, plus the empty
/// fragment after the final newline.
proof fn lemma_split_format_lines(rs: Seq<(CivilDate, Seq<char>)>)
    requires
        forall|k: int| 0 <= k < rs.len() ==> record_wf(#[trigger] rs[k]),
    ensures
        spec_split_lines(spec_format_lines(rs)) == rs.map_values(
            |r: (CivilDate, Seq<char>)| spec_format_line(r),
        ) + seq![Seq::<char>::empty()],
    decreases rs.len(),
{
    let f = |r: (CivilDate, Seq<char>)| spec_format_line(r);
    if rs.len() == 0 {
        assert(spec_format_lines(rs) =~= Seq::<char>::empty());
        assert(spec_split_lines(Seq::<char>::empty()) =~= seq![Seq::<char>::empty()]);
        assert(rs.map_values(f) + seq![Seq::<char>::empty()] =~= seq![Seq::<char>::empty()]);
    } else {
        lemma_format_lines_first(rs);
        lemma_format_line_parses(rs[0]);
        lemma_split_prefix(spec_format_line(rs[0]), spec_format_lines(rs.drop_first()));
        assert(forall|k: int|
            0 <= k < rs.drop_first().len() ==> record_wf(#[trigger] rs.drop_first()[k]));
        lemma_split_format_lines(rs.drop_first());
        assert(spec_split_lines(spec_format_lines(rs)) =~= rs.map_values(f) + seq![
            Seq::<char>::empty(),
        ]);
    }
}

/// Formatted lines parse back to exactly their records.
proof fn lemma_parse_formatted(rs: Seq<(CivilDate, Seq<char>)>)
    requires
        forall|k: int| 0 <= k < rs.len() ==> record_wf(#[trigger] rs[k]),
    ensures
        spec_parse_records(
            rs.map_values(|r: (CivilDate, Seq<char>)| spec_format_line(r)),
        ) == Some(rs),
    decreases rs.len(),
{
    let f = |r: (CivilDate, Seq<char>)| spec_format_line(r);
    let m = rs.map_values(f);
    if rs.len() == 0 {
        assert(m.len() == 0);
        assert(Seq::<(CivilDate, Seq<char>)>::empty() =~= rs);
    } else {
        assert(forall|k: int|
            0 <= k < rs.drop_last().len() ==> record_wf(#[trigger] rs.drop_last()[k]));
        lemma_parse_formatted(rs.drop_last());
        lemma_format_line_parses(rs.last());
        assert(m.drop_last() =~= rs.drop_last().map_values(f));
        assert(m.last() == f(rs.last()));
        assert(m.len() > 0);
        assert(rs.drop_last().push(rs.last()) =~= rs);
    }
}

/// Round trip: formatting records as feed lines and re-parsing the feed
/// yields exactly the same records. Fed the entries of a built calendar —
/// already deduplicated and every one well-formed — re-parsing and
/// re-folding therefore rebuilds the same mapping.
pub proof fn lemma_format_parse_roundtrip(rs: Seq<(CivilDate, Seq<char>)>)
    requires
        forall|k: int| 0 <= k < rs.len() ==> record_wf(#[trigger] rs[k]),
    ensures
        spec_parse_csv(spec_format_csv(rs)) == Some(rs),
{
    let f = |r: (CivilDate, Seq<char>)| spec_format_line(r);
    let header = "date,name"@;
    reveal_strlit("date,name");
    assert(forall|k: int| 0 <= k < header.len() ==> header[k] != '\n');
    assert(spec_format_csv(rs) =~= header + seq!['\n'] + spec_format_lines(rs));
    lemma_split_prefix(header, spec_format_lines(rs));
    lemma_split_format_lines(rs);
    let lines = spec_split_lines(spec_format_csv(rs));
    assert(lines == seq![header] + (rs.map_values(f) + seq![Seq::<char>::empty()]));
    assert(lines.skip(1) =~= rs.map_values(f) + seq![Seq::<char>::empty()]);
    lemma_parse_formatted(rs);
    lemma_parse_records_append(rs.map_values(f), seq![Seq::<char>::empty()]);
    assert(spec_is_blank(Seq::<char>::empty()));
    assert(spec_parse_records(Seq::<Seq<char>>::empty()) == Some(
        Seq::<(CivilDate, Seq<char>)>::empty(),
    ));
    assert(seq![Seq::<char>::empty()].drop_last() =~= Seq::<Seq<char>>::empty());
    assert(seq![Seq::<char>::empty()].last() == Seq::<char>::empty());
    assert(spec_parse_records(seq![Seq::<char>::empty()]) == Some(
        Seq::<(CivilDate, Seq<char>)>::empty(),
    ));
    assert(rs + Seq::<(CivilDate, Seq<char>)>::empty() =~= rs);
}

} // verus!
