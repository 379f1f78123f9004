//! Character and string utilities: whitespace trimming, decimal digits.

use vstd::prelude::*;

verus! {

/// The characters with the Unicode `White_Space` property, as `str::trim`
/// removes them.
pub open spec fn is_space(c: char) -> bool {
    ||| c == ' '
    ||| ('\u{0009}' <= c && c <= '\u{000d}')
    ||| c == '\u{0085}'
    ||| c == '\u{00a0}'
    ||| c == '\u{1680}'
    ||| ('\u{2000}' <= c && c <= '\u{200a}')
    ||| c == '\u{2028}'
    ||| c == '\u{2029}'
    ||| c == '\u{202f}'
    ||| c == '\u{205f}'
    ||| c == '\u{3000}'
}

pub fn is_space_char(c: char) -> (r: bool)
    ensures
        r == is_space(c),
{
    c == ' ' || ('\u{0009}' <= c && c <= '\u{000d}') || c == '\u{0085}' || c == '\u{00a0}' || c
        == '\u{1680}' || ('\u{2000}' <= c && c <= '\u{200a}') || c == '\u{2028}' || c == '\u{2029}'
        || c == '\u{202f}' || c == '\u{205f}' || c == '\u{3000}'
}

/// The text with leading whitespace removed.
pub open spec fn spec_trim_start(s: Seq<char>) -> Seq<char>
    decreases s.len(),
{
    if s.len() > 0 && is_space(s[0]) {
        spec_trim_start(s.drop_first())
    } else {
        s
    }
}

/// The text with trailing whitespace removed.
pub open spec fn spec_trim_end(s: Seq<char>) -> Seq<char>
    decreases s.len(),
{
    if s.len() > 0 && is_space(s.last()) {
        spec_trim_end(s.drop_last())
    } else {
        s
    }
}

/// The text with surrounding whitespace removed.
pub open spec fn spec_trim(s: Seq<char>) -> Seq<char> {
    spec_trim_end(spec_trim_start(s))
}

proof fn lemma_trim_start_skip(s: Seq<char>, i: int)
    requires
        0 <= i <= s.len(),
        forall|k: int| 0 <= k < i ==> is_space(s[k]),
        i < s.len() ==> !is_space(s[i]),
    ensures
        spec_trim_start(s) == s.skip(i),
    decreases i,
{
    if i == 0 {
        assert(s.skip(0) =~= s);
    } else {
        lemma_trim_start_skip(s.drop_first(), i - 1);
        assert(s.drop_first().skip(i - 1) =~= s.skip(i));
    }
}

proof fn lemma_trim_end_take(s: Seq<char>, j: int)
    requires
        0 <= j <= s.len(),
        forall|k: int| j <= k < s.len() ==> is_space(s[k]),
        j > 0 ==> !is_space(s[j - 1]),
    ensures
        spec_trim_end(s) == s.take(j),
    decreases s.len() - j,
{
    if j == s.len() {
        assert(s.take(j) =~= s);
    } else {
        lemma_trim_end_take(s.drop_last(), j);
        assert(s.drop_last().take(j) =~= s.take(j));
    }
}

proof fn lemma_trim_start_head(s: Seq<char>)
    ensures
        spec_trim_start(s).len() > 0 ==> !is_space(spec_trim_start(s)[0]),
    decreases s.len(),
{
    if s.len() > 0 && is_space(s[0]) {
        lemma_trim_start_head(s.drop_first());
    }
}

proof fn lemma_trim_end_last(s: Seq<char>)
    ensures
        spec_trim_end(s).len() > 0 ==> !is_space(spec_trim_end(s).last()),
    decreases s.len(),
{
    if s.len() > 0 && is_space(s.last()) {
        lemma_trim_end_last(s.drop_last());
    }
}

proof fn lemma_trim_end_is_prefix(s: Seq<char>)
    ensures
        spec_trim_end(s).len() <= s.len(),
        spec_trim_end(s) == s.take(spec_trim_end(s).len() as int),
    decreases s.len(),
{
    if s.len() > 0 && is_space(s.last()) {
        lemma_trim_end_is_prefix(s.drop_last());
        let t = spec_trim_end(s);
        assert(s.drop_last().take(t.len() as int) =~= s.take(t.len() as int));
    } else {
        assert(s.take(s.len() as int) =~= s);
    }
}

/// Trimming is idempotent: a trimmed text trims to itself.
pub proof fn lemma_trim_fixed(s: Seq<char>)
    ensures
        spec_trim(spec_trim(s)) == spec_trim(s),
{
    let a = spec_trim_start(s);
    let b = spec_trim_end(a);
    lemma_trim_start_head(s);
    lemma_trim_end_is_prefix(a);
    lemma_trim_end_last(a);
    if b.len() > 0 {
        assert(b[0] == a[0]);
        assert(!is_space(b[0]));
        assert(spec_trim_start(b) == b);
        assert(!is_space(b.last()));
        assert(spec_trim_end(b) == b);
    }
}

/// A nonempty trimmed text neither begins nor ends with whitespace.
pub proof fn lemma_trim_props(s: Seq<char>)
    ensures
        spec_trim(s).len() > 0 ==> !is_space(spec_trim(s)[0]) && !is_space(spec_trim(s).last()),
{
    let a = spec_trim_start(s);
    let b = spec_trim_end(a);
    lemma_trim_start_head(s);
    lemma_trim_end_is_prefix(a);
    lemma_trim_end_last(a);
    if b.len() > 0 {
        assert(b[0] == a[0]);
    }
}

proof fn lemma_trim_start_no_char(s: Seq<char>, c: char)
    requires
        forall|k: int| 0 <= k < s.len() ==> s[k] != c,
    ensures
        forall|k: int| 0 <= k < spec_trim_start(s).len() ==> spec_trim_start(s)[k] != c,
    decreases s.len(),
{
    if s.len() > 0 && is_space(s[0]) {
        assert(forall|k: int|
            0 <= k < s.drop_first().len() ==> s.drop_first()[k] == s[k + 1]);
        lemma_trim_start_no_char(s.drop_first(), c);
        assert(spec_trim_start(s) == spec_trim_start(s.drop_first()));
    } else {
        assert(spec_trim_start(s) == s);
    }
}

proof fn lemma_trim_end_no_char(s: Seq<char>, c: char)
    requires
        forall|k: int| 0 <= k < s.len() ==> s[k] != c,
    ensures
        forall|k: int| 0 <= k < spec_trim_end(s).len() ==> spec_trim_end(s)[k] != c,
    decreases s.len(),
{
    if s.len() > 0 && is_space(s.last()) {
        assert(forall|k: int|
            0 <= k < s.drop_last().len() ==> s.drop_last()[k] == s[k]);
        lemma_trim_end_no_char(s.drop_last(), c);
        assert(spec_trim_end(s) == spec_trim_end(s.drop_last()));
    } else {
        assert(spec_trim_end(s) == s);
    }
}

/// Trimming introduces no character: a character absent from the text is
/// absent from its trim.
pub proof fn lemma_trim_no_char(s: Seq<char>, c: char)
    requires
        forall|k: int| 0 <= k < s.len() ==> s[k] != c,
    ensures
        forall|k: int| 0 <= k < spec_trim(s).len() ==> spec_trim(s)[k] != c,
{
    lemma_trim_start_no_char(s, c);
    lemma_trim_end_no_char(spec_trim_start(s), c);
}

/// A text that is empty, or neither begins nor ends with whitespace, trims
/// to itself.
pub proof fn lemma_trim_of_fixed(s: Seq<char>)
    requires
        s.len() == 0 || (!is_space(s[0]) && !is_space(s.last())),
    ensures
        spec_trim(s) == s,
{
    assert(spec_trim_start(s) == s);
    assert(spec_trim_end(s) == s);
}

/// Removes surrounding whitespace, as the parser does around lines, dates
/// and names.
pub fn trim(s: &str) -> (r: &str)
    ensures
        r@ == spec_trim(s@),
{
    let n = s.unicode_len();
    let mut i: usize = 0;
    while i < n && is_space_char(s.get_char(i))
        invariant
            0 <= i <= n,
            n == s@.len(),
            forall|k: int| 0 <= k < i ==> is_space(s@[k]),
        decreases n - i,
    {
        i = i + 1;
    }
    let mut j: usize = n;
    while j > i && is_space_char(s.get_char(j - 1))
        invariant
            i <= j <= n,
            n == s@.len(),
            forall|k: int| 0 <= k < i ==> is_space(s@[k]),
            i < n ==> !is_space(s@[i as int]),
            forall|k: int| j <= k < n ==> is_space(s@[k]),
        decreases j,
    {
        j = j - 1;
    }
    proof {
        lemma_trim_start_skip(s@, i as int);
        lemma_trim_end_take(s@.skip(i as int), j - i);
        assert(s@.skip(i as int).take(j - i) =~= s@.subrange(i as int, j as int));
    }
    s.substring_char(i, j)
}

/// Index of the first occurrence of `c` in `s`, or -1 when absent.
pub open spec fn first_index_of(s: Seq<char>, c: char) -> int
    decreases s.len(),
{
    if s.len() == 0 {
        -1
    } else if s[0] == c {
        0
    } else {
        let r = first_index_of(s.drop_first(), c);
        if r < 0 {
            -1
        } else {
            r + 1
        }
    }
}

pub proof fn lemma_first_index_of(s: Seq<char>, c: char, i: int)
    requires
        0 <= i <= s.len(),
        forall|k: int| 0 <= k < i ==> s[k] != c,
        i < s.len() ==> s[i] == c,
    ensures
        i < s.len() ==> first_index_of(s, c) == i,
        i == s.len() ==> first_index_of(s, c) == -1,
    decreases i,
{
    if i == 0 {
    } else {
        lemma_first_index_of(s.drop_first(), c, i - 1);
    }
}

/// Basic facts about the first occurrence: it is an occurrence, and
/// nothing before it is one.
pub proof fn lemma_first_index_of_props(s: Seq<char>, c: char)
    ensures
        first_index_of(s, c) >= 0 ==> {
            &&& first_index_of(s, c) < s.len()
            &&& s[first_index_of(s, c)] == c
            &&& forall|k: int| 0 <= k < first_index_of(s, c) ==> s[k] != c
        },
        first_index_of(s, c) < 0 ==> (forall|k: int| 0 <= k < s.len() ==> s[k] != c),
    decreases s.len(),
{
    if s.len() > 0 && s[0] != c {
        lemma_first_index_of_props(s.drop_first(), c);
        let r = first_index_of(s.drop_first(), c);
        assert(forall|k: int| 1 <= k < s.len() ==> s[k] == s.drop_first()[k - 1]);
        if r >= 0 {
            assert(s[r + 1] == s.drop_first()[r]);
        }
    }
}

/// Finds the first occurrence of a character.
pub fn find_char(s: &str, c: char) -> (r: Option<usize>)
    ensures
        match r {
            Some(i) => first_index_of(s@, c) == i as int,
            None => first_index_of(s@, c) == -1,
        },
{
    let n = s.unicode_len();
    let mut i: usize = 0;
    while i < n
        invariant
            0 <= i <= n,
            n == s@.len(),
            forall|k: int| 0 <= k < i ==> s@[k] != c,
        decreases n - i,
    {
        if s.get_char(i) == c {
            proof {
                lemma_first_index_of(s@, c, i as int);
            }
            return Some(i);
        }
        i = i + 1;
    }
    proof {
        lemma_first_index_of(s@, c, n as int);
    }
    None
}

/// An ASCII decimal digit.
pub open spec fn is_digit(c: char) -> bool {
    '0' <= c && c <= '9'
}

pub open spec fn digit_val(c: char) -> int {
    c as int - '0' as int
}

pub open spec fn all_digits(s: Seq<char>) -> bool {
    forall|i: int| 0 <= i < s.len() ==> is_digit(s[i])
}

/// The number the digit string denotes, most significant digit first.
pub open spec fn digits_val(s: Seq<char>) -> int
    decreases s.len(),
{
    if s.len() == 0 {
        0
    } else {
        digits_val(s.drop_last()) * 10 + digit_val(s.last())
    }
}

pub proof fn lemma_digits_val_nonneg(s: Seq<char>)
    requires
        all_digits(s),
    ensures
        digits_val(s) >= 0,
    decreases s.len(),
{
    if s.len() > 0 {
        lemma_digits_val_nonneg(s.drop_last());
    }
}

proof fn lemma_digits_val_prefix_le(s: Seq<char>, i: int)
    requires
        all_digits(s),
        0 <= i <= s.len(),
    ensures
        digits_val(s.take(i)) <= digits_val(s),
    decreases s.len() - i,
{
    if i == s.len() {
        assert(s.take(i) =~= s);
    } else {
        lemma_digits_val_prefix_le(s, i + 1);
        assert(s.take(i + 1).drop_last() =~= s.take(i));
        assert(forall|k: int| 0 <= k < s.take(i).len() ==> s.take(i)[k] == s[k]);
        lemma_digits_val_nonneg(s.take(i));
    }
}

/// A nonempty all-digit string denoting a value that fits in `u32`;
/// anything else is rejected.
pub open spec fn spec_parse_u32(s: Seq<char>) -> Option<u32> {
    if s.len() > 0 && all_digits(s) && digits_val(s) <= u32::MAX {
        Some(digits_val(s) as u32)
    } else {
        None
    }
}

/// Parses an unsigned decimal number, rejecting empty input, any non-digit
/// character, and overflow.
pub fn parse_u32(s: &str) -> (r: Option<u32>)
    ensures
        r == spec_parse_u32(s@),
{
    let n = s.unicode_len();
    if n == 0 {
        return None;
    }
    let mut val: u64 = 0;
    let mut i: usize = 0;
    while i < n
        invariant
            0 <= i <= n,
            n == s@.len(),
            forall|k: int| 0 <= k < i ==> is_digit(s@[k]),
            val as int == digits_val(s@.take(i as int)),
            val <= u32::MAX,
        decreases n - i,
    {
        let c = s.get_char(i);
        if !('0' <= c && c <= '9') {
            return None;
        }
        let d: u64 = (c as u32 - '0' as u32) as u64;
        let next: u64 = val * 10 + d;
        proof {
            assert(s@.take(i + 1).drop_last() =~= s@.take(i as int));
            assert(s@.take(i + 1).last() == s@[i as int]);
        }
        if next > 0xffff_ffff {
            proof {
                if all_digits(s@) {
                    lemma_digits_val_prefix_le(s@, i + 1);
                }
            }
            return None;
        }
        val = next;
        i = i + 1;
    }
    proof {
        assert(s@.take(n as int) =~= s@);
    }
    Some(val as u32)
}

pub open spec fn digit_char(k: int) -> char {
    if k == 0 {
        '0'
    } else if k == 1 {
        '1'
    } else if k == 2 {
        '2'
    } else if k == 3 {
        '3'
    } else if k == 4 {
        '4'
    } else if k == 5 {
        '5'
    } else if k == 6 {
        '6'
    } else if k == 7 {
        '7'
    } else if k == 8 {
        '8'
    } else {
        '9'
    }
}

/// Decimal digits of a nonnegative number, without padding; `0` is `"0"`.
pub open spec fn spec_u32_digits(n: int) -> Seq<char>
    decreases n,
{
    if n < 10 {
        seq![digit_char(n)]
    } else {
        spec_u32_digits(n / 10).push(digit_char(n % 10))
    }
}

fn digit_str(k: u32) -> (r: &'static str)
    requires
        k <= 9,
    ensures
        r@ =~= seq![digit_char(k as int)],
{
    proof {
        reveal_strlit("0");
        reveal_strlit("1");
        reveal_strlit("2");
        reveal_strlit("3");
        reveal_strlit("4");
        reveal_strlit("5");
        reveal_strlit("6");
        reveal_strlit("7");
        reveal_strlit("8");
        reveal_strlit("9");
    }
    if k == 0 {
        "0"
    } else if k == 1 {
        "1"
    } else if k == 2 {
        "2"
    } else if k == 3 {
        "3"
    } else if k == 4 {
        "4"
    } else if k == 5 {
        "5"
    } else if k == 6 {
        "6"
    } else if k == 7 {
        "7"
    } else if k == 8 {
        "8"
    } else {
        "9"
    }
}

/// Formats a number as unpadded decimal digits.
pub fn u32_to_string(n: u32) -> (r: String)
    ensures
        r@ == spec_u32_digits(n as int),
    decreases n,
{
    if n < 10 {
        let mut s = String::new();
        s.append(digit_str(n));
        proof {
            assert(s@ =~= spec_u32_digits(n as int));
        }
        s
    } else {
        let mut s = u32_to_string(n / 10);
        s.append(digit_str(n % 10));
        proof {
            assert(s@ =~= spec_u32_digits(n as int));
        }
        s
    }
}

/// The digit string left-padded with zeros to at least `w` characters.
pub open spec fn spec_zero_pad(s: Seq<char>, w: int) -> Seq<char> {
    if s.len() >= w {
        s
    } else {
        Seq::new((w - s.len()) as nat, |i: int| '0') + s
    }
}

/// Formats a number as decimal digits left-padded with zeros to at least
/// `width` characters.
pub fn zero_padded_u32(n: u32, width: usize) -> (r: String)
    ensures
        r@ == spec_zero_pad(spec_u32_digits(n as int), width as int),
{
    proof {
        reveal_strlit("0");
    }
    let digits = u32_to_string(n);
    let len = digits.as_str().unicode_len();
    let mut s = String::new();
    let mut c: usize = len;
    while c < width
        invariant
            len <= c,
            c <= width || c == len,
            len == spec_u32_digits(n as int).len(),
            s@ =~= Seq::new((c - len) as nat, |i: int| '0'),
            "0"@ =~= seq!['0'],
        decreases width - c,
    {
        s.append("0");
        proof {
            assert(s@ =~= Seq::new((c + 1 - len) as nat, |i: int| '0'));
        }
        c = c + 1;
    }
    s.append(digits.as_str());
    proof {
        assert(s@ =~= spec_zero_pad(spec_u32_digits(n as int), width as int));
    }
    s
}

/// Decimal digits of a signed number: a minus sign before the digits of the
/// absolute value.
pub open spec fn spec_i32_digits(n: int) -> Seq<char> {
    if n < 0 {
        seq!['-'] + spec_u32_digits(-n)
    } else {
        spec_u32_digits(n)
    }
}

/// Formats a signed number as decimal digits.
pub fn i32_to_string(n: i32) -> (r: String)
    ensures
        r@ == spec_i32_digits(n as int),
{
    if n >= 0 {
        u32_to_string(n as u32)
    } else {
        proof {
            reveal_strlit("-");
        }
        let mut s = String::from_str("-");
        let mag: u32 = (-(n as i64)) as u32;
        let digits = u32_to_string(mag);
        s.append(digits.as_str());
        proof {
            assert(s@ =~= spec_i32_digits(n as int));
        }
        s
    }
}

/// Printing a number and reading the digits back gives the number again:
/// the digits are digits, and they denote the printed value.
pub proof fn lemma_u32_digits_roundtrip(n: int)
    requires
        n >= 0,
    ensures
        spec_u32_digits(n).len() >= 1,
        all_digits(spec_u32_digits(n)),
        digits_val(spec_u32_digits(n)) == n,
    decreases n,
{
    if n < 10 {
        let s = spec_u32_digits(n);
        assert(s.len() == 1);
        assert(s.last() == digit_char(n));
        assert(s.drop_last() =~= Seq::<char>::empty());
        assert(digits_val(s.drop_last()) == 0);
        assert(digits_val(s) == digit_val(digit_char(n)));
    } else {
        lemma_u32_digits_roundtrip(n / 10);
        let s = spec_u32_digits(n);
        assert(s.drop_last() =~= spec_u32_digits(n / 10));
        assert(digits_val(s) == (n / 10) * 10 + digit_val(digit_char(n % 10)));
        vstd::arithmetic::div_mod::lemma_fundamental_div_mod(n, 10);
        assert(digit_val(digit_char(n % 10)) == n % 10);
    }
}

} // verus!
