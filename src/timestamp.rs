//! Minute-resolution UTC timestamps as they appear in a post header.
use vstd::prelude::*;
use chrono::{Datelike, Timelike};

verus! {

/// The layout of the date field of a post header.
pub const DATE_FORMAT: &'static str = "%d/%m/%Y %H:%M";

/// A calendar date and a time of day, to the minute, in UTC.
#[derive(Clone, Copy, Debug, PartialEq, Eq, Structural)]
pub struct Timestamp {
    pub year: i32,
    pub month: u32,
    pub day: u32,
    pub hour: u32,
    pub minute: u32,
}

pub open spec fn is_leap_year(y: int) -> bool {
    (y % 4 == 0 && y % 100 != 0) || y % 400 == 0
}

pub open spec fn days_in_month(y: int, m: int) -> int {
    if m == 2 {
        if is_leap_year(y) { 29 } else { 28 }
    } else if m == 4 || m == 6 || m == 9 || m == 11 {
        30
    } else {
        31
    }
}

impl Timestamp {
    /// A real calendar date, within the years the calendar library can hold,
    /// and a real time of day.
    pub open spec fn wf(self) -> bool {
        &&& -262143 <= self.year <= 262142
        &&& 1 <= self.month <= 12
        &&& 1 <= self.day <= days_in_month(self.year as int, self.month as int)
        &&& self.hour < 24
        &&& self.minute < 60
    }

    /// The years that the header writes with exactly four digits.
    pub open spec fn four_digit_year(self) -> bool {
        0 <= self.year <= 9999
    }
}

pub open spec fn digit_char(n: int) -> char {
    seq!['0', '1', '2', '3', '4', '5', '6', '7', '8', '9'][n]
}

pub open spec fn is_digit(c: char) -> bool {
    '0' <= c && c <= '9'
}

pub open spec fn digit_value(c: char) -> int {
    (c as int) - ('0' as int)
}

pub open spec fn two_digits(n: int) -> Seq<char> {
    seq![digit_char(n / 10), digit_char(n % 10)]
}

pub open spec fn four_digits(n: int) -> Seq<char> {
    seq![
        digit_char(n / 1000),
        digit_char((n / 100) % 10),
        digit_char((n / 10) % 10),
        digit_char(n % 10),
    ]
}

/// `DD/MM/YYYY HH:MM`, every field zero-padded.
pub open spec fn date_text(t: Timestamp) -> Seq<char> {
    two_digits(t.day as int) + seq!['/'] + two_digits(t.month as int) + seq!['/'] + four_digits(
        t.year as int,
    ) + seq![' '] + two_digits(t.hour as int) + seq![':'] + two_digits(t.minute as int)
}

pub open spec fn number_at(s: Seq<char>, i: int, width: nat) -> int
    decreases width,
{
    if width == 0 {
        0
    } else {
        number_at(s, i, (width - 1) as nat) * 10 + digit_value(s[i + width - 1])
    }
}

pub open spec fn digits_at(s: Seq<char>, i: int, width: int) -> bool {
    forall|k: int| i <= k < i + width ==> is_digit(#[trigger] s[k])
}

/// The timestamp that text in the exact layout `DD/MM/YYYY HH:MM` stands for,
/// if the text has that layout and names a real date and time.
pub open spec fn canonical_date(s: Seq<char>) -> Option<Timestamp> {
    if s.len() == 16 && digits_at(s, 0, 2) && s[2] == '/' && digits_at(s, 3, 2) && s[5] == '/'
        && digits_at(s, 6, 4) && s[10] == ' ' && digits_at(s, 11, 2) && s[13] == ':'
        && digits_at(s, 14, 2) {
        let t = Timestamp {
            year: number_at(s, 6, 4) as i32,
            month: number_at(s, 3, 2) as u32,
            day: number_at(s, 0, 2) as u32,
            hour: number_at(s, 11, 2) as u32,
            minute: number_at(s, 14, 2) as u32,
        };
        if t.wf() {
            Some(t)
        } else {
            None
        }
    } else {
        None
    }
}

/// What the calendar library reads from a date field laid out by
/// `DATE_FORMAT`. It also accepts looser spellings than the canonical one.
pub uninterp spec fn parsed_date(s: Seq<char>) -> Option<Timestamp>;

/// Relies on chrono's `NaiveDateTime::parse_from_str` with `DATE_FORMAT`:
/// zero-padded text of a real date and time reads as that value, and any
/// value read is a real date and time.
#[verifier::external_body]
pub(crate) fn parse_date(s: &str) -> (r: Option<Timestamp>)
    ensures
        canonical_date(s@) is Some ==> r == canonical_date(s@),
        canonical_date(s@) is None ==> r == parsed_date(s@),
        r matches Some(t) ==> t.wf(),
{
    chrono::NaiveDateTime::parse_from_str(s, DATE_FORMAT).ok().map(
        |d| Timestamp {
            year: d.year(),
            month: d.month(),
            day: d.day(),
            hour: d.hour(),
            minute: d.minute(),
        },
    )
}

/// Relies on chrono's `NaiveDateTime::format` with `DATE_FORMAT`: each field
/// zero-padded to its width, the year to four digits.
#[verifier::external_body]
pub(crate) fn format_date(t: Timestamp) -> (r: String)
    requires
        t.wf(),
        t.four_digit_year(),
    ensures
        r@ == date_text(t),
{
    chrono::NaiveDate::from_ymd_opt(t.year, t.month, t.day).unwrap().and_hms_opt(
        t.hour,
        t.minute,
        0,
    ).unwrap().format(DATE_FORMAT).to_string()
}

proof fn lemma_two_digits(s: Seq<char>, i: int, n: int)
    requires
        0 <= n < 100,
        0 <= i,
        i + 2 <= s.len(),
        s.subrange(i, i + 2) == two_digits(n),
    ensures
        digits_at(s, i, 2),
        number_at(s, i, 2) == n,
{
    assert(s[i] == two_digits(n)[0]);
    assert(s[i + 1] == two_digits(n)[1]);
    reveal_with_fuel(number_at, 3);
    assert(number_at(s, i, 2) == (n / 10) * 10 + n % 10);
}

proof fn lemma_four_digits(s: Seq<char>, i: int, n: int)
    requires
        0 <= n < 10000,
        0 <= i,
        i + 4 <= s.len(),
        s.subrange(i, i + 4) == four_digits(n),
    ensures
        digits_at(s, i, 4),
        number_at(s, i, 4) == n,
{
    assert(s[i] == four_digits(n)[0]);
    assert(s[i + 1] == four_digits(n)[1]);
    assert(s[i + 2] == four_digits(n)[2]);
    assert(s[i + 3] == four_digits(n)[3]);
    reveal_with_fuel(number_at, 5);
    assert(number_at(s, i, 4) == (((n / 1000) * 10 + (n / 100) % 10) * 10 + (n / 10) % 10) * 10
        + n % 10);
}

/// Canonical date text reads back as the timestamp it was written from.
pub proof fn lemma_date_text_reads_back(t: Timestamp)
    requires
        t.wf(),
        t.four_digit_year(),
    ensures
        canonical_date(date_text(t)) == Some(t),
        date_text(t).len() == 16,
        forall|k: int| 0 <= k < 16 ==> date_text(t)[k] != '\n' && date_text(t)[k] != ' ' || k == 10,
{
    let s = date_text(t);
    assert(s.len() == 16);
    assert(s.subrange(0, 2) =~= two_digits(t.day as int));
    assert(s.subrange(3, 5) =~= two_digits(t.month as int));
    assert(s.subrange(6, 10) =~= four_digits(t.year as int));
    assert(s.subrange(11, 13) =~= two_digits(t.hour as int));
    assert(s.subrange(14, 16) =~= two_digits(t.minute as int));
    lemma_two_digits(s, 0, t.day as int);
    lemma_two_digits(s, 3, t.month as int);
    lemma_four_digits(s, 6, t.year as int);
    lemma_two_digits(s, 11, t.hour as int);
    lemma_two_digits(s, 14, t.minute as int);
    assert forall|k: int| 0 <= k < 16 implies s[k] != '\n' && s[k] != ' ' || k == 10 by {
        if k == 0 || k == 1 || k == 3 || k == 4 || k == 11 || k == 12 || k == 14 || k == 15 {
            assert(is_digit(s[k]));
        } else if 6 <= k < 10 {
            assert(is_digit(s[k]));
        }
    }
}

proof fn lemma_digit_char(c: char)
    requires
        is_digit(c),
    ensures
        0 <= digit_value(c) < 10,
        digit_char(digit_value(c)) == c,
{
    let n = digit_value(c);
    if n == 0 {
        assert(c == '0');
    } else if n == 1 {
        assert(c == '1');
    } else if n == 2 {
        assert(c == '2');
    } else if n == 3 {
        assert(c == '3');
    } else if n == 4 {
        assert(c == '4');
    } else if n == 5 {
        assert(c == '5');
    } else if n == 6 {
        assert(c == '6');
    } else if n == 7 {
        assert(c == '7');
    } else if n == 8 {
        assert(c == '8');
    } else {
        assert(c == '9');
    }
}

proof fn lemma_read_two(s: Seq<char>, i: int)
    requires
        0 <= i,
        i + 2 <= s.len(),
        digits_at(s, i, 2),
    ensures
        0 <= number_at(s, i, 2) < 100,
        two_digits(number_at(s, i, 2)) == s.subrange(i, i + 2),
{
    reveal_with_fuel(number_at, 3);
    lemma_digit_char(s[i]);
    lemma_digit_char(s[i + 1]);
    assert(two_digits(number_at(s, i, 2)) =~= s.subrange(i, i + 2));
}

proof fn lemma_read_four(s: Seq<char>, i: int)
    requires
        0 <= i,
        i + 4 <= s.len(),
        digits_at(s, i, 4),
    ensures
        0 <= number_at(s, i, 4) < 10000,
        four_digits(number_at(s, i, 4)) == s.subrange(i, i + 4),
{
    reveal_with_fuel(number_at, 5);
    lemma_digit_char(s[i]);
    lemma_digit_char(s[i + 1]);
    lemma_digit_char(s[i + 2]);
    lemma_digit_char(s[i + 3]);
    assert(four_digits(number_at(s, i, 4)) =~= s.subrange(i, i + 4));
}

/// Canonical date text is exactly the text of the timestamp it stands for.
pub proof fn lemma_canonical_date_text(s: Seq<char>)
    requires
        canonical_date(s) is Some,
    ensures
        canonical_date(s)->Some_0.four_digit_year(),
        date_text(canonical_date(s)->Some_0) == s,
{
    lemma_read_two(s, 0);
    lemma_read_two(s, 3);
    lemma_read_four(s, 6);
    lemma_read_two(s, 11);
    lemma_read_two(s, 14);
    assert(date_text(canonical_date(s)->Some_0) =~= s);
}

} // verus!
