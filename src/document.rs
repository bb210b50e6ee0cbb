//! Posts and the parser of their header.
//!
//! A document is four header lines, each ended by a newline, then a body:
//!
//! ```text
//! ---
//! title: hello-world
//! date published: 01/01/2024 09:00
//! ---
//! body, kept verbatim
//! ```
use vstd::prelude::*;
use vstd::string::*;
use crate::timestamp::{
    Timestamp, canonical_date, parse_date, date_text, format_date, lemma_date_text_reads_back,
    lemma_canonical_date_text,
};

verus! {

/// The header line that a parse expected to find.
#[derive(Clone, Copy, Debug, PartialEq, Eq, Structural)]
pub enum LineKind {
    OpeningDelimiter,
    Title,
    DatePublished,
    ClosingDelimiter,
}

/// One parsed document.
#[derive(Debug)]
pub struct Post {
    pub title: String,
    pub published: Timestamp,
    pub content: String,
}

pub struct PostView {
    pub title: Seq<char>,
    pub published: Timestamp,
    pub content: Seq<char>,
}

impl Post {
    /// A title of the allowed characters and a real date and time.
    pub open spec fn wf(&self) -> bool {
        is_title(self.title@) && self.published.wf()
    }
}

impl View for Post {
    type V = PostView;

    open spec fn view(&self) -> PostView {
        PostView { title: self.title@, published: self.published, content: self.content@ }
    }
}

/// Why a document could not be parsed.
#[derive(Debug)]
pub enum ParseError {
    /// A header line does not have the shape of the line expected there.
    Format { expected: LineKind, found: String },
    /// The date field is there but is not a real date and time written
    /// exactly as `DATE_FORMAT` lays it out, every field zero-padded.
    Date { found: String },
    /// The input ends before the header does.
    UnexpectedEndOfInput,
}

pub enum ParseErrorView {
    Format { expected: LineKind, found: Seq<char> },
    Date { found: Seq<char> },
    UnexpectedEndOfInput,
}

impl View for ParseError {
    type V = ParseErrorView;

    open spec fn view(&self) -> ParseErrorView {
        match self {
            ParseError::Format { expected, found } => ParseErrorView::Format {
                expected: *expected,
                found: found@,
            },
            ParseError::Date { found } => ParseErrorView::Date { found: found@ },
            ParseError::UnexpectedEndOfInput => ParseErrorView::UnexpectedEndOfInput,
        }
    }
}

pub open spec fn result_view(r: Result<Post, ParseError>) -> Result<PostView, ParseErrorView> {
    match r {
        Ok(p) => Ok(p@),
        Err(e) => Err(e@),
    }
}

/// The first newline at or after `i`, or the end of `s`.
pub open spec fn line_end(s: Seq<char>, i: int) -> int
    decreases s.len() - i,
{
    if i >= s.len() {
        s.len() as int
    } else if s[i] == '\n' {
        i
    } else {
        line_end(s, i + 1)
    }
}

/// The line that starts at `i`, without its newline, and where the next
/// line starts; `None` where no newline ends a line there.
pub open spec fn line_at(s: Seq<char>, i: int) -> Option<(Seq<char>, int)> {
    let e = line_end(s, i);
    if i < s.len() && e < s.len() {
        Some((s.subrange(i, e), e + 1))
    } else {
        None
    }
}

/// Three or more dashes and nothing else.
pub open spec fn is_delimiter(l: Seq<char>) -> bool {
    l.len() >= 3 && forall|k: int| 0 <= k < l.len() ==> l[k] == '-'
}

/// A letter or digit of ASCII, an underscore or a hyphen.
pub open spec fn is_title_char(c: char) -> bool {
    ('a' <= c && c <= 'z') || ('A' <= c && c <= 'Z') || ('0' <= c && c <= '9') || c == '_'
        || c == '-'
}

pub open spec fn is_title(t: Seq<char>) -> bool {
    t.len() > 0 && forall|k: int| 0 <= k < t.len() ==> is_title_char(#[trigger] t[k])
}

pub open spec fn title_key() -> Seq<char> {
    seq!['t', 'i', 't', 'l', 'e', ':']
}

pub open spec fn date_key() -> Seq<char> {
    seq!['d', 'a', 't', 'e', ' ', 'p', 'u', 'b', 'l', 'i', 's', 'h', 'e', 'd', ':']
}

/// The first position at or after `i` that holds no space.
pub open spec fn skip_spaces(l: Seq<char>, i: int) -> int
    decreases l.len() - i,
{
    if i >= l.len() || l[i] != ' ' {
        i
    } else {
        skip_spaces(l, i + 1)
    }
}

pub open spec fn starts_with(l: Seq<char>, key: Seq<char>) -> bool {
    l.len() >= key.len() && l.subrange(0, key.len() as int) == key
}

/// `title:`, one or more spaces, then the title itself up to the end of line.
pub open spec fn title_field(l: Seq<char>) -> Option<Seq<char>> {
    if starts_with(l, title_key()) {
        let k = skip_spaces(l, 6);
        let t = l.subrange(k, l.len() as int);
        if k > 6 && is_title(t) {
            Some(t)
        } else {
            None
        }
    } else {
        None
    }
}

/// `date published:`, one or more spaces, then a non-empty value up to the
/// end of line. Spaces go to the separator, all but one where nothing else
/// follows them.
pub open spec fn date_field(l: Seq<char>) -> Option<Seq<char>> {
    if starts_with(l, date_key()) && l.len() >= 17 && l[15] == ' ' {
        let k = skip_spaces(l, 15);
        let start = if k < l.len() {
            k
        } else {
            l.len() - 1
        };
        Some(l.subrange(start, l.len() as int))
    } else {
        None
    }
}

/// What parsing a document gives: the header lines in their fixed order,
/// then the rest of the input verbatim as the body.
pub open spec fn parse_model(s: Seq<char>) -> Result<PostView, ParseErrorView> {
    match line_at(s, 0) {
        None => Err(ParseErrorView::UnexpectedEndOfInput),
        Some((l1, p1)) => if !is_delimiter(l1) {
            Err(ParseErrorView::Format { expected: LineKind::OpeningDelimiter, found: l1 })
        } else {
            match line_at(s, p1) {
                None => Err(ParseErrorView::UnexpectedEndOfInput),
                Some((l2, p2)) => match title_field(l2) {
                    None => Err(ParseErrorView::Format { expected: LineKind::Title, found: l2 }),
                    Some(title) => match line_at(s, p2) {
                        None => Err(ParseErrorView::UnexpectedEndOfInput),
                        Some((l3, p3)) => match date_field(l3) {
                            None => Err(
                                ParseErrorView::Format {
                                    expected: LineKind::DatePublished,
                                    found: l3,
                                },
                            ),
                            Some(d) => match canonical_date(d) {
                                None => Err(ParseErrorView::Date { found: d }),
                                Some(published) => match line_at(s, p3) {
                                    None => Err(ParseErrorView::UnexpectedEndOfInput),
                                    Some((l4, p4)) => if !is_delimiter(l4) {
                                        Err(
                                            ParseErrorView::Format {
                                                expected: LineKind::ClosingDelimiter,
                                                found: l4,
                                            },
                                        )
                                    } else {
                                        Ok(
                                            PostView {
                                                title,
                                                published,
                                                content: s.subrange(p4, s.len() as int),
                                            },
                                        )
                                    },
                                },
                            },
                        },
                    },
                },
            }
        },
    }
}

/// The line of `input` that starts at `start`: where its text stops and where
/// the next line starts, or `None` where the input ends before a newline.
pub fn read_line(input: &str, len: usize, start: usize) -> (r: Option<(usize, usize)>)
    requires
        len == input@.len(),
        start <= len,
    ensures
        match line_at(input@, start as int) {
            None => r is None,
            Some((l, next)) => r matches Some((stop, n)) && start <= stop <= len && l
                == input@.subrange(start as int, stop as int) && n == next && next <= len,
        },
{
    let ghost s = input@;
    if start == len {
        return None;
    }
    let mut e: usize = start;
    let mut found = false;
    while !found && e < len
        invariant
            len == s.len(),
            s == input@,
            start <= e <= len,
            line_end(s, start as int) == line_end(s, e as int),
            found ==> e < len && s[e as int] == '\n',
        decreases len - e + (if found { 0int } else { 1int }),
    {
        if input.get_char(e) == '\n' {
            found = true;
        } else {
            e = e + 1;
        }
    }
    if e < len {
        Some((e, e + 1))
    } else {
        None
    }
}

/// The error for a header line of the wrong shape.
pub fn unexpected_line(expected: LineKind, found: &str) -> (r: ParseError)
    ensures
        r@ == (ParseErrorView::Format { expected, found: found@ }),
{
    ParseError::Format { expected, found: found.to_owned() }
}

/// Whether the line `input[a..b]` is a delimiter.
fn is_delimiter_line(input: &str, a: usize, b: usize) -> (r: bool)
    requires
        a <= b <= input@.len(),
    ensures
        r == is_delimiter(input@.subrange(a as int, b as int)),
{
    let ghost l = input@.subrange(a as int, b as int);
    if b - a < 3 {
        return false;
    }
    let mut i: usize = a;
    while i < b
        invariant
            a <= i <= b <= input@.len(),
            l == input@.subrange(a as int, b as int),
            forall|k: int| 0 <= k < i - a ==> l[k] == '-',
        decreases b - i,
    {
        if input.get_char(i) != '-' {
            assert(l[i - a] != '-');
            return false;
        }
        i = i + 1;
    }
    true
}

/// Whether `input[a..b]` begins with `key`.
fn has_key(input: &str, a: usize, b: usize, key: &[char]) -> (r: bool)
    requires
        a <= b <= input@.len(),
    ensures
        r == starts_with(input@.subrange(a as int, b as int), key@),
{
    let ghost l = input@.subrange(a as int, b as int);
    if b - a < key.len() {
        return false;
    }
    let mut i: usize = 0;
    while i < key.len()
        invariant
            a + key@.len() <= b <= input@.len(),
            l == input@.subrange(a as int, b as int),
            i <= key@.len(),
            forall|k: int| 0 <= k < i ==> l[k] == key@[k],
        decreases key@.len() - i,
    {
        if input.get_char(a + i) != key[i] {
            assert(l.subrange(0, key@.len() as int)[i as int] != key@[i as int]);
            return false;
        }
        i = i + 1;
    }
    assert(l.subrange(0, key@.len() as int) =~= key@);
    true
}

/// The first position of `input[from..b]` that holds no space, or `b`.
fn skip_spaces_in(input: &str, a: usize, from: usize, b: usize) -> (r: usize)
    requires
        a <= from <= b <= input@.len(),
    ensures
        from <= r <= b,
        r - a == skip_spaces(input@.subrange(a as int, b as int), from - a),
{
    let ghost l = input@.subrange(a as int, b as int);
    let mut i: usize = from;
    let mut done = false;
    while !done && i < b
        invariant
            a <= from <= i <= b <= input@.len(),
            l == input@.subrange(a as int, b as int),
            skip_spaces(l, from - a) == skip_spaces(l, i - a),
            done ==> i < b && l[i - a] != ' ',
        decreases b - i + (if done { 0int } else { 1int }),
    {
        if input.get_char(i) != ' ' {
            done = true;
        } else {
            i = i + 1;
        }
    }
    i
}

/// Whether every character of `input[from..b]` may stand in a title.
fn all_title_chars(input: &str, from: usize, b: usize) -> (r: bool)
    requires
        from <= b <= input@.len(),
    ensures
        r == forall|k: int| from <= k < b ==> is_title_char(#[trigger] input@[k]),
{
    let mut i: usize = from;
    while i < b
        invariant
            from <= i <= b <= input@.len(),
            forall|k: int| from <= k < i ==> is_title_char(#[trigger] input@[k]),
        decreases b - i,
    {
        let c = input.get_char(i);
        if !(('a' <= c && c <= 'z') || ('A' <= c && c <= 'Z') || ('0' <= c && c <= '9') || c
            == '_' || c == '-') {
            return false;
        }
        i = i + 1;
    }
    true
}

/// Where the title begins in the line `input[a..b]`, if the line is a title
/// line.
fn title_start(input: &str, a: usize, b: usize) -> (r: Option<usize>)
    requires
        a <= b <= input@.len(),
    ensures
        match title_field(input@.subrange(a as int, b as int)) {
            None => r is None,
            Some(t) => r matches Some(k) && a <= k <= b && t == input@.subrange(
                k as int,
                b as int,
            ),
        },
{
    let ghost l = input@.subrange(a as int, b as int);
    let key: [char; 6] = ['t', 'i', 't', 'l', 'e', ':'];
    assert(key@ =~= title_key());
    if !has_key(input, a, b, &key) {
        return None;
    }
    let k = skip_spaces_in(input, a, a + 6, b);
    let ghost t = l.subrange(k - a, l.len() as int);
    assert(t =~= input@.subrange(k as int, b as int));
    if k == a + 6 || k == b {
        return None;
    }
    let ok = all_title_chars(input, k, b);
    assert(ok == is_title(t)) by {
        if ok {
            assert forall|j: int| 0 <= j < t.len() implies is_title_char(#[trigger] t[j]) by {
                assert(t[j] == input@[k + j]);
            }
        }
        if is_title(t) {
            assert forall|j: int| k <= j < b implies is_title_char(#[trigger] input@[j]) by {
                assert(t[j - k] == input@[j]);
            }
        }
    }
    if ok {
        Some(k)
    } else {
        None
    }
}

/// Where the date value begins in the line `input[a..b]`, if the line is a
/// date line.
fn date_start(input: &str, a: usize, b: usize) -> (r: Option<usize>)
    requires
        a <= b <= input@.len(),
    ensures
        match date_field(input@.subrange(a as int, b as int)) {
            None => r is None,
            Some(d) => r matches Some(k) && a <= k <= b && d == input@.subrange(
                k as int,
                b as int,
            ),
        },
{
    let ghost l = input@.subrange(a as int, b as int);
    let key: [char; 15] = [
        'd', 'a', 't', 'e', ' ', 'p', 'u', 'b', 'l', 'i', 's', 'h', 'e', 'd', ':',
    ];
    assert(key@ =~= date_key());
    if !has_key(input, a, b, &key) || b - a < 17 || input.get_char(a + 15) != ' ' {
        return None;
    }
    let k = skip_spaces_in(input, a, a + 15, b);
    let start = if k < b {
        k
    } else {
        b - 1
    };
    assert(l.subrange(start - a, l.len() as int) =~= input@.subrange(start as int, b as int));
    Some(start)
}

/// The timestamp that `value` stands for, if it is written exactly in the
/// zero-padded layout of `DATE_FORMAT` and names a real date and time.
fn read_exact_date(value: &str) -> (r: Option<Timestamp>)
    ensures
        r == canonical_date(value@),
{
    proof {
        if canonical_date(value@) is Some {
            lemma_canonical_date_text(value@);
        }
    }
    match parse_date(value) {
        Some(t) => {
            if 0 <= t.year && t.year <= 9999 {
                let text = format_date(t);
                if text == value.to_owned() {
                    proof {
                        lemma_date_text_reads_back(t);
                    }
                    Some(t)
                } else {
                    None
                }
            } else {
                None
            }
        },
        None => None,
    }
}

/// Parses a whole document: the four header lines in order, then the rest
/// of the input, verbatim, as the body. Fails at the first line that is out
/// of shape, on a date that does not read, or where the input ends within
/// the header.
pub fn parse(input: &str) -> (r: Result<Post, ParseError>)
    ensures
        result_view(r) == parse_model(input@),
        r matches Ok(p) ==> p.wf(),
{
    let len = input.unicode_len();
    let (stop1, next1) = match read_line(input, len, 0) {
        None => return Err(ParseError::UnexpectedEndOfInput),
        Some(x) => x,
    };
    if !is_delimiter_line(input, 0, stop1) {
        return Err(unexpected_line(LineKind::OpeningDelimiter, input.substring_char(0, stop1)));
    }
    let (stop2, next2) = match read_line(input, len, next1) {
        None => return Err(ParseError::UnexpectedEndOfInput),
        Some(x) => x,
    };
    let title = match title_start(input, next1, stop2) {
        None => return Err(unexpected_line(LineKind::Title, input.substring_char(next1, stop2))),
        Some(k) => input.substring_char(k, stop2).to_owned(),
    };
    let (stop3, next3) = match read_line(input, len, next2) {
        None => return Err(ParseError::UnexpectedEndOfInput),
        Some(x) => x,
    };
    let value = match date_start(input, next2, stop3) {
        None => return Err(
            unexpected_line(LineKind::DatePublished, input.substring_char(next2, stop3)),
        ),
        Some(k) => input.substring_char(k, stop3),
    };
    let published = match read_exact_date(value) {
        None => return Err(ParseError::Date { found: value.to_owned() }),
        Some(t) => t,
    };
    let (stop4, next4) = match read_line(input, len, next3) {
        None => return Err(ParseError::UnexpectedEndOfInput),
        Some(x) => x,
    };
    if !is_delimiter_line(input, next3, stop4) {
        return Err(unexpected_line(LineKind::ClosingDelimiter, input.substring_char(next3, stop4)));
    }
    let content = input.substring_char(next4, len).to_owned();
    Ok(Post { title, published, content })
}

/// A delimiter line of `n` dashes.
pub open spec fn dashes(n: nat) -> Seq<char> {
    Seq::new(n, |_i: int| '-')
}

pub open spec fn title_line(title: Seq<char>) -> Seq<char> {
    title_key() + seq![' '] + title
}

pub open spec fn date_line(published: Timestamp) -> Seq<char> {
    date_key() + seq![' '] + date_text(published)
}

pub open spec fn with_newline(l: Seq<char>) -> Seq<char> {
    l + seq!['\n']
}

/// The header of a post up to its closing delimiter.
pub open spec fn header_start(n: nat, title: Seq<char>, published: Timestamp) -> Seq<char> {
    with_newline(dashes(n)) + with_newline(title_line(title)) + with_newline(date_line(published))
}

/// The header of a post, each delimiter `n` dashes long.
pub open spec fn header_text(n: nat, title: Seq<char>, published: Timestamp) -> Seq<char> {
    header_start(n, title, published) + with_newline(dashes(n))
}

pub open spec fn document_text(
    n: nat,
    title: Seq<char>,
    published: Timestamp,
    body: Seq<char>,
) -> Seq<char> {
    header_text(n, title, published) + body
}

/// The first line of `s`, as `line_at` reads it; empty for empty input.
pub open spec fn first_line(s: Seq<char>) -> Seq<char> {
    match line_at(s, 0) {
        Some((l, _)) => l,
        None => Seq::empty(),
    }
}

pub open spec fn no_newline(l: Seq<char>) -> bool {
    forall|k: int| 0 <= k < l.len() ==> l[k] != '\n'
}

proof fn lemma_line_end(s: Seq<char>, i: int, e: int)
    requires
        0 <= i <= e <= s.len(),
        e == s.len() || s[e] == '\n',
        forall|k: int| i <= k < e ==> s[k] != '\n',
    ensures
        line_end(s, i) == e,
    decreases e - i,
{
    if i < e {
        lemma_line_end(s, i + 1, e);
    }
}

/// The line `l`, followed by a newline, read from position `i`.
proof fn lemma_line_at(s: Seq<char>, i: int, l: Seq<char>)
    requires
        0 <= i,
        i + l.len() < s.len(),
        s.subrange(i, i + l.len()) == l,
        s[i + l.len()] == '\n',
        no_newline(l),
    ensures
        line_at(s, i) == Some((l, i + l.len() + 1)),
{
    assert forall|k: int| i <= k < i + l.len() implies s[k] != '\n' by {
        assert(s[k] == l[k - i]);
    }
    lemma_line_end(s, i, i + l.len());
}

proof fn lemma_line_end_bounds(s: Seq<char>, i: int)
    requires
        0 <= i <= s.len(),
    ensures
        i <= line_end(s, i) <= s.len(),
        line_end(s, i) < s.len() ==> s[line_end(s, i)] == '\n',
    decreases s.len() - i,
{
    if i < s.len() && s[i] != '\n' {
        lemma_line_end_bounds(s, i + 1);
    }
}

proof fn lemma_line_end_shift(p: Seq<char>, r: Seq<char>, i: int)
    requires
        0 <= i <= r.len(),
    ensures
        line_end(p + r, p.len() + i) == p.len() + line_end(r, i),
    decreases r.len() - i,
{
    if i < r.len() {
        assert((p + r)[p.len() + i] == r[i]);
        lemma_line_end_shift(p, r, i + 1);
    }
}

/// A line read after a prefix is the line read at the start of the rest.
proof fn lemma_line_at_shift(p: Seq<char>, r: Seq<char>)
    ensures
        match line_at(r, 0) {
            None => line_at(p + r, p.len() as int) is None,
            Some((l, n)) => line_at(p + r, p.len() as int) == Some((l, p.len() + n)),
        },
{
    let s = p + r;
    if r.len() > 0 {
        lemma_line_end_shift(p, r, 0);
        lemma_line_end_bounds(r, 0);
        let e = line_end(r, 0);
        if e < r.len() {
            assert(s.subrange(p.len() as int, p.len() + e) =~= r.subrange(0, e));
        }
    }
}

proof fn lemma_title_line(title: Seq<char>)
    requires
        is_title(title),
    ensures
        title_field(title_line(title)) == Some(title),
        no_newline(title_line(title)),
        title_line(title).len() == title.len() + 7,
{
    let l2 = title_line(title);
    assert forall|k: int| 0 <= k < l2.len() implies l2[k] != '\n' by {
        if k >= 7 {
            assert(l2[k] == title[k - 7]);
            assert(is_title_char(title[k - 7]));
        }
    }
    assert(l2.subrange(0, 6) =~= title_key());
    assert(l2[7] == title[0]);
    assert(is_title_char(title[0]));
    assert(l2[6] == ' ');
    assert(skip_spaces(l2, 7) == 7);
    assert(skip_spaces(l2, 6) == 7);
    assert(l2.subrange(7, l2.len() as int) =~= title);
}

proof fn lemma_date_line(published: Timestamp)
    requires
        published.wf(),
        published.four_digit_year(),
    ensures
        date_field(date_line(published)) == Some(date_text(published)),
        canonical_date(date_text(published)) == Some(published),
        no_newline(date_line(published)),
        date_line(published).len() == 32,
{
    let l3 = date_line(published);
    lemma_date_text_reads_back(published);
    assert forall|k: int| 0 <= k < l3.len() implies l3[k] != '\n' by {
        if k >= 16 {
            assert(l3[k] == date_text(published)[k - 16]);
        }
    }
    assert(l3.subrange(0, 15) =~= date_key());
    assert(l3[16] == date_text(published)[0]);
    assert(l3[15] == ' ');
    assert(skip_spaces(l3, 16) == 16);
    assert(skip_spaces(l3, 15) == 16);
    assert(l3.subrange(16, l3.len() as int) =~= date_text(published));
}

proof fn lemma_dashes(n: nat)
    requires
        n >= 3,
    ensures
        is_delimiter(dashes(n)),
        no_newline(dashes(n)),
{
}

/// The line `l` and a newline, read after a prefix.
proof fn lemma_line_after(p: Seq<char>, l: Seq<char>, r: Seq<char>)
    requires
        no_newline(l),
    ensures
        line_at(p + with_newline(l) + r, p.len() as int) == Some((l, p.len() + l.len() + 1int)),
{
    let s = p + with_newline(l) + r;
    assert(s.subrange(p.len() as int, p.len() + l.len() as int) =~= l);
    assert(s[p.len() + l.len() as int] == '\n');
    lemma_line_at(s, p.len() as int, l);
}

proof fn lemma_concat_assoc(a: Seq<char>, b: Seq<char>, c: Seq<char>)
    ensures
        a + b + c == a + (b + c),
{
    assert(a + b + c =~= a + (b + c));
}

proof fn lemma_header_lines(n: nat, title: Seq<char>, published: Timestamp, rest: Seq<char>)
    requires
        n >= 3,
        is_title(title),
        published.wf(),
        published.four_digit_year(),
    ensures
        line_at(header_start(n, title, published) + rest, 0) == Some((dashes(n), n + 1int)),
        line_at(header_start(n, title, published) + rest, n + 1int) == Some(
            (title_line(title), n + title.len() + 9int),
        ),
        line_at(header_start(n, title, published) + rest, n + title.len() + 9int) == Some(
            (date_line(published), n + title.len() + 42int),
        ),
        header_start(n, title, published).len() == n + title.len() + 42int,
        title_field(title_line(title)) == Some(title),
        date_field(date_line(published)) == Some(date_text(published)),
        canonical_date(date_text(published)) == Some(published),
        is_delimiter(dashes(n)),
{
    let l1 = with_newline(dashes(n));
    let l2 = with_newline(title_line(title));
    let l3 = with_newline(date_line(published));
    lemma_dashes(n);
    lemma_title_line(title);
    lemma_date_line(published);
    let e = Seq::<char>::empty();
    lemma_line_after(e, dashes(n), l2 + l3 + rest);
    assert(e + l1 + (l2 + l3 + rest) =~= header_start(n, title, published) + rest);
    lemma_line_after(l1, title_line(title), l3 + rest);
    assert(l1 + l2 + (l3 + rest) =~= header_start(n, title, published) + rest);
    lemma_line_after(l1 + l2, date_line(published), rest);
    assert(l1 + l2 + l3 + rest =~= header_start(n, title, published) + rest);
}

/// A document written with a valid title, a timestamp with a four-digit
/// year and any body parses back to exactly that title, timestamp and body.
#[verifier::rlimit(40)]
pub proof fn lemma_parse_document_text(
    n: nat,
    title: Seq<char>,
    published: Timestamp,
    body: Seq<char>,
)
    requires
        n >= 3,
        is_title(title),
        published.wf(),
        published.four_digit_year(),
    ensures
        parse_model(document_text(n, title, published, body)) == Ok::<PostView, ParseErrorView>(
            PostView { title, published, content: body },
        ),
{
    let rest = with_newline(dashes(n)) + body;
    let p = header_start(n, title, published);
    lemma_concat_assoc(p, with_newline(dashes(n)), body);
    lemma_header_lines(n, title, published, rest);
    lemma_dashes(n);
    lemma_line_after(Seq::empty(), dashes(n), body);
    assert(Seq::<char>::empty() + with_newline(dashes(n)) + body =~= rest);
    lemma_line_at_shift(p, rest);
    assert((p + rest).subrange(p.len() + n + 1int, (p + rest).len() as int) =~= body);
}

/// A document whose body is empty parses, with an empty body.
pub proof fn lemma_parse_empty_body(n: nat, title: Seq<char>, published: Timestamp)
    requires
        n >= 3,
        is_title(title),
        published.wf(),
        published.four_digit_year(),
    ensures
        parse_model(header_text(n, title, published)) == Ok::<PostView, ParseErrorView>(
            PostView { title, published, content: Seq::empty() },
        ),
{
    lemma_parse_document_text(n, title, published, Seq::empty());
    assert(document_text(n, title, published, Seq::empty()) =~= header_text(n, title, published));
}

/// Input whose first line is no delimiter is refused for that line.
pub proof fn lemma_missing_opening_delimiter(s: Seq<char>)
    requires
        line_at(s, 0) matches Some((l, _)) && !is_delimiter(l),
    ensures
        parse_model(s) == Err::<PostView, ParseErrorView>(
            ParseErrorView::Format {
                expected: LineKind::OpeningDelimiter,
                found: first_line(s),
            },
        ),
{
}

/// A title line and a date line followed by anything but a delimiter line
/// are refused for that line.
pub proof fn lemma_missing_closing_delimiter(
    n: nat,
    title: Seq<char>,
    published: Timestamp,
    rest: Seq<char>,
)
    requires
        n >= 3,
        is_title(title),
        published.wf(),
        published.four_digit_year(),
        line_at(rest, 0) matches Some((l, _)) && !is_delimiter(l),
    ensures
        parse_model(header_start(n, title, published) + rest) == Err::<PostView, ParseErrorView>(
            ParseErrorView::Format {
                expected: LineKind::ClosingDelimiter,
                found: first_line(rest),
            },
        ),
{
    lemma_header_lines(n, title, published, rest);
    lemma_line_at_shift(header_start(n, title, published), rest);
}

/// The header of a new post: delimiters of eighteen dashes, the title and
/// the date published, and no body yet.
pub fn new_post_text(title: &str, published: Timestamp) -> (r: String)
    requires
        published.wf(),
        published.four_digit_year(),
    ensures
        r@ == header_text(18, title@, published),
{
    let date = format_date(published);
    let mut r = "------------------\ntitle: ".to_owned();
    r.append(title);
    r.append("\ndate published: ");
    r.append(date.as_str());
    r.append("\n------------------\n");
    proof {
        reveal_strlit("------------------\ntitle: ");
        reveal_strlit("\ndate published: ");
        reveal_strlit("\n------------------\n");
    }
    assert(r@ =~= header_text(18, title@, published));
    r
}

/// A new post with a valid title parses back to that title and date, with
/// an empty body.
pub proof fn lemma_new_post_parses(title: Seq<char>, published: Timestamp)
    requires
        is_title(title),
        published.wf(),
        published.four_digit_year(),
    ensures
        parse_model(header_text(18, title, published)) == Ok::<PostView, ParseErrorView>(
            PostView { title, published, content: Seq::empty() },
        ),
{
    lemma_parse_empty_body(18, title, published);
}

impl LineKind {
    /// How the expected line is described in an error message.
    pub open spec fn text(self) -> Seq<char> {
        match self {
            LineKind::OpeningDelimiter => "dashes 1"@,
            LineKind::Title => "title: {any title}"@,
            LineKind::DatePublished => "date published: {valid date time}"@,
            LineKind::ClosingDelimiter => "dashes"@,
        }
    }

    pub fn as_text(&self) -> (r: &'static str)
        ensures
            r@ == self.text(),
    {
        match self {
            LineKind::OpeningDelimiter => "dashes 1",
            LineKind::Title => "title: {any title}",
            LineKind::DatePublished => "date published: {valid date time}",
            LineKind::ClosingDelimiter => "dashes",
        }
    }
}

/// The message that reports a parse error.
pub open spec fn message_text(e: ParseErrorView) -> Seq<char> {
    match e {
        ParseErrorView::Format { expected, found } => "expected line to be '"@ + expected.text()
            + "', found '"@ + found + "'"@,
        ParseErrorView::Date { found } => "failed to parse date, expected %d/%m/%Y %H:%M, found "@
            + found,
        ParseErrorView::UnexpectedEndOfInput => "unexpected end of input"@,
    }
}

impl ParseError {
    /// A message for people: what was expected and what was found.
    pub fn message(&self) -> (r: String)
        ensures
            r@ == message_text(self@),
    {
        match self {
            ParseError::Format { expected, found } => {
                let mut r = "expected line to be '".to_owned();
                r.append(expected.as_text());
                r.append("', found '");
                r.append(found.as_str());
                r.append("'");
                r
            },
            ParseError::Date { found } => {
                let mut r = "failed to parse date, expected %d/%m/%Y %H:%M, found ".to_owned();
                r.append(found.as_str());
                r
            },
            ParseError::UnexpectedEndOfInput => "unexpected end of input".to_owned(),
        }
    }
}

} // verus!
