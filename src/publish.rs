//! Publishing: every source document becomes one HTML artifact.
//!
//! The caller clears the output directory, reads the sources, hands them
//! here, and writes back what comes out. A parse error in any document stops
//! the run.
use vstd::prelude::*;
use vstd::string::*;
use crate::document::{
    ParseError, ParseErrorView, PostView, parse, parse_model, header_text, is_title, message_text,
    line_end,
    lemma_parse_empty_body,
};
use crate::timestamp::Timestamp;

verus! {

/// Three backticks from position `k`: a code fence.
pub open spec fn is_fence_at(l: Seq<char>, k: int) -> bool {
    0 <= k && k + 3 <= l.len() && l[k] == '`' && l[k + 1] == '`' && l[k + 2] == '`'
}

pub open spec fn has_fence(l: Seq<char>) -> bool {
    exists|k: int| is_fence_at(l, k)
}

/// The number of bytes that UTF-8 spends on `c`.
pub open spec fn utf8_width(c: char) -> int {
    if (c as int) < 0x80 {
        1
    } else if (c as int) < 0x800 {
        2
    } else if (c as int) < 0x10000 {
        3
    } else {
        4
    }
}

/// A character that the renderer may strip from the front of a line before
/// it reads the line again: quote marks, spaces and list markers.
pub open spec fn is_prefix_char(c: char) -> bool {
    c == '>' || c == ' ' || c == '-' || c == '+' || c == '*' || c == '.' || ('0' <= c && c
        <= '9') || c == 'a' || c == 'A' || c == 'i' || c == 'I'
}

/// The last character of a list marker: a bullet, a digit or a dot.
pub open spec fn is_marker_end(c: char) -> bool {
    c == '-' || c == '+' || c == '*' || c == '.' || ('0' <= c && c <= '9')
}

/// Whether `l[0..c]` is made of prefix characters only.
pub open spec fn prefix_run(l: Seq<char>, c: int) -> bool {
    0 <= c <= l.len() && forall|j: int| 0 <= j < c ==> is_prefix_char(#[trigger] l[j])
}

/// Whether the characters of `l` from `i` on fill exactly `b` bytes.
pub open spec fn splits_at(l: Seq<char>, i: int, b: int) -> bool
    decreases l.len() - i,
{
    if b == 0 {
        true
    } else if b < 0 || i >= l.len() {
        false
    } else {
        splits_at(l, i + 1, b - utf8_width(l[i]))
    }
}

/// A line with a code fence where, after some strippable prefix, byte 3
/// falls inside a character.
pub open spec fn fence_breaks(l: Seq<char>) -> bool {
    has_fence(l) && exists|c: int| #[trigger] prefix_run(l, c) && !splits_at(l, c, 3)
}

pub open spec fn without_cr(l: Seq<char>) -> Seq<char> {
    if l.len() > 0 && l.last() == '\r' {
        l.drop_last()
    } else {
        l
    }
}

/// A line that is a list marker and a space, with nothing in the item.
pub open spec fn bare_list_marker(l: Seq<char>) -> bool {
    let m = without_cr(l);
    &&& m.len() >= 2
    &&& m.last() == ' '
    &&& is_marker_end(m[m.len() - 2])
    &&& prefix_run(m, m.len() as int)
}

pub open spec fn line_renderable(l: Seq<char>) -> bool {
    !fence_breaks(l) && !bare_list_marker(l)
}

pub open spec fn is_line_start(s: Seq<char>, a: int) -> bool {
    0 <= a <= s.len() && (a == 0 || s[a - 1] == '\n')
}

/// Text that the Markdown renderer takes without a panic: no line has a
/// code fence where byte 3 after a strippable prefix splits a character,
/// and no line is an empty list item.
pub open spec fn renderable(s: Seq<char>) -> bool {
    forall|a: int| #[trigger] is_line_start(s, a) ==> line_renderable(
        s.subrange(a, line_end(s, a)),
    )
}

fn utf8_width_of(c: char) -> (r: u32)
    ensures
        r == utf8_width(c),
{
    let n = c as u32;
    if n < 0x80 {
        1
    } else if n < 0x800 {
        2
    } else if n < 0x10000 {
        3
    } else {
        4
    }
}

fn is_prefix_char_exec(c: char) -> (r: bool)
    ensures
        r == is_prefix_char(c),
{
    c == '>' || c == ' ' || c == '-' || c == '+' || c == '*' || c == '.' || ('0' <= c && c <= '9')
        || c == 'a' || c == 'A' || c == 'i' || c == 'I'
}

/// Whether the line `s[a..e]` holds a code fence.
fn line_has_fence(s: &str, a: usize, e: usize) -> (r: bool)
    requires
        a <= e <= s@.len(),
    ensures
        r == has_fence(s@.subrange(a as int, e as int)),
{
    let ghost l = s@.subrange(a as int, e as int);
    let mut k: usize = a;
    while e - k >= 3
        invariant
            a <= k <= e <= s@.len(),
            l == s@.subrange(a as int, e as int),
            forall|j: int| 0 <= j < k - a ==> !is_fence_at(l, j),
        decreases e - k,
    {
        if s.get_char(k) == '`' && s.get_char(k + 1) == '`' && s.get_char(k + 2) == '`' {
            assert(is_fence_at(l, k - a));
            return true;
        }
        k = k + 1;
    }
    assert forall|j: int| !is_fence_at(l, j) by {
        if 0 <= j < k - a {
        }
    }
    false
}

/// Whether the characters of `s[i..e]` fill exactly three bytes.
fn splits_three(s: &str, a: usize, i: usize, e: usize) -> (r: bool)
    requires
        a <= i <= e <= s@.len(),
    ensures
        r == splits_at(s@.subrange(a as int, e as int), i - a, 3),
{
    let ghost l = s@.subrange(a as int, e as int);
    let mut b: u32 = 3;
    let mut k: usize = i;
    while b > 0 && k < e
        invariant
            a <= i <= k <= e <= s@.len(),
            b <= 3,
            l == s@.subrange(a as int, e as int),
            splits_at(l, i - a, 3) == splits_at(l, k - a, b as int),
        decreases e - k,
    {
        let w = utf8_width_of(s.get_char(k));
        assert(l[k - a] == s@[k as int]);
        if w > b {
            assert(!splits_at(l, k - a + 1, b - w));
            return false;
        }
        b = b - w;
        k = k + 1;
    }
    b == 0
}

/// Whether the line `s[a..e]` is free of a breaking code fence.
fn fence_safe(s: &str, a: usize, e: usize) -> (r: bool)
    requires
        a <= e <= s@.len(),
    ensures
        r == !fence_breaks(s@.subrange(a as int, e as int)),
{
    let ghost l = s@.subrange(a as int, e as int);
    if !line_has_fence(s, a, e) {
        return true;
    }
    let mut c: usize = a;
    loop
        invariant
            a <= c <= e <= s@.len(),
            l == s@.subrange(a as int, e as int),
            has_fence(l),
            prefix_run(l, c - a),
            forall|x: int| 0 <= x < c - a ==> #[trigger] prefix_run(l, x) ==> splits_at(l, x, 3),
        decreases e - c,
    {
        if !splits_three(s, a, c, e) {
            assert(prefix_run(l, c - a) && !splits_at(l, c - a, 3));
            return false;
        }
        if c == e || !is_prefix_char_exec(s.get_char(c)) {
            assert forall|x: int| #[trigger] prefix_run(l, x) implies splits_at(l, x, 3) by {
                if x > c - a {
                    assert(is_prefix_char(l[c - a]));
                }
            }
            return true;
        }
        assert(l[c - a] == s@[c as int]);
        c = c + 1;
    }
}

/// Whether the line `s[a..e]` is a list marker and a space with nothing else.
fn is_bare_list_marker(s: &str, a: usize, e: usize) -> (r: bool)
    requires
        a <= e <= s@.len(),
    ensures
        r == bare_list_marker(s@.subrange(a as int, e as int)),
{
    let ghost l = s@.subrange(a as int, e as int);
    assert(e > a ==> l.last() == s@[e - 1]);
    let end = if e > a && s.get_char(e - 1) == '\r' {
        e - 1
    } else {
        e
    };
    let ghost m = s@.subrange(a as int, end as int);
    assert(without_cr(l) =~= m);
    if end - a < 2 {
        return false;
    }
    let c = s.get_char(end - 2);
    assert(m[m.len() - 2] == c);
    assert(m.last() == s@[end - 1]);
    if s.get_char(end - 1) != ' ' || !(c == '-' || c == '+' || c == '*' || c == '.' || ('0' <= c
        && c <= '9')) {
        return false;
    }
    assert(bare_list_marker(l) == prefix_run(m, m.len() as int));
    let mut k: usize = a;
    while k < end
        invariant
            a <= k <= end <= e <= s@.len(),
            m == s@.subrange(a as int, end as int),
            bare_list_marker(s@.subrange(a as int, e as int)) == prefix_run(m, m.len() as int),
            forall|j: int| 0 <= j < k - a ==> is_prefix_char(#[trigger] m[j]),
        decreases end - k,
    {
        if !is_prefix_char_exec(s.get_char(k)) {
            assert(!is_prefix_char(m[k - a]));
            assert(!prefix_run(m, m.len() as int));
            return false;
        }
        assert(m[k - a] == s@[k as int]);
        k = k + 1;
    }
    assert(prefix_run(m, m.len() as int));
    true
}

proof fn lemma_no_newline_in_line(s: Seq<char>, a: int, m: int)
    requires
        0 <= a <= m < line_end(s, a),
        line_end(s, a) <= s.len(),
    ensures
        s[m] != '\n',
    decreases m - a,
{
    if a < m {
        assert(s[a] != '\n');
        lemma_no_newline_in_line(s, a + 1, m);
    }
}

/// Where the line that starts at `a` ends.
fn find_line_end(s: &str, n: usize, a: usize) -> (r: usize)
    requires
        n == s@.len(),
        a <= n,
    ensures
        r == line_end(s@, a as int),
        a <= r <= n,
        r < n ==> s@[r as int] == '\n',
{
    let mut e: usize = a;
    let mut found = false;
    while !found && e < n
        invariant
            n == s@.len(),
            a <= e <= n,
            line_end(s@, a as int) == line_end(s@, e as int),
            found ==> e < n && s@[e as int] == '\n',
        decreases n - e + (if found { 0int } else { 1int }),
    {
        if s.get_char(e) == '\n' {
            found = true;
        } else {
            e = e + 1;
        }
    }
    e
}

/// Whether the Markdown renderer can take `s`.
pub fn is_renderable(s: &str) -> (r: bool)
    ensures
        r == renderable(s@),
{
    let n = s.unicode_len();
    let mut a: usize = 0;
    loop
        invariant
            n == s@.len(),
            is_line_start(s@, a as int),
            forall|x: int|
                #![trigger is_line_start(s@, x)]
                0 <= x < a && is_line_start(s@, x) ==> line_renderable(
                    s@.subrange(x, line_end(s@, x)),
                ),
        decreases n - a,
    {
        let e = find_line_end(s, n, a);
        let ok = fence_safe(s, a, e) && !is_bare_list_marker(s, a, e);
        if !ok {
            assert(!line_renderable(s@.subrange(a as int, line_end(s@, a as int))));
            assert(is_line_start(s@, a as int));
            return false;
        }
        assert(line_renderable(s@.subrange(a as int, line_end(s@, a as int))));
        assert forall|x: int| a < x <= e implies !is_line_start(s@, x) by {
            lemma_no_newline_in_line(s@, a as int, x - 1);
        }
        if e == n {
            assert forall|x: int| #[trigger] is_line_start(s@, x) implies line_renderable(
                s@.subrange(x, line_end(s@, x)),
            ) by {
                if x > a {
                    assert(!is_line_start(s@, x));
                }
            }
            return true;
        }
        a = e + 1;
    }
}

/// What the Markdown renderer makes of a non-empty body.
pub uninterp spec fn html_of(s: Seq<char>) -> Seq<char>;

/// The HTML of a body; an empty body renders as a lone newline.
pub open spec fn rendered(s: Seq<char>) -> Seq<char> {
    if s.len() == 0 {
        seq!['\n']
    } else {
        html_of(s)
    }
}

/// Relies on markdown's `to_html`: its output depends on the text alone,
/// ends in a newline after its trimmed blocks, and is a lone newline for
/// empty text, which holds no block. It panics on a fenced line whose byte
/// 3, after a stripped quote or list prefix, splits a character, and on an
/// empty list item; `renderable` leaves both out.
#[verifier::external_body]
fn render_markdown(s: &str) -> (r: String)
    requires
        renderable(s@),
    ensures
        s@.len() == 0 ==> r@ == seq!['\n'],
        s@.len() > 0 ==> r@ == html_of(s@),
{
    markdown::to_html(s)
}

/// The last `.` before position `i`, or -1.
pub open spec fn last_dot(s: Seq<char>, i: int) -> int
    decreases i,
{
    if i <= 0 {
        -1
    } else if s[i - 1] == '.' {
        i - 1
    } else {
        last_dot(s, i - 1)
    }
}

/// A file name without its extension; a leading dot starts no extension.
pub open spec fn stem(name: Seq<char>) -> Seq<char> {
    let d = last_dot(name, name.len() as int);
    if d > 0 {
        name.subrange(0, d)
    } else {
        name
    }
}

pub open spec fn artifact_name(name: Seq<char>) -> Seq<char> {
    stem(name) + seq!['.', 'h', 't', 'm', 'l']
}

pub open spec fn warning_text(name: Seq<char>) -> Seq<char> {
    seq!['p', 'o', 's', 't', ' ', '\''] + name + seq!['\'', ' ', 'i', 's', ' '] + seq![
        'e', 'm', 'p', 't', 'y',
    ]
}

/// The name of the artifact made from a source file: the extension replaced
/// by `html`.
pub fn html_file_name(name: &str) -> (r: String)
    ensures
        r@ == artifact_name(name@),
{
    let len = name.unicode_len();
    let mut i: usize = len;
    let mut found = false;
    while !found && i > 0
        invariant
            i <= len == name@.len(),
            last_dot(name@, len as int) == if found {
                i as int
            } else {
                last_dot(name@, i as int)
            },
            found ==> i < len && name@[i as int] == '.',
        decreases i + (if found { 0int } else { 1int }),
    {
        if name.get_char(i - 1) == '.' {
            i = i - 1;
            found = true;
        } else {
            i = i - 1;
        }
    }
    let mut r = if found && i > 0 {
        name.substring_char(0, i).to_owned()
    } else {
        name.to_owned()
    };
    proof {
        reveal_strlit(".html");
        if found && i > 0 {
            assert(last_dot(name@, len as int) == i);
        } else if found {
            assert(last_dot(name@, len as int) == 0);
        } else {
            assert(last_dot(name@, 0) == -1);
        }
    }
    r.append(".html");
    assert(r@ =~= artifact_name(name@));
    r
}

/// The warning for a source file whose body is empty.
pub fn empty_post_warning(name: &str) -> (r: String)
    ensures
        r@ == warning_text(name@),
{
    let mut r = "post '".to_owned();
    r.append(name);
    r.append("' is empty");
    proof {
        reveal_strlit("post '");
        reveal_strlit("' is empty");
    }
    assert(r@ =~= warning_text(name@));
    r
}

/// One source file: its name and its text.
pub struct SourceDocument {
    pub file_name: String,
    pub text: String,
}

/// One output file: its name and its HTML.
#[derive(Debug)]
pub struct Artifact {
    pub file_name: String,
    pub html: String,
}

impl View for Artifact {
    type V = (Seq<char>, Seq<char>);

    open spec fn view(&self) -> (Seq<char>, Seq<char>) {
        (self.file_name@, self.html@)
    }
}

/// Why a document could not be published.
#[derive(Debug)]
pub enum PublishError {
    /// The document does not parse.
    Parse(ParseError),
    /// The body of the named source is text the Markdown renderer cannot take.
    Unrenderable { file_name: String },
}

pub enum PublishErrorView {
    Parse(ParseErrorView),
    Unrenderable(Seq<char>),
}

impl View for PublishError {
    type V = PublishErrorView;

    open spec fn view(&self) -> PublishErrorView {
        match self {
            PublishError::Parse(e) => PublishErrorView::Parse(e@),
            PublishError::Unrenderable { file_name } => PublishErrorView::Unrenderable(
                file_name@,
            ),
        }
    }
}

/// The message that reports a publish error.
pub open spec fn publish_message_text(e: PublishErrorView) -> Seq<char> {
    match e {
        PublishErrorView::Parse(p) => message_text(p),
        PublishErrorView::Unrenderable(name) => "post '"@ + name
            + "' holds text that the Markdown renderer cannot take"@,
    }
}

impl PublishError {
    /// A message for people.
    pub fn message(&self) -> (r: String)
        ensures
            r@ == publish_message_text(self@),
    {
        match self {
            PublishError::Parse(e) => e.message(),
            PublishError::Unrenderable { file_name } => {
                let mut r = "post '".to_owned();
                r.append(file_name.as_str());
                r.append("' holds text that the Markdown renderer cannot take");
                r
            },
        }
    }
}

/// One published document: its artifact, and its warning if its body is
/// empty.
#[derive(Debug)]
pub struct PublishedDocument {
    pub artifact: Artifact,
    pub warning: Option<String>,
}

pub struct PublishedDocumentView {
    pub artifact: (Seq<char>, Seq<char>),
    pub warning: Option<Seq<char>>,
}

impl View for PublishedDocument {
    type V = PublishedDocumentView;

    open spec fn view(&self) -> PublishedDocumentView {
        PublishedDocumentView {
            artifact: self.artifact@,
            warning: match self.warning {
                Some(w) => Some(w@),
                None => None,
            },
        }
    }
}

/// What publishing one source gives.
pub open spec fn document_model(name: Seq<char>, text: Seq<char>) -> Result<
    PublishedDocumentView,
    PublishErrorView,
> {
    match parse_model(text) {
        Err(e) => Err(PublishErrorView::Parse(e)),
        Ok(p) => if !renderable(p.content) {
            Err(PublishErrorView::Unrenderable(name))
        } else {
            Ok(
                PublishedDocumentView {
                    artifact: (artifact_name(name), rendered(p.content)),
                    warning: if p.content.len() == 0 {
                        Some(warning_text(name))
                    } else {
                        None
                    },
                },
            )
        },
    }
}

/// Publishes one source: parses it, renders its body, and names its
/// artifact after it.
pub fn publish_document(doc: &SourceDocument) -> (r: Result<PublishedDocument, PublishError>)
    ensures
        match r {
            Ok(d) => document_model(doc.file_name@, doc.text@) == Ok::<
                PublishedDocumentView,
                PublishErrorView,
            >(d@),
            Err(e) => document_model(doc.file_name@, doc.text@) == Err::<
                PublishedDocumentView,
                PublishErrorView,
            >(e@),
        },
{
    let post = match parse(doc.text.as_str()) {
        Err(e) => return Err(PublishError::Parse(e)),
        Ok(p) => p,
    };
    if !is_renderable(post.content.as_str()) {
        return Err(PublishError::Unrenderable { file_name: doc.file_name.clone() });
    }
    let warning = if post.content.as_str().is_empty() {
        Some(empty_post_warning(doc.file_name.as_str()))
    } else {
        None
    };
    let html = render_markdown(post.content.as_str());
    let file_name = html_file_name(doc.file_name.as_str());
    Ok(PublishedDocument { artifact: Artifact { file_name, html }, warning })
}

/// The outcome of a run: how many documents were published, and the
/// warnings met on the way.
#[derive(Debug)]
pub struct PublishSummary {
    pub published: usize,
    pub warnings: Vec<String>,
}

/// Everything a run writes, and its summary.
#[derive(Debug)]
pub struct Publication {
    pub artifacts: Vec<Artifact>,
    pub summary: PublishSummary,
}

pub struct PublicationView {
    pub artifacts: Seq<(Seq<char>, Seq<char>)>,
    pub warnings: Seq<Seq<char>>,
}

impl View for Publication {
    type V = PublicationView;

    open spec fn view(&self) -> PublicationView {
        PublicationView {
            artifacts: self.artifacts@.map_values(|a: Artifact| a@),
            warnings: self.summary.warnings@.map_values(|w: String| w@),
        }
    }
}

/// A run over `docs` in their order: the artifacts and warnings of every
/// document, or the error of the first one that cannot be published.
pub open spec fn publish_model(docs: Seq<SourceDocument>) -> Result<
    PublicationView,
    PublishErrorView,
>
    decreases docs.len(),
{
    if docs.len() == 0 {
        Ok(PublicationView { artifacts: Seq::empty(), warnings: Seq::empty() })
    } else {
        let last = docs.last();
        match publish_model(docs.drop_last()) {
            Err(e) => Err(e),
            Ok(v) => match document_model(last.file_name@, last.text@) {
                Err(e) => Err(e),
                Ok(d) => Ok(
                    PublicationView {
                        artifacts: v.artifacts.push(d.artifact),
                        warnings: match d.warning {
                            Some(w) => v.warnings.push(w),
                            None => v.warnings,
                        },
                    },
                ),
            },
        }
    }
}

/// Publishes `sources` in their order. Stops at the first document that
/// cannot be published.
pub fn publish(sources: &Vec<SourceDocument>) -> (r: Result<Publication, PublishError>)
    ensures
        match r {
            Ok(p) => publish_model(sources@) == Ok::<PublicationView, PublishErrorView>(p@)
                && p.summary.published == sources@.len(),
            Err(e) => publish_model(sources@) == Err::<PublicationView, PublishErrorView>(e@),
        },
{
    let mut artifacts: Vec<Artifact> = Vec::new();
    let mut warnings: Vec<String> = Vec::new();
    let mut i: usize = 0;
    assert(sources@.take(0) =~= Seq::<SourceDocument>::empty());
    assert(artifacts@.map_values(|a: Artifact| a@) =~= Seq::<(Seq<char>, Seq<char>)>::empty());
    assert(warnings@.map_values(|w: String| w@) =~= Seq::<Seq<char>>::empty());
    while i < sources.len()
        invariant
            i <= sources@.len(),
            artifacts@.len() == i,
            publish_model(sources@.take(i as int)) == Ok::<PublicationView, PublishErrorView>(
                PublicationView {
                    artifacts: artifacts@.map_values(|a: Artifact| a@),
                    warnings: warnings@.map_values(|w: String| w@),
                },
            ),
        decreases sources@.len() - i,
    {
        let doc = &sources[i];
        assert(sources@.take(i + 1).drop_last() =~= sources@.take(i as int));
        assert(sources@.take(i + 1).last() == sources@[i as int]);
        let done = match publish_document(doc) {
            Err(e) => {
                let ghost k = i + 1;
                proof {
                    lemma_publish_stops(sources@, k as int);
                }
                assert(sources@.take(sources@.len() as int) =~= sources@);
                return Err(e);
            },
            Ok(d) => d,
        };
        let ghost old_artifacts = artifacts@;
        let ghost old_warnings = warnings@;
        let PublishedDocument { artifact, warning } = done;
        let ghost a = artifact@;
        match warning {
            Some(w) => {
                warnings.push(w);
                assert(warnings@.map_values(|w: String| w@) =~= old_warnings.map_values(
                    |w: String| w@,
                ).push(w@));
            },
            None => {},
        }
        artifacts.push(artifact);
        assert(artifacts@.map_values(|a: Artifact| a@) =~= old_artifacts.map_values(
            |a: Artifact| a@,
        ).push(a));
        i = i + 1;
    }
    assert(sources@.take(sources@.len() as int) =~= sources@);
    let published = artifacts.len();
    Ok(Publication { artifacts, summary: PublishSummary { published, warnings } })
}

/// Once a prefix of the run fails, the whole run fails the same way.
proof fn lemma_publish_stops(docs: Seq<SourceDocument>, k: int)
    requires
        0 <= k <= docs.len(),
        publish_model(docs.take(k)) is Err,
    ensures
        publish_model(docs) == publish_model(docs.take(k)),
    decreases docs.len() - k,
{
    if k < docs.len() {
        assert(docs.take(k + 1).drop_last() =~= docs.take(k));
        lemma_publish_stops(docs, k + 1);
    } else {
        assert(docs.take(k) =~= docs);
    }
}

/// Each artifact of a run is named after the source at the same place, and
/// there is one per source, nothing else.
pub proof fn lemma_publish_artifact_names(docs: Seq<SourceDocument>)
    requires
        publish_model(docs) is Ok,
    ensures
        publish_model(docs)->Ok_0.artifacts.len() == docs.len(),
        forall|k: int|
            0 <= k < docs.len() ==> (#[trigger] publish_model(docs)->Ok_0.artifacts[k]).0
                == artifact_name(docs[k].file_name@),
    decreases docs.len(),
{
    if docs.len() > 0 {
        lemma_publish_artifact_names(docs.drop_last());
    }
}

/// Two runs over sources with the same names and texts, in the same order,
/// give the same artifacts and warnings, or the same error.
pub proof fn lemma_publish_repeatable(a: Seq<SourceDocument>, b: Seq<SourceDocument>)
    requires
        a.len() == b.len(),
        forall|k: int|
            0 <= k < a.len() ==> (#[trigger] a[k]).file_name@ == b[k].file_name@ && a[k].text@
                == b[k].text@,
    ensures
        publish_model(a) == publish_model(b),
    decreases a.len(),
{
    if a.len() > 0 {
        lemma_publish_repeatable(a.drop_last(), b.drop_last());
    }
}

/// The body of a published source, as the parser reads it.
pub open spec fn body_of(doc: SourceDocument) -> Seq<char> {
    parse_model(doc.text@)->Ok_0.content
}

/// A run in which no published body is empty warns of nothing.
proof fn lemma_publish_no_warning(docs: Seq<SourceDocument>)
    requires
        publish_model(docs) is Ok,
        forall|k: int| 0 <= k < docs.len() ==> #[trigger] body_of(docs[k]).len() > 0,
    ensures
        publish_model(docs)->Ok_0.warnings.len() == 0,
    decreases docs.len(),
{
    if docs.len() > 0 {
        let p = docs.drop_last();
        assert forall|k: int| 0 <= k < p.len() implies #[trigger] body_of(p[k]).len() > 0 by {
            assert(p[k] == docs[k]);
        }
        lemma_publish_no_warning(p);
        assert(body_of(docs[docs.len() - 1]).len() > 0);
    }
}

/// A run in which exactly one source, at `i`, has an empty body gives
/// exactly one warning, and it names that source.
pub proof fn lemma_publish_one_empty_post(docs: Seq<SourceDocument>, i: int)
    requires
        publish_model(docs) is Ok,
        0 <= i < docs.len(),
        body_of(docs[i]).len() == 0,
        forall|k: int| 0 <= k < docs.len() && k != i ==> #[trigger] body_of(docs[k]).len() > 0,
    ensures
        publish_model(docs)->Ok_0.warnings == seq![warning_text(docs[i].file_name@)],
    decreases docs.len(),
{
    let p = docs.drop_last();
    let last = docs.len() - 1;
    assert(docs[last] == docs.last());
    if i == last {
        assert forall|k: int| 0 <= k < p.len() implies #[trigger] body_of(p[k]).len() > 0 by {
            assert(p[k] == docs[k]);
        }
        lemma_publish_no_warning(p);
        assert(Seq::<Seq<char>>::empty().push(warning_text(docs[i].file_name@)) =~= seq![
            warning_text(docs[i].file_name@),
        ]);
        assert(publish_model(p)->Ok_0.warnings =~= Seq::<Seq<char>>::empty());
    } else {
        assert forall|k: int| 0 <= k < p.len() && k != i implies #[trigger] body_of(p[k]).len()
            > 0 by {
            assert(p[k] == docs[k]);
        }
        assert(p[i] == docs[i]);
        lemma_publish_one_empty_post(p, i);
        assert(body_of(docs[last]).len() > 0);
    }
}

/// A lone source with a header and an empty body publishes as a lone
/// newline, with one warning that names it.
pub proof fn lemma_publish_empty_post(
    doc: SourceDocument,
    n: nat,
    title: Seq<char>,
    published: Timestamp,
)
    requires
        doc.text@ == header_text(n, title, published),
        n >= 3,
        is_title(title),
        published.wf(),
        published.four_digit_year(),
    ensures
        publish_model(seq![doc]) == Ok::<PublicationView, PublishErrorView>(
            PublicationView {
                artifacts: seq![(artifact_name(doc.file_name@), seq!['\n'])],
                warnings: seq![warning_text(doc.file_name@)],
            },
        ),
{
    lemma_parse_empty_body(n, title, published);
    let docs = seq![doc];
    assert(docs.drop_last() =~= Seq::<SourceDocument>::empty());
    assert(docs.last() == doc);
    assert(publish_model(docs.drop_last()) == Ok::<PublicationView, PublishErrorView>(
        PublicationView { artifacts: Seq::empty(), warnings: Seq::empty() },
    ));
    assert(parse_model(docs.last().text@) == Ok::<PostView, ParseErrorView>(
        PostView { title, published, content: Seq::empty() },
    ));
    assert(renderable(Seq::<char>::empty()));
    assert(Seq::<(Seq<char>, Seq<char>)>::empty().push((artifact_name(doc.file_name@), seq!['\n']))
        =~= seq![(artifact_name(doc.file_name@), seq!['\n'])]);
    assert(Seq::<Seq<char>>::empty().push(warning_text(doc.file_name@)) =~= seq![
        warning_text(doc.file_name@),
    ]);
}

} // verus!
