//! Compiles writings into a single manuscript: the request, the scene
//! metadata that stays out of it, and the Markdown it is built from.

use vstd::prelude::*;
use crate::pdf::{MdItem, MdTag, MdTagEnd, PageSize};
use crate::rtf::is_ascii_alpha;
use crate::text::{
    chars_of, decimal, decimal_string, find_char, first_of, is_blank, lemma_first_of, push_range,
    push_str, replace, replace_all, same_text, skip_ws_back, starts_with, string_of, trim, trim_end,
    trim_start, trimmed,
};

verus! {

#[derive(Debug, Clone, Copy, PartialEq, Eq, Structural)]
pub enum ExportFormat {
    Docx,
    Epub,
    Html,
    Markdown,
    Pdf,
}

impl ExportFormat {
    pub open spec fn ext(self) -> Seq<char> {
        match self {
            ExportFormat::Docx => "docx"@,
            ExportFormat::Epub => "epub"@,
            ExportFormat::Html => "html"@,
            ExportFormat::Markdown => "md"@,
            ExportFormat::Pdf => "pdf"@,
        }
    }

    /// The file extension of an export in this format.
    pub fn extension(self) -> (s: &'static str)
        ensures
            s@ == self.ext(),
    {
        match self {
            ExportFormat::Docx => "docx",
            ExportFormat::Epub => "epub",
            ExportFormat::Html => "html",
            ExportFormat::Markdown => "md",
            ExportFormat::Pdf => "pdf",
        }
    }
}

#[derive(Debug, Clone)]
pub enum ExportItem {
    /// A folder (part, chapter) title. Level 1 is the outermost.
    Heading { level: u8, text: String },
    /// A writing, by content-relative name. `title` is shown above it when set.
    Document { name: String, title: Option<String> },
}

#[derive(Debug, Clone)]
pub struct ExportRequest {
    pub format: ExportFormat,
    pub title: String,
    pub author: String,
    pub items: Vec<ExportItem>,
    /// Put between consecutive writings that have no heading between them,
    /// e.g. "* * *". Empty for nothing.
    pub scene_separator: String,
    /// DOCX only: standard manuscript format.
    pub manuscript_format: bool,
    /// Start every top-level heading on a new page (DOCX, HTML/PDF) or file (EPUB).
    pub chapter_page_breaks: bool,
    /// PDF only.
    pub page_size: PageSize,
    /// ISO 639 language of the text (e.g. "en", "de").
    pub lang: Option<String>,
    /// Replaces each chapter's heading, e.g. "Chapter {n}: {title}".
    pub chapter_heading: String,
    /// Writings whose scene status matches one of these (ignoring case) are
    /// left out. Folders left empty are dropped too.
    pub exclude_statuses: Vec<String>,
    /// A contents page after the title page listing parts and chapters.
    pub table_of_contents: bool,
    /// "Surname / TITLE / page" at the top of every page but the title page.
    pub running_head: bool,
    /// Pages between the title page and the contents.
    pub front_matter: Vec<MatterItem>,
    /// Pages after the last chapter.
    pub back_matter: Vec<MatterItem>,
}

#[derive(Debug, Clone, Copy, PartialEq, Eq, Structural)]
pub enum MatterKind {
    Copyright,
    Dedication,
    Epigraph,
    Foreword,
    Afterword,
    Acknowledgments,
    AboutTheAuthor,
}

/// How a page of front or back matter is laid out.
#[derive(Debug, Clone, Copy, PartialEq, Eq)]
pub enum MatterStyle {
    /// Small print, e.g. the copyright page.
    Small,
    /// Centered and set lower on the page, e.g. a dedication.
    Centered,
    /// A heading over ordinary text.
    Headed(&'static str),
}

impl MatterKind {
    pub open spec fn id_text(self) -> Seq<char> {
        match self {
            MatterKind::Copyright => "copyright"@,
            MatterKind::Dedication => "dedication"@,
            MatterKind::Epigraph => "epigraph"@,
            MatterKind::Foreword => "foreword"@,
            MatterKind::Afterword => "afterword"@,
            MatterKind::Acknowledgments => "acknowledgments"@,
            MatterKind::AboutTheAuthor => "about-the-author"@,
        }
    }

    pub fn id(self) -> (s: &'static str)
        ensures
            s@ == self.id_text(),
    {
        match self {
            MatterKind::Copyright => "copyright",
            MatterKind::Dedication => "dedication",
            MatterKind::Epigraph => "epigraph",
            MatterKind::Foreword => "foreword",
            MatterKind::Afterword => "afterword",
            MatterKind::Acknowledgments => "acknowledgments",
            MatterKind::AboutTheAuthor => "about-the-author",
        }
    }

    /// The page heading of a headed kind.
    pub open spec fn heading_text(self) -> Option<Seq<char>> {
        match self {
            MatterKind::Foreword => Some("Foreword"@),
            MatterKind::Afterword => Some("Afterword"@),
            MatterKind::Acknowledgments => Some("Acknowledgments"@),
            MatterKind::AboutTheAuthor => Some("About the Author"@),
            _ => None,
        }
    }

    /// How a page of this kind is laid out.
    pub open spec fn style_spec(self) -> MatterStyle {
        match self {
            MatterKind::Copyright => MatterStyle::Small,
            MatterKind::Dedication | MatterKind::Epigraph => MatterStyle::Centered,
            MatterKind::Foreword => MatterStyle::Headed("Foreword"),
            MatterKind::Afterword => MatterStyle::Headed("Afterword"),
            MatterKind::Acknowledgments => MatterStyle::Headed("Acknowledgments"),
            MatterKind::AboutTheAuthor => MatterStyle::Headed("About the Author"),
        }
    }

    pub fn style(self) -> (s: MatterStyle)
        ensures
            s == self.style_spec(),
            self == MatterKind::Copyright ==> s == MatterStyle::Small,
            (self == MatterKind::Dedication || self == MatterKind::Epigraph) ==> s == MatterStyle::Centered,
            match self.heading_text() {
                Some(h) => s matches MatterStyle::Headed(t) && t@ == h,
                None => !(s is Headed),
            },
    {
        match self {
            MatterKind::Copyright => MatterStyle::Small,
            MatterKind::Dedication | MatterKind::Epigraph => MatterStyle::Centered,
            MatterKind::Foreword => MatterStyle::Headed("Foreword"),
            MatterKind::Afterword => MatterStyle::Headed("Afterword"),
            MatterKind::Acknowledgments => MatterStyle::Headed("Acknowledgments"),
            MatterKind::AboutTheAuthor => MatterStyle::Headed("About the Author"),
        }
    }
}

/// One page of front or back matter: Markdown typed in the export dialog, or
/// a writing (`name`, content-relative) whose text is used instead.
#[derive(Debug, Clone)]
pub struct MatterItem {
    pub kind: MatterKind,
    pub text: String,
    pub name: Option<String>,
}

/// A character that may start a metadata key.
pub open spec fn is_key_start(c: char) -> bool {
    is_ascii_alpha(c) || c == '_'
}

/// A character a metadata key may hold.
pub open spec fn is_key_char(c: char) -> bool {
    is_ascii_alpha(c) || ('0' <= c && c <= '9') || c == '_' || c == '-'
}

/// A `key: value` line: a non-empty key of letters, digits, `_` and `-`,
/// starting with a letter or `_`, before the first `:`.
pub open spec fn is_key(line: Seq<char>) -> bool {
    let k = first_of(line, ':');
    &&& 0 < k < line.len()
    &&& is_key_start(line[0])
    &&& forall|j: int| 0 <= j < k ==> is_key_char(#[trigger] line[j])
}

/// Index just past the line break that ends the line starting at `i`, or the
/// end of `s`.
pub open spec fn line_end(s: Seq<char>, i: int) -> int {
    let k = i + first_of(s.skip(i), '\n');
    if k < s.len() { k + 1 } else { s.len() as int }
}

/// `s` without its trailing `\r` and `\n` characters.
pub open spec fn strip_breaks_tail(s: Seq<char>) -> Seq<char>
    decreases s.len(),
{
    if s.len() > 0 && (s.last() == '\r' || s.last() == '\n') { strip_breaks_tail(s.drop_last()) } else { s }
}

/// `s` without its leading `\r` and `\n` characters.
pub open spec fn strip_breaks_lead(s: Seq<char>) -> Seq<char>
    decreases s.len(),
{
    if s.len() > 0 && (s[0] == '\r' || s[0] == '\n') { strip_breaks_lead(s.drop_first()) } else { s }
}

/// A line that reads like YAML: empty, `key: value`, indented, a comment or
/// a list item.
pub open spec fn yaml_like(c: Seq<char>) -> bool {
    ||| c.len() == 0
    ||| is_key(c)
    ||| c.len() > 0 && (c[0] == ' ' || c[0] == '\t' || c[0] == '#')
    ||| starts_with(c, seq!['-', ' '])
}

/// Length of the opening `---` line of a metadata block, or 0.
pub open spec fn fm_prefix(m: Seq<char>) -> int {
    if starts_with(m, seq!['-', '-', '-', '\n']) {
        4
    } else if starts_with(m, seq!['-', '-', '-', '\r', '\n']) {
        5
    } else {
        0
    }
}

/// The first line from `b`, as `str::lines` gives it.
pub open spec fn first_line_at(m: Seq<char>, b: int) -> Seq<char> {
    let k = b + first_of(m.skip(b), '\n');
    if k < m.len() {
        let l = m.subrange(b, k);
        if l.len() > 0 && l.last() == '\r' { l.drop_last() } else { l }
    } else {
        m.skip(b)
    }
}

/// Where the text after a metadata block starts, reading its lines from `i`:
/// just past a `---` line, or `None` if a line does not read like YAML or no
/// such line comes.
pub open spec fn fm_scan(m: Seq<char>, i: int) -> Option<int>
    decreases m.len() - i,
{
    if i < 0 || i >= m.len() {
        None
    } else {
        let e = line_end(m, i);
        if e <= i || e > m.len() {
            None
        } else {
            let content = strip_breaks_tail(m.subrange(i, e));
            if trim_end(content) == seq!['-', '-', '-'] {
                Some(e)
            } else if yaml_like(content) {
                fm_scan(m, e)
            } else {
                None
            }
        }
    }
}

/// A writing without its scene metadata block: a `---` line, lines that read
/// like YAML starting with a `key: value` line, and a closing `---` line,
/// with the line breaks right after it. Anything else is left as it is.
pub open spec fn without_front_matter(m: Seq<char>) -> Seq<char> {
    let b = fm_prefix(m);
    if b == 0 || !is_key(first_line_at(m, b)) {
        m
    } else {
        match fm_scan(m, b) {
            Some(o) => strip_breaks_lead(m.skip(o)),
            None => m,
        }
    }
}

/// Whether `v[a..c]` is a `key: value` line.
fn key_line(v: &Vec<char>, a: usize, c: usize) -> (r: bool)
    requires
        a <= c <= v.len(),
    ensures
        r == is_key(v@.subrange(a as int, c as int)),
{
    let ghost line = v@.subrange(a as int, c as int);
    let k = find_char(v, a, ':');
    proof {
        if k < c {
            assert forall|j: int| 0 <= j < k - a implies line[j] != ':' by {
                assert(line[j] == v@[a + j]);
            }
            assert(line[k - a] == v@[k as int]);
            lemma_first_of(line, ':', k - a);
        } else {
            assert forall|j: int| 0 <= j < line.len() implies line[j] != ':' by {
                assert(line[j] == v@[a + j]);
            }
            lemma_first_of(line, ':', line.len() as int);
        }
    }
    if k >= c || k == a {
        return false;
    }
    let c0 = v[a];
    assert(line[0] == c0);
    if !(('a' <= c0 && c0 <= 'z') || ('A' <= c0 && c0 <= 'Z') || c0 == '_') {
        return false;
    }
    let mut j = a;
    while j < k
        invariant
            a <= j <= k < c <= v.len(),
            line == v@.subrange(a as int, c as int),
            first_of(line, ':') == k - a,
            is_key_start(line[0]),
            forall|m: int| 0 <= m < j - a ==> is_key_char(#[trigger] line[m]),
        decreases k - j,
    {
        let d = v[j];
        assert(line[j - a] == d);
        if !(('a' <= d && d <= 'z') || ('A' <= d && d <= 'Z') || ('0' <= d && d <= '9') || d == '_' || d == '-') {
            assert(!is_key_char(line[j - a]));
            return false;
        }
        j += 1;
    }
    true
}

/// End of the line starting at `i`.
fn next_line_end(v: &Vec<char>, i: usize) -> (e: usize)
    requires
        i <= v.len(),
    ensures
        e == line_end(v@, i as int),
        i <= e <= v.len(),
        i < v.len() ==> i < e,
{
    let k = find_char(v, i, '\n');
    if k < v.len() { k + 1 } else { v.len() }
}

/// Drops the scene metadata block (synopsis, status…) that the app keeps at
/// the top of a writing. Same rule as the editor: a `---` block whose first
/// line is `key: value`.
pub fn strip_front_matter(markdown: &str) -> (r: String)
    ensures
        r@ == without_front_matter(markdown@),
{
    let v = chars_of(markdown);
    let b: usize = if v.len() >= 4 && v[0] == '-' && v[1] == '-' && v[2] == '-' && v[3] == '\n' {
        4
    } else if v.len() >= 5 && v[0] == '-' && v[1] == '-' && v[2] == '-' && v[3] == '\r' && v[4] == '\n' {
        5
    } else {
        0
    };
    proof {
        if v.len() >= 4 {
            assert(v@.take(4) =~= seq![v@[0], v@[1], v@[2], v@[3]]);
        }
        if v.len() >= 5 {
            assert(v@.take(5) =~= seq![v@[0], v@[1], v@[2], v@[3], v@[4]]);
        }
    }
    assert(b == fm_prefix(markdown@));
    if b == 0 {
        return markdown.to_owned();
    }
    let k = find_char(&v, b, '\n');
    let first_ok = if k < v.len() {
        let end = if k > b && v[k - 1] == '\r' { k - 1 } else { k };
        proof {
            let l = v@.subrange(b as int, k as int);
            if k > b {
                assert(l.drop_last() =~= v@.subrange(b as int, k - 1));
                assert(l.last() == v@[k - 1]);
            }
            assert(first_line_at(markdown@, b as int) == v@.subrange(b as int, end as int));
        }
        key_line(&v, b, end)
    } else {
        assert(v@.skip(b as int) =~= v@.subrange(b as int, v@.len() as int));
        key_line(&v, b, v.len())
    };
    if !first_ok {
        return markdown.to_owned();
    }
    let mut i = b;
    while i < v.len()
        invariant
            b <= i <= v.len(),
            v@ == markdown@,
            fm_scan(markdown@, b as int) == fm_scan(markdown@, i as int),
            without_front_matter(markdown@) == match fm_scan(markdown@, b as int) {
                Some(o) => strip_breaks_lead(markdown@.skip(o)),
                None => markdown@,
            },
        decreases v.len() - i,
    {
        let e = next_line_end(&v, i);
        let mut c = e;
        while c > i && (v[c - 1] == '\r' || v[c - 1] == '\n')
            invariant
                i <= c <= e <= v.len(),
                strip_breaks_tail(v@.subrange(i as int, e as int)) == strip_breaks_tail(
                    v@.subrange(i as int, c as int),
                ),
            decreases c - i,
        {
            assert(v@.subrange(i as int, c as int).drop_last() =~= v@.subrange(i as int, c - 1));
            c -= 1;
        }
        let ghost content = v@.subrange(i as int, c as int);
        assert(strip_breaks_tail(content) == content);
        assert(strip_breaks_tail(v@.subrange(i as int, e as int)) == content);
        let hi = skip_ws_back(&v, i, c);
        let closes = hi - i == 3 && v[i] == '-' && v[i + 1] == '-' && v[i + 2] == '-';
        proof {
            let dashes = seq!['-', '-', '-'];
            if hi - i == 3 {
                assert(v@.subrange(i as int, hi as int) =~= seq![v@[i as int], v@[i + 1], v@[i + 2]]);
                if closes {
                    assert(v@.subrange(i as int, hi as int) =~= dashes);
                }
            }
            if v@.subrange(i as int, hi as int) == dashes {
                assert(v@.subrange(i as int, hi as int).len() == 3);
                assert(v@.subrange(i as int, hi as int)[0] == v@[i as int]);
                assert(v@.subrange(i as int, hi as int)[1] == v@[i + 1]);
                assert(v@.subrange(i as int, hi as int)[2] == v@[i + 2]);
            }
        }
        if closes {
            assert(fm_scan(markdown@, i as int) == Some(e as int));
            let mut s = e;
            while s < v.len() && (v[s] == '\r' || v[s] == '\n')
                invariant
                    e <= s <= v.len(),
                    strip_breaks_lead(v@.skip(e as int)) == strip_breaks_lead(v@.skip(s as int)),
                decreases v.len() - s,
            {
                assert(v@.skip(s as int).drop_first() =~= v@.skip(s + 1));
                s += 1;
            }
            assert(v@.skip(s as int) =~= v@.subrange(s as int, v@.len() as int));
            return string_of(&v, s, v.len());
        }
        let starts_dash = c - i >= 2 && v[i] == '-' && v[i + 1] == ' ';
        proof {
            if c - i >= 2 {
                assert(content.take(2) =~= seq![v@[i as int], v@[i + 1]]);
            }
        }
        let yaml = c == i || key_line(&v, i, c) || v[i] == ' ' || v[i] == '\t' || v[i] == '#' || starts_dash;
        proof {
            assert(trim_end(content) == v@.subrange(i as int, hi as int));
            if c > i {
                assert(content[0] == v@[i as int]);
            }
            assert(closes == (trim_end(content) == seq!['-', '-', '-']));
            assert(yaml == yaml_like(content));
        }
        if !yaml {
            assert(fm_scan(markdown@, i as int) is None);
            return markdown.to_owned();
        }
        assert(fm_scan(markdown@, i as int) == fm_scan(markdown@, e as int));
        i = e;
    }
    markdown.to_owned()
}


/// Bytes `c` takes in UTF-8.
pub open spec fn utf8_width(c: char) -> int {
    if c <= '\u{7f}' {
        1
    } else if c <= '\u{7ff}' {
        2
    } else if c <= '\u{ffff}' {
        3
    } else {
        4
    }
}

/// Bytes `s` takes in UTF-8.
pub open spec fn byte_len(s: Seq<char>) -> int
    decreases s.len(),
{
    if s.len() == 0 { 0 } else { byte_len(s.drop_last()) + utf8_width(s.last()) }
}

pub proof fn lemma_byte_len_concat(a: Seq<char>, b: Seq<char>)
    ensures
        byte_len(a + b) == byte_len(a) + byte_len(b),
    decreases b.len(),
{
    if b.len() > 0 {
        assert((a + b).drop_last() =~= a + b.drop_last());
        lemma_byte_len_concat(a, b.drop_last());
    } else {
        assert(a + b =~= a);
    }
}

/// How many `#` characters `s` starts with.
pub open spec fn hash_run(s: Seq<char>) -> int
    decreases s.len(),
{
    if s.len() > 0 && s[0] == '#' { 1 + hash_run(s.drop_first()) } else { 0 }
}

proof fn lemma_hash_run(s: Seq<char>, i: int)
    requires
        0 <= i <= s.len(),
        forall|j: int| 0 <= j < i ==> s[j] == '#',
        i == s.len() || s[i] != '#',
    ensures
        hash_run(s) == i,
    decreases i,
{
    if i > 0 {
        assert forall|j: int| 0 <= j < i - 1 implies s.drop_first()[j] == '#' by {
            assert(s.drop_first()[j] == s[j + 1]);
        }
        lemma_hash_run(s.drop_first(), i - 1);
    }
}

/// `n` hash characters.
pub open spec fn hashes(n: int) -> Seq<char> {
    Seq::new(n as nat, |_i: int| '#')
}

/// The fence state after a line: 0 outside a fenced block, 1 inside a
/// backtick fence, 2 inside a tilde fence. A marker of the open kind closes
/// it; the other kind inside is text.
pub open spec fn fence_after(t: Seq<char>, indent: int, fence: int) -> int {
    if indent <= 3 && starts_with(t, seq!['`', '`', '`']) {
        if fence == 1 { 0 } else if fence == 0 { 1 } else { fence }
    } else if indent <= 3 && starts_with(t, seq!['~', '~', '~']) {
        if fence == 2 { 0 } else if fence == 0 { 2 } else { fence }
    } else {
        fence
    }
}

/// The lines of `m` from `i` with ATX headings outside fenced code pushed
/// down by `by` levels, capped at 6.
pub open spec fn demote_from(m: Seq<char>, i: int, by: int, fence: int) -> Seq<char>
    decreases m.len() - i,
{
    if i < 0 || i >= m.len() {
        Seq::empty()
    } else {
        let e = line_end(m, i);
        if e <= i || e > m.len() {
            Seq::empty()
        } else {
            let line = m.subrange(i, e);
            let t = crate::text::trim_start(line);
            let indent = byte_len(line) - byte_len(t);
            let f = fence_after(t, indent, fence);
            let h = hash_run(t);
            let heading = f == 0 && indent <= 3 && 1 <= h <= 6 && t.len() > h && (t[h] == ' '
                || t[h] == '\t' || t[h] == '\n' || t[h] == '\r');
            let level = if h + by < 6 { h + by } else { 6 };
            (if heading { hashes(level) + t.skip(h) } else { line }) + demote_from(m, e, by, f)
        }
    }
}

/// Markdown with its ATX headings (`# ...`) pushed down by `by` levels.
pub open spec fn demoted(m: Seq<char>, by: int) -> Seq<char> {
    if by == 0 { m } else { demote_from(m, 0, by, 0) }
}

pub(crate) fn width_of(c: char) -> (w: usize)
    ensures
        w == utf8_width(c),
{
    if c <= '\u{7f}' {
        1
    } else if c <= '\u{7ff}' {
        2
    } else if c <= '\u{ffff}' {
        3
    } else {
        4
    }
}

/// Pushes ATX headings (`# ...`) down by `by` levels, capped at 6, leaving
/// fenced code blocks alone.
pub fn demote_headings(markdown: &str, by: usize) -> (r: String)
    ensures
        r@ == demoted(markdown@, by as int),
{
    if by == 0 {
        return markdown.to_owned();
    }
    let v = chars_of(markdown);
    let mut out = String::new();
    let mut fence: u8 = 0;
    let mut i: usize = 0;
    while i < v.len()
        invariant
            i <= v.len(),
            v@ == markdown@,
            by > 0,
            fence <= 2,
            out@ + demote_from(v@, i as int, by as int, fence as int) == demote_from(v@, 0, by as int, 0),
        decreases v.len() - i,
    {
        let e = next_line_end(&v, i);
        let ghost line = v@.subrange(i as int, e as int);
        let lo = crate::text::skip_ws(&v, i, e);
        let ghost t = v@.subrange(lo as int, e as int);
        let mut ind: usize = 0;
        let mut j = i;
        while j < lo
            invariant
                i <= j <= lo <= e <= v.len(),
                ind <= 7,
                ind <= 3 ==> ind == byte_len(v@.subrange(i as int, j as int)),
                ind > 3 ==> byte_len(v@.subrange(i as int, j as int)) > 3,
            decreases lo - j,
        {
            assert(v@.subrange(i as int, j + 1).drop_last() =~= v@.subrange(i as int, j as int));
            if ind <= 3 {
                ind = ind + width_of(v[j]);
            }
            j += 1;
        }
        proof {
            assert(line =~= v@.subrange(i as int, lo as int) + t);
            lemma_byte_len_concat(v@.subrange(i as int, lo as int), t);
        }
        let n = e - lo;
        let backticks = ind <= 3 && n >= 3 && v[lo] == '`' && v[lo + 1] == '`' && v[lo + 2] == '`';
        let tildes = ind <= 3 && n >= 3 && v[lo] == '~' && v[lo + 1] == '~' && v[lo + 2] == '~';
        proof {
            if n >= 3 {
                assert(t.take(3) =~= seq![v@[lo as int], v@[lo + 1], v@[lo + 2]]);
            }
        }
        let ghost old_fence = fence as int;
        if backticks {
            fence = if fence == 1 { 0 } else if fence == 0 { 1 } else { fence };
        } else if tildes {
            fence = if fence == 2 { 0 } else if fence == 0 { 2 } else { fence };
        }
        assert(fence as int == fence_after(t, byte_len(line) - byte_len(t), old_fence));
        let mut h = lo;
        while h < e && v[h] == '#'
            invariant
                lo <= h <= e <= v.len(),
                forall|m: int| lo <= m < h ==> v@[m] == '#',
            decreases e - h,
        {
            h += 1;
        }
        proof {
            assert forall|m: int| 0 <= m < h - lo implies t[m] == '#' by {
                assert(t[m] == v@[lo + m]);
            }
            lemma_hash_run(t, h - lo);
        }
        let hn = h - lo;
        let heading = fence == 0 && ind <= 3 && 1 <= hn && hn <= 6 && h < e && (v[h] == ' ' || v[h]
            == '\t' || v[h] == '\n' || v[h] == '\r');
        proof {
            if h < e {
                assert(t[h - lo] == v@[h as int]);
            }
        }
        let ghost before = out@;
        if heading {
            let level = if by >= 6 || hn + by >= 6 { 6 } else { hn + by };
            let mut k: usize = 0;
            while k < level
                invariant
                    k <= level,
                    out@ == before + hashes(k as int),
                decreases level - k,
            {
                out.push('#');
                assert(hashes(k + 1) =~= hashes(k as int).push('#'));
                k += 1;
            }
            push_range(&mut out, &v, h, e);
            assert(t.skip(hn as int) =~= v@.subrange(h as int, e as int));
        } else {
            push_range(&mut out, &v, i, e);
        }
        assert(out@ + demote_from(v@, e as int, by as int, fence as int) =~= before + demote_from(
            v@,
            i as int,
            by as int,
            old_fence,
        ));
        i = e;
    }
    assert(out@ =~= demoted(markdown@, by as int));
    out
}


/// A character Markdown could read as syntax in a heading or title.
pub open spec fn is_markdown_special(c: char) -> bool {
    c == '\\' || c == '*' || c == '_' || c == '[' || c == ']' || c == '<' || c == '>' || c == '#'
        || c == '`' || c == '~' || c == '|'
}

/// `s` with a backslash before each Markdown special character.
pub open spec fn md_escaped(s: Seq<char>) -> Seq<char>
    decreases s.len(),
{
    if s.len() == 0 {
        s
    } else if is_markdown_special(s.last()) {
        md_escaped(s.drop_last()) + seq!['\\', s.last()]
    } else {
        md_escaped(s.drop_last()).push(s.last())
    }
}

/// Folder names and titles are plain text; keep Markdown from reading them as syntax.
pub fn escape_inline_markdown(text: &str) -> (r: String)
    ensures
        r@ == md_escaped(text@),
{
    let v = chars_of(text);
    let mut out = String::new();
    let mut i: usize = 0;
    while i < v.len()
        invariant
            i <= v.len(),
            out@ == md_escaped(v@.take(i as int)),
        decreases v.len() - i,
    {
        assert(v@.take(i + 1).drop_last() =~= v@.take(i as int));
        let c = v[i];
        if c == '\\' || c == '*' || c == '_' || c == '[' || c == ']' || c == '<' || c == '>' || c == '#'
            || c == '`' || c == '~' || c == '|' {
            out.push('\\');
        }
        out.push(c);
        assert(out@ =~= md_escaped(v@.take(i + 1)));
        i += 1;
    }
    assert(v@.take(v@.len() as int) =~= v@);
    out
}

/// `s` with `&`, `<`, `>` and `"` written as HTML entities.
pub open spec fn html_escaped(s: Seq<char>) -> Seq<char>
    decreases s.len(),
{
    if s.len() == 0 {
        s
    } else {
        let c = s.last();
        html_escaped(s.drop_last()) + if c == '&' {
            "&amp;"@
        } else if c == '<' {
            "&lt;"@
        } else if c == '>' {
            "&gt;"@
        } else if c == '"' {
            "&quot;"@
        } else {
            seq![c]
        }
    }
}

pub fn html_escape(text: &str) -> (r: String)
    ensures
        r@ == html_escaped(text@),
{
    let v = chars_of(text);
    let mut out = String::new();
    let mut i: usize = 0;
    while i < v.len()
        invariant
            i <= v.len(),
            out@ == html_escaped(v@.take(i as int)),
        decreases v.len() - i,
    {
        assert(v@.take(i + 1).drop_last() =~= v@.take(i as int));
        let c = v[i];
        if c == '&' {
            push_str(&mut out, "&amp;");
        } else if c == '<' {
            push_str(&mut out, "&lt;");
        } else if c == '>' {
            push_str(&mut out, "&gt;");
        } else if c == '"' {
            push_str(&mut out, "&quot;");
        } else {
            out.push(c);
        }
        assert(out@ =~= html_escaped(v@.take(i + 1)));
        i += 1;
    }
    assert(v@.take(v@.len() as int) =~= v@);
    out
}

/// A scene separator as a literal, centred paragraph.
pub open spec fn separator_html(separator: Seq<char>) -> Seq<char> {
    "<p class=\"separator\">"@ + html_escaped(trim(separator)) + "</p>"@
}

/// "* * *" on its own line is a thematic break in Markdown; keep it literal and centred.
pub fn escape_separator(separator: &str) -> (r: String)
    ensures
        r@ == separator_html(separator@),
{
    let t = trimmed(separator);
    let mut out = String::new();
    push_str(&mut out, "<p class=\"separator\">");
    let e = html_escape(t.as_str());
    push_str(&mut out, e.as_str());
    push_str(&mut out, "</p>");
    out
}

pub open spec fn ones_word(n: int) -> Seq<char> {
    if n == 0 {
        "Zero"@
    } else if n == 1 {
        "One"@
    } else if n == 2 {
        "Two"@
    } else if n == 3 {
        "Three"@
    } else if n == 4 {
        "Four"@
    } else if n == 5 {
        "Five"@
    } else if n == 6 {
        "Six"@
    } else if n == 7 {
        "Seven"@
    } else if n == 8 {
        "Eight"@
    } else if n == 9 {
        "Nine"@
    } else if n == 10 {
        "Ten"@
    } else if n == 11 {
        "Eleven"@
    } else if n == 12 {
        "Twelve"@
    } else if n == 13 {
        "Thirteen"@
    } else if n == 14 {
        "Fourteen"@
    } else if n == 15 {
        "Fifteen"@
    } else if n == 16 {
        "Sixteen"@
    } else if n == 17 {
        "Seventeen"@
    } else if n == 18 {
        "Eighteen"@
    } else if n == 19 {
        "Nineteen"@
    } else {
        Seq::empty()
    }
}

fn ones_text(n: usize) -> (s: &'static str)
    requires
        n < 20,
    ensures
        s@ == ones_word(n as int),
{
    match n {
        0 => "Zero",
        1 => "One",
        2 => "Two",
        3 => "Three",
        4 => "Four",
        5 => "Five",
        6 => "Six",
        7 => "Seven",
        8 => "Eight",
        9 => "Nine",
        10 => "Ten",
        11 => "Eleven",
        12 => "Twelve",
        13 => "Thirteen",
        14 => "Fourteen",
        15 => "Fifteen",
        16 => "Sixteen",
        17 => "Seventeen",
        18 => "Eighteen",
        19 => "Nineteen",
        _ => "",
    }
}

pub open spec fn tens_word(n: int) -> Seq<char> {
    if n == 2 {
        "Twenty"@
    } else if n == 3 {
        "Thirty"@
    } else if n == 4 {
        "Forty"@
    } else if n == 5 {
        "Fifty"@
    } else if n == 6 {
        "Sixty"@
    } else if n == 7 {
        "Seventy"@
    } else if n == 8 {
        "Eighty"@
    } else if n == 9 {
        "Ninety"@
    } else {
        Seq::empty()
    }
}

fn tens_text(n: usize) -> (s: &'static str)
    requires
        2 <= n < 10,
    ensures
        s@ == tens_word(n as int),
{
    match n {
        2 => "Twenty",
        3 => "Thirty",
        4 => "Forty",
        5 => "Fifty",
        6 => "Sixty",
        7 => "Seventy",
        8 => "Eighty",
        9 => "Ninety",
        _ => "",
    }
}

/// "One" to "Ninety-Nine", then digits.
pub open spec fn number_words(n: nat) -> Seq<char> {
    if n <= 19 {
        ones_word(n as int)
    } else if n <= 99 {
        if n % 10 == 0 {
            tens_word(n as int / 10)
        } else {
            tens_word(n as int / 10) + seq!['-'] + ones_word(n as int % 10)
        }
    } else {
        decimal(n)
    }
}

pub fn number_word(n: usize) -> (r: String)
    ensures
        r@ == number_words(n as nat),
{
    if n <= 19 {
        ones_text(n).to_owned()
    } else if n <= 99 {
        let mut out = String::new();
        push_str(&mut out, tens_text(n / 10));
        if n % 10 != 0 {
            out.push('-');
            push_str(&mut out, ones_text(n % 10));
        }
        out
    } else {
        decimal_string(n as u64)
    }
}

/// Roman numerals for `n`, largest first.
pub open spec fn roman_digits(n: nat) -> Seq<char>
    decreases n,
{
    if n >= 1000 {
        "M"@ + roman_digits((n - 1000) as nat)
    } else
    if n >= 900 {
        "CM"@ + roman_digits((n - 900) as nat)
    } else
    if n >= 500 {
        "D"@ + roman_digits((n - 500) as nat)
    } else
    if n >= 400 {
        "CD"@ + roman_digits((n - 400) as nat)
    } else
    if n >= 100 {
        "C"@ + roman_digits((n - 100) as nat)
    } else
    if n >= 90 {
        "XC"@ + roman_digits((n - 90) as nat)
    } else
    if n >= 50 {
        "L"@ + roman_digits((n - 50) as nat)
    } else
    if n >= 40 {
        "XL"@ + roman_digits((n - 40) as nat)
    } else
    if n >= 10 {
        "X"@ + roman_digits((n - 10) as nat)
    } else
    if n >= 9 {
        "IX"@ + roman_digits((n - 9) as nat)
    } else
    if n >= 5 {
        "V"@ + roman_digits((n - 5) as nat)
    } else
    if n >= 4 {
        "IV"@ + roman_digits((n - 4) as nat)
    } else
    if n >= 1 {
        "I"@ + roman_digits((n - 1) as nat)
    } else {
        Seq::empty()
    }
}

/// Roman numerals up to 3999, then digits.
pub open spec fn roman_text(n: nat) -> Seq<char> {
    if n == 0 || n > 3999 { decimal(n) } else { roman_digits(n) }
}

/// One decimal digit `d` of a number in Roman numerals, written with the
/// numerals `one`, `five` and `ten` of its place: I, V, X for units; X, L, C
/// for tens; C, D, M for hundreds.
pub open spec fn roman_place(d: nat, one: Seq<char>, five: Seq<char>, ten: Seq<char>) -> Seq<char> {
    if d == 0 {
        Seq::empty()
    } else if d == 1 {
        one
    } else if d == 2 {
        one + one
    } else if d == 3 {
        one + one + one
    } else if d == 4 {
        one + five
    } else if d == 5 {
        five
    } else if d == 6 {
        five + one
    } else if d == 7 {
        five + one + one
    } else if d == 8 {
        five + one + one + one
    } else {
        one + ten
    }
}

/// The standard Roman numeral of `n` below 4000, digit by decimal digit:
/// thousands as Ms, then hundreds, tens and units, each from its place's
/// numerals.
pub open spec fn roman_standard(n: nat) -> Seq<char> {
    roman_place(n / 1000, "M"@, Seq::empty(), Seq::empty()) + roman_place((n % 1000) / 100, "C"@, "D"@, "M"@)
        + roman_place((n % 100) / 10, "X"@, "L"@, "C"@) + roman_place(n % 10, "I"@, "V"@, "X"@)
}

proof fn lemma_roman_literals()
    ensures
        "CM"@ == "C"@ + "M"@,
        "CD"@ == "C"@ + "D"@,
        "XC"@ == "X"@ + "C"@,
        "XL"@ == "X"@ + "L"@,
        "IX"@ == "I"@ + "X"@,
        "IV"@ == "I"@ + "V"@,
{
    reveal_strlit("CM");
    reveal_strlit("CD");
    reveal_strlit("XC");
    reveal_strlit("XL");
    reveal_strlit("IX");
    reveal_strlit("IV");
    reveal_strlit("C");
    reveal_strlit("M");
    reveal_strlit("D");
    reveal_strlit("X");
    reveal_strlit("L");
    reveal_strlit("I");
    reveal_strlit("V");
    assert("CM"@ =~= "C"@ + "M"@);
    assert("CD"@ =~= "C"@ + "D"@);
    assert("XC"@ =~= "X"@ + "C"@);
    assert("XL"@ =~= "X"@ + "L"@);
    assert("IX"@ =~= "I"@ + "X"@);
    assert("IV"@ =~= "I"@ + "V"@);
}

/// Pushing one more numeral in front of a place written from `d`.
proof fn lemma_place_front(d: nat, one: Seq<char>, five: Seq<char>, ten: Seq<char>)
    ensures
        1 <= d <= 3 ==> roman_place(d, one, five, ten) == one + roman_place((d - 1) as nat, one, five, ten),
        6 <= d <= 8 ==> roman_place(d, one, five, ten) == five + roman_place((d - 5) as nat, one, five, ten),
{
    if d == 1 {
        assert(one + Seq::<char>::empty() =~= one);
    } else if d == 2 || d == 3 {
        assert(one + one + one =~= one + (one + one));
    } else if d == 6 {
    } else if d == 7 {
        assert(five + one + one =~= five + (one + one));
    } else if d == 8 {
        assert(five + one + one + one =~= five + (one + one + one));
    }
}

proof fn lemma_roman_units(n: nat)
    requires
        n < 10,
    ensures
        roman_digits(n) == roman_place(n, "I"@, "V"@, "X"@),
    decreases n,
{
    lemma_roman_literals();
    lemma_place_front(n, "I"@, "V"@, "X"@);
    let e = Seq::<char>::empty();
    if n == 0 {
    } else if n <= 3 {
        lemma_roman_units((n - 1) as nat);
    } else if n == 4 {
        assert(roman_digits(0) == e);
        assert("IV"@ + e =~= "IV"@);
    } else if n == 5 {
        assert(roman_digits(0) == e);
        assert("V"@ + e =~= "V"@);
    } else if n <= 8 {
        lemma_roman_units((n - 5) as nat);
    } else {
        assert(roman_digits(0) == e);
        assert("IX"@ + e =~= "IX"@);
    }
}

proof fn lemma_roman_tens(n: nat)
    requires
        n < 100,
    ensures
        roman_digits(n) == roman_place(n / 10, "X"@, "L"@, "C"@) + roman_digits(n % 10),
    decreases n,
{
    lemma_roman_literals();
    let t = n / 10;
    let rest = roman_digits(n % 10);
    lemma_place_front(t, "X"@, "L"@, "C"@);
    if n < 10 {
        assert(Seq::<char>::empty() + rest =~= rest);
    } else if n < 40 {
        lemma_roman_tens((n - 10) as nat);
        assert(((n - 10) as nat) / 10 == t - 1 && ((n - 10) as nat) % 10 == n % 10);
        assert("X"@ + (roman_place((t - 1) as nat, "X"@, "L"@, "C"@) + rest) =~= ("X"@ + roman_place(
            (t - 1) as nat,
            "X"@,
            "L"@,
            "C"@,
        )) + rest);
    } else if n < 50 {
        assert(((n - 40) as nat) == n % 10);
    } else if n < 90 {
        lemma_roman_tens((n - 50) as nat);
        assert(((n - 50) as nat) / 10 == t - 5 && ((n - 50) as nat) % 10 == n % 10);
        if t == 5 {
            assert("L"@ + (Seq::<char>::empty() + rest) =~= "L"@ + rest);
        } else {
            assert("L"@ + (roman_place((t - 5) as nat, "X"@, "L"@, "C"@) + rest) =~= ("L"@ + roman_place(
                (t - 5) as nat,
                "X"@,
                "L"@,
                "C"@,
            )) + rest);
        }
    } else {
        assert(((n - 90) as nat) == n % 10);
    }
}

proof fn lemma_roman_hundreds(n: nat)
    requires
        n < 1000,
    ensures
        roman_digits(n) == roman_place(n / 100, "C"@, "D"@, "M"@) + roman_digits(n % 100),
    decreases n,
{
    lemma_roman_literals();
    let t = n / 100;
    let rest = roman_digits(n % 100);
    lemma_place_front(t, "C"@, "D"@, "M"@);
    if n < 100 {
        assert(Seq::<char>::empty() + rest =~= rest);
    } else if n < 400 {
        lemma_roman_hundreds((n - 100) as nat);
        assert(((n - 100) as nat) / 100 == t - 1 && ((n - 100) as nat) % 100 == n % 100);
        assert("C"@ + (roman_place((t - 1) as nat, "C"@, "D"@, "M"@) + rest) =~= ("C"@ + roman_place(
            (t - 1) as nat,
            "C"@,
            "D"@,
            "M"@,
        )) + rest);
    } else if n < 500 {
        assert(((n - 400) as nat) == n % 100);
    } else if n < 900 {
        lemma_roman_hundreds((n - 500) as nat);
        assert(((n - 500) as nat) / 100 == t - 5 && ((n - 500) as nat) % 100 == n % 100);
        if t == 5 {
            assert("D"@ + (Seq::<char>::empty() + rest) =~= "D"@ + rest);
        } else {
            assert("D"@ + (roman_place((t - 5) as nat, "C"@, "D"@, "M"@) + rest) =~= ("D"@ + roman_place(
                (t - 5) as nat,
                "C"@,
                "D"@,
                "M"@,
            )) + rest);
        }
    } else {
        assert(((n - 900) as nat) == n % 100);
    }
}

proof fn lemma_roman_thousands(n: nat)
    requires
        n < 4000,
    ensures
        roman_digits(n) == roman_place(n / 1000, "M"@, Seq::empty(), Seq::empty()) + roman_digits(n % 1000),
    decreases n,
{
    let t = n / 1000;
    let rest = roman_digits(n % 1000);
    let e = Seq::<char>::empty();
    lemma_place_front(t, "M"@, e, e);
    if n < 1000 {
        assert(e + rest =~= rest);
    } else {
        lemma_roman_thousands((n - 1000) as nat);
        assert(((n - 1000) as nat) / 1000 == t - 1 && ((n - 1000) as nat) % 1000 == n % 1000);
        assert("M"@ + (roman_place((t - 1) as nat, "M"@, e, e) + rest) =~= ("M"@ + roman_place(
            (t - 1) as nat,
            "M"@,
            e,
            e,
        )) + rest);
    }
}

/// Numbers from 1 to 3999 come out as their standard Roman numerals, one
/// decimal digit at a time: 5 as V, 8 as VIII, 1994 as MCMXCIV. So a smaller
/// numeral stands before a larger one only in the pairs IV, IX, XL, XC, CD
/// and CM, once per place.
pub proof fn law_roman_is_standard(n: nat)
    requires
        1 <= n <= 3999,
    ensures
        roman_text(n) == roman_standard(n),
{
    lemma_roman_thousands(n);
    let a = n % 1000;
    lemma_roman_hundreds(a);
    let b = a % 100;
    lemma_roman_tens(b);
    lemma_roman_units(b % 10);
    assert(a / 100 == (n % 1000) / 100);
    assert(b == n % 100) by (nonlinear_arith)
        requires
            a == n % 1000,
            b == a % 100,
    ;
    assert(b % 10 == n % 10) by (nonlinear_arith)
        requires
            b == n % 100,
    ;
    let p1 = roman_place(n / 1000, "M"@, Seq::empty(), Seq::empty());
    let p2 = roman_place(a / 100, "C"@, "D"@, "M"@);
    let p3 = roman_place(b / 10, "X"@, "L"@, "C"@);
    let p4 = roman_place(b % 10, "I"@, "V"@, "X"@);
    assert(p1 + (p2 + (p3 + p4)) =~= p1 + p2 + p3 + p4);
}

pub fn roman(n: usize) -> (r: String)
    ensures
        r@ == roman_text(n as nat),
{
    if n == 0 || n > 3999 {
        return decimal_string(n as u64);
    }
    let mut out = String::new();
    let mut n = n;
    let ghost start = n as nat;
    while n > 0
        invariant
            out@ + roman_digits(n as nat) == roman_digits(start),
        decreases n,
    {
        let ghost before = out@;
        let ghost m = n as nat;
        if n >= 1000 {
            push_str(&mut out, "M");
            n -= 1000;
        } else
        if n >= 900 {
            push_str(&mut out, "CM");
            n -= 900;
        } else
        if n >= 500 {
            push_str(&mut out, "D");
            n -= 500;
        } else
        if n >= 400 {
            push_str(&mut out, "CD");
            n -= 400;
        } else
        if n >= 100 {
            push_str(&mut out, "C");
            n -= 100;
        } else
        if n >= 90 {
            push_str(&mut out, "XC");
            n -= 90;
        } else
        if n >= 50 {
            push_str(&mut out, "L");
            n -= 50;
        } else
        if n >= 40 {
            push_str(&mut out, "XL");
            n -= 40;
        } else
        if n >= 10 {
            push_str(&mut out, "X");
            n -= 10;
        } else
        if n >= 9 {
            push_str(&mut out, "IX");
            n -= 9;
        } else
        if n >= 5 {
            push_str(&mut out, "V");
            n -= 5;
        } else
        if n >= 4 {
            push_str(&mut out, "IV");
            n -= 4;
        } else
        if n >= 1 {
            push_str(&mut out, "I");
            n -= 1;
        } else {
        }
        assert(out@ + roman_digits(n as nat) =~= before + roman_digits(m));
    }
    assert(out@ =~= roman_digits(start));
    out
}

/// A chapter heading from a template: `{n}`, `{word}`, `{roman}` and
/// `{title}` filled in, trimmed; `name` when that leaves nothing.
pub open spec fn chapter_heading_text(template: Seq<char>, n: nat, name: Seq<char>) -> Seq<char> {
    let h = trim(
        replace_all(
            replace_all(
                replace_all(replace_all(template, "{n}"@, decimal(n)), "{word}"@, number_words(n)),
                "{roman}"@,
                roman_text(n),
            ),
            "{title}"@,
            trim(name),
        ),
    );
    if h.len() == 0 { name } else { h }
}

/// Fills in a chapter heading template. Falls back to `name` if the result is blank.
pub fn chapter_heading(template: &str, n: usize, name: &str) -> (r: String)
    ensures
        r@ == chapter_heading_text(template@, n as nat, name@),
{
    proof {
        reveal_strlit("{n}");
        reveal_strlit("{word}");
        reveal_strlit("{roman}");
        reveal_strlit("{title}");
    }
    let digits = decimal_string(n as u64);
    let a = replace(template, "{n}", digits.as_str());
    let word = number_word(n);
    let b = replace(a.as_str(), "{word}", word.as_str());
    let r = roman(n);
    let c = replace(b.as_str(), "{roman}", r.as_str());
    let t = trimmed(name);
    let d = replace(c.as_str(), "{title}", t.as_str());
    let h = trimmed(d.as_str());
    if chars_of(h.as_str()).len() == 0 {
        name.to_owned()
    } else {
        h
    }
}


/// A document with its Markdown already loaded, in manuscript order.
#[derive(Debug, Clone)]
pub enum Part {
    Heading { level: u8, text: String },
    /// `label` is the file name without extension, for tables of contents
    /// when the writing's title isn't printed.
    Document { title: Option<String>, label: String, markdown: String, status: Option<String> },
}

/// The book title and author lines that open a Markdown compile.
pub open spec fn title_block(title: Seq<char>, author: Seq<char>) -> Seq<char> {
    if trim(title).len() == 0 {
        Seq::empty()
    } else {
        let by = if trim(author).len() == 0 {
            Seq::empty()
        } else {
            seq!['*'] + md_escaped(trim(author)) + "*\n\n"@
        };
        "# "@ + md_escaped(trim(title)) + "\n\n"@ + by
    }
}

/// A heading line at `level`.
pub open spec fn heading_line(level: int, text: Seq<char>) -> Seq<char> {
    hashes(level) + seq![' '] + text + "\n\n"@
}

pub open spec fn capped(level: int) -> int {
    if level < 6 { level } else { 6 }
}

/// The Markdown of `parts` from `i`: folder headings shifted by `shift`, each
/// writing after a separator when it follows another writing, under its own
/// title one level below the current heading when it has one, with its own
/// headings pushed below both.
pub open spec fn compiled_parts(
    sep: Seq<char>,
    parts: Seq<Part>,
    i: int,
    shift: int,
    level: int,
    prev_document: bool,
) -> Seq<char>
    decreases parts.len() - i,
{
    if i < 0 || i >= parts.len() {
        Seq::empty()
    } else {
        match parts[i] {
            Part::Heading { level: l, text } => {
                let lv = capped(l + shift);
                heading_line(lv, md_escaped(text@)) + compiled_parts(sep, parts, i + 1, shift, lv, false)
            },
            Part::Document { title, markdown, .. } => {
                let sep_part = if prev_document && trim(sep).len() > 0 {
                    separator_html(sep) + "\n\n"@
                } else {
                    Seq::empty()
                };
                let titled = title is Some && trim(title->0@).len() > 0;
                let inner = if titled { capped(level + 1) } else { level };
                let title_part = if titled {
                    heading_line(inner, md_escaped(trim(title->0@)))
                } else {
                    Seq::empty()
                };
                sep_part + title_part + trim(demoted(trim(markdown@), inner)) + "\n\n"@
                    + compiled_parts(sep, parts, i + 1, shift, level, true)
            },
        }
    }
}

/// Markdown for a whole compile.
pub open spec fn compiled(title: Seq<char>, author: Seq<char>, sep: Seq<char>, parts: Seq<Part>) -> Seq<char> {
    let shift = if trim(title).len() == 0 { 0 } else { 1 };
    title_block(title, author) + compiled_parts(sep, parts, 0, shift, shift, false)
}

fn push_heading(out: &mut String, level: usize, text: &str)
    requires
        level <= 6,
    ensures
        final(out)@ == old(out)@ + heading_line(level as int, text@),
{
    let mut k: usize = 0;
    while k < level
        invariant
            k <= level,
            out@ == old(out)@ + hashes(k as int),
        decreases level - k,
    {
        out.push('#');
        assert(hashes(k + 1) =~= hashes(k as int).push('#'));
        k += 1;
    }
    out.push(' ');
    push_str(out, text);
    push_str(out, "\n\n");
    assert(final(out)@ =~= old(out)@ + heading_line(level as int, text@));
}

/// Markdown for a whole compile: headings become Markdown headings, writings
/// get their own titles one level below the heading they sit under.
pub fn compile_markdown(request: &ExportRequest, parts: &[Part]) -> (r: String)
    ensures
        r@ == compiled(request.title@, request.author@, request.scene_separator@, parts@),
{
    let mut out = String::new();
    let title = trimmed(request.title.as_str());
    let has_title = !is_blank(request.title.as_str());
    if has_title {
        push_str(&mut out, "# ");
        let t = escape_inline_markdown(title.as_str());
        push_str(&mut out, t.as_str());
        push_str(&mut out, "\n\n");
        if !is_blank(request.author.as_str()) {
            let a = trimmed(request.author.as_str());
            out.push('*');
            let e = escape_inline_markdown(a.as_str());
            push_str(&mut out, e.as_str());
            push_str(&mut out, "*\n\n");
        }
    }
    assert(out@ =~= title_block(request.title@, request.author@));
    // Everything shifts down one level under the book title.
    let shift: usize = if has_title { 1 } else { 0 };
    push_compiled_parts(&mut out, request.scene_separator.as_str(), parts, shift);
    out
}

/// Appends the Markdown of `parts`, folder headings shifted by `shift`.
#[verifier::rlimit(40)]
pub(crate) fn push_compiled_parts(out: &mut String, separator: &str, parts: &[Part], shift: usize)
    requires
        shift <= 1,
    ensures
        final(out)@ == old(out)@ + compiled_parts(separator@, parts@, 0, shift as int, shift as int, false),
{
    let ghost head = out@;
    let mut current_level: usize = shift;
    let mut previous_was_document = false;
    let has_separator = !is_blank(separator);
    let ghost sep = separator@;
    let mut i: usize = 0;
    while i < parts.len()
        invariant
            i <= parts@.len(),
            current_level <= 6,
            shift <= 1,
            has_separator == (trim(sep).len() > 0),
            sep == separator@,
            head == old(out)@,
            out@ + compiled_parts(sep, parts@, i as int, shift as int, current_level as int, previous_was_document)
                == head + compiled_parts(sep, parts@, 0, shift as int, shift as int, false),
        decreases parts.len() - i,
    {
        let ghost before = out@;
        let ghost lvl0 = current_level as int;
        let ghost prev0 = previous_was_document;
        match &parts[i] {
            Part::Heading { level, text } => {
                let sum = *level as usize + shift;
                let lv = if sum < 6 { sum } else { 6 };
                let e = escape_inline_markdown(text.as_str());
                push_heading(out, lv, e.as_str());
                current_level = lv;
                previous_was_document = false;
            },
            Part::Document { title, markdown, .. } => {
                if previous_was_document && has_separator {
                    let s = escape_separator(separator);
                    push_str(out, s.as_str());
                    push_str(out, "\n\n");
                }
                let mut inner_level = current_level;
                match title {
                    Some(t) => {
                        if !is_blank(t.as_str()) {
                            inner_level = if current_level + 1 < 6 { current_level + 1 } else { 6 };
                            let tt = trimmed(t.as_str());
                            let e = escape_inline_markdown(tt.as_str());
                            push_heading(out, inner_level, e.as_str());
                        }
                    },
                    None => {},
                }
                // A writing's own headings sit below the folder and title
                // headings, so a "# Heading" in a scene never becomes a chapter.
                let body = trimmed(markdown.as_str());
                let d = demote_headings(body.as_str(), inner_level);
                let dt = trimmed(d.as_str());
                push_str(out, dt.as_str());
                push_str(out, "\n\n");
                previous_was_document = true;
            },
        }
        assert(out@ + compiled_parts(sep, parts@, i + 1, shift as int, current_level as int, previous_was_document)
            =~= before + compiled_parts(sep, parts@, i as int, shift as int, lvl0, prev0));
        i += 1;
    }
}


/// A part as plain values.
pub enum PartView {
    Heading { level: u8, text: Seq<char> },
    Document { title: Option<Seq<char>>, label: Seq<char>, markdown: Seq<char>, status: Option<Seq<char>> },
}

pub open spec fn opt_text(o: Option<String>) -> Option<Seq<char>> {
    match o {
        Some(s) => Some(s@),
        None => None,
    }
}

pub open spec fn part_view(p: Part) -> PartView {
    match p {
        Part::Heading { level, text } => PartView::Heading { level, text: text@ },
        Part::Document { title, label, markdown, status } => PartView::Document {
            title: opt_text(title),
            label: label@,
            markdown: markdown@,
            status: opt_text(status),
        },
    }
}

pub open spec fn part_views(ps: Seq<Part>) -> Seq<PartView> {
    ps.map_values(|p: Part| part_view(p))
}

/// A heading at `level` or above (a smaller number).
pub open spec fn heading_within(p: PartView, level: u8) -> bool {
    p matches PartView::Heading { level: l, .. } && l <= level
}

/// The first index from `j` holding a heading at `level` or above, or the end.
pub open spec fn section_end_from(ps: Seq<PartView>, j: int, level: u8) -> int
    decreases ps.len() - j,
{
    if j < 0 || j >= ps.len() {
        ps.len() as int
    } else if heading_within(ps[j], level) {
        j
    } else {
        section_end_from(ps, j + 1, level)
    }
}

fn part_is_heading_within(p: &Part, level: u8) -> (r: bool)
    ensures
        r == heading_within(part_view(*p), level),
{
    match p {
        Part::Heading { level: l, .. } => *l <= level,
        Part::Document { .. } => false,
    }
}

/// Index just past the section a heading at `i` opens: up to the next heading
/// at the same level or above.
pub fn section_end(parts: &[Part], i: usize, level: u8) -> (r: usize)
    requires
        i < parts@.len(),
    ensures
        r == section_end_from(part_views(parts@), i + 1, level),
        i < r <= parts@.len(),
{
    let ghost ps = part_views(parts@);
    let count = parts.len();
    assert(i < count);
    let mut j = i + 1;
    while j < parts.len() && !part_is_heading_within(&parts[j], level)
        invariant
            i < j <= parts@.len(),
            ps == part_views(parts@),
            section_end_from(ps, i + 1, level) == section_end_from(ps, j as int, level),
        decreases parts.len() - j,
    {
        assert(ps[j as int] == part_view(parts@[j as int]));
        j += 1;
    }
    proof {
        if j < parts.len() {
            assert(ps[j as int] == part_view(parts@[j as int]));
        }
    }
    j
}

/// Whether `ps[a..b]` holds no heading.
pub open spec fn no_heading_in(ps: Seq<PartView>, a: int, b: int) -> bool {
    forall|j: int| a <= j < b ==> !(#[trigger] ps[j] is Heading)
}

/// Whether the parts hold any heading.
pub open spec fn any_heading(ps: Seq<PartView>) -> bool {
    exists|j: int| 0 <= j < ps.len() && #[trigger] ps[j] is Heading
}

/// Chapters are the innermost folders (those with no folders inside); with no
/// folders at all, every writing is a chapter.
pub open spec fn is_chapter(ps: Seq<PartView>, i: int, has_headings: bool) -> bool {
    match ps[i] {
        PartView::Heading { level, .. } => no_heading_in(ps, i + 1, section_end_from(ps, i + 1, level)),
        PartView::Document { .. } => !has_headings,
    }
}

/// How many chapters come before index `i`.
pub open spec fn chapters_before(ps: Seq<PartView>, i: int, has_headings: bool) -> nat
    decreases i,
{
    if i <= 0 {
        0
    } else {
        chapters_before(ps, i - 1, has_headings) + if is_chapter(ps, i - 1, has_headings) { 1nat } else { 0nat }
    }
}

/// The name a writing's chapter heading uses: its title when not blank, else
/// its label.
pub open spec fn chapter_name(title: Option<Seq<char>>, label: Seq<char>) -> Seq<char> {
    match title {
        Some(t) => if trim(t).len() > 0 { t } else { label },
        None => label,
    }
}

/// A part with its heading rewritten as chapter `n`.
pub open spec fn as_chapter(p: PartView, template: Seq<char>, n: nat) -> PartView {
    match p {
        PartView::Heading { level, text } => PartView::Heading {
            level,
            text: chapter_heading_text(template, n, text),
        },
        PartView::Document { title, label, markdown, status } => PartView::Document {
            title: Some(chapter_heading_text(template, n, chapter_name(title, label))),
            label,
            markdown,
            status,
        },
    }
}

/// The parts with every chapter's heading rewritten from `template`,
/// chapters numbered from 1 through the whole book; unchanged when the
/// template is blank.
pub open spec fn chaptered(ps: Seq<PartView>, template: Seq<char>) -> Seq<PartView> {
    if trim(template).len() == 0 {
        ps
    } else {
        Seq::new(
            ps.len(),
            |i: int|
                if is_chapter(ps, i, any_heading(ps)) {
                    as_chapter(ps[i], template, chapters_before(ps, i, any_heading(ps)) + 1)
                } else {
                    ps[i]
                },
        )
    }
}

pub(crate) fn clone_opt(o: &Option<String>) -> (r: Option<String>)
    ensures
        r == *o,
        opt_text(r) == opt_text(*o),
{
    match o {
        Some(s) => Some(s.clone()),
        None => None,
    }
}

/// Rewrites chapter headings from `template`. Chapters are the innermost
/// folders (those with no folders inside), numbered through the whole book,
/// so parts stay as they are. With no folders at all, every writing is a chapter.
pub fn apply_chapter_headings(template: &str, parts: &mut Vec<Part>)
    ensures
        part_views(final(parts)@) == chaptered(part_views(old(parts)@), template@),
{
    if is_blank(template) {
        return;
    }
    let ghost ps = part_views(parts@);
    let mut has_headings = false;
    let mut k: usize = 0;
    while k < parts.len()
        invariant
            k <= parts@.len(),
            ps == part_views(parts@),
            has_headings == exists|j: int| 0 <= j < k && #[trigger] ps[j] is Heading,
        decreases parts.len() - k,
    {
        assert(ps[k as int] == part_view(parts@[k as int]));
        match &parts[k] {
            Part::Heading { .. } => {
                has_headings = true;
            },
            Part::Document { .. } => {},
        }
        k += 1;
    }
    assert(has_headings == any_heading(ps));
    let mut n: usize = 0;
    let mut i: usize = 0;
    while i < parts.len()
        invariant
            i <= parts@.len(),
            parts@.len() == ps.len(),
            has_headings == any_heading(ps),
            n == chapters_before(ps, i as int, has_headings),
            n <= i,
            forall|j: int|
                i <= j < ps.len() ==> #[trigger] part_view(parts@[j]) == ps[j],
            forall|j: int|
                0 <= j < i ==> #[trigger] part_view(parts@[j]) == (if is_chapter(ps, j, has_headings) {
                    as_chapter(ps[j], template@, chapters_before(ps, j, has_headings) + 1)
                } else {
                    ps[j]
                }),
        decreases parts.len() - i,
    {
        let chapter = match &parts[i] {
            Part::Heading { level, .. } => {
                let end = section_end(parts.as_slice(), i, *level);
                let mut j = i + 1;
                let mut inner_free = true;
                while j < end
                    invariant
                        i < j <= end <= parts@.len(),
                        parts@.len() == ps.len(),
                        forall|m: int| i <= m < ps.len() ==> #[trigger] part_view(parts@[m]) == ps[m],
                        inner_free == no_heading_in(ps, i + 1, j as int),
                    decreases end - j,
                {
                    assert(part_view(parts@[j as int]) == ps[j as int]);
                    match &parts[j] {
                        Part::Heading { .. } => {
                            inner_free = false;
                        },
                        Part::Document { .. } => {},
                    }
                    j += 1;
                }
                proof {
                    assert(part_views(parts@.subrange(0, parts@.len() as int)) =~= part_views(parts@));
                    assert forall|m: int| i + 1 <= m < ps.len() implies part_views(parts@)[m] == ps[m] by {
                        assert(part_view(parts@[m]) == ps[m]);
                    }
                    assert(section_end_from(part_views(parts@), i + 1, *level) == section_end_from(ps, i + 1, *level)) by {
                        lemma_section_end_same(part_views(parts@), ps, i + 1, *level);
                    }
                }
                inner_free
            },
            Part::Document { .. } => !has_headings,
        };
        assert(part_view(parts@[i as int]) == ps[i as int]);
        assert(chapter == is_chapter(ps, i as int, has_headings));
        if chapter {
            n += 1;
            let new_part = match &parts[i] {
                Part::Heading { level, text } => Part::Heading {
                    level: *level,
                    text: chapter_heading(template, n, text.as_str()),
                },
                Part::Document { title, label, markdown, status } => {
                    let heading = match title {
                        Some(t) => if !is_blank(t.as_str()) {
                            chapter_heading(template, n, t.as_str())
                        } else {
                            chapter_heading(template, n, label.as_str())
                        },
                        None => chapter_heading(template, n, label.as_str()),
                    };
                    Part::Document {
                        title: Some(heading),
                        label: label.clone(),
                        markdown: markdown.clone(),
                        status: clone_opt(status),
                    }
                },
            };
            parts.set(i, new_part);
        }
        i += 1;
    }
    assert(part_views(parts@) =~= chaptered(ps, template@));
}

/// Two part lists that agree from `j` on have the same section ends from `j`.
proof fn lemma_section_end_same(a: Seq<PartView>, b: Seq<PartView>, j: int, level: u8)
    requires
        a.len() == b.len(),
        0 <= j,
        forall|m: int| j <= m < a.len() ==> a[m] == b[m],
    ensures
        section_end_from(a, j, level) == section_end_from(b, j, level),
    decreases a.len() - j,
{
    if j < a.len() {
        lemma_section_end_same(a, b, j + 1, level);
    }
}


/// Contents entries from folder headings, in order.
pub open spec fn heading_entries(ps: Seq<PartView>) -> Seq<(int, Seq<char>)>
    decreases ps.len(),
{
    if ps.len() == 0 {
        Seq::empty()
    } else {
        let rest = heading_entries(ps.drop_last());
        match ps.last() {
            PartView::Heading { level, text } => rest.push((level as int, text)),
            PartView::Document { .. } => rest,
        }
    }
}

/// Contents entries from the writings' titles that are not blank, trimmed.
pub open spec fn title_entries(ps: Seq<PartView>) -> Seq<(int, Seq<char>)>
    decreases ps.len(),
{
    if ps.len() == 0 {
        Seq::empty()
    } else {
        let rest = title_entries(ps.drop_last());
        match ps.last() {
            PartView::Document { title: Some(t), .. } => if trim(t).len() > 0 {
                rest.push((1, trim(t)))
            } else {
                rest
            },
            _ => rest,
        }
    }
}

/// Entries for a table of contents as (level, text): the folder headings, or
/// every writing's title when there are no folders.
pub open spec fn toc(ps: Seq<PartView>) -> Seq<(int, Seq<char>)> {
    if heading_entries(ps).len() > 0 { heading_entries(ps) } else { title_entries(ps) }
}

pub open spec fn entry_views(v: Seq<(usize, String)>) -> Seq<(int, Seq<char>)> {
    v.map_values(|e: (usize, String)| (e.0 as int, e.1@))
}

/// Entries for a table of contents as (level, text): the folder headings, or
/// every writing's title when there are no folders. Levels are the heading
/// levels the entries get in the compiled body (with no book title above).
pub fn toc_entries(parts: &[Part]) -> (r: Vec<(usize, String)>)
    ensures
        entry_views(r@) == toc(part_views(parts@)),
{
    let ghost ps = part_views(parts@);
    let mut headings: Vec<(usize, String)> = Vec::new();
    let mut titles: Vec<(usize, String)> = Vec::new();
    let mut i: usize = 0;
    while i < parts.len()
        invariant
            i <= parts@.len(),
            ps == part_views(parts@),
            entry_views(headings@) == heading_entries(ps.take(i as int)),
            entry_views(titles@) == title_entries(ps.take(i as int)),
        decreases parts.len() - i,
    {
        assert(ps.take(i + 1).drop_last() =~= ps.take(i as int));
        assert(ps.take(i + 1).last() == part_view(parts@[i as int]));
        match &parts[i] {
            Part::Heading { level, text } => {
                headings.push((*level as usize, text.clone()));
            },
            Part::Document { title, .. } => {
                match title {
                    Some(t) => {
                        if !is_blank(t.as_str()) {
                            titles.push((1, trimmed(t.as_str())));
                        }
                    },
                    None => {},
                }
            },
        }
        assert(entry_views(headings@) =~= heading_entries(ps.take(i + 1)));
        assert(entry_views(titles@) =~= title_entries(ps.take(i + 1)));
        i += 1;
    }
    assert(ps.take(ps.len() as int) =~= ps);
    if headings.len() > 0 {
        headings
    } else {
        titles
    }
}

/// Whether a part stays: a writing always, a heading when its section still
/// holds a writing.
pub open spec fn keeps(ps: Seq<PartView>, i: int) -> bool {
    match ps[i] {
        PartView::Heading { level, .. } => exists|j: int|
            i + 1 <= j < section_end_from(ps, i + 1, level) && #[trigger] ps[j] is Document,
        PartView::Document { .. } => true,
    }
}

/// The parts of `ps[..n]` that stay, in order.
pub open spec fn kept(ps: Seq<PartView>, n: int) -> Seq<PartView>
    decreases n,
{
    if n <= 0 {
        Seq::empty()
    } else if keeps(ps, n - 1) {
        kept(ps, n - 1).push(ps[n - 1])
    } else {
        kept(ps, n - 1)
    }
}

/// Removes headings whose section has no writings left in it.
pub fn drop_empty_headings(parts: Vec<Part>) -> (r: Vec<Part>)
    ensures
        part_views(r@) == kept(part_views(parts@), parts@.len() as int),
{
    let ghost ps = part_views(parts@);
    let mut flags: Vec<bool> = Vec::new();
    let mut i: usize = 0;
    while i < parts.len()
        invariant
            i <= parts@.len(),
            ps == part_views(parts@),
            flags@.len() == i,
            forall|m: int| 0 <= m < i ==> #[trigger] flags@[m] == keeps(ps, m),
        decreases parts.len() - i,
    {
        assert(ps[i as int] == part_view(parts@[i as int]));
        let keep = match &parts[i] {
            Part::Heading { level, .. } => {
                let end = section_end(parts.as_slice(), i, *level);
                proof {
                    assert(part_views(parts@.subrange(0, parts@.len() as int)) =~= ps);
                }
                let mut j = i + 1;
                let mut found = false;
                while j < end && !found
                    invariant
                        i < j <= end <= parts@.len(),
                        ps == part_views(parts@),
                        end == section_end_from(ps, i + 1, *level),
                        found ==> exists|m: int| i + 1 <= m < end && #[trigger] ps[m] is Document,
                        !found ==> forall|m: int| i + 1 <= m < j ==> !(#[trigger] ps[m] is Document),
                    decreases end - j,
                {
                    assert(ps[j as int] == part_view(parts@[j as int]));
                    match &parts[j] {
                        Part::Document { .. } => {
                            found = true;
                        },
                        Part::Heading { .. } => {},
                    }
                    j += 1;
                }
                found
            },
            Part::Document { .. } => true,
        };
        flags.push(keep);
        i += 1;
    }
    let mut rest = parts;
    let mut out: Vec<Part> = Vec::new();
    let mut k: usize = 0;
    while k < flags.len()
        invariant
            k <= flags@.len() == ps.len(),
            part_views(rest@) == ps.skip(k as int),
            rest@.len() == ps.len() - k,
            forall|m: int| 0 <= m < flags@.len() ==> #[trigger] flags@[m] == keeps(ps, m),
            part_views(out@) == kept(ps, k as int),
        decreases flags.len() - k,
    {
        assert(ps.skip(k as int)[0] == ps[k as int]);
        let ghost before = rest@;
        let p = rest.remove(0);
        proof {
            assert(rest@ =~= before.subrange(1, before.len() as int));
            assert forall|m: int| 0 <= m < rest@.len() implies #[trigger] part_views(rest@)[m] == ps.skip(k + 1)[m] by {
                assert(part_views(before)[m + 1] == ps.skip(k as int)[m + 1]);
            }
            assert(part_view(p) == ps[k as int]) by {
                assert(part_views(before)[0] == ps.skip(k as int)[0]);
            }
        }
        assert(part_views(rest@) =~= ps.skip(k + 1));
        if flags[k] {
            out.push(p);
            assert(part_views(out@) =~= kept(ps, k as int).push(ps[k as int]));
        }
        k += 1;
    }
    out
}

/// Characters `char::is_control` reports: the `Cc` general category.
pub open spec fn is_control(c: char) -> bool {
    c <= '\u{1f}' || ('\u{7f}' <= c && c <= '\u{9f}')
}

/// A character awkward or invalid in file names on some platform.
pub open spec fn bad_in_name(c: char) -> bool {
    c == '/' || c == '\\' || c == ':' || c == '*' || c == '?' || c == '"' || c == '<' || c == '>'
        || c == '|' || is_control(c)
}

pub open spec fn dot_or_ws(c: char) -> bool {
    c == '.' || crate::text::is_ws(c)
}

pub open spec fn strip_dots_lead(s: Seq<char>) -> Seq<char>
    decreases s.len(),
{
    if s.len() > 0 && dot_or_ws(s[0]) { strip_dots_lead(s.drop_first()) } else { s }
}

pub open spec fn strip_dots_trail(s: Seq<char>) -> Seq<char>
    decreases s.len(),
{
    if s.len() > 0 && dot_or_ws(s.last()) { strip_dots_trail(s.drop_last()) } else { s }
}

/// The file name an export of `title` gets: trimmed, awkward characters as
/// `-`, no dots or whitespace at either end, `Untitled` when nothing is left.
pub open spec fn stem_of(title: Seq<char>) -> Seq<char> {
    let cleaned = trim(title).map_values(|c: char| if bad_in_name(c) { '-' } else { c });
    let s = strip_dots_trail(strip_dots_lead(cleaned));
    if s.len() == 0 { "Untitled"@ } else { s }
}

/// Characters that are awkward or invalid in file names on some platform.
pub fn file_stem(title: &str) -> (r: String)
    ensures
        r@ == stem_of(title@),
{
    let t = trimmed(title);
    let v = chars_of(t.as_str());
    let mut cleaned: Vec<char> = Vec::new();
    let mut i: usize = 0;
    while i < v.len()
        invariant
            i <= v@.len(),
            cleaned@ =~= v@.take(i as int).map_values(|c: char| if bad_in_name(c) { '-' } else { c }),
        decreases v.len() - i,
    {
        let c = v[i];
        let bad = c == '/' || c == '\\' || c == ':' || c == '*' || c == '?' || c == '"' || c == '<'
            || c == '>' || c == '|' || c <= '\u{1f}' || ('\u{7f}' <= c && c <= '\u{9f}');
        cleaned.push(if bad { '-' } else { c });
        assert(v@.take(i + 1) =~= v@.take(i as int).push(c));
        i += 1;
    }
    assert(v@.take(v@.len() as int) =~= v@);
    assert(cleaned@.subrange(0, cleaned@.len() as int) =~= cleaned@);
    let mut lo: usize = 0;
    while lo < cleaned.len() && (cleaned[lo] == '.' || crate::text::is_whitespace(cleaned[lo]))
        invariant
            lo <= cleaned@.len(),
            strip_dots_lead(cleaned@) == strip_dots_lead(cleaned@.subrange(lo as int, cleaned@.len() as int)),
        decreases cleaned.len() - lo,
    {
        assert(cleaned@.subrange(lo as int, cleaned@.len() as int).drop_first() =~= cleaned@.subrange(
            lo + 1,
            cleaned@.len() as int,
        ));
        lo += 1;
    }
    assert(cleaned@.subrange(0, cleaned@.len() as int) =~= cleaned@);
    let mut hi: usize = cleaned.len();
    while hi > lo && (cleaned[hi - 1] == '.' || crate::text::is_whitespace(cleaned[hi - 1]))
        invariant
            lo <= hi <= cleaned@.len(),
            strip_dots_trail(cleaned@.subrange(lo as int, cleaned@.len() as int)) == strip_dots_trail(
                cleaned@.subrange(lo as int, hi as int),
            ),
        decreases hi - lo,
    {
        assert(cleaned@.subrange(lo as int, hi as int).drop_last() =~= cleaned@.subrange(lo as int, hi - 1));
        hi -= 1;
    }
    if lo == hi {
        assert(cleaned@.subrange(lo as int, hi as int).len() == 0);
        "Untitled".to_owned()
    } else {
        string_of(&cleaned, lo, hi)
    }
}

/// The language code of a request: the given one, trimmed, when it is two
/// or three lower-case ASCII letters; else `en`.
pub open spec fn lang_code(lang: Option<Seq<char>>) -> Seq<char> {
    match lang {
        Some(l) => {
            let t = trim(l);
            if 2 <= t.len() <= 3 && forall|j: int| 0 <= j < t.len() ==> 'a' <= #[trigger] t[j] <= 'z' {
                t
            } else {
                "en"@
            }
        },
        None => "en"@,
    }
}

/// `s` in upper case, as `str::to_uppercase` maps it.
pub uninterp spec fn uppercase(s: Seq<char>) -> Seq<char>;

/// `str::to_uppercase`: the upper-case form depends on the text alone
/// (Unicode case mapping), named `uppercase`; the tables are not restated.
#[verifier::external_body]
fn to_uppercase(s: &str) -> (r: String)
    ensures
        r@ == uppercase(s@),
{
    s.to_uppercase()
}

/// The non-whitespace run `t` ends with.
pub open spec fn tail_word(t: Seq<char>) -> Seq<char>
    decreases t.len(),
{
    if t.len() > 0 && !crate::text::is_ws(t.last()) { tail_word(t.drop_last()).push(t.last()) } else { Seq::empty() }
}

/// The last whitespace-separated word of `s`, or nothing.
pub open spec fn last_word(s: Seq<char>) -> Seq<char> {
    tail_word(trim_end(s))
}

/// `a` and `b` joined with ` / `, leaving out whichever is empty.
pub open spec fn slash_joined(a: Seq<char>, b: Seq<char>) -> Seq<char> {
    if a.len() == 0 { b } else if b.len() == 0 { a } else { a + " / "@ + b }
}

impl ExportRequest {
    /// The running head before the page number, e.g. "Writer / MY NOVEL",
    /// or `None` when it is turned off.
    pub fn running_head_text(&self) -> (r: Option<String>)
        ensures
            !self.running_head ==> r is None,
            self.running_head ==> (r matches Some(h) && h@ == slash_joined(
                last_word(self.author@),
                uppercase(trim(self.title@)),
            )),
    {
        if !self.running_head {
            return None;
        }
        let v = chars_of(self.author.as_str());
        let hi = skip_ws_back(&v, 0, v.len());
        assert(v@.subrange(0, v@.len() as int) =~= v@);
        let mut lo = hi;
        while lo > 0 && !crate::text::is_whitespace(v[lo - 1])
            invariant
                lo <= hi <= v@.len(),
                tail_word(v@.subrange(0, hi as int)) == tail_word(v@.subrange(0, lo as int)) + v@.subrange(
                    lo as int,
                    hi as int,
                ),
            decreases lo,
        {
            assert(v@.subrange(0, lo as int).drop_last() =~= v@.subrange(0, lo - 1));
            assert(v@.subrange(lo - 1, hi as int) =~= seq![v@[lo - 1]] + v@.subrange(lo as int, hi as int));
            lo -= 1;
        }
        assert(tail_word(v@.subrange(0, lo as int)) =~= Seq::<char>::empty());
        let surname = string_of(&v, lo, hi);
        let t = trimmed(self.title.as_str());
        let title = to_uppercase(t.as_str());
        let mut out = String::new();
        push_str(&mut out, surname.as_str());
        if chars_of(surname.as_str()).len() > 0 && chars_of(title.as_str()).len() > 0 {
            push_str(&mut out, " / ");
        }
        push_str(&mut out, title.as_str());
        assert(out@ =~= slash_joined(surname@, title@));
        Some(out)
    }

    /// The language code if it looks valid, else English.
    pub fn language(&self) -> (r: String)
        ensures
            r@ == lang_code(opt_text(self.lang)),
    {
        match &self.lang {
            Some(l) => {
                let t = trimmed(l.as_str());
                let v = chars_of(t.as_str());
                let mut ok = 2 <= v.len() && v.len() <= 3;
                let mut i: usize = 0;
                while i < v.len()
                    invariant
                        i <= v@.len(),
                        ok ==> 2 <= v@.len() <= 3,
                        ok ==> forall|j: int| 0 <= j < i ==> 'a' <= #[trigger] v@[j] <= 'z',
                        !ok ==> !(2 <= v@.len() <= 3 && forall|j: int| 0 <= j < v@.len() ==> 'a' <= #[trigger] v@[j] <= 'z'),
                    decreases v.len() - i,
                {
                    if !('a' <= v[i] && v[i] <= 'z') {
                        assert(!('a' <= v@[i as int] <= 'z'));
                        ok = false;
                    }
                    i += 1;
                }
                if ok { t } else { "en".to_owned() }
            },
            None => "en".to_owned(),
        }
    }
}


proof fn lemma_scan_forward(m: Seq<char>, i: int)
    ensures
        fm_scan(m, i) matches Some(o) ==> i < o <= m.len(),
    decreases m.len() - i,
{
    if 0 <= i < m.len() {
        let e = line_end(m, i);
        if i < e <= m.len() {
            lemma_scan_forward(m, e);
        }
    }
}

proof fn lemma_strip_breaks_lead_len(s: Seq<char>)
    ensures
        strip_breaks_lead(s).len() <= s.len(),
    decreases s.len(),
{
    if s.len() > 0 && (s[0] == '\r' || s[0] == '\n') {
        lemma_strip_breaks_lead_len(s.drop_first());
    }
}

/// Dropping a metadata block never lengthens a writing.
pub(crate) proof fn lemma_stripped_shorter(m: Seq<char>)
    ensures
        without_front_matter(m).len() <= m.len(),
{
    let b = fm_prefix(m);
    if b != 0 && is_key(first_line_at(m, b)) {
        lemma_scan_forward(m, b);
        if let Some(o) = fm_scan(m, b) {
            lemma_strip_breaks_lead_len(m.skip(o));
        }
    }
}

/// The lines of `s`, as `str::lines` gives them: split at `\n`, a `\r`
/// before it dropped, no empty line after a final `\n`.
pub open spec fn lines_of(s: Seq<char>) -> Seq<Seq<char>>
    decreases s.len(),
{
    if s.len() == 0 {
        Seq::empty()
    } else {
        let k = first_of(s, '\n');
        if 0 <= k < s.len() {
            let l = s.take(k);
            let l2 = if l.len() > 0 && l.last() == '\r' { l.drop_last() } else { l };
            seq![l2] + lines_of(s.skip(k + 1))
        } else {
            seq![s]
        }
    }
}

/// The trimmed value of the first `key: value` line for `key`.
pub open spec fn key_value(lines: Seq<Seq<char>>, key: Seq<char>) -> Option<Seq<char>>
    decreases lines.len(),
{
    if lines.len() == 0 {
        None
    } else {
        let l = lines[0];
        let k = first_of(l, ':');
        if 0 <= k < l.len() && l.take(k) == key {
            Some(trim(l.skip(k + 1)))
        } else {
            key_value(lines.drop_first(), key)
        }
    }
}

/// The string a JSON string literal stands for, as `serde_json` reads it;
/// `None` when `text` is not one.
pub uninterp spec fn json_string(text: Seq<char>) -> Option<Seq<char>>;

/// `serde_json::from_str::<String>`: the string a JSON text holds, or an
/// error. The result depends on the text alone and is named `json_string`;
/// the JSON grammar is not restated.
#[verifier::external_body]
fn parse_json_string(text: &str) -> (r: Option<String>)
    ensures
        opt_text(r) == json_string(text@),
{
    serde_json::from_str::<String>(text).ok()
}

/// A metadata value without its quotes: JSON-quoted values decoded (or just
/// stripped of `"` when they do not parse), single-quoted YAML values with
/// `''` read as `'`.
pub open spec fn unquoted(raw: Seq<char>) -> Seq<char> {
    if raw.len() > 0 && raw[0] == '"' {
        match json_string(raw) {
            Some(v) => v,
            None => crate::dropbox::strip_lead(crate::dropbox::strip_trail(raw, '"'), '"'),
        }
    } else if raw.len() >= 2 && raw[0] == '\'' && raw.last() == '\'' {
        replace_all(raw.subrange(1, raw.len() - 1), "''"@, "'"@)
    } else {
        raw
    }
}

/// The value of `key` in a writing's metadata block, unquoted, if set and
/// not blank.
pub open spec fn fm_value(m: Seq<char>, key: Seq<char>) -> Option<Seq<char>> {
    let rest = without_front_matter(m);
    if rest.len() == m.len() {
        None
    } else {
        match key_value(lines_of(m.take(m.len() - rest.len())), key) {
            None => None,
            Some(raw) => if trim(unquoted(raw)).len() > 0 { Some(unquoted(raw)) } else { None },
        }
    }
}

fn unquote(raw: &str) -> (r: String)
    ensures
        r@ == unquoted(raw@),
{
    let v = chars_of(raw);
    let n = v.len();
    if n > 0 && v[0] == '"' {
        match parse_json_string(raw) {
            Some(s) => s,
            None => {
                let mut hi = n;
                assert(v@.subrange(0, n as int) =~= v@);
                while hi > 0 && v[hi - 1] == '"'
                    invariant
                        hi <= n == v@.len(),
                        crate::dropbox::strip_trail(v@, '"') == crate::dropbox::strip_trail(v@.subrange(0, hi as int), '"'),
                    decreases hi,
                {
                    assert(v@.subrange(0, hi as int).drop_last() =~= v@.subrange(0, hi - 1));
                    hi -= 1;
                }
                let mut lo: usize = 0;
                while lo < hi && v[lo] == '"'
                    invariant
                        lo <= hi <= n == v@.len(),
                        crate::dropbox::strip_trail(v@, '"') == v@.subrange(0, hi as int),
                        crate::dropbox::strip_lead(v@.subrange(0, hi as int), '"') == crate::dropbox::strip_lead(
                            v@.subrange(lo as int, hi as int),
                            '"',
                        ),
                    decreases hi - lo,
                {
                    assert(v@.subrange(lo as int, hi as int).drop_first() =~= v@.subrange(lo + 1, hi as int));
                    lo += 1;
                }
                proof {
                    assert(v@.subrange(0, n as int) =~= v@);
                    if hi > 0 {
                        assert(v@.subrange(0, hi as int).last() == v@[hi - 1]);
                    }
                }
                string_of(&v, lo, hi)
            },
        }
    } else if n >= 2 && v[0] == '\'' && v[n - 1] == '\'' {
        let inner = string_of(&v, 1, n - 1);
        proof {
            reveal_strlit("''");
        }
        replace(inner.as_str(), "''", "'")
    } else {
        raw.to_owned()
    }
}

/// The first line of `v[i..end]` ends (before any `\r\n`) at `r.0`; the
/// next starts at `r.1`.
pub(crate) fn line_bounds(v: &Vec<char>, i: usize, end: usize) -> (r: (usize, usize))
    requires
        i < end <= v.len(),
    ensures
        i <= r.0 <= end,
        i < r.1 <= end,
        lines_of(v@.subrange(i as int, end as int)) == seq![v@.subrange(i as int, r.0 as int)] + lines_of(
            v@.subrange(r.1 as int, end as int),
        ),
{
    let ghost s = v@.subrange(i as int, end as int);
    let k0 = find_char(v, i, '\n');
    if k0 < end {
        proof {
            assert forall|j: int| 0 <= j < k0 - i implies s[j] != '\n' by {
                assert(s[j] == v@[i + j]);
            }
            assert(s[k0 - i] == v@[k0 as int]);
            lemma_first_of(s, '\n', k0 - i);
            assert(s.take(k0 - i) =~= v@.subrange(i as int, k0 as int));
            assert(s.skip(k0 - i + 1) =~= v@.subrange(k0 + 1, end as int));
        }
        if k0 > i && v[k0 - 1] == '\r' {
            assert(v@.subrange(i as int, k0 as int).drop_last() =~= v@.subrange(i as int, k0 - 1));
            (k0 - 1, k0 + 1)
        } else {
            (k0, k0 + 1)
        }
    } else {
        proof {
            assert forall|j: int| 0 <= j < s.len() implies s[j] != '\n' by {
                assert(s[j] == v@[i + j]);
            }
            lemma_first_of(s, '\n', s.len() as int);
            assert(v@.subrange(end as int, end as int) =~= Seq::<char>::empty());
            assert(lines_of(Seq::<char>::empty()) == Seq::<Seq<char>>::empty());
            assert(seq![s] + Seq::<Seq<char>>::empty() =~= seq![s]);
        }
        (end, end)
    }
}

proof fn lemma_key_value_cons(l: Seq<char>, rest: Seq<Seq<char>>, key: Seq<char>)
    ensures
        key_value(seq![l] + rest, key) == (if 0 <= first_of(l, ':') < l.len() && l.take(first_of(l, ':')) == key {
            Some(trim(l.skip(first_of(l, ':') + 1)))
        } else {
            key_value(rest, key)
        }),
{
    let ls = seq![l] + rest;
    assert(ls[0] == l);
    assert(ls.drop_first() =~= rest);
}

/// The value of `key` in a writing's metadata block, unquoted, if set.
#[verifier::rlimit(40)]
pub fn front_matter_value(markdown: &str, key: &str) -> (r: Option<String>)
    ensures
        opt_text(r) == fm_value(markdown@, key@),
{
    let rest = strip_front_matter(markdown);
    let v = chars_of(markdown);
    let rn = chars_of(rest.as_str()).len();
    if rn == v.len() {
        return None;
    }
    let ghost m = markdown@;
    proof {
        lemma_stripped_shorter(m);
    }
    let end = v.len() - rn;
    let mut i: usize = 0;
    let ghost block = v@.subrange(0, end as int);
    assert(block =~= m.take(m.len() - rest@.len()));
    while i < end
        invariant
            i <= end <= v@.len(),
            v@ == m,
            m == markdown@,
            rest@ == without_front_matter(m),
            end == m.len() - without_front_matter(m).len(),
            without_front_matter(m).len() < m.len(),
            block == m.take(m.len() - without_front_matter(m).len()),
            key_value(lines_of(block), key@) == key_value(lines_of(v@.subrange(i as int, end as int)), key@),
        decreases end - i,
    {
        let (le, next) = line_bounds(&v, i, end);
        let ghost line = v@.subrange(i as int, le as int);
        proof {
            lemma_key_value_cons(line, lines_of(v@.subrange(next as int, end as int)), key@);
        }
        let c = find_char(&v, i, ':');
        proof {
            if c < le {
                assert forall|j: int| 0 <= j < c - i implies line[j] != ':' by {
                    assert(line[j] == v@[i + j]);
                }
                assert(line[c - i] == v@[c as int]);
                lemma_first_of(line, ':', c - i);
            } else {
                assert forall|j: int| 0 <= j < line.len() implies line[j] != ':' by {
                    assert(line[j] == v@[i + j]);
                }
                lemma_first_of(line, ':', line.len() as int);
            }
        }
        if c < le {
            let name = string_of(&v, i, c);
            assert(line.take(c - i) =~= name@);
            if same_text(name.as_str(), key) {
                let raw_full = string_of(&v, c + 1, le);
                assert(line.skip(c - i + 1) =~= raw_full@);
                let raw = trimmed(raw_full.as_str());
                let value = unquote(raw.as_str());
                assert(key_value(lines_of(block), key@) == Some(raw@));
                assert(without_front_matter(m) == rest@);
                assert(rest@.len() != m.len());
                assert(fm_value(m, key@) == (if trim(value@).len() > 0 { Some(value@) } else { None }));
                let blank = is_blank(value.as_str());
                assert(blank == (trim(value@).len() == 0));
                if blank {
                    assert(fm_value(markdown@, key@) is None);
                    return None;
                }
                assert(fm_value(markdown@, key@) == Some(value@));
                return Some(value);
            }
        }
        i = next;
    }
    assert(v@.subrange(i as int, end as int) =~= Seq::<char>::empty());
    assert(lines_of(Seq::<char>::empty()) == Seq::<Seq<char>>::empty());
    None
}

/// Links into the writing library start with this; they name another
/// writing, not a place a reader could follow.
pub const DOC_REF_PREFIX: &'static str = "#writing/";

/// The opening of a scene separator, the one piece of raw HTML kept as is.
pub const SEPARATOR_OPEN: &'static str = "<p class=\"separator\">";

/// What cleaning events carries along: for each open link whether it is an
/// internal one, whose end is dropped too, and the events kept so far.
pub struct CleanState {
    pub internal_links: Seq<bool>,
    pub out: Seq<MdItem>,
}

/// One event's effect: internal links keep their text only, images their
/// alt text only, and raw HTML other than a scene separator becomes text.
pub open spec fn clean_step(st: CleanState, e: MdItem) -> CleanState {
    match e {
        MdItem::Start(MdTag::Link(dest, _, _)) => {
            let internal = starts_with(dest@, DOC_REF_PREFIX@);
            CleanState {
                internal_links: st.internal_links.push(internal),
                out: if internal { st.out } else { st.out.push(e) },
            }
        },
        MdItem::End(MdTagEnd::Link) => {
            let skip = st.internal_links.len() > 0 && st.internal_links.last();
            CleanState {
                internal_links: if st.internal_links.len() > 0 {
                    st.internal_links.drop_last()
                } else {
                    st.internal_links
                },
                out: if skip { st.out } else { st.out.push(e) },
            }
        },
        MdItem::Start(MdTag::Image) | MdItem::End(MdTagEnd::Image) => st,
        MdItem::Html(raw) | MdItem::InlineHtml(raw) => CleanState {
            out: if starts_with(trim_start(raw@), SEPARATOR_OPEN@) {
                st.out.push(e)
            } else {
                st.out.push(MdItem::Text(raw))
            },
            ..st
        },
        _ => CleanState { out: st.out.push(e), ..st },
    }
}

pub open spec fn clean_run(es: Seq<MdItem>) -> CleanState
    decreases es.len(),
{
    if es.len() == 0 {
        CleanState { internal_links: Seq::empty(), out: Seq::empty() }
    } else {
        clean_step(clean_run(es.drop_last()), es.last())
    }
}

fn copy_tag(t: &MdTag) -> (r: MdTag)
    ensures
        r == *t,
{
    match t {
        MdTag::Paragraph => MdTag::Paragraph,
        MdTag::Heading(l) => MdTag::Heading(*l),
        MdTag::BlockQuote => MdTag::BlockQuote,
        MdTag::CodeBlock(i) => MdTag::CodeBlock(i.clone()),
        MdTag::List(n) => MdTag::List(*n),
        MdTag::Item => MdTag::Item,
        MdTag::Emphasis => MdTag::Emphasis,
        MdTag::Strong => MdTag::Strong,
        MdTag::Strikethrough => MdTag::Strikethrough,
        MdTag::Link(d, t, m) => MdTag::Link(d.clone(), t.clone(), *m),
        MdTag::Image => MdTag::Image,
        MdTag::Table(a) => MdTag::Table(a.clone()),
        MdTag::TableHead => MdTag::TableHead,
        MdTag::TableRow => MdTag::TableRow,
        MdTag::TableCell => MdTag::TableCell,
        MdTag::FootnoteDefinition(l) => MdTag::FootnoteDefinition(l.clone()),
        MdTag::Other => MdTag::Other,
    }
}

fn copy_item(e: &MdItem) -> (r: MdItem)
    ensures
        r == *e,
{
    match e {
        MdItem::Start(t) => MdItem::Start(copy_tag(t)),
        MdItem::End(t) => MdItem::End(*t),
        MdItem::Text(s) => MdItem::Text(s.clone()),
        MdItem::Code(s) => MdItem::Code(s.clone()),
        MdItem::Html(s) => MdItem::Html(s.clone()),
        MdItem::InlineHtml(s) => MdItem::InlineHtml(s.clone()),
        MdItem::FootnoteReference(s) => MdItem::FootnoteReference(s.clone()),
        MdItem::SoftBreak => MdItem::SoftBreak,
        MdItem::HardBreak => MdItem::HardBreak,
        MdItem::Rule => MdItem::Rule,
        MdItem::Other => MdItem::Other,
    }
}

/// Events with app-only syntax removed: writing links keep their text, raw
/// HTML is shown as text (EPUB needs valid XHTML), except our own separator.
pub fn clean_events(events: Vec<MdItem>) -> (r: Vec<MdItem>)
    ensures
        r@ == clean_run(events@).out,
{
    let mut internal_links: Vec<bool> = Vec::new();
    let mut out: Vec<MdItem> = Vec::new();
    let prefix = chars_of(DOC_REF_PREFIX);
    let open = chars_of(SEPARATOR_OPEN);
    let mut i: usize = 0;
    assert(events@.take(0) =~= Seq::<MdItem>::empty());
    while i < events.len()
        invariant
            i <= events@.len(),
            prefix@ == DOC_REF_PREFIX@,
            open@ == SEPARATOR_OPEN@,
            clean_run(events@.take(i as int)) == (CleanState { internal_links: internal_links@, out: out@ }),
        decreases events.len() - i,
    {
        assert(events@.take(i + 1).drop_last() =~= events@.take(i as int));
        assert(events@.take(i + 1).last() == events@[i as int]);
        let e = &events[i];
        match e {
            MdItem::Start(MdTag::Link(dest, _, _)) => {
                let d = chars_of(dest.as_str());
                let internal = crate::text::has_prefix(&d, &prefix);
                internal_links.push(internal);
                if !internal {
                    out.push(copy_item(e));
                }
            },
            MdItem::End(MdTagEnd::Link) => {
                let skip = match internal_links.pop() {
                    Some(b) => b,
                    None => false,
                };
                if !skip {
                    out.push(copy_item(e));
                }
            },
            MdItem::Start(MdTag::Image) | MdItem::End(MdTagEnd::Image) => {},
            MdItem::Html(raw) | MdItem::InlineHtml(raw) => {
                let v = chars_of(raw.as_str());
                let lo = crate::text::skip_ws(&v, 0, v.len());
                assert(v@.subrange(0, v@.len() as int) =~= v@);
                let rest = string_of(&v, lo, v.len());
                let w = chars_of(rest.as_str());
                if crate::text::has_prefix(&w, &open) {
                    out.push(copy_item(e));
                } else {
                    out.push(MdItem::Text(raw.clone()));
                }
            },
            _ => {
                out.push(copy_item(e));
            },
        }
        i += 1;
    }
    assert(events@.take(i as int) =~= events@);
    out
}

} // verus!
