//! PDF export settings, and Typst escaping of prose.

use vstd::prelude::*;
use crate::text::{decimal, ends_with, join, replace_all, starts_with, trim, trim_end};

verus! {

#[derive(Debug, Clone, Copy, PartialEq, Eq, Structural)]
pub enum PageSize {
    A4,
    Letter,
}

impl Default for PageSize {
    fn default() -> (r: Self)
        ensures
            r == PageSize::A4,
    {
        PageSize::A4
    }
}

pub struct PdfLayout<'a> {
    pub title: &'a str,
    pub author: &'a str,
    pub page_size: PageSize,
    /// Standard manuscript format: 12pt, double spaced, ragged right.
    pub manuscript: bool,
    pub chapter_page_breaks: bool,
    /// Validated ISO 639 code, e.g. "en".
    pub lang: &'a str,
    /// A contents page listing headings down to this level.
    pub toc_depth: Option<usize>,
    /// Text before the page number at the top of each page, e.g.
    /// "Writer / MY NOVEL" (may be empty). `None` keeps numbers at the bottom.
    pub running_head: Option<String>,
    /// Front matter pages, as Typst, placed before the contents.
    pub front: &'a str,
}

/// A character Typst would read as markup.
pub open spec fn is_typst_special(c: char) -> bool {
    c == '\\' || c == '#' || c == '*' || c == '_' || c == '`' || c == '$' || c == '<' || c == '>'
        || c == '@' || c == '[' || c == ']' || c == '(' || c == ')' || c == '{' || c == '}'
        || c == '~' || c == '/' || c == '=' || c == '-' || c == '+' || c == '.' || c == ':'
}

/// `s` with a backslash before each Typst special character.
pub open spec fn typst_escaped(s: Seq<char>) -> Seq<char>
    decreases s.len(),
{
    if s.len() == 0 {
        s
    } else if is_typst_special(s.last()) {
        typst_escaped(s.drop_last()) + seq!['\\', s.last()]
    } else {
        typst_escaped(s.drop_last()).push(s.last())
    }
}

/// Escapes prose so nothing in it is read as Typst syntax. Quotes are left
/// alone so Typst turns them into typographic quotes.
pub fn escape_text(text: &str) -> (r: String)
    ensures
        r@ == typst_escaped(text@),
{
    let v = crate::text::chars_of(text);
    let mut out = String::new();
    let mut i: usize = 0;
    while i < v.len()
        invariant
            i <= v.len(),
            out@ == typst_escaped(v@.take(i as int)),
        decreases v.len() - i,
    {
        assert(v@.take(i + 1).drop_last() =~= v@.take(i as int));
        let c = v[i];
        if c == '\\' || c == '#' || c == '*' || c == '_' || c == '`' || c == '$' || c == '<' || c == '>'
            || c == '@' || c == '[' || c == ']' || c == '(' || c == ')' || c == '{' || c == '}'
            || c == '~' || c == '/' || c == '=' || c == '-' || c == '+' || c == '.' || c == ':' {
            out.push('\\');
        }
        out.push(c);
        assert(out@ =~= typst_escaped(v@.take(i + 1)));
        i += 1;
    }
    assert(v@.take(v@.len() as int) =~= v@);
    out
}

/// The characters of a Typst string literal's body: backslash, quote,
/// newline, carriage return and tab escaped.
pub open spec fn typst_quoted(s: Seq<char>) -> Seq<char>
    decreases s.len(),
{
    if s.len() == 0 {
        s
    } else {
        let c = s.last();
        typst_quoted(s.drop_last()) + if c == '\\' {
            seq!['\\', '\\']
        } else if c == '"' {
            seq!['\\', '"']
        } else if c == '\n' {
            seq!['\\', 'n']
        } else if c == '\r' {
            seq!['\\', 'r']
        } else if c == '\t' {
            seq!['\\', 't']
        } else {
            seq![c]
        }
    }
}

/// A Typst string literal.
pub fn string_literal(text: &str) -> (r: String)
    ensures
        r@ == seq!['"'] + typst_quoted(text@) + seq!['"'],
{
    let v = crate::text::chars_of(text);
    let mut out = String::new();
    out.push('"');
    let mut i: usize = 0;
    while i < v.len()
        invariant
            i <= v.len(),
            out@ == seq!['"'] + typst_quoted(v@.take(i as int)),
        decreases v.len() - i,
    {
        assert(v@.take(i + 1).drop_last() =~= v@.take(i as int));
        let c = v[i];
        if c == '\\' {
            out.push('\\');
            out.push('\\');
        } else if c == '"' {
            out.push('\\');
            out.push('"');
        } else if c == '\n' {
            out.push('\\');
            out.push('n');
        } else if c == '\r' {
            out.push('\\');
            out.push('r');
        } else if c == '\t' {
            out.push('\\');
            out.push('t');
        } else {
            out.push(c);
        }
        assert(out@ =~= seq!['"'] + typst_quoted(v@.take(i + 1)));
        i += 1;
    }
    out.push('"');
    assert(v@.take(v@.len() as int) =~= v@);
    out
}

/// A container a Markdown event opens, as the exporters read it.
#[derive(Debug, Clone, PartialEq, Eq)]
pub enum MdTag {
    Paragraph,
    /// A heading of level 1 to 6.
    Heading(u8),
    BlockQuote,
    /// A code block with its info string (empty for an indented one).
    CodeBlock(String),
    /// A list; numbered from the given start, or bulleted.
    List(Option<u64>),
    Item,
    Emphasis,
    Strong,
    Strikethrough,
    /// A link: its destination, its title, and whether it is an email autolink.
    Link(String, String, bool),
    Image,
    /// A table with one alignment per column: `l`, `c`, `r`, or `-` for none.
    Table(String),
    TableHead,
    TableRow,
    TableCell,
    /// A footnote definition with its label.
    FootnoteDefinition(String),
    Other,
}

/// A container a Markdown event closes.
#[derive(Debug, Clone, Copy, PartialEq, Eq, Structural)]
pub enum MdTagEnd {
    Paragraph,
    /// A heading of level 1 to 6.
    Heading(u8),
    BlockQuote,
    CodeBlock,
    /// A list; `true` for a numbered one.
    List(bool),
    Item,
    Emphasis,
    Strong,
    Strikethrough,
    Link,
    Image,
    Table,
    TableHead,
    TableRow,
    TableCell,
    FootnoteDefinition,
    Other,
}

/// A Markdown parse event, as plain values.
#[derive(Debug, Clone, PartialEq, Eq)]
pub enum MdItem {
    Start(MdTag),
    End(MdTagEnd),
    Text(String),
    /// Inline code.
    Code(String),
    /// A block of raw HTML.
    Html(String),
    /// Raw HTML inside a paragraph.
    InlineHtml(String),
    /// A reference to the footnote with the given label.
    FootnoteReference(String),
    SoftBreak,
    HardBreak,
    /// A thematic break.
    Rule,
    Other,
}

/// What converting events carries along: one buffer per open table cell on
/// top of the document's, the tables being built with their column counts
/// and finished cells, the code block being collected, and how many
/// footnote definitions are being skipped.
pub struct TypstState {
    pub buffers: Seq<Seq<char>>,
    pub tables: Seq<(int, Seq<Seq<char>>)>,
    pub code: Option<Seq<char>>,
    pub discarding: int,
}

/// `st` with `s` appended to the innermost buffer; `None` when no buffer is left.
pub open spec fn written(st: TypstState, s: Seq<char>) -> Option<TypstState> {
    if st.buffers.len() == 0 {
        None
    } else {
        Some(TypstState { buffers: st.buffers.update(st.buffers.len() - 1, st.buffers.last() + s), ..st })
    }
}

/// `st` with the innermost buffer's trailing whitespace dropped and `s`
/// appended; `None` when no buffer is left.
pub open spec fn closed_with(st: TypstState, s: Seq<char>) -> Option<TypstState> {
    if st.buffers.len() == 0 {
        None
    } else {
        Some(TypstState {
            buffers: st.buffers.update(st.buffers.len() - 1, trim_end(st.buffers.last()) + s),
            ..st
        })
    }
}

/// A Typst string literal of `s`.
pub open spec fn typst_literal(s: Seq<char>) -> Seq<char> {
    seq!['"'] + typst_quoted(s) + seq!['"']
}

/// `s` without trailing line feeds.
pub open spec fn trim_end_newlines(s: Seq<char>) -> Seq<char>
    decreases s.len(),
{
    if s.len() > 0 && s.last() == '\n' {
        trim_end_newlines(s.drop_last())
    } else {
        s
    }
}

/// The text of a scene separator `<p class="separator">...</p>`, if `raw`
/// (trimmed) is one.
pub open spec fn separator_text(raw: Seq<char>) -> Option<Seq<char>> {
    let t = trim(raw);
    let p = "<p class=\"separator\">"@;
    let rest = t.skip(p.len() as int);
    if starts_with(t, p) && ends_with(rest, "</p>"@) {
        Some(rest.take(rest.len() - 4))
    } else {
        None
    }
}

/// The four HTML entities a separator's text may hold, decoded in turn.
pub open spec fn html_unescaped(s: Seq<char>) -> Seq<char> {
    replace_all(
        replace_all(replace_all(replace_all(s, "&quot;"@, "\""@), "&lt;"@, "<"@), "&gt;"@, ">"@),
        "&amp;"@,
        "&"@,
    )
}

/// Opening a container.
pub open spec fn typst_start(st: TypstState, tag: MdTag) -> Option<TypstState> {
    match tag {
        MdTag::Heading(l) => written(st, "#heading(level: "@ + decimal(l as nat) + ")["@),
        MdTag::BlockQuote => written(st, "#quote(block: true)["@),
        MdTag::CodeBlock(_) => Some(TypstState { code: Some(Seq::empty()), ..st }),
        MdTag::List(Some(n)) => written(st, "#enum(start: "@ + decimal(n as nat) + ", "@),
        MdTag::List(None) => written(st, "#list("@),
        MdTag::Item => written(st, "["@),
        MdTag::Emphasis => written(st, "#emph["@),
        MdTag::Strong => written(st, "#strong["@),
        MdTag::Strikethrough => written(st, "#strike["@),
        MdTag::Link(dest, _, _) => written(st, "#link("@ + typst_literal(dest@) + ")["@),
        MdTag::Table(a) => Some(TypstState {
            tables: st.tables.push((if a@.len() >= 1 { a@.len() as int } else { 1 }, Seq::empty())),
            ..st
        }),
        MdTag::TableCell => Some(TypstState { buffers: st.buffers.push(Seq::empty()), ..st }),
        MdTag::FootnoteDefinition(_) => Some(TypstState { discarding: 1, ..st }),
        _ => Some(st),
    }
}

/// Closing a container.
pub open spec fn typst_end(st: TypstState, tag: MdTagEnd) -> Option<TypstState> {
    match tag {
        MdTagEnd::Paragraph => written(st, "\n\n"@),
        MdTagEnd::Heading(_) => written(st, "]\n\n"@),
        MdTagEnd::BlockQuote => closed_with(st, "]\n\n"@),
        MdTagEnd::List(_) => written(st, ")\n\n"@),
        MdTagEnd::Item => closed_with(st, "], "@),
        MdTagEnd::Emphasis | MdTagEnd::Strong | MdTagEnd::Strikethrough | MdTagEnd::Link => written(st, "]"@),
        MdTagEnd::TableCell => {
            let cell = if st.buffers.len() > 0 { st.buffers.last() } else { Seq::empty() };
            let buffers = if st.buffers.len() > 0 { st.buffers.drop_last() } else { st.buffers };
            let tables = if st.tables.len() > 0 {
                st.tables.update(
                    st.tables.len() - 1,
                    (st.tables.last().0, st.tables.last().1.push("["@ + trim(cell) + "]"@)),
                )
            } else {
                st.tables
            };
            Some(TypstState { buffers, tables, ..st })
        },
        MdTagEnd::Table => if st.tables.len() > 0 {
            let (columns, cells) = st.tables.last();
            written(
                TypstState { tables: st.tables.drop_last(), ..st },
                "#table(columns: "@ + decimal(columns as nat) + ", "@ + join(cells, ", "@) + ")\n\n"@,
            )
        } else {
            Some(st)
        },
        _ => Some(st),
    }
}

/// One event's effect; `None` where it would write with no buffer left.
pub open spec fn typst_step(st: TypstState, item: MdItem) -> Option<TypstState> {
    if st.discarding > 0 {
        match item {
            MdItem::Start(MdTag::FootnoteDefinition(_)) => Some(TypstState { discarding: st.discarding + 1, ..st }),
            MdItem::End(MdTagEnd::FootnoteDefinition) => Some(TypstState { discarding: st.discarding - 1, ..st }),
            _ => Some(st),
        }
    } else if st.code is Some {
        let code = st.code->0;
        match item {
            MdItem::Text(t) => Some(TypstState { code: Some(code + t@), ..st }),
            MdItem::End(MdTagEnd::CodeBlock) => written(
                TypstState { code: None, ..st },
                "#raw(block: true, "@ + typst_literal(trim_end_newlines(code)) + ")\n\n"@,
            ),
            _ => Some(st),
        }
    } else {
        match item {
            MdItem::Start(tag) => typst_start(st, tag),
            MdItem::End(tag) => typst_end(st, tag),
            MdItem::Text(t) => written(st, typst_escaped(t@)),
            MdItem::Code(c) => written(st, "#raw("@ + typst_literal(c@) + ")"@),
            MdItem::Html(raw) | MdItem::InlineHtml(raw) => match separator_text(raw@) {
                Some(inner) => written(st, "#separator["@ + typst_escaped(html_unescaped(inner)) + "]\n\n"@),
                None => Some(st),
            },
            MdItem::SoftBreak => written(st, " "@),
            MdItem::HardBreak => written(st, "#linebreak()"@),
            MdItem::Rule => written(st, "#separator[\\*~\\*~\\*]\n\n"@),
            MdItem::FootnoteReference(_) | MdItem::Other => Some(st),
        }
    }
}

pub open spec fn typst_initial() -> TypstState {
    TypstState { buffers: seq![Seq::empty()], tables: Seq::empty(), code: None, discarding: 0 }
}

/// The state after `items[..n]`; `None` once an event would write with no
/// buffer left.
pub open spec fn typst_run(items: Seq<MdItem>, n: int) -> Option<TypstState>
    decreases n,
{
    if n <= 0 {
        Some(typst_initial())
    } else {
        match typst_run(items, n - 1) {
            Some(st) => typst_step(st, items[n - 1]),
            None => None,
        }
    }
}

/// The Typst markup of `items`: the document buffer at the end.
pub open spec fn typst_of(items: Seq<MdItem>) -> Seq<char> {
    match typst_run(items, items.len() as int) {
        Some(st) => if st.buffers.len() > 0 { st.buffers[0] } else { Seq::empty() },
        None => Seq::empty(),
    }
}

pub open spec fn string_views(v: Seq<String>) -> Seq<Seq<char>> {
    v.map_values(|s: String| s@)
}

/// Joins `parts` with `sep` between neighbours.
pub(crate) fn join_strings(parts: &Vec<String>, sep: &str) -> (r: String)
    ensures
        r@ == join(string_views(parts@), sep@),
{
    let mut out = String::new();
    let mut i: usize = 0;
    assert(string_views(parts@).take(0) =~= Seq::<Seq<char>>::empty());
    while i < parts.len()
        invariant
            i <= parts@.len(),
            out@ == join(string_views(parts@).take(i as int), sep@),
        decreases parts.len() - i,
    {
        let ghost before = string_views(parts@).take(i as int);
        proof {
            crate::text::lemma_join_push(before, parts@[i as int]@, sep@);
        }
        assert(string_views(parts@).take(i + 1) =~= before.push(parts@[i as int]@));
        if i > 0 {
            crate::text::push_str(&mut out, sep);
        }
        crate::text::push_str(&mut out, parts[i].as_str());
        i += 1;
    }
    assert(string_views(parts@).take(i as int) =~= string_views(parts@));
    out
}

/// `text` without trailing line feeds.
pub(crate) fn trimmed_newlines(text: &str) -> (r: String)
    ensures
        r@ == trim_end_newlines(text@),
{
    let v = crate::text::chars_of(text);
    let mut hi = v.len();
    assert(v@.subrange(0, hi as int) =~= v@);
    while hi > 0 && v[hi - 1] == '\n'
        invariant
            hi <= v@.len(),
            trim_end_newlines(text@) == trim_end_newlines(v@.subrange(0, hi as int)),
            v@ == text@,
        decreases hi,
    {
        assert(v@.subrange(0, hi as int).drop_last() =~= v@.subrange(0, hi - 1));
        hi -= 1;
    }
    crate::text::string_of(&v, 0, hi)
}

/// The text of a scene separator, if `raw` is one.
pub(crate) fn separator_of(raw: &str) -> (r: Option<String>)
    ensures
        match r {
            Some(t) => separator_text(raw@) == Some(t@),
            None => separator_text(raw@) is None,
        },
{
    let t = crate::text::trimmed(raw);
    let v = crate::text::chars_of(t.as_str());
    let p = crate::text::chars_of("<p class=\"separator\">");
    let q = crate::text::chars_of("</p>");
    proof {
        reveal_strlit("</p>");
    }
    if !crate::text::has_prefix(&v, &p) {
        return None;
    }
    let rest = crate::text::string_of(&v, p.len(), v.len());
    let w = crate::text::chars_of(rest.as_str());
    assert(w@ =~= v@.skip(p@.len() as int));
    if !crate::text::has_suffix(&w, &q) {
        return None;
    }
    let inner = crate::text::string_of(&w, 0, w.len() - 4);
    assert(inner@ =~= w@.take(w@.len() - 4));
    Some(inner)
}

/// `s` with `&quot;`, `&lt;`, `&gt;` and `&amp;` decoded in turn.
pub(crate) fn unescape_html(s: &str) -> (r: String)
    ensures
        r@ == html_unescaped(s@),
{
    proof {
        reveal_strlit("&quot;");
        reveal_strlit("&lt;");
        reveal_strlit("&gt;");
        reveal_strlit("&amp;");
    }
    let a = crate::text::replace(s, "&quot;", "\"");
    let b = crate::text::replace(a.as_str(), "&lt;", "<");
    let c = crate::text::replace(b.as_str(), "&gt;", ">");
    crate::text::replace(c.as_str(), "&amp;", "&")
}

/// The converter's working state.
struct Typst {
    buffers: Vec<String>,
    tables: Vec<(usize, Vec<String>)>,
    code: Option<String>,
    discarding: usize,
}

pub open spec fn table_views(t: Seq<(usize, Vec<String>)>) -> Seq<(int, Seq<Seq<char>>)> {
    t.map_values(|e: (usize, Vec<String>)| (e.0 as int, string_views(e.1@)))
}

impl Typst {
    spec fn view(&self) -> TypstState {
        TypstState {
            buffers: string_views(self.buffers@),
            tables: table_views(self.tables@),
            code: match self.code {
                Some(c) => Some(c@),
                None => None,
            },
            discarding: self.discarding as int,
        }
    }

    fn write(&mut self, s: &str)
        requires
            old(self).buffers@.len() > 0,
        ensures
            written(old(self).view(), s@) == Some(final(self).view()),
            final(self).buffers@.len() == old(self).buffers@.len(),
            final(self).discarding == old(self).discarding,
    {
        let ghost before = string_views(self.buffers@);
        let mut top = self.buffers.pop().unwrap();
        crate::text::push_str(&mut top, s);
        self.buffers.push(top);
        assert(string_views(self.buffers@) =~= before.update(before.len() - 1, before.last() + s@));
    }

    fn close_with(&mut self, s: &str)
        requires
            old(self).buffers@.len() > 0,
        ensures
            closed_with(old(self).view(), s@) == Some(final(self).view()),
            final(self).discarding == old(self).discarding,
    {
        let ghost before = string_views(self.buffers@);
        let top = self.buffers.pop().unwrap();
        let v = crate::text::chars_of(top.as_str());
        let hi = crate::text::skip_ws_back(&v, 0, v.len());
        assert(v@.subrange(0, v@.len() as int) =~= v@);
        let mut t = crate::text::string_of(&v, 0, hi);
        crate::text::push_str(&mut t, s);
        self.buffers.push(t);
        assert(string_views(self.buffers@) =~= before.update(before.len() - 1, trim_end(before.last()) + s@));
    }

    fn start(&mut self, tag: &MdTag)
        requires
            old(self).discarding == 0,
            old(self).code is None,
            typst_start(old(self).view(), *tag) is Some,
        ensures
            typst_start(old(self).view(), *tag) == Some(final(self).view()),
            final(self).discarding <= 1,
    {
        match tag {
            MdTag::Heading(l) => {
                let mut piece = String::new();
                crate::text::push_str(&mut piece, "#heading(level: ");
                crate::text::push_decimal(&mut piece, *l as u64);
                crate::text::push_str(&mut piece, ")[");
                assert(piece@ =~= "#heading(level: "@ + decimal(*l as nat) + ")["@);
                self.write(piece.as_str());
            },
            MdTag::BlockQuote => self.write("#quote(block: true)["),
            MdTag::CodeBlock(_) => {
                self.code = Some(String::new());
            },
            MdTag::List(Some(n)) => {
                let mut piece = String::new();
                crate::text::push_str(&mut piece, "#enum(start: ");
                crate::text::push_decimal(&mut piece, *n);
                crate::text::push_str(&mut piece, ", ");
                assert(piece@ =~= "#enum(start: "@ + decimal(*n as nat) + ", "@);
                self.write(piece.as_str());
            },
            MdTag::List(None) => self.write("#list("),
            MdTag::Item => self.write("["),
            MdTag::Emphasis => self.write("#emph["),
            MdTag::Strong => self.write("#strong["),
            MdTag::Strikethrough => self.write("#strike["),
            MdTag::Link(dest, _, _) => {
                let mut piece = String::new();
                crate::text::push_str(&mut piece, "#link(");
                let lit = string_literal(dest.as_str());
                crate::text::push_str(&mut piece, lit.as_str());
                crate::text::push_str(&mut piece, ")[");
                assert(piece@ =~= "#link("@ + typst_literal(dest@) + ")["@);
                self.write(piece.as_str());
            },
            MdTag::Table(a) => {
                let n = crate::text::chars_of(a.as_str()).len();
                let columns = if n >= 1 { n } else { 1 };
                let ghost before = table_views(self.tables@);
                let cells: Vec<String> = Vec::new();
                assert(string_views(cells@) =~= Seq::<Seq<char>>::empty());
                self.tables.push((columns, cells));
                assert(table_views(self.tables@) =~= before.push((columns as int, Seq::empty())));
            },
            MdTag::TableCell => {
                let ghost before = string_views(self.buffers@);
                self.buffers.push(String::new());
                assert(string_views(self.buffers@) =~= before.push(Seq::empty()));
            },
            MdTag::FootnoteDefinition(_) => {
                self.discarding = 1;
            },
            _ => {},
        }
    }

    fn end(&mut self, tag: MdTagEnd)
        requires
            old(self).discarding == 0,
            old(self).code is None,
            typst_end(old(self).view(), tag) is Some,
        ensures
            typst_end(old(self).view(), tag) == Some(final(self).view()),
            final(self).discarding == 0,
    {
        match tag {
            MdTagEnd::Paragraph => self.write("\n\n"),
            MdTagEnd::Heading(_) => self.write("]\n\n"),
            MdTagEnd::BlockQuote => self.close_with("]\n\n"),
            MdTagEnd::List(_) => self.write(")\n\n"),
            MdTagEnd::Item => self.close_with("], "),
            MdTagEnd::Emphasis | MdTagEnd::Strong | MdTagEnd::Strikethrough | MdTagEnd::Link => self.write("]"),
            MdTagEnd::TableCell => {
                let ghost st = self.view();
                let cell = if self.buffers.len() > 0 {
                    let ghost before = string_views(self.buffers@);
                    let c = self.buffers.pop().unwrap();
                    assert(string_views(self.buffers@) =~= before.drop_last());
                    c
                } else {
                    String::new()
                };
                assert(cell@ == (if st.buffers.len() > 0 { st.buffers.last() } else { Seq::<char>::empty() }));
                if self.tables.len() > 0 {
                    let ghost before = table_views(self.tables@);
                    let (columns, mut cells) = self.tables.pop().unwrap();
                    let mut piece = String::new();
                    crate::text::push_str(&mut piece, "[");
                    let t = crate::text::trimmed(cell.as_str());
                    crate::text::push_str(&mut piece, t.as_str());
                    crate::text::push_str(&mut piece, "]");
                    let ghost cells_before = string_views(cells@);
                    cells.push(piece);
                    assert(string_views(cells@) =~= cells_before.push("["@ + trim(cell@) + "]"@));
                    self.tables.push((columns, cells));
                    assert(table_views(self.tables@) =~= before.update(
                        before.len() - 1,
                        (before.last().0, before.last().1.push("["@ + trim(cell@) + "]"@)),
                    ));
                }
            },
            MdTagEnd::Table => {
                if self.tables.len() > 0 {
                    let ghost before = table_views(self.tables@);
                    let (columns, cells) = self.tables.pop().unwrap();
                    assert(table_views(self.tables@) =~= before.drop_last());
                    let mut piece = String::new();
                    crate::text::push_str(&mut piece, "#table(columns: ");
                    crate::text::push_decimal(&mut piece, columns as u64);
                    crate::text::push_str(&mut piece, ", ");
                    let joined = join_strings(&cells, ", ");
                    crate::text::push_str(&mut piece, joined.as_str());
                    crate::text::push_str(&mut piece, ")\n\n");
                    assert(piece@ =~= "#table(columns: "@ + decimal(columns as nat) + ", "@ + join(
                        string_views(cells@),
                        ", "@,
                    ) + ")\n\n"@);
                    self.write(piece.as_str());
                }
            },
            _ => {},
        }
    }

    /// Whether `item` would write with no buffer left.
    fn step_fails(&self, item: &MdItem) -> (r: bool)
        ensures
            r == (typst_step(self.view(), *item) is None),
    {
        if self.discarding > 0 {
            return false;
        }
        let empty = self.buffers.len() == 0;
        if self.code.is_some() {
            return match item {
                MdItem::End(MdTagEnd::CodeBlock) => empty,
                _ => false,
            };
        }
        match item {
            MdItem::Start(tag) => match tag {
                MdTag::Heading(_) | MdTag::BlockQuote | MdTag::List(_) | MdTag::Item | MdTag::Emphasis
                | MdTag::Strong | MdTag::Strikethrough | MdTag::Link(..) => empty,
                _ => false,
            },
            MdItem::End(tag) => match tag {
                MdTagEnd::Paragraph | MdTagEnd::Heading(_) | MdTagEnd::BlockQuote | MdTagEnd::List(_) | MdTagEnd::Item
                | MdTagEnd::Emphasis | MdTagEnd::Strong | MdTagEnd::Strikethrough | MdTagEnd::Link => empty,
                MdTagEnd::Table => empty && self.tables.len() > 0,
                _ => false,
            },
            MdItem::Text(_) | MdItem::Code(_) | MdItem::SoftBreak | MdItem::HardBreak | MdItem::Rule => empty,
            MdItem::Html(raw) | MdItem::InlineHtml(raw) => empty && separator_of(raw.as_str()).is_some(),
            MdItem::FootnoteReference(_) | MdItem::Other => false,
        }
    }

    fn step(&mut self, item: &MdItem)
        requires
            typst_step(old(self).view(), *item) is Some,
            old(self).discarding < usize::MAX,
        ensures
            typst_step(old(self).view(), *item) == Some(final(self).view()),
            final(self).discarding <= old(self).discarding + 1,
    {
        if self.discarding > 0 {
            match item {
                MdItem::Start(MdTag::FootnoteDefinition(_)) => {
                    self.discarding = self.discarding + 1;
                },
                MdItem::End(MdTagEnd::FootnoteDefinition) => {
                    self.discarding = self.discarding - 1;
                },
                _ => {},
            }
            return;
        }
        if self.code.is_some() {
            let mut code = String::new();
            match &self.code {
                Some(c) => {
                    code = c.clone();
                },
                None => {},
            }
            match item {
                MdItem::Text(t) => {
                    crate::text::push_str(&mut code, t.as_str());
                    self.code = Some(code);
                },
                MdItem::End(MdTagEnd::CodeBlock) => {
                    self.code = None;
                    let mut piece = String::new();
                    crate::text::push_str(&mut piece, "#raw(block: true, ");
                    let body = trimmed_newlines(code.as_str());
                    let lit = string_literal(body.as_str());
                    crate::text::push_str(&mut piece, lit.as_str());
                    crate::text::push_str(&mut piece, ")\n\n");
                    assert(piece@ =~= "#raw(block: true, "@ + typst_literal(trim_end_newlines(code@)) + ")\n\n"@);
                    self.write(piece.as_str());
                },
                _ => {},
            }
            return;
        }
        match item {
            MdItem::Start(tag) => self.start(tag),
            MdItem::End(tag) => self.end(*tag),
            MdItem::Text(t) => {
                let e = escape_text(t.as_str());
                self.write(e.as_str());
            },
            MdItem::Code(c) => {
                let mut piece = String::new();
                crate::text::push_str(&mut piece, "#raw(");
                let lit = string_literal(c.as_str());
                crate::text::push_str(&mut piece, lit.as_str());
                crate::text::push_str(&mut piece, ")");
                assert(piece@ =~= "#raw("@ + typst_literal(c@) + ")"@);
                self.write(piece.as_str());
            },
            MdItem::Html(raw) | MdItem::InlineHtml(raw) => {
                match separator_of(raw.as_str()) {
                    Some(inner) => {
                        let mut piece = String::new();
                        crate::text::push_str(&mut piece, "#separator[");
                        let text = unescape_html(inner.as_str());
                        let e = escape_text(text.as_str());
                        crate::text::push_str(&mut piece, e.as_str());
                        crate::text::push_str(&mut piece, "]\n\n");
                        assert(piece@ =~= "#separator["@ + typst_escaped(html_unescaped(inner@)) + "]\n\n"@);
                        self.write(piece.as_str());
                    },
                    None => {},
                }
            },
            MdItem::SoftBreak => self.write(" "),
            MdItem::HardBreak => self.write("#linebreak()"),
            MdItem::Rule => self.write("#separator[\\*~\\*~\\*]\n\n"),
            MdItem::FootnoteReference(_) | MdItem::Other => {},
        }
    }
}

/// Once a run has stopped, it stays stopped.
pub proof fn lemma_typst_run_some(items: Seq<MdItem>, a: int, b: int)
    requires
        0 <= a <= b,
        typst_run(items, b) is Some,
    ensures
        typst_run(items, a) is Some,
    decreases b - a,
{
    if a < b {
        lemma_typst_run_some(items, a, b - 1);
    }
}

/// Converts cleaned Markdown events into Typst markup. Nested constructs
/// build into their own buffer and are wrapped when they close.
pub fn events_to_typst(events: Vec<MdItem>) -> (r: String)
    requires
        typst_run(events@, events@.len() as int) is Some,
    ensures
        r@ == typst_of(events@),
{
    let mut st = Typst { buffers: Vec::new(), tables: Vec::new(), code: None, discarding: 0 };
    st.buffers.push(String::new());
    assert(st.view() == typst_initial()) by {
        assert(string_views(st.buffers@) =~= seq![Seq::<char>::empty()]);
        assert(table_views(st.tables@) =~= Seq::<(int, Seq<Seq<char>>)>::empty());
    }
    let mut i: usize = 0;
    while i < events.len()
        invariant
            i <= events@.len(),
            typst_run(events@, events@.len() as int) is Some,
            typst_run(events@, i as int) == Some(st.view()),
            st.discarding <= i,
        decreases events.len() - i,
    {
        proof {
            lemma_typst_run_some(events@, i + 1, events@.len() as int);
        }
        st.step(&events[i]);
        i += 1;
    }
    if st.buffers.len() > 0 {
        st.buffers[0].clone()
    } else {
        String::new()
    }
}

/// Page, text and paragraph setup ends here; the styles follow.
pub const STYLE_RULES: &'static str = "#show raw: set text(font: \"DejaVu Sans Mono\", size: 0.85em)\n#let breathe(body) = { v(0.6em); body; v(0.6em) }\n#show quote.where(block: true): it => pad(x: 2em, text(style: \"italic\", it.body))\n#show list: breathe\n#show enum: breathe\n#show table: breathe\n#show raw.where(block: true): breathe\n#show heading: it => block(above: 2em, below: 1em, sticky: true, text(weight: \"regular\", size: 1.2em, it.body))\n#show heading.where(level: 1): it => {\n  ";

/// What closes the chapter heading style, and the scene separator.
pub const STYLE_END: &'static str = "\n  v(12%)\n  align(center, text(size: 1.9em, weight: \"regular\", it.body))\n  v(2.5em)\n}\n#let separator(body) = block(width: 100%, inset: (y: 0.6em), align(center, body))\n";

/// The page, font and heading setup of a layout.
pub open spec fn setup_text(layout: PdfLayout) -> Seq<char> {
    let paper = match layout.page_size {
        PageSize::A4 => "a4"@,
        PageSize::Letter => "us-letter"@,
    };
    let (font, size, leading, spacing, justify) = if layout.manuscript {
        ("(\"Times New Roman\", \"Libertinus Serif\")"@, "12pt"@, "1.5em"@, "1.5em"@, "false"@)
    } else {
        ("(\"Libertinus Serif\", \"New Computer Modern\")"@, "11pt"@, "0.7em"@, "0.7em"@, "true"@)
    };
    let chapter_break = if layout.chapter_page_breaks { "pagebreak(weak: true)"@ } else { "v(2em)"@ };
    "#set document(title: "@ + typst_literal(layout.title@) + ", author: "@ + typst_literal(layout.author@)
        + ")\n#set page(paper: \""@ + paper
        + "\", margin: (x: 2.5cm, y: 2.5cm), numbering: \"1\", number-align: center)\n#set text(font: "@ + font
        + ", size: "@ + size + ", lang: "@ + typst_literal(layout.lang@) + ", hyphenate: "@ + (if layout.manuscript {
        "false"@
    } else {
        "true"@
    }) + ")\n#set par(justify: "@ + justify + ", leading: "@ + leading + ", spacing: "@ + spacing
        + ", first-line-indent: (amount: 1.5em, all: false))\n"@ + STYLE_RULES@ + chapter_break + STYLE_END@
}

/// The title page, when the layout has a title.
pub open spec fn title_page(layout: PdfLayout) -> Seq<char> {
    if trim(layout.title@).len() == 0 {
        Seq::empty()
    } else {
        "#page(numbering: none)[#v(30%)#align(center)[#text(size: 3.2em)["@ + typst_escaped(trim(layout.title@))
            + "]"@ + (if trim(layout.author@).len() > 0 {
            "#v(1.5em)#text(size: 1.3em, style: \"italic\")["@ + typst_escaped(trim(layout.author@)) + "]"@
        } else {
            Seq::empty()
        }) + "]]\n#counter(page).update(1)\n\n"@
    }
}

/// The running head, when the layout has one.
pub open spec fn running_head_setup(layout: PdfLayout) -> Seq<char> {
    match layout.running_head {
        Some(head) => "#set page(header: align(right, text(size: 0.9em)["@ + (if head@.len() == 0 {
            Seq::empty()
        } else {
            typst_escaped(head@) + " / "@
        }) + "#context counter(page).display()]), footer: none)\n"@,
        None => Seq::empty(),
    }
}

/// The contents page, when the layout asks for one.
pub open spec fn contents_page(layout: PdfLayout) -> Seq<char> {
    match layout.toc_depth {
        Some(depth) => "#page[#align(center, text(size: 1.6em)[Contents])#v(1.5em)#outline(title: none, depth: "@
            + decimal(depth as nat) + ")]\n\n"@,
        None => Seq::empty(),
    }
}

/// Page setup, fonts and heading styles, then the title page, the running
/// head, the front matter and the contents.
pub open spec fn preamble_text(layout: PdfLayout) -> Seq<char> {
    setup_text(layout) + title_page(layout) + running_head_setup(layout) + layout.front@ + contents_page(layout)
}

/// Page setup, fonts and heading styles, followed by the title page.
pub fn preamble(layout: &PdfLayout) -> (r: String)
    ensures
        r@ == preamble_text(*layout),
{
    let paper = match layout.page_size {
        PageSize::A4 => "a4",
        PageSize::Letter => "us-letter",
    };
    let (font, size, leading, spacing, justify) = if layout.manuscript {
        ("(\"Times New Roman\", \"Libertinus Serif\")", "12pt", "1.5em", "1.5em", "false")
    } else {
        ("(\"Libertinus Serif\", \"New Computer Modern\")", "11pt", "0.7em", "0.7em", "true")
    };
    let chapter_break = if layout.chapter_page_breaks { "pagebreak(weak: true)" } else { "v(2em)" };
    let mut out = String::new();
    crate::text::push_str(&mut out, "#set document(title: ");
    let title_lit = string_literal(layout.title);
    crate::text::push_str(&mut out, title_lit.as_str());
    crate::text::push_str(&mut out, ", author: ");
    let author_lit = string_literal(layout.author);
    crate::text::push_str(&mut out, author_lit.as_str());
    crate::text::push_str(&mut out, ")\n#set page(paper: \"");
    crate::text::push_str(&mut out, paper);
    crate::text::push_str(&mut out, "\", margin: (x: 2.5cm, y: 2.5cm), numbering: \"1\", number-align: center)\n#set text(font: ");
    crate::text::push_str(&mut out, font);
    crate::text::push_str(&mut out, ", size: ");
    crate::text::push_str(&mut out, size);
    crate::text::push_str(&mut out, ", lang: ");
    let lang_lit = string_literal(layout.lang);
    crate::text::push_str(&mut out, lang_lit.as_str());
    crate::text::push_str(&mut out, ", hyphenate: ");
    crate::text::push_str(&mut out, if layout.manuscript { "false" } else { "true" });
    crate::text::push_str(&mut out, ")\n#set par(justify: ");
    crate::text::push_str(&mut out, justify);
    crate::text::push_str(&mut out, ", leading: ");
    crate::text::push_str(&mut out, leading);
    crate::text::push_str(&mut out, ", spacing: ");
    crate::text::push_str(&mut out, spacing);
    crate::text::push_str(&mut out, ", first-line-indent: (amount: 1.5em, all: false))\n");
    crate::text::push_str(&mut out, STYLE_RULES);
    crate::text::push_str(&mut out, chapter_break);
    crate::text::push_str(&mut out, STYLE_END);
    assert(out@ =~= setup_text(*layout));
    let ghost after_setup = out@;
    let title = crate::text::trimmed(layout.title);
    if !title.as_str().is_empty() {
        crate::text::push_str(&mut out, "#page(numbering: none)[#v(30%)#align(center)[#text(size: 3.2em)[");
        let t = escape_text(title.as_str());
        crate::text::push_str(&mut out, t.as_str());
        crate::text::push_str(&mut out, "]");
        let author = crate::text::trimmed(layout.author);
        if !author.as_str().is_empty() {
            crate::text::push_str(&mut out, "#v(1.5em)#text(size: 1.3em, style: \"italic\")[");
            let a = escape_text(author.as_str());
            crate::text::push_str(&mut out, a.as_str());
            crate::text::push_str(&mut out, "]");
        }
        crate::text::push_str(&mut out, "]]\n#counter(page).update(1)\n\n");
    }
    assert(out@ =~= after_setup + title_page(*layout));
    let ghost after_title = out@;
    match &layout.running_head {
        Some(head) => {
            crate::text::push_str(&mut out, "#set page(header: align(right, text(size: 0.9em)[");
            if !head.as_str().is_empty() {
                let h = escape_text(head.as_str());
                crate::text::push_str(&mut out, h.as_str());
                crate::text::push_str(&mut out, " / ");
            }
            crate::text::push_str(&mut out, "#context counter(page).display()]), footer: none)\n");
        },
        None => {},
    }
    assert(out@ =~= after_title + running_head_setup(*layout));
    crate::text::push_str(&mut out, layout.front);
    let ghost after_front = out@;
    match layout.toc_depth {
        Some(depth) => {
            crate::text::push_str(&mut out, "#page[#align(center, text(size: 1.6em)[Contents])#v(1.5em)#outline(title: none, depth: ");
            crate::text::push_decimal(&mut out, depth as u64);
            crate::text::push_str(&mut out, ")]\n\n");
        },
        None => {},
    }
    assert(out@ =~= after_front + contents_page(*layout));
    out
}

/// Once a run has stopped, it stays stopped.
pub proof fn lemma_typst_run_none(items: Seq<MdItem>, a: int, b: int)
    requires
        0 <= a <= b,
        typst_run(items, a) is None,
    ensures
        typst_run(items, b) is None,
    decreases b - a,
{
    if a < b {
        lemma_typst_run_none(items, a, b - 1);
    }
}

/// `events_to_typst` where it can run: `None` when some event would write
/// after every buffer was closed (a table cell closed that was not opened).
pub fn try_events_to_typst(events: Vec<MdItem>) -> (r: Option<String>)
    ensures
        match r {
            Some(t) => typst_run(events@, events@.len() as int) is Some && t@ == typst_of(events@),
            None => typst_run(events@, events@.len() as int) is None,
        },
{
    let mut st = Typst { buffers: Vec::new(), tables: Vec::new(), code: None, discarding: 0 };
    st.buffers.push(String::new());
    assert(st.view() == typst_initial()) by {
        assert(string_views(st.buffers@) =~= seq![Seq::<char>::empty()]);
        assert(table_views(st.tables@) =~= Seq::<(int, Seq<Seq<char>>)>::empty());
    }
    let mut i: usize = 0;
    while i < events.len()
        invariant
            i <= events@.len(),
            typst_run(events@, i as int) == Some(st.view()),
            st.discarding <= i,
        decreases events.len() - i,
    {
        if st.step_fails(&events[i]) {
            proof {
                lemma_typst_run_none(events@, i + 1, events@.len() as int);
            }
            return None;
        }
        st.step(&events[i]);
        i += 1;
    }
    if st.buffers.len() > 0 {
        Some(st.buffers[0].clone())
    } else {
        Some(String::new())
    }
}

/// A number's decimal digits are all digits, and read back as the number.
proof fn lemma_decimal_reads_back(n: nat)
    ensures
        decimal(n).len() > 0,
        forall|i: int| 0 <= i < decimal(n).len() ==> crate::rtf::is_digit(#[trigger] decimal(n)[i]),
        crate::rtf::digits_value(decimal(n)) == n,
    decreases n,
{
    let d = crate::text::digit(n % 10);
    assert(d as int - '0' as int == n % 10 && crate::rtf::is_digit(d));
    if n < 10 {
        let s = decimal(n);
        assert(s.drop_last() =~= Seq::<char>::empty());
        assert(s.last() == d);
        assert(crate::rtf::digits_value(s.drop_last()) == 0);
        assert(crate::rtf::digits_value(s) == crate::rtf::digits_value(s.drop_last()) * 10 + (s.last() as int
            - '0' as int));
    } else {
        lemma_decimal_reads_back(n / 10);
        let s = decimal(n);
        assert(s.drop_last() =~= decimal(n / 10));
        assert(s.last() == d);
        assert forall|i: int| 0 <= i < s.len() implies crate::rtf::is_digit(#[trigger] s[i]) by {
            if i < s.len() - 1 {
                assert(s[i] == decimal(n / 10)[i]);
            }
        }
        assert(crate::rtf::digits_value(s) == crate::rtf::digits_value(s.drop_last()) * 10 + (s.last() as int
            - '0' as int));
        assert(crate::rtf::digits_value(s) == (n / 10) * 10 + n % 10);
        assert(n == (n / 10) * 10 + n % 10);
    }
}

/// A Markdown heading opens a Typst heading of the same level: the event
/// appends `#heading(level: ` to the text being written, then digits that
/// read back as the Markdown level, then `)[`, and changes nothing else.
pub proof fn law_heading_keeps_level(st: TypstState, level: u8)
    requires
        st.discarding == 0,
        st.code is None,
        st.buffers.len() > 0,
    ensures
        typst_step(st, MdItem::Start(MdTag::Heading(level))) matches Some(st2) && {
            let before = st.buffers.last();
            let after = st2.buffers.last();
            let w = after.skip(before.len() as int);
            &&& st2.buffers.len() == st.buffers.len()
            &&& st2.buffers.drop_last() == st.buffers.drop_last()
            &&& st2.tables == st.tables && st2.code == st.code && st2.discarding == st.discarding
            &&& after.take(before.len() as int) == before
            &&& w.len() > 18
            &&& w.take(16) == "#heading(level: "@
            &&& w.skip(w.len() - 2) == ")["@
            &&& forall|i: int| 16 <= i < w.len() - 2 ==> crate::rtf::is_digit(#[trigger] w[i])
            &&& crate::rtf::digits_value(w.subrange(16, w.len() - 2)) == level
        },
{
    reveal_strlit("#heading(level: ");
    reveal_strlit(")[");
    lemma_decimal_reads_back(level as nat);
    let d = decimal(level as nat);
    let w0 = "#heading(level: "@ + d + ")["@;
    let st2 = typst_step(st, MdItem::Start(MdTag::Heading(level))).unwrap();
    let before = st.buffers.last();
    let after = st2.buffers.last();
    assert(after == before + w0);
    let w = after.skip(before.len() as int);
    assert(w =~= w0);
    assert(after.take(before.len() as int) =~= before);
    assert(st2.buffers.drop_last() =~= st.buffers.drop_last());
    assert(w.take(16) =~= "#heading(level: "@);
    assert(w.skip(w.len() - 2) =~= ")["@);
    assert(w.subrange(16, w.len() - 2) =~= d);
    assert forall|i: int| 16 <= i < w.len() - 2 implies crate::rtf::is_digit(#[trigger] w[i]) by {
        assert(w[i] == d[i - 16]);
    }
}

} // verus!
