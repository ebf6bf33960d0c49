//! The Word document an export writes, as plain values: which paragraphs
//! and runs Markdown events become. Turning them into a `.docx` file is the
//! renderer's part; every decision about what goes where is made here.

use vstd::prelude::*;
use crate::export::{compiled_parts, demoted, entry_views, line_bounds, lines_of, slash_joined, last_word, toc, part_views, uppercase, ExportRequest, MatterKind, MatterStyle};
use crate::book::{manuscript_body, matter_body, Book, Matter};
use crate::text::trim;
use crate::export_events::{clean_markdown, cleaned, export_md_items, item_view, item_views, MdItemView, MdTagView};
use crate::pdf::{html_unescaped, separator_of, separator_text, trim_end_newlines, trimmed_newlines, unescape_html, MdItem, MdTag, MdTagEnd};

verus! {

/// A run of text: its text and how it is set.
#[derive(Debug, Clone, PartialEq, Eq)]
pub enum DocxRun {
    /// Text, bold, italic, struck through, in the code font, or small (the
    /// size of a small matter page) as marked.
    Text { text: String, bold: bool, italic: bool, strike: bool, code: bool, small: bool },
    /// A tab, between table cells.
    Tab,
    /// A line break inside the paragraph.
    LineBreak,
}

pub enum DocxRunView {
    Text { text: Seq<char>, bold: bool, italic: bool, strike: bool, code: bool, small: bool },
    Tab,
    LineBreak,
}

pub open spec fn run_view(r: DocxRun) -> DocxRunView {
    match r {
        DocxRun::Text { text, bold, italic, strike, code, small } => DocxRunView::Text {
            text: text@,
            bold,
            italic,
            strike,
            code,
            small,
        },
        DocxRun::Tab => DocxRunView::Tab,
        DocxRun::LineBreak => DocxRunView::LineBreak,
    }
}

pub open spec fn run_views(rs: Seq<DocxRun>) -> Seq<DocxRunView> {
    rs.map_values(|r: DocxRun| run_view(r))
}

/// A paragraph of the document.
#[derive(Debug, Clone, PartialEq, Eq)]
pub enum DocxPara {
    /// A heading in the style `Heading{level}`, kept with the next
    /// paragraph, starting a new page when asked.
    Heading { level: u8, page_break_before: bool, runs: Vec<DocxRun> },
    /// Body text, indented half an inch per open quote and list, in italics
    /// inside a quote, laid out as the matter page it is on (if any) asks.
    Body { quote_depth: usize, list_depth: usize, matter: Option<MatterStyle>, runs: Vec<DocxRun> },
    /// One line of a code block, in the code font.
    Code(String),
    /// A centered line: a scene separator.
    Centered(String),
    /// A page break.
    PageBreak,
    /// The book's title on the title page: centered and large, bold unless
    /// in manuscript format.
    Title { text: String, bold: bool },
    /// The author's name under the title, centered, in italics.
    Author(String),
    /// The heading of a matter page: centered, large, kept with its text.
    MatterHeading(String),
    /// Space that sets a centered matter page a third of the way down.
    MatterSpace,
    /// A table of contents titled "Contents", over headings down to `depth`,
    /// listing each entry as (level, text).
    Contents { depth: usize, entries: Vec<(usize, String)> },
}

pub enum DocxParaView {
    Heading { level: u8, page_break_before: bool, runs: Seq<DocxRunView> },
    Body { quote_depth: usize, list_depth: usize, matter: Option<MatterStyle>, runs: Seq<DocxRunView> },
    Code(Seq<char>),
    Centered(Seq<char>),
    PageBreak,
    Title { text: Seq<char>, bold: bool },
    Author(Seq<char>),
    MatterHeading(Seq<char>),
    MatterSpace,
    Contents { depth: usize, entries: Seq<(int, Seq<char>)> },
}

pub open spec fn para_view(p: DocxPara) -> DocxParaView {
    match p {
        DocxPara::Heading { level, page_break_before, runs } => DocxParaView::Heading {
            level,
            page_break_before,
            runs: run_views(runs@),
        },
        DocxPara::Body { quote_depth, list_depth, matter, runs } => DocxParaView::Body {
            quote_depth,
            list_depth,
            matter,
            runs: run_views(runs@),
        },
        DocxPara::Code(t) => DocxParaView::Code(t@),
        DocxPara::Centered(t) => DocxParaView::Centered(t@),
        DocxPara::PageBreak => DocxParaView::PageBreak,
        DocxPara::Title { text, bold } => DocxParaView::Title { text: text@, bold },
        DocxPara::Author(t) => DocxParaView::Author(t@),
        DocxPara::MatterHeading(t) => DocxParaView::MatterHeading(t@),
        DocxPara::MatterSpace => DocxParaView::MatterSpace,
        DocxPara::Contents { depth, entries } => DocxParaView::Contents { depth, entries: entry_views(entries@) },
    }
}

pub open spec fn para_views(ps: Seq<DocxPara>) -> Seq<DocxParaView> {
    ps.map_values(|p: DocxPara| para_view(p))
}

/// What the writer carries from event to event.
pub struct DocxSt {
    pub chapter_page_breaks: bool,
    pub paras: Seq<DocxParaView>,
    pub runs: Seq<DocxRunView>,
    pub bold: bool,
    pub italic: bool,
    pub strike: bool,
    pub heading: Option<u8>,
    pub quote_depth: usize,
    pub lists: Seq<Option<u64>>,
    pub in_code: bool,
    pub code: Seq<char>,
    pub seen_top_heading: bool,
    pub matter: Option<MatterStyle>,
}

/// A run of `text` with the marks in force; code in the code font. On a
/// small matter page text is small, on a centered one italic.
pub open spec fn text_run(st: DocxSt, text: Seq<char>, code: bool) -> DocxRunView {
    DocxRunView::Text {
        text,
        bold: st.bold,
        italic: st.italic || st.matter == Some(MatterStyle::Centered),
        strike: st.strike,
        code,
        small: st.matter == Some(MatterStyle::Small),
    }
}

/// Text with no marks.
pub open spec fn plain_run(text: Seq<char>) -> DocxRunView {
    DocxRunView::Text { text, bold: false, italic: false, strike: false, code: false, small: false }
}

/// The paragraph being built, ended: a heading (a new page before every
/// top-level heading but the first, when chapters start pages) or body text.
/// Nothing happens while no run is waiting.
pub open spec fn flushed(st: DocxSt) -> DocxSt {
    if st.runs.len() == 0 {
        st
    } else {
        match st.heading {
            Some(level) => DocxSt {
                paras: st.paras.push(
                    DocxParaView::Heading {
                        level,
                        page_break_before: level == 1 && st.chapter_page_breaks && st.seen_top_heading,
                        runs: st.runs,
                    },
                ),
                runs: Seq::empty(),
                seen_top_heading: if level == 1 && st.chapter_page_breaks { true } else { st.seen_top_heading },
                ..st
            },
            None => DocxSt {
                paras: st.paras.push(
                    DocxParaView::Body {
                        quote_depth: st.quote_depth,
                        list_depth: st.lists.len() as usize,
                        matter: st.matter,
                        runs: st.runs,
                    },
                ),
                runs: Seq::empty(),
                ..st
            },
        }
    }
}

/// A centered line on its own, after the paragraph being built.
pub open spec fn centered(st: DocxSt, text: Seq<char>) -> DocxSt {
    let s = flushed(st);
    DocxSt { paras: s.paras.push(DocxParaView::Centered(text)), ..s }
}

/// One code line paragraph per line of `lines`.
pub open spec fn code_paras(lines: Seq<Seq<char>>) -> Seq<DocxParaView> {
    lines.map_values(|l: Seq<char>| DocxParaView::Code(l))
}

/// The marker an item starts with, and the lists after it: the next number
/// in a numbered list, a bullet otherwise.
pub open spec fn item_marker(lists: Seq<Option<u64>>) -> (Seq<char>, Seq<Option<u64>>) {
    if lists.len() > 0 && lists.last() is Some {
        let n = lists.last()->0;
        (
            crate::text::decimal(n as nat) + ". "@,
            lists.update(lists.len() - 1, Some(if n < u64::MAX { (n + 1) as u64 } else { 0 })),
        )
    } else {
        ("• "@, lists)
    }
}

/// Opening a container.
pub open spec fn docx_start(st: DocxSt, tag: MdTagView) -> DocxSt {
    match tag {
        MdTagView::Paragraph | MdTagView::TableRow | MdTagView::TableHead => flushed(st),
        MdTagView::Heading(l) => DocxSt { heading: Some(l), ..flushed(st) },
        MdTagView::BlockQuote => {
            let s = flushed(st);
            DocxSt { quote_depth: if s.quote_depth < usize::MAX { (s.quote_depth + 1) as usize } else { s.quote_depth }, ..s }
        },
        MdTagView::CodeBlock(_) => DocxSt { in_code: true, code: Seq::empty(), ..flushed(st) },
        MdTagView::List(n) => {
            let s = flushed(st);
            DocxSt { lists: s.lists.push(n), ..s }
        },
        MdTagView::Item => {
            let s = flushed(st);
            let (marker, lists) = item_marker(s.lists);
            DocxSt { runs: s.runs.push(plain_run(marker)), lists, ..s }
        },
        MdTagView::Emphasis => DocxSt { italic: true, ..st },
        MdTagView::Strong => DocxSt { bold: true, ..st },
        MdTagView::Strikethrough => DocxSt { strike: true, ..st },
        MdTagView::TableCell => if st.runs.len() > 0 {
            DocxSt { runs: st.runs.push(DocxRunView::Tab), ..st }
        } else {
            st
        },
        _ => st,
    }
}

/// Closing a container.
pub open spec fn docx_end(st: DocxSt, tag: MdTagEnd) -> DocxSt {
    match tag {
        MdTagEnd::Paragraph | MdTagEnd::Item | MdTagEnd::TableRow | MdTagEnd::TableHead => flushed(st),
        MdTagEnd::Heading(_) => DocxSt { heading: None, ..flushed(st) },
        MdTagEnd::BlockQuote => {
            let s = flushed(st);
            DocxSt { quote_depth: if s.quote_depth > 0 { (s.quote_depth - 1) as usize } else { 0 }, ..s }
        },
        MdTagEnd::CodeBlock => DocxSt {
            in_code: false,
            code: Seq::empty(),
            paras: st.paras + code_paras(lines_of(trim_end_newlines(st.code))),
            ..st
        },
        MdTagEnd::List(_) => {
            let s = flushed(st);
            DocxSt { lists: if s.lists.len() > 0 { s.lists.drop_last() } else { s.lists }, ..s }
        },
        MdTagEnd::Emphasis => DocxSt { italic: false, ..st },
        MdTagEnd::Strong => DocxSt { bold: false, ..st },
        MdTagEnd::Strikethrough => DocxSt { strike: false, ..st },
        _ => st,
    }
}

/// One event's effect on the document being written.
pub open spec fn docx_step_spec(st: DocxSt, e: MdItemView) -> DocxSt {
    match e {
        MdItemView::Start(tag) => docx_start(st, tag),
        MdItemView::End(tag) => docx_end(st, tag),
        MdItemView::Text(t) => if st.in_code {
            DocxSt { code: st.code + t, ..st }
        } else {
            DocxSt { runs: st.runs.push(text_run(st, t, false)), ..st }
        },
        MdItemView::Code(t) => DocxSt { runs: st.runs.push(text_run(st, t, true)), ..st },
        MdItemView::Html(raw) | MdItemView::InlineHtml(raw) => match separator_text(raw) {
            Some(inner) => centered(st, html_unescaped(inner)),
            None => st,
        },
        MdItemView::SoftBreak => DocxSt { runs: st.runs.push(plain_run(" "@)), ..st },
        MdItemView::HardBreak => DocxSt { runs: st.runs.push(DocxRunView::LineBreak), ..st },
        MdItemView::Rule => centered(st, "* * *"@),
        _ => st,
    }
}

/// The writer after the events `es`, in order.
pub open spec fn docx_events(st: DocxSt, es: Seq<MdItemView>) -> DocxSt
    decreases es.len(),
{
    if es.len() == 0 {
        st
    } else {
        docx_step_spec(docx_events(st, es.drop_last()), es.last())
    }
}

/// The writer after a Markdown text: its cleaned export events, then the
/// last paragraph ended.
pub open spec fn markdown_written(st: DocxSt, markdown: Seq<char>) -> DocxSt {
    flushed(docx_events(st, cleaned(export_md_items(markdown))))
}

/// The writer after a page break.
pub open spec fn paged(st: DocxSt) -> DocxSt {
    let s = flushed(st);
    DocxSt { paras: s.paras.push(DocxParaView::PageBreak), ..s }
}

/// The writer after a matter page: its heading or its space, then its text
/// laid out as its kind asks.
pub open spec fn matter_written(st: DocxSt, m: Matter) -> DocxSt {
    let s1 = match m.kind.heading_text() {
        Some(h) => DocxSt { paras: st.paras.push(DocxParaView::MatterHeading(h)), ..st },
        None => if m.kind == MatterKind::Dedication || m.kind == MatterKind::Epigraph {
            DocxSt { paras: st.paras.push(DocxParaView::MatterSpace), ..st }
        } else {
            st
        },
    };
    let s2 = markdown_written(DocxSt { matter: Some(m.kind.style_spec()), ..s1 }, demoted(trim(m.markdown@), 1));
    DocxSt { matter: None, ..s2 }
}

/// The writer after the front matter pages, each followed by a page break.
pub open spec fn front_written(st: DocxSt, pages: Seq<Matter>) -> DocxSt
    decreases pages.len(),
{
    if pages.len() == 0 {
        st
    } else {
        paged(matter_written(front_written(st, pages.drop_last()), pages.last()))
    }
}

/// The writer after the back matter pages, each after a page break.
pub open spec fn back_written(st: DocxSt, pages: Seq<Matter>) -> DocxSt
    decreases pages.len(),
{
    if pages.len() == 0 {
        st
    } else {
        matter_written(paged(back_written(st, pages.drop_last())), pages.last())
    }
}

/// A writer with an empty document.
pub open spec fn docx_initial(chapter_page_breaks: bool) -> DocxSt {
    DocxSt {
        chapter_page_breaks,
        paras: Seq::empty(),
        runs: Seq::empty(),
        bold: false,
        italic: false,
        strike: false,
        heading: None,
        quote_depth: 0,
        lists: Seq::empty(),
        in_code: false,
        code: Seq::empty(),
        seen_top_heading: false,
        matter: None,
    }
}

/// The title page: the trimmed title (bold unless in manuscript format),
/// the trimmed author under it when there is one, and a page break; nothing
/// without a title.
pub open spec fn title_written(st: DocxSt, title: Seq<char>, author: Seq<char>, manuscript: bool) -> DocxSt {
    if trim(title).len() == 0 {
        st
    } else {
        let s1 = DocxSt { paras: st.paras.push(DocxParaView::Title { text: trim(title), bold: !manuscript }), ..st };
        let s2 = if trim(author).len() > 0 {
            DocxSt { paras: s1.paras.push(DocxParaView::Author(trim(author))), ..s1 }
        } else {
            s1
        };
        paged(s2)
    }
}

/// The deepest level among the entries (1 for none).
pub open spec fn max_level(es: Seq<(int, Seq<char>)>) -> int
    decreases es.len(),
{
    if es.len() == 0 {
        1
    } else if es.len() == 1 {
        es[0].0
    } else {
        let m = max_level(es.drop_last());
        if es.last().0 > m { es.last().0 } else { m }
    }
}

/// The contents page, when asked for and there is something to list, then a
/// page break.
pub open spec fn toc_written(st: DocxSt, wanted: bool, entries: Seq<(int, Seq<char>)>) -> DocxSt {
    if wanted && entries.len() > 0 {
        paged(
            DocxSt {
                paras: st.paras.push(DocxParaView::Contents { depth: max_level(entries) as usize, entries }),
                ..st
            },
        )
    } else {
        st
    }
}

/// A Word document as plain values: whether it is in manuscript format, the
/// running head before the page number (if any), whether the first page goes
/// without it, and its paragraphs.
pub struct DocxPlanView {
    pub manuscript: bool,
    pub header: Option<Seq<char>>,
    pub blank_first_header: bool,
    pub paras: Seq<DocxParaView>,
}

/// The Word document of a book: title page, front matter, contents, the
/// manuscript, back matter; the running head when asked for, kept off the
/// title page.
pub open spec fn docx_plan_spec(request: ExportRequest, book: Book) -> DocxPlanView {
    let s1 = title_written(
        docx_initial(request.chapter_page_breaks),
        request.title@,
        request.author@,
        request.manuscript_format,
    );
    let s2 = front_written(s1, book.front@);
    let s3 = toc_written(s2, request.table_of_contents, toc(part_views(book.parts@)));
    let s4 = markdown_written(s3, compiled_parts(request.scene_separator@, book.parts@, 0, 0, 0, false));
    let s5 = back_written(s4, book.back@);
    DocxPlanView {
        manuscript: request.manuscript_format,
        header: if request.running_head {
            Some(slash_joined(last_word(request.author@), uppercase(trim(request.title@))))
        } else {
            None
        },
        blank_first_header: request.running_head && trim(request.title@).len() > 0,
        paras: s5.paras,
    }
}

/// A Word document as plain values.
pub struct DocxPlan {
    pub manuscript: bool,
    pub header: Option<String>,
    pub blank_first_header: bool,
    pub paragraphs: Vec<DocxPara>,
}

impl DocxPlan {
    pub open spec fn view(&self) -> DocxPlanView {
        DocxPlanView {
            manuscript: self.manuscript,
            header: match self.header {
                Some(h) => Some(h@),
                None => None,
            },
            blank_first_header: self.blank_first_header,
            paras: para_views(self.paragraphs@),
        }
    }
}

fn deepest(entries: &Vec<(usize, String)>) -> (d: usize)
    requires
        entries@.len() > 0,
    ensures
        d == max_level(entry_views(entries@)),
{
    let ghost es = entry_views(entries@);
    let mut d = entries[0].0;
    let mut i: usize = 1;
    assert(es.take(1).len() == 1 && es.take(1)[0] == es[0]);
    while i < entries.len()
        invariant
            1 <= i <= entries@.len(),
            es == entry_views(entries@),
            d == max_level(es.take(i as int)),
        decreases entries.len() - i,
    {
        assert(es.take(i + 1).drop_last() =~= es.take(i as int));
        assert(es.take(i + 1).last() == es[i as int]);
        if entries[i].0 > d {
            d = entries[i].0;
        }
        i += 1;
    }
    assert(es.take(entries@.len() as int) =~= es);
    d
}

/// The Word document of a book, as plain values for a renderer to write.
pub fn docx_plan(request: &ExportRequest, book: &Book) -> (r: DocxPlan)
    ensures
        r.view() == docx_plan_spec(*request, *book),
{
    let mut w = DocxWriter::new(request.chapter_page_breaks);
    let ghost s0 = w.view();
    if !crate::text::is_blank(request.title.as_str()) {
        let t = crate::text::trimmed(request.title.as_str());
        w.push_para(DocxPara::Title { text: t, bold: !request.manuscript_format });
        if !crate::text::is_blank(request.author.as_str()) {
            let a = crate::text::trimmed(request.author.as_str());
            w.push_para(DocxPara::Author(a));
        }
        w.page_break();
    }
    let ghost s1 = w.view();
    assert(s1 == title_written(s0, request.title@, request.author@, request.manuscript_format));
    let mut i: usize = 0;
    assert(book.front@.take(0) =~= Seq::<Matter>::empty());
    while i < book.front.len()
        invariant
            i <= book.front@.len(),
            w.view() == front_written(s1, book.front@.take(i as int)),
        decreases book.front.len() - i,
    {
        assert(book.front@.take(i + 1).drop_last() =~= book.front@.take(i as int));
        w.write_matter(&book.front[i]);
        w.page_break();
        i += 1;
    }
    assert(book.front@.take(book.front@.len() as int) =~= book.front@);
    let ghost s2 = w.view();
    let entries = crate::export::toc_entries(book.parts.as_slice());
    if request.table_of_contents && entries.len() > 0 {
        let depth = deepest(&entries);
        w.push_para(DocxPara::Contents { depth, entries });
        w.page_break();
    }
    assert(w.view() == toc_written(s2, request.table_of_contents, toc(part_views(book.parts@))));
    let body = manuscript_body(request, book.parts.as_slice());
    w.write_markdown(body.as_str());
    let ghost s4 = w.view();
    let mut j: usize = 0;
    assert(book.back@.take(0) =~= Seq::<Matter>::empty());
    while j < book.back.len()
        invariant
            j <= book.back@.len(),
            w.view() == back_written(s4, book.back@.take(j as int)),
        decreases book.back.len() - j,
    {
        assert(book.back@.take(j + 1).drop_last() =~= book.back@.take(j as int));
        w.page_break();
        w.write_matter(&book.back[j]);
        j += 1;
    }
    assert(book.back@.take(book.back@.len() as int) =~= book.back@);
    let header = request.running_head_text();
    DocxPlan {
        manuscript: request.manuscript_format,
        header,
        blank_first_header: request.running_head && !crate::text::is_blank(request.title.as_str()),
        paragraphs: w.paragraphs,
    }
}

/// The document writer: the paragraphs so far and what the next event needs.
pub struct DocxWriter {
    pub chapter_page_breaks: bool,
    pub paragraphs: Vec<DocxPara>,
    pub runs: Vec<DocxRun>,
    pub bold: bool,
    pub italic: bool,
    pub strike: bool,
    pub heading: Option<u8>,
    pub quote_depth: usize,
    pub lists: Vec<Option<u64>>,
    pub in_code_block: bool,
    pub code_block: String,
    pub seen_top_heading: bool,
    pub matter: Option<MatterStyle>,
}

impl DocxWriter {
    pub open spec fn view(&self) -> DocxSt {
        DocxSt {
            chapter_page_breaks: self.chapter_page_breaks,
            paras: para_views(self.paragraphs@),
            runs: run_views(self.runs@),
            bold: self.bold,
            italic: self.italic,
            strike: self.strike,
            heading: self.heading,
            quote_depth: self.quote_depth,
            lists: self.lists@,
            in_code: self.in_code_block,
            code: self.code_block@,
            seen_top_heading: self.seen_top_heading,
            matter: self.matter,
        }
    }

    /// A writer with an empty document.
    pub fn new(chapter_page_breaks: bool) -> (w: DocxWriter)
        ensures
            w.view() == docx_initial(chapter_page_breaks),
    {
        let w = DocxWriter {
            chapter_page_breaks,
            paragraphs: Vec::new(),
            runs: Vec::new(),
            bold: false,
            italic: false,
            strike: false,
            heading: None,
            quote_depth: 0,
            lists: Vec::new(),
            in_code_block: false,
            code_block: String::new(),
            seen_top_heading: false,
            matter: None,
        };
        assert(para_views(w.paragraphs@) =~= Seq::<DocxParaView>::empty());
        assert(run_views(w.runs@) =~= Seq::<DocxRunView>::empty());
        w
    }

    fn push_para(&mut self, p: DocxPara)
        ensures
            final(self).view() == (DocxSt { paras: old(self).view().paras.push(para_view(p)), ..old(self).view() }),
    {
        let ghost before = para_views(self.paragraphs@);
        self.paragraphs.push(p);
        assert(para_views(self.paragraphs@) =~= before.push(para_view(p)));
    }

    fn push_run(&mut self, r: DocxRun)
        ensures
            final(self).view() == (DocxSt { runs: old(self).view().runs.push(run_view(r)), ..old(self).view() }),
    {
        let ghost before = run_views(self.runs@);
        self.runs.push(r);
        assert(run_views(self.runs@) =~= before.push(run_view(r)));
    }

    fn text_run(&self, text: &str, code: bool) -> (r: DocxRun)
        ensures
            run_view(r) == text_run(self.view(), text@, code),
    {
        let (centered, small) = match self.matter {
            Some(MatterStyle::Centered) => (true, false),
            Some(MatterStyle::Small) => (false, true),
            _ => (false, false),
        };
        DocxRun::Text {
            text: text.to_string(),
            bold: self.bold,
            italic: self.italic || centered,
            strike: self.strike,
            code,
            small,
        }
    }

    /// Ends the paragraph being built.
    pub fn flush_paragraph(&mut self)
        ensures
            final(self).view() == flushed(old(self).view()),
    {
        if self.runs.len() == 0 {
            return;
        }
        let mut runs: Vec<DocxRun> = Vec::new();
        std::mem::swap(&mut runs, &mut self.runs);
        assert(run_views(self.runs@) =~= Seq::<DocxRunView>::empty());
        match self.heading {
            Some(level) => {
                let top = level == 1 && self.chapter_page_breaks;
                let p = DocxPara::Heading { level, page_break_before: top && self.seen_top_heading, runs };
                if top {
                    self.seen_top_heading = true;
                }
                self.push_para(p);
            },
            None => {
                let p = DocxPara::Body {
                    quote_depth: self.quote_depth,
                    list_depth: self.lists.len(),
                    matter: self.matter,
                    runs,
                };
                self.push_para(p);
            },
        }
    }

    /// A centered line on its own.
    pub fn centered_line(&mut self, text: &str)
        ensures
            final(self).view() == centered(old(self).view(), text@),
    {
        self.flush_paragraph();
        self.push_para(DocxPara::Centered(text.to_string()));
    }

    /// Ends the paragraph being built and breaks the page.
    pub fn page_break(&mut self)
        ensures
            final(self).view() == (DocxSt {
                paras: flushed(old(self).view()).paras.push(DocxParaView::PageBreak),
                ..flushed(old(self).view())
            }),
    {
        self.flush_paragraph();
        self.push_para(DocxPara::PageBreak);
    }

    fn code_lines(&mut self)
        ensures
            final(self).view() == (DocxSt {
                in_code: false,
                code: Seq::empty(),
                paras: old(self).view().paras + code_paras(lines_of(trim_end_newlines(old(self).view().code))),
                ..old(self).view()
            }),
    {
        let body = trimmed_newlines(self.code_block.as_str());
        let v = crate::text::chars_of(body.as_str());
        let ghost start = self.view();
        let ghost all = lines_of(v@);
        let mut i: usize = 0;
        assert(v@.subrange(0, v@.len() as int) =~= v@);
        while i < v.len()
            invariant
                i <= v@.len(),
                v@ == trim_end_newlines(start.code),
                all == lines_of(v@),
                self.view().paras + code_paras(lines_of(v@.subrange(i as int, v@.len() as int))) == start.paras + code_paras(all),
                self.view() == (DocxSt { paras: self.view().paras, ..start }),
            decreases v.len() - i,
        {
            let (e, next) = line_bounds(&v, i, v.len());
            let line = crate::text::string_of(&v, i, e);
            let ghost rest = lines_of(v@.subrange(next as int, v@.len() as int));
            assert(code_paras(seq![line@] + rest) =~= seq![DocxParaView::Code(line@)] + code_paras(rest));
            let ghost p0 = self.view().paras;
            self.push_para(DocxPara::Code(line));
            assert(p0.push(DocxParaView::Code(line@)) + code_paras(rest) =~= p0 + (seq![DocxParaView::Code(line@)] + code_paras(rest)));
            i = next;
        }
        assert(v@.subrange(v@.len() as int, v@.len() as int) =~= Seq::<char>::empty());
        assert(lines_of(Seq::<char>::empty()) == Seq::<Seq<char>>::empty());
        assert(code_paras(Seq::<Seq<char>>::empty()) =~= Seq::<DocxParaView>::empty());
        assert(self.view().paras + Seq::<DocxParaView>::empty() =~= self.view().paras);
        self.code_block = String::new();
        self.in_code_block = false;
        assert(self.view().code =~= Seq::<char>::empty());
    }

    fn start(&mut self, tag: &MdTag)
        ensures
            final(self).view() == docx_start(old(self).view(), crate::export_events::tag_view(*tag)),
    {
        match tag {
            MdTag::Paragraph | MdTag::TableRow | MdTag::TableHead => self.flush_paragraph(),
            MdTag::Heading(l) => {
                self.flush_paragraph();
                self.heading = Some(*l);
            },
            MdTag::BlockQuote => {
                self.flush_paragraph();
                if self.quote_depth < usize::MAX {
                    self.quote_depth = self.quote_depth + 1;
                }
            },
            MdTag::CodeBlock(_) => {
                self.flush_paragraph();
                self.in_code_block = true;
                self.code_block = String::new();
            },
            MdTag::List(n) => {
                self.flush_paragraph();
                self.lists.push(*n);
            },
            MdTag::Item => {
                self.flush_paragraph();
                let k = self.lists.len();
                let marker = if k > 0 && self.lists[k - 1].is_some() {
                    let n = match self.lists[k - 1] {
                        Some(n) => n,
                        None => 0,
                    };
                    let mut m = String::new();
                    crate::text::push_decimal(&mut m, n);
                    crate::text::push_str(&mut m, ". ");
                    let next = if n < u64::MAX { n + 1 } else { 0 };
                    self.lists.set(k - 1, Some(next));
                    m
                } else {
                    proof {
                        reveal_strlit("• ");
                    }
                    "• ".to_string()
                };
                self.push_run(
                    DocxRun::Text { text: marker, bold: false, italic: false, strike: false, code: false, small: false },
                );
            },
            MdTag::Emphasis => {
                self.italic = true;
            },
            MdTag::Strong => {
                self.bold = true;
            },
            MdTag::Strikethrough => {
                self.strike = true;
            },
            MdTag::TableCell => {
                if self.runs.len() > 0 {
                    self.push_run(DocxRun::Tab);
                }
            },
            _ => {},
        }
    }

    fn end(&mut self, tag: MdTagEnd)
        ensures
            final(self).view() == docx_end(old(self).view(), tag),
    {
        match tag {
            MdTagEnd::Paragraph | MdTagEnd::Item | MdTagEnd::TableRow | MdTagEnd::TableHead => self.flush_paragraph(),
            MdTagEnd::Heading(_) => {
                self.flush_paragraph();
                self.heading = None;
            },
            MdTagEnd::BlockQuote => {
                self.flush_paragraph();
                if self.quote_depth > 0 {
                    self.quote_depth = self.quote_depth - 1;
                }
            },
            MdTagEnd::CodeBlock => self.code_lines(),
            MdTagEnd::List(_) => {
                self.flush_paragraph();
                self.lists.pop();
            },
            MdTagEnd::Emphasis => {
                self.italic = false;
            },
            MdTagEnd::Strong => {
                self.bold = false;
            },
            MdTagEnd::Strikethrough => {
                self.strike = false;
            },
            _ => {},
        }
    }

    /// One Markdown event's effect on the document.
    pub fn docx_step(&mut self, e: &MdItem)
        ensures
            final(self).view() == docx_step_spec(old(self).view(), item_view(*e)),
    {
        match e {
            MdItem::Start(tag) => self.start(tag),
            MdItem::End(tag) => self.end(*tag),
            MdItem::Text(t) => {
                if self.in_code_block {
                    crate::text::push_str(&mut self.code_block, t.as_str());
                } else {
                    let r = self.text_run(t.as_str(), false);
                    self.push_run(r);
                }
            },
            MdItem::Code(t) => {
                let r = self.text_run(t.as_str(), true);
                self.push_run(r);
            },
            MdItem::Html(raw) | MdItem::InlineHtml(raw) => {
                match separator_of(raw.as_str()) {
                    Some(inner) => {
                        let text = unescape_html(inner.as_str());
                        self.centered_line(text.as_str());
                    },
                    None => {},
                }
            },
            MdItem::SoftBreak => {
                proof {
                    reveal_strlit(" ");
                }
                self.push_run(
                    DocxRun::Text { text: " ".to_string(), bold: false, italic: false, strike: false, code: false, small: false },
                );
            },
            MdItem::HardBreak => self.push_run(DocxRun::LineBreak),
            MdItem::Rule => {
                self.centered_line("* * *");
            },
            _ => {},
        }
    }

    /// The events `items`, in order.
    pub fn write_events(&mut self, items: &Vec<MdItem>)
        ensures
            final(self).view() == docx_events(old(self).view(), item_views(items@)),
    {
        let ghost start = self.view();
        let ghost es = item_views(items@);
        let mut i: usize = 0;
        assert(es.take(0) =~= Seq::<MdItemView>::empty());
        while i < items.len()
            invariant
                i <= items@.len(),
                es == item_views(items@),
                self.view() == docx_events(start, es.take(i as int)),
            decreases items.len() - i,
        {
            assert(es.take(i + 1).drop_last() =~= es.take(i as int));
            assert(es.take(i + 1).last() == item_view(items@[i as int]));
            self.docx_step(&items[i]);
            i += 1;
        }
        assert(es.take(items@.len() as int) =~= es);
    }

    /// A Markdown text: its cleaned export events, then the last paragraph ended.
    pub fn write_markdown(&mut self, markdown: &str)
        ensures
            final(self).view() == markdown_written(old(self).view(), markdown@),
    {
        let items = clean_markdown(markdown);
        self.write_events(&items);
        self.flush_paragraph();
    }

    /// A page of front or back matter. The caller breaks the page.
    pub fn write_matter(&mut self, m: &Matter)
        ensures
            final(self).view() == matter_written(old(self).view(), *m),
    {
        let style = m.kind.style();
        match style {
            MatterStyle::Headed(heading) => {
                self.push_para(DocxPara::MatterHeading(heading.to_string()));
            },
            MatterStyle::Centered => {
                self.push_para(DocxPara::MatterSpace);
            },
            MatterStyle::Small => {},
        }
        self.matter = Some(style);
        let body = matter_body(m);
        self.write_markdown(body.as_str());
        self.matter = None;
    }
}

} // verus!
