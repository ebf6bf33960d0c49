//! How a Word document is set: the fonts, sizes, spacing, indents and
//! alignment of each paragraph and run, as plain values. Standard manuscript
//! format is 12pt Times New Roman, double spaced, with indented paragraphs
//! and 1" margins; otherwise Georgia, a little more open.

use vstd::prelude::*;
use crate::docx_out::{para_view, run_view, DocxPara, DocxParaView, DocxPlan, DocxPlanView, DocxRun, DocxRunView};
use crate::export::{entry_views, MatterStyle};
use crate::text::{decimal, push_decimal, push_str};
use crate::book::Book;
use crate::docx_out::docx_plan;
use crate::export::ExportRequest;
use docx_rs::{
    AlignmentType, BreakType, Docx, FieldCharType, Header, InstrPAGE, InstrText, LineSpacing, PageMargin, Paragraph, Run,
    RunFonts, SpecialIndentType, Style, StyleType, TableOfContents, TableOfContentsItem,
};

verus! {

/// Twentieths of a point, the unit DOCX uses for spacing and indents.
pub const TWIPS_PER_INCH: i32 = 1440;

/// Half an inch: the step of every indent.
pub const HALF_INCH: i32 = 720;

/// The code font.
pub const CODE_FONT: &'static str = "Courier New";

/// Where a paragraph's lines sit.
#[derive(Debug, Clone, Copy, PartialEq, Eq, Structural)]
pub enum ParaAlign {
    /// Word's default.
    Start,
    Center,
    Right,
}

/// Line spacing in 240ths of a line, and space before and after in twips;
/// `None` leaves Word's default.
#[derive(Debug, Clone, Copy, PartialEq, Eq, Structural)]
pub struct Spacing {
    pub line: Option<i32>,
    pub before: Option<u32>,
    pub after: Option<u32>,
}

/// A left indent and a first-line indent, in twips.
#[derive(Debug, Clone, Copy, PartialEq, Eq, Structural)]
pub struct Indent {
    pub left: Option<i32>,
    pub first_line: Option<i32>,
}

/// How a paragraph is set.
#[derive(Debug, Clone, PartialEq, Eq)]
pub struct ParaLayout {
    /// The paragraph style, e.g. `Heading1`.
    pub style: Option<String>,
    pub align: ParaAlign,
    /// Kept on one page with the paragraph after it.
    pub keep_next: bool,
    pub page_break_before: bool,
    pub spacing: Option<Spacing>,
    pub indent: Option<Indent>,
    pub bold: bool,
    pub italic: bool,
}

pub struct ParaLayoutView {
    pub style: Option<Seq<char>>,
    pub align: ParaAlign,
    pub keep_next: bool,
    pub page_break_before: bool,
    pub spacing: Option<Spacing>,
    pub indent: Option<Indent>,
    pub bold: bool,
    pub italic: bool,
}

pub open spec fn opt_text(s: Option<String>) -> Option<Seq<char>> {
    match s {
        Some(t) => Some(t@),
        None => None,
    }
}

impl ParaLayout {
    pub open spec fn view(&self) -> ParaLayoutView {
        ParaLayoutView {
            style: opt_text(self.style),
            align: self.align,
            keep_next: self.keep_next,
            page_break_before: self.page_break_before,
            spacing: self.spacing,
            indent: self.indent,
            bold: self.bold,
            italic: self.italic,
        }
    }
}

/// What a run holds.
#[derive(Debug, Clone, PartialEq, Eq)]
pub enum RunPiece {
    Text(String),
    Tab,
    /// A line break inside the paragraph.
    LineBreak,
    /// A break to the next page.
    PageBreak,
}

pub enum RunPieceView {
    Text(Seq<char>),
    Tab,
    LineBreak,
    PageBreak,
}

/// A run and how it is set: marks, font (for ASCII text) and size in
/// half-points; `None` keeps the document's.
#[derive(Debug, Clone, PartialEq, Eq)]
pub struct RunLayout {
    pub piece: RunPiece,
    pub bold: bool,
    pub italic: bool,
    pub strike: bool,
    pub font: Option<String>,
    pub size: Option<usize>,
}

pub struct RunLayoutView {
    pub piece: RunPieceView,
    pub bold: bool,
    pub italic: bool,
    pub strike: bool,
    pub font: Option<Seq<char>>,
    pub size: Option<usize>,
}

impl RunLayout {
    pub open spec fn view(&self) -> RunLayoutView {
        RunLayoutView {
            piece: match self.piece {
                RunPiece::Text(t) => RunPieceView::Text(t@),
                RunPiece::Tab => RunPieceView::Tab,
                RunPiece::LineBreak => RunPieceView::LineBreak,
                RunPiece::PageBreak => RunPieceView::PageBreak,
            },
            bold: self.bold,
            italic: self.italic,
            strike: self.strike,
            font: opt_text(self.font),
            size: self.size,
        }
    }
}

pub open spec fn run_layout_views(rs: Seq<RunLayout>) -> Seq<RunLayoutView> {
    rs.map_values(|r: RunLayout| r.view())
}

/// A paragraph ready to write: how it is set and its runs.
#[derive(Debug, Clone, PartialEq, Eq)]
pub struct LaidPara {
    pub layout: ParaLayout,
    pub runs: Vec<RunLayout>,
}

pub struct LaidParaView {
    pub layout: ParaLayoutView,
    pub runs: Seq<RunLayoutView>,
}

impl LaidPara {
    pub open spec fn view(&self) -> LaidParaView {
        LaidParaView { layout: self.layout.view(), runs: run_layout_views(self.runs@) }
    }
}

/// A piece of the document body.
#[derive(Debug, Clone, PartialEq, Eq)]
pub enum DocxBlock {
    Para(LaidPara),
    /// A table of contents over headings down to `depth`, under `alias`,
    /// opened by `title`, listing (level, text) entries.
    Contents { depth: usize, alias: String, title: LaidPara, entries: Vec<(usize, String)> },
}

pub enum DocxBlockView {
    Para(LaidParaView),
    Contents { depth: usize, alias: Seq<char>, title: LaidParaView, entries: Seq<(int, Seq<char>)> },
}

impl DocxBlock {
    pub open spec fn view(&self) -> DocxBlockView {
        match self {
            DocxBlock::Para(p) => DocxBlockView::Para(p.view()),
            DocxBlock::Contents { depth, alias, title, entries } => DocxBlockView::Contents {
                depth: *depth,
                alias: alias@,
                title: title.view(),
                entries: entry_views(entries@),
            },
        }
    }
}

pub open spec fn block_views(bs: Seq<DocxBlock>) -> Seq<DocxBlockView> {
    bs.map_values(|b: DocxBlock| b.view())
}

/// A heading paragraph style.
#[derive(Debug, Clone, PartialEq, Eq)]
pub struct HeadingStyle {
    pub id: String,
    pub name: String,
    pub size: usize,
    pub outline_level: usize,
    pub before: u32,
    pub after: u32,
    pub centered: bool,
    pub bold: bool,
}

pub struct HeadingStyleView {
    pub id: Seq<char>,
    pub name: Seq<char>,
    pub size: usize,
    pub outline_level: usize,
    pub before: u32,
    pub after: u32,
    pub centered: bool,
    pub bold: bool,
}

impl HeadingStyle {
    pub open spec fn view(&self) -> HeadingStyleView {
        HeadingStyleView {
            id: self.id@,
            name: self.name@,
            size: self.size,
            outline_level: self.outline_level,
            before: self.before,
            after: self.after,
            centered: self.centered,
            bold: self.bold,
        }
    }
}

/// A Word document ready to write: its default font and size (half-points),
/// page margins (twips), heading styles, body, and running head (the text
/// before the page number, if any, on a right-aligned line), kept off the
/// first page when asked.
#[derive(Debug, Clone)]
pub struct DocxDoc {
    pub font: String,
    pub size: usize,
    pub margin: i32,
    pub headings: Vec<HeadingStyle>,
    pub blocks: Vec<DocxBlock>,
    pub header: Option<Option<String>>,
    pub blank_first_header: bool,
}

pub struct DocxDocView {
    pub font: Seq<char>,
    pub size: usize,
    pub margin: i32,
    pub headings: Seq<HeadingStyleView>,
    pub blocks: Seq<DocxBlockView>,
    pub header: Option<Option<Seq<char>>>,
    pub blank_first_header: bool,
}

impl DocxDoc {
    pub open spec fn view(&self) -> DocxDocView {
        DocxDocView {
            font: self.font@,
            size: self.size,
            margin: self.margin,
            headings: self.headings@.map_values(|h: HeadingStyle| h.view()),
            blocks: block_views(self.blocks@),
            header: match self.header {
                Some(p) => Some(opt_text(p)),
                None => None,
            },
            blank_first_header: self.blank_first_header,
        }
    }
}

/// A paragraph set in Word's defaults.
pub open spec fn plain_layout() -> ParaLayoutView {
    ParaLayoutView {
        style: None,
        align: ParaAlign::Start,
        keep_next: false,
        page_break_before: false,
        spacing: None,
        indent: None,
        bold: false,
        italic: false,
    }
}

pub open spec fn spacing(line: Option<i32>, before: Option<u32>, after: Option<u32>) -> Option<Spacing> {
    Some(Spacing { line, before, after })
}

/// The left indent of body text: half an inch per open quote and list
/// (capped at the largest a DOCX indent holds).
pub open spec fn nested_indent(quote_depth: nat, list_depth: nat) -> int {
    let left = (TWIPS_PER_INCH / 2) * (quote_depth + list_depth);
    if left <= i32::MAX { left } else { i32::MAX as int }
}

/// How body text is set. A small matter page is set tight, a centered one
/// tight and centered. Otherwise manuscript format is double spaced with a
/// half-inch first-line indent and no space between paragraphs, and the
/// book format one-and-a-quarter spaced with space after. Inside quotes and
/// lists the text is indented half an inch per level (in place of the
/// first-line indent), and inside a quote it is in italics.
pub open spec fn body_layout_spec(manuscript: bool, matter: Option<MatterStyle>, quote_depth: nat, list_depth: nat) -> ParaLayoutView {
    let base = match matter {
        Some(MatterStyle::Small) => ParaLayoutView { spacing: spacing(None, None, Some(160)), ..plain_layout() },
        Some(MatterStyle::Centered) => ParaLayoutView {
            spacing: spacing(None, None, Some(160)),
            align: ParaAlign::Center,
            ..plain_layout()
        },
        _ => if manuscript {
            ParaLayoutView {
                spacing: spacing(Some(480), None, Some(0)),
                indent: Some(Indent { left: None, first_line: Some(HALF_INCH) }),
                ..plain_layout()
            }
        } else {
            ParaLayoutView { spacing: spacing(Some(300), None, Some(160)), ..plain_layout() }
        },
    };
    let left = nested_indent(quote_depth, list_depth);
    ParaLayoutView {
        indent: if left > 0 { Some(Indent { left: Some(left as i32), first_line: None }) } else { base.indent },
        italic: quote_depth > 0,
        ..base
    }
}

/// How a run of the plan is set: code in the code font, small matter text
/// at 10pt.
pub open spec fn run_layout_spec(r: DocxRunView) -> RunLayoutView {
    match r {
        DocxRunView::Text { text, bold, italic, strike, code, small } => RunLayoutView {
            piece: RunPieceView::Text(text),
            bold,
            italic,
            strike,
            font: if code { Some(CODE_FONT@) } else { None },
            size: if small { Some(20) } else { None },
        },
        DocxRunView::Tab => plain_piece(RunPieceView::Tab),
        DocxRunView::LineBreak => plain_piece(RunPieceView::LineBreak),
    }
}

pub open spec fn plain_piece(p: RunPieceView) -> RunLayoutView {
    RunLayoutView { piece: p, bold: false, italic: false, strike: false, font: None, size: None }
}

pub open spec fn sized_text(t: Seq<char>, size: Option<usize>, italic: bool) -> RunLayoutView {
    RunLayoutView { size, italic, ..plain_piece(RunPieceView::Text(t)) }
}

/// The name of the style of headings at `level`.
pub open spec fn heading_style_id(level: nat) -> Seq<char> {
    "Heading"@ + decimal(level)
}

pub open spec fn laid(layout: ParaLayoutView, runs: Seq<RunLayoutView>) -> DocxBlockView {
    DocxBlockView::Para(LaidParaView { layout, runs })
}

/// How each paragraph of the plan is set.
pub open spec fn block_spec(manuscript: bool, p: DocxParaView) -> DocxBlockView {
    match p {
        DocxParaView::Heading { level, page_break_before, runs } => laid(
            ParaLayoutView {
                style: Some(heading_style_id(level as nat)),
                keep_next: true,
                page_break_before,
                ..plain_layout()
            },
            runs.map_values(|r: DocxRunView| run_layout_spec(r)),
        ),
        DocxParaView::Body { quote_depth, list_depth, matter, runs } => laid(
            body_layout_spec(manuscript, matter, quote_depth as nat, list_depth as nat),
            runs.map_values(|r: DocxRunView| run_layout_spec(r)),
        ),
        DocxParaView::Code(t) => laid(
            ParaLayoutView {
                spacing: spacing(Some(240), None, Some(0)),
                indent: Some(Indent { left: Some(HALF_INCH), first_line: None }),
                ..plain_layout()
            },
            seq![RunLayoutView { font: Some(CODE_FONT@), ..sized_text(t, Some(20), false) }],
        ),
        DocxParaView::Centered(t) => laid(
            ParaLayoutView { align: ParaAlign::Center, spacing: spacing(None, Some(240), Some(240)), ..plain_layout() },
            seq![plain_piece(RunPieceView::Text(t))],
        ),
        DocxParaView::PageBreak => laid(plain_layout(), seq![plain_piece(RunPieceView::PageBreak)]),
        DocxParaView::Title { text, bold } => laid(
            ParaLayoutView {
                align: ParaAlign::Center,
                spacing: spacing(None, Some(4320u32), Some(240)),
                bold,
                ..plain_layout()
            },
            seq![sized_text(text, Some(48), false)],
        ),
        DocxParaView::Author(t) => laid(
            ParaLayoutView { align: ParaAlign::Center, ..plain_layout() },
            seq![sized_text(t, None, true)],
        ),
        DocxParaView::MatterHeading(t) => laid(
            ParaLayoutView {
                align: ParaAlign::Center,
                keep_next: true,
                spacing: spacing(None, Some(1440), Some(480)),
                ..plain_layout()
            },
            seq![sized_text(t, Some(40), false)],
        ),
        DocxParaView::MatterSpace => laid(
            ParaLayoutView { spacing: spacing(None, Some(2880u32), None), ..plain_layout() },
            Seq::empty(),
        ),
        DocxParaView::Contents { depth, entries } => DocxBlockView::Contents {
            depth,
            alias: "Table of contents"@,
            title: LaidParaView {
                layout: ParaLayoutView { align: ParaAlign::Center, spacing: spacing(None, None, Some(480)), ..plain_layout() },
                runs: seq![sized_text("Contents"@, Some(32), false)],
            },
            entries,
        },
    }
}

/// The heading style of `level` (1 to 6): sizes from 20pt down to 12pt,
/// space before and after; centered in manuscript format, bold otherwise.
pub open spec fn heading_style_spec(manuscript: bool, level: nat) -> HeadingStyleView {
    HeadingStyleView {
        id: heading_style_id(level),
        name: "Heading "@ + decimal(level),
        size: if level == 1 { 40 } else if level == 2 { 32 } else if level == 3 { 28 } else if level == 4 { 26 } else { 24 },
        outline_level: (level - 1) as usize,
        before: 360,
        after: 240,
        centered: manuscript,
        bold: !manuscript,
    }
}

/// The Word document of a plan: 12pt Times New Roman in manuscript format,
/// else 12pt Georgia; 1" margins; six heading styles; the plan's paragraphs
/// set as `block_spec` says; its running head.
pub open spec fn doc_spec(plan: DocxPlanView) -> DocxDocView {
    DocxDocView {
        font: if plan.manuscript { "Times New Roman"@ } else { "Georgia"@ },
        size: 24,
        margin: TWIPS_PER_INCH,
        headings: Seq::new(6, |i: int| heading_style_spec(plan.manuscript, (i + 1) as nat)),
        blocks: plan.paras.map_values(|p: DocxParaView| block_spec(plan.manuscript, p)),
        header: match plan.header {
            Some(h) => Some(if h.len() > 0 { Some(h + " / "@) } else { None }),
            None => None,
        },
        blank_first_header: plan.blank_first_header,
    }
}

fn text_of(s: &str) -> (r: String)
    ensures
        r@ == s@,
{
    let mut r = String::new();
    push_str(&mut r, s);
    r
}

fn plain_layout_exec() -> (l: ParaLayout)
    ensures
        l.view() == plain_layout(),
{
    ParaLayout {
        style: None,
        align: ParaAlign::Start,
        keep_next: false,
        page_break_before: false,
        spacing: None,
        indent: None,
        bold: false,
        italic: false,
    }
}

fn text_run(t: String, size: Option<usize>, italic: bool) -> (r: RunLayout)
    ensures
        r.view() == sized_text(t@, size, italic),
{
    RunLayout { piece: RunPiece::Text(t), bold: false, italic, strike: false, font: None, size }
}

fn piece_run(p: RunPiece) -> (r: RunLayout)
    ensures
        r.view().piece == (match p {
            RunPiece::Text(t) => RunPieceView::Text(t@),
            RunPiece::Tab => RunPieceView::Tab,
            RunPiece::LineBreak => RunPieceView::LineBreak,
            RunPiece::PageBreak => RunPieceView::PageBreak,
        }),
        !r.bold && !r.italic && !r.strike && r.font is None && r.size is None,
{
    RunLayout { piece: p, bold: false, italic: false, strike: false, font: None, size: None }
}

/// How body text is set; see `body_layout_spec`.
pub fn body_layout(manuscript: bool, matter: Option<MatterStyle>, quote_depth: usize, list_depth: usize) -> (r: ParaLayout)
    ensures
        r.view() == body_layout_spec(manuscript, matter, quote_depth as nat, list_depth as nat),
{
    let mut l = plain_layout_exec();
    match matter {
        Some(MatterStyle::Small) => {
            l.spacing = Some(Spacing { line: None, before: None, after: Some(160) });
        },
        Some(MatterStyle::Centered) => {
            l.spacing = Some(Spacing { line: None, before: None, after: Some(160) });
            l.align = ParaAlign::Center;
        },
        _ => {
            if manuscript {
                l.spacing = Some(Spacing { line: Some(480), before: None, after: Some(0) });
                l.indent = Some(Indent { left: None, first_line: Some(HALF_INCH) });
            } else {
                l.spacing = Some(Spacing { line: Some(300), before: None, after: Some(160) });
            }
        },
    }
    let levels: u128 = quote_depth as u128 + list_depth as u128;
    assert(levels <= 0x2_0000_0000_0000_0000);
    assert(720 * levels <= 720 * 0x2_0000_0000_0000_0000) by (nonlinear_arith)
        requires
            levels <= 0x2_0000_0000_0000_0000,
    ;
    let left: u128 = 720 * levels;
    if left > 0 {
        let capped: i32 = if left <= 2147483647 { left as i32 } else { 2147483647 };
        l.indent = Some(Indent { left: Some(capped), first_line: None });
    }
    l.italic = quote_depth > 0;
    l
}

fn run_layout(r: &DocxRun) -> (out: RunLayout)
    ensures
        out.view() == run_layout_spec(run_view(*r)),
{
    match r {
        DocxRun::Text { text, bold, italic, strike, code, small } => {
            proof {
                reveal_strlit("Courier New");
            }
            RunLayout {
                piece: RunPiece::Text(text.clone()),
                bold: *bold,
                italic: *italic,
                strike: *strike,
                font: if *code { Some(text_of(CODE_FONT)) } else { None },
                size: if *small { Some(20) } else { None },
            }
        },
        DocxRun::Tab => piece_run(RunPiece::Tab),
        DocxRun::LineBreak => piece_run(RunPiece::LineBreak),
    }
}

fn runs_layout(rs: &Vec<DocxRun>) -> (out: Vec<RunLayout>)
    ensures
        run_layout_views(out@) == crate::docx_out::run_views(rs@).map_values(|r: DocxRunView| run_layout_spec(r)),
{
    let mut out: Vec<RunLayout> = Vec::new();
    let mut i: usize = 0;
    while i < rs.len()
        invariant
            i <= rs@.len(),
            out@.len() == i,
            forall|k: int| 0 <= k < i ==> (#[trigger] out@[k]).view() == run_layout_spec(run_view(rs@[k])),
        decreases rs.len() - i,
    {
        out.push(run_layout(&rs[i]));
        i += 1;
    }
    assert(run_layout_views(out@) =~= crate::docx_out::run_views(rs@).map_values(|r: DocxRunView| run_layout_spec(r)));
    out
}

fn heading_id(prefix: &str, level: u8) -> (r: String)
    ensures
        r@ == prefix@ + decimal(level as nat),
{
    let mut r = String::new();
    push_str(&mut r, prefix);
    push_decimal(&mut r, level as u64);
    r
}

fn para(layout: ParaLayout, runs: Vec<RunLayout>) -> (b: DocxBlock)
    ensures
        b.view() == laid(layout.view(), run_layout_views(runs@)),
{
    DocxBlock::Para(LaidPara { layout, runs })
}

fn one_run(r: RunLayout) -> (v: Vec<RunLayout>)
    ensures
        run_layout_views(v@) == seq![r.view()],
{
    let mut v = Vec::new();
    v.push(r);
    assert(run_layout_views(v@) =~= seq![r.view()]);
    v
}

/// How one paragraph of the plan is set; see `block_spec`.
pub fn block_layout(manuscript: bool, p: &DocxPara) -> (b: DocxBlock)
    ensures
        b.view() == block_spec(manuscript, para_view(*p)),
{
    proof {
        reveal_strlit("Heading");
        reveal_strlit("Courier New");
        reveal_strlit("Table of contents");
        reveal_strlit("Contents");
    }
    match p {
        DocxPara::Heading { level, page_break_before, runs } => {
            let mut l = plain_layout_exec();
            l.style = Some(heading_id("Heading", *level));
            l.keep_next = true;
            l.page_break_before = *page_break_before;
            para(l, runs_layout(runs))
        },
        DocxPara::Body { quote_depth, list_depth, matter, runs } => {
            para(body_layout(manuscript, *matter, *quote_depth, *list_depth), runs_layout(runs))
        },
        DocxPara::Code(t) => {
            let mut l = plain_layout_exec();
            l.spacing = Some(Spacing { line: Some(240), before: None, after: Some(0) });
            l.indent = Some(Indent { left: Some(HALF_INCH), first_line: None });
            let mut r = text_run(t.clone(), Some(20), false);
            r.font = Some(text_of(CODE_FONT));
            para(l, one_run(r))
        },
        DocxPara::Centered(t) => {
            let mut l = plain_layout_exec();
            l.align = ParaAlign::Center;
            l.spacing = Some(Spacing { line: None, before: Some(240), after: Some(240) });
            para(l, one_run(piece_run(RunPiece::Text(t.clone()))))
        },
        DocxPara::PageBreak => para(plain_layout_exec(), one_run(piece_run(RunPiece::PageBreak))),
        DocxPara::Title { text, bold } => {
            let mut l = plain_layout_exec();
            l.align = ParaAlign::Center;
            l.spacing = Some(Spacing { line: None, before: Some(4320u32), after: Some(240) });
            l.bold = *bold;
            para(l, one_run(text_run(text.clone(), Some(48), false)))
        },
        DocxPara::Author(t) => {
            let mut l = plain_layout_exec();
            l.align = ParaAlign::Center;
            para(l, one_run(text_run(t.clone(), None, true)))
        },
        DocxPara::MatterHeading(t) => {
            let mut l = plain_layout_exec();
            l.align = ParaAlign::Center;
            l.keep_next = true;
            l.spacing = Some(Spacing { line: None, before: Some(1440), after: Some(480) });
            para(l, one_run(text_run(t.clone(), Some(40), false)))
        },
        DocxPara::MatterSpace => {
            let mut l = plain_layout_exec();
            l.spacing = Some(Spacing { line: None, before: Some(2880u32), after: None });
            let v: Vec<RunLayout> = Vec::new();
            assert(run_layout_views(v@) =~= Seq::<RunLayoutView>::empty());
            para(l, v)
        },
        DocxPara::Contents { depth, entries } => {
            let mut l = plain_layout_exec();
            l.align = ParaAlign::Center;
            l.spacing = Some(Spacing { line: None, before: None, after: Some(480) });
            let title = LaidPara { layout: l, runs: one_run(text_run(text_of("Contents"), Some(32), false)) };
            let mut copy: Vec<(usize, String)> = Vec::new();
            let mut i: usize = 0;
            while i < entries.len()
                invariant
                    i <= entries@.len(),
                    copy@.len() == i,
                    forall|k: int| 0 <= k < i ==> #[trigger] copy@[k] == entries@[k],
                decreases entries.len() - i,
            {
                copy.push((entries[i].0, entries[i].1.clone()));
                i += 1;
            }
            assert(copy@ =~= entries@);
            DocxBlock::Contents { depth: *depth, alias: text_of("Table of contents"), title, entries: copy }
        },
    }
}

fn heading_style(manuscript: bool, level: u8) -> (h: HeadingStyle)
    requires
        1 <= level <= 6,
    ensures
        h.view() == heading_style_spec(manuscript, level as nat),
{
    proof {
        reveal_strlit("Heading");
        reveal_strlit("Heading ");
    }
    let size: usize = if level == 1 { 40 } else if level == 2 { 32 } else if level == 3 { 28 } else if level == 4 { 26 } else { 24 };
    HeadingStyle {
        id: heading_id("Heading", level),
        name: heading_id("Heading ", level),
        size,
        outline_level: (level - 1) as usize,
        before: 360,
        after: 240,
        centered: manuscript,
        bold: !manuscript,
    }
}

/// The Word document of a plan, every layout decision made; see `doc_spec`.
pub fn docx_document(plan: &DocxPlan) -> (d: DocxDoc)
    ensures
        d.view() == doc_spec(plan.view()),
{
    proof {
        reveal_strlit("Times New Roman");
        reveal_strlit("Georgia");
        reveal_strlit(" / ");
    }
    let mut headings: Vec<HeadingStyle> = Vec::new();
    let mut level: u8 = 1;
    while level <= 6
        invariant
            1 <= level <= 7,
            headings@.len() == level - 1,
            forall|k: int| 0 <= k < level - 1 ==> (#[trigger] headings@[k]).view() == heading_style_spec(plan.manuscript, (k + 1) as nat),
        decreases 7 - level,
    {
        headings.push(heading_style(plan.manuscript, level));
        level += 1;
    }
    assert(headings@.map_values(|h: HeadingStyle| h.view()) =~= Seq::new(
        6,
        |i: int| heading_style_spec(plan.manuscript, (i + 1) as nat),
    ));
    let mut blocks: Vec<DocxBlock> = Vec::new();
    let mut i: usize = 0;
    while i < plan.paragraphs.len()
        invariant
            i <= plan.paragraphs@.len(),
            blocks@.len() == i,
            forall|k: int| 0 <= k < i ==> (#[trigger] blocks@[k]).view() == block_spec(plan.manuscript, para_view(plan.paragraphs@[k])),
        decreases plan.paragraphs.len() - i,
    {
        blocks.push(block_layout(plan.manuscript, &plan.paragraphs[i]));
        i += 1;
    }
    assert(block_views(blocks@) =~= plan.view().paras.map_values(|p: DocxParaView| block_spec(plan.manuscript, p)));
    let header = match &plan.header {
        Some(h) => {
            if crate::text::chars_of(h.as_str()).len() > 0 {
                let mut t = String::new();
                push_str(&mut t, h.as_str());
                push_str(&mut t, " / ");
                Some(Some(t))
            } else {
                Some(None)
            }
        },
        None => None,
    };
    DocxDoc {
        font: if plan.manuscript { text_of("Times New Roman") } else { text_of("Georgia") },
        size: 24,
        margin: TWIPS_PER_INCH,
        headings,
        blocks,
        header,
        blank_first_header: plan.blank_first_header,
    }
}

#[verifier::external_type_specification]
#[verifier::external_body]
pub struct ExDocx(docx_rs::Docx);

#[verifier::external_type_specification]
#[verifier::external_body]
pub struct ExParagraph(docx_rs::Paragraph);

#[verifier::external_type_specification]
#[verifier::external_body]
pub struct ExRun(docx_rs::Run);

#[verifier::external_type_specification]
#[verifier::external_body]
pub struct ExLineSpacing(docx_rs::LineSpacing);

#[verifier::external_type_specification]
#[verifier::external_body]
pub struct ExStyle(docx_rs::Style);

#[verifier::external_type_specification]
#[verifier::external_body]
pub struct ExTableOfContents(docx_rs::TableOfContents);

#[verifier::external_type_specification]
#[verifier::external_body]
pub struct ExHeader(docx_rs::Header);

/// `LineSpacing` with the given values set.
#[verifier::external_body]
fn outside_spacing(s: &Spacing) -> LineSpacing {
    let mut l = LineSpacing::new();
    if let Some(x) = s.line {
        l = l.line(x);
    }
    if let Some(x) = s.before {
        l = l.before(x);
    }
    if let Some(x) = s.after {
        l = l.after(x);
    }
    l
}

/// `Paragraph::new()` set as the layout says.
#[verifier::external_body]
fn outside_paragraph(l: &ParaLayout) -> Paragraph {
    let mut p = Paragraph::new();
    if let Some(s) = &l.style {
        p = p.style(s);
    }
    p = match l.align {
        ParaAlign::Start => p,
        ParaAlign::Center => p.align(AlignmentType::Center),
        ParaAlign::Right => p.align(AlignmentType::Right),
    };
    outside_paragraph_rest(if l.bold { p.bold() } else { p }, l)
}

/// The spacing, indent, keep-with-next, page break and marks of a paragraph.
#[verifier::external_body]
fn outside_paragraph_rest(mut p: Paragraph, l: &ParaLayout) -> Paragraph {
    if l.keep_next {
        p = p.keep_next(true);
    }
    if l.page_break_before {
        p = p.page_break_before(true);
    }
    if let Some(s) = &l.spacing {
        p = p.line_spacing(outside_spacing(s));
    }
    if let Some(i) = &l.indent {
        p = p.indent(i.left, i.first_line.map(SpecialIndentType::FirstLine), None, None);
    }
    if l.italic { p.italic() } else { p }
}

/// A `Run` holding the piece.
#[verifier::external_body]
fn outside_piece(piece: &RunPiece) -> Run {
    match piece {
        RunPiece::Text(t) => Run::new().add_text(t),
        RunPiece::Tab => Run::new().add_tab(),
        RunPiece::LineBreak => Run::new().add_break(BreakType::TextWrapping),
        RunPiece::PageBreak => Run::new().add_break(BreakType::Page),
    }
}

/// A `Run` set as the layout says.
#[verifier::external_body]
fn outside_run(r: &RunLayout) -> Run {
    let mut run = outside_piece(&r.piece);
    if r.bold {
        run = run.bold();
    }
    if r.italic {
        run = run.italic();
    }
    if r.strike {
        run = run.strike();
    }
    if let Some(f) = &r.font {
        run = run.fonts(RunFonts::new().ascii(f).hi_ansi(f));
    }
    if let Some(n) = r.size { run.size(n) } else { run }
}

/// A `Paragraph` with its runs.
#[verifier::external_body]
fn outside_laid(p: &LaidPara) -> Paragraph {
    let mut out = outside_paragraph(&p.layout);
    for r in p.runs.iter() {
        out = out.add_run(outside_run(r));
    }
    out
}

/// A `TableOfContents` over the heading styles down to `depth`, marked for
/// Word to fill in page numbers.
#[verifier::external_body]
fn outside_contents(depth: usize, alias: &str, title: &LaidPara, entries: &Vec<(usize, String)>) -> TableOfContents {
    let mut toc = TableOfContents::new()
        .heading_styles_range(1, depth)
        .alias(alias)
        .dirty()
        .add_before_paragraph(outside_laid(title));
    for (level, text) in entries.iter() {
        toc = toc.add_item(TableOfContentsItem::new().text(text).level(*level).page_ref(""));
    }
    toc
}

/// A paragraph `Style` for a heading style.
#[verifier::external_body]
fn outside_style(h: &HeadingStyle) -> Style {
    let style = Style::new(h.id.as_str(), StyleType::Paragraph)
        .name(h.name.as_str())
        .size(h.size)
        .outline_lvl(h.outline_level)
        .line_spacing(LineSpacing::new().before(h.before).after(h.after));
    let style = if h.centered { style.align(AlignmentType::Center) } else { style };
    if h.bold { style.bold() } else { style }
}

/// A `Header` of one right-aligned line: the text, then the page number field.
#[verifier::external_body]
fn outside_header(prefix: &Option<String>) -> Header {
    let run = match prefix {
        Some(t) => Run::new().add_text(t),
        None => Run::new(),
    };
    let run = run
        .add_field_char(FieldCharType::Begin, false)
        .add_instr_text(InstrText::PAGE(InstrPAGE::new()))
        .add_field_char(FieldCharType::Separate, false)
        .add_text("1")
        .add_field_char(FieldCharType::End, false);
    Header::new().add_paragraph(Paragraph::new().align(AlignmentType::Right).add_run(run))
}

/// `Docx::new()` with the document's fonts, size, margins and heading styles.
#[verifier::external_body]
fn outside_docx(doc: &DocxDoc) -> Docx {
    let f = doc.font.as_str();
    let fonts = RunFonts::new().ascii(f).hi_ansi(f).cs(f).east_asia(f);
    let m = doc.margin;
    let mut d = Docx::new().default_fonts(fonts).default_size(doc.size).page_margin(
        PageMargin::new().top(m).bottom(m).left(m).right(m),
    );
    for h in doc.headings.iter() {
        d = d.add_style(outside_style(h));
    }
    d
}

/// The document with one more block.
#[verifier::external_body]
fn outside_block(d: Docx, b: &DocxBlock) -> Docx {
    match b {
        DocxBlock::Para(p) => d.add_paragraph(outside_laid(p)),
        DocxBlock::Contents { depth, alias, title, entries } => {
            d.add_table_of_contents(outside_contents(*depth, alias, title, entries))
        },
    }
}

/// The `.docx` package docx-rs builds and packs for the document. Nothing
/// is claimed of the bytes: docx-rs numbers table-of-contents entries with a
/// counter shared by the whole process.
#[verifier::external_body]
fn docx_bytes(doc: &DocxDoc) -> Result<Vec<u8>, String> {
    let mut d = outside_docx(doc);
    for b in doc.blocks.iter() {
        d = outside_block(d, b);
    }
    if let Some(prefix) = &doc.header {
        d = d.header(outside_header(prefix));
        if doc.blank_first_header {
            d = d.first_header(Header::new());
        }
    }
    let mut out = std::io::Cursor::new(Vec::new());
    d.build().pack(&mut out).map_err(|e| format!("DOCX error: {e}"))?;
    Ok(out.into_inner())
}

/// The `.docx` file of a book: its plan (`docx_plan`), laid out
/// (`docx_document`), written by docx-rs.
pub fn render_docx(request: &ExportRequest, book: &Book) -> Result<Vec<u8>, String> {
    let plan = docx_plan(request, book);
    let doc = docx_document(&plan);
    docx_bytes(&doc)
}

} // verus!
