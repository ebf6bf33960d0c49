//! Markdown read for export: pulldown-cmark's events with the export options,
//! as the library's items, and those items with app-only syntax removed.

use vstd::prelude::*;
use pulldown_cmark::{html, Alignment, CodeBlockKind, Event, HeadingLevel, LinkType, Options, Parser, Tag, TagEnd};
use crate::pdf::{MdItem, MdTag, MdTagEnd};
use crate::export::{clean_events, clean_run, DOC_REF_PREFIX, SEPARATOR_OPEN};
use crate::text::{starts_with, trim_start};

verus! {

/// A container tag with its strings taken by their characters.
pub enum MdTagView {
    Paragraph,
    Heading(u8),
    BlockQuote,
    CodeBlock(Seq<char>),
    List(Option<u64>),
    Item,
    Emphasis,
    Strong,
    Strikethrough,
    Link(Seq<char>, Seq<char>, bool),
    Image,
    Table(Seq<char>),
    TableHead,
    TableRow,
    TableCell,
    FootnoteDefinition(Seq<char>),
    Other,
}

/// A parse event with its strings taken by their characters.
pub enum MdItemView {
    Start(MdTagView),
    End(MdTagEnd),
    Text(Seq<char>),
    Code(Seq<char>),
    Html(Seq<char>),
    InlineHtml(Seq<char>),
    FootnoteReference(Seq<char>),
    SoftBreak,
    HardBreak,
    Rule,
    Other,
}

pub open spec fn tag_view(t: MdTag) -> MdTagView {
    match t {
        MdTag::Paragraph => MdTagView::Paragraph,
        MdTag::Heading(l) => MdTagView::Heading(l),
        MdTag::BlockQuote => MdTagView::BlockQuote,
        MdTag::CodeBlock(i) => MdTagView::CodeBlock(i@),
        MdTag::List(n) => MdTagView::List(n),
        MdTag::Item => MdTagView::Item,
        MdTag::Emphasis => MdTagView::Emphasis,
        MdTag::Strong => MdTagView::Strong,
        MdTag::Strikethrough => MdTagView::Strikethrough,
        MdTag::Link(d, t, m) => MdTagView::Link(d@, t@, m),
        MdTag::Image => MdTagView::Image,
        MdTag::Table(a) => MdTagView::Table(a@),
        MdTag::TableHead => MdTagView::TableHead,
        MdTag::TableRow => MdTagView::TableRow,
        MdTag::TableCell => MdTagView::TableCell,
        MdTag::FootnoteDefinition(l) => MdTagView::FootnoteDefinition(l@),
        MdTag::Other => MdTagView::Other,
    }
}

pub open spec fn item_view(e: MdItem) -> MdItemView {
    match e {
        MdItem::Start(t) => MdItemView::Start(tag_view(t)),
        MdItem::End(t) => MdItemView::End(t),
        MdItem::Text(s) => MdItemView::Text(s@),
        MdItem::Code(s) => MdItemView::Code(s@),
        MdItem::Html(s) => MdItemView::Html(s@),
        MdItem::InlineHtml(s) => MdItemView::InlineHtml(s@),
        MdItem::FootnoteReference(s) => MdItemView::FootnoteReference(s@),
        MdItem::SoftBreak => MdItemView::SoftBreak,
        MdItem::HardBreak => MdItemView::HardBreak,
        MdItem::Rule => MdItemView::Rule,
        MdItem::Other => MdItemView::Other,
    }
}

pub open spec fn item_views(es: Seq<MdItem>) -> Seq<MdItemView> {
    es.map_values(|e: MdItem| item_view(e))
}

/// The events pulldown-cmark parses a text into with the export options
/// (tables, strikethrough, footnotes).
pub uninterp spec fn export_md_items(markdown: Seq<char>) -> Seq<MdItemView>;

/// What cleaning carries along: for each open link whether it is internal,
/// and the events kept so far.
pub struct CleanedView {
    pub internal_links: Seq<bool>,
    pub out: Seq<MdItemView>,
}

/// One event's effect: a link into the writing library keeps its text only,
/// an image its alt text only, and raw HTML other than a scene separator
/// becomes text.
pub open spec fn cleaned_step(st: CleanedView, e: MdItemView) -> CleanedView {
    match e {
        MdItemView::Start(MdTagView::Link(dest, _, _)) => {
            let internal = starts_with(dest, DOC_REF_PREFIX@);
            CleanedView {
                internal_links: st.internal_links.push(internal),
                out: if internal { st.out } else { st.out.push(e) },
            }
        },
        MdItemView::End(MdTagEnd::Link) => {
            let skip = st.internal_links.len() > 0 && st.internal_links.last();
            CleanedView {
                internal_links: if st.internal_links.len() > 0 {
                    st.internal_links.drop_last()
                } else {
                    st.internal_links
                },
                out: if skip { st.out } else { st.out.push(e) },
            }
        },
        MdItemView::Start(MdTagView::Image) | MdItemView::End(MdTagEnd::Image) => st,
        MdItemView::Html(raw) | MdItemView::InlineHtml(raw) => CleanedView {
            out: if starts_with(trim_start(raw), SEPARATOR_OPEN@) {
                st.out.push(e)
            } else {
                st.out.push(MdItemView::Text(raw))
            },
            ..st
        },
        _ => CleanedView { out: st.out.push(e), ..st },
    }
}

pub open spec fn cleaned_run(es: Seq<MdItemView>) -> CleanedView
    decreases es.len(),
{
    if es.len() == 0 {
        CleanedView { internal_links: Seq::empty(), out: Seq::empty() }
    } else {
        cleaned_step(cleaned_run(es.drop_last()), es.last())
    }
}

/// The events with app-only syntax removed.
pub open spec fn cleaned(es: Seq<MdItemView>) -> Seq<MdItemView> {
    cleaned_run(es).out
}

/// Cleaning the items and taking views agree with taking views and cleaning.
pub proof fn lemma_clean_views(es: Seq<MdItem>)
    ensures
        item_views(clean_run(es).out) == cleaned_run(item_views(es)).out,
        clean_run(es).internal_links == cleaned_run(item_views(es)).internal_links,
    decreases es.len(),
{
    if es.len() > 0 {
        lemma_clean_views(es.drop_last());
        assert(item_views(es).drop_last() =~= item_views(es.drop_last()));
        let st = clean_run(es.drop_last());
        let e = es.last();
        assert(item_views(st.out.push(e)) =~= item_views(st.out).push(item_view(e)));
        match e {
            MdItem::Html(raw) | MdItem::InlineHtml(raw) => {
                assert(item_views(st.out.push(MdItem::Text(raw))) =~= item_views(st.out).push(
                    MdItemView::Text(raw@),
                ));
            },
            _ => {},
        }
    } else {
        assert(item_views(es) =~= Seq::<MdItemView>::empty());
        assert(item_views(Seq::<MdItem>::empty()) =~= Seq::<MdItemView>::empty());
    }
}

#[verifier::external_type_specification]
#[verifier::external_body]
pub struct ExTag<'a>(pulldown_cmark::Tag<'a>);

#[verifier::external_type_specification]
#[verifier::external_body]
pub struct ExTagEnd(pulldown_cmark::TagEnd);

#[verifier::external_type_specification]
#[verifier::external_body]
pub struct ExEvent<'a>(pulldown_cmark::Event<'a>);

#[verifier::external_type_specification]
#[verifier::external_body]
pub struct ExAlignment(pulldown_cmark::Alignment);

#[verifier::external_type_specification]
#[verifier::external_body]
pub struct ExHeadingLevel(pulldown_cmark::HeadingLevel);

#[verifier::external_type_specification]
#[verifier::external_body]
pub struct ExLinkType(pulldown_cmark::LinkType);

/// The options export reads Markdown with: tables, strikethrough, footnotes.
#[verifier::external_body]
fn export_options() -> Options {
    Options::ENABLE_TABLES | Options::ENABLE_STRIKETHROUGH | Options::ENABLE_FOOTNOTES
}

/// Carries a pulldown-cmark block tag over to the library's tag.
#[verifier::external_body]
fn block_tag(t: Tag) -> MdTag {
    match t {
        Tag::Paragraph => MdTag::Paragraph,
        Tag::Heading { level, .. } => MdTag::Heading(level as u8),
        Tag::BlockQuote(_) => MdTag::BlockQuote,
        Tag::CodeBlock(CodeBlockKind::Fenced(i)) => MdTag::CodeBlock(i.to_string()),
        Tag::CodeBlock(CodeBlockKind::Indented) => MdTag::CodeBlock(String::new()),
        Tag::List(n) => MdTag::List(n),
        Tag::Item => MdTag::Item,
        Tag::Emphasis => MdTag::Emphasis,
        Tag::Strong => MdTag::Strong,
        Tag::Strikethrough => MdTag::Strikethrough,
        other => inline_tag(other),
    }
}

/// Carries the remaining pulldown-cmark tags over to the library's tag.
#[verifier::external_body]
fn inline_tag(t: Tag) -> MdTag {
    match t {
        Tag::Link { link_type: LinkType::Email, dest_url: d, title: t, .. } => MdTag::Link(d.to_string(), t.to_string(), true),
        Tag::Link { dest_url: d, title: t, .. } => MdTag::Link(d.to_string(), t.to_string(), false),
        Tag::Image { .. } => MdTag::Image,
        Tag::Table(a) => MdTag::Table(a.into_iter().map(alignment_char).collect()),
        Tag::TableHead => MdTag::TableHead,
        Tag::TableRow => MdTag::TableRow,
        Tag::TableCell => MdTag::TableCell,
        Tag::FootnoteDefinition(l) => MdTag::FootnoteDefinition(l.to_string()),
        _ => MdTag::Other,
    }
}

/// A column alignment as its letter.
#[verifier::external_body]
fn alignment_char(a: Alignment) -> char {
    match a {
        Alignment::None => '-',
        Alignment::Left => 'l',
        Alignment::Center => 'c',
        Alignment::Right => 'r',
    }
}

/// Carries a pulldown-cmark closing tag over to the library's.
#[verifier::external_body]
fn block_tag_end(t: TagEnd) -> MdTagEnd {
    match t {
        TagEnd::Paragraph => MdTagEnd::Paragraph,
        TagEnd::Heading(level) => MdTagEnd::Heading(level as u8),
        TagEnd::BlockQuote(_) => MdTagEnd::BlockQuote,
        TagEnd::CodeBlock => MdTagEnd::CodeBlock,
        TagEnd::List(numbered) => MdTagEnd::List(numbered),
        TagEnd::Item => MdTagEnd::Item,
        TagEnd::Emphasis => MdTagEnd::Emphasis,
        TagEnd::Strong => MdTagEnd::Strong,
        TagEnd::Strikethrough => MdTagEnd::Strikethrough,
        other => inline_tag_end(other),
    }
}

/// Carries the remaining pulldown-cmark closing tags over to the library's.
#[verifier::external_body]
fn inline_tag_end(t: TagEnd) -> MdTagEnd {
    match t {
        TagEnd::Link => MdTagEnd::Link,
        TagEnd::Image => MdTagEnd::Image,
        TagEnd::Table => MdTagEnd::Table,
        TagEnd::TableHead => MdTagEnd::TableHead,
        TagEnd::TableRow => MdTagEnd::TableRow,
        TagEnd::TableCell => MdTagEnd::TableCell,
        TagEnd::FootnoteDefinition => MdTagEnd::FootnoteDefinition,
        _ => MdTagEnd::Other,
    }
}

/// `pulldown_cmark::Parser::new_ext` with the export options, each event
/// carried over to an item. The parse depends on the text alone and is
/// named `export_md_items`.
#[verifier::external_body]
fn export_markdown_events(markdown: &str) -> (r: Vec<MdItem>)
    ensures
        item_views(r@) == export_md_items(markdown@),
{
    Parser::new_ext(markdown, export_options()).map(|e| match e {
        Event::Start(t) => MdItem::Start(block_tag(t)),
        Event::End(t) => MdItem::End(block_tag_end(t)),
        Event::Text(s) => MdItem::Text(s.to_string()),
        Event::Code(s) => MdItem::Code(s.to_string()),
        Event::Html(s) => MdItem::Html(s.to_string()),
        Event::InlineHtml(s) => MdItem::InlineHtml(s.to_string()),
        Event::FootnoteReference(s) => MdItem::FootnoteReference(s.to_string()),
        Event::SoftBreak => MdItem::SoftBreak,
        Event::HardBreak => MdItem::HardBreak,
        Event::Rule => MdItem::Rule,
        _ => MdItem::Other,
    }).collect()
}

/// The export's events of `markdown` with app-only syntax removed: links to
/// other writings keep their text, images their alt text, and raw HTML is
/// shown as text (EPUB needs valid XHTML), except a scene separator.
pub fn clean_markdown(markdown: &str) -> (r: Vec<MdItem>)
    ensures
        item_views(r@) == cleaned(export_md_items(markdown@)),
{
    let events = export_markdown_events(markdown);
    let ghost es = events@;
    let r = clean_events(events);
    proof {
        lemma_clean_views(es);
    }
    r
}

/// The HTML pulldown-cmark writes for a run of events (`html::push_html`
/// into an empty string).
pub uninterp spec fn md_html(items: Seq<MdItemView>) -> Seq<char>;

/// `HeadingLevel::try_from`: a heading level from its number; the library's
/// levels run from 1 to 6, and anything else reads as the lowest level.
#[verifier::external_body]
fn heading_level(l: u8) -> HeadingLevel {
    HeadingLevel::try_from(l as usize).unwrap_or(HeadingLevel::H6)
}

/// A column alignment from its letter.
#[verifier::external_body]
fn char_alignment(c: char) -> Alignment {
    match c {
        'l' => Alignment::Left,
        'c' => Alignment::Center,
        'r' => Alignment::Right,
        _ => Alignment::None,
    }
}

/// Carries a block tag back to pulldown-cmark's.
#[verifier::external_body]
fn outside_block_tag(t: MdTag) -> Tag<'static> {
    match t {
        MdTag::Paragraph => Tag::Paragraph,
        MdTag::Heading(l) => Tag::Heading { level: heading_level(l), id: None, classes: Vec::new(), attrs: Vec::new() },
        MdTag::BlockQuote => Tag::BlockQuote(None),
        MdTag::CodeBlock(i) => Tag::CodeBlock(CodeBlockKind::Fenced(i.into())),
        MdTag::List(n) => Tag::List(n),
        MdTag::Item => Tag::Item,
        MdTag::Emphasis => Tag::Emphasis,
        MdTag::Strong => Tag::Strong,
        MdTag::Strikethrough => Tag::Strikethrough,
        other => outside_inline_tag(other),
    }
}

/// A link tag of pulldown-cmark's with the given kind, destination and title.
#[verifier::external_body]
fn outside_link(kind: LinkType, dest: String, title: String) -> Tag<'static> {
    Tag::Link { link_type: kind, dest_url: dest.into(), title: title.into(), id: "".into() }
}

/// Carries the remaining tags back to pulldown-cmark's.
#[verifier::external_body]
fn outside_inline_tag(t: MdTag) -> Tag<'static> {
    match t {
        MdTag::Link(d, t, true) => outside_link(LinkType::Email, d, t),
        MdTag::Link(d, t, false) => outside_link(LinkType::Inline, d, t),
        MdTag::Image => Tag::Image { link_type: LinkType::Inline, dest_url: "".into(), title: "".into(), id: "".into() },
        MdTag::Table(a) => Tag::Table(a.chars().map(char_alignment).collect()),
        MdTag::TableHead => Tag::TableHead,
        MdTag::TableRow => Tag::TableRow,
        MdTag::TableCell => Tag::TableCell,
        MdTag::FootnoteDefinition(l) => Tag::FootnoteDefinition(l.into()),
        _ => Tag::HtmlBlock,
    }
}

/// Carries a closing tag back to pulldown-cmark's.
#[verifier::external_body]
fn outside_tag_end(t: MdTagEnd) -> TagEnd {
    match t {
        MdTagEnd::Paragraph => TagEnd::Paragraph,
        MdTagEnd::Heading(l) => TagEnd::Heading(heading_level(l)),
        MdTagEnd::BlockQuote => TagEnd::BlockQuote(None),
        MdTagEnd::List(numbered) => TagEnd::List(numbered),
        MdTagEnd::Item => TagEnd::Item,
        MdTagEnd::Emphasis => TagEnd::Emphasis,
        MdTagEnd::Strong => TagEnd::Strong,
        MdTagEnd::Strikethrough => TagEnd::Strikethrough,
        other => outside_inline_tag_end(other),
    }
}

/// Carries the remaining closing tags back to pulldown-cmark's.
#[verifier::external_body]
fn outside_inline_tag_end(t: MdTagEnd) -> TagEnd {
    match t {
        MdTagEnd::CodeBlock => TagEnd::CodeBlock,
        MdTagEnd::Link => TagEnd::Link,
        MdTagEnd::Image => TagEnd::Image,
        MdTagEnd::Table => TagEnd::Table,
        MdTagEnd::TableHead => TagEnd::TableHead,
        MdTagEnd::TableRow => TagEnd::TableRow,
        MdTagEnd::TableCell => TagEnd::TableCell,
        MdTagEnd::FootnoteDefinition => TagEnd::FootnoteDefinition,
        _ => TagEnd::HtmlBlock,
    }
}

/// Carries an item back to pulldown-cmark's event.
#[verifier::external_body]
fn outside_event(e: MdItem) -> Event<'static> {
    match e {
        MdItem::Start(t) => Event::Start(outside_block_tag(t)),
        MdItem::End(t) => Event::End(outside_tag_end(t)),
        MdItem::Text(s) => Event::Text(s.into()),
        MdItem::Code(s) => Event::Code(s.into()),
        MdItem::Html(s) => Event::Html(s.into()),
        MdItem::InlineHtml(s) => Event::InlineHtml(s.into()),
        MdItem::FootnoteReference(s) => Event::FootnoteReference(s.into()),
        MdItem::SoftBreak => Event::SoftBreak,
        MdItem::HardBreak => Event::HardBreak,
        MdItem::Rule => Event::Rule,
        MdItem::Other => Event::Text("".into()),
    }
}

/// `pulldown_cmark::html::push_html` into an empty string, over the items
/// carried back to pulldown-cmark's events. The HTML depends on the events
/// alone and is named `md_html`.
#[verifier::external_body]
fn events_html(items: Vec<MdItem>) -> (r: String)
    ensures
        r@ == md_html(item_views(items@)),
{
    let mut out = String::new();
    html::push_html(&mut out, items.into_iter().map(outside_event));
    out
}

/// The HTML the export writes for a text: its cleaned events, written out.
pub open spec fn html_of(markdown: Seq<char>) -> Seq<char> {
    md_html(cleaned(export_md_items(markdown)))
}

/// The HTML of a text for the book's HTML page and EPUB chapters, from its
/// cleaned export events.
pub fn markdown_to_html(markdown: &str) -> (r: String)
    ensures
        r@ == html_of(markdown@),
{
    let items = clean_markdown(markdown);
    events_html(items)
}

} // verus!
