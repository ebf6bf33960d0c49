use memoire::export::clean_events;
use memoire::pdf::{escape_text, events_to_typst, preamble, try_events_to_typst, string_literal, MdItem, MdTag, MdTagEnd, PageSize, PdfLayout};
use pulldown_cmark::{CodeBlockKind, Event, LinkType, Options, Parser, Tag, TagEnd};

fn tag(t: Tag) -> MdTag {
    match t {
        Tag::Paragraph => MdTag::Paragraph,
        Tag::Heading { level, .. } => MdTag::Heading(level as u8),
        Tag::BlockQuote(_) => MdTag::BlockQuote,
        Tag::CodeBlock(CodeBlockKind::Fenced(i)) => MdTag::CodeBlock(i.to_string()),
        Tag::CodeBlock(CodeBlockKind::Indented) => MdTag::CodeBlock(String::new()),
        Tag::List(n) => MdTag::List(n),
        Tag::Item => MdTag::Item,
        Tag::Emphasis => MdTag::Emphasis,
        Tag::Strong => MdTag::Strong,
        Tag::Strikethrough => MdTag::Strikethrough,
        Tag::Link { link_type, dest_url, title, .. } => {
            MdTag::Link(dest_url.to_string(), title.to_string(), link_type == LinkType::Email)
        }
        Tag::Image { .. } => MdTag::Image,
        Tag::Table(a) => MdTag::Table(a.iter().map(|_| '-').collect()),
        Tag::TableHead => MdTag::TableHead,
        Tag::TableRow => MdTag::TableRow,
        Tag::TableCell => MdTag::TableCell,
        Tag::FootnoteDefinition(l) => MdTag::FootnoteDefinition(l.to_string()),
        _ => MdTag::Other,
    }
}

fn tag_end(t: TagEnd) -> MdTagEnd {
    match t {
        TagEnd::Paragraph => MdTagEnd::Paragraph,
        TagEnd::Heading(l) => MdTagEnd::Heading(l as u8),
        TagEnd::BlockQuote(_) => MdTagEnd::BlockQuote,
        TagEnd::CodeBlock => MdTagEnd::CodeBlock,
        TagEnd::List(n) => MdTagEnd::List(n),
        TagEnd::Item => MdTagEnd::Item,
        TagEnd::Emphasis => MdTagEnd::Emphasis,
        TagEnd::Strong => MdTagEnd::Strong,
        TagEnd::Strikethrough => MdTagEnd::Strikethrough,
        TagEnd::Link => MdTagEnd::Link,
        TagEnd::Image => MdTagEnd::Image,
        TagEnd::Table => MdTagEnd::Table,
        TagEnd::TableHead => MdTagEnd::TableHead,
        TagEnd::TableRow => MdTagEnd::TableRow,
        TagEnd::TableCell => MdTagEnd::TableCell,
        TagEnd::FootnoteDefinition => MdTagEnd::FootnoteDefinition,
        _ => MdTagEnd::Other,
    }
}

fn items(markdown: &str) -> Vec<MdItem> {
    let options = Options::ENABLE_TABLES | Options::ENABLE_STRIKETHROUGH | Options::ENABLE_FOOTNOTES;
    Parser::new_ext(markdown, options)
        .map(|e| match e {
            Event::Start(t) => MdItem::Start(tag(t)),
            Event::End(t) => MdItem::End(tag_end(t)),
            Event::Text(s) => MdItem::Text(s.to_string()),
            Event::Code(s) => MdItem::Code(s.to_string()),
            Event::Html(s) => MdItem::Html(s.to_string()),
            Event::InlineHtml(s) => MdItem::InlineHtml(s.to_string()),
            Event::FootnoteReference(s) => MdItem::FootnoteReference(s.to_string()),
            Event::SoftBreak => MdItem::SoftBreak,
            Event::HardBreak => MdItem::HardBreak,
            Event::Rule => MdItem::Rule,
            _ => MdItem::Other,
        })
        .collect()
}

fn convert(markdown: &str) -> String {
    events_to_typst(items(markdown))
}

#[test]
fn escapes_everything_typst_would_read_as_syntax() {
    let out = convert("Price: $5 #1 @me = 1. <b> (a)[b] ~/ 2-3");
    assert!(!out.contains(" $5"), "{out}");
    assert!(out.contains("\\$5") && out.contains("\\#1") && out.contains("\\@me") && out.contains("\\(a\\)"));
}

#[test]
fn structure_maps_to_typst_functions() {
    let out = convert("# Title\n\nSome *em* and **strong**.\n\n- one\n- two\n\n> quoted\n\n```\nlet x = \"y\";\n```\n");
    assert!(out.contains("#heading(level: 1)[Title]"), "{out}");
    assert!(out.contains("#emph[em]") && out.contains("#strong[strong]"), "{out}");
    assert!(out.contains("#list([one], [two], )"), "{out}");
    assert!(out.contains("#quote(block: true)[quoted]"), "{out}");
    assert!(out.contains(r#"#raw(block: true, "let x = \"y\";")"#), "{out}");
}

#[test]
fn escape_text_and_string_literal_exact() {
    assert_eq!(escape_text("a.b (c)"), "a\\.b \\(c\\)");
    assert_eq!(escape_text("plain words"), "plain words");
    assert_eq!(string_literal("say \"hi\"\n"), "\"say \\\"hi\\\"\\n\"");
}

#[test]
fn paragraphs_breaks_and_rules() {
    assert_eq!(convert("one\ntwo"), "one two\n\n");
    assert_eq!(convert("one  \ntwo"), "one#linebreak()two\n\n");
    assert_eq!(convert("a\n\n---\n\nb"), "a\n\n#separator[\\*~\\*~\\*]\n\nb\n\n");
}

#[test]
fn ordered_lists_start_where_the_markdown_does() {
    assert_eq!(convert("3. three\n4. four"), "#enum(start: 3, [three], [four], )\n\n");
}

#[test]
fn tables_collect_their_cells() {
    let out = convert("| a | b |\n|---|---|\n| 1 | 2 |");
    assert_eq!(out, "#table(columns: 2, [a], [b], [1], [2])\n\n");
}

#[test]
fn footnote_definitions_are_dropped() {
    let out = convert("Text[^1].\n\n[^1]: Gone.");
    assert!(!out.contains("Gone"), "{out}");
    assert!(out.starts_with("Text"), "{out}");
}

#[test]
fn links_and_inline_code() {
    assert_eq!(convert("[x](http://a.b)"), "#link(\"http://a.b\")[x]\n\n");
    assert_eq!(convert("use `a\"b`"), "use #raw(\"a\\\"b\")\n\n");
}

#[test]
fn separators_survive_and_other_html_does_not() {
    let sep = vec![MdItem::Html("<p class=\"separator\">&lt;*&gt;</p>\n".to_string())];
    assert_eq!(events_to_typst(sep), "#separator[\\<\\*\\>]\n\n");
    let other = vec![MdItem::Html("<div>x</div>".to_string())];
    assert_eq!(events_to_typst(other), "");
}

#[test]
fn cleaning_drops_internal_links_and_images_and_shows_raw_html() {
    let events = vec![
        MdItem::Start(MdTag::Link("#writing/abc".to_string(), String::new(), false)),
        MdItem::Text("Scene".to_string()),
        MdItem::End(MdTagEnd::Link),
        MdItem::Start(MdTag::Link("https://x.y".to_string(), String::new(), false)),
        MdItem::Text("site".to_string()),
        MdItem::End(MdTagEnd::Link),
        MdItem::Start(MdTag::Image),
        MdItem::Text("alt".to_string()),
        MdItem::End(MdTagEnd::Image),
        MdItem::InlineHtml("<b>".to_string()),
        MdItem::Html("  <p class=\"separator\">*</p>".to_string()),
    ];
    let cleaned = clean_events(events);
    assert_eq!(
        cleaned,
        vec![
            MdItem::Text("Scene".to_string()),
            MdItem::Start(MdTag::Link("https://x.y".to_string(), String::new(), false)),
            MdItem::Text("site".to_string()),
            MdItem::End(MdTagEnd::Link),
            MdItem::Text("alt".to_string()),
            MdItem::Text("<b>".to_string()),
            MdItem::Html("  <p class=\"separator\">*</p>".to_string()),
        ]
    );
}

fn original_preamble(title: &str, author: &str, manuscript: bool, breaks: bool, lang: &str, head: Option<&str>, front: &str, toc: Option<usize>) -> String {
    let paper = "a4";
    let (font, size, leading, spacing, justify) = if manuscript {
        (r#"("Times New Roman", "Libertinus Serif")"#, "12pt", "1.5em", "1.5em", "false")
    } else {
        (r#"("Libertinus Serif", "New Computer Modern")"#, "11pt", "0.7em", "0.7em", "true")
    };
    let chapter_break = if breaks { "pagebreak(weak: true)" } else { "v(2em)" };
    let mut out = format!(
        r#"#set document(title: {title}, author: {author})
#set page(paper: "{paper}", margin: (x: 2.5cm, y: 2.5cm), numbering: "1", number-align: center)
#set text(font: {font}, size: {size}, lang: {lang}, hyphenate: {hyphenate})
#set par(justify: {justify}, leading: {leading}, spacing: {spacing}, first-line-indent: (amount: 1.5em, all: false))
#show raw: set text(font: "DejaVu Sans Mono", size: 0.85em)
#let breathe(body) = {{ v(0.6em); body; v(0.6em) }}
#show quote.where(block: true): it => pad(x: 2em, text(style: "italic", it.body))
#show list: breathe
#show enum: breathe
#show table: breathe
#show raw.where(block: true): breathe
#show heading: it => block(above: 2em, below: 1em, sticky: true, text(weight: "regular", size: 1.2em, it.body))
#show heading.where(level: 1): it => {{
  {chapter_break}
  v(12%)
  align(center, text(size: 1.9em, weight: "regular", it.body))
  v(2.5em)
}}
#let separator(body) = block(width: 100%, inset: (y: 0.6em), align(center, body))
"#,
        title = string_literal(title),
        author = string_literal(author),
        lang = string_literal(lang),
        hyphenate = !manuscript,
    );
    if !title.trim().is_empty() {
        out.push_str(&format!("#page(numbering: none)[#v(30%)#align(center)[#text(size: 3.2em)[{}]", escape_text(title.trim())));
        if !author.trim().is_empty() {
            out.push_str(&format!("#v(1.5em)#text(size: 1.3em, style: \"italic\")[{}]", escape_text(author.trim())));
        }
        out.push_str("]]\n#counter(page).update(1)\n\n");
    }
    if let Some(head) = head {
        let prefix = if head.is_empty() { String::new() } else { format!("{} / ", escape_text(head)) };
        out.push_str(&format!("#set page(header: align(right, text(size: 0.9em)[{prefix}#context counter(page).display()]), footer: none)\n"));
    }
    out.push_str(front);
    if let Some(depth) = toc {
        out.push_str(&format!("#page[#align(center, text(size: 1.6em)[Contents])#v(1.5em)#outline(title: none, depth: {depth})]\n\n"));
    }
    out
}

#[test]
fn preamble_sets_up_pages_title_and_contents() {
    let layout = PdfLayout {
        title: "My Novel",
        author: "A. Writer",
        page_size: PageSize::A4,
        manuscript: false,
        chapter_page_breaks: true,
        lang: "en",
        toc_depth: Some(2),
        running_head: Some("Writer / MY NOVEL".to_string()),
        front: "#page[Front]\n",
    };
    assert_eq!(
        preamble(&layout),
        original_preamble("My Novel", "A. Writer", false, true, "en", Some("Writer / MY NOVEL"), "#page[Front]\n", Some(2))
    );
}

#[test]
fn manuscript_preamble_without_title() {
    let layout = PdfLayout {
        title: "  ",
        author: "",
        page_size: PageSize::A4,
        manuscript: true,
        chapter_page_breaks: false,
        lang: "de",
        toc_depth: None,
        running_head: Some(String::new()),
        front: "",
    };
    let out = preamble(&layout);
    assert_eq!(out, original_preamble("  ", "", true, false, "de", Some(""), "", None));
    assert!(out.contains("hyphenate: false") && out.contains("v(2em)"));
    assert!(!out.contains("#page(numbering: none)"));
}

#[test]
fn conversion_refuses_writing_after_every_buffer_closed() {
    let bad = vec![MdItem::End(MdTagEnd::TableCell), MdItem::Text("x".to_string())];
    assert_eq!(try_events_to_typst(bad), None);
    let harmless = vec![MdItem::End(MdTagEnd::TableCell)];
    assert_eq!(try_events_to_typst(harmless), Some(String::new()));
    assert_eq!(try_events_to_typst(items("*a*")), Some(events_to_typst(items("*a*"))));
}
