use memoire::export::{
    apply_chapter_headings, chapter_heading, compile_markdown, demote_headings, drop_empty_headings,
    escape_separator, file_stem, front_matter_value, number_word, roman, section_end,
    strip_front_matter, toc_entries, ExportFormat, ExportItem, ExportRequest, MatterKind, MatterStyle,
    Part,
};
use memoire::pdf::PageSize;

fn request(format: ExportFormat, items: Vec<ExportItem>) -> ExportRequest {
    ExportRequest {
        format,
        title: "My Novel".into(),
        author: "A. Writer".into(),
        items,
        scene_separator: "* * *".into(),
        manuscript_format: true,
        chapter_page_breaks: true,
        page_size: PageSize::default(),
        lang: None,
        chapter_heading: String::new(),
        exclude_statuses: Vec::new(),
        table_of_contents: false,
        running_head: false,
        front_matter: Vec::new(),
        back_matter: Vec::new(),
    }
}

fn heading(level: u8, text: &str) -> Part {
    Part::Heading { level, text: text.into() }
}

fn doc(label: &str, title: Option<&str>, markdown: &str) -> Part {
    Part::Document {
        title: title.map(|t| t.to_string()),
        label: label.into(),
        markdown: markdown.into(),
        status: None,
    }
}

fn headings(parts: &[Part]) -> Vec<String> {
    parts
        .iter()
        .filter_map(|p| match p {
            Part::Heading { text, .. } => Some(text.clone()),
            Part::Document { title, .. } => title.clone(),
        })
        .collect()
}

#[test]
fn front_matter_is_not_exported() {
    assert_eq!(strip_front_matter("---\nstatus: \"Done\"\n---\n\nBody"), "Body");
    assert_eq!(strip_front_matter("---\ntags:\n  - a\n---\nBody"), "Body");
    assert_eq!(strip_front_matter("---\n\nNot metadata\n---\n"), "---\n\nNot metadata\n---\n");
    let prose = "---\ntitle: x\nSome prose here.\n---\nMore";
    assert_eq!(strip_front_matter(prose), prose);
    assert_eq!(strip_front_matter("Plain"), "Plain");
}

#[test]
fn headings_in_writings_sit_below_structure() {
    let md = "# Inside\n\n```\n# not a heading\n```\n\n#hashtag\n\n###### Deep";
    let out = demote_headings(md, 2);
    assert!(out.starts_with("### Inside"), "{out}");
    assert!(out.contains("\n# not a heading\n"), "{out}");
    assert!(out.contains("#hashtag"), "{out}");
    assert!(out.contains("###### Deep"), "{out}");
}

#[test]
fn number_formats() {
    assert_eq!(number_word(21), "Twenty-One");
    assert_eq!(number_word(40), "Forty");
    assert_eq!(number_word(120), "120");
    assert_eq!(roman(1994), "MCMXCIV");
    assert_eq!(
        front_matter_value("---\nstatus: 'It''s done'\n---\nx", "status").as_deref(),
        Some("It's done")
    );
    assert_eq!(front_matter_value("No block", "status"), None);
}

#[test]
fn front_matter_values_are_unquoted() {
    let md = "---\nsynopsis: \"She says: \\\"no\\\"\"\nstatus: Done\r\nlabel: \"\"\n---\nText";
    assert_eq!(front_matter_value(md, "synopsis").as_deref(), Some("She says: \"no\""));
    assert_eq!(front_matter_value(md, "status").as_deref(), Some("Done"));
    assert_eq!(front_matter_value(md, "label"), None);
    assert_eq!(front_matter_value(md, "missing"), None);
    assert_eq!(front_matter_value("---\ns: \"broken\n---\n", "s").as_deref(), Some("broken"));
}

#[test]
fn crlf_blocks_and_blank_lines_after_them() {
    assert_eq!(strip_front_matter("---\r\nstatus: x\r\n---\r\n\r\nBody"), "Body");
    assert_eq!(strip_front_matter("---\nstatus: x\n"), "---\nstatus: x\n");
    assert_eq!(strip_front_matter("---\nkey: v\n# note\n---  \nB"), "B");
}

#[test]
fn demoting_caps_at_six_and_keeps_indented_code() {
    assert_eq!(demote_headings("## Two", 5), "###### Two");
    assert_eq!(demote_headings("    # code", 1), "    # code");
    assert_eq!(demote_headings("  # near", 1), "## near");
    assert_eq!(demote_headings("# same", 0), "# same");
    assert_eq!(demote_headings("~~~\n# in\n```\n# still\n~~~\n# out", 1), "~~~\n# in\n```\n# still\n~~~\n## out");
}

#[test]
fn numbers_and_roman_numerals() {
    assert_eq!(number_word(0), "Zero");
    assert_eq!(number_word(19), "Nineteen");
    assert_eq!(number_word(99), "Ninety-Nine");
    assert_eq!(roman(4), "IV");
    assert_eq!(roman(3999), "MMMCMXCIX");
    assert_eq!(roman(0), "0");
    assert_eq!(roman(4000), "4000");
}

#[test]
fn chapter_heading_templates() {
    assert_eq!(chapter_heading("Chapter {word} ({roman}): {title}", 2, " Storm "), "Chapter Two (II): Storm");
    assert_eq!(chapter_heading("{n}. {title}", 1, "Opening"), "1. Opening");
    assert_eq!(chapter_heading("  {title} ", 3, "   "), "   ");
}

#[test]
fn chapter_headings_number_innermost_folders() {
    let mut parts = vec![
        heading(1, "Part One"),
        heading(2, "Arrival"),
        doc("a", None, "Text"),
        heading(2, "Storm"),
        doc("b", None, "Text"),
        heading(1, "Part Two"),
        heading(2, "After"),
        doc("c", None, "Text"),
    ];
    apply_chapter_headings("Chapter {word} ({roman}): {title}", &mut parts);
    assert_eq!(
        headings(&parts),
        ["Part One", "Chapter One (I): Arrival", "Chapter Two (II): Storm", "Part Two", "Chapter Three (III): After"]
    );
}

#[test]
fn chapter_headings_without_folders_use_writings() {
    let mut parts = vec![doc("Opening", None, "Text"), doc("b", Some("The Road"), "Text")];
    apply_chapter_headings("{n}. {title}", &mut parts);
    assert_eq!(headings(&parts), ["1. Opening", "2. The Road"]);
    let mut unchanged = vec![doc("x", None, "T")];
    apply_chapter_headings("   ", &mut unchanged);
    assert!(headings(&unchanged).is_empty());
}

#[test]
fn sections_and_empty_folders() {
    let parts = vec![heading(1, "One"), doc("a", None, "A"), heading(2, "Empty"), heading(1, "Two"), heading(1, "Three"), doc("c", None, "C")];
    assert_eq!(section_end(&parts, 0, 1), 3);
    assert_eq!(section_end(&parts, 2, 2), 3);
    assert_eq!(section_end(&parts, 4, 1), 6);
    let kept = drop_empty_headings(parts);
    assert_eq!(headings(&kept), ["One", "Three"]);
    assert_eq!(kept.len(), 4);
}

#[test]
fn contents_use_folders_or_titles() {
    let parts = vec![heading(1, "Part"), doc("a", Some("T"), "x"), heading(2, "Ch")];
    let entries: Vec<(usize, String)> = toc_entries(&parts);
    assert_eq!(entries, vec![(1, "Part".to_string()), (2, "Ch".to_string())]);
    let parts = vec![doc("a", Some("  First "), "x"), doc("b", None, "y"), doc("c", Some(" "), "z")];
    assert_eq!(toc_entries(&parts), vec![(1, "First".to_string())]);
}

#[test]
fn markdown_compile_orders_and_separates() {
    let parts = vec![
        heading(1, "Chapter 1"),
        doc("Scene 1", None, "It was *dark*.\n"),
        doc("Scene 2", Some("Scene 2"), "# Inside\n\nText"),
    ];
    let out = compile_markdown(&request(ExportFormat::Markdown, Vec::new()), &parts);
    assert_eq!(
        out,
        "# My Novel\n\n*A. Writer*\n\n## Chapter 1\n\nIt was *dark*.\n\n<p class=\"separator\">* * *</p>\n\n### Scene 2\n\n#### Inside\n\nText\n\n"
    );
    let untitled = ExportRequest { title: "  ".into(), scene_separator: String::new(), ..request(ExportFormat::Markdown, Vec::new()) };
    let out = compile_markdown(&untitled, &[doc("a", None, "one"), doc("b", None, "two")]);
    assert_eq!(out, "one\n\ntwo\n\n");
}

#[test]
fn names_languages_and_running_heads() {
    assert_eq!(file_stem("  My: Novel?. "), "My- Novel-");
    assert_eq!(file_stem(" ... "), "Untitled");
    assert_eq!(escape_separator(" <*> & \"x\" "), "<p class=\"separator\">&lt;*&gt; &amp; &quot;x&quot;</p>");
    let mut req = request(ExportFormat::Pdf, Vec::new());
    assert_eq!(req.language(), "en");
    req.lang = Some(" de ".into());
    assert_eq!(req.language(), "de");
    req.lang = Some("EN".into());
    assert_eq!(req.language(), "en");
    assert_eq!(req.running_head_text(), None);
    req.running_head = true;
    assert_eq!(req.running_head_text().as_deref(), Some("Writer / MY NOVEL"));
    req.author = "   ".into();
    assert_eq!(req.running_head_text().as_deref(), Some("MY NOVEL"));
    assert_eq!(ExportFormat::Markdown.extension(), "md");
    assert_eq!(MatterKind::AboutTheAuthor.id(), "about-the-author");
    assert_eq!(MatterKind::Foreword.style(), MatterStyle::Headed("Foreword"));
    assert_eq!(MatterKind::Epigraph.style(), MatterStyle::Centered);
}
