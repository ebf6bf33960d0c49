use memoire::book::{compile_settings_path, safe_join};
use memoire::book::{
    compile_book_markdown, document_part, epub_chapters, heading_part, manuscript_body, matter_body, matter_html,
    matter_page, matter_source, matter_typst, prepare_manuscript, assemble_html, render_html, xhtml_page, Book, Matter,
    ALL_FILTERED, BOOK_CSS, PRINT_CSS,
};
use memoire::export::{compile_markdown, ExportFormat, ExportItem, ExportRequest, MatterItem, MatterKind, Part};
use memoire::pdf::PageSize;

fn request(items: Vec<ExportItem>) -> ExportRequest {
    ExportRequest {
        format: ExportFormat::Markdown,
        title: "My Novel".into(),
        author: "A. Writer".into(),
        items,
        scene_separator: "* * *".into(),
        manuscript_format: true,
        chapter_page_breaks: true,
        page_size: PageSize::default(),
        lang: None,
        chapter_heading: String::new(),
        exclude_statuses: Vec::new(),
        table_of_contents: false,
        running_head: false,
        front_matter: Vec::new(),
        back_matter: Vec::new(),
    }
}

fn titles(parts: &[Part]) -> Vec<String> {
    parts
        .iter()
        .filter_map(|p| match p {
            Part::Heading { text, .. } => Some(text.clone()),
            Part::Document { title, .. } => title.clone(),
        })
        .collect()
}

fn filter_sample() -> Vec<Part> {
    vec![
        heading_part(1, "One".into()),
        document_part(None, "a".into(), "---\nstatus: \"Done\"\n---\nKeep"),
        heading_part(1, "Two".into()),
        heading_part(2, "Inner".into()),
        document_part(None, "b".into(), "---\nsynopsis: x\nstatus: to do\n---\nSkip"),
        heading_part(1, "Three".into()),
        document_part(None, "c".into(), "No metadata"),
    ]
}

#[test]
fn status_filter_drops_writings_and_empty_folders() {
    let mut req = request(Vec::new());
    req.exclude_statuses = vec!["To Do".into()];
    req.chapter_heading = "Chapter {n}".into();
    let parts = prepare_manuscript(&req, filter_sample()).unwrap();
    assert_eq!(titles(&parts), ["Chapter 1", "Chapter 2"]);
    let md = compile_markdown(&req, &parts);
    assert!(md.contains("Keep") && md.contains("No metadata") && !md.contains("Skip"), "{md}");

    req.exclude_statuses = vec!["done".into(), "to do".into()];
    let only_meta: Vec<Part> = filter_sample().into_iter().take(5).collect();
    assert_eq!(prepare_manuscript(&req, only_meta).err(), Some(ALL_FILTERED.to_string()));
}

#[test]
fn blank_statuses_filter_nothing() {
    let mut req = request(Vec::new());
    req.exclude_statuses = vec!["  ".into()];
    let parts = prepare_manuscript(&req, filter_sample()).unwrap();
    assert_eq!(parts.len(), 7);
}

#[test]
fn writings_lose_their_metadata_block() {
    match document_part(Some("T".into()), "a".into(), "---\nstatus: \"Done\"\n---\nKeep") {
        Part::Document { title, label, markdown, status } => {
            assert_eq!(title.as_deref(), Some("T"));
            assert_eq!(label, "a");
            assert_eq!(markdown, "Keep");
            assert_eq!(status.as_deref(), Some("Done"));
        }
        Part::Heading { .. } => panic!("expected a writing"),
    }
}

#[test]
fn heading_levels_are_kept_in_range() {
    assert!(matches!(heading_part(0, "x".into()), Part::Heading { level: 1, .. }));
    assert!(matches!(heading_part(9, "x".into()), Part::Heading { level: 6, .. }));
    assert!(matches!(heading_part(3, "x".into()), Part::Heading { level: 3, .. }));
}

#[test]
fn matter_tokens_are_filled_and_blank_pages_skipped() {
    let req = request(Vec::new());
    let page = matter_page(MatterKind::Copyright, "Copyright © {year} {author}", "2024", &req).unwrap();
    assert_eq!(page.markdown, "Copyright © 2024 A. Writer");
    assert_eq!(page.kind, MatterKind::Copyright);
    assert!(matter_page(MatterKind::Epigraph, "   ", "2024", &req).is_none());
    let t = matter_page(MatterKind::Foreword, "On {title}", "2024", &req).unwrap();
    assert_eq!(t.markdown, "On My Novel");
}

#[test]
fn matter_names_a_writing_only_when_set() {
    let item = |name: Option<&str>| MatterItem { kind: MatterKind::Dedication, text: "x".into(), name: name.map(String::from) };
    assert_eq!(matter_source(&item(Some("Thanks.md"))).as_deref(), Some("Thanks.md"));
    assert_eq!(matter_source(&item(Some(""))), None);
    assert_eq!(matter_source(&item(None)), None);
}

#[test]
fn front_and_back_matter() {
    let req = request(Vec::new());
    let book = Book {
        parts: vec![
            Part::Heading { level: 1, text: "Chapter 1".into() },
            Part::Document { title: None, label: "s".into(), markdown: "Text.".into(), status: None },
        ],
        front: vec![
            Matter { kind: MatterKind::Copyright, markdown: "Copyright © 2024 A. Writer".into() },
            Matter { kind: MatterKind::Dedication, markdown: "For *Sam*".into() },
        ],
        back: vec![Matter { kind: MatterKind::Acknowledgments, markdown: "Thank you, A. Writer.".into() }],
    };
    let md = compile_book_markdown(&req, &book);
    assert_eq!(
        md,
        "# My Novel\n\n*A. Writer*\n\nCopyright © 2024 A. Writer\n\nFor *Sam*\n\n## Chapter 1\n\nText.\n\n## Acknowledgments\n\nThank you, A. Writer.\n"
    );
}

#[test]
fn matter_headings_sit_below_the_page_heading() {
    let mut req = request(Vec::new());
    req.title = "  ".into();
    let book = Book {
        parts: Vec::new(),
        front: Vec::new(),
        back: vec![Matter { kind: MatterKind::Afterword, markdown: "# Later\nBye  ".into() }],
    };
    assert_eq!(compile_book_markdown(&req, &book), "# Afterword\n\n## Later\nBye\n");
}

#[test]
fn epub_files_start_at_top_level_headings() {
    let req = request(Vec::new());
    let parts = vec![
        Part::Document { title: None, label: "Prologue".into(), markdown: "Before.".into(), status: None },
        Part::Heading { level: 2, text: "One".into() },
        Part::Heading { level: 3, text: "Scene".into() },
        Part::Document { title: None, label: "a".into(), markdown: "A.".into(), status: None },
        Part::Heading { level: 2, text: "Two".into() },
        Part::Document { title: None, label: "b".into(), markdown: "B.".into(), status: None },
    ];
    let chapters = epub_chapters(&req, &parts);
    let names: Vec<&str> = chapters.iter().map(|c| c.title.as_str()).collect();
    assert_eq!(names, ["Prologue", "One", "Two"]);
    assert_eq!(chapters[0].markdown, "Before.\n\n");
    assert_eq!(chapters[1].markdown, "## One\n\n### Scene\n\nA.\n\n");
    assert_eq!(chapters[2].markdown, "## Two\n\nB.\n\n");
}

#[test]
fn without_headings_every_writing_is_a_file() {
    let req = request(Vec::new());
    let parts = vec![
        Part::Document { title: Some("First".into()), label: "a".into(), markdown: "A.".into(), status: None },
        Part::Document { title: Some(" ".into()), label: " ".into(), markdown: "B.".into(), status: None },
    ];
    let chapters = epub_chapters(&req, &parts);
    let names: Vec<&str> = chapters.iter().map(|c| c.title.as_str()).collect();
    assert_eq!(names, ["First", "Chapter 2"]);
    assert_eq!(chapters[0].markdown, "# First\n\nA.\n\n");
    assert!(epub_chapters(&req, &[]).is_empty());
}

#[test]
fn matter_sections_in_html() {
    assert_eq!(
        matter_html(MatterKind::Dedication, "<p>For Sam</p>\n"),
        "<section class=\"matter matter-dedication matter-centered page-break\">\n<p>For Sam</p>\n</section>\n"
    );
    assert_eq!(
        matter_html(MatterKind::Acknowledgments, "<p>x</p>\n"),
        "<section class=\"matter matter-acknowledgments page-break\">\n<h2 class=\"matter-heading\">Acknowledgments</h2>\n<p>x</p>\n</section>\n"
    );
    assert!(matter_html(MatterKind::Copyright, "").contains("matter-copyright matter-small page-break"));
}

#[test]
fn matter_pages_in_typst() {
    assert_eq!(
        matter_typst(MatterKind::Copyright, "body"),
        "#page(header: none, footer: none)[#v(1fr)\n#set text(size: 0.85em)\n#set par(first-line-indent: 0em, justify: false)\nbody]\n\n"
    );
    assert_eq!(
        matter_typst(MatterKind::AboutTheAuthor, "b"),
        "#pagebreak(weak: true)\n#align(center, text(size: 1.6em)[About the Author])\n#v(1.5em)\nb\n#pagebreak(weak: true)\n\n"
    );
    assert!(matter_typst(MatterKind::Epigraph, "e").contains("#set align(center)"));
}

#[test]
fn matter_body_sits_below_the_page_heading() {
    let m = Matter { kind: MatterKind::Foreword, markdown: "  # Why\nBecause ".into() };
    assert_eq!(matter_body(&m), "## Why\nBecause");
}

#[test]
fn epub_pages_are_xhtml() {
    let page = xhtml_page("A & B", "<p/>");
    assert!(page.starts_with("<?xml version=\"1.0\" encoding=\"UTF-8\"?>\n"));
    assert!(page.contains("<title>A &amp; B</title>"));
    assert!(page.ends_with("<body>\n<p/></body>\n</html>\n"));
}

#[test]
fn html_page_frames_the_book() {
    let req = request(Vec::new());
    let html = assemble_html(&req, "<h1>C</h1>\n", &vec!["F".to_string()], &vec!["B".to_string()]);
    let expected = format!(
        "<!DOCTYPE html>\n<html>\n<head>\n<meta charset=\"utf-8\">\n<title>My Novel</title>\n<style>{}{}</style>\n</head>\n<body>\n<h1 class=\"book-title\">My Novel</h1>\n<p class=\"book-author\">A. Writer</p>\n<div class=\"page-break\"></div>\nF<h1 class=\"page-break\">C</h1>\nB</body>\n</html>\n",
        BOOK_CSS, PRINT_CSS
    );
    assert_eq!(html, expected);
    let mut untitled = request(Vec::new());
    untitled.title = " ".into();
    untitled.chapter_page_breaks = false;
    let html = assemble_html(&untitled, "<h1>C</h1>", &Vec::new(), &Vec::new());
    assert!(html.contains("<body>\n<h1>C</h1></body>"));
    assert!(!html.contains("<h1 class=\"book-title\">"));
}

#[test]
fn manuscript_body_has_no_title_block() {
    let req = request(Vec::new());
    let parts = vec![
        Part::Heading { level: 1, text: "One".into() },
        Part::Document { title: None, label: "a".into(), markdown: "A.".into(), status: None },
        Part::Document { title: None, label: "b".into(), markdown: "B.".into(), status: None },
    ];
    assert_eq!(
        manuscript_body(&req, &parts),
        "# One\n\nA.\n\n<p class=\"separator\">* * *</p>\n\nB.\n\n"
    );
}

#[test]
fn rejects_paths_outside_content() {
    let dir = "/library";
    assert_eq!(safe_join(dir, "../secret.md").unwrap_err(), "Invalid writing name: ../secret.md");
    assert!(safe_join(dir, "/etc/passwd").is_err());
    assert!(safe_join(dir, "./a.md").is_err());
    assert_eq!(safe_join(dir, "Novel/One.md").unwrap(), "/library/Novel/One.md");
}

#[test]
fn compile_settings_live_in_the_binder() {
    let dir = "/library";
    assert_eq!(compile_settings_path(dir, "Novel").unwrap(), "/library/Novel/.compile.json");
    assert_eq!(compile_settings_path(dir, "a/b").unwrap_err(), "Invalid binder: a/b");
    assert_eq!(compile_settings_path(dir, "").unwrap_err(), "Invalid binder: ");
    assert_eq!(compile_settings_path(dir, "..").unwrap_err(), "Invalid writing name: ..");
}

#[test]
fn book_html_writes_the_manuscript_and_matter_as_html() {
    let req = request(Vec::new());
    let book = Book {
        parts: vec![
            Part::Heading { level: 1, text: "One".into() },
            Part::Document { title: None, label: "a".into(), markdown: "A [link](#writing/x).".into(), status: None },
            Part::Document { title: None, label: "b".into(), markdown: "B.".into(), status: None },
        ],
        front: vec![Matter { kind: MatterKind::Dedication, markdown: "For *Sam*".into() }],
        back: vec![Matter { kind: MatterKind::Afterword, markdown: "# Why\nBecause".into() }],
    };
    let html = render_html(&req, &book);
    assert!(html.contains(
        "<div class=\"page-break\"></div>\n<section class=\"matter matter-dedication matter-centered page-break\">\n<p>For <em>Sam</em></p>\n</section>\n"
    ), "{html}");
    assert!(html.contains(
        "<h1 class=\"page-break\">One</h1>\n<p>A link.</p>\n<p class=\"separator\">* * *</p>\n<p>B.</p>\n"
    ), "{html}");
    assert!(html.contains(
        "<section class=\"matter matter-afterword page-break\">\n<h2 class=\"matter-heading\">Afterword</h2>\n<h2>Why</h2>\n<p>Because</p>\n</section>\n</body>"
    ), "{html}");
}
