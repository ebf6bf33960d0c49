use memoire::book::{Book, Matter};
use memoire::docx_out::{docx_plan, DocxPara, DocxRun, DocxWriter};
use memoire::export::{ExportFormat, ExportRequest, MatterKind, MatterStyle, Part};
use memoire::pdf::{MdItem, MdTag, MdTagEnd, PageSize};

fn request() -> ExportRequest {
    ExportRequest {
        format: ExportFormat::Markdown,
        title: " My Novel ".into(),
        author: "A. Writer".into(),
        items: Vec::new(),
        scene_separator: "* * *".into(),
        manuscript_format: true,
        chapter_page_breaks: true,
        page_size: PageSize::default(),
        lang: None,
        chapter_heading: String::new(),
        exclude_statuses: Vec::new(),
        table_of_contents: true,
        running_head: true,
        front_matter: Vec::new(),
        back_matter: Vec::new(),
    }
}

fn text(t: &str, italic: bool) -> DocxRun {
    DocxRun::Text { text: t.into(), bold: false, italic, strike: false, code: false, small: false }
}

#[test]
fn docx_plan_lays_out_the_book() {
    let book = Book {
        parts: vec![
            Part::Heading { level: 1, text: "One".into() },
            Part::Document { title: None, label: "a".into(), markdown: "A.".into(), status: None },
            Part::Document { title: None, label: "b".into(), markdown: "B *x*.".into(), status: None },
        ],
        front: vec![Matter { kind: MatterKind::Dedication, markdown: "For Sam".into() }],
        back: Vec::new(),
    };
    let plan = docx_plan(&request(), &book);
    assert!(plan.manuscript && plan.blank_first_header);
    assert_eq!(plan.header, Some("Writer / MY NOVEL".to_string()));
    let body = |runs: Vec<DocxRun>, matter: Option<MatterStyle>| DocxPara::Body { quote_depth: 0, list_depth: 0, matter, runs };
    assert_eq!(
        plan.paragraphs,
        vec![
            DocxPara::Title { text: "My Novel".into(), bold: false },
            DocxPara::Author("A. Writer".into()),
            DocxPara::PageBreak,
            DocxPara::MatterSpace,
            body(vec![text("For Sam", true)], Some(MatterStyle::Centered)),
            DocxPara::PageBreak,
            DocxPara::Contents { depth: 1, entries: vec![(1, "One".to_string())] },
            DocxPara::PageBreak,
            DocxPara::Heading { level: 1, page_break_before: false, runs: vec![text("One", false)] },
            body(vec![text("A.", false)], None),
            DocxPara::Centered("* * *".into()),
            body(vec![text("B ", false), text("x", true), text(".", false)], None),
        ]
    );
}

#[test]
fn docx_events_number_lists_and_split_code_lines() {
    let mut w = DocxWriter::new(true);
    let events = vec![
        MdItem::Start(MdTag::List(Some(3))),
        MdItem::Start(MdTag::Item),
        MdItem::Text("a".into()),
        MdItem::End(MdTagEnd::Item),
        MdItem::Start(MdTag::Item),
        MdItem::Text("b".into()),
        MdItem::End(MdTagEnd::Item),
        MdItem::End(MdTagEnd::List(true)),
        MdItem::Start(MdTag::CodeBlock("rust".into())),
        MdItem::Text("x\ny\n\n".into()),
        MdItem::End(MdTagEnd::CodeBlock),
        MdItem::Start(MdTag::Heading(1)),
        MdItem::Text("H".into()),
        MdItem::End(MdTagEnd::Heading(1)),
        MdItem::Start(MdTag::Heading(1)),
        MdItem::Text("I".into()),
        MdItem::End(MdTagEnd::Heading(1)),
    ];
    for e in &events {
        w.docx_step(e);
    }
    let item = |n: &str, t: &str| DocxPara::Body { quote_depth: 0, list_depth: 1, matter: None, runs: vec![text(n, false), text(t, false)] };
    assert_eq!(
        w.paragraphs,
        vec![
            item("3. ", "a"),
            item("4. ", "b"),
            DocxPara::Code("x".into()),
            DocxPara::Code("y".into()),
            DocxPara::Heading { level: 1, page_break_before: false, runs: vec![text("H", false)] },
            DocxPara::Heading { level: 1, page_break_before: true, runs: vec![text("I", false)] },
        ]
    );
}

use memoire::docx_layout::{body_layout, docx_document, render_docx, DocxBlock, Indent, ParaAlign, RunPiece, Spacing};

#[test]
fn manuscript_body_is_double_spaced_with_a_first_line_indent() {
    let l = body_layout(true, None, 0, 0);
    assert_eq!(l.spacing, Some(Spacing { line: Some(480), before: None, after: Some(0) }));
    assert_eq!(l.indent, Some(Indent { left: None, first_line: Some(720) }));
    assert!(!l.italic && l.align == ParaAlign::Start);
    let book = body_layout(false, None, 0, 0);
    assert_eq!(book.spacing, Some(Spacing { line: Some(300), before: None, after: Some(160) }));
    assert_eq!(book.indent, None);
}

#[test]
fn quotes_and_lists_indent_half_an_inch_a_level() {
    let l = body_layout(true, None, 1, 2);
    assert_eq!(l.indent, Some(Indent { left: Some(2160), first_line: None }));
    assert!(l.italic);
    let c = body_layout(true, Some(MatterStyle::Centered), 0, 0);
    assert_eq!(c.align, ParaAlign::Center);
    assert_eq!(c.spacing, Some(Spacing { line: None, before: None, after: Some(160) }));
    assert_eq!(body_layout(false, None, usize::MAX, usize::MAX).indent, Some(Indent { left: Some(i32::MAX), first_line: None }));
}

#[test]
fn manuscript_documents_use_times_and_centered_headings() {
    let book = Book {
        parts: vec![Part::Document { title: None, label: "a".into(), markdown: "```\nx\n```".into(), status: None }],
        front: Vec::new(),
        back: Vec::new(),
    };
    let plan = docx_plan(&request(), &book);
    let doc = docx_document(&plan);
    assert_eq!(doc.font, "Times New Roman");
    assert_eq!((doc.size, doc.margin), (24, 1440));
    assert_eq!(doc.headings.len(), 6);
    assert_eq!(doc.headings[0].id, "Heading1");
    assert_eq!(doc.headings[1].name, "Heading 2");
    assert_eq!(doc.headings.iter().map(|h| h.size).collect::<Vec<_>>(), vec![40, 32, 28, 26, 24, 24]);
    assert!(doc.headings[0].centered && !doc.headings[0].bold);
    assert_eq!(doc.header, Some(Some("Writer / MY NOVEL / ".to_string())));
    match doc.blocks.last().unwrap() {
        DocxBlock::Para(p) => {
            assert_eq!(p.runs[0].piece, RunPiece::Text("x".into()));
            assert_eq!(p.runs[0].font, Some("Courier New".to_string()));
            assert_eq!(p.runs[0].size, Some(20));
        }
        other => panic!("{other:?}"),
    }
    let bytes = render_docx(&request(), &book).unwrap();
    assert!(bytes.starts_with(b"PK"));
}
