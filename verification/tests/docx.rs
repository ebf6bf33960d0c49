use memoire::docx::docx_sections;
use memoire::import::{eq_ignore_ascii_case, ordered_names, source_kind, SourceKind};
use memoire::docx::{
    blocks_to_markdown, heading_from_style, merge_runs, parse_docx_blocks, parse_u8, render_docx_run, DocBlock,
};
use memoire::import::clean_name;

#[test]
fn heading_levels_come_from_style_ids() {
    assert_eq!(heading_from_style("Heading1"), Some(1));
    assert_eq!(heading_from_style("heading 2"), Some(2));
    assert_eq!(heading_from_style("Titre1"), Some(1));
    assert_eq!(heading_from_style("Title"), Some(1));
    assert_eq!(heading_from_style("Überschrift 3"), Some(3));
    assert_eq!(heading_from_style("Heading01"), Some(1));
    assert_eq!(heading_from_style("Heading7"), None);
    assert_eq!(heading_from_style("Heading"), None);
    assert_eq!(heading_from_style("Normal"), None);
    assert_eq!(heading_from_style("List2"), None);
}

#[test]
fn runs_with_the_same_formatting_merge() {
    let runs = vec![
        ("a".to_string(), true, false),
        ("b".to_string(), true, false),
        ("c".to_string(), false, false),
        ("d".to_string(), true, false),
    ];
    assert_eq!(
        merge_runs(runs),
        vec![
            ("ab".to_string(), true, false),
            ("c".to_string(), false, false),
            ("d".to_string(), true, false),
        ]
    );
    assert!(merge_runs(Vec::new()).is_empty());
}

#[test]
fn runs_are_escaped_and_emphasised_inside_their_spaces() {
    assert_eq!(render_docx_run("a*b", false, false), "a\\*b");
    assert_eq!(render_docx_run(" bold ", true, false), " **bold** ");
    assert_eq!(render_docx_run("x", true, true), "***x***");
    assert_eq!(render_docx_run("[it]", false, true), "*\\[it\\]*");
    assert_eq!(render_docx_run("  ", true, false), "  ");
}

#[test]
fn blocks_join_with_tight_lists() {
    let blocks = vec![
        DocBlock::Heading(1, "Title".into()),
        DocBlock::Body("- a".into()),
        DocBlock::Body("- b".into()),
        DocBlock::Body("Text".into()),
        DocBlock::Heading(2, "Next".into()),
    ];
    assert_eq!(blocks_to_markdown(&blocks), "# Title\n\n- a\n- b\n\nText\n\n## Next\n");
    assert_eq!(blocks_to_markdown(&[]), "\n");
}

#[test]
fn names_are_cleaned_for_every_platform() {
    assert_eq!(clean_name("My: Story?"), "My Story");
    assert_eq!(clean_name("..hidden.."), "hidden");
    assert_eq!(clean_name("   "), "Untitled");
    assert_eq!(clean_name("a\tb\nc"), "a b c");
    assert_eq!(clean_name(". a ."), "a");
    assert_eq!(clean_name(&"x".repeat(130)), "x".repeat(120));
    assert_eq!(clean_name("Chapter 1"), "Chapter 1");
}

#[test]
fn docx_headings_emphasis_lists_and_entities() {
    let xml = r#"<w:document xmlns:w="x"><w:body>
            <w:p><w:pPr><w:pStyle w:val="Heading1"/></w:pPr><w:r><w:t>Chapter One</w:t></w:r></w:p>
            <w:p><w:r><w:t xml:space="preserve">It was </w:t></w:r><w:r><w:rPr><w:b/></w:rPr><w:t>dark</w:t></w:r><w:r><w:t xml:space="preserve"> &amp; cold.</w:t></w:r></w:p>
            <w:p><w:r><w:rPr><w:i/><w:b w:val="0"/></w:rPr><w:t>quiet</w:t></w:r><w:del><w:r><w:delText>gone</w:delText></w:r></w:del></w:p>
            <w:p><w:pPr><w:numPr><w:ilvl w:val="0"/></w:numPr></w:pPr><w:r><w:t>one</w:t></w:r></w:p>
            <w:p><w:pPr><w:numPr/></w:pPr><w:r><w:t>two</w:t></w:r></w:p>
            <w:p/>
        </w:body></w:document>"#;
    let blocks = parse_docx_blocks(xml).unwrap();
    assert_eq!(blocks[0], DocBlock::Heading(1, "Chapter One".into()));
    assert_eq!(blocks[1], DocBlock::Body("It was **dark** & cold.".into()));
    assert_eq!(blocks[2], DocBlock::Body("*quiet*".into()));
    assert_eq!(blocks_to_markdown(&blocks[3..]), "- one\n- two\n");
}

#[test]
fn outline_levels_tabs_and_breaks() {
    let xml = r#"<w:document xmlns:w="x"><w:body>
        <w:p><w:pPr><w:outlineLvl w:val="1"/><w:tabs><w:tab w:val="left"/></w:tabs></w:pPr><w:r><w:t>Part</w:t></w:r></w:p>
        <w:p><w:r><w:t>a</w:t><w:tab/><w:t>b</w:t><w:br/><w:t>c</w:t></w:r></w:p>
        <w:p><w:r><w:t>   </w:t></w:r></w:p>
    </w:body></w:document>"#;
    let blocks = parse_docx_blocks(xml).unwrap();
    assert_eq!(blocks, vec![DocBlock::Heading(2, "Part".into()), DocBlock::Body("a\tb  \nc".into())]);
}

#[test]
fn broken_xml_is_unreadable() {
    let err = parse_docx_blocks("<w:document><w:body></w:p></w:body></w:document>").unwrap_err();
    assert!(err.starts_with("Unreadable Word document: "), "{err}");
}

#[test]
fn small_numbers_parse_like_std() {
    assert_eq!(parse_u8("5"), Some(5));
    assert_eq!(parse_u8("+7"), Some(7));
    assert_eq!(parse_u8("255"), Some(255));
    assert_eq!(parse_u8("256"), None);
    assert_eq!(parse_u8(""), None);
    assert_eq!(parse_u8("+"), None);
    assert_eq!(parse_u8("-1"), None);
    assert_eq!(parse_u8("1a"), None);
    assert_eq!(parse_u8("007"), Some(7));
}

#[test]
fn docx_split_into_ordered_writings() {
    let blocks = vec![
        DocBlock::Body("Dedication.".into()),
        DocBlock::Heading(1, "Winter".into()),
        DocBlock::Body("Cold.".into()),
        DocBlock::Heading(3, "Night".into()),
        DocBlock::Heading(1, "Autumn".into()),
        DocBlock::Body("Leaves.".into()),
    ];
    let sections = docx_sections(&blocks, true).unwrap();
    let names: Vec<String> = sections.iter().map(|(n, _)| n.clone()).collect();
    assert_eq!(names, ["Opening", "Winter", "Autumn"]);
    assert_eq!(ordered_names(&names), ["01 Opening", "02 Winter", "03 Autumn"]);
    assert_eq!(blocks_to_markdown(&sections[1].1), "Cold.\n\n## Night\n");
    assert_eq!(blocks_to_markdown(&sections[2].1), "Leaves.\n");
    assert!(docx_sections(&blocks, false).is_none());
    assert!(docx_sections(&[DocBlock::Body("x".into())].to_vec(), true).is_none());
}

#[test]
fn sources_are_classified_by_kind_and_extension() {
    assert_eq!(source_kind("/a/Novel.scriv", true), SourceKind::Scrivener);
    assert_eq!(source_kind("/a/Novel.SCRIV", true), SourceKind::Scrivener);
    assert_eq!(source_kind("/a/Vault", true), SourceKind::MarkdownFolder);
    assert_eq!(source_kind("/a/Book.Docx", false), SourceKind::WordDocument);
    assert_eq!(source_kind("/a/note.md", false), SourceKind::Text);
    assert_eq!(source_kind("/a/old.rtf", false), SourceKind::Text);
    assert_eq!(source_kind("/a/photo.jpg", false), SourceKind::Unsupported);
    assert_eq!(source_kind("/a/.md", false), SourceKind::Unsupported);
    assert!(eq_ignore_ascii_case("Yes", "yES"));
    assert!(!eq_ignore_ascii_case("Ü", "ü"));
}
