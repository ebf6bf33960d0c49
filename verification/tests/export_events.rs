use memoire::export_events::{clean_markdown, markdown_to_html};
use memoire::pdf::{MdItem, MdTag, MdTagEnd};

#[test]
fn clean_markdown_keeps_the_text_of_internal_links_and_images() {
    let items = clean_markdown("[Scene](#writing/abc) ![alt](pic.png) <b>");
    assert_eq!(
        items,
        vec![
            MdItem::Start(MdTag::Paragraph),
            MdItem::Text("Scene".to_string()),
            MdItem::Text(" ".to_string()),
            MdItem::Text("alt".to_string()),
            MdItem::Text(" ".to_string()),
            MdItem::Text("<b>".to_string()),
            MdItem::End(MdTagEnd::Paragraph),
        ]
    );
}

#[test]
fn clean_markdown_carries_what_the_html_needs() {
    let items = clean_markdown("## Two\n\n1. a\n");
    assert_eq!(items[0], MdItem::Start(MdTag::Heading(2)));
    assert_eq!(items[2], MdItem::End(MdTagEnd::Heading(2)));
    assert!(items.contains(&MdItem::End(MdTagEnd::List(true))));
    let code = clean_markdown("```rust\nx\n```\n");
    assert_eq!(code[0], MdItem::Start(MdTag::CodeBlock("rust".to_string())));
    let table = clean_markdown("| a | b |\n|:--|--:|\n| 1 | 2 |\n");
    assert_eq!(table[0], MdItem::Start(MdTag::Table("lr".to_string())));
}

#[test]
fn html_of_headings_paragraphs_and_links() {
    assert_eq!(
        markdown_to_html("# Title\n\nSee [the scene](#writing/abc) and [site](https://x.y \"T\").\n"),
        "<h1>Title</h1>\n<p>See the scene and <a href=\"https://x.y\" title=\"T\">site</a>.</p>\n"
    );
}

#[test]
fn html_shows_raw_html_as_text_but_keeps_separators() {
    assert_eq!(markdown_to_html("<b>x</b> y"), "<p>&lt;b&gt;x&lt;/b&gt; y</p>\n");
    let sep = markdown_to_html("<p class=\"separator\">* * *</p>\n");
    assert_eq!(sep, "<p class=\"separator\">* * *</p>\n");
}

#[test]
fn html_of_code_tables_footnotes_and_email_links() {
    let code = markdown_to_html("```rust\nlet x = 1;\n```\n");
    assert_eq!(code, "<pre><code class=\"language-rust\">let x = 1;\n</code></pre>\n");
    let table = markdown_to_html("| a | b |\n|:--|--:|\n| 1 | 2 |\n");
    assert!(table.contains("<th style=\"text-align: left\">a</th><th style=\"text-align: right\">b</th>"), "{table}");
    assert!(table.contains("<td style=\"text-align: left\">1</td>"), "{table}");
    let notes = markdown_to_html("Text[^n].\n\n[^n]: Note.\n");
    assert!(notes.contains("<sup class=\"footnote-reference\"><a href=\"#n\">1</a></sup>"), "{notes}");
    assert!(notes.contains("<div class=\"footnote-definition\" id=\"n\">"), "{notes}");
    assert_eq!(markdown_to_html("<me@x.y>"), "<p><a href=\"mailto:me@x.y\">me@x.y</a></p>\n");
    assert_eq!(markdown_to_html("1. a\n2. b\n"), "<ol>\n<li>a</li>\n<li>b</li>\n</ol>\n");
}
