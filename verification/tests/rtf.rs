use memoire::rtf::{cp1252, escape_inline, escape_line_start, render_run, rtf_to_markdown, try_rtf_to_markdown};

#[test]
fn paragraphs_and_emphasis() {
    let rtf = r"{\rtf1\ansi\ansicpg1252{\fonttbl\f0\fnil Palatino;}{\colortbl;\red0\green0\blue0;}
\pard\f0\fs24 It was a {\b dark} and {\i stormy} night.\par
\par
She said \ldblquote hi\rdblquote  \emdash  then left.\par}";
    assert_eq!(
        rtf_to_markdown(rtf),
        "It was a **dark** and *stormy* night.\n\nShe said “hi” — then left."
    );
}

#[test]
fn unicode_hex_and_ignorable_destinations() {
    let rtf = r"{\rtf1{\*\generator Scrivener;}caf\'e9 \u8364?5 na\uc0\u239 ve\par}";
    assert_eq!(rtf_to_markdown(rtf), "café €5 naïve");
}

#[test]
fn toggles_and_escapes() {
    let rtf = r"{\rtf1 \b bold\b0  plain *star* \{brace\}\par # not heading\par}";
    assert_eq!(rtf_to_markdown(rtf), "**bold** plain \\*star\\* {brace}\n\n\\# not heading");
}

#[test]
fn line_starts_that_read_as_syntax_are_escaped() {
    assert_eq!(escape_line_start("  # title"), "\\# title");
    assert_eq!(escape_line_start("> quote"), "\\> quote");
    assert_eq!(escape_line_start("- item"), "\\- item");
    assert_eq!(escape_line_start("12. item"), "12\\. item");
    assert_eq!(escape_line_start("12 apples"), "12 apples");
    assert_eq!(escape_line_start("-dash"), "-dash");
    assert_eq!(escape_line_start("   plain"), "plain");
}

#[test]
fn runs_keep_spaces_outside_markers() {
    assert_eq!(render_run(" word ", true, false), " **word** ");
    assert_eq!(render_run("both", true, true), "***both***");
    assert_eq!(render_run("   ", false, true), "   ");
    assert_eq!(render_run("a_b", false, false), "a\\_b");
    assert_eq!(escape_inline("[x]`<"), "\\[x\\]\\`\\<");
}

#[test]
fn windows_1252_high_range() {
    assert_eq!(cp1252(0x80), '€');
    assert_eq!(cp1252(0x93), '“');
    assert_eq!(cp1252(0x81), '\u{81}');
    assert_eq!(cp1252(0xe9), 'é');
    assert_eq!(cp1252(0x41), 'A');
}

#[test]
fn unmatched_braces_and_trailing_backslash() {
    assert_eq!(rtf_to_markdown(r"{\rtf1 a}}b\par c\"), "ab\n\nc");
    assert_eq!(rtf_to_markdown(r"{\rtf1 x\line y\tab z}"), "x\ny\tz");
    assert_eq!(rtf_to_markdown(r"{\rtf1 \i1 on\i0 off}"), "*on*off");
}

#[test]
fn surrogates_and_negative_unicode_escapes() {
    // \u-4064 is U+F020; a surrogate code is dropped with its fallback.
    assert_eq!(rtf_to_markdown(r"{\rtf1 a\u-4064?b\u55296?c}"), "a\u{f020}bc");
    assert_eq!(rtf_to_markdown(r"{\rtf1 \uc2\u233 xyz}"), "éz");
}

#[test]
fn try_rtf_to_markdown_refuses_a_backslash_before_non_ascii() {
    assert_eq!(try_rtf_to_markdown(r"{\rtf1 a}}b\par c\"), Some("ab\n\nc".to_string()));
    assert_eq!(try_rtf_to_markdown("{\\rtf1 x \\é}"), None);
    assert_eq!(try_rtf_to_markdown(""), Some(rtf_to_markdown("")));
}
