use memoire::search::{build_regex, replace_content, search_contents, SearchOptions, MAX_MATCHES};

fn opts() -> SearchOptions {
    SearchOptions::default()
}

#[test]
fn finds_case_insensitively_with_utf16_offsets() {
    let re = build_regex("tavern", &opts()).unwrap();
    let results = search_contents(
        &re,
        vec![("a.md".into(), "Intro\n😀 The Tavern was loud. tavern!".into())],
    );
    assert_eq!(results.total, 2);
    let first = &results.files[0].matches[0];
    assert_eq!(first.line, 2);
    let units: Vec<u16> = first.preview.encode_utf16().collect();
    assert_eq!(String::from_utf16(&units[first.start..first.end]).unwrap(), "Tavern");
}

#[test]
fn whole_word_and_case_sensitive() {
    let options = SearchOptions { case_sensitive: true, whole_word: true, regex: false };
    let re = build_regex("Ann", &options).unwrap();
    let results = search_contents(&re, vec![("a.md".into(), "Ann met Anna and ann.".into())]);
    assert_eq!(results.total, 1);
}

#[test]
fn plain_mode_escapes_and_does_not_expand() {
    let re = build_regex("$5 (cash)", &opts()).unwrap();
    let (out, n) = replace_content(&re, "Pay $5 (cash) now", "$1 card", &opts());
    assert_eq!(n, 1);
    assert_eq!(out, "Pay $1 card now");
}

#[test]
fn regex_mode_expands_groups() {
    let options = SearchOptions { regex: true, ..opts() };
    let re = build_regex(r"(\w+) Smith", &options).unwrap();
    let (out, n) = replace_content(&re, "John Smith and Jane Smith", "$1 Jones", &options);
    assert_eq!(n, 2);
    assert_eq!(out, "John Jones and Jane Jones");
}

#[test]
fn replace_never_crosses_lines_and_keeps_endings() {
    let options = SearchOptions { regex: true, ..opts() };
    let re = build_regex(r"a\s+b", &options).unwrap();
    let (out, n) = replace_content(&re, "a b\r\na\nb\n", "X", &options);
    assert_eq!(n, 1);
    assert_eq!(out, "X\r\na\nb\n");
}

#[test]
fn front_matter_matches_are_marked() {
    let re = build_regex("ann", &opts()).unwrap();
    let results = search_contents(&re, vec![("a.md".into(), "---\nsynopsis: \"Ann leaves\"\n---\n\nAnn stays.".into())]);
    let flags: Vec<bool> = results.files[0].matches.iter().map(|m| m.meta).collect();
    assert_eq!(flags, vec![true, false]);
}

#[test]
fn invalid_regex_is_an_error() {
    let options = SearchOptions { regex: true, ..opts() };
    assert!(build_regex("(unclosed", &options).is_err());
}

#[test]
fn long_lines_are_trimmed_around_the_match() {
    let line = format!("{}needle{}", "a".repeat(500), "b".repeat(500));
    let re = build_regex("needle", &opts()).unwrap();
    let results = search_contents(&re, vec![("a.md".into(), line)]);
    let m = &results.files[0].matches[0];
    assert!(m.preview.chars().count() < 140);
    assert!(m.preview.starts_with('…') && m.preview.ends_with('…'));
    let units: Vec<u16> = m.preview.encode_utf16().collect();
    assert_eq!(String::from_utf16(&units[m.start..m.end]).unwrap(), "needle");
}

#[test]
fn invalid_pattern_message_names_the_problem() {
    let options = SearchOptions { regex: true, ..opts() };
    match build_regex("(unclosed", &options) {
        Err(e) => assert!(e.starts_with("Invalid pattern: "), "{e}"),
        Ok(_) => panic!("compiled"),
    }
}

#[test]
fn previews_keep_sixty_characters_each_side() {
    let line = format!("{}X{}", "a".repeat(70), "b".repeat(70));
    let re = build_regex("x", &opts()).unwrap();
    let results = search_contents(&re, vec![("n.md".into(), line)]);
    let m = &results.files[0].matches[0];
    assert_eq!(m.preview, format!("…{}X{}…", "a".repeat(60), "b".repeat(60)));
    assert_eq!((m.start, m.end), (61, 62));
    assert_eq!(m.line, 1);
    assert!(!m.meta);
}

#[test]
fn short_lines_are_shown_whole() {
    let re = build_regex("b", &opts()).unwrap();
    let results = search_contents(&re, vec![("n.md".into(), "abc".into()), ("m.md".into(), "none".into())]);
    assert_eq!(results.files.len(), 1);
    assert_eq!(results.files[0].name, "n.md");
    assert_eq!(results.files[0].matches[0].preview, "abc");
    assert_eq!((results.files[0].matches[0].start, results.files[0].matches[0].end), (1, 2));
    assert!(!results.truncated);
}

#[test]
fn the_cap_stops_the_search() {
    let many = "a ".repeat(MAX_MATCHES + 5);
    let re = build_regex("a", &opts()).unwrap();
    let results = search_contents(&re, vec![("one.md".into(), many), ("two.md".into(), "a".into())]);
    assert_eq!(results.total, MAX_MATCHES);
    assert!(results.truncated);
    assert_eq!(results.files.len(), 1);
    assert_eq!(results.files[0].matches.len(), MAX_MATCHES);
}

#[test]
fn replacing_counts_matches_and_leaves_other_lines_alone() {
    let re = build_regex("cat", &opts()).unwrap();
    let (out, n) = replace_content(&re, "a cat\nno dog\r\nCAT cat", "dog", &opts());
    assert_eq!(n, 3);
    assert_eq!(out, "a dog\nno dog\r\ndog dog");
    let (same, none) = replace_content(&re, "nothing here\n", "dog", &opts());
    assert_eq!((same.as_str(), none), ("nothing here\n", 0));
}

#[test]
fn plain_queries_escape_regex_syntax() {
    let re = build_regex("a.b", &opts()).unwrap();
    let results = search_contents(&re, vec![("n.md".into(), "axb a.b".into())]);
    assert_eq!(results.total, 1);
    assert_eq!(results.files[0].matches[0].start, 4);
}
