use memoire::chunker::{chunk_markdown, tail, Chunk, CHUNK_SIZE_LIMIT, OVERLAP_LIMIT};

fn texts(chunks: &[Chunk]) -> Vec<&str> {
    chunks.iter().map(|c| c.text.as_str()).collect()
}

#[test]
fn headings_start_passages_and_build_a_path() {
    let note = "Intro line.\n\n# Part 1\n\nOpening.\n\n## Scene 2\n\nShe runs.\n\n# Part 2\n\nLater.\n";
    let chunks = chunk_markdown(note);
    assert_eq!(
        texts(&chunks),
        vec!["Intro line.", "# Part 1\n\nOpening.", "## Scene 2\n\nShe runs.", "# Part 2\n\nLater."]
    );
    assert!(chunks[0].headings.is_empty());
    assert_eq!(chunks[1].headings, vec!["Part 1"]);
    assert_eq!(chunks[2].headings, vec!["Part 1", "Scene 2"]);
    assert_eq!(chunks[3].headings, vec!["Part 2"]);
    assert!(chunks.iter().all(|c| c.overlap.is_empty()));
}

#[test]
fn line_ranges_point_into_the_note() {
    let note = "# Title\n\nFirst para\nwraps here.\n\n## Next\n\nMore.";
    let chunks = chunk_markdown(note);
    assert_eq!((chunks[0].start_line, chunks[0].end_line), (1, 4));
    assert_eq!((chunks[1].start_line, chunks[1].end_line), (6, 8));
}

#[test]
fn front_matter_is_skipped() {
    let note = "---\nsynopsis: \"x\"\nstatus: \"Done\"\n---\n\nBody text.\n";
    let chunks = chunk_markdown(note);
    assert_eq!(texts(&chunks), vec!["Body text."]);
    assert_eq!(chunks[0].start_line, 6);
}

#[test]
fn long_sections_split_between_blocks_with_overlap() {
    let para = |n: usize| format!("Paragraph {n} {}. Ends here.", "word ".repeat(80));
    let note = format!("# Big\n\n{}\n\n{}\n\n{}", para(1), para(2), para(3));
    let chunks = chunk_markdown(&note);
    assert!(chunks.len() >= 2);
    assert!(chunks.iter().all(|c| c.text.len() <= CHUNK_SIZE_LIMIT));
    assert!(chunks.iter().all(|c| c.headings == vec!["Big"]));
    assert!(chunks[0].overlap.is_empty());
    assert_eq!(chunks[1].overlap, "Ends here.");
}

#[test]
fn huge_paragraph_splits_at_sentences() {
    let sentence = "The quick brown fox jumps over the lazy dog again. ";
    let note = sentence.repeat(60);
    let chunks = chunk_markdown(&note);
    assert!(chunks.len() > 1);
    for c in &chunks {
        assert!(c.text.len() <= CHUNK_SIZE_LIMIT);
        assert!(c.text.ends_with('.'), "{:?}", &c.text[c.text.len() - 10..]);
    }
}

#[test]
fn unbroken_text_is_cut_on_char_boundaries() {
    let note = "é".repeat(1500);
    let chunks = chunk_markdown(&note);
    assert!(chunks.len() > 1);
    assert_eq!(chunks.iter().map(|c| c.text.as_str()).collect::<String>(), note);
}

#[test]
fn empty_and_heading_only_notes() {
    assert!(chunk_markdown("").is_empty());
    assert!(chunk_markdown("\n\n  \n").is_empty());
    let chunks = chunk_markdown("# Only a title");
    assert_eq!(texts(&chunks), vec!["# Only a title"]);
    assert_eq!(chunks[0].headings, vec!["Only a title"]);
}

#[test]
fn deeper_heading_then_shallower_resets_path() {
    let chunks = chunk_markdown("### Deep\n\nA\n\n# Top\n\nB");
    assert_eq!(chunks[0].headings, vec!["Deep"]);
    assert_eq!(chunks[1].headings, vec!["Top"]);
}

#[test]
fn tail_takes_last_sentence_capped() {
    assert_eq!(tail("One. Two three."), "Two three.");
    assert_eq!(tail("No terminator"), "No terminator");
    let long = "x".repeat(500);
    assert_eq!(tail(&long).len(), OVERLAP_LIMIT);
}

#[test]
fn passages_are_trimmed_and_keep_headings_across_an_overlap() {
    let para = |n: usize| format!("  Paragraph {n} {}. Ends here.  ", "word ".repeat(80));
    let note = format!("# Big\n\n{}\n\n{}\n\n{}\n\n# Next\n\nShort.", para(1), para(2), para(3));
    let chunks = chunk_markdown(&note);
    assert!(chunks.len() >= 3);
    for c in &chunks {
        assert!(!c.text.is_empty());
        assert_eq!(c.text.trim(), c.text);
    }
    for pair in chunks.windows(2) {
        if !pair[1].overlap.is_empty() {
            assert_eq!(pair[1].headings, pair[0].headings);
        }
        assert!(pair[0].start_line <= pair[0].end_line);
        assert!(pair[0].end_line <= pair[1].start_line);
    }
    let last = chunks.last().unwrap();
    assert_eq!(last.headings, vec!["Next"]);
    assert!(last.overlap.is_empty());
}
