use memoire::memory::{
    chunk_hash, keyword_terms, plan_reconciliation, pretty_title, ChunkAction, StoredChunk, MAX_QUERY_TERMS,
};
use sha2::{Digest, Sha256};

#[test]
fn keyword_terms_drop_stopwords_and_repeats() {
    assert_eq!(
        keyword_terms("What did Zephyrine say about the dragon's DRAGON hoard?"),
        vec!["zephyrine", "say", "dragon", "hoard"]
    );
    assert!(keyword_terms("what is it?").is_empty());
    assert_eq!(keyword_terms(&"word ".repeat(3)), vec!["word"]);
    let many: String = (0..20).map(|i| format!("term{i} ")).collect();
    assert_eq!(keyword_terms(&many).len(), MAX_QUERY_TERMS);
}

#[test]
fn pretty_title_strips_extension_and_joins_folders() {
    assert_eq!(pretty_title("Novel/Part 1/Chapter 3.md"), "Novel › Part 1 › Chapter 3");
    assert_eq!(pretty_title("Ideas.md"), "Ideas");
}

#[test]
fn keyword_terms_keep_first_eight_in_order_and_unicode_letters() {
    let many: String = (0..20).map(|i| format!("term{i} ")).collect();
    let terms = keyword_terms(&many);
    assert_eq!(terms[0], "term0");
    assert_eq!(terms[7], "term7");
    assert_eq!(keyword_terms("Ärger-Übung x"), vec!["ärger", "übung"]);
}

#[test]
fn pretty_title_keeps_other_extensions() {
    assert_eq!(pretty_title("Notes/a.txt"), "Notes › a.txt");
    assert_eq!(pretty_title(".md"), "");
}

fn passage(text: &str, headings: &[&str], overlap: &str, start: usize, end: usize) -> memoire::chunker::Chunk {
    memoire::chunker::Chunk {
        text: text.to_string(),
        headings: headings.iter().map(|h| h.to_string()).collect(),
        start_line: start,
        end_line: end,
        overlap: overlap.to_string(),
    }
}

#[test]
fn embed_input_places_title_headings_and_overlap() {
    let c = passage("She runs.", &["Part 1", "Scene 2"], "He waits.", 3, 3);
    assert_eq!(
        memoire::memory::embed_input("Novel › Ch 1", &c),
        "Novel › Ch 1 › Part 1 › Scene 2\n\nHe waits. She runs."
    );
    let bare = passage("Alone.", &[], "", 1, 1);
    assert_eq!(memoire::memory::embed_input("Ideas", &bare), "Ideas\n\nAlone.");
}

#[test]
fn chunk_hash_covers_headings_overlap_and_text() {
    let c = passage("She runs.", &["Part 1", "Scene 2"], "He waits.", 3, 3);
    let mut hasher = Sha256::new();
    hasher.update(memoire::memory::EMBED_VERSION);
    for part in ["Part 1 › Scene 2", "He waits.", "She runs."] {
        hasher.update(":");
        hasher.update(part.len().to_le_bytes());
        hasher.update(part);
    }
    let expected = hex::encode(hasher.finalize());
    assert_eq!(memoire::memory::chunk_hash(&c), expected);
    assert_eq!(expected.len(), 64);
    let moved = passage("She runs.", &["Part 1", "Scene 2"], "He waits.", 9, 9);
    assert_eq!(memoire::memory::chunk_hash(&moved), expected);
    let other = passage("She runs.", &["Part 1"], "He waits.", 3, 3);
    assert_ne!(memoire::memory::chunk_hash(&other), expected);
}

#[test]
fn reconciliation_keeps_moves_creates_and_deletes() {
    let a = passage("A.", &[], "", 1, 1);
    let b = passage("B.", &[], "", 3, 3);
    let c = passage("C.", &[], "", 5, 5);
    let gone = passage("Gone.", &[], "", 7, 7);
    let stored = vec![
        StoredChunk { content_hash: chunk_hash(&gone), sequence: 3, start_line: 7, end_line: 7 },
        StoredChunk { content_hash: chunk_hash(&a), sequence: 0, start_line: 1, end_line: 1 },
        StoredChunk { content_hash: chunk_hash(&b), sequence: 0, start_line: 1, end_line: 1 },
    ];
    let plan = plan_reconciliation(&vec![a.clone(), b, c, a], &stored);
    assert_eq!(
        plan.actions,
        vec![ChunkAction::Keep(1), ChunkAction::Move(2), ChunkAction::Create, ChunkAction::Create]
    );
    assert_eq!(plan.deleted, vec![0]);
}

#[test]
fn reconciliation_of_an_empty_note_deletes_everything_once() {
    let stored = vec![
        StoredChunk { content_hash: "x".to_string(), sequence: 0, start_line: 1, end_line: 1 },
        StoredChunk { content_hash: "y".to_string(), sequence: 1, start_line: 2, end_line: 2 },
        StoredChunk { content_hash: "x".to_string(), sequence: 2, start_line: 3, end_line: 3 },
    ];
    let plan = plan_reconciliation(&vec![], &stored);
    assert!(plan.actions.is_empty());
    // Of two stored passages with one fingerprint, the later is the one looked up.
    assert_eq!(plan.deleted, vec![1, 2]);
}
