use memoire::indexer::{classify_changes, content_hash, is_note_path, note_name, needs_embedding, plan_pass, save_due, Entry, WatchChange};
use std::collections::HashSet;
use std::path::PathBuf;

#[test]
fn note_paths_skip_hidden_and_other_files() {
    let root = "/notes";
    assert!(is_note_path(root, "/notes/Ideas.md"));
    assert!(is_note_path(root, "/notes/Novel/Ch 1/Scene.md"));
    // A deleted or renamed folder may have held notes.
    assert!(is_note_path(root, "/notes/Novel"));
    assert!(!is_note_path(root, "/notes/.git/objects/ab/cdef"));
    assert!(!is_note_path(root, "/notes/Novel/.hidden.md"));
    assert!(!is_note_path(root, "/notes/cover.png"));
    assert!(!is_note_path(root, "/elsewhere/Ideas.md"));
}

#[test]
fn note_changes_are_targeted_and_folder_changes_are_not() {
    let root = "/notes";
    assert_eq!(classify_changes(root, &["/notes/.git/index", "/notes/cover.png"]), WatchChange::Nothing);
    match classify_changes(root, &["/notes/a.md", "/notes/Novel/b.md", "/notes/a.md"]) {
        WatchChange::Notes(notes) => {
            let got: HashSet<PathBuf> = notes.iter().map(PathBuf::from).collect();
            let want: HashSet<PathBuf> =
                [PathBuf::from("/notes/a.md"), PathBuf::from("/notes/Novel/b.md")].into();
            assert_eq!(got, want);
            assert_eq!(notes.len(), 2);
        }
        other => panic!("expected notes, got {other:?}"),
    }
    assert_eq!(classify_changes(root, &["/notes/a.md", "/notes/Novel"]), WatchChange::Everything);
}

#[test]
fn recently_written_files_are_not_trusted_by_mtime() {
    let settled = Entry { mtime_ms: 1_000, size: 10, hash: String::new(), checked_at_ms: 10_000 };
    assert!(settled.matches(1_000, 10));
    assert!(!settled.matches(1_001, 10));
    assert!(!settled.matches(1_000, 11));

    let racy = Entry { checked_at_ms: 1_500, ..settled };
    assert!(!racy.matches(1_000, 10));
}

#[test]
fn duplicate_spellings_of_a_path_count_once() {
    match classify_changes("/notes", &["/notes/a.md", "/notes//a.md", "/notes/./a.md"]) {
        WatchChange::Notes(notes) => assert_eq!(notes, vec!["/notes/a.md".to_string()]),
        other => panic!("expected notes, got {other:?}"),
    }
}

#[test]
fn note_names_and_folders() {
    assert_eq!(
        note_name("/c", "/c/Novel/Ch 1/Scene.md"),
        Some(("Novel/Ch 1/Scene.md".to_string(), vec!["Novel".to_string(), "Ch 1".to_string()]))
    );
    assert_eq!(note_name("/c", "/c/Top.md"), Some(("Top.md".to_string(), Vec::new())));
    assert_eq!(note_name("/c", "/elsewhere/a.md"), None);
    assert_eq!(note_name("/c", "/c"), None);
    assert_eq!(note_name("/c", "/c/../x.md"), None);
}

#[test]
fn note_hashes_are_sha256_hex() {
    assert_eq!(content_hash(""), "e3b0c44298fc1c149afbf4c8996fb92427ae41e4649b934ca495991b7852b855");
    assert_eq!(content_hash("x").len(), 64);
}

fn stamp(mtime_ms: i64, size: u64, checked_at_ms: i64) -> Entry {
    Entry { mtime_ms, size, hash: "h".into(), checked_at_ms }
}

fn pass_inputs() -> (Vec<(String, i64, u64)>, Vec<String>, Vec<(String, Entry)>) {
    let on_disk = vec![
        ("a.md".to_string(), 100, 1),
        ("b.md".to_string(), 300, 2),
        ("c.md".to_string(), 300, 3),
        ("d.md".to_string(), 200, 4),
    ];
    let in_db = vec!["a.md".to_string(), "gone.md".to_string(), "b.md".to_string()];
    let manifest = vec![
        ("a.md".to_string(), stamp(100, 1, 5000)),
        ("b.md".to_string(), stamp(300, 9, 9000)),
        ("zz.md".to_string(), stamp(1, 1, 9000)),
    ];
    (on_disk, in_db, manifest)
}

#[test]
fn full_pass_deletes_trims_and_orders_most_recent_first() {
    let (on_disk, in_db, manifest) = pass_inputs();
    let plan = plan_pass(true, false, true, &on_disk, &in_db, &manifest);
    assert_eq!(plan.delete, vec!["gone.md".to_string()]);
    assert_eq!(plan.in_db, vec!["a.md".to_string(), "b.md".to_string()]);
    assert!(!plan.reset && plan.dirty);
    let names: Vec<&str> = plan.manifest.iter().map(|(n, _)| n.as_str()).collect();
    assert_eq!(names, ["a.md", "b.md"]);
    assert_eq!(plan.changed, vec![1, 2, 3]);
}

#[test]
fn forced_or_outdated_pass_restarts_the_manifest() {
    let (on_disk, in_db, manifest) = pass_inputs();
    for (force, version_ok) in [(true, true), (false, false)] {
        let plan = plan_pass(true, force, version_ok, &on_disk, &in_db, &manifest);
        assert!(plan.reset && plan.dirty && plan.manifest.is_empty());
        assert_eq!(plan.changed, vec![1, 2, 3, 0]);
    }
}

#[test]
fn pass_over_some_notes_keeps_the_manifest() {
    let (on_disk, in_db, manifest) = pass_inputs();
    let plan = plan_pass(false, false, true, &on_disk, &in_db, &manifest);
    assert!(plan.delete.is_empty() && !plan.reset && !plan.dirty);
    assert_eq!(plan.manifest.len(), 3);
    assert_eq!(plan.in_db, in_db);
    assert_eq!(plan.changed, vec![1, 2, 3]);
}

#[test]
fn recently_checked_stamps_are_not_trusted() {
    let on_disk = vec![("a.md".to_string(), 100, 1)];
    let in_db = vec!["a.md".to_string()];
    let manifest = vec![("a.md".to_string(), stamp(100, 1, 1500))];
    assert_eq!(plan_pass(false, false, true, &on_disk, &in_db, &manifest).changed, vec![0]);
}

#[test]
fn unchanged_text_is_not_embedded_again() {
    let e = stamp(1, 1, 1);
    assert!(!needs_embedding(true, Some(&e), "h"));
    assert!(needs_embedding(true, Some(&e), "other"));
    assert!(needs_embedding(false, Some(&e), "h"));
    assert!(needs_embedding(true, None, "h"));
    assert!(save_due(24) && !save_due(25) && save_due(49));
}
