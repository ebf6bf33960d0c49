use memoire::dropbox::{
    base64_url_nopad, classify, code_challenge, conflict_copy_path, content_hash,
    new_code_verifier, normalize_folder, percent_decode, percent_encode, pull_deletes,
    pull_step, push_deletes, push_step, query_params, remote_path, Change, PullStep, PushStep,
    SyncResult, SyncRun, HASH_BLOCK,
};
use sha2::{Digest, Sha256};

#[test]
fn content_hash_matches_dropbox_reference() {
    // A single short block: SHA-256 of the SHA-256 of the contents.
    let expected = hex::encode(Sha256::digest(Sha256::digest(b"hello")));
    assert_eq!(content_hash(b"hello"), expected);
}

#[test]
fn content_hash_blocks_are_concatenated() {
    let bytes = vec![7u8; HASH_BLOCK + 10];
    let mut concatenated = Vec::new();
    concatenated.extend_from_slice(&Sha256::digest(&bytes[..HASH_BLOCK]));
    concatenated.extend_from_slice(&Sha256::digest(&bytes[HASH_BLOCK..]));

    assert_eq!(content_hash(&bytes), hex::encode(Sha256::digest(&concatenated)));
}

#[test]
fn base64_url_has_no_padding_and_is_url_safe() {
    assert_eq!(base64_url_nopad(b""), "");
    assert_eq!(base64_url_nopad(b"f"), "Zg");
    assert_eq!(base64_url_nopad(b"fo"), "Zm8");
    assert_eq!(base64_url_nopad(b"foo"), "Zm9v");
    assert_eq!(base64_url_nopad(b"foob"), "Zm9vYg");
    assert_eq!(base64_url_nopad(&[251, 255, 190]), "-_--");
}

#[test]
fn code_challenge_is_sha256_of_verifier() {
    let verifier = "abc123";
    assert_eq!(code_challenge(verifier), base64_url_nopad(&Sha256::digest(verifier.as_bytes())));
}

#[test]
fn folders_normalize_to_a_dropbox_path() {
    assert_eq!(normalize_folder("Memoire"), "/Memoire");
    assert_eq!(normalize_folder("/Memoire/"), "/Memoire");
    assert_eq!(normalize_folder("  /Apps/Memoire  "), "/Apps/Memoire");
    assert_eq!(normalize_folder("/"), "");
    assert_eq!(normalize_folder(""), "");
}

#[test]
fn remote_paths_join_folder_and_relative_path() {
    assert_eq!(remote_path("Memoire", "Novel/Chapter 1.md"), "/Memoire/Novel/Chapter 1.md");
    assert_eq!(remote_path("", "Note.md"), "/Note.md");
}

#[test]
fn query_params_are_parsed_and_decoded() {
    let params = query_params("/?code=abc%2Fdef&state=xyz");
    assert_eq!(params.get("code").unwrap(), "abc/def");
    assert_eq!(params.get("state").unwrap(), "xyz");
    assert!(query_params("/favicon.ico").is_empty());
}

#[test]
fn classify_uses_last_sync_to_tell_which_side_moved() {
    assert_eq!(classify(Some("a"), Some("a"), None), Change::InSync);
    assert_eq!(classify(Some("a"), None, None), Change::LocalNew);
    assert_eq!(classify(None, Some("a"), None), Change::RemoteNew);
    assert_eq!(classify(Some("b"), Some("a"), Some("a")), Change::LocalModified);
    assert_eq!(classify(Some("a"), Some("b"), Some("a")), Change::RemoteModified);
}

#[test]
fn classify_detects_deletes_only_when_other_side_is_unchanged() {
    assert_eq!(classify(None, Some("a"), Some("a")), Change::LocalDeleted);
    assert_eq!(classify(Some("a"), None, Some("a")), Change::RemoteDeleted);
    // Edited on the other side after the delete: the edit wins.
    assert_eq!(classify(None, Some("b"), Some("a")), Change::RemoteNew);
    assert_eq!(classify(Some("b"), None, Some("a")), Change::LocalNew);
}

#[test]
fn classify_flags_both_sides_changed_as_conflict() {
    assert_eq!(classify(Some("b"), Some("c"), Some("a")), Change::Conflict);
    // Never synced and different: can't tell which is newer.
    assert_eq!(classify(Some("b"), Some("c"), None), Change::Conflict);
}

#[test]
fn conflict_copy_sits_beside_the_original() {
    assert_eq!(
        conflict_copy_path("/c", "Novel/Chapter 1.md"),
        "/c/Novel/Chapter 1 (Dropbox conflict).md"
    );
}

#[test]
fn percent_encoding_round_trips() {
    assert_eq!(percent_encode("a b/é~"), "a%20b%2F%C3%A9~");
    assert_eq!(percent_decode("a%20b%2F%C3%A9~"), "a b/é~");
    assert_eq!(percent_decode("1+1%3D2"), "1 1=2");
    assert_eq!(percent_decode("100%"), "100%");
    assert_eq!(percent_decode("%zz%+4"), "%zz\u{4}");
}

#[test]
fn later_query_keys_win_and_pieces_without_values_are_dropped() {
    let params = query_params("/cb?x=1&flag&x=2&empty=");
    assert_eq!(params.get("x").unwrap(), "2");
    assert_eq!(params.get("empty").unwrap(), "");
    assert!(params.get("flag").is_none());
    assert!(!params.is_empty());
    assert!(query_params("/?").is_empty());
}

#[test]
fn push_and_pull_never_overwrite_the_other_sides_edit() {
    assert_eq!(push_step(Change::LocalModified), PushStep::Upload);
    assert_eq!(push_step(Change::RemoteModified), PushStep::Leave);
    assert_eq!(push_step(Change::Conflict), PushStep::Conflict);
    assert_eq!(push_step(Change::InSync), PushStep::Record);
    assert_eq!(pull_step(Change::RemoteNew), PullStep::Download);
    assert_eq!(pull_step(Change::LocalModified), PullStep::Leave);
    assert_eq!(pull_step(Change::Conflict), PullStep::SaveConflictCopy);
    assert!(push_deletes("a", Some("a")));
    assert!(!push_deletes("b", Some("a")));
    assert!(!pull_deletes("a", None));
    assert!(pull_deletes("a", Some("a")));
}

#[test]
fn change_names_and_fresh_verifiers() {
    assert_eq!(Change::RemoteModified.as_str(), "remote_modified");
    assert_eq!(Change::InSync.as_str(), "in_sync");
    let v = new_code_verifier();
    assert_eq!(v.len(), 64);
    assert!(v.chars().all(|c| c.is_ascii_hexdigit() && !c.is_ascii_uppercase()));
    assert_ne!(v, new_code_verifier());
    let r = SyncResult::default();
    assert_eq!((r.uploaded, r.downloaded, r.conflicts, r.deleted), (0, 0, 0, 0));
}

#[test]
fn api_arg_escapes_non_ascii() {
    let mut fields = serde_json::Map::new();
    fields.insert("path".to_string(), serde_json::Value::String("/Mémoire.md".to_string()));
    let arg = serde_json::Value::Object(fields);
    assert_eq!(memoire::dropbox::ascii_escape_json(&arg.to_string()), "{\"path\":\"/M\\u00e9moire.md\"}");
}

#[test]
fn ascii_escape_writes_surrogate_pairs_for_emoji() {
    assert_eq!(memoire::dropbox::ascii_escape("a😀b"), "a\\ud83d\\ude00b");
    assert_eq!(memoire::dropbox::ascii_escape("plain"), "plain");
}

#[test]
fn percent_decoding_undoes_percent_encoding() {
    for s in ["", "plain", "a b+c%d&e=f/g?h", "héllo wörld ✓", "%zz %4", "~-_.*"] {
        assert_eq!(percent_decode(&percent_encode(s)), s);
    }
}

fn s(x: &str) -> String {
    x.to_string()
}

#[test]
fn a_push_run_records_uploads_counts_and_deletes() {
    let mut run = SyncRun::new(vec![
        (s("same.md"), s("h1")),
        (s("gone.md"), s("g")),
        (s("both.md"), s("b0")),
        (s("theirs.md"), s("t0")),
    ]);
    assert_eq!(run.push_local(&s("same.md"), "h1", Some("h1")), PushStep::Record);
    assert_eq!(run.push_local(&s("new.md"), "n1", None), PushStep::Upload);
    run.uploaded(&s("new.md"), "n2");
    assert_eq!(run.push_local(&s("both.md"), "b1", Some("b2")), PushStep::Conflict);
    assert_eq!(run.push_local(&s("theirs.md"), "t0", Some("t1")), PushStep::Leave);
    assert!(run.push_deletes_remote(&s("gone.md"), "g", false));
    assert!(!run.push_deletes_remote(&s("gone.md"), "edited", false));
    assert!(!run.push_deletes_remote(&s("gone.md"), "g", true));
    run.deleted(&s("gone.md"));
    assert_eq!((run.result.uploaded, run.result.downloaded, run.result.conflicts, run.result.deleted), (1, 0, 1, 1));
    assert_eq!(run.base_get(&s("new.md")), Some("n2"));
    assert_eq!(run.base_get(&s("gone.md")), None);
    assert_eq!(run.base_get(&s("both.md")), Some("b0"));
}

#[test]
fn a_pull_run_downloads_saves_conflict_copies_and_deletes() {
    let mut run = SyncRun::new(vec![(s("mine.md"), s("m0")), (s("both.md"), s("b0")), (s("old.md"), s("o"))]);
    assert_eq!(run.pull_remote(&s("mine.md"), "m1", Some("m0")), PullStep::Download);
    run.downloaded(&s("mine.md"), "m1", false);
    assert_eq!(run.pull_remote(&s("both.md"), "b2", Some("b1")), PullStep::SaveConflictCopy);
    run.downloaded(&s("both.md"), "b2", true);
    assert_eq!(run.pull_remote(&s("same.md"), "x", Some("x")), PullStep::Record);
    assert_eq!(run.pull_remote(&s("edited.md"), "e0", Some("e1")), PullStep::SaveConflictCopy);
    assert!(run.pull_deletes_local(&s("old.md"), "o", false));
    assert!(!run.pull_deletes_local(&s("old.md"), "changed", false));
    run.deleted(&s("old.md"));
    assert_eq!((run.result.uploaded, run.result.downloaded, run.result.conflicts, run.result.deleted), (0, 1, 1, 1));
    assert_eq!(run.base_get(&s("both.md")), Some("b2"));
    assert_eq!(run.base_get(&s("same.md")), Some("x"));
    assert_eq!(run.base_get(&s("old.md")), None);
}
