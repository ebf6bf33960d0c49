use memoire::commands::relative_dir_segments;
use memoire::providers::{openrouter_model_name, strip_code_fence, DEFAULT_OPENROUTER_MODEL};

#[test]
fn nested_note_lists_its_folders() {
    assert_eq!(
        relative_dir_segments("Novel/Part 1/Scene.md"),
        vec!["Novel".to_string(), "Part 1".to_string()]
    );
}

#[test]
fn top_level_note_has_no_folders() {
    assert!(relative_dir_segments("Scene.md").is_empty());
}

#[test]
fn empty_folder_names_are_kept() {
    assert_eq!(
        relative_dir_segments("a//b.md"),
        vec!["a".to_string(), "".to_string()]
    );
}

#[test]
fn json_fence_is_removed() {
    assert_eq!(strip_code_fence("```json\n{\"a\":1}\n```"), "{\"a\":1}");
}

#[test]
fn plain_fence_is_removed() {
    assert_eq!(strip_code_fence("  ```\nx\n```  "), "x");
}

#[test]
fn unfenced_reply_is_only_trimmed() {
    assert_eq!(strip_code_fence("  {}  "), "{}");
}

#[test]
fn unclosed_fence_is_left_alone() {
    assert_eq!(strip_code_fence("```json x"), "```json x");
}

#[test]
fn last_closing_fence_wins() {
    assert_eq!(strip_code_fence("```a``` b ```"), "a``` b");
}

#[test]
fn chosen_model_overrides_the_default() {
    assert_eq!(openrouter_model_name(Some("m".to_string())), "m");
    assert_eq!(openrouter_model_name(None), DEFAULT_OPENROUTER_MODEL);
}
