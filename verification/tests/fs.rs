use memoire::fs::{is_hidden, name_order, recent_order, File};

#[test]
fn test_file_extension() {
    let file_path = String::from("/tmp/test.md");
    let file = File::new(file_path, None);
    assert_eq!(file.extension().as_deref(), Some("md"));

    let no_ext_path = String::from("/tmp/test");
    let no_ext_file = File::new(no_ext_path, None);
    assert_eq!(no_ext_file.extension(), None);
}

#[test]
fn names_follow_the_folders() {
    let f = File::with_relative_dir("/c/Novel/Ch 1/Scene.md".into(), Some(42), vec!["Novel".into(), "Ch 1".into()]);
    assert_eq!(f.name, "Novel/Ch 1/Scene.md");
    assert_eq!(f.folder.as_deref(), Some("Novel"));
    assert_eq!(f.last_modified, 42);
    let g = File::with_folder("/c/B/x.md".into(), None, Some("B".into()));
    assert_eq!(g.name, "B/x.md");
    assert_eq!(g.last_modified, 0);
    let h = File::new("/c/.hidden".into(), None);
    assert_eq!(h.name, ".hidden");
    assert_eq!(h.extension(), None);
    assert_eq!(File::new("/c/a.tar.gz".into(), None).extension().as_deref(), Some("gz"));
}

#[test]
fn names_are_listed_by_code_point() {
    let names = vec!["b.md".to_string(), "a/z.md".to_string(), "a.md".to_string(), "B.md".to_string()];
    assert_eq!(name_order(&names), vec![3, 2, 1, 0]);
    assert_eq!(name_order(&Vec::new()), Vec::<usize>::new());
}

#[test]
fn recent_writings_come_first_and_ties_keep_their_order() {
    assert_eq!(recent_order(&vec![5, 9, 5, 1]), vec![1, 0, 2, 3]);
}

#[test]
fn hidden_names_start_with_a_dot() {
    assert!(is_hidden(".git") && is_hidden("."));
    assert!(!is_hidden("Novel") && !is_hidden("") && !is_hidden("a.b"));
}
