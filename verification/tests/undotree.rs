use memoire::undotree::{apply, delta, preview_of, History, HistorySummary, LegacyNode, Node, NodeData, NodeIndex, UndoTree};

fn content_at(tree: &mut UndoTree, name: &str, i: usize) -> String {
    tree.get_history(name).unwrap().content_of(NodeIndex(i)).unwrap()
}

#[test]
fn test_sort_by_latest_logic() {
    let mut tree = UndoTree::new();
    tree.add_change("file.txt", "Original"); // Node 0

    // Create Branch A
    tree.add_change("file.txt", "Branch A - 1"); // Node 1

    // Go back to root
    tree.undo("file.txt"); // Back to Node 0

    // Create Branch B (Later in time)
    tree.add_change("file.txt", "Branch B - 1"); // Node 2

    // Go back to root
    tree.undo("file.txt"); // Back to Node 0

    let history = tree.get_history("file.txt").unwrap();
    let root_idx = NodeIndex(0);

    // Get children sorted by latest
    let sorted_children = history.get_latest_children(root_idx);

    assert_eq!(sorted_children.len(), 2);
    assert_eq!(sorted_children[0], NodeIndex(2)); // Branch B (Newer) should be first
    assert_eq!(sorted_children[1], NodeIndex(1)); // Branch A (Older) should be second
}

#[test]
fn test_redo_latest_branch() {
    let mut tree = UndoTree::new();
    tree.add_change("f", "root");
    tree.add_change("f", "old_branch");
    tree.undo("f");
    tree.add_change("f", "new_branch"); // This breaks the linear redo stack

    // We are at "new_branch". Go back to root.
    tree.undo("f");

    let content = tree.redo_latest_branch("f").unwrap();
    assert_eq!(content, "new_branch");
}

#[test]
fn test_delta_roundtrip() {
    let cases = [
        ("", "hello"),
        ("hello", ""),
        ("hello world", "hello there world"),
        ("aaaa", "aaaaaa"),
        ("abcabc", "abc"),
        ("café au lait", "cafés au lait"),
        ("日本語のテキスト", "日本のテキスト"),
        ("emoji 🙂 here", "emoji 🙃 here"),
        ("same", "same"),
    ];
    for (old, new) in cases {
        assert_eq!(apply(old, &delta(old, new)), new, "{old:?} -> {new:?}");
    }
}

#[test]
fn test_stores_deltas_with_keyframes() {
    let mut tree = UndoTree::new();
    let big = "x".repeat(100_000);
    let versions: Vec<String> = (0..70).map(|i| format!("{big}{i}")).collect();
    for v in &versions {
        tree.add_change("big.md", v);
    }

    let history = tree.get_history("big.md").unwrap();
    let full = history
        .nodes
        .iter()
        .filter(|n| matches!(n.data, NodeData::Full(_)))
        .count();
    assert_eq!(full, 3); // versions 0, 32 and 64
    for (i, v) in versions.iter().enumerate() {
        assert_eq!(&history.content_of(NodeIndex(i)).unwrap(), v);
    }
}

#[test]
fn test_branches_rebuild_from_their_own_parent() {
    let mut tree = UndoTree::new();
    tree.add_change("f", "one two three");
    tree.add_change("f", "one 2 three");
    tree.goto_version("f", 0);
    tree.add_change("f", "one two 3");
    assert_eq!(content_at(&mut tree, "f", 1), "one 2 three");
    assert_eq!(content_at(&mut tree, "f", 2), "one two 3");
    assert_eq!(tree.current_content("f").unwrap(), "one two 3");
}

#[test]
fn delta_keeps_the_longest_common_ends_on_char_boundaries() {
    match delta("café au lait", "cafés au lait") {
        NodeData::Delta { keep_start, keep_end, insert } => {
            assert_eq!(keep_start, 5);
            assert_eq!(keep_end, 8);
            assert_eq!(insert, "s");
        }
        NodeData::Full(_) => panic!("expected a change"),
    }
    match delta("emoji 🙂 here", "emoji 🙃 here") {
        NodeData::Delta { keep_start, keep_end, insert } => {
            assert_eq!(keep_start, 6);
            assert_eq!(keep_end, 5);
            assert_eq!(insert, "🙃");
        }
        NodeData::Full(_) => panic!("expected a change"),
    }
}

#[test]
fn identical_content_is_not_a_new_version() {
    let mut tree = UndoTree::new();
    tree.add_change("a.md", "same");
    tree.add_change("a.md", "same");
    assert_eq!(tree.get_history("a.md").unwrap().nodes.len(), 1);
}

#[test]
fn undo_at_the_root_and_unknown_names_do_nothing() {
    let mut tree = UndoTree::new();
    assert_eq!(tree.undo("missing.md"), None);
    tree.add_change("a.md", "one");
    assert_eq!(tree.undo("a.md"), None);
    assert_eq!(tree.redo_latest_branch("a.md"), None);
    assert_eq!(tree.goto_version("a.md", 5), None);
    assert_eq!(tree.current_content("a.md").unwrap(), "one");
}

#[test]
fn undo_then_redo_returns_to_the_undone_version() {
    let mut tree = UndoTree::new();
    tree.add_change("a.md", "one");
    tree.add_change("a.md", "two");
    tree.add_change("a.md", "three");
    assert_eq!(tree.undo("a.md").unwrap(), "two");
    assert_eq!(tree.undo("a.md").unwrap(), "one");
    assert_eq!(tree.redo_latest_branch("a.md").unwrap(), "two");
    assert_eq!(tree.redo_latest_branch("a.md").unwrap(), "three");
}

#[test]
fn preview_is_first_nonblank_line_trimmed_and_capped() {
    assert_eq!(preview_of("\n   \n  hello world  \nmore"), "hello world");
    assert_eq!(preview_of(""), "");
    let long = "y".repeat(70);
    let p = preview_of(&long);
    assert_eq!(p.chars().count(), 65);
    assert!(p.ends_with('\u{2026}'));
}

#[test]
fn renames_move_histories() {
    let mut tree = UndoTree::new();
    tree.add_change("old/a.md", "a");
    tree.add_change("old/b.md", "b");
    tree.add_change("c.md", "c");
    tree.rename_prefix("old", "new");
    tree.rename_entry("c.md", "d.md");
    assert_eq!(tree.current_content("new/a.md").unwrap(), "a");
    assert_eq!(tree.current_content("new/b.md").unwrap(), "b");
    assert_eq!(tree.current_content("d.md").unwrap(), "c");
    assert!(tree.get_history("old/a.md").is_none());
    assert!(tree.get_history("c.md").is_none());
}

#[test]
fn rename_over_existing_drops_its_history() {
    let mut tree = UndoTree::new();
    tree.add_change("a.md", "a");
    tree.add_change("b.md", "b");
    let plan = tree.save();
    assert_eq!(plan.histories.len(), 2);
    assert!(plan.index);
    tree.rename_entry("a.md", "b.md");
    assert_eq!(tree.current_content("b.md").unwrap(), "a");
    let plan = tree.save();
    assert_eq!(plan.removed.len(), 1);
    assert!(plan.histories.is_empty());
}

#[test]
fn legacy_histories_keep_indices_and_texts() {
    let nodes = vec![
        LegacyNode { content: "root".to_string(), parent: None, created_at: Some(5) },
        LegacyNode { content: "root plus".to_string(), parent: Some(NodeIndex(0)), created_at: None },
        LegacyNode { content: "root".to_string(), parent: Some(NodeIndex(0)), created_at: None },
    ];
    let history = History::from_legacy(&nodes, Some(NodeIndex(1)));
    assert_eq!(history.nodes.len(), 3);
    assert_eq!(history.current, Some(NodeIndex(1)));
    assert_eq!(history.nodes[0].children, vec![NodeIndex(1), NodeIndex(2)]);
    assert_eq!(history.nodes[0].created_at, Some(5));
    assert_eq!(history.nodes[1].preview, "root plus");
    assert_eq!(history.content_of(NodeIndex(1)).unwrap(), "root plus");
    assert_eq!(history.content_of(NodeIndex(2)).unwrap(), "root");
    let summary = HistorySummary::of(&history);
    assert_eq!(summary.nodes[2].parent, Some(NodeIndex(0)));
    assert_eq!(summary.nodes[1].preview, "root plus");
}

#[test]
fn dot_drawing_marks_the_current_version() {
    let mut tree = UndoTree::new();
    tree.add_change("f", "first");
    tree.add_change("f", "second");
    let dot = tree.to_dot("f");
    assert_eq!(
        dot,
        "digraph History {\n  node0 [label=\"0: first\" ];\n  node1 [label=\"1: second\" color=red, style=filled, fillcolor=pink];\n  node0 -> node1;\n}\n"
    );
    assert_eq!(tree.to_dot("missing"), "");
}

#[test]
fn folder_rename_moves_only_the_folder_and_keeps_histories() {
    let mut t = UndoTree::new();
    t.add_change("old/a.md", "a");
    t.add_change("old/a.md", "a2");
    t.add_change("older/b.md", "b");
    t.add_change("old", "c");
    t.rename_prefix("old", "new");
    assert_eq!(t.current_content("new/a.md"), Some("a2".into()));
    assert_eq!(content_at(&mut t, "new/a.md", 0), "a");
    assert!(t.get_history("old/a.md").is_none());
    assert_eq!(t.current_content("older/b.md"), Some("b".into()));
    assert!(t.get_history("newer/b.md").is_none());
    assert_eq!(t.current_content("old"), Some("c".into()));
}

#[test]
fn a_new_writing_draws_its_first_version() {
    let mut t = UndoTree::new();
    t.add_change("f", "a");
    assert_eq!(t.to_dot("f"), "digraph History {\n  node0 [label=\"0: a\" color=red, style=filled, fillcolor=pink];\n}\n");
    assert_eq!(t.to_dot("g"), "");
}

#[test]
fn saving_lists_only_changed_histories() {
    let mut t = UndoTree::new();
    t.add_change("a.md", "a");
    t.add_change("b.md", "b");
    let first = t.save();
    assert_eq!(first.histories.len(), 2);
    assert!(first.index);
    t.add_change("a.md", "a2");
    t.add_change("b.md", "b");
    let second = t.save();
    assert_eq!(second.histories.len(), 1);
    assert!(!second.index);
}

#[test]
fn every_version_keeps_its_text_whatever_comes_after() {
    let mut tree = UndoTree::new();
    let texts = ["one", "one two", "one two three"];
    for t in texts {
        tree.add_change("f.md", t);
    }
    tree.undo("f.md");
    tree.add_change("f.md", "one two four");
    tree.goto_version("f.md", 0);
    tree.redo_latest_branch("f.md");
    for (i, t) in texts.iter().enumerate() {
        assert_eq!(content_at(&mut tree, "f.md", i), *t);
    }
    assert_eq!(content_at(&mut tree, "f.md", 3), "one two four");
    assert!(tree.get_history("f.md").unwrap().content_of(NodeIndex(4)).is_none());
}

fn one_version(text: &str) -> History {
    History {
        nodes: vec![Node {
            data: NodeData::Full(text.to_string()),
            parent: None,
            children: vec![],
            created_at: None,
            preview: text.to_string(),
        }],
        current: Some(NodeIndex(0)),
        redo_stack: vec![],
    }
}

#[test]
fn a_tree_comes_back_from_its_index_and_loaded_histories() {
    let index = vec![
        ("a.md".to_string(), "id1".to_string()),
        ("b.md".to_string(), "id2".to_string()),
        ("a.md".to_string(), "id3".to_string()),
        ("c.md".to_string(), "id2".to_string()),
    ];
    let mut tree = UndoTree::from_index(index);
    assert!(tree.get_history("b.md").is_some());
    assert!(tree.get_history("c.md").is_none());
    let h = one_version("hello");
    assert!(h.is_valid());
    tree.insert_loaded("id1", h);
    assert_eq!(tree.current_content("a.md"), Some("hello".to_string()));
    tree.add_change("a.md", "hello there");
    assert_eq!(tree.undo("a.md"), Some("hello".to_string()));
    assert_eq!(tree.redo_latest_branch("a.md"), Some("hello there".to_string()));
}

#[test]
fn histories_that_cannot_be_rebuilt_are_not_valid() {
    assert!(History::empty().is_valid());
    let mut h = one_version("x");
    h.nodes[0].data = NodeData::Delta { keep_start: 0, keep_end: 0, insert: "y".to_string() };
    assert!(!h.is_valid());
    let mut h = one_version("x");
    h.current = Some(NodeIndex(3));
    assert!(!h.is_valid());
    let mut h = one_version("x");
    h.nodes[0].children = vec![NodeIndex(1)];
    assert!(!h.is_valid());
}

#[test]
fn latest_children_are_distinct_and_strictly_newest_first() {
    let mut tree = UndoTree::new();
    tree.add_change("f.md", "root");
    for branch in ["a", "b", "c"] {
        tree.add_change("f.md", branch);
        tree.undo("f.md");
    }
    let history = tree.get_history("f.md").unwrap();
    let children = history.get_latest_children(NodeIndex(0));
    assert_eq!(children, vec![NodeIndex(3), NodeIndex(2), NodeIndex(1)]);
    assert!(children.windows(2).all(|p| p[0].0 > p[1].0));
    assert!(history.get_latest_children(NodeIndex(9)).is_empty());
}

#[test]
fn needs_loading_names_the_history_to_read_in() {
    let mut tree = UndoTree::from_index(vec![("Novel.md".to_string(), "abc123".to_string())]);
    assert_eq!(tree.needs_loading("Novel.md"), Some("abc123".to_string()));
    assert_eq!(tree.needs_loading("Other.md"), None);
    tree.insert_loaded("abc123", History::empty());
    assert_eq!(tree.needs_loading("Novel.md"), None);
}
