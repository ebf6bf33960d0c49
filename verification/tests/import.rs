use memoire::import::{convert_wikilinks, encode_component, natural_cmp, ordered_names, with_front_matter, Meta};
use std::cmp::Ordering;

#[test]
fn natural_order_and_prefixes() {
    assert_eq!(natural_cmp("Chapter 2", "chapter 10"), Ordering::Less);
    let sorted = vec!["Arrival".to_string(), "Departure".to_string()];
    assert_eq!(ordered_names(&sorted), sorted);
    let unsorted = vec!["Opening".to_string(), "Arrival".to_string()];
    assert_eq!(ordered_names(&unsorted), vec!["01 Opening", "02 Arrival"]);
}

#[test]
fn numbers_compare_by_value_and_case_is_ignored() {
    assert_eq!(natural_cmp("a007", "a7"), Ordering::Equal);
    assert_eq!(natural_cmp("a10", "a9"), Ordering::Greater);
    assert_eq!(natural_cmp("ABC", "abd"), Ordering::Less);
    assert_eq!(natural_cmp("", "x"), Ordering::Less);
    assert_eq!(natural_cmp("Part 2b", "part 2a"), Ordering::Greater);
    assert_eq!(natural_cmp("Ünder", "ünder"), Ordering::Equal);
}

#[test]
fn long_lists_get_wider_prefixes() {
    let mut names: Vec<String> = (0..12).map(|i| format!("n{}", 20 - i)).collect();
    names[0] = "zz".to_string();
    let out = ordered_names(&names);
    assert_eq!(out[0], "01 zz");
    assert_eq!(out[11], "12 n9");
    let many: Vec<String> = (0..100).map(|i| format!("s{}", 200 - i)).collect();
    assert_eq!(ordered_names(&many)[0], "001 s200");
}

#[test]
fn empty_meta() {
    let meta = Meta { synopsis: None, status: None, label: None };
    assert!(meta.is_empty());
    let meta = Meta { synopsis: None, status: Some("Done".into()), label: None };
    assert!(!meta.is_empty());
}

#[test]
fn front_matter_quotes_values() {
    let meta = Meta { synopsis: Some("She says: \"no\"\nThen leaves.".into()), status: Some("First Draft".into()), label: None };
    let out = with_front_matter(&meta, "Body");
    assert_eq!(out, "---\nsynopsis: \"She says: \\\"no\\\"\\nThen leaves.\"\nstatus: \"First Draft\"\n---\n\nBody");
    assert_eq!(with_front_matter(&Meta::default(), "Body"), "Body");
}

#[test]
fn blank_values_are_left_out_but_still_open_a_block() {
    let meta = Meta { synopsis: Some("   ".into()), status: None, label: Some(" Red ".into()) };
    assert_eq!(with_front_matter(&meta, "B"), "---\nlabel: \"Red\"\n---\n\nB");
}

#[test]
fn wikilinks_point_at_imported_writings() {
    let lookup = vec![("ann (lead)".to_string(), "Imports/Vault/People/Ann (Lead).md".to_string())];
    assert_eq!(
        convert_wikilinks("See [[Ann (Lead)|Ann]], [[Missing]] and ![[map.png]].", &lookup),
        "See [Ann](#writing/Imports%2FVault%2FPeople%2FAnn%20%28Lead%29.md), Missing and map.png."
    );
}

#[test]
fn wikilinks_use_the_last_path_segment_and_drop_headings() {
    let lookup = vec![("plot".to_string(), "Plot.md".to_string())];
    assert_eq!(convert_wikilinks("[[Notes/Plot#Act 1]]", &lookup), "[Notes/Plot#Act 1](#writing/Plot.md)");
    assert_eq!(convert_wikilinks("[[Plot|a [b] c]]", &lookup), "[a \\[b\\] c](#writing/Plot.md)");
    assert_eq!(convert_wikilinks("![[Plot]]", &lookup), "Plot");
    assert_eq!(convert_wikilinks("no links [[here", &lookup), "no links [[here");
    assert_eq!(convert_wikilinks("[[a\nb]] [[Plot]]", &lookup), "[[a\nb]] [Plot](#writing/Plot.md)");
}

#[test]
fn components_are_percent_encoded_like_the_editor() {
    assert_eq!(encode_component("A b/(c)~*'.md"), "A%20b%2F%28c%29~*'.md");
    assert_eq!(encode_component("é"), "%C3%A9");
}

#[test]
fn numbers_at_the_end_compare_as_numbers_and_names_equal_themselves() {
    assert_eq!(natural_cmp("Scene 9", "Scene 10"), Ordering::Less);
    assert_eq!(natural_cmp("Part x100", "Part x99"), Ordering::Greater);
    assert_eq!(natural_cmp("7", "7"), Ordering::Equal);
    assert_eq!(natural_cmp("Act 0", "Act 1"), Ordering::Less);
    for name in ["", "Chapter 3", "Ünïcode 12b", "a1b2c3"] {
        assert_eq!(natural_cmp(name, name), Ordering::Equal);
    }
}

#[test]
fn metadata_values_are_escaped_as_json_strings() {
    let meta = Meta { synopsis: Some("a\\b\tc\u{1}d/é".into()), status: None, label: None };
    assert_eq!(with_front_matter(&meta, "B"), "---\nsynopsis: \"a\\\\b\\tc\\u0001d/é\"\n---\n\nB");
}

#[test]
fn ordered_names_come_back_in_natural_order() {
    let names: Vec<String> = ["Epilogue", "Chapter 10", "Chapter 2"].iter().map(|s| s.to_string()).collect();
    let out = ordered_names(&names);
    assert_eq!(out, vec!["01 Epilogue", "02 Chapter 10", "03 Chapter 2"]);
    for pair in out.windows(2) {
        assert_eq!(natural_cmp(&pair[0], &pair[1]), Ordering::Less);
    }
    let sorted: Vec<String> = ["Chapter 2", "chapter 10"].iter().map(|s| s.to_string()).collect();
    assert_eq!(ordered_names(&sorted), sorted);
}

#[test]
fn case_does_not_change_the_natural_order() {
    for other in ["Chapter 10", "chapter 1", "Appendix", "CHAPTER 2", ""] {
        assert_eq!(natural_cmp("chapter 2", other), natural_cmp("Chapter 2", other));
        assert_eq!(natural_cmp("chapter 2", other), natural_cmp("CHAPTER 2", other));
    }
    assert_eq!(natural_cmp("chapter 2", "CHAPTER 2"), Ordering::Equal);
}
