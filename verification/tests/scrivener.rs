use memoire::import::Meta;
use memoire::scrivener::{
    binder_meta, count_excluded, excluded_warning, importable_items, parse_scrivx, plan_entry, skipped_warning,
    BinderItem,
};

const PROJECT: &str = r#"<?xml version="1.0" encoding="UTF-8"?>
<ScrivenerProject>
  <Binder>
    <BinderItem UUID="D" Type="DraftFolder"><Title>Draft</Title><Children>
      <BinderItem UUID="C1" Type="Folder"><Title>Chapter 1</Title><Children>
        <BinderItem UUID="AAAA-1" Type="Text"><Title>Zebra &amp; End</Title><MetaData><StatusID>2</StatusID><LabelID>-1</LabelID><IncludeInCompile>No</IncludeInCompile></MetaData></BinderItem>
        <BinderItem UUID="BBBB-2" Type="Text"><Title>Aardvark</Title></BinderItem>
      </Children></BinderItem>
    </Children></BinderItem>
    <BinderItem UUID="R" Type="ResearchFolder"><Title>Research</Title><Children>
      <BinderItem UUID="P" Type="PDF"><Title>Map</Title></BinderItem>
    </Children></BinderItem>
    <BinderItem UUID="T" Type="TrashFolder"><Title>Trash</Title><Children>
      <BinderItem ID="9" Type="Text"><Title> Old </Title><MetaData><IncludeInCompile>no</IncludeInCompile></MetaData></BinderItem>
    </Children></BinderItem>
  </Binder>
  <StatusSettings><StatusItems><Status ID="2">First Draft</Status><Status ID="3">No Status</Status></StatusItems></StatusSettings>
</ScrivenerProject>"#;

#[test]
fn scrivener_binder_is_read_as_a_tree() {
    let project = parse_scrivx(PROJECT).unwrap();
    assert_eq!(project.items.len(), 3);
    let draft = &project.items[0];
    assert_eq!((draft.id.as_str(), draft.kind.as_str(), draft.title.as_str()), ("D", "DraftFolder", "Draft"));
    let chapter = &draft.children[0];
    assert_eq!(chapter.title, "Chapter 1");
    let zebra = &chapter.children[0];
    assert_eq!(zebra.title, "Zebra & End");
    assert_eq!(zebra.status_id.as_deref(), Some("2"));
    assert_eq!(zebra.label_id.as_deref(), Some("-1"));
    assert!(!zebra.include_in_compile);
    assert!(chapter.children[1].include_in_compile);
    let old = &project.items[2].children[0];
    assert_eq!((old.id.as_str(), old.title.as_str()), ("9", "Old"));
    assert_eq!(project.statuses, vec![("2".to_string(), "First Draft".to_string()), ("3".to_string(), "No Status".to_string())]);
    assert!(project.labels.is_empty());
}

#[test]
fn excluded_texts_are_counted_outside_the_trash() {
    let project = parse_scrivx(PROJECT).unwrap();
    assert_eq!(count_excluded(&project.items), 1);
    assert_eq!(importable_items(&project.items), vec![0, 1]);
}

#[test]
fn metadata_names_come_from_the_project() {
    let project = parse_scrivx(PROJECT).unwrap();
    let zebra = &project.items[0].children[0].children[0];
    let meta = binder_meta(zebra, &project, Some(" Everything ends.\n".into()));
    assert_eq!(meta.synopsis.as_deref(), Some("Everything ends."));
    assert_eq!(meta.status.as_deref(), Some("First Draft"));
    assert_eq!(meta.label, None);
    let item = BinderItem {
        id: "x".into(),
        kind: "Text".into(),
        title: "t".into(),
        status_id: Some("3".into()),
        label_id: None,
        include_in_compile: true,
        children: Vec::new(),
    };
    let meta = binder_meta(&item, &project, Some("   ".into()));
    assert_eq!((meta.synopsis, meta.status), (None, None));
}

#[test]
fn entries_are_planned_by_kind() {
    let empty = Meta::default();
    let pdf = plan_entry("PDF", false, "", &empty);
    assert!(pdf.skipped && pdf.writing.is_none() && pdf.children.is_none());
    let text = plan_entry("Text", false, "The *end* of it.", &empty);
    assert_eq!(text.writing.as_deref(), Some("The *end* of it.\n"));
    assert_eq!(text.children, None);
    let folder = plan_entry("DraftFolder", true, "", &empty);
    assert!(!folder.skipped && folder.writing.is_none());
    assert_eq!(folder.children, Some(true));
    let text_with_children = plan_entry("Text", true, "x\n", &empty);
    assert_eq!(text_with_children.writing.as_deref(), Some("x\n"));
    assert_eq!(text_with_children.children, Some(false));
    let meta = Meta { synopsis: Some("Everything ends.".into()), status: Some("First Draft".into()), label: None };
    let with_meta = plan_entry("Text", false, "The *end* of it.", &meta);
    assert_eq!(
        with_meta.writing.as_deref(),
        Some("---\nsynopsis: \"Everything ends.\"\nstatus: \"First Draft\"\n---\n\nThe *end* of it.\n")
    );
}

#[test]
fn import_warnings_name_the_project() {
    assert_eq!(skipped_warning("Novel", 2), "Novel: skipped 2 PDFs, images or web pages (only text is imported).");
    assert_eq!(
        excluded_warning("Novel", 3),
        "Novel: 3 items were marked “not included in compile” in Scrivener; they were imported anyway."
    );
}

#[test]
fn unreadable_projects_are_reported() {
    let err = parse_scrivx("<ScrivenerProject><Binder></Title></Binder></ScrivenerProject>").unwrap_err();
    assert!(err.starts_with("Unreadable Scrivener project: "), "{err}");
}
