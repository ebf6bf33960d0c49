use memoire::utils::ChatTurn;
use memoire::workers::{
    binder_of, build_document_message, build_rag_message, Excerpt, chat_system_prompt, classifier_input, finalize_route,
    is_small_talk, open_document, recent_history, search_binder, strip_command, truncate_chars,
    with_transcript, ChatEvents, Intent, ModelEvents, HISTORY_TURNS, HISTORY_TURN_CHARS,
    MAX_DOCUMENT_CHARS,
};

fn turn(role: &str, content: &str) -> ChatTurn {
    ChatTurn { role: role.to_string(), content: content.to_string() }
}

#[test]
fn strip_command_needs_a_separator_and_an_argument() {
    assert_eq!(strip_command("/search dragon lore", "/search").as_deref(), Some("dragon lore"));
    assert_eq!(strip_command("/search   spaced  ", "/search").as_deref(), Some("spaced"));
    assert_eq!(strip_command("/searching things", "/search"), None);
    assert_eq!(strip_command("/search", "/search"), None);
    assert_eq!(strip_command("/search   ", "/search"), None);
    assert_eq!(strip_command("please /search x", "/search"), None);
}

#[test]
fn binder_is_the_top_level_folder() {
    assert_eq!(binder_of("Novel/Part 1/Ch 3.md").as_deref(), Some("Novel"));
    assert_eq!(binder_of("Novel/Ch 1.md").as_deref(), Some("Novel"));
    assert_eq!(binder_of("Ideas.md"), None);
}

#[test]
fn search_all_command_widens_the_search() {
    assert_eq!(strip_command("/search-all dragons", "/search"), None);
    assert_eq!(strip_command("/search-all dragons", "/search-all").as_deref(), Some("dragons"));
}

#[test]
fn small_talk_matches_whole_greetings_only() {
    assert!(is_small_talk("Hi!"));
    assert!(is_small_talk("  Thank you. "));
    assert!(!is_small_talk("hi, where did I write about the storm?"));
    assert!(!is_small_talk("summarize this"));
}

#[test]
fn finalize_route_falls_back_when_context_is_missing() {
    let doc_without_document =
        finalize_route(Intent::CurrentDocument, String::new(), "summarize this".into(), false, true);
    assert_eq!(doc_without_document.intent, Intent::General);

    let search_without_index = finalize_route(Intent::SearchNotes, "storm".into(), "q".into(), true, false);
    assert_eq!(search_without_index.intent, Intent::CurrentDocument);
    assert_eq!(search_without_index.query, "");

    let search_without_anything =
        finalize_route(Intent::SearchNotes, "storm".into(), "q".into(), false, false);
    assert_eq!(search_without_anything.intent, Intent::General);
}

#[test]
fn finalize_route_always_gives_a_search_something_to_embed() {
    let blank_query = finalize_route(
        Intent::SearchNotes,
        "  ".into(),
        "where is the lighthouse scene".into(),
        false,
        true,
    );
    assert_eq!(blank_query.intent, Intent::SearchNotes);
    assert_eq!(blank_query.query, "where is the lighthouse scene");

    let general = finalize_route(Intent::General, "leftover".into(), "hi".into(), true, true);
    assert_eq!(general.query, "");
}

#[test]
fn intent_parse_defaults_to_general() {
    assert_eq!(Intent::parse(" search_notes "), Intent::SearchNotes);
    assert_eq!(Intent::parse("current_document"), Intent::CurrentDocument);
    assert_eq!(Intent::parse("SEARCH"), Intent::General);
}

#[test]
fn truncate_chars_is_utf8_safe() {
    assert_eq!(truncate_chars("héllo wörld", 4), "héll…");
    assert_eq!(truncate_chars("short", 10), "short");
}

#[test]
fn recent_history_keeps_last_real_turns_and_caps_length() {
    let mut history: Vec<ChatTurn> = (0..10)
        .map(|i| turn(if i % 2 == 0 { "user" } else { "assistant" }, &format!("m{i}")))
        .collect();
    history.push(turn("system", "ignore me"));
    history.push(turn("user", "   "));
    history.push(turn("assistant", &"x".repeat(HISTORY_TURN_CHARS + 50)));

    let recent = recent_history(&history);

    assert_eq!(recent.len(), HISTORY_TURNS);
    assert_eq!(recent[0].content, "m5");
    assert!(recent.iter().all(|t| t.role != "system"));
    assert_eq!(recent.last().unwrap().content.chars().count(), HISTORY_TURN_CHARS + 1);
}

#[test]
fn classifier_input_describes_document_and_conversation() {
    let none = classifier_input("hi there", None, &[]);
    assert_eq!(none, "Open document: none\nRecent conversation:\nnone\nLatest message: hi there");

    let with_doc = classifier_input(
        "and her sister?",
        Some("Novel/Mara.md"),
        &[turn("user", "who is Mara?"), turn("assistant", "The captain.")],
    );
    assert_eq!(
        with_doc,
        "Open document: \"Novel › Mara\"\nRecent conversation:\nUser: who is Mara?\nAssistant: The captain.\nLatest message: and her sister?"
    );
}

#[test]
fn document_message_truncates_long_documents() {
    let long = "a".repeat(MAX_DOCUMENT_CHARS + 10);
    let message = build_document_message("Draft.md", &long, "tighten this");

    assert!(message.contains("The user has the document \"Draft\" open"));
    assert!(message.contains("[Document truncated"));
    assert!(!message.contains(&"a".repeat(MAX_DOCUMENT_CHARS + 1)));
}

#[test]
fn transcript_is_only_added_when_there_is_history() {
    assert_eq!(with_transcript(&[], "hello"), "hello");
    let with = with_transcript(&[turn("user", "hi"), turn("assistant", "hey")], "next");
    assert_eq!(with, "<conversation_so_far>\nUser: hi\n\nAssistant: hey\n</conversation_so_far>\n\nnext");
}

#[test]
fn classifier_keeps_only_the_last_four_turns_and_caps_them() {
    let history: Vec<ChatTurn> = (0..6).map(|i| turn("user", &format!("t{i}"))).collect();
    let input = classifier_input("q", None, &history);
    assert_eq!(
        input,
        "Open document: none\nRecent conversation:\nUser: t2\nUser: t3\nUser: t4\nUser: t5\nLatest message: q"
    );
    let long = classifier_input("q", None, &[turn("assistant", &"y".repeat(305))]);
    assert!(long.contains(&format!("Assistant: {}…\n", "y".repeat(300))));
}

#[test]
fn small_talk_lowercases_before_matching() {
    assert!(is_small_talk("GOOD MORNING!!"));
    assert!(is_small_talk("Bye."));
    assert!(!is_small_talk(""));
}

#[test]
fn short_documents_are_kept_whole() {
    let message = build_document_message("Notes/Plan.md", "step one", "what next?");
    assert!(message.contains("<document title=\"Notes › Plan\">\nstep one\n</document>"));
    assert!(message.contains("<question>\nwhat next?\n</question>"));
    assert!(!message.contains("{document}"));
}

#[test]
fn system_prompt_falls_back_when_blank() {
    assert_eq!(chat_system_prompt(Some("Be brief.".to_string())), "Be brief.");
    let default = chat_system_prompt(None);
    assert!(!default.trim().is_empty());
    assert_eq!(chat_system_prompt(Some("   ".to_string())), default);
}

#[test]
fn open_document_needs_text() {
    assert!(open_document(Some("A.md".into()), Some("   ".into())).is_none());
    assert!(open_document(Some("A.md".into()), None).is_none());
    let (title, text) = open_document(None, Some("  body \n".into())).unwrap();
    assert_eq!(title, "Untitled");
    assert_eq!(text, "body");
}

#[test]
fn search_binder_follows_the_open_note() {
    assert_eq!(search_binder(Some("Novel/Ch 1.md"), false).as_deref(), Some("Novel"));
    assert_eq!(search_binder(Some("Novel/Ch 1.md"), true), None);
    assert_eq!(search_binder(Some("/Loose.md"), false), None);
    assert_eq!(search_binder(None, false), None);
}

#[test]
fn event_names() {
    assert_eq!(ChatEvents::Route.as_str(), "chat-route");
    assert_eq!(ChatEvents::EditActionInProgress.as_str(), "chat-edit-action-in-progress");
    assert_eq!(ModelEvents::Loaded.as_str(), "model-loaded");
    assert_eq!(Intent::CurrentDocument.as_str(), "current_document");
}

#[test]
fn recent_history_trims_turns() {
    let recent = recent_history(&[turn("user", "  spaced out  "), turn("tool", "x")]);
    assert_eq!(recent.len(), 1);
    assert_eq!(recent[0].content, "spaced out");
    assert_eq!(recent[0].role, "user");
}

fn result(title: &str, content: &str, _score: f32) -> Excerpt {
    Excerpt {
        title: title.to_string(),
        content: content.to_string(),
        section: String::new(),
        start_line: 0,
        end_line: 0,
    }
}

#[test]
fn rag_message_names_notes_and_keeps_note_text_literal() {
    let message = build_rag_message(&vec![result("Lore/Dragons.md", "They hate {question} marks.", 0.9)], "why do dragons hoard?");

    assert!(message.contains("<excerpt note=\"Lore › Dragons\">\nThey hate {question} marks.\n</excerpt>"));
    assert!(message.contains("<question>\nwhy do dragons hoard?\n</question>"));
}

#[test]
fn rag_message_cites_section_and_lines_when_known() {
    let mut hit = result("Novel/Ch 3.md", "She ran.", 0.9);
    hit.section = "Part 1 › Scene 2".to_string();
    hit.start_line = 12;
    hit.end_line = 18;
    let message = build_rag_message(&vec![hit], "what happens?");

    assert!(message.contains(
        "<excerpt note=\"Novel › Ch 3\" section=\"Part 1 › Scene 2\" lines=\"12-18\">\nShe ran.\n</excerpt>"
    ));
}

#[test]
fn rag_message_says_when_nothing_matched() {
    let message = build_rag_message(&vec![], "anything about whales?");
    assert!(message.contains("No passages in the user's notes matched"));
}

#[test]
fn rag_excerpts_are_separated_and_quotes_in_sections_softened() {
    let mut a = result("A.md", "  first  ", 0.9);
    a.section = "Say \"hi\"".to_string();
    let b = result("B.md", "second", 0.8);
    let message = build_rag_message(&vec![a, b], "q");
    assert!(message.contains(
        "<excerpt note=\"A\" section=\"Say 'hi'\">\nfirst\n</excerpt>\n\n<excerpt note=\"B\">\nsecond\n</excerpt>"
    ));
}
