use memoire::prompts::{CORRECT_GRAMMAR_PROMPT, EDIT_ACTION_BASE_PROMPT, INSERTION_GUARDRAILS, MAKE_FORMAL_PROMPT};
use memoire::utils::{ChatTurn, EditAction};
use memoire::workers::{
    chat_model_id, edit_action_prompt, route_classified, route_message, trim_lines, user_message, Excerpt,
    Intent, Route, RouteStep, DEFAULT_LLM_MODEL_ID,
};

fn decided(step: RouteStep) -> Route {
    match step {
        RouteStep::Decided(route) => route,
        RouteStep::Classify(_) => panic!("expected a decided route"),
    }
}

#[test]
fn search_command_skips_the_classifier() {
    let r = decided(route_message("  /search dragon lore ", Some("Novel/One.md"), true, &[]));
    assert_eq!(r.intent, Intent::SearchNotes);
    assert!(!r.all_notes);
    assert_eq!(r.query, "dragon lore");
    assert_eq!(r.question, "dragon lore");
}

#[test]
fn search_all_command_covers_every_note() {
    let r = decided(route_message("/search-all dragons", None, true, &[]));
    assert_eq!(r.intent, Intent::SearchNotes);
    assert!(r.all_notes);
    assert_eq!(r.query, "dragons");
}

#[test]
fn doc_command_without_a_document_becomes_chat() {
    let r = decided(route_message("/doc summarize", None, true, &[]));
    assert_eq!(r.intent, Intent::General);
    assert_eq!(r.query, "");
    assert_eq!(r.question, "summarize");
}

#[test]
fn search_command_without_an_index_asks_the_document() {
    let r = decided(route_message("/search x", Some("A.md"), false, &[]));
    assert_eq!(r.intent, Intent::CurrentDocument);
    assert_eq!(r.query, "");
}

#[test]
fn small_talk_is_answered_as_chat() {
    let r = decided(route_message("Thanks!", Some("A.md"), true, &[]));
    assert_eq!(r.intent, Intent::General);
    assert_eq!(r.question, "Thanks!");
}

#[test]
fn nothing_to_search_is_answered_as_chat() {
    let r = decided(route_message(" Who is Mara? ", None, false, &[]));
    assert_eq!(r.intent, Intent::General);
    assert_eq!(r.question, "Who is Mara?");
}

#[test]
fn other_messages_go_to_the_classifier() {
    let history = vec![ChatTurn { role: "user".into(), content: "hello there".into() }];
    match route_message(" Who is Mara? ", Some("Novel/One.md"), true, &history) {
        RouteStep::Classify(input) => {
            assert!(input.starts_with("Open document: "));
            assert!(input.ends_with("\nLatest message: Who is Mara?"));
            assert!(input.contains("User: hello there"));
        }
        RouteStep::Decided(_) => panic!("expected the classifier"),
    }
}

#[test]
fn classifier_answer_becomes_the_route() {
    let r = route_classified(
        Some(("search_notes".into(), "  Mara backstory ".into())),
        " Who is Mara? ",
        true,
        true,
    );
    assert_eq!(r.intent, Intent::SearchNotes);
    assert_eq!(r.query, "Mara backstory");
    assert_eq!(r.question, "Who is Mara?");
}

#[test]
fn failed_classification_falls_back_to_chat() {
    let r = route_classified(None, "Who is Mara?", true, true);
    assert_eq!(r.intent, Intent::General);
    assert_eq!(r.query, "");
}

#[test]
fn general_route_hands_over_the_question() {
    let route = Route { intent: Intent::General, all_notes: false, query: String::new(), question: "hi".into() };
    assert_eq!(user_message(&route, &None, &Vec::<Excerpt>::new()), "hi");
}

#[test]
fn document_route_without_a_document_hands_over_the_question() {
    let route =
        Route { intent: Intent::CurrentDocument, all_notes: false, query: String::new(), question: "q".into() };
    assert_eq!(user_message(&route, &None, &Vec::<Excerpt>::new()), "q");
    let with_doc = user_message(&route, &Some(("Story.md".into(), "Body text".into())), &Vec::<Excerpt>::new());
    assert!(with_doc.contains("Body text"));
}

#[test]
fn search_route_says_when_nothing_matched() {
    let route = Route { intent: Intent::SearchNotes, all_notes: false, query: "q".into(), question: "q".into() };
    let m = user_message(&route, &None, &Vec::<Excerpt>::new());
    assert!(m.contains("(No passages in the user's notes matched this question.)"));
}

#[test]
fn lines_are_trimmed_and_rejoined() {
    assert_eq!(trim_lines("  a \r\n\tb\n\n c"), "a\nb\n\nc");
    assert_eq!(trim_lines("x\n"), "x");
    assert_eq!(trim_lines(""), "");
}

#[test]
fn edit_prompt_defaults_to_grammar() {
    let expected = format!("{}\n{}\n{}", EDIT_ACTION_BASE_PROMPT, CORRECT_GRAMMAR_PROMPT, "  my text ")
        .lines()
        .map(str::trim)
        .collect::<Vec<_>>()
        .join("\n");
    assert_eq!(edit_action_prompt(None, "  my text "), expected);
    let formal = format!("{}\n{}\n{}", EDIT_ACTION_BASE_PROMPT, MAKE_FORMAL_PROMPT, "t")
        .lines()
        .map(str::trim)
        .collect::<Vec<_>>()
        .join("\n");
    assert_eq!(edit_action_prompt(Some(EditAction::MakeFormal), "t"), formal);
}

#[test]
fn prompt_expansion_uses_the_guardrails() {
    let expected = format!("{}\n {}\n", INSERTION_GUARDRAILS, "idea")
        .lines()
        .map(str::trim)
        .collect::<Vec<_>>()
        .join("\n");
    assert_eq!(edit_action_prompt(Some(EditAction::PromptExpansion), "idea"), expected);
    assert!(expected.ends_with("\nidea"));
}

#[test]
fn model_id_defaults_when_unset() {
    assert_eq!(chat_model_id(None), DEFAULT_LLM_MODEL_ID);
    assert_eq!(chat_model_id(Some("llama".into())), "llama");
}
