//! How a chat message is answered: routing between a notes search, the open
//! document and plain chat, and the text each route hands the model.

use vstd::prelude::*;
use crate::memory::{pretty, pretty_title};
use crate::prompts::{
    DOCUMENT_CHAT_PROMPT, EDIT_ACTION_BASE_PROMPT, INSERTION_GUARDRAILS, NORMAL_CHAT_PROMPT, RAG_CHAT_PROMPT,
};
use crate::text::{
    chars_of, has_prefix, is_blank, is_whitespace, is_ws, join, lemma_join_push, push_str,
    replace, replace_all, same_text, starts_with, string_of, trim, trim_range, trimmed,
    truncate_spec, find_char, first_of, alphanumeric, is_alphanumeric, lowercase, to_lowercase,
    decimal, push_decimal,
};
use crate::utils::{ChatTurn, EditAction};

verus! {

/// Prior messages carried into each reply, and how much of each.
pub const HISTORY_TURNS: usize = 6;
pub const HISTORY_TURN_CHARS: usize = 1200;
/// The router only needs enough conversation to resolve "it"/"she"/"that one".
pub const CLASSIFIER_HISTORY_TURNS: usize = 4;
pub const CLASSIFIER_TURN_CHARS: usize = 300;
/// Keeps a long open document from blowing past small local models' context windows.
pub const MAX_DOCUMENT_CHARS: usize = 16000;

/// What a message asks for.
#[derive(Debug, Clone, Copy, PartialEq, Eq, Structural)]
pub enum Intent {
    SearchNotes,
    CurrentDocument,
    General,
}

impl Intent {
    pub open spec fn name(self) -> Seq<char> {
        match self {
            Intent::SearchNotes => "search_notes"@,
            Intent::CurrentDocument => "current_document"@,
            Intent::General => "general"@,
        }
    }

    pub fn as_str(self) -> (s: &'static str)
        ensures
            s@ == self.name(),
    {
        match self {
            Intent::SearchNotes => "search_notes",
            Intent::CurrentDocument => "current_document",
            Intent::General => "general",
        }
    }

    /// The intent a classifier label names; anything unknown is plain chat.
    pub open spec fn parsed(value: Seq<char>) -> Intent {
        if trim(value) == "search_notes"@ {
            Intent::SearchNotes
        } else if trim(value) == "current_document"@ {
            Intent::CurrentDocument
        } else {
            Intent::General
        }
    }

    pub fn parse(value: &str) -> (r: Intent)
        ensures
            r == Intent::parsed(value@),
    {
        let t = trimmed(value);
        if same_text(t.as_str(), "search_notes") {
            Intent::SearchNotes
        } else if same_text(t.as_str(), "current_document") {
            Intent::CurrentDocument
        } else {
            Intent::General
        }
    }
}

/// How a message will be answered.
pub struct Route {
    pub intent: Intent,
    /// Search every note even when a binder's note is open (`/search-all`).
    pub all_notes: bool,
    /// Standalone phrase to embed for a notes search; empty for other intents.
    pub query: String,
    /// The user's message with any `/search`-style command stripped.
    pub question: String,
}

/// The intent that the context can support: no document-question without an
/// open document, no notes search without an index.
pub open spec fn settled_intent(intent: Intent, has_document: bool, has_index: bool) -> Intent {
    match intent {
        Intent::CurrentDocument => if has_document { intent } else { Intent::General },
        Intent::SearchNotes => if has_index {
            intent
        } else if has_document {
            Intent::CurrentDocument
        } else {
            Intent::General
        },
        Intent::General => intent,
    }
}

/// What a route embeds: for a notes search the trimmed query, or the question
/// itself when the query is blank; nothing for other intents.
pub open spec fn route_query(intent: Intent, query: Seq<char>, question: Seq<char>) -> Seq<char> {
    if intent == Intent::SearchNotes {
        if trim(query).len() == 0 { question } else { trim(query) }
    } else {
        Seq::empty()
    }
}

/// Corrects routes the context can't support (no document open, nothing indexed) and
/// makes sure a notes search always has something to embed.
pub fn finalize_route(
    intent: Intent,
    query: String,
    question: String,
    has_document: bool,
    has_index: bool,
) -> (r: Route)
    ensures
        r.intent == settled_intent(intent, has_document, has_index),
        !r.all_notes,
        r.query@ == route_query(r.intent, query@, question@),
        r.question@ == question@,
{
    let intent = match intent {
        Intent::CurrentDocument => if has_document { intent } else { Intent::General },
        Intent::SearchNotes => if has_index {
            intent
        } else if has_document {
            Intent::CurrentDocument
        } else {
            Intent::General
        },
        Intent::General => intent,
    };
    let query = if intent == Intent::SearchNotes {
        if is_blank(query.as_str()) {
            question.clone()
        } else {
            trimmed(query.as_str())
        }
    } else {
        String::new()
    };
    Route { intent, all_notes: false, query, question }
}

/// The binder of a note: the part of its title before the first `/`, when that
/// part is not empty.
pub open spec fn binder(title: Seq<char>) -> Option<Seq<char>> {
    let k = first_of(title, '/');
    if 0 < k < title.len() {
        Some(title.take(k))
    } else {
        None
    }
}

/// The binder (top-level folder) a note lives in, or `None` for a note at the top level.
pub fn binder_of(title: &str) -> (r: Option<String>)
    ensures
        match (r, binder(title@)) {
            (Some(b), Some(s)) => b@ == s,
            (None, None) => true,
            _ => false,
        },
{
    let v = chars_of(title);
    let k = find_char(&v, 0, '/');
    assert(v@.skip(0) =~= v@);
    if 0 < k && k < v.len() {
        let b = string_of(&v, 0, k);
        assert(v@.subrange(0, k as int) =~= v@.take(k as int));
        Some(b)
    } else {
        None
    }
}

/// What follows `cmd` in `m`, trimmed, when `m` starts with `cmd`, then
/// whitespace, then something to act on.
pub open spec fn command_rest(m: Seq<char>, cmd: Seq<char>) -> Option<Seq<char>> {
    if starts_with(m, cmd) && m.len() > cmd.len() && is_ws(m[cmd.len() as int]) && trim(
        m.skip(cmd.len() as int),
    ).len() > 0 {
        Some(trim(m.skip(cmd.len() as int)))
    } else {
        None
    }
}

/// Returns the text after `command` when the message starts with it followed by
/// whitespace and something to act on, e.g. `/search dragon lore` -> `dragon lore`.
pub fn strip_command(message: &str, command: &str) -> (r: Option<String>)
    ensures
        match (r, command_rest(message@, command@)) {
            (Some(a), Some(b)) => a@ == b,
            (None, None) => true,
            _ => false,
        },
{
    let v = chars_of(message);
    let c = chars_of(command);
    if !has_prefix(&v, &c) {
        return None;
    }
    if v.len() == c.len() {
        return None;
    }
    if !is_whitespace(v[c.len()]) {
        return None;
    }
    let (lo, hi) = trim_range(&v, c.len(), v.len());
    assert(v@.subrange(c@.len() as int, v@.len() as int) =~= v@.skip(c@.len() as int));
    if lo == hi {
        None
    } else {
        Some(string_of(&v, lo, hi))
    }
}

/// The letters, digits and whitespace of `s`, in order.
pub open spec fn word_chars(s: Seq<char>) -> Seq<char>
    decreases s.len(),
{
    if s.len() == 0 {
        s
    } else if alphanumeric(s.last()) || is_ws(s.last()) {
        word_chars(s.drop_last()).push(s.last())
    } else {
        word_chars(s.drop_last())
    }
}

/// `message` without punctuation and symbols.
pub fn keep_word_chars(message: &str) -> (r: String)
    ensures
        r@ == word_chars(message@),
{
    let v = chars_of(message);
    let mut out = String::new();
    let mut i: usize = 0;
    while i < v.len()
        invariant
            i <= v.len(),
            out@ == word_chars(v@.take(i as int)),
        decreases v.len() - i,
    {
        assert(v@.take(i + 1).drop_last() =~= v@.take(i as int));
        if is_alphanumeric(v[i]) || is_whitespace(v[i]) {
            out.push(v[i]);
        }
        i += 1;
    }
    assert(v@.take(v@.len() as int) =~= v@);
    out
}

/// The greetings and acknowledgements answered without looking anything up.
pub open spec fn is_greeting_text(s: Seq<char>) -> bool {
    ||| s == "hi"@
    ||| s == "hello"@
    ||| s == "hey"@
    ||| s == "yo"@
    ||| s == "thanks"@
    ||| s == "thank you"@
    ||| s == "thx"@
    ||| s == "ok"@
    ||| s == "okay"@
    ||| s == "cool"@
    ||| s == "nice"@
    ||| s == "great"@
    ||| s == "good morning"@
    ||| s == "good evening"@
    ||| s == "good night"@
    ||| s == "bye"@
}

/// Whether an already normalised message is one of the small-talk phrases.
pub fn is_greeting(normalized: &str) -> (r: bool)
    ensures
        r == is_greeting_text(normalized@),
{
    same_text(normalized, "hi") || same_text(normalized, "hello") || same_text(normalized, "hey")
        || same_text(normalized, "yo") || same_text(normalized, "thanks") || same_text(
        normalized,
        "thank you",
    ) || same_text(normalized, "thx") || same_text(normalized, "ok") || same_text(
        normalized,
        "okay",
    ) || same_text(normalized, "cool") || same_text(normalized, "nice") || same_text(
        normalized,
        "great",
    ) || same_text(normalized, "good morning") || same_text(normalized, "good evening")
        || same_text(normalized, "good night") || same_text(normalized, "bye")
}

/// Whether a message is a whole greeting or thanks, ignoring punctuation, case and
/// surrounding whitespace.
pub fn is_small_talk(message: &str) -> (r: bool)
    ensures
        r == is_greeting_text(lowercase(trim(word_chars(message@)))),
{
    let kept = keep_word_chars(message);
    let t = trimmed(kept.as_str());
    let lower = to_lowercase(t.as_str());
    is_greeting(lower.as_str())
}

/// How a speaker is named in a transcript.
pub open spec fn role_name(role: Seq<char>) -> Seq<char> {
    if role == "assistant"@ { "Assistant"@ } else { "User"@ }
}

pub fn role_label(role: &str) -> (r: &'static str)
    ensures
        r@ == role_name(role@),
{
    if same_text(role, "assistant") {
        "Assistant"
    } else {
        "User"
    }
}

/// `text` cut to its first `max_chars` characters, with an ellipsis when cut.
pub fn truncate_chars(text: &str, max_chars: usize) -> (r: String)
    ensures
        r@ == truncate_spec(text@, max_chars as nat),
{
    let v = chars_of(text);
    if v.len() > max_chars {
        let mut s = string_of(&v, 0, max_chars);
        s.push('\u{2026}');
        assert(v@.subrange(0, max_chars as int) =~= v@.take(max_chars as int));
        s
    } else {
        text.to_owned()
    }
}

/// The last `n` of `h`, or all of it when shorter.
pub open spec fn last_turns(h: Seq<ChatTurn>, n: nat) -> Seq<ChatTurn> {
    if h.len() > n { h.skip(h.len() - n) } else { h }
}

/// One line of the conversation the router sees.
pub open spec fn classifier_line(t: ChatTurn) -> Seq<char> {
    role_name(t.role@) + ": "@ + truncate_spec(t.content@, CLASSIFIER_TURN_CHARS as nat)
}

/// How the open document is named to the router.
pub open spec fn document_label(title: Option<Seq<char>>) -> Seq<char> {
    match title {
        Some(t) => "\""@ + pretty(t) + "\""@,
        None => "none"@,
    }
}

/// The recent conversation as the router sees it.
pub open spec fn conversation_text(h: Seq<ChatTurn>) -> Seq<char> {
    if h.len() == 0 {
        "none"@
    } else {
        join(
            last_turns(h, CLASSIFIER_HISTORY_TURNS as nat).map_values(|t: ChatTurn| classifier_line(t)),
            "\n"@,
        )
    }
}

/// The router's input for a message.
pub open spec fn classifier_text(
    message: Seq<char>,
    title: Option<Seq<char>>,
    h: Seq<ChatTurn>,
) -> Seq<char> {
    "Open document: "@ + document_label(title) + "\nRecent conversation:\n"@ + conversation_text(h)
        + "\nLatest message: "@ + message
}

/// The characters of an optional string.
pub open spec fn opt_view(o: Option<&str>) -> Option<Seq<char>> {
    match o {
        Some(s) => Some(s@),
        None => None,
    }
}

/// Appends the lines of `turns[from..]`, each `Role: content` with the content
/// capped at `cap` characters when `cap` is given, joined by `sep`.
fn push_turn_lines(out: &mut String, turns: &[ChatTurn], from: usize, cap: Option<usize>, sep: &str)
    requires
        from < turns@.len(),
    ensures
        final(out)@ == old(out)@ + join(
            turns@.skip(from as int).map_values(|t: ChatTurn| turn_line(t, cap)),
            sep@,
        ),
{
    let ghost start = out@;
    let ghost ts = turns@.skip(from as int);
    let ghost f = |t: ChatTurn| turn_line(t, cap);
    let mut j: usize = from;
    while j < turns.len()
        invariant
            from <= j <= turns@.len(),
            ts == turns@.skip(from as int),
            f == (|t: ChatTurn| turn_line(t, cap)),
            out@ == start + join(ts.take(j - from).map_values(f), sep@),
        decreases turns.len() - j,
    {
        let ghost before = ts.take(j - from).map_values(f);
        proof {
            assert(ts.take(j - from + 1).map_values(f) =~= before.push(f(turns@[j as int])));
            lemma_join_push(before, f(turns@[j as int]), sep@);
        }
        if j > from {
            push_str(out, sep);
        }
        let t = &turns[j];
        push_str(out, role_label(t.role.as_str()));
        push_str(out, ": ");
        match cap {
            Some(n) => {
                let c = truncate_chars(t.content.as_str(), n);
                push_str(out, c.as_str());
            },
            None => {
                push_str(out, t.content.as_str());
            },
        }
        assert(out@ =~= start + join(ts.take(j - from + 1).map_values(f), sep@));
        j += 1;
    }
    assert(ts.take(turns@.len() - from) =~= ts);
}

/// `Role: content`, the content capped at `cap` characters when `cap` is given.
pub open spec fn turn_line(t: ChatTurn, cap: Option<usize>) -> Seq<char> {
    role_name(t.role@) + ": "@ + match cap {
        Some(n) => truncate_spec(t.content@, n as nat),
        None => t.content@,
    }
}

/// The exact input format the router sees.
pub fn classifier_input(message: &str, document_title: Option<&str>, history: &[ChatTurn]) -> (r: String)
    ensures
        r@ == classifier_text(message@, opt_view(document_title), history@),
{
    let mut out = String::new();
    push_str(&mut out, "Open document: ");
    match document_title {
        Some(title) => {
            push_str(&mut out, "\"");
            let p = pretty_title(title);
            push_str(&mut out, p.as_str());
            push_str(&mut out, "\"");
        },
        None => {
            push_str(&mut out, "none");
        },
    }
    push_str(&mut out, "\nRecent conversation:\n");
    if history.len() == 0 {
        push_str(&mut out, "none");
    } else {
        let start = if history.len() > CLASSIFIER_HISTORY_TURNS {
            history.len() - CLASSIFIER_HISTORY_TURNS
        } else {
            0
        };
        let ghost before = out@;
        push_turn_lines(&mut out, history, start, Some(CLASSIFIER_TURN_CHARS), "\n");
        proof {
            let last = last_turns(history@, CLASSIFIER_HISTORY_TURNS as nat);
            assert(last =~= history@.skip(start as int));
            assert(last.map_values(|t: ChatTurn| classifier_line(t)) =~= history@.skip(
                start as int,
            ).map_values(|t: ChatTurn| turn_line(t, Some(CLASSIFIER_TURN_CHARS))));
        }
    }
    push_str(&mut out, "\nLatest message: ");
    push_str(&mut out, message);
    assert(out@ =~= classifier_text(message@, opt_view(document_title), history@));
    out
}

/// A user or assistant turn that says something.
pub open spec fn is_real_turn(t: ChatTurn) -> bool {
    (t.role@ == "user"@ || t.role@ == "assistant"@) && trim(t.content@).len() > 0
}

/// The real turns of `h`, in order.
pub open spec fn real_turns(h: Seq<ChatTurn>) -> Seq<ChatTurn>
    decreases h.len(),
{
    if h.len() == 0 {
        h
    } else if is_real_turn(h.last()) {
        real_turns(h.drop_last()).push(h.last())
    } else {
        real_turns(h.drop_last())
    }
}

fn is_real(t: &ChatTurn) -> (r: bool)
    ensures
        r == is_real_turn(*t),
{
    (same_text(t.role.as_str(), "user") || same_text(t.role.as_str(), "assistant")) && !is_blank(
        t.content.as_str(),
    )
}

/// Keeps only real user/assistant turns with content, the most recent few, each
/// trimmed and capped.
pub fn recent_history(history: &[ChatTurn]) -> (r: Vec<ChatTurn>)
    ensures
        r@.len() == last_turns(real_turns(history@), HISTORY_TURNS as nat).len(),
        forall|i: int|
            0 <= i < r@.len() ==> {
                let k = last_turns(real_turns(history@), HISTORY_TURNS as nat)[i];
                &&& (#[trigger] r@[i]).role@ == k.role@
                &&& r@[i].content@ == truncate_spec(trim(k.content@), HISTORY_TURN_CHARS as nat)
            },
{
    let mut idx: Vec<usize> = Vec::new();
    let mut i: usize = 0;
    while i < history.len()
        invariant
            i <= history@.len(),
            idx@.len() == real_turns(history@.take(i as int)).len(),
            forall|j: int|
                0 <= j < idx@.len() ==> #[trigger] idx@[j] < i && history@[idx@[j] as int]
                    == real_turns(history@.take(i as int))[j],
        decreases history.len() - i,
    {
        assert(history@.take(i + 1).drop_last() =~= history@.take(i as int));
        if is_real(&history[i]) {
            idx.push(i);
        }
        i += 1;
    }
    assert(history@.take(history@.len() as int) =~= history@);
    let ghost k = real_turns(history@);
    let start = if idx.len() > HISTORY_TURNS { idx.len() - HISTORY_TURNS } else { 0 };
    let ghost last = last_turns(k, HISTORY_TURNS as nat);
    assert(last =~= k.skip(start as int));
    let mut r: Vec<ChatTurn> = Vec::new();
    let mut j: usize = start;
    while j < idx.len()
        invariant
            start <= j <= idx@.len(),
            idx@.len() == k.len(),
            last == k.skip(start as int),
            forall|m: int|
                0 <= m < idx@.len() ==> #[trigger] idx@[m] < history@.len() && history@[idx@[m] as int]
                    == k[m],
            r@.len() == j - start,
            forall|m: int|
                0 <= m < r@.len() ==> {
                    &&& (#[trigger] r@[m]).role@ == last[m].role@
                    &&& r@[m].content@ == truncate_spec(trim(last[m].content@), HISTORY_TURN_CHARS as nat)
                },
        decreases idx.len() - j,
    {
        let t = &history[idx[j]];
        let content = trimmed(t.content.as_str());
        let turn = ChatTurn { role: t.role.clone(), content: truncate_chars(content.as_str(), HISTORY_TURN_CHARS) };
        r.push(turn);
        j += 1;
    }
    r
}

/// One line of the transcript carried into a local model's message.
pub open spec fn transcript_line(t: ChatTurn) -> Seq<char> {
    role_name(t.role@) + ": "@ + t.content@
}

/// The message a local model receives: prior turns as a transcript, then the
/// message; the message alone when there is no history.
pub open spec fn transcript_text(h: Seq<ChatTurn>, message: Seq<char>) -> Seq<char> {
    if h.len() == 0 {
        message
    } else {
        "<conversation_so_far>\n"@ + join(h.map_values(|t: ChatTurn| transcript_line(t)), "\n\n"@)
            + "\n</conversation_so_far>\n\n"@ + message
    }
}

/// Local models get a single fresh chat per reply, so prior turns ride along as a
/// transcript.
pub fn with_transcript(history: &[ChatTurn], message: &str) -> (r: String)
    ensures
        r@ == transcript_text(history@, message@),
{
    if history.len() == 0 {
        return message.to_owned();
    }
    let mut out = String::new();
    push_str(&mut out, "<conversation_so_far>\n");
    push_turn_lines(&mut out, history, 0, None, "\n\n");
    proof {
        assert(history@.skip(0) =~= history@);
        assert(history@.map_values(|t: ChatTurn| transcript_line(t)) =~= history@.skip(0).map_values(
            |t: ChatTurn| turn_line(t, None),
        ));
    }
    push_str(&mut out, "\n</conversation_so_far>\n\n");
    push_str(&mut out, message);
    assert(out@ =~= transcript_text(history@, message@));
    out
}

/// The open document as the model sees it: cut to `MAX_DOCUMENT_CHARS`
/// characters, with a note, when longer.
pub open spec fn document_body(content: Seq<char>) -> Seq<char> {
    if content.len() > MAX_DOCUMENT_CHARS {
        truncate_spec(content, MAX_DOCUMENT_CHARS as nat)
            + "\n\n[Document truncated: only the first part is shown.]"@
    } else {
        content
    }
}

/// The message for a question about the open document.
pub open spec fn document_message(title: Seq<char>, content: Seq<char>, question: Seq<char>) -> Seq<
    char,
> {
    replace_all(
        replace_all(replace_all(DOCUMENT_CHAT_PROMPT@, "{title}"@, pretty(title)), "{question}"@, question),
        "{document}"@,
        document_body(content),
    )
}

pub fn build_document_message(title: &str, content: &str, question: &str) -> (r: String)
    ensures
        r@ == document_message(title@, content@, question@),
{
    let n = chars_of(content).len();
    let document = if n > MAX_DOCUMENT_CHARS {
        let mut d = truncate_chars(content, MAX_DOCUMENT_CHARS);
        push_str(&mut d, "\n\n[Document truncated: only the first part is shown.]");
        d
    } else {
        content.to_owned()
    };
    proof {
        reveal_strlit("{title}");
        reveal_strlit("{question}");
        reveal_strlit("{document}");
    }
    let p = pretty_title(title);
    let a = replace(DOCUMENT_CHAT_PROMPT, "{title}", p.as_str());
    let b = replace(a.as_str(), "{question}", question);
    replace(b.as_str(), "{document}", document.as_str())
}

/// The system prompt for a chat: the configured one, or the default when none is
/// set or it is blank.
pub fn chat_system_prompt(configured: Option<String>) -> (r: String)
    ensures
        r@ == match configured {
            Some(p) => if trim(p@).len() == 0 { NORMAL_CHAT_PROMPT@ } else { p@ },
            None => NORMAL_CHAT_PROMPT@,
        },
{
    match configured {
        Some(p) => if is_blank(p.as_str()) { NORMAL_CHAT_PROMPT.to_owned() } else { p },
        None => NORMAL_CHAT_PROMPT.to_owned(),
    }
}

/// The open document a chat can ask about: its title (or `Untitled`) and its
/// trimmed text, when there is any text.
pub fn open_document(title: Option<String>, content: Option<String>) -> (r: Option<(String, String)>)
    ensures
        match content {
            Some(c) => if trim(c@).len() == 0 {
                r is None
            } else {
                match r {
                    Some((name, text)) => text@ == trim(c@) && name@ == match title {
                        Some(t) => t@,
                        None => "Untitled"@,
                    },
                    None => false,
                }
            },
            None => r is None,
        },
{
    match content {
        Some(c) => {
            let t = trimmed(c.as_str());
            if is_blank(c.as_str()) {
                None
            } else {
                let name = match title {
                    Some(t) => t,
                    None => "Untitled".to_owned(),
                };
                Some((name, t))
            }
        },
        None => None,
    }
}

/// The binder a chat's notes search is limited to: that of the open note, unless
/// the search was asked to cover every note.
pub fn search_binder(document_title: Option<&str>, all_notes: bool) -> (r: Option<String>)
    ensures
        all_notes ==> r is None,
        !all_notes ==> match document_title {
            Some(t) => match (r, binder(t@)) {
                (Some(b), Some(s)) => b@ == s,
                (None, None) => true,
                _ => false,
            },
            None => r is None,
        },
{
    if all_notes {
        return None;
    }
    match document_title {
        Some(t) => binder_of(t),
        None => None,
    }
}

/// Represents the status of a job in the chat service: queued, running,
/// completed with a result, failed with an error, or cancelled.
#[derive(Clone, Debug)]
pub enum JobStatus {
    Queued,
    Running,
    Completed(String),
    Failed(String),
    Cancelled,
}

/// Events emitted during the chat processing lifecycle.
pub enum ChatEvents {
    Init,
    InProgress,
    Completed,
    AutoComplete,
    GrammarCheck,
    EditActionStart,
    EditActionInProgress,
    EditActionCompleted,
    /// How the router decided to answer, emitted before any search runs.
    Route,
    /// Distinct source notes for a reply that searched notes.
    Sources,
    Error,
}

impl ChatEvents {
    pub open spec fn name(&self) -> Seq<char> {
        match self {
            ChatEvents::EditActionStart => "chat-edit-action-start"@,
            ChatEvents::EditActionInProgress => "chat-edit-action-in-progress"@,
            ChatEvents::EditActionCompleted => "chat-edit-action-completed"@,
            ChatEvents::Init => "chat-init"@,
            ChatEvents::AutoComplete => "chat-autocomplete"@,
            ChatEvents::GrammarCheck => "chat-grammar-check"@,
            ChatEvents::InProgress => "chat-in-progress"@,
            ChatEvents::Completed => "chat-completed"@,
            ChatEvents::Error => "chat-error"@,
            ChatEvents::Route => "chat-route"@,
            ChatEvents::Sources => "chat-sources"@,
        }
    }

    pub fn as_str(&self) -> (s: &'static str)
        ensures
            s@ == self.name(),
    {
        match self {
            ChatEvents::EditActionStart => "chat-edit-action-start",
            ChatEvents::EditActionInProgress => "chat-edit-action-in-progress",
            ChatEvents::EditActionCompleted => "chat-edit-action-completed",
            ChatEvents::Init => "chat-init",
            ChatEvents::AutoComplete => "chat-autocomplete",
            ChatEvents::GrammarCheck => "chat-grammar-check",
            ChatEvents::InProgress => "chat-in-progress",
            ChatEvents::Completed => "chat-completed",
            ChatEvents::Error => "chat-error",
            ChatEvents::Route => "chat-route",
            ChatEvents::Sources => "chat-sources",
        }
    }
}

/// A piece of a reply as it streams in.
#[derive(Clone)]
pub struct ChatStreamInProgress<'a> {
    pub content: &'a str,
}

/// An autocompletion, as sent to the window.
#[derive(Clone)]
pub struct AutoCompleteStreamInProgress {
    pub response: crate::responses::AutoCompleteResponse,
}

/// A grammar check, as sent to the window.
#[derive(Clone)]
pub struct GrammarCheckStreamInProgress<'a> {
    pub corrections: &'a str,
    pub explanation: &'a str,
}

/// Events emitted during the model loading lifecycle.
pub enum ModelEvents {
    Downloading,
    Loading,
    Loaded,
    Error,
}

impl ModelEvents {
    pub open spec fn name(&self) -> Seq<char> {
        match self {
            ModelEvents::Downloading => "model-downloading"@,
            ModelEvents::Loading => "model-loading"@,
            ModelEvents::Loaded => "model-loaded"@,
            ModelEvents::Error => "model-error"@,
        }
    }

    pub fn as_str(&self) -> (s: &'static str)
        ensures
            s@ == self.name(),
    {
        match self {
            ModelEvents::Downloading => "model-downloading",
            ModelEvents::Loading => "model-loading",
            ModelEvents::Loaded => "model-loaded",
            ModelEvents::Error => "model-error",
        }
    }
}

/// What a retrieved passage brings to the chat: its note, the headings it
/// sits under, the lines it covers (0 when unknown) and its text.
#[derive(Debug, Clone)]
pub struct Excerpt {
    pub title: String,
    pub content: String,
    pub section: String,
    pub start_line: usize,
    pub end_line: usize,
}

/// The attributes of an excerpt tag: the note's readable title, then the
/// section (quotes turned into apostrophes) and lines where known.
pub open spec fn excerpt_attrs(e: Excerpt) -> Seq<char> {
    "note=\""@ + pretty(e.title@) + "\""@ + (if e.section@.len() > 0 {
        " section=\""@ + replace_all(e.section@, "\""@, "'"@) + "\""@
    } else {
        Seq::empty()
    }) + (if e.start_line > 0 {
        " lines=\""@ + decimal(e.start_line as nat) + "-"@ + decimal(e.end_line as nat) + "\""@
    } else {
        Seq::empty()
    })
}

/// One excerpt as the model sees it.
pub open spec fn excerpt_text(e: Excerpt) -> Seq<char> {
    "<excerpt "@ + excerpt_attrs(e) + ">\n"@ + trim(e.content@) + "\n</excerpt>"@
}

/// The retrieved passages for the prompt, or a note that nothing matched.
pub open spec fn rag_context(results: Seq<Excerpt>) -> Seq<char> {
    if results.len() == 0 {
        "(No passages in the user's notes matched this question.)"@
    } else {
        join(results.map_values(|e: Excerpt| excerpt_text(e)), "\n\n"@)
    }
}

/// The message for a question answered from the notes: the question goes in
/// first, so note text put in afterwards can't be mistaken for a placeholder.
pub open spec fn rag_message(results: Seq<Excerpt>, question: Seq<char>) -> Seq<char> {
    replace_all(replace_all(RAG_CHAT_PROMPT@, "{question}"@, question), "{context}"@, rag_context(results))
}

fn push_excerpt(out: &mut String, e: &Excerpt)
    ensures
        final(out)@ == old(out)@ + excerpt_text(*e),
{
    let ghost start = out@;
    push_str(out, "<excerpt note=\"");
    let t = pretty_title(e.title.as_str());
    push_str(out, t.as_str());
    push_str(out, "\"");
    if !e.section.as_str().is_empty() {
        proof {
            reveal_strlit("\"");
        }
        push_str(out, " section=\"");
        let sec = replace(e.section.as_str(), "\"", "'");
        push_str(out, sec.as_str());
        push_str(out, "\"");
    }
    if e.start_line > 0 {
        push_str(out, " lines=\"");
        push_decimal(out, e.start_line as u64);
        push_str(out, "-");
        push_decimal(out, e.end_line as u64);
        push_str(out, "\"");
    }
    push_str(out, ">\n");
    let body = trimmed(e.content.as_str());
    push_str(out, body.as_str());
    push_str(out, "\n</excerpt>");
    proof {
        reveal_strlit("<excerpt note=\"");
        reveal_strlit("<excerpt ");
        reveal_strlit("note=\"");
    }
    assert("<excerpt note=\""@ =~= "<excerpt "@ + "note=\""@);
    assert(out@ =~= start + excerpt_text(*e));
}

pub fn build_rag_message(results: &Vec<Excerpt>, question: &str) -> (r: String)
    ensures
        r@ == rag_message(results@, question@),
{
    let mut context = String::new();
    if results.len() == 0 {
        push_str(&mut context, "(No passages in the user's notes matched this question.)");
    } else {
        let ghost parts = results@.map_values(|e: Excerpt| excerpt_text(e));
        let mut i: usize = 0;
        assert(parts.take(0) =~= Seq::<Seq<char>>::empty());
        while i < results.len()
            invariant
                i <= results@.len(),
                parts == results@.map_values(|e: Excerpt| excerpt_text(e)),
                context@ == join(parts.take(i as int), "\n\n"@),
            decreases results.len() - i,
        {
            proof {
                lemma_join_push(parts.take(i as int), parts[i as int], "\n\n"@);
            }
            assert(parts.take(i + 1) =~= parts.take(i as int).push(parts[i as int]));
            if i > 0 {
                push_str(&mut context, "\n\n");
            }
            push_excerpt(&mut context, &results[i]);
            i += 1;
        }
        assert(parts.take(i as int) =~= parts);
    }
    proof {
        reveal_strlit("{question}");
        reveal_strlit("{context}");
    }
    let a = replace(RAG_CHAT_PROMPT, "{question}", question);
    replace(a.as_str(), "{context}", context.as_str())
}


/// Whether a message is plain small talk.
pub open spec fn small_talk(m: Seq<char>) -> bool {
    is_greeting_text(lowercase(trim(word_chars(m))))
}

/// The route an explicit command asks for: its intent, whether it covers every
/// note, and the text after it. `/search`, `/search-all`, `/doc` and `/chat`
/// are tried in that order.
pub open spec fn command_route(m: Seq<char>) -> Option<(Intent, bool, Seq<char>)> {
    match command_rest(m, "/search"@) {
        Some(rest) => Some((Intent::SearchNotes, false, rest)),
        None => match command_rest(m, "/search-all"@) {
            Some(rest) => Some((Intent::SearchNotes, true, rest)),
            None => match command_rest(m, "/doc"@) {
                Some(rest) => Some((Intent::CurrentDocument, false, rest)),
                None => match command_rest(m, "/chat"@) {
                    Some(rest) => Some((Intent::General, false, rest)),
                    None => None,
                },
            },
        },
    }
}

/// A route as plain values: intent, every-note search, query, question.
pub open spec fn route_view(r: Route) -> (Intent, bool, Seq<char>, Seq<char>) {
    (r.intent, r.all_notes, r.query@, r.question@)
}

/// The route that `finalize_route` gives.
pub open spec fn settled_route(
    intent: Intent,
    all_notes: bool,
    query: Seq<char>,
    question: Seq<char>,
    has_document: bool,
    has_index: bool,
) -> (Intent, bool, Seq<char>, Seq<char>) {
    let i = settled_intent(intent, has_document, has_index);
    (i, all_notes, route_query(i, query, question), question)
}

/// The first step of answering a message: either a route decided without the
/// model, or the text the intent classifier must be asked about.
pub enum RouteStep {
    Decided(Route),
    Classify(String),
}

/// Decides how to answer a message. Explicit `/search`, `/doc` and `/chat` commands and
/// obvious small talk skip the model; everything else goes to the classifier,
/// whose answer `route_classified` turns into the route.
pub fn route_message(
    message: &str,
    document_title: Option<&str>,
    has_index: bool,
    history: &[ChatTurn],
) -> (r: RouteStep)
    ensures
        ({
            let m = trim(message@);
            let has_document = document_title is Some;
            match command_route(m) {
                Some((intent, all, rest)) => r matches RouteStep::Decided(route) && route_view(route)
                    == settled_route(intent, all, rest, rest, has_document, has_index),
                None => if small_talk(m) || (!has_document && !has_index) {
                    r matches RouteStep::Decided(route) && route_view(route) == settled_route(
                        Intent::General,
                        false,
                        Seq::empty(),
                        m,
                        has_document,
                        has_index,
                    )
                } else {
                    r matches RouteStep::Classify(input) && input@ == classifier_text(
                        m,
                        opt_view(document_title),
                        history@,
                    )
                },
            }
        }),
{
    proof {
        reveal_strlit("/search");
        reveal_strlit("/search-all");
        reveal_strlit("/doc");
        reveal_strlit("/chat");
    }
    let t = trimmed(message);
    let has_document = document_title.is_some();
    let m = t.as_str();
    let found = match strip_command(m, "/search") {
        Some(rest) => Some((Intent::SearchNotes, false, rest)),
        None => match strip_command(m, "/search-all") {
            Some(rest) => Some((Intent::SearchNotes, true, rest)),
            None => match strip_command(m, "/doc") {
                Some(rest) => Some((Intent::CurrentDocument, false, rest)),
                None => match strip_command(m, "/chat") {
                    Some(rest) => Some((Intent::General, false, rest)),
                    None => None,
                },
            },
        },
    };
    match found {
        Some((intent, all, rest)) => {
            let mut route = finalize_route(intent, rest.clone(), rest, has_document, has_index);
            route.all_notes = all;
            RouteStep::Decided(route)
        },
        None => {
            if is_small_talk(m) || (!has_document && !has_index) {
                RouteStep::Decided(
                    finalize_route(Intent::General, String::new(), t.clone(), has_document, has_index),
                )
            } else {
                RouteStep::Classify(classifier_input(m, document_title, history))
            }
        },
    }
}

/// The route for a message once the classifier has answered with an intent label
/// and a query, or failed (`None`): a failure is answered as plain chat.
pub fn route_classified(
    classified: Option<(String, String)>,
    message: &str,
    has_document: bool,
    has_index: bool,
) -> (r: Route)
    ensures
        route_view(r) == match classified {
            Some((label, query)) => settled_route(
                Intent::parsed(label@),
                false,
                query@,
                trim(message@),
                has_document,
                has_index,
            ),
            None => settled_route(Intent::General, false, Seq::empty(), trim(message@), has_document, has_index),
        },
{
    let t = trimmed(message);
    match classified {
        Some((label, query)) => finalize_route(Intent::parse(label.as_str()), query, t, has_document, has_index),
        None => finalize_route(Intent::General, String::new(), t, has_document, has_index),
    }
}

/// The text handed to the chat model for a routed message: the notes-search
/// prompt over the passages found, the open-document prompt, or the question
/// itself.
pub fn user_message(route: &Route, document: &Option<(String, String)>, results: &Vec<Excerpt>) -> (r: String)
    ensures
        r@ == match route.intent {
            Intent::SearchNotes => rag_message(results@, route.question@),
            Intent::CurrentDocument => match document {
                Some((title, content)) => document_message(title@, content@, route.question@),
                None => route.question@,
            },
            Intent::General => route.question@,
        },
{
    match route.intent {
        Intent::SearchNotes => build_rag_message(results, route.question.as_str()),
        Intent::CurrentDocument => match document {
            Some((title, content)) => build_document_message(
                title.as_str(),
                content.as_str(),
                route.question.as_str(),
            ),
            None => route.question.clone(),
        },
        Intent::General => route.question.clone(),
    }
}

/// The model used when none is configured.
pub const DEFAULT_LLM_MODEL_ID: &'static str = "qwen_2_5_1_5b_instruct";

/// The configured chat model, or the default one.
pub fn chat_model_id(configured: Option<String>) -> (r: String)
    ensures
        r@ == match configured {
            Some(m) => m@,
            None => DEFAULT_LLM_MODEL_ID@,
        },
{
    match configured {
        Some(m) => m,
        None => DEFAULT_LLM_MODEL_ID.to_owned(),
    }
}

/// Each line of `s` trimmed, joined again with `\n`.
pub open spec fn trimmed_lines(s: Seq<char>) -> Seq<char> {
    join(crate::export::lines_of(s).map_values(|l: Seq<char>| trim(l)), "\n"@)
}

/// `text` with every line trimmed, as `lines().map(str::trim)` joined by `\n` gives it.
pub fn trim_lines(text: &str) -> (r: String)
    ensures
        r@ == trimmed_lines(text@),
{
    proof {
        reveal_strlit("\n");
    }
    let v = chars_of(text);
    let ghost ls = crate::export::lines_of(text@);
    let ghost parts = ls.map_values(|l: Seq<char>| trim(l));
    let mut out = String::new();
    let mut pos: usize = 0;
    let mut index: usize = 0;
    assert(v@.subrange(0, v@.len() as int) =~= v@);
    assert(parts.take(0) =~= Seq::<Seq<char>>::empty());
    while pos < v.len()
        invariant
            v@ == text@,
            ls == crate::export::lines_of(text@),
            parts == ls.map_values(|l: Seq<char>| trim(l)),
            pos <= v@.len(),
            index <= pos,
            index <= ls.len(),
            ls.skip(index as int) == crate::export::lines_of(v@.subrange(pos as int, v@.len() as int)),
            out@ == join(parts.take(index as int), "\n"@),
        decreases v.len() - pos,
    {
        let (a, b) = crate::export::line_bounds(&v, pos, v.len());
        assert(ls.skip(index as int).len() > 0);
        assert(ls.skip(index as int)[0] == ls[index as int]);
        assert(ls.skip(index as int)[0] == v@.subrange(pos as int, a as int));
        assert(ls.skip(index + 1) =~= ls.skip(index as int).drop_first());
        let (lo, hi) = trim_range(&v, pos, a);
        proof {
            lemma_join_push(parts.take(index as int), parts[index as int], "\n"@);
            assert(parts.take(index + 1) =~= parts.take(index as int).push(parts[index as int]));
        }
        if index > 0 {
            push_str(&mut out, "\n");
        }
        crate::text::push_range(&mut out, &v, lo, hi);
        pos = b;
        index += 1;
    }
    proof {
        assert(v@.subrange(v@.len() as int, v@.len() as int) =~= Seq::<char>::empty());
        assert(ls.skip(index as int).len() == 0);
        assert(parts.take(index as int) =~= parts);
    }
    out
}

/// The prompt for an editing action over `message`, before its lines are trimmed.
pub open spec fn edit_prompt_raw(action: EditAction, message: Seq<char>) -> Seq<char> {
    if action == EditAction::PromptExpansion {
        INSERTION_GUARDRAILS@ + "\n "@ + message + "\n"@
    } else {
        EDIT_ACTION_BASE_PROMPT@ + "\n"@ + action.prompt() + "\n"@ + message
    }
}

/// The prompt for an editing action (grammar correction when none is named)
/// over `message`, every line trimmed.
pub fn edit_action_prompt(action: Option<EditAction>, message: &str) -> (r: String)
    ensures
        r@ == trimmed_lines(
            edit_prompt_raw(
                match action {
                    Some(a) => a,
                    None => EditAction::CorrectGrammar,
                },
                message@,
            ),
        ),
{
    let action = match action {
        Some(a) => a,
        None => EditAction::CorrectGrammar,
    };
    let mut raw = String::new();
    if action == EditAction::PromptExpansion {
        push_str(&mut raw, INSERTION_GUARDRAILS);
        push_str(&mut raw, "\n ");
        push_str(&mut raw, message);
        push_str(&mut raw, "\n");
    } else {
        push_str(&mut raw, EDIT_ACTION_BASE_PROMPT);
        push_str(&mut raw, "\n");
        push_str(&mut raw, action.into_prompt());
        push_str(&mut raw, "\n");
        push_str(&mut raw, message);
    }
    trim_lines(raw.as_str())
}

} // verus!
