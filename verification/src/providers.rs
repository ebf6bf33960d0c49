//! Which backend answers chat requests.

use vstd::prelude::*;
use crate::import::occurs_at;
use crate::text::{chars_of, has_at, starts_with, string_of, trim, trim_range, trimmed};

verus! {

/// Which backend serves chat/autocomplete/grammar requests. RAG embeddings and search
/// always stay local regardless of this setting.
#[derive(Debug, Clone, Copy, PartialEq, Eq, Structural)]
pub enum ProviderKind {
    Local,
    OpenRouter,
}

impl Default for ProviderKind {
    fn default() -> (r: Self)
        ensures
            r == ProviderKind::Local,
    {
        ProviderKind::Local
    }
}

/// Default model used until the user picks one in Settings.
pub const DEFAULT_OPENROUTER_MODEL: &'static str = "meta-llama/llama-3.1-8b-instruct:free";

#[derive(Debug, Clone)]
pub struct OpenRouterModel {
    pub id: String,
    pub name: String,
}

/// The OpenRouter model to ask: the one chosen in Settings, or the default.
pub fn openrouter_model_name(chosen: Option<String>) -> (r: String)
    ensures
        r@ == match chosen {
            Some(m) => m@,
            None => DEFAULT_OPENROUTER_MODEL@,
        },
{
    match chosen {
        Some(m) => m,
        None => DEFAULT_OPENROUTER_MODEL.to_owned(),
    }
}

/// The last place at or before `i` where `p` stands in `s`.
pub open spec fn last_occurrence(s: Seq<char>, p: Seq<char>, i: int) -> Option<int>
    decreases i + 1,
{
    if i < 0 {
        None
    } else if occurs_at(s, i, p) {
        Some(i)
    } else {
        last_occurrence(s, p, i - 1)
    }
}

/// A model's reply without a surrounding ```` ```json ```` (or plain ```` ``` ````)
/// fence: the text between the opening fence and the last closing one,
/// trimmed; the trimmed reply when there is no such fence.
pub open spec fn unfenced(text: Seq<char>) -> Seq<char> {
    let t = trim(text);
    if starts_with(t, "```"@) {
        let rest = t.skip(3);
        let body = if starts_with(rest, "json"@) { rest.skip(4) } else { rest };
        match last_occurrence(body, "```"@, body.len() - 3) {
            Some(e) => trim(body.take(e)),
            None => t,
        }
    } else {
        t
    }
}

/// Strips a ```json ... ``` (or plain ``` ... ```) fence if the model wrapped its
/// JSON reply in one, since chat models often do this despite being asked not to.
pub fn strip_code_fence(text: &str) -> (r: String)
    ensures
        r@ == unfenced(text@),
{
    proof {
        reveal_strlit("```");
        reveal_strlit("json");
    }
    let t = trimmed(text);
    let v = chars_of(t.as_str());
    let fence = chars_of("```");
    let json = chars_of("json");
    if !crate::text::has_prefix(&v, &fence) {
        return t;
    }
    let tagged = v.len() >= 3 && has_at(&v, 3, &json);
    let start: usize = if tagged { 7 } else { 3 };
    let ghost rest = v@.skip(3);
    let ghost body = v@.skip(start as int);
    proof {
        if tagged {
            assert(rest.take(4) =~= v@.subrange(3, 7));
            assert(rest.skip(4) =~= body);
        } else {
            if rest.len() >= 4 {
                assert(rest.take(4) =~= v@.subrange(3, 7));
            }
            assert(rest =~= body);
        }
    }
    if v.len() < start + 3 {
        proof {
            assert(last_occurrence(body, "```"@, body.len() - 3) is None);
        }
        return t;
    }
    let mut i = v.len() - 3;
    while i >= start
        invariant
            start <= v@.len(),
            i + 3 <= v@.len(),
            fence@ == "```"@,
            fence@.len() == 3,
            v@ == t@,
            t@ == trim(text@),
            starts_with(v@, "```"@),
            body == (if starts_with(v@.skip(3), "json"@) { v@.skip(3).skip(4) } else { v@.skip(3) }),
            body == v@.skip(start as int),
            last_occurrence(body, "```"@, body.len() - 3) == last_occurrence(body, "```"@, i - start),
        decreases i + 1,
    {
        if has_at(&v, i, &fence) {
            proof {
                assert(body.subrange(i - start, i - start + 3) =~= v@.subrange(i as int, i + 3));
            }
            let (lo, hi) = trim_range(&v, start, i);
            assert(body.take(i - start) =~= v@.subrange(start as int, i as int));
            return string_of(&v, lo, hi);
        }
        proof {
            assert(body.subrange(i - start, i - start + 3) =~= v@.subrange(i as int, i + 3));
        }
        if i == start {
            proof {
                assert(!occurs_at(body, 0, "```"@));
                assert(last_occurrence(body, "```"@, 0) == last_occurrence(body, "```"@, -1));
            }
            return t;
        }
        i -= 1;
    }
    t
}

} // verus!
