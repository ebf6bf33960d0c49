//! Note titles and query keywords for the retrieval index.

use vstd::prelude::*;
use vstd::utf8::encode_utf8;
use crate::chunker::{chunk_view, chunk_views, Chunk, ChunkView};
use crate::dropbox::{hex_encode, hex_lower, sha256, sha256_digest};
use crate::text::{
    join, alphanumeric, chars_of, ends_with, has_suffix, is_alphanumeric, lowercase, push_str,
    replace_char, same_text, string_of, to_lowercase,
};

verus! {

/// What separates folders in a readable title.
pub const SECTION_SEP: &'static str = " › ";

/// `name` without a trailing `.md`.
pub open spec fn without_md(name: Seq<char>) -> Seq<char> {
    if ends_with(name, ".md"@) {
        name.take(name.len() - ".md"@.len())
    } else {
        name
    }
}

/// The readable title of a content-relative file name: the `.md` dropped and each
/// folder separator shown as ` › `.
pub open spec fn pretty(name: Seq<char>) -> Seq<char> {
    replace_char(without_md(name), '/', SECTION_SEP@)
}

/// Turns a content-relative file name like `Novel/Chapter 3.md` into a readable
/// title (`Novel › Chapter 3`) for embedding and for citing notes to the model.
pub fn pretty_title(name: &str) -> (r: String)
    ensures
        r@ == pretty(name@),
{
    let v = chars_of(name);
    let md = chars_of(".md");
    let hi = if has_suffix(&v, &md) { v.len() - md.len() } else { v.len() };
    let ghost base = without_md(name@);
    assert(base =~= v@.subrange(0, hi as int));
    let mut out = String::new();
    let mut i: usize = 0;
    while i < hi
        invariant
            i <= hi <= v.len(),
            base == v@.subrange(0, hi as int),
            out@ == replace_char(v@.subrange(0, i as int), '/', SECTION_SEP@),
        decreases hi - i,
    {
        assert(v@.subrange(0, i + 1).drop_last() =~= v@.subrange(0, i as int));
        if v[i] == '/' {
            push_str(&mut out, SECTION_SEP);
        } else {
            out.push(v[i]);
        }
        i += 1;
    }
    out
}

/// How much of the content the index holds.
#[derive(Debug, Clone, Copy)]
pub struct IndexStats {
    pub documents: usize,
    pub passages: usize,
}


/// Most keywords taken from a query; each costs a full-text lookup.
pub const MAX_QUERY_TERMS: usize = 8;

/// Words too common to say anything about which passage is meant.
pub open spec fn is_stopword(w: Seq<char>) -> bool {
    ||| w == "a"@
    ||| w == "about"@
    ||| w == "an"@
    ||| w == "and"@
    ||| w == "are"@
    ||| w == "as"@
    ||| w == "at"@
    ||| w == "be"@
    ||| w == "but"@
    ||| w == "by"@
    ||| w == "did"@
    ||| w == "do"@
    ||| w == "does"@
    ||| w == "for"@
    ||| w == "from"@
    ||| w == "had"@
    ||| w == "has"@
    ||| w == "have"@
    ||| w == "he"@
    ||| w == "her"@
    ||| w == "his"@
    ||| w == "how"@
    ||| w == "i"@
    ||| w == "in"@
    ||| w == "is"@
    ||| w == "it"@
    ||| w == "its"@
    ||| w == "me"@
    ||| w == "my"@
    ||| w == "notes"@
    ||| w == "of"@
    ||| w == "on"@
    ||| w == "or"@
    ||| w == "our"@
    ||| w == "she"@
    ||| w == "so"@
    ||| w == "that"@
    ||| w == "the"@
    ||| w == "their"@
    ||| w == "them"@
    ||| w == "they"@
    ||| w == "this"@
    ||| w == "to"@
    ||| w == "was"@
    ||| w == "we"@
    ||| w == "were"@
    ||| w == "what"@
    ||| w == "when"@
    ||| w == "where"@
    ||| w == "which"@
    ||| w == "who"@
    ||| w == "why"@
    ||| w == "will"@
    ||| w == "with"@
    ||| w == "you"@
    ||| w == "your"@
}

fn stopword(w: &str) -> (r: bool)
    ensures
        r == is_stopword(w@),
{
    same_text(w, "a")
        || same_text(w, "about")
        || same_text(w, "an")
        || same_text(w, "and")
        || same_text(w, "are")
        || same_text(w, "as")
        || same_text(w, "at")
        || same_text(w, "be")
        || same_text(w, "but")
        || same_text(w, "by")
        || same_text(w, "did")
        || same_text(w, "do")
        || same_text(w, "does")
        || same_text(w, "for")
        || same_text(w, "from")
        || same_text(w, "had")
        || same_text(w, "has")
        || same_text(w, "have")
        || same_text(w, "he")
        || same_text(w, "her")
        || same_text(w, "his")
        || same_text(w, "how")
        || same_text(w, "i")
        || same_text(w, "in")
        || same_text(w, "is")
        || same_text(w, "it")
        || same_text(w, "its")
        || same_text(w, "me")
        || same_text(w, "my")
        || same_text(w, "notes")
        || same_text(w, "of")
        || same_text(w, "on")
        || same_text(w, "or")
        || same_text(w, "our")
        || same_text(w, "she")
        || same_text(w, "so")
        || same_text(w, "that")
        || same_text(w, "the")
        || same_text(w, "their")
        || same_text(w, "them")
        || same_text(w, "they")
        || same_text(w, "this")
        || same_text(w, "to")
        || same_text(w, "was")
        || same_text(w, "we")
        || same_text(w, "were")
        || same_text(w, "what")
        || same_text(w, "when")
        || same_text(w, "where")
        || same_text(w, "which")
        || same_text(w, "who")
        || same_text(w, "why")
        || same_text(w, "will")
        || same_text(w, "with")
        || same_text(w, "you")
        || same_text(w, "your")
}

/// Length of the run of alphanumeric characters `s` starts with.
pub open spec fn word_len(s: Seq<char>) -> int
    decreases s.len(),
{
    if s.len() > 0 && alphanumeric(s[0]) { 1 + word_len(s.drop_first()) } else { 0 }
}

proof fn lemma_word_len(s: Seq<char>, i: int)
    requires
        0 <= i <= s.len(),
        forall|j: int| 0 <= j < i ==> alphanumeric(s[j]),
        i == s.len() || !alphanumeric(s[i]),
    ensures
        word_len(s) == i,
    decreases i,
{
    if i > 0 {
        assert forall|j: int| 0 <= j < i - 1 implies alphanumeric(s.drop_first()[j]) by {
            assert(s.drop_first()[j] == s[j + 1]);
        }
        lemma_word_len(s.drop_first(), i - 1);
    }
}

/// `s` split at every non-alphanumeric character, as
/// `str::split(|c| !c.is_alphanumeric())` gives it (empty pieces included).
pub open spec fn words(s: Seq<char>) -> Seq<Seq<char>>
    decreases s.len(),
{
    let k = word_len(s);
    if 0 <= k < s.len() {
        seq![s.take(k)] + words(s.skip(k + 1))
    } else {
        seq![s]
    }
}

/// The terms picked from `ws` after those in `acc`: each word lower-cased, kept
/// when longer than one character, not a stopword and not already picked, up
/// to `MAX_QUERY_TERMS`.
pub open spec fn pick_terms(ws: Seq<Seq<char>>, acc: Seq<Seq<char>>) -> Seq<Seq<char>>
    decreases ws.len(),
{
    if ws.len() == 0 || acc.len() >= MAX_QUERY_TERMS {
        acc
    } else {
        let w = lowercase(ws[0]);
        let next = if w.len() > 1 && !is_stopword(w) && !acc.contains(w) { acc.push(w) } else { acc };
        pick_terms(ws.drop_first(), next)
    }
}

/// The keywords of a query.
pub open spec fn query_terms(q: Seq<char>) -> Seq<Seq<char>> {
    pick_terms(words(q), Seq::empty())
}

pub open spec fn texts(v: Seq<String>) -> Seq<Seq<char>> {
    v.map_values(|s: String| s@)
}

fn contains_text(v: &Vec<String>, w: &str) -> (r: bool)
    ensures
        r == texts(v@).contains(w@),
{
    let mut i: usize = 0;
    while i < v.len()
        invariant
            i <= v@.len(),
            forall|j: int| 0 <= j < i ==> v@[j]@ != w@,
        decreases v.len() - i,
    {
        if same_text(v[i].as_str(), w) {
            assert(texts(v@)[i as int] == w@);
            return true;
        }
        i += 1;
    }
    proof {
        if texts(v@).contains(w@) {
            let j = choose|j: int| 0 <= j < texts(v@).len() && texts(v@)[j] == w@;
            assert(v@[j]@ == w@);
        }
    }
    false
}

/// Distinct lowercase words of `query` worth matching on, in order.
pub fn keyword_terms(query: &str) -> (r: Vec<String>)
    ensures
        texts(r@) == query_terms(query@),
{
    let v = chars_of(query);
    let mut out: Vec<String> = Vec::new();
    let mut start: usize = 0;
    let mut done = false;
    assert(v@.subrange(0, v@.len() as int) =~= v@);
    assert(texts(out@) =~= Seq::<Seq<char>>::empty());
    while !done
        invariant
            start <= v@.len(),
            v@ == query@,
            !done ==> pick_terms(words(v@.subrange(start as int, v@.len() as int)), texts(out@))
                == query_terms(query@),
            done ==> texts(out@) == query_terms(query@),
        decreases (if done { 0 } else { v@.len() + 1 - start }),
    {
        let ghost rest = v@.subrange(start as int, v@.len() as int);
        let ghost acc = texts(out@);
        if out.len() >= MAX_QUERY_TERMS {
            assert(acc.len() == out@.len());
            assert(pick_terms(words(rest), acc) == acc);
            done = true;
        } else {
            let mut e = start;
            while e < v.len() && is_alphanumeric(v[e])
                invariant
                    start <= e <= v@.len(),
                    forall|j: int| start <= j < e ==> alphanumeric(#[trigger] v@[j]),
                decreases v.len() - e,
            {
                e += 1;
            }
            proof {
                assert forall|j: int| 0 <= j < e - start implies alphanumeric(rest[j]) by {
                    assert(rest[j] == v@[start + j]);
                }
                lemma_word_len(rest, e - start);
                assert(rest.take(e - start) =~= v@.subrange(start as int, e as int));
                if e < v.len() {
                    assert(rest.skip(e - start + 1) =~= v@.subrange(e + 1, v@.len() as int));
                    assert((seq![rest.take(e - start)] + words(rest.skip(e - start + 1)))[0] == rest.take(e - start));
                    assert((seq![rest.take(e - start)] + words(rest.skip(e - start + 1))).drop_first()
                        =~= words(rest.skip(e - start + 1)));
                } else {
                    assert(rest.take(e - start) =~= rest);
                    assert(seq![rest].drop_first() =~= Seq::<Seq<char>>::empty());
                }
            }
            let word = string_of(&v, start, e);
            let lower = to_lowercase(word.as_str());
            let n = chars_of(lower.as_str()).len();
            let ghost w = lowercase(word@);
            let ghost next = if w.len() > 1 && !is_stopword(w) && !acc.contains(w) { acc.push(w) } else { acc };
            assert(acc.len() == out@.len());
            if n > 1 && !stopword(lower.as_str()) && !contains_text(&out, lower.as_str()) {
                out.push(lower);
                assert(texts(out@) =~= acc.push(lowercase(word@)));
            }
            assert(texts(out@) == next);
            assert(pick_terms(words(rest), acc) == pick_terms(words(rest).drop_first(), next));
            if e == v.len() {
                proof {
                    let ws = words(rest);
                    assert(ws.drop_first() =~= Seq::<Seq<char>>::empty());
                    assert(pick_terms(Seq::<Seq<char>>::empty(), next) == next);
                }
                done = true;
            } else {
                start = e + 1;
            }
        }
    }
    out
}

/// Bumped whenever what is embedded for a passage changes, so stored
/// passages are embedded again.
pub const EMBED_VERSION: &'static str = "v3-sections";

/// ` › heading` for each heading, in order.
pub open spec fn heading_trail(hs: Seq<Seq<char>>) -> Seq<char>
    decreases hs.len(),
{
    if hs.len() == 0 {
        Seq::empty()
    } else {
        heading_trail(hs.drop_last()) + SECTION_SEP@ + hs.last()
    }
}

/// What gets embedded for a passage: the note's title and its headings, the
/// end of the passage before it, then the passage itself.
pub open spec fn embed_text(title: Seq<char>, c: ChunkView) -> Seq<char> {
    title + heading_trail(c.headings) + "\n\n"@ + (if c.overlap.len() > 0 {
        c.overlap + " "@
    } else {
        Seq::empty()
    }) + c.text
}

/// What gets embedded for a chunk: where it sits (note and headings), the end of
/// the passage before it, then the passage itself.
pub fn embed_input(title: &str, chunk: &Chunk) -> (r: String)
    ensures
        r@ == embed_text(title@, chunk_view(*chunk)),
{
    let ghost hs = chunk.headings@.map_values(|h: String| h@);
    let mut out = String::new();
    push_str(&mut out, title);
    let mut i: usize = 0;
    assert(hs.take(0) =~= Seq::<Seq<char>>::empty());
    while i < chunk.headings.len()
        invariant
            i <= chunk.headings@.len(),
            hs == chunk.headings@.map_values(|h: String| h@),
            out@ == title@ + heading_trail(hs.take(i as int)),
        decreases chunk.headings.len() - i,
    {
        assert(hs.take(i + 1).drop_last() =~= hs.take(i as int));
        assert(hs.take(i + 1).last() == chunk.headings@[i as int]@);
        push_str(&mut out, SECTION_SEP);
        push_str(&mut out, chunk.headings[i].as_str());
        i += 1;
    }
    assert(hs.take(i as int) =~= hs);
    push_str(&mut out, "\n\n");
    if !chunk.overlap.as_str().is_empty() {
        push_str(&mut out, chunk.overlap.as_str());
        push_str(&mut out, " ");
    }
    push_str(&mut out, chunk.text.as_str());
    out
}

/// `n` in little-endian order, `k` bytes.
pub open spec fn le_bytes(n: nat, k: nat) -> Seq<u8>
    decreases k,
{
    if k == 0 {
        Seq::empty()
    } else {
        seq![(n % 256) as u8] + le_bytes(n / 256, (k - 1) as nat)
    }
}

/// The bytes of a `usize`.
pub open spec fn usize_bytes() -> nat {
    (usize::BITS / 8) as nat
}

/// One part of a passage's fingerprint: a colon, the part's UTF-8 length as
/// a little-endian `usize`, then the part.
pub open spec fn hashed_part(p: Seq<char>) -> Seq<u8> {
    encode_utf8(":"@) + le_bytes(encode_utf8(p).len(), usize_bytes()) + encode_utf8(p)
}

/// Everything hashed for a passage: the embedding version, then its
/// headings, overlap and text, each as a part.
pub open spec fn chunk_message(c: ChunkView) -> Seq<u8> {
    encode_utf8(EMBED_VERSION@) + hashed_part(join(c.headings, SECTION_SEP@)) + hashed_part(c.overlap)
        + hashed_part(c.text)
}

/// A passage's fingerprint: the SHA-256 of its message in lower-case hex.
pub open spec fn chunk_fingerprint(c: ChunkView) -> Seq<char> {
    hex_lower(sha256(chunk_message(c)))
}

fn push_bytes(out: &mut Vec<u8>, s: &str)
    ensures
        final(out)@ == old(out)@ + encode_utf8(s@),
{
    let b = s.as_bytes();
    let mut i: usize = 0;
    while i < b.len()
        invariant
            i <= b@.len(),
            b@ == encode_utf8(s@),
            out@ == old(out)@ + b@.take(i as int),
        decreases b.len() - i,
    {
        out.push(b[i]);
        assert(b@.take(i + 1) =~= b@.take(i as int).push(b@[i as int]));
        i += 1;
    }
    assert(b@.take(i as int) =~= b@);
}

fn push_le_usize(out: &mut Vec<u8>, n: usize)
    ensures
        final(out)@ == old(out)@ + le_bytes(n as nat, usize_bytes()),
{
    let count: usize = (usize::BITS / 8) as usize;
    let mut k: usize = 0;
    let mut m: usize = n;
    while k < count
        invariant
            k <= count,
            count == usize_bytes(),
            old(out)@ + le_bytes(n as nat, usize_bytes()) == out@ + le_bytes(m as nat, (count - k) as nat),
        decreases count - k,
    {
        let ghost before = out@;
        out.push((m % 256) as u8);
        assert(le_bytes(m as nat, (count - k) as nat) == seq![(m % 256) as u8] + le_bytes(
            (m / 256) as nat,
            (count - k - 1) as nat,
        ));
        assert(before + (seq![(m % 256) as u8] + le_bytes((m / 256) as nat, (count - k - 1) as nat))
            =~= out@ + le_bytes((m / 256) as nat, (count - k - 1) as nat));
        m = m / 256;
        k += 1;
    }
    assert(out@ + le_bytes(m as nat, 0) =~= out@);
}

fn push_part(out: &mut Vec<u8>, part: &str)
    ensures
        final(out)@ == old(out)@ + hashed_part(part@),
{
    let ghost before = out@;
    push_bytes(out, ":");
    let len = part.as_bytes().len();
    push_le_usize(out, len);
    push_bytes(out, part);
    assert(out@ =~= before + hashed_part(part@));
}

/// Generates a SHA256 fingerprint of everything embedded for a chunk except the
/// note's title (so renaming a note doesn't re-embed it), versioned by `EMBED_VERSION`.
pub fn chunk_hash(chunk: &Chunk) -> (r: String)
    ensures
        r@ == chunk_fingerprint(chunk_view(*chunk)),
{
    let mut message: Vec<u8> = Vec::new();
    push_bytes(&mut message, EMBED_VERSION);
    let section = crate::pdf::join_strings(&chunk.headings, SECTION_SEP);
    assert(crate::pdf::string_views(chunk.headings@) =~= chunk_view(*chunk).headings);
    push_part(&mut message, section.as_str());
    push_part(&mut message, chunk.overlap.as_str());
    push_part(&mut message, chunk.text.as_str());
    assert(message@ =~= chunk_message(chunk_view(*chunk)));
    let digest = sha256_digest(message.as_slice());
    hex_encode(digest.as_slice())
}

/// What reconciling a note's passages reads of a passage already stored.
#[derive(Debug, Clone)]
pub struct StoredChunk {
    pub content_hash: String,
    pub sequence: usize,
    pub start_line: usize,
    pub end_line: usize,
}

/// What becomes of one passage of the note as it now stands.
#[derive(Debug, Clone, Copy, PartialEq, Eq, Structural)]
pub enum ChunkAction {
    /// The same passage is stored at the same place: stored passage `0` is
    /// left alone.
    Keep(usize),
    /// The same passage is stored elsewhere (edits above it moved it): stored
    /// passage `0` gets the new position and lines, and keeps its embedding.
    Move(usize),
    /// A passage not stored yet: it is stored and marked for embedding.
    Create,
}

/// The database work reconciling a note takes: one action per passage, in
/// order, and the stored passages to delete.
#[derive(Debug, Clone)]
pub struct ReconcilePlan {
    pub actions: Vec<ChunkAction>,
    pub deleted: Vec<usize>,
}

/// The last of `old[..n]` with fingerprint `h`: the one a map keyed by
/// fingerprint keeps.
pub open spec fn last_with_hash(old: Seq<StoredChunk>, h: Seq<char>, n: int) -> Option<int>
    decreases n,
{
    if n <= 0 {
        None
    } else if old[n - 1].content_hash@ == h {
        Some(n - 1)
    } else {
        last_with_hash(old, h, n - 1)
    }
}

/// The fingerprints claimed and the actions for the first `n` passages: a
/// passage claims the stored passage with its fingerprint, unless an
/// earlier passage with the same fingerprint claimed it first.
pub open spec fn plan_run(old: Seq<StoredChunk>, segs: Seq<ChunkView>, n: int) -> (Seq<Seq<char>>, Seq<ChunkAction>)
    decreases n,
{
    if n <= 0 {
        (Seq::empty(), Seq::empty())
    } else {
        let (taken, acts) = plan_run(old, segs, n - 1);
        let i = n - 1;
        let seg = segs[i];
        let h = chunk_fingerprint(seg);
        let found = last_with_hash(old, h, old.len() as int);
        if found is Some && !taken.contains(h) {
            let j = found->0;
            let o = old[j];
            let a = if o.sequence == i && o.start_line == seg.start_line && o.end_line == seg.end_line {
                ChunkAction::Keep(j as usize)
            } else {
                ChunkAction::Move(j as usize)
            };
            (taken.push(h), acts.push(a))
        } else {
            (taken, acts.push(ChunkAction::Create))
        }
    }
}

/// The stored passages among `old[..n]` to delete: those a map keyed by
/// fingerprint keeps whose fingerprint no passage claimed.
pub open spec fn unclaimed(old: Seq<StoredChunk>, taken: Seq<Seq<char>>, n: int) -> Seq<int>
    decreases n,
{
    if n <= 0 {
        Seq::empty()
    } else {
        let h = old[n - 1].content_hash@;
        if last_with_hash(old, h, old.len() as int) == Some(n - 1) && !taken.contains(h) {
            unclaimed(old, taken, n - 1).push(n - 1)
        } else {
            unclaimed(old, taken, n - 1)
        }
    }
}

fn last_index_with_hash(old: &Vec<StoredChunk>, h: &str) -> (r: Option<usize>)
    ensures
        match r {
            Some(j) => last_with_hash(old@, h@, old@.len() as int) == Some(j as int) && j < old@.len(),
            None => last_with_hash(old@, h@, old@.len() as int) is None,
        },
{
    let mut k = old.len();
    while k > 0
        invariant
            k <= old@.len(),
            last_with_hash(old@, h@, old@.len() as int) == last_with_hash(old@, h@, k as int),
        decreases k,
    {
        if same_text(old[k - 1].content_hash.as_str(), h) {
            return Some(k - 1);
        }
        k -= 1;
    }
    None
}

fn holds_text(v: &Vec<String>, s: &str) -> (r: bool)
    ensures
        r == crate::pdf::string_views(v@).contains(s@),
{
    let ghost views = crate::pdf::string_views(v@);
    let mut i: usize = 0;
    while i < v.len()
        invariant
            i <= v@.len(),
            views == crate::pdf::string_views(v@),
            forall|k: int| 0 <= k < i ==> views[k] != s@,
        decreases v.len() - i,
    {
        if same_text(v[i].as_str(), s) {
            assert(views[i as int] == s@);
            return true;
        }
        i += 1;
    }
    false
}

/// Works out how a note's new passages map onto the stored ones: each
/// passage whose fingerprint is stored keeps that stored passage (and its
/// embedding), moved if its position or lines changed; the others are new;
/// stored passages nothing claimed are deleted.
pub fn plan_reconciliation(segments: &Vec<Chunk>, existing: &Vec<StoredChunk>) -> (r: ReconcilePlan)
    ensures
        r.actions@ == plan_run(existing@, chunk_views(segments@), segments@.len() as int).1,
        crate::chunker::ints(r.deleted@) == unclaimed(
            existing@,
            plan_run(existing@, chunk_views(segments@), segments@.len() as int).0,
            existing@.len() as int,
        ),
{
    let ghost segs = chunk_views(segments@);
    let mut taken: Vec<String> = Vec::new();
    let mut actions: Vec<ChunkAction> = Vec::new();
    let mut i: usize = 0;
    assert(crate::pdf::string_views(taken@) =~= Seq::<Seq<char>>::empty());
    assert(actions@ =~= Seq::<ChunkAction>::empty());
    while i < segments.len()
        invariant
            i <= segments@.len(),
            segs == chunk_views(segments@),
            plan_run(existing@, segs, i as int) == (crate::pdf::string_views(taken@), actions@),
        decreases segments.len() - i,
    {
        assert(segs[i as int] == chunk_view(segments@[i as int]));
        let h = chunk_hash(&segments[i]);
        let found = last_index_with_hash(existing, h.as_str());
        let claimed = holds_text(&taken, h.as_str());
        match found {
            Some(j) => {
                if !claimed {
                    let o = &existing[j];
                    let seg = &segments[i];
                    let a = if o.sequence == i && o.start_line == seg.start_line && o.end_line == seg.end_line {
                        ChunkAction::Keep(j)
                    } else {
                        ChunkAction::Move(j)
                    };
                    let ghost before = crate::pdf::string_views(taken@);
                    taken.push(h);
                    assert(crate::pdf::string_views(taken@) =~= before.push(chunk_fingerprint(segs[i as int])));
                    actions.push(a);
                } else {
                    actions.push(ChunkAction::Create);
                }
            },
            None => {
                actions.push(ChunkAction::Create);
            },
        }
        i += 1;
    }
    let ghost claimed_all = crate::pdf::string_views(taken@);
    let mut deleted: Vec<usize> = Vec::new();
    let mut k: usize = 0;
    assert(crate::chunker::ints(deleted@) =~= Seq::<int>::empty());
    while k < existing.len()
        invariant
            k <= existing@.len(),
            claimed_all == crate::pdf::string_views(taken@),
            crate::chunker::ints(deleted@) == unclaimed(existing@, claimed_all, k as int),
        decreases existing.len() - k,
    {
        let h = existing[k].content_hash.as_str();
        let last = last_index_with_hash(existing, h);
        let keeps = match last {
            Some(j) => j == k,
            None => false,
        };
        if keeps && !holds_text(&taken, h) {
            let ghost before = crate::chunker::ints(deleted@);
            deleted.push(k);
            assert(crate::chunker::ints(deleted@) =~= before.push(k as int));
        }
        k += 1;
    }
    ReconcilePlan { actions, deleted }
}

/// A list of query terms as picked: at most `MAX_QUERY_TERMS`, each longer
/// than one character and not a stopword, none twice.
pub open spec fn good_terms(ts: Seq<Seq<char>>) -> bool {
    &&& ts.len() <= MAX_QUERY_TERMS
    &&& forall|i: int| 0 <= i < ts.len() ==> #[trigger] ts[i].len() > 1 && !is_stopword(ts[i])
    &&& forall|i: int, j: int| 0 <= i < j < ts.len() ==> #[trigger] ts[i] != #[trigger] ts[j]
}

proof fn lemma_pick_terms(ws: Seq<Seq<char>>, acc: Seq<Seq<char>>)
    requires
        good_terms(acc),
    ensures
        good_terms(pick_terms(ws, acc)),
    decreases ws.len(),
{
    if ws.len() == 0 || acc.len() >= MAX_QUERY_TERMS {
    } else {
        let w = lowercase(ws[0]);
        if w.len() > 1 && !is_stopword(w) && !acc.contains(w) {
            let next = acc.push(w);
            assert forall|i: int, j: int| 0 <= i < j < next.len() implies #[trigger] next[i] != #[trigger] next[j] by {
                if j == next.len() - 1 {
                    assert(acc[i] == next[i]);
                    if next[i] == next[j] {
                        assert(acc.contains(w));
                    }
                }
            }
            lemma_pick_terms(ws.drop_first(), next);
        } else {
            lemma_pick_terms(ws.drop_first(), acc);
        }
    }
}

/// Planning claims only fingerprints of the passages planned so far, and
/// gives one action per passage.
proof fn lemma_plan_run_shape(old: Seq<StoredChunk>, segs: Seq<ChunkView>, n: int)
    requires
        0 <= n <= segs.len(),
    ensures
        plan_run(old, segs, n).1.len() == n,
        forall|t: int| 0 <= t < plan_run(old, segs, n).0.len() ==> exists|k: int|
            0 <= k < n && #[trigger] plan_run(old, segs, n).0[t] == chunk_fingerprint(segs[k]),
    decreases n,
{
    if n > 0 {
        lemma_plan_run_shape(old, segs, n - 1);
        let taken = plan_run(old, segs, n - 1).0;
        assert forall|t: int| 0 <= t < plan_run(old, segs, n).0.len() implies exists|k: int|
            0 <= k < n && #[trigger] plan_run(old, segs, n).0[t] == chunk_fingerprint(segs[k]) by {
            if t < taken.len() {
                assert(plan_run(old, segs, n).0[t] == taken[t]);
                let k = choose|k: int| 0 <= k < n - 1 && taken[t] == chunk_fingerprint(segs[k]);
                assert(0 <= k < n);
            } else {
                assert(plan_run(old, segs, n).0[t] == chunk_fingerprint(segs[n - 1]));
            }
        }
    }
}

/// Later passages leave the actions of earlier ones as they were.
proof fn lemma_plan_run_prefix(old: Seq<StoredChunk>, segs: Seq<ChunkView>, i: int, n: int)
    requires
        0 <= i < n <= segs.len(),
    ensures
        plan_run(old, segs, n).1[i] == plan_run(old, segs, i + 1).1[i],
    decreases n,
{
    lemma_plan_run_shape(old, segs, n - 1);
    if n > i + 1 {
        lemma_plan_run_prefix(old, segs, i, n - 1);
    }
}

/// A passage whose fingerprint is stored, and that no passage before it
/// shares, keeps the stored passage and its embedding: it is left alone, or
/// moved when edits above it shifted it; it is never stored anew.
pub proof fn law_moved_passages_keep_their_records(old: Seq<StoredChunk>, segs: Seq<ChunkView>, i: int, j: int)
    requires
        0 <= i < segs.len(),
        last_with_hash(old, chunk_fingerprint(segs[i]), old.len() as int) == Some(j),
        forall|k: int| 0 <= k < i ==> chunk_fingerprint(#[trigger] segs[k]) != chunk_fingerprint(segs[i]),
    ensures
        plan_run(old, segs, segs.len() as int).1[i] == ChunkAction::Keep(j as usize)
            || plan_run(old, segs, segs.len() as int).1[i] == ChunkAction::Move(j as usize),
{
    lemma_plan_run_prefix(old, segs, i, segs.len() as int);
    lemma_plan_run_shape(old, segs, i);
    let taken = plan_run(old, segs, i).0;
    let h = chunk_fingerprint(segs[i]);
    if taken.contains(h) {
        let t = choose|t: int| 0 <= t < taken.len() && taken[t] == h;
        let k = choose|k: int| 0 <= k < i && #[trigger] taken[t] == chunk_fingerprint(segs[k]);
        assert(chunk_fingerprint(segs[k]) != h);
    }
    assert(plan_run(old, segs, i + 1).1 == plan_run(old, segs, i).1.push(plan_run(old, segs, i + 1).1.last()));
}

/// Reindexing a note: every passage whose fingerprint is stored, and that
/// no passage before it shares, keeps its stored record and embedding (left
/// alone, or moved when edits above it shifted it), whatever else changed in
/// the note; the plan holds one action per passage.
pub proof fn law_note_keeps_unchanged_passages(old: Seq<StoredChunk>, segs: Seq<ChunkView>)
    ensures
        plan_run(old, segs, segs.len() as int).1.len() == segs.len(),
        forall|i: int|
            0 <= i < segs.len() && (forall|k: int| 0 <= k < i ==> chunk_fingerprint(#[trigger] segs[k]) != chunk_fingerprint(segs[i]))
                ==> match #[trigger] last_with_hash(old, chunk_fingerprint(segs[i]), old.len() as int) {
                    Some(j) => plan_run(old, segs, segs.len() as int).1[i] == ChunkAction::Keep(j as usize)
                        || plan_run(old, segs, segs.len() as int).1[i] == ChunkAction::Move(j as usize),
                    None => plan_run(old, segs, segs.len() as int).1[i] == ChunkAction::Create,
                },
{
    lemma_plan_run_shape(old, segs, segs.len() as int);
    assert forall|i: int|
        0 <= i < segs.len() && (forall|k: int| 0 <= k < i ==> chunk_fingerprint(#[trigger] segs[k]) != chunk_fingerprint(segs[i]))
        implies match #[trigger] last_with_hash(old, chunk_fingerprint(segs[i]), old.len() as int) {
            Some(j) => plan_run(old, segs, segs.len() as int).1[i] == ChunkAction::Keep(j as usize)
                || plan_run(old, segs, segs.len() as int).1[i] == ChunkAction::Move(j as usize),
            None => plan_run(old, segs, segs.len() as int).1[i] == ChunkAction::Create,
        } by {
        match last_with_hash(old, chunk_fingerprint(segs[i]), old.len() as int) {
            Some(j) => law_moved_passages_keep_their_records(old, segs, i, j),
            None => {
                lemma_plan_run_prefix(old, segs, i, segs.len() as int);
                lemma_plan_run_shape(old, segs, i);
                assert(plan_run(old, segs, i + 1).1 == plan_run(old, segs, i).1.push(plan_run(old, segs, i + 1).1.last()));
            },
        }
    }
}

/// A query yields at most `MAX_QUERY_TERMS` keywords, each longer than one
/// character and not a stopword, and none twice.
pub proof fn law_query_terms(q: Seq<char>)
    ensures
        good_terms(query_terms(q)),
{
    lemma_pick_terms(words(q), Seq::empty());
}

} // verus!
