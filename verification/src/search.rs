//! Find and replace across every writing in the content directory.

use vstd::prelude::*;
use vstd::utf8::{encode_scalar, encode_utf8};
use regex::{NoExpand, Regex, RegexBuilder};
use crate::chunker::{byte_offsets, char_pos, char_pos_of, offsets_of, pairs};
use crate::export::{byte_len, lemma_byte_len_concat, utf8_width};
use crate::text::{chars_of, push_str, string_of};

verus! {

/// Stop collecting past this many matches so a one-letter query stays fast.
pub const MAX_MATCHES: usize = 2000;

#[derive(Debug, Clone, Copy)]
pub struct SearchOptions {
    pub case_sensitive: bool,
    pub whole_word: bool,
    pub regex: bool,
}

impl Default for SearchOptions {
    fn default() -> (r: Self)
        ensures
            !r.case_sensitive && !r.whole_word && !r.regex,
    {
        SearchOptions { case_sensitive: false, whole_word: false, regex: false }
    }
}

#[derive(Debug, Clone)]
pub struct SearchMatch {
    /// 1-based line number.
    pub line: usize,
    /// The line, trimmed to some context around the match.
    pub preview: String,
    /// Match bounds within `preview`, in UTF-16 code units so JS can slice them.
    pub start: usize,
    pub end: usize,
    /// In the front matter (synopsis, status…) rather than the text itself.
    pub meta: bool,
}

#[derive(Debug, Clone)]
pub struct FileMatches {
    pub name: String,
    pub matches: Vec<SearchMatch>,
}

#[derive(Debug, Clone)]
pub struct SearchResults {
    pub files: Vec<FileMatches>,
    pub total: usize,
    /// True when `MAX_MATCHES` cut the search short.
    pub truncated: bool,
}

#[derive(Debug, Clone)]
pub struct Replaced {
    pub name: String,
    pub count: usize,
}

/// Characters of context kept on each side of a match in previews.
pub const PREVIEW_CONTEXT: usize = 60;

#[verifier::external_type_specification]
#[verifier::external_body]
pub struct ExRegex(Regex);

/// A compiled search, with the pattern and case setting it was compiled from.
pub struct SearchRegex {
    regex: Regex,
    pattern: String,
    case_insensitive: bool,
}

impl SearchRegex {
    pub closed spec fn pattern(&self) -> Seq<char> {
        self.pattern@
    }

    pub closed spec fn case_insensitive(&self) -> bool {
        self.case_insensitive
    }
}

/// A character with a meaning in a regular expression.
pub open spec fn is_regex_meta(c: char) -> bool {
    c == '\\' || c == '.' || c == '+' || c == '*' || c == '?' || c == '(' || c == ')' || c == '|'
        || c == '[' || c == ']' || c == '{' || c == '}' || c == '^' || c == '$' || c == '#' || c == '&'
        || c == '-' || c == '~'
}

/// `s` with a backslash before each regex meta character.
pub open spec fn regex_escaped(s: Seq<char>) -> Seq<char>
    decreases s.len(),
{
    if s.len() == 0 {
        s
    } else if is_regex_meta(s.last()) {
        regex_escaped(s.drop_last()) + seq!['\\', s.last()]
    } else {
        regex_escaped(s.drop_last()).push(s.last())
    }
}

/// `None` when `pattern` compiles (multi-line, with the given case setting),
/// else the text of the error `regex` reports.
pub uninterp spec fn regex_build(pattern: Seq<char>, case_insensitive: bool) -> Option<Seq<char>>;

/// The byte ranges of the successive non-overlapping matches of the
/// compiled pattern in `haystack`.
pub uninterp spec fn regex_find(pattern: Seq<char>, case_insensitive: bool, haystack: Seq<char>) -> Seq<(int, int)>;

/// `haystack` with every match of the compiled pattern replaced by
/// `replacement`, with `$name` references expanded when `expand` holds.
pub uninterp spec fn regex_replace(
    pattern: Seq<char>,
    case_insensitive: bool,
    haystack: Seq<char>,
    replacement: Seq<char>,
    expand: bool,
) -> Seq<char>;

/// `regex::escape`: a backslash before each of `\ . + * ? ( ) | [ ] { } ^ $ # & - ~`.
#[verifier::external_body]
fn escape_regex(text: &str) -> (r: String)
    ensures
        r@ == regex_escaped(text@),
{
    regex::escape(text)
}

/// `RegexBuilder::new(pattern).case_insensitive(..).multi_line(true).build()`:
/// whether the pattern compiles, and the error's text when not, are named by
/// `regex_build`; a compiled pattern is kept with what it was compiled from.
#[verifier::external_body]
fn compile_pattern(pattern: &str, case_insensitive: bool) -> (r: Result<SearchRegex, String>)
    ensures
        match r {
            Ok(re) => regex_build(pattern@, case_insensitive) is None && re.pattern() == pattern@
                && re.case_insensitive() == case_insensitive,
            Err(e) => regex_build(pattern@, case_insensitive) == Some(e@),
        },
{
    match RegexBuilder::new(pattern).case_insensitive(case_insensitive).multi_line(true).build() {
        Ok(regex) => Ok(SearchRegex { regex, pattern: pattern.to_string(), case_insensitive }),
        Err(e) => Err(e.to_string()),
    }
}

/// `Regex::find_iter`: the matches' byte ranges, named by `regex_find`. As the
/// crate documents, each starts no later than it ends and both ends fall on
/// character boundaries of the haystack; the matches come in order without
/// overlapping.
#[verifier::external_body]
fn find_ranges(re: &SearchRegex, haystack: &str) -> (r: Vec<(usize, usize)>)
    ensures
        pairs(r@) == regex_find(re.pattern(), re.case_insensitive(), haystack@),
        forall|k: int| 0 <= k < r@.len() ==> {
            &&& (#[trigger] r@[k]).0 <= r@[k].1
            &&& char_pos(haystack@, r@[k].0 as int) is Some
            &&& char_pos(haystack@, r@[k].1 as int) is Some
        },
        forall|k: int, l: int| 0 <= k < l < r@.len() ==> #[trigger] r@[k].1 <= #[trigger] r@[l].0,
{
    re.regex.find_iter(haystack).map(|m| (m.start(), m.end())).collect()
}

/// `Regex::replace_all` with `$name` references expanded.
#[verifier::external_body]
fn replace_expanding(re: &SearchRegex, haystack: &str, replacement: &str) -> (r: String)
    ensures
        r@ == regex_replace(re.pattern(), re.case_insensitive(), haystack@, replacement@, true),
{
    re.regex.replace_all(haystack, replacement).into_owned()
}

/// `Regex::replace_all` with `NoExpand`: the replacement taken literally.
#[verifier::external_body]
fn replace_literal(re: &SearchRegex, haystack: &str, replacement: &str) -> (r: String)
    ensures
        r@ == regex_replace(re.pattern(), re.case_insensitive(), haystack@, replacement@, false),
{
    re.regex.replace_all(haystack, NoExpand(replacement)).into_owned()
}

/// The pattern a query searches for: the query itself in regex mode, else
/// escaped; wrapped in word boundaries for whole words.
pub open spec fn search_pattern(query: Seq<char>, options: SearchOptions) -> Seq<char> {
    let p = if options.regex { query } else { regex_escaped(query) };
    if options.whole_word { "\\b(?:"@ + p + ")\\b"@ } else { p }
}

/// The case option never changes what is searched for: two searches that
/// differ only in case sensitivity compile the same pattern (the case option
/// only makes the match case-insensitive).
pub proof fn law_case_option_keeps_pattern(query: Seq<char>, a: SearchOptions, b: SearchOptions)
    requires
        a.regex == b.regex,
        a.whole_word == b.whole_word,
    ensures
        search_pattern(query, a) == search_pattern(query, b),
{
}

/// A whole-word search looks for what the same search without the option
/// looks for, wrapped in word boundaries `\b(?:` ... `)\b`, whether or not
/// it is case-sensitive.
pub proof fn law_whole_word_wraps(query: Seq<char>, options: SearchOptions)
    requires
        options.whole_word,
    ensures
        search_pattern(query, options) == "\\b(?:"@ + search_pattern(
            query,
            SearchOptions { whole_word: false, ..options },
        ) + ")\\b"@,
{
}

pub fn build_regex(query: &str, options: &SearchOptions) -> (r: Result<SearchRegex, String>)
    ensures
        match r {
            Ok(re) => {
                &&& regex_build(search_pattern(query@, *options), !options.case_sensitive) is None
                &&& re.pattern() == search_pattern(query@, *options)
                &&& re.case_insensitive() == !options.case_sensitive
            },
            Err(e) => regex_build(search_pattern(query@, *options), !options.case_sensitive) matches Some(m)
                && e@ == "Invalid pattern: "@ + m,
        },
{
    let base = if options.regex { query.to_string() } else { escape_regex(query) };
    let mut pattern = String::new();
    if options.whole_word {
        push_str(&mut pattern, "\\b(?:");
        push_str(&mut pattern, base.as_str());
        push_str(&mut pattern, ")\\b");
    } else {
        push_str(&mut pattern, base.as_str());
    }
    assert(pattern@ =~= search_pattern(query@, *options));
    match compile_pattern(pattern.as_str(), !options.case_sensitive) {
        Ok(re) => Ok(re),
        Err(e) => {
            let mut msg = String::new();
            push_str(&mut msg, "Invalid pattern: ");
            push_str(&mut msg, e.as_str());
            Err(msg)
        },
    }
}

/// UTF-16 code units of a character.
pub open spec fn utf16_width(c: char) -> int {
    if c as u32 >= 0x10000 { 2 } else { 1 }
}

/// UTF-16 code units of `s`.
pub open spec fn utf16_units(s: Seq<char>) -> int
    decreases s.len(),
{
    if s.len() == 0 {
        0
    } else {
        utf16_units(s.drop_last()) + utf16_width(s.last())
    }
}

proof fn lemma_units_concat(a: Seq<char>, b: Seq<char>)
    ensures
        utf16_units(a + b) == utf16_units(a) + utf16_units(b),
    decreases b.len(),
{
    if b.len() == 0 {
        assert(a + b =~= a);
    } else {
        lemma_units_concat(a, b.drop_last());
        assert((a + b).drop_last() =~= a + b.drop_last());
        assert((a + b).last() == b.last());
    }
}

proof fn lemma_encode_concat(a: Seq<char>, b: Seq<char>)
    ensures
        encode_utf8(a + b) == encode_utf8(a) + encode_utf8(b),
    decreases a.len(),
{
    if a.len() == 0 {
        assert(a + b =~= b);
        assert(encode_utf8(a) =~= Seq::<u8>::empty());
        assert(encode_utf8(a) + encode_utf8(b) =~= encode_utf8(b));
    } else {
        lemma_encode_concat(a.drop_first(), b);
        assert((a + b).drop_first() =~= a.drop_first() + b);
        assert((a + b)[0] == a[0]);
        assert(encode_utf8(a + b) =~= encode_utf8(a) + encode_utf8(b));
    }
}

proof fn lemma_units_le_bytes(s: Seq<char>)
    ensures
        0 <= utf16_units(s) <= encode_utf8(s).len(),
    decreases s.len(),
{
    if s.len() > 0 {
        let c = s.last();
        lemma_units_le_bytes(s.drop_last());
        assert(s.drop_last() + seq![c] =~= s);
        lemma_encode_concat(s.drop_last(), seq![c]);
        assert(seq![c].drop_first() =~= Seq::<char>::empty());
        assert(encode_utf8(seq![c]) == encode_scalar(c as u32) + encode_utf8(Seq::<char>::empty()));
        vstd::utf8::char_is_scalar(c);
    }
}

/// The bytes of a part of `v` are no more than those of `v`.
proof fn lemma_encode_sub(v: Seq<char>, a: int, b: int)
    requires
        0 <= a <= b <= v.len(),
    ensures
        encode_utf8(v.subrange(a, b)).len() <= encode_utf8(v).len(),
{
    assert(v =~= v.take(a) + v.subrange(a, b) + v.skip(b));
    lemma_encode_concat(v.take(a) + v.subrange(a, b), v.skip(b));
    lemma_encode_concat(v.take(a), v.subrange(a, b));
}

/// UTF-16 code units of `v[a..b]`.
fn utf16_count(v: &Vec<char>, a: usize, b: usize) -> (r: usize)
    requires
        a <= b <= v.len(),
        encode_utf8(v@.subrange(a as int, b as int)).len() <= usize::MAX,
    ensures
        r == utf16_units(v@.subrange(a as int, b as int)),
{
    let mut n: usize = 0;
    let mut k = a;
    assert(v@.subrange(a as int, a as int) =~= Seq::<char>::empty());
    while k < b
        invariant
            a <= k <= b <= v.len(),
            encode_utf8(v@.subrange(a as int, b as int)).len() <= usize::MAX,
            n == utf16_units(v@.subrange(a as int, k as int)),
        decreases b - k,
    {
        proof {
            assert(v@.subrange(a as int, k + 1).drop_last() =~= v@.subrange(a as int, k as int));
            lemma_units_le_bytes(v@.subrange(a as int, k + 1));
            assert(v@.subrange(a as int, b as int) =~= v@.subrange(a as int, k + 1) + v@.subrange(k + 1, b as int));
            lemma_encode_concat(v@.subrange(a as int, k + 1), v@.subrange(k + 1, b as int));
        }
        let c = v[k];
        if c as u32 >= 0x10000 {
            n = n + 2;
        } else {
            n = n + 1;
        }
        k += 1;
    }
    n
}

/// What a match shows: the line cut to `PREVIEW_CONTEXT` characters on
/// each side of `v[s..e]`, with `…` where it was cut, and the match's
/// bounds in it in UTF-16 code units.
pub open spec fn preview_view(l: Seq<char>, s: int, e: int) -> (Seq<char>, int, int) {
    let from = if s >= PREVIEW_CONTEXT { s - PREVIEW_CONTEXT } else { 0 };
    let to = if l.len() - e >= PREVIEW_CONTEXT { e + PREVIEW_CONTEXT } else { l.len() as int };
    let before = (if from > 0 { "…"@ } else { Seq::empty() }) + l.subrange(from, s);
    let text = before + l.subrange(s, e) + l.subrange(e, to) + (if to < l.len() { "…"@ } else { Seq::empty() });
    (text, utf16_units(before), utf16_units(before) + utf16_units(l.subrange(s, e)))
}

/// A match as plain values.
pub struct MatchView {
    pub line: int,
    pub preview: Seq<char>,
    pub start: int,
    pub end: int,
    pub meta: bool,
}

pub open spec fn match_view(m: SearchMatch) -> MatchView {
    MatchView { line: m.line as int, preview: m.preview@, start: m.start as int, end: m.end as int, meta: m.meta }
}

pub open spec fn match_views(ms: Seq<SearchMatch>) -> Seq<MatchView> {
    ms.map_values(|m: SearchMatch| match_view(m))
}

/// Shortens `v` around `v[s..e]`: the preview of a match on line `line`.
fn preview(v: &Vec<char>, s: usize, e: usize, line: usize, meta: bool) -> (r: SearchMatch)
    requires
        s <= e <= v.len(),
        encode_utf8(v@).len() <= isize::MAX,
    ensures
        match_view(r) == (MatchView {
            line: line as int,
            preview: preview_view(v@, s as int, e as int).0,
            start: preview_view(v@, s as int, e as int).1,
            end: preview_view(v@, s as int, e as int).2,
            meta,
        }),
{
    let from = if s >= PREVIEW_CONTEXT { s - PREVIEW_CONTEXT } else { 0 };
    let to = if v.len() - e >= PREVIEW_CONTEXT { e + PREVIEW_CONTEXT } else { v.len() };
    let ghost l = v@;
    proof {
        reveal_strlit("…");
        lemma_encode_sub(l, from as int, e as int);
        lemma_encode_sub(l, from as int, s as int);
        lemma_encode_sub(l, s as int, e as int);
        lemma_units_le_bytes(l.subrange(from as int, e as int));
        assert(l.subrange(from as int, e as int) =~= l.subrange(from as int, s as int) + l.subrange(s as int, e as int));
        lemma_units_concat(l.subrange(from as int, s as int), l.subrange(s as int, e as int));
        lemma_units_concat("…"@, l.subrange(from as int, s as int));
        lemma_units_le_bytes(l.subrange(from as int, s as int));
        lemma_units_le_bytes(l.subrange(s as int, e as int));
        assert(utf16_units("…"@) == 1) by {
            assert("…"@.len() == 1);
            assert("…"@.last() == '\u{2026}');
            assert("…"@.drop_last() =~= Seq::<char>::empty());
            assert(('\u{2026}' as u32) < 0x10000);
            assert(utf16_units(Seq::<char>::empty()) == 0);
            assert(utf16_width('\u{2026}') == 1);
            assert(utf16_units("…"@) == utf16_units("…"@.drop_last()) + utf16_width("…"@.last()));
        }
        assert((Seq::<char>::empty() + l.subrange(from as int, s as int)) =~= l.subrange(from as int, s as int));
    }
    let mut text = String::new();
    if from > 0 {
        push_str(&mut text, "…");
    }
    crate::text::push_range(&mut text, v, from, s);
    let ghost before = text@;
    let lead = if from > 0 { 1 } else { 0 };
    let start = lead + utf16_count(v, from, s);
    let end = start + utf16_count(v, s, e);
    crate::text::push_range(&mut text, v, s, e);
    crate::text::push_range(&mut text, v, e, to);
    if to < v.len() {
        push_str(&mut text, "…");
    }
    assert(text@ =~= preview_view(l, s as int, e as int).0);
    SearchMatch { line, preview: text, start, end, meta }
}

/// The matches that are not empty.
pub open spec fn nonempty(ms: Seq<(int, int)>) -> Seq<(int, int)>
    decreases ms.len(),
{
    if ms.len() == 0 {
        ms
    } else if ms.last().0 != ms.last().1 {
        nonempty(ms.drop_last()).push(ms.last())
    } else {
        nonempty(ms.drop_last())
    }
}

/// The match at byte range `m` of line `l`, the line's index being `index`.
pub open spec fn hit_view(l: Seq<char>, m: (int, int), index: int, meta: bool) -> MatchView {
    let s = char_pos(l, m.0)->0;
    let e = char_pos(l, m.1)->0;
    let p = preview_view(l, s, e);
    MatchView { line: index + 1, preview: p.0, start: p.1, end: p.2, meta }
}

/// The non-empty matches of line `l`.
pub open spec fn line_hits(pattern: Seq<char>, ci: bool, l: Seq<char>, index: int, meta: bool) -> Seq<MatchView> {
    nonempty(regex_find(pattern, ci, l)).map_values(|m: (int, int)| hit_view(l, m, index, meta))
}

/// Lines taken by front matter at the top (both `---` included), or 0: the
/// same rule as the export's.
pub open spec fn front_matter_lines(c: Seq<char>) -> int {
    let rest = crate::export::without_front_matter(c);
    if rest.len() == c.len() {
        0
    } else {
        crate::export::lines_of(c.take(c.len() - rest.len())).len() as int
    }
}

/// The matches of the first `n` of `lines`, in order.
pub open spec fn hits_upto(pattern: Seq<char>, ci: bool, lines: Seq<Seq<char>>, n: int, meta_lines: int) -> Seq<MatchView>
    decreases n,
{
    if n <= 0 {
        Seq::empty()
    } else {
        hits_upto(pattern, ci, lines, n - 1, meta_lines) + line_hits(pattern, ci, lines[n - 1], n - 1, n - 1 < meta_lines)
    }
}

/// All the matches of a file, line by line.
pub open spec fn file_hits(pattern: Seq<char>, ci: bool, content: Seq<char>) -> Seq<MatchView> {
    let ls = crate::export::lines_of(content);
    hits_upto(pattern, ci, ls, ls.len() as int, front_matter_lines(content))
}

proof fn lemma_hits_prefix(pattern: Seq<char>, ci: bool, lines: Seq<Seq<char>>, m: int, n: int, meta_lines: int)
    requires
        0 <= m <= n,
    ensures
        hits_upto(pattern, ci, lines, m, meta_lines).len() <= hits_upto(pattern, ci, lines, n, meta_lines).len(),
        hits_upto(pattern, ci, lines, n, meta_lines).take(hits_upto(pattern, ci, lines, m, meta_lines).len() as int)
            == hits_upto(pattern, ci, lines, m, meta_lines),
    decreases n - m,
{
    if m < n {
        lemma_hits_prefix(pattern, ci, lines, m, n - 1, meta_lines);
        let a = hits_upto(pattern, ci, lines, m, meta_lines);
        let b = hits_upto(pattern, ci, lines, n - 1, meta_lines);
        let c = hits_upto(pattern, ci, lines, n, meta_lines);
        assert(c.take(b.len() as int) =~= b);
        assert(c.take(a.len() as int) =~= b.take(a.len() as int));
    } else {
        let a = hits_upto(pattern, ci, lines, m, meta_lines);
        assert(a.take(a.len() as int) =~= a);
    }
}

/// The matches of line `v`, found with `re`.
fn line_matches(re: &SearchRegex, v: &Vec<char>, text: &str, index: usize, meta: bool) -> (r: Vec<SearchMatch>)
    requires
        v@ == text@,
        encode_utf8(v@).len() <= isize::MAX,
        index < usize::MAX,
    ensures
        match_views(r@) == line_hits(re.pattern(), re.case_insensitive(), v@, index as int, meta),
{
    let ranges = find_ranges(re, text);
    let off = byte_offsets(v);
    let ghost ms = pairs(ranges@);
    let ghost f = |m: (int, int)| hit_view(v@, m, index as int, meta);
    let mut out: Vec<SearchMatch> = Vec::new();
    let mut k: usize = 0;
    assert(ms.take(0) =~= Seq::<(int, int)>::empty());
    assert(match_views(out@) =~= Seq::<MatchView>::empty());
    while k < ranges.len()
        invariant
            v@ == text@,
            encode_utf8(v@).len() <= isize::MAX,
            index < usize::MAX,
            offsets_of(v@, off@),
            ms == pairs(ranges@),
            ms == regex_find(re.pattern(), re.case_insensitive(), text@),
            forall|q: int| 0 <= q < ranges@.len() ==> {
                &&& (#[trigger] ranges@[q]).0 <= ranges@[q].1
                &&& char_pos(text@, ranges@[q].0 as int) is Some
                &&& char_pos(text@, ranges@[q].1 as int) is Some
            },
            f == (|m: (int, int)| hit_view(v@, m, index as int, meta)),
            k <= ranges@.len(),
            match_views(out@) == nonempty(ms.take(k as int)).map_values(f),
        decreases ranges.len() - k,
    {
        let (a, b) = ranges[k];
        assert(ms[k as int] == (a as int, b as int));
        assert(ms.take(k + 1).drop_last() =~= ms.take(k as int));
        assert(ms.take(k + 1).last() == (a as int, b as int));
        if a != b {
            let s = char_pos_of(&off, a, Ghost(v@)).unwrap();
            let e = char_pos_of(&off, b, Ghost(v@)).unwrap();
            proof {
                assert(at_char_of(v@, a as int, s as int));
                assert(at_char_of(v@, b as int, e as int));
                if s > e {
                    assert(off@[e as int] < off@[s as int]);
                }
            }
            let m = preview(v, s, e, index + 1, meta);
            let ghost before = match_views(out@);
            out.push(m);
            assert(match_views(out@) =~= before.push(match_view(m)));
            assert(nonempty(ms.take(k + 1)) == nonempty(ms.take(k as int)).push((a as int, b as int)));
            assert(nonempty(ms.take(k + 1)).map_values(f) =~= nonempty(ms.take(k as int)).map_values(f).push(
                f((a as int, b as int)),
            ));
        } else {
            assert(nonempty(ms.take(k + 1)) == nonempty(ms.take(k as int)));
        }
        k += 1;
    }
    assert(ms.take(k as int) =~= ms);
    out
}

/// `v[..k]` covers `o` bytes, so its character index at byte `o` is `k`.
pub open spec fn at_char_of(v: Seq<char>, o: int, k: int) -> bool {
    char_pos(v, o) == Some(k) && crate::chunker::at_char(v, o, k)
}

/// Number of lines of `v[..k]`, as `str::lines` counts them.
fn count_lines(v: &Vec<char>, k: usize) -> (r: usize)
    requires
        k <= v.len(),
    ensures
        r == crate::export::lines_of(v@.take(k as int)).len(),
{
    let mut pos: usize = 0;
    let mut n: usize = 0;
    let ghost ls = crate::export::lines_of(v@.take(k as int));
    assert(v@.subrange(0, k as int) =~= v@.take(k as int));
    while pos < k
        invariant
            pos <= k <= v.len(),
            n <= pos,
            ls == crate::export::lines_of(v@.take(k as int)),
            n <= ls.len(),
            ls.skip(n as int) == crate::export::lines_of(v@.subrange(pos as int, k as int)),
        decreases k - pos,
    {
        let (_a, b) = crate::export::line_bounds(v, pos, k);
        assert(ls.skip(n as int).len() > 0);
        assert(ls.skip(n + 1) =~= ls.skip(n as int).drop_first());
        pos = b;
        n += 1;
    }
    assert(v@.subrange(pos as int, k as int).len() == 0);
    n
}

/// Number of lines (including both `---`) taken by front matter at the top, or 0.
fn front_matter_line_count(content: &str) -> (r: usize)
    ensures
        r == front_matter_lines(content@),
{
    let stripped = crate::export::strip_front_matter(content);
    let v = chars_of(content);
    let w = chars_of(stripped.as_str());
    proof {
        crate::export::lemma_stripped_shorter(content@);
    }
    if w.len() == v.len() {
        return 0;
    }
    count_lines(&v, v.len() - w.len())
}

/// The first `limit` matches of a file, and whether it has more.
fn file_matches(re: &SearchRegex, content: &str, limit: usize) -> (r: (Vec<SearchMatch>, bool))
    requires
        encode_utf8(content@).len() <= isize::MAX,
    ensures
        r.1 == (file_hits(re.pattern(), re.case_insensitive(), content@).len() > limit),
        match_views(r.0@) == file_hits(re.pattern(), re.case_insensitive(), content@).take(
            if r.1 { limit as int } else { file_hits(re.pattern(), re.case_insensitive(), content@).len() as int },
        ),
{
    let ghost p = re.pattern();
    let ghost ci = re.case_insensitive();
    let v = chars_of(content);
    let meta_lines = front_matter_line_count(content);
    let ghost ls = crate::export::lines_of(content@);
    let ghost all = file_hits(p, ci, content@);
    let mut out: Vec<SearchMatch> = Vec::new();
    let mut pos: usize = 0;
    let mut index: usize = 0;
    assert(v@.subrange(0, v@.len() as int) =~= v@);
    assert(match_views(out@) =~= Seq::<MatchView>::empty());
    while pos < v.len()
        invariant
            v@ == content@,
            encode_utf8(content@).len() <= isize::MAX,
            p == re.pattern(),
            ci == re.case_insensitive(),
            meta_lines == front_matter_lines(content@),
            ls == crate::export::lines_of(content@),
            all == hits_upto(p, ci, ls, ls.len() as int, meta_lines as int),
            pos <= v@.len(),
            index <= pos,
            index <= ls.len(),
            ls.skip(index as int) == crate::export::lines_of(v@.subrange(pos as int, v@.len() as int)),
            match_views(out@) == hits_upto(p, ci, ls, index as int, meta_lines as int),
            out@.len() <= limit,
        decreases v.len() - pos,
    {
        let (a, b) = crate::export::line_bounds(&v, pos, v.len());
        assert(ls.skip(index as int).len() > 0);
        assert(ls.skip(index as int)[0] == ls[index as int]);
        assert(ls.skip(index as int)[0] == v@.subrange(pos as int, a as int));
        assert(ls.skip(index + 1) =~= ls.skip(index as int).drop_first());
        let line = string_of(&v, pos, a);
        let lv = chars_of(line.as_str());
        proof {
            lemma_encode_sub(v@, pos as int, a as int);
        }
        let hits = line_matches(re, &lv, line.as_str(), index, index < meta_lines);
        let ghost upto = hits_upto(p, ci, ls, index + 1, meta_lines as int);
        assert(upto == match_views(out@) + match_views(hits@));
        if hits.len() > limit - out.len() {
            let room = limit - out.len();
            let mut k: usize = 0;
            let ghost base = match_views(out@);
            while k < room
                invariant
                    k <= room,
                    room < hits@.len(),
                    base.len() + room == limit,
                    match_views(out@) == base + match_views(hits@).take(k as int),
                decreases room - k,
            {
                let m = clone_match(&hits[k]);
                let ghost before = match_views(out@);
                out.push(m);
                assert(match_views(out@) =~= before.push(match_view(hits@[k as int])));
                assert(match_views(hits@).take(k + 1) =~= match_views(hits@).take(k as int).push(
                    match_view(hits@[k as int]),
                ));
                k += 1;
            }
            proof {
                lemma_hits_prefix(p, ci, ls, index + 1, ls.len() as int, meta_lines as int);
                assert(all.take(upto.len() as int) == upto);
                assert(match_views(out@) =~= upto.take(limit as int));
                assert(all.take(limit as int) =~= upto.take(limit as int));
            }
            return (out, true);
        }
        let mut k: usize = 0;
        let ghost base = match_views(out@);
        while k < hits.len()
            invariant
                k <= hits@.len(),
                match_views(out@) == base + match_views(hits@).take(k as int),
                base.len() + hits@.len() <= limit,
            decreases hits.len() - k,
        {
            let m = clone_match(&hits[k]);
            let ghost before = match_views(out@);
            out.push(m);
            assert(match_views(out@) =~= before.push(match_view(hits@[k as int])));
            assert(match_views(hits@).take(k + 1) =~= match_views(hits@).take(k as int).push(
                match_view(hits@[k as int]),
            ));
            k += 1;
        }
        assert(match_views(hits@).take(k as int) =~= match_views(hits@));
        pos = b;
        index += 1;
    }
    proof {
        assert(v@.subrange(pos as int, v@.len() as int).len() == 0);
        assert(ls.skip(index as int).len() == 0);
        assert(all.take(all.len() as int) =~= all);
    }
    (out, false)
}

fn clone_match(m: &SearchMatch) -> (r: SearchMatch)
    ensures
        match_view(r) == match_view(*m),
{
    SearchMatch { line: m.line, preview: m.preview.clone(), start: m.start, end: m.end, meta: m.meta }
}

/// A file's matches as plain values.
pub struct FileView {
    pub name: Seq<char>,
    pub matches: Seq<MatchView>,
}

pub open spec fn file_view(f: FileMatches) -> FileView {
    FileView { name: f.name@, matches: match_views(f.matches@) }
}

pub open spec fn file_views(fs: Seq<FileMatches>) -> Seq<FileView> {
    fs.map_values(|f: FileMatches| file_view(f))
}

/// The files with matches, how many matches were kept and whether the cap
/// cut the search short, searching `cs` (name, content) in order with room
/// for `remaining` more matches. A file that would go over the cap keeps the
/// matches that fit, and the search stops there.
pub open spec fn results_from(
    pattern: Seq<char>,
    ci: bool,
    cs: Seq<(Seq<char>, Seq<char>)>,
    remaining: int,
) -> (Seq<FileView>, int, bool)
    decreases cs.len(),
{
    if cs.len() == 0 {
        (Seq::empty(), 0, false)
    } else {
        let hits = file_hits(pattern, ci, cs[0].1);
        if hits.len() <= remaining {
            let rest = results_from(pattern, ci, cs.drop_first(), remaining - hits.len());
            (
                if hits.len() > 0 { seq![FileView { name: cs[0].0, matches: hits }] + rest.0 } else { rest.0 },
                hits.len() + rest.1,
                rest.2,
            )
        } else {
            (
                if remaining > 0 { seq![FileView { name: cs[0].0, matches: hits.take(remaining) }] } else { Seq::empty() },
                remaining,
                true,
            )
        }
    }
}

pub open spec fn contents_view(cs: Seq<(String, String)>) -> Seq<(Seq<char>, Seq<char>)> {
    cs.map_values(|c: (String, String)| (c.0@, c.1@))
}

/// Searches already-loaded contents, file by file and line by line, keeping
/// at most `MAX_MATCHES` matches.
pub fn search_contents(regex: &SearchRegex, contents: Vec<(String, String)>) -> (r: SearchResults)
    requires
        forall|i: int| 0 <= i < contents@.len() ==> encode_utf8((#[trigger] contents@[i]).1@).len() <= isize::MAX,
    ensures
        (file_views(r.files@), r.total as int, r.truncated) == results_from(
            regex.pattern(),
            regex.case_insensitive(),
            contents_view(contents@),
            MAX_MATCHES as int,
        ),
{
    let ghost p = regex.pattern();
    let ghost ci = regex.case_insensitive();
    let ghost cs = contents_view(contents@);
    let mut files: Vec<FileMatches> = Vec::new();
    let mut total: usize = 0;
    let mut i: usize = 0;
    assert(file_views(files@) =~= Seq::<FileView>::empty());
    assert(cs.skip(0) =~= cs);
    while i < contents.len()
        invariant
            p == regex.pattern(),
            ci == regex.case_insensitive(),
            cs == contents_view(contents@),
            forall|i: int| 0 <= i < contents@.len() ==> encode_utf8((#[trigger] contents@[i]).1@).len() <= isize::MAX,
            i <= contents@.len(),
            total <= MAX_MATCHES,
            results_from(p, ci, cs, MAX_MATCHES as int) == ({
                let rest = results_from(p, ci, cs.skip(i as int), MAX_MATCHES - total);
                (file_views(files@) + rest.0, total + rest.1, rest.2)
            }),
        decreases contents.len() - i,
    {
        let ghost rest = cs.skip(i as int);
        assert(rest[0] == (contents@[i as int].0@, contents@[i as int].1@));
        assert(rest.drop_first() =~= cs.skip(i + 1));
        let room = MAX_MATCHES - total;
        let (matches, over) = file_matches(regex, contents[i].1.as_str(), room);
        let ghost hits = file_hits(p, ci, contents@[i as int].1@);
        if over {
            let ghost old_files = file_views(files@);
            let ghost r0 = results_from(p, ci, rest, room as int);
            assert(r0.0 == (if room > 0 {
                seq![FileView { name: rest[0].0, matches: hits.take(room as int) }]
            } else {
                Seq::<FileView>::empty()
            }));
            assert(match_views(matches@) == hits.take(room as int));
            assert(matches@.len() == match_views(matches@).len());
            assert(matches@.len() == room);
            if matches.len() > 0 {
                let name = contents[i].0.clone();
                let f = FileMatches { name, matches };
                files.push(f);
                assert(file_views(files@) =~= old_files.push(file_view(f)));
                assert(f.name@ == rest[0].0);
                assert(file_view(f) == (FileView { name: rest[0].0, matches: hits.take(room as int) }));
                assert(r0.0 =~= seq![file_view(f)]);
                assert(file_views(files@) =~= old_files + r0.0);
            } else {
                assert(r0.0 =~= Seq::<FileView>::empty());
                assert(file_views(files@) =~= old_files + r0.0);
            }
            return SearchResults { files, total: MAX_MATCHES, truncated: true };
        }
        assert(match_views(matches@) == hits.take(hits.len() as int));
        assert(hits.take(hits.len() as int) =~= hits);
        assert(matches@.len() == match_views(matches@).len());
        assert(matches@.len() == hits.len());
        let n = matches.len();
        let ghost old_files = file_views(files@);
        let ghost r1 = results_from(p, ci, cs.skip(i + 1), MAX_MATCHES - total - n);
        assert(results_from(p, ci, rest, room as int) == (
            if hits.len() > 0 { seq![FileView { name: rest[0].0, matches: hits }] + r1.0 } else { r1.0 },
            hits.len() + r1.1,
            r1.2,
        ));
        if n > 0 {
            let name = contents[i].0.clone();
            let f = FileMatches { name, matches };
            files.push(f);
            assert(file_views(files@) =~= old_files.push(file_view(f)));
            assert(file_view(f) == (FileView { name: rest[0].0, matches: hits }));
            assert(old_files.push(file_view(f)) + r1.0 =~= old_files + (seq![file_view(f)] + r1.0));
        }
        total = total + n;
        i += 1;
    }
    assert(cs.skip(i as int).len() == 0);
    assert(file_views(files@) + Seq::<FileView>::empty() =~= file_views(files@));
    SearchResults { files, total, truncated: false }
}

/// The pieces of `s` each ending after a `\n` (the last one may not), as
/// `str::split_inclusive('\n')` gives them.
pub open spec fn inclusive_lines(s: Seq<char>) -> Seq<Seq<char>>
    decreases s.len(),
{
    if s.len() == 0 {
        Seq::empty()
    } else {
        let k = crate::text::first_of(s, '\n');
        if 0 <= k < s.len() {
            seq![s.take(k + 1)] + inclusive_lines(s.skip(k + 1))
        } else {
            seq![s]
        }
    }
}

/// A line without its trailing `\n` and `\r` characters.
pub open spec fn line_body(l: Seq<char>) -> Seq<char>
    decreases l.len(),
{
    if l.len() > 0 && (l.last() == '\n' || l.last() == '\r') {
        line_body(l.drop_last())
    } else {
        l
    }
}

/// One line with its matches replaced, and how many there were. A line
/// without a non-empty match is left exactly as it was; otherwise the
/// replacement applies to the line's body and its line ending is kept.
pub open spec fn replaced_line(pattern: Seq<char>, ci: bool, l: Seq<char>, rep: Seq<char>, expand: bool) -> (Seq<char>, int) {
    let body = line_body(l);
    let n = nonempty(regex_find(pattern, ci, body)).len() as int;
    if n == 0 {
        (l, 0)
    } else {
        (regex_replace(pattern, ci, body, rep, expand) + l.skip(body.len() as int), n)
    }
}

/// The lines `ls` with their matches replaced, joined, and the count.
pub open spec fn replaced_lines(pattern: Seq<char>, ci: bool, ls: Seq<Seq<char>>, rep: Seq<char>, expand: bool) -> (Seq<char>, int)
    decreases ls.len(),
{
    if ls.len() == 0 {
        (Seq::empty(), 0)
    } else {
        let a = replaced_lines(pattern, ci, ls.drop_last(), rep, expand);
        let b = replaced_line(pattern, ci, ls.last(), rep, expand);
        (a.0 + b.0, a.1 + b.1)
    }
}

proof fn lemma_scalar_width(c: char)
    ensures
        encode_scalar(c as u32).len() == utf8_width(c),
{
    vstd::utf8::char_is_scalar(c);
}

proof fn lemma_byte_len_encode(s: Seq<char>)
    ensures
        byte_len(s) == encode_utf8(s).len(),
    decreases s.len(),
{
    if s.len() > 0 {
        let c = s.last();
        lemma_byte_len_encode(s.drop_last());
        assert(s.drop_last() + seq![c] =~= s);
        lemma_encode_concat(s.drop_last(), seq![c]);
        assert(seq![c].drop_first() =~= Seq::<char>::empty());
        assert(encode_utf8(seq![c]) == encode_scalar(c as u32) + encode_utf8(Seq::<char>::empty()));
        assert(encode_utf8(Seq::<char>::empty()) =~= Seq::<u8>::empty());
        vstd::utf8::char_is_scalar(c);
        lemma_scalar_width(c);
        assert(encode_utf8(seq![c]).len() == utf8_width(c));
    }
}

/// How many of the matches are not empty; no more than the bytes of the
/// haystack, since they do not overlap.
fn count_nonempty(ranges: &Vec<(usize, usize)>, Ghost(h): Ghost<Seq<char>>) -> (n: usize)
    requires
        forall|k: int| 0 <= k < ranges@.len() ==> {
            &&& (#[trigger] ranges@[k]).0 <= ranges@[k].1
            &&& char_pos(h, ranges@[k].1 as int) is Some
        },
        forall|k: int, l: int| 0 <= k < l < ranges@.len() ==> #[trigger] ranges@[k].1 <= #[trigger] ranges@[l].0,
    ensures
        n == nonempty(pairs(ranges@)).len(),
        n <= byte_len(h),
{
    let ghost ms = pairs(ranges@);
    let mut n: usize = 0;
    let mut k: usize = 0;
    assert(ms.take(0) =~= Seq::<(int, int)>::empty());
    while k < ranges.len()
        invariant
            ms == pairs(ranges@),
            k <= ranges@.len(),
            forall|q: int| 0 <= q < ranges@.len() ==> {
                &&& (#[trigger] ranges@[q]).0 <= ranges@[q].1
                &&& char_pos(h, ranges@[q].1 as int) is Some
            },
            forall|q: int, l: int| 0 <= q < l < ranges@.len() ==> #[trigger] ranges@[q].1 <= #[trigger] ranges@[l].0,
            n == nonempty(ms.take(k as int)).len(),
            k > 0 ==> n <= ranges@[k - 1].1,
            k == 0 ==> n == 0,
        decreases ranges.len() - k,
    {
        assert(ms.take(k + 1).drop_last() =~= ms.take(k as int));
        assert(ms.take(k + 1).last() == (ranges@[k as int].0 as int, ranges@[k as int].1 as int));
        if k > 0 {
            assert(ranges@[k - 1].1 <= ranges@[k as int].0);
        }
        if ranges[k].0 != ranges[k].1 {
            n = n + 1;
        }
        k += 1;
    }
    assert(ms.take(k as int) =~= ms);
    proof {
        crate::chunker::lemma_byte_len_nonneg(h);
        if k > 0 {
            let last = ranges@[k - 1].1 as int;
            let i = char_pos(h, last)->0;
            assert(crate::chunker::at_char(h, last, i));
            crate::chunker::lemma_bl(h, i, h.len() as int);
            assert(h.take(h.len() as int) =~= h);
            crate::chunker::lemma_byte_len_nonneg(h.subrange(i, h.len() as int));
        }
    }
    n
}

/// The line `v[pos..end]` with its matches replaced, and how many there were.
fn replace_line(
    regex: &SearchRegex,
    v: &Vec<char>,
    pos: usize,
    end: usize,
    replacement: &str,
    expand: bool,
) -> (r: (String, usize))
    requires
        pos < end <= v@.len(),
    ensures
        (r.0@, r.1 as int) == replaced_line(
            regex.pattern(),
            regex.case_insensitive(),
            v@.subrange(pos as int, end as int),
            replacement@,
            expand,
        ),
        r.1 <= byte_len(v@.subrange(pos as int, end as int)),
{
    let mut bend = end;
    while bend > pos && (v[bend - 1] == '\n' || v[bend - 1] == '\r')
        invariant
            pos <= bend <= end <= v@.len(),
            line_body(v@.subrange(pos as int, end as int)) == line_body(v@.subrange(pos as int, bend as int)),
        decreases bend,
    {
        assert(v@.subrange(pos as int, bend as int).drop_last() =~= v@.subrange(pos as int, bend - 1));
        bend -= 1;
    }
    let ghost l = v@.subrange(pos as int, end as int);
    assert(line_body(l) == v@.subrange(pos as int, bend as int));
    assert(l.skip(bend - pos) =~= v@.subrange(bend as int, end as int));
    let body = string_of(v, pos, bend);
    let ranges = find_ranges(regex, body.as_str());
    let n = count_nonempty(&ranges, Ghost(body@));
    proof {
        assert(l =~= v@.subrange(pos as int, bend as int) + v@.subrange(bend as int, end as int));
        lemma_byte_len_concat(v@.subrange(pos as int, bend as int), v@.subrange(bend as int, end as int));
        crate::chunker::lemma_byte_len_nonneg(v@.subrange(bend as int, end as int));
    }
    let mut out = String::new();
    if n == 0 {
        crate::text::push_range(&mut out, v, pos, end);
    } else {
        let replaced = if expand {
            replace_expanding(regex, body.as_str(), replacement)
        } else {
            replace_literal(regex, body.as_str(), replacement)
        };
        push_str(&mut out, replaced.as_str());
        crate::text::push_range(&mut out, v, bend, end);
    }
    (out, n)
}

/// Applies a replacement to one file's content, line by line so it changes
/// exactly what the search listed. `$1`-style references are only honoured in
/// regex mode, so a literal "$5" in plain mode stays "$5".
pub fn replace_content(regex: &SearchRegex, content: &str, replacement: &str, options: &SearchOptions) -> (r: (String, usize))
    requires
        encode_utf8(content@).len() <= isize::MAX,
    ensures
        (r.0@, r.1 as int) == replaced_lines(
            regex.pattern(),
            regex.case_insensitive(),
            inclusive_lines(content@),
            replacement@,
            options.regex,
        ),
{
    let ghost p = regex.pattern();
    let ghost ci = regex.case_insensitive();
    let ghost ls = inclusive_lines(content@);
    let v = chars_of(content);
    let mut out = String::new();
    let mut count: usize = 0;
    let mut pos: usize = 0;
    let ghost mut idx: int = 0;
    proof {
        lemma_byte_len_encode(content@);
        assert(v@.skip(0) =~= v@);
        assert(ls.take(0) =~= Seq::<Seq<char>>::empty());
        assert(v@.take(0) =~= Seq::<char>::empty());
    }
    while pos < v.len()
        invariant
            v@ == content@,
            byte_len(v@) <= isize::MAX,
            p == regex.pattern(),
            ci == regex.case_insensitive(),
            ls == inclusive_lines(content@),
            pos <= v@.len(),
            0 <= idx <= ls.len(),
            ls.skip(idx) == inclusive_lines(v@.skip(pos as int)),
            (out@, count as int) == replaced_lines(p, ci, ls.take(idx), replacement@, options.regex),
            count <= byte_len(v@.take(pos as int)),
        decreases v.len() - pos,
    {
        let k = crate::text::find_char(&v, pos, '\n');
        let end = if k < v.len() { k + 1 } else { v.len() };
        proof {
            lemma_line_step(v@, pos as int, k as int, end as int, ls, idx);
        }
        let (line, n) = replace_line(regex, &v, pos, end, replacement, options.regex);
        proof {
            lemma_count_step(v@, pos as int, end as int);
            assert(ls.take(idx + 1).drop_last() =~= ls.take(idx));
            assert(ls.take(idx + 1).last() == v@.subrange(pos as int, end as int));
        }
        count = count + n;
        push_str(&mut out, line.as_str());
        pos = end;
        proof {
            idx = idx + 1;
        }
    }
    proof {
        assert(v@.skip(pos as int).len() == 0);
        assert(ls.skip(idx).len() == 0);
        assert(ls.take(idx) =~= ls);
    }
    (out, count)
}

/// The next inclusive line of `v[pos..]` is `v[pos..end]`, where `k` is the
/// first line feed at or after `pos` (or the end).
proof fn lemma_line_step(v: Seq<char>, pos: int, k: int, end: int, ls: Seq<Seq<char>>, idx: int)
    requires
        0 <= pos < v.len(),
        pos <= k <= v.len(),
        k == pos + crate::text::first_of(v.skip(pos), '\n'),
        end == (if k < v.len() { k + 1 } else { v.len() as int }),
        0 <= idx <= ls.len(),
        ls.skip(idx) == inclusive_lines(v.skip(pos)),
    ensures
        idx < ls.len(),
        ls[idx] == v.subrange(pos, end),
        ls.skip(idx + 1) == inclusive_lines(v.skip(end)),
        pos < end <= v.len(),
{
    let rest = v.skip(pos);
    assert(rest.len() > 0);
    if k < v.len() {
        assert(rest.take(k - pos + 1) =~= v.subrange(pos, end));
        assert(rest.skip(k - pos + 1) =~= v.skip(end));
    } else {
        assert(rest =~= v.subrange(pos, end));
        assert(v.skip(end) =~= Seq::<char>::empty());
        assert(inclusive_lines(v.skip(end)) =~= Seq::<Seq<char>>::empty());
    }
    assert(inclusive_lines(rest).len() > 0);
    assert(ls.skip(idx).len() == ls.len() - idx);
    assert(ls.skip(idx)[0] == ls[idx]);
    assert(ls.skip(idx + 1) =~= ls.skip(idx).drop_first());
}

/// The bytes before `end` are those before `pos` and those of `v[pos..end]`.
proof fn lemma_count_step(v: Seq<char>, pos: int, end: int)
    requires
        0 <= pos <= end <= v.len(),
    ensures
        byte_len(v.take(end)) == byte_len(v.take(pos)) + byte_len(v.subrange(pos, end)),
        byte_len(v.take(end)) <= byte_len(v),
{
    assert(v.take(end) =~= v.take(pos) + v.subrange(pos, end));
    lemma_byte_len_concat(v.take(pos), v.subrange(pos, end));
    assert(v =~= v.take(end) + v.skip(end));
    lemma_byte_len_concat(v.take(end), v.skip(end));
    crate::chunker::lemma_byte_len_nonneg(v.skip(end));
}

} // verus!
