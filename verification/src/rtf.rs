//! A small RTF reader: enough to bring prose (paragraphs, bold, italic,
//! Unicode) out of Scrivener projects and plain `.rtf` files as Markdown.
//! Tables, images, fonts and colours are ignored.

use vstd::prelude::*;
use crate::text::{
    chars_of, is_blank, join, lemma_join_push, push_range, push_str, skip_ws, skip_ws_back,
    starts_with, trim, trim_end, trim_range, trim_start, string_of, same_text,
};

verus! {

/// A Markdown character that would otherwise read as syntax inside a line.
pub open spec fn is_inline_special(c: char) -> bool {
    c == '\\' || c == '*' || c == '_' || c == '[' || c == ']' || c == '`' || c == '<'
}

/// `s` with a backslash before each inline special character.
pub open spec fn escaped(s: Seq<char>) -> Seq<char>
    decreases s.len(),
{
    if s.len() == 0 {
        s
    } else if is_inline_special(s.last()) {
        escaped(s.drop_last()) + seq!['\\', s.last()]
    } else {
        escaped(s.drop_last()).push(s.last())
    }
}

pub fn escape_inline(text: &str) -> (r: String)
    ensures
        r@ == escaped(text@),
{
    let v = chars_of(text);
    let mut out = String::new();
    let mut i: usize = 0;
    while i < v.len()
        invariant
            i <= v.len(),
            out@ == escaped(v@.take(i as int)),
        decreases v.len() - i,
    {
        assert(v@.take(i + 1).drop_last() =~= v@.take(i as int));
        let c = v[i];
        if c == '\\' || c == '*' || c == '_' || c == '[' || c == ']' || c == '`' || c == '<' {
            out.push('\\');
        }
        out.push(c);
        assert(out@ =~= escaped(v@.take(i + 1)));
        i += 1;
    }
    assert(v@.take(v@.len() as int) =~= v@);
    out
}

/// The emphasis marker for a run.
pub open spec fn marker(bold: bool, italic: bool) -> Seq<char> {
    if bold && italic {
        seq!['*', '*', '*']
    } else if bold {
        seq!['*', '*']
    } else {
        seq!['*']
    }
}

/// A run of text as Markdown: escaped, and wrapped in its emphasis marker with
/// any surrounding whitespace moved outside the marker.
pub open spec fn rendered(text: Seq<char>, bold: bool, italic: bool) -> Seq<char> {
    let e = escaped(text);
    if (!bold && !italic) || trim(e).len() == 0 {
        e
    } else {
        e.take(e.len() - trim_start(e).len()) + marker(bold, italic) + trim(e) + marker(bold, italic)
            + e.skip(trim_end(e).len() as int)
    }
}

fn push_marker(out: &mut String, bold: bool, italic: bool)
    ensures
        final(out)@ == old(out)@ + marker(bold, italic),
{
    out.push('*');
    if bold {
        out.push('*');
        if italic {
            out.push('*');
        }
    }
    assert(final(out)@ =~= old(out)@ + marker(bold, italic));
}

/// Emphasis markers must hug the text, so surrounding spaces move outside them.
pub fn render_run(text: &str, bold: bool, italic: bool) -> (r: String)
    ensures
        r@ == rendered(text@, bold, italic),
{
    let escaped_text = escape_inline(text);
    if !bold && !italic {
        return escaped_text;
    }
    let v = chars_of(escaped_text.as_str());
    let (lo, hi) = trim_range(&v, 0, v.len());
    assert(v@.subrange(0, v@.len() as int) =~= v@);
    if lo == hi {
        return escaped_text;
    }
    let start = skip_ws(&v, 0, v.len());
    let end = skip_ws_back(&v, 0, v.len());
    let mut out = String::new();
    push_range(&mut out, &v, 0, start);
    push_marker(&mut out, bold, italic);
    push_range(&mut out, &v, lo, hi);
    push_marker(&mut out, bold, italic);
    push_range(&mut out, &v, end, v.len());
    proof {
        let e = escaped(text@);
        assert(e.take(e.len() - trim_start(e).len()) =~= v@.subrange(0, start as int));
        assert(e.skip(trim_end(e).len() as int) =~= v@.subrange(end as int, v@.len() as int));
        assert(out@ =~= rendered(text@, bold, italic));
    }
    out
}

pub open spec fn is_digit(c: char) -> bool {
    '0' <= c && c <= '9'
}

/// Length of the run of ASCII digits that `s` starts with.
pub open spec fn digit_run(s: Seq<char>) -> int
    decreases s.len(),
{
    if s.len() > 0 && is_digit(s[0]) {
        1 + digit_run(s.drop_first())
    } else {
        0
    }
}

pub proof fn lemma_digit_run(s: Seq<char>, i: int)
    requires
        0 <= i <= s.len(),
        forall|j: int| 0 <= j < i ==> is_digit(s[j]),
        i == s.len() || !is_digit(s[i]),
    ensures
        digit_run(s) == i,
    decreases i,
{
    if i > 0 {
        assert forall|j: int| 0 <= j < i - 1 implies is_digit(s.drop_first()[j]) by {
            assert(s.drop_first()[j] == s[j + 1]);
        }
        lemma_digit_run(s.drop_first(), i - 1);
    }
}

/// Whether Markdown would read the start of a line as a heading, quote, list
/// item or numbered item.
pub open spec fn reads_as_syntax(t: Seq<char>) -> bool {
    ||| t.len() > 0 && (t[0] == '#' || t[0] == '>')
    ||| starts_with(t, seq!['-', ' '])
    ||| starts_with(t, seq!['+', ' '])
    ||| digit_run(t) > 0 && starts_with(t.skip(digit_run(t)), seq!['.', ' '])
}

/// A paragraph's text with its leading whitespace dropped and a backslash put
/// where Markdown would otherwise read the start as syntax.
pub open spec fn line_start_escaped(line: Seq<char>) -> Seq<char> {
    let t = trim_start(line);
    if !reads_as_syntax(t) {
        t
    } else if t.len() > 0 && is_digit(t[0]) {
        t.take(digit_run(t)) + seq!['\\'] + t.skip(digit_run(t))
    } else {
        seq!['\\'] + t
    }
}

/// Markdown reads some line starts as syntax ("# ", "> ", "- ", "1. ").
pub fn escape_line_start(line: &str) -> (r: String)
    ensures
        r@ == line_start_escaped(line@),
{
    let v = chars_of(line);
    let lo = skip_ws(&v, 0, v.len());
    assert(v@.subrange(0, v@.len() as int) =~= v@);
    let ghost t = trim_start(line@);
    assert(t =~= v@.subrange(lo as int, v@.len() as int));
    let mut d = lo;
    while d < v.len() && '0' <= v[d] && v[d] <= '9'
        invariant
            lo <= d <= v.len(),
            forall|j: int| lo <= j < d ==> is_digit(#[trigger] v@[j]),
        decreases v.len() - d,
    {
        d += 1;
    }
    proof {
        assert forall|j: int| 0 <= j < d - lo implies is_digit(t[j]) by {
            assert(t[j] == v@[lo + j]);
        }
        lemma_digit_run(t, d - lo);
    }
    let n = v.len();
    let first_syntax = lo < n && (v[lo] == '#' || v[lo] == '>');
    let dash = lo < n && n - lo > 1 && (v[lo] == '-' || v[lo] == '+') && v[lo + 1] == ' ';
    let numbered = d > lo && d < n && n - d > 1 && v[d] == '.' && v[d + 1] == ' ';
    proof {
        assert(starts_with(t, seq!['-', ' ']) <==> (lo + 1 < n && v@[lo as int] == '-' && v@[lo + 1] == ' ')) by {
            if lo + 1 < n {
                assert(t.take(2) =~= seq![v@[lo as int], v@[lo + 1]]);
            }
        }
        assert(starts_with(t, seq!['+', ' ']) <==> (lo + 1 < n && v@[lo as int] == '+' && v@[lo + 1] == ' ')) by {
            if lo + 1 < n {
                assert(t.take(2) =~= seq![v@[lo as int], v@[lo + 1]]);
            }
        }
        let rest = t.skip(d - lo);
        assert(rest =~= v@.subrange(d as int, n as int));
        assert(starts_with(rest, seq!['.', ' ']) <==> (d + 1 < n && v@[d as int] == '.' && v@[d + 1] == ' ')) by {
            if d + 1 < n {
                assert(rest.take(2) =~= seq![v@[d as int], v@[d + 1]]);
            }
        }
    }
    let mut out = String::new();
    if !(first_syntax || dash || numbered) {
        push_range(&mut out, &v, lo, n);
    } else if d > lo {
        push_range(&mut out, &v, lo, d);
        out.push('\\');
        push_range(&mut out, &v, d, n);
        assert(out@ =~= line_start_escaped(line@));
    } else {
        out.push('\\');
        push_range(&mut out, &v, lo, n);
        assert(out@ =~= line_start_escaped(line@));
    }
    out
}

/// Windows-1252 differs from Latin-1 only in 0x80..=0x9F.
pub open spec fn cp1252_char(byte: u8) -> char {
    match byte {
        0x80u8 => '\u{20ac}',
        0x81u8 => '\u{81}',
        0x82u8 => '\u{201a}',
        0x83u8 => '\u{192}',
        0x84u8 => '\u{201e}',
        0x85u8 => '\u{2026}',
        0x86u8 => '\u{2020}',
        0x87u8 => '\u{2021}',
        0x88u8 => '\u{2c6}',
        0x89u8 => '\u{2030}',
        0x8au8 => '\u{160}',
        0x8bu8 => '\u{2039}',
        0x8cu8 => '\u{152}',
        0x8du8 => '\u{8d}',
        0x8eu8 => '\u{17d}',
        0x8fu8 => '\u{8f}',
        0x90u8 => '\u{90}',
        0x91u8 => '\u{2018}',
        0x92u8 => '\u{2019}',
        0x93u8 => '\u{201c}',
        0x94u8 => '\u{201d}',
        0x95u8 => '\u{2022}',
        0x96u8 => '\u{2013}',
        0x97u8 => '\u{2014}',
        0x98u8 => '\u{2dc}',
        0x99u8 => '\u{2122}',
        0x9au8 => '\u{161}',
        0x9bu8 => '\u{203a}',
        0x9cu8 => '\u{153}',
        0x9du8 => '\u{9d}',
        0x9eu8 => '\u{17e}',
        0x9fu8 => '\u{178}',
        _ => byte as char,
    }
}

pub fn cp1252(byte: u8) -> (c: char)
    ensures
        c == cp1252_char(byte),
{
    match byte {
        0x80u8 => '\u{20ac}',
        0x81u8 => '\u{81}',
        0x82u8 => '\u{201a}',
        0x83u8 => '\u{192}',
        0x84u8 => '\u{201e}',
        0x85u8 => '\u{2026}',
        0x86u8 => '\u{2020}',
        0x87u8 => '\u{2021}',
        0x88u8 => '\u{2c6}',
        0x89u8 => '\u{2030}',
        0x8au8 => '\u{160}',
        0x8bu8 => '\u{2039}',
        0x8cu8 => '\u{152}',
        0x8du8 => '\u{8d}',
        0x8eu8 => '\u{17d}',
        0x8fu8 => '\u{8f}',
        0x90u8 => '\u{90}',
        0x91u8 => '\u{2018}',
        0x92u8 => '\u{2019}',
        0x93u8 => '\u{201c}',
        0x94u8 => '\u{201d}',
        0x95u8 => '\u{2022}',
        0x96u8 => '\u{2013}',
        0x97u8 => '\u{2014}',
        0x98u8 => '\u{2dc}',
        0x99u8 => '\u{2122}',
        0x9au8 => '\u{161}',
        0x9bu8 => '\u{203a}',
        0x9cu8 => '\u{153}',
        0x9du8 => '\u{9d}',
        0x9eu8 => '\u{17e}',
        0x9fu8 => '\u{178}',
        _ => byte as char,
    }
}


/// A run of text with one emphasis: its characters, bold, italic.
pub type RunView = (Seq<char>, bool, bool);

/// The formatting in force inside a group.
#[derive(Clone, Copy, Debug, PartialEq, Eq, Structural)]
pub struct GroupState {
    pub bold: bool,
    pub italic: bool,
    pub skip: bool,
    /// Fallback characters to drop after a `\uN` escape.
    pub uc: usize,
}

/// The formatting at the start of a document and after an unmatched `}`.
pub open spec fn initial_state() -> GroupState {
    GroupState { bold: false, italic: false, skip: false, uc: 1 }
}

impl Default for GroupState {
    fn default() -> (g: Self)
        ensures
            g == initial_state(),
    {
        GroupState { bold: false, italic: false, skip: false, uc: 1 }
    }
}

/// A run of text with one emphasis.
pub struct TextRun {
    pub text: String,
    pub bold: bool,
    pub italic: bool,
}

/// Paragraphs finished so far, and the runs of the one being read.
pub struct Paragraphs {
    pub done: Vec<String>,
    pub runs: Vec<TextRun>,
}

/// `runs` with `c` added, to the last run when its emphasis matches.
pub open spec fn with_char(runs: Seq<RunView>, c: char, bold: bool, italic: bool) -> Seq<RunView> {
    if runs.len() > 0 && runs.last().1 == bold && runs.last().2 == italic {
        runs.update(runs.len() - 1, (runs.last().0.push(c), bold, italic))
    } else {
        runs.push((seq![c], bold, italic))
    }
}

/// The runs rendered one after another.
pub open spec fn rendered_runs(runs: Seq<RunView>) -> Seq<char>
    decreases runs.len(),
{
    if runs.len() == 0 {
        Seq::empty()
    } else {
        rendered_runs(runs.drop_last()) + rendered(runs.last().0, runs.last().1, runs.last().2)
    }
}

/// A finished paragraph: its runs rendered, trailing whitespace dropped, and the
/// line start escaped.
pub open spec fn paragraph_line(runs: Seq<RunView>) -> Seq<char> {
    line_start_escaped(trim_end(rendered_runs(runs)))
}

/// The paragraphs of `ps` that hold more than whitespace.
pub open spec fn nonblank(ps: Seq<Seq<char>>) -> Seq<Seq<char>>
    decreases ps.len(),
{
    if ps.len() == 0 {
        ps
    } else if trim(ps.last()).len() > 0 {
        nonblank(ps.drop_last()).push(ps.last())
    } else {
        nonblank(ps.drop_last())
    }
}

/// The Markdown of a document: every paragraph (the one being read included)
/// that holds more than whitespace, separated by one blank line.
pub open spec fn finished(done: Seq<Seq<char>>, runs: Seq<RunView>) -> Seq<char> {
    join(nonblank(if runs.len() > 0 { done.push(paragraph_line(runs)) } else { done }), "\n\n"@)
}

impl Paragraphs {
    pub open spec fn done_view(&self) -> Seq<Seq<char>> {
        self.done@.map_values(|s: String| s@)
    }

    pub open spec fn runs_view(&self) -> Seq<RunView> {
        self.runs@.map_values(|r: TextRun| (r.text@, r.bold, r.italic))
    }

    pub fn new() -> (p: Paragraphs)
        ensures
            p.done_view() == Seq::<Seq<char>>::empty(),
            p.runs_view() == Seq::<RunView>::empty(),
    {
        let p = Paragraphs { done: Vec::new(), runs: Vec::new() };
        assert(p.done_view() =~= Seq::<Seq<char>>::empty());
        assert(p.runs_view() =~= Seq::<RunView>::empty());
        p
    }

    pub fn push_char(&mut self, c: char, state: &GroupState)
        ensures
            final(self).done_view() == old(self).done_view(),
            final(self).runs_view() == with_char(old(self).runs_view(), c, state.bold, state.italic),
    {
        let n = self.runs.len();
        if n > 0 && self.runs[n - 1].bold == state.bold && self.runs[n - 1].italic == state.italic {
            let mut last = self.runs.pop().unwrap();
            last.text.push(c);
            self.runs.push(last);
        } else {
            let mut t = String::new();
            t.push(c);
            self.runs.push(TextRun { text: t, bold: state.bold, italic: state.italic });
        }
        assert(self.runs_view() =~= with_char(old(self).runs_view(), c, state.bold, state.italic));
    }

    pub fn end_paragraph(&mut self)
        ensures
            final(self).done_view() == old(self).done_view().push(paragraph_line(old(self).runs_view())),
            final(self).runs_view() == Seq::<RunView>::empty(),
    {
        let ghost rv = self.runs_view();
        let mut line = String::new();
        let mut i: usize = 0;
        while i < self.runs.len()
            invariant
                i <= self.runs@.len(),
                rv == self.runs_view(),
                line@ == rendered_runs(rv.take(i as int)),
            decreases self.runs.len() - i,
        {
            assert(rv.take(i + 1).drop_last() =~= rv.take(i as int));
            let r = render_run(self.runs[i].text.as_str(), self.runs[i].bold, self.runs[i].italic);
            push_str(&mut line, r.as_str());
            i += 1;
        }
        assert(rv.take(rv.len() as int) =~= rv);
        let v = chars_of(line.as_str());
        let hi = skip_ws_back(&v, 0, v.len());
        assert(v@.subrange(0, v@.len() as int) =~= v@);
        let kept = string_of(&v, 0, hi);
        let escaped_line = escape_line_start(kept.as_str());
        self.done.push(escaped_line);
        self.runs = Vec::new();
        assert(self.done_view() =~= old(self).done_view().push(paragraph_line(rv)));
        assert(self.runs_view() =~= Seq::<RunView>::empty());
    }

    pub fn finish(self) -> (r: String)
        ensures
            r@ == finished(self.done_view(), self.runs_view()),
    {
        let mut p = self;
        if p.runs.len() > 0 {
            p.end_paragraph();
        }
        let ghost all = p.done_view();
        assert(all == if self.runs_view().len() > 0 {
            self.done_view().push(paragraph_line(self.runs_view()))
        } else {
            self.done_view()
        });
        let mut out = String::new();
        let mut kept: usize = 0;
        let mut i: usize = 0;
        while i < p.done.len()
            invariant
                i <= p.done@.len(),
                all == p.done_view(),
                kept == nonblank(all.take(i as int)).len(),
                kept <= i,
                out@ == join(nonblank(all.take(i as int)), "\n\n"@),
            decreases p.done.len() - i,
        {
            assert(all.take(i + 1).drop_last() =~= all.take(i as int));
            assert(all[i as int] == p.done@[i as int]@);
            if !is_blank(p.done[i].as_str()) {
                proof {
                    lemma_join_push(nonblank(all.take(i as int)), all[i as int], "\n\n"@);
                }
                if kept > 0 {
                    push_str(&mut out, "\n\n");
                }
                push_str(&mut out, p.done[i].as_str());
                kept += 1;
            }
            i += 1;
        }
        assert(all.take(all.len() as int) =~= all);
        out
    }
}

/// The formatting, pending fallback count and paragraphs of a reader.
pub struct Core {
    pub state: GroupState,
    pub pending: nat,
    pub done: Seq<Seq<char>>,
    pub runs: Seq<RunView>,
}

/// Everything a reader carries from one token to the next.
pub struct Scan {
    pub stack: Seq<GroupState>,
    pub group_start: bool,
    pub core: Core,
}

/// How reading one token ends: on with a new state at a new position, a stop at
/// a trailing backslash, or a failure at a backslash before a non-ASCII character.
pub enum Outcome {
    Next(Scan, int),
    Stop(Scan),
    Fail,
}

pub open spec fn core_of(state: GroupState, pending: usize, out: Paragraphs) -> Core {
    Core { state, pending: pending as nat, done: out.done_view(), runs: out.runs_view() }
}

pub open spec fn restyled(c: Core, st: GroupState) -> Core {
    Core { state: st, pending: c.pending, done: c.done, runs: c.runs }
}

pub open spec fn with_pending(c: Core, p: nat) -> Core {
    Core { state: c.state, pending: p, done: c.done, runs: c.runs }
}

/// A character added to the paragraph unless the group is skipped.
pub open spec fn pushed(c: Core, ch: char) -> Core {
    if c.state.skip {
        c
    } else {
        Core {
            state: c.state,
            pending: c.pending,
            done: c.done,
            runs: with_char(c.runs, ch, c.state.bold, c.state.italic),
        }
    }
}

/// A character of body text: dropped in a skipped group or as a pending fallback
/// character, else added.
pub open spec fn emitted(c: Core, ch: char) -> Core {
    if c.state.skip {
        c
    } else if c.pending > 0 {
        with_pending(c, (c.pending - 1) as nat)
    } else {
        pushed(c, ch)
    }
}

/// A paragraph break, outside skipped groups.
pub open spec fn para_ended(c: Core) -> Core {
    if c.state.skip {
        c
    } else {
        Core {
            state: c.state,
            pending: c.pending,
            done: c.done.push(paragraph_line(c.runs)),
            runs: Seq::empty(),
        }
    }
}

pub open spec fn is_ascii_alpha(c: char) -> bool {
    ('a' <= c && c <= 'z') || ('A' <= c && c <= 'Z')
}

pub open spec fn is_ascii(c: char) -> bool {
    c < '\u{80}'
}

/// Whether `c` takes two bytes in UTF-8.
pub open spec fn two_byte(c: char) -> bool {
    '\u{80}' <= c && c <= '\u{7ff}'
}

/// Destinations whose content is never body text.
pub open spec fn is_skipped_dest(w: Seq<char>) -> bool {
    ||| w == "fonttbl"@
    ||| w == "colortbl"@
    ||| w == "stylesheet"@
    ||| w == "info"@
    ||| w == "pict"@
    ||| w == "header"@
    ||| w == "headerl"@
    ||| w == "headerr"@
    ||| w == "headerf"@
    ||| w == "footer"@
    ||| w == "footerl"@
    ||| w == "footerr"@
    ||| w == "footerf"@
    ||| w == "footnote"@
    ||| w == "listtable"@
    ||| w == "listoverridetable"@
    ||| w == "generator"@
    ||| w == "xmlnstbl"@
    ||| w == "rsidtbl"@
    ||| w == "themedata"@
    ||| w == "colorschememapping"@
    ||| w == "latentstyles"@
    ||| w == "datastore"@
    ||| w == "mmathPr"@
    ||| w == "pgdsctbl"@
    ||| w == "object"@
    ||| w == "fldinst"@
    ||| w == "field_instructions"@
    ||| w == "revtbl"@
    ||| w == "filetbl"@
    ||| w == "private"@
    ||| w == "nonshppict"@
    ||| w == "shp"@
    ||| w == "expandedcolortbl"@
    ||| w == "annotation"@
    ||| w == "atnid"@
    ||| w == "atnauthor"@
    ||| w == "comment"@
}

fn skipped_destination(w: &str) -> (r: bool)
    ensures
        r == is_skipped_dest(w@),
{
    same_text(w, "fonttbl")
        || same_text(w, "colortbl")
        || same_text(w, "stylesheet")
        || same_text(w, "info")
        || same_text(w, "pict")
        || same_text(w, "header")
        || same_text(w, "headerl")
        || same_text(w, "headerr")
        || same_text(w, "headerf")
        || same_text(w, "footer")
        || same_text(w, "footerl")
        || same_text(w, "footerr")
        || same_text(w, "footerf")
        || same_text(w, "footnote")
        || same_text(w, "listtable")
        || same_text(w, "listoverridetable")
        || same_text(w, "generator")
        || same_text(w, "xmlnstbl")
        || same_text(w, "rsidtbl")
        || same_text(w, "themedata")
        || same_text(w, "colorschememapping")
        || same_text(w, "latentstyles")
        || same_text(w, "datastore")
        || same_text(w, "mmathPr")
        || same_text(w, "pgdsctbl")
        || same_text(w, "object")
        || same_text(w, "fldinst")
        || same_text(w, "field_instructions")
        || same_text(w, "revtbl")
        || same_text(w, "filetbl")
        || same_text(w, "private")
        || same_text(w, "nonshppict")
        || same_text(w, "shp")
        || same_text(w, "expandedcolortbl")
        || same_text(w, "annotation")
        || same_text(w, "atnid")
        || same_text(w, "atnauthor")
        || same_text(w, "comment")
}

/// The character a `\uN` escape names: negative values count from 65536.
pub open spec fn code_char(n: i32) -> Option<char> {
    let code: int = if n < 0 { n + 65536 } else { n as int };
    if 0 <= code <= 0x10FFFF && !(0xD800 <= code <= 0xDFFF) {
        Some(code as char)
    } else {
        None
    }
}

/// `char::from_u32`: `Some` exactly for Unicode scalar values, holding that value.
#[verifier::external_body]
fn char_from_u32(code: u32) -> (r: Option<char>)
    ensures
        r == (if code <= 0x10FFFF && !(0xD800 <= code && code <= 0xDFFF) {
            Some(code as char)
        } else {
            None
        }),
{
    char::from_u32(code)
}

fn code_to_char(n: i32) -> (r: Option<char>)
    ensures
        r == code_char(n),
{
    let code: i64 = if n < 0 { n as i64 + 65536 } else { n as i64 };
    if 0 <= code && code <= 0x10FFFF {
        char_from_u32(code as u32)
    } else {
        None
    }
}

/// What `\uc` sets: its parameter, at least zero, or 1 without one.
pub open spec fn uc_of(param: Option<i32>) -> usize {
    match param {
        Some(n) => if n < 0 { 0 } else { n as usize },
        None => 1,
    }
}

/// The effect of a control word with its parameter.
pub open spec fn word_applied(c: Core, group_start: bool, w: Seq<char>, param: Option<i32>) -> Core {
    let c1 = if group_start && is_skipped_dest(w) {
        restyled(c, GroupState { bold: c.state.bold, italic: c.state.italic, skip: true, uc: c.state.uc })
    } else {
        c
    };
    let st = c1.state;
    if w == "par"@ || w == "sect"@ || w == "page"@ {
        para_ended(c1)
    } else if w == "line"@ {
        emitted(c1, '\n')
    } else if w == "tab"@ {
        emitted(c1, '\t')
    } else if w == "b"@ {
        restyled(c1, GroupState { bold: param != Some(0i32), italic: st.italic, skip: st.skip, uc: st.uc })
    } else if w == "i"@ {
        restyled(c1, GroupState { bold: st.bold, italic: param != Some(0i32), skip: st.skip, uc: st.uc })
    } else if w == "plain"@ {
        restyled(c1, GroupState { bold: false, italic: false, skip: st.skip, uc: st.uc })
    } else if w == "uc"@ {
        restyled(c1, GroupState { bold: st.bold, italic: st.italic, skip: st.skip, uc: uc_of(param) })
    } else if w == "u"@ {
        match param {
            Some(n) => with_pending(
                match code_char(n) {
                    Some(ch) => pushed(c1, ch),
                    None => c1,
                },
                st.uc as nat,
            ),
            None => c1,
        }
    } else if w == "emdash"@ {
        emitted(c1, '\u{2014}')
    } else if w == "endash"@ {
        emitted(c1, '\u{2013}')
    } else if w == "lquote"@ {
        emitted(c1, '\u{2018}')
    } else if w == "rquote"@ {
        emitted(c1, '\u{2019}')
    } else if w == "ldblquote"@ {
        emitted(c1, '\u{201c}')
    } else if w == "rdblquote"@ {
        emitted(c1, '\u{201d}')
    } else if w == "bullet"@ {
        emitted(c1, '\u{2022}')
    } else {
        c1
    }
}

proof fn lemma_style_words_distinct()
    ensures
        "plain"@ != "par"@ && "plain"@ != "sect"@ && "plain"@ != "page"@ && "plain"@ != "line"@ && "plain"@
            != "tab"@ && "plain"@ != "b"@ && "plain"@ != "i"@,
        "b"@ != "par"@ && "b"@ != "sect"@ && "b"@ != "page"@ && "b"@ != "line"@ && "b"@ != "tab"@,
        "i"@ != "par"@ && "i"@ != "sect"@ && "i"@ != "page"@ && "i"@ != "line"@ && "i"@ != "tab"@ && "i"@ != "b"@,
{
    reveal_strlit("plain");
    reveal_strlit("par");
    reveal_strlit("sect");
    reveal_strlit("page");
    reveal_strlit("line");
    reveal_strlit("tab");
    reveal_strlit("b");
    reveal_strlit("i");
    assert("plain"@.len() != "par"@.len());
    assert("plain"@.len() != "sect"@.len());
    assert("plain"@.len() != "page"@.len());
    assert("plain"@.len() != "line"@.len());
    assert("plain"@.len() != "tab"@.len());
    assert("plain"@.len() != "b"@.len());
    assert("plain"@.len() != "i"@.len());
    assert("b"@.len() != "par"@.len());
    assert("b"@.len() != "sect"@.len());
    assert("b"@.len() != "page"@.len());
    assert("b"@.len() != "line"@.len());
    assert("b"@.len() != "tab"@.len());
    assert("i"@.len() != "par"@.len());
    assert("i"@.len() != "sect"@.len());
    assert("i"@.len() != "page"@.len());
    assert("i"@.len() != "line"@.len());
    assert("i"@.len() != "tab"@.len());
    assert("i"@[0] != "b"@[0]);
}

/// `\plain` turns bold and italic off and writes nothing: the text so far
/// stays as it was, and any text that follows it (until another `\b` or
/// `\i`) is rendered without `**` or `*` markers.
pub proof fn law_plain_clears_emphasis(c: Core, group_start: bool, param: Option<i32>, text: Seq<char>)
    ensures
        !word_applied(c, group_start, "plain"@, param).state.bold,
        !word_applied(c, group_start, "plain"@, param).state.italic,
        word_applied(c, group_start, "plain"@, param).done == c.done,
        word_applied(c, group_start, "plain"@, param).runs == c.runs,
        word_applied(c, group_start, "plain"@, param).pending == c.pending,
        rendered(
            text,
            word_applied(c, group_start, "plain"@, param).state.bold,
            word_applied(c, group_start, "plain"@, param).state.italic,
        ) == escaped(text),
{
    lemma_style_words_distinct();
}

/// `\b` turns bold on, and `\b0` off, leaving italic as it was; `\i` does the
/// same for italic, leaving bold as it was. Neither writes anything.
pub proof fn law_emphasis_words(c: Core, group_start: bool, param: Option<i32>)
    ensures
        word_applied(c, group_start, "b"@, param).state.bold == (param != Some(0i32)),
        word_applied(c, group_start, "b"@, param).state.italic == c.state.italic,
        word_applied(c, group_start, "b"@, param).runs == c.runs,
        word_applied(c, group_start, "i"@, param).state.italic == (param != Some(0i32)),
        word_applied(c, group_start, "i"@, param).state.bold == c.state.bold,
        word_applied(c, group_start, "i"@, param).runs == c.runs,
{
    lemma_style_words_distinct();
}

fn emit(c: char, state: &GroupState, pending: &mut usize, out: &mut Paragraphs)
    ensures
        core_of(*state, *final(pending), *final(out)) == emitted(core_of(*state, *old(pending), *old(out)), c),
{
    if state.skip {
        return;
    }
    if *pending > 0 {
        *pending = *pending - 1;
        return;
    }
    out.push_char(c, state);
}

fn end_paragraph_unless_skipped(state: &GroupState, out: &mut Paragraphs)
    ensures
        forall|p: usize| core_of(*state, p, *final(out)) == para_ended(core_of(*state, p, *old(out))),
{
    if !state.skip {
        out.end_paragraph();
    }
}

fn apply_word(
    w: &str,
    param: Option<i32>,
    group_start: bool,
    state: &mut GroupState,
    pending: &mut usize,
    out: &mut Paragraphs,
)
    ensures
        core_of(*final(state), *final(pending), *final(out)) == word_applied(
            core_of(*old(state), *old(pending), *old(out)),
            group_start,
            w@,
            param,
        ),
{
    if group_start && skipped_destination(w) {
        state.skip = true;
    }
    if same_text(w, "par") || same_text(w, "sect") || same_text(w, "page") {
        end_paragraph_unless_skipped(state, out);
    } else if same_text(w, "line") {
        emit('\n', state, pending, out);
    } else if same_text(w, "tab") {
        emit('\t', state, pending, out);
    } else if same_text(w, "b") {
        state.bold = !(param == Some(0i32));
    } else if same_text(w, "i") {
        state.italic = !(param == Some(0i32));
    } else if same_text(w, "plain") {
        state.bold = false;
        state.italic = false;
    } else if same_text(w, "uc") {
        state.uc = match param {
            Some(n) => if n < 0 { 0 } else { n as usize },
            None => 1,
        };
    } else if same_text(w, "u") {
        match param {
            Some(n) => {
                match code_to_char(n) {
                    Some(ch) => {
                        if !state.skip {
                            out.push_char(ch, state);
                        }
                    },
                    None => {},
                }
                *pending = state.uc;
            },
            None => {},
        }
    } else if same_text(w, "emdash") {
        emit('\u{2014}', state, pending, out);
    } else if same_text(w, "endash") {
        emit('\u{2013}', state, pending, out);
    } else if same_text(w, "lquote") {
        emit('\u{2018}', state, pending, out);
    } else if same_text(w, "rquote") {
        emit('\u{2019}', state, pending, out);
    } else if same_text(w, "ldblquote") {
        emit('\u{201c}', state, pending, out);
    } else if same_text(w, "rdblquote") {
        emit('\u{201d}', state, pending, out);
    } else if same_text(w, "bullet") {
        emit('\u{2022}', state, pending, out);
    }
}


/// End of the run of ASCII letters starting at `i`.
pub open spec fn alpha_end(v: Seq<char>, i: int) -> int
    decreases v.len() - i,
{
    if 0 <= i < v.len() && is_ascii_alpha(v[i]) {
        alpha_end(v, i + 1)
    } else {
        i
    }
}

/// End of the run of ASCII digits starting at `i`.
pub open spec fn digits_end(v: Seq<char>, i: int) -> int
    decreases v.len() - i,
{
    if 0 <= i < v.len() && is_digit(v[i]) {
        digits_end(v, i + 1)
    } else {
        i
    }
}

/// The number written by a run of ASCII digits.
pub open spec fn digits_value(d: Seq<char>) -> int
    decreases d.len(),
{
    if d.len() == 0 {
        0
    } else {
        digits_value(d.drop_last()) * 10 + (d.last() as int - '0' as int)
    }
}

/// The numeric parameter after a control word ending at `j`, as `i32` parses
/// it (`None` when absent, a lone `-`, or out of range), and where it ends.
pub open spec fn param_at(v: Seq<char>, j: int) -> (Option<i32>, int) {
    if j < v.len() && (v[j] == '-' || is_digit(v[j])) {
        let k = digits_end(v, j + 1);
        let neg = v[j] == '-';
        let val: int = if neg {
            -digits_value(v.subrange(j + 1, k))
        } else {
            digits_value(v.subrange(j, k))
        };
        if !(neg && k == j + 1) && i32::MIN <= val <= i32::MAX {
            (Some(val as i32), k)
        } else {
            (None, k)
        }
    } else {
        (None, j)
    }
}

/// The value of a hex digit, or -1.
pub open spec fn hex_val(c: char) -> int {
    if '0' <= c <= '9' {
        c as int - '0' as int
    } else if 'a' <= c <= 'f' {
        c as int - 'a' as int + 10
    } else if 'A' <= c <= 'F' {
        c as int - 'A' as int + 10
    } else {
        -1
    }
}

/// Two characters read as a hexadecimal byte, as `u8::from_str_radix(_, 16)`
/// reads them (a leading `+` is allowed).
pub open spec fn hex_byte(a: char, b: char) -> Option<u8> {
    if hex_val(a) >= 0 && hex_val(b) >= 0 {
        Some((hex_val(a) * 16 + hex_val(b)) as u8)
    } else if a == '+' && hex_val(b) >= 0 {
        Some(hex_val(b) as u8)
    } else {
        None
    }
}

/// The effect of `\'` followed by what starts at `j`, and where reading goes on.
pub open spec fn hex_applied(v: Seq<char>, j: int, c: Core) -> (Core, int) {
    if j + 1 < v.len() && is_ascii(v[j]) && is_ascii(v[j + 1]) {
        match hex_byte(v[j], v[j + 1]) {
            Some(b) => (emitted(c, cp1252_char(b)), j + 2),
            None => (c, j + 2),
        }
    } else if 0 <= j < v.len() && two_byte(v[j]) {
        (c, j + 1)
    } else {
        (c, j)
    }
}

/// The effect of a control symbol `sym` (a backslash and one ASCII
/// non-letter), reading on from `j`.
pub open spec fn symbol_applied(v: Seq<char>, j: int, c: Core, sym: char) -> (Core, int) {
    if sym == '*' {
        (restyled(c, GroupState { bold: c.state.bold, italic: c.state.italic, skip: true, uc: c.state.uc }), j)
    } else if sym == '\'' {
        hex_applied(v, j, c)
    } else if sym == '~' {
        (emitted(c, '\u{a0}'), j)
    } else if sym == '_' {
        (emitted(c, '\u{2011}'), j)
    } else if sym == '-' {
        (c, j)
    } else if sym == '\n' || sym == '\r' {
        (para_ended(c), j)
    } else {
        (emitted(c, sym), j)
    }
}

/// Reading the token at `i`.
pub open spec fn step(v: Seq<char>, i: int, s: Scan) -> Outcome {
    let ch = v[i];
    if ch == '{' {
        Outcome::Next(Scan { stack: s.stack.push(s.core.state), group_start: true, core: s.core }, i + 1)
    } else if ch == '}' {
        let st = if s.stack.len() > 0 { s.stack.last() } else { initial_state() };
        let rest = if s.stack.len() > 0 { s.stack.drop_last() } else { s.stack };
        Outcome::Next(Scan { stack: rest, group_start: false, core: with_pending(restyled(s.core, st), 0) }, i + 1)
    } else if ch == '\\' {
        if i + 1 >= v.len() {
            Outcome::Stop(s)
        } else if is_ascii_alpha(v[i + 1]) {
            let e = alpha_end(v, i + 1);
            let (param, k) = param_at(v, e);
            let after = after_param(v, k);
            Outcome::Next(
                Scan {
                    stack: s.stack,
                    group_start: false,
                    core: word_applied(s.core, s.group_start, v.subrange(i + 1, e), param),
                },
                after,
            )
        } else if !is_ascii(v[i + 1]) {
            Outcome::Fail
        } else {
            let (c2, j) = symbol_applied(v, i + 2, s.core, v[i + 1]);
            Outcome::Next(Scan { stack: s.stack, group_start: false, core: c2 }, j)
        }
    } else if ch == '\r' || ch == '\n' {
        Outcome::Next(Scan { stack: s.stack, group_start: false, core: s.core }, i + 1)
    } else {
        Outcome::Next(Scan { stack: s.stack, group_start: false, core: emitted(s.core, ch) }, i + 1)
    }
}

/// Reading from `i` to the end; `None` where the reader would fail.
pub open spec fn scan(v: Seq<char>, i: int, s: Scan) -> Option<Scan>
    decreases v.len() - i,
{
    if i < 0 || i >= v.len() {
        Some(s)
    } else {
        match step(v, i, s) {
            Outcome::Next(t, j) => if j <= i || j > v.len() {
                Some(t)
            } else {
                scan(v, j, t)
            },
            Outcome::Stop(t) => Some(t),
            Outcome::Fail => None,
        }
    }
}

/// The reader's state before the first token.
pub open spec fn start_scan() -> Scan {
    Scan {
        stack: Seq::empty(),
        group_start: false,
        core: Core { state: initial_state(), pending: 0, done: Seq::empty(), runs: Seq::empty() },
    }
}

/// Whether the reader gets through `rtf`: every backslash it reads as the start
/// of an escape is followed by an ASCII character, or ends the text.
pub open spec fn readable(rtf: Seq<char>) -> bool {
    scan(rtf, 0, start_scan()) is Some
}

/// The Markdown an RTF text reads as.
pub open spec fn markdown(rtf: Seq<char>) -> Seq<char> {
    let s = scan(rtf, 0, start_scan())->0;
    finished(s.core.done, s.core.runs)
}

proof fn lemma_alpha_end(v: Seq<char>, i: int, k: int)
    requires
        0 <= i <= k <= v.len(),
        forall|j: int| i <= j < k ==> is_ascii_alpha(v[j]),
        k == v.len() || !is_ascii_alpha(v[k]),
    ensures
        alpha_end(v, i) == k,
    decreases k - i,
{
    if i < k {
        lemma_alpha_end(v, i + 1, k);
    }
}

proof fn lemma_digits_end(v: Seq<char>, i: int, k: int)
    requires
        0 <= i <= k <= v.len(),
        forall|j: int| i <= j < k ==> is_digit(v[j]),
        k == v.len() || !is_digit(v[k]),
    ensures
        digits_end(v, i) == k,
    decreases k - i,
{
    if i < k {
        lemma_digits_end(v, i + 1, k);
    }
}

/// Where reading goes on after a parameter ending at `k`: a single space
/// after a control word is part of it.
pub open spec fn after_param(v: Seq<char>, k: int) -> int {
    if 0 <= k < v.len() && v[k] == ' ' { k + 1 } else { k }
}

/// Reads a control word's letters from `i` and its parameter.
fn read_word(v: &Vec<char>, i: usize) -> (r: (usize, Option<i32>, usize))
    requires
        i < v.len(),
        is_ascii_alpha(v@[i as int]),
    ensures
        r.0 == alpha_end(v@, i as int),
        i < r.0 <= r.2 <= v.len(),
        r.1 == param_at(v@, r.0 as int).0,
        r.2 == after_param(v@, param_at(v@, r.0 as int).1),
{
    let mut e = i;
    while e < v.len() && (('a' <= v[e] && v[e] <= 'z') || ('A' <= v[e] && v[e] <= 'Z'))
        invariant
            i <= e <= v.len(),
            forall|j: int| i <= j < e ==> is_ascii_alpha(#[trigger] v@[j]),
        decreases v.len() - e,
    {
        e += 1;
    }
    proof {
        lemma_alpha_end(v@, i as int, e as int);
    }
    if e < v.len() && (v[e] == '-' || ('0' <= v[e] && v[e] <= '9')) {
        let neg = v[e] == '-';
        let first: usize = if neg { e + 1 } else { e };
        let mut k = e + 1;
        let mut mag: u64 = if neg { 0 } else { (v[e] as u32 - '0' as u32) as u64 };
        let mut big = false;
        proof {
            if !neg {
                let d = v@.subrange(e as int, e + 1);
                assert(d.drop_last() =~= Seq::<char>::empty());
                assert(digits_value(d.drop_last()) == 0);
                assert(d.last() == v@[e as int]);
                assert(digits_value(d) == v@[e as int] as int - '0' as int);
            } else {
                assert(v@.subrange(first as int, k as int) =~= Seq::<char>::empty());
            }
        }
        while k < v.len() && '0' <= v[k] && v[k] <= '9'
            invariant
                e < first <= k || (first == e && e < k),
                first <= k <= v.len(),
                e + 1 <= k,
                forall|j: int| e + 1 <= j < k ==> is_digit(#[trigger] v@[j]),
                big ==> digits_value(v@.subrange(first as int, k as int)) > 2147483648,
                !big ==> mag == digits_value(v@.subrange(first as int, k as int)) && mag <= 2147483648,
            decreases v.len() - k,
        {
            let d = (v[k] as u32 - '0' as u32) as u64;
            assert(v@.subrange(first as int, k + 1).drop_last() =~= v@.subrange(first as int, k as int));
            if !big {
                mag = mag * 10 + d;
                if mag > 2147483648 {
                    big = true;
                }
            }
            k += 1;
        }
        proof {
            lemma_digits_end(v@, e + 1, k as int);
            let (p, q) = param_at(v@, e as int);
            assert(q == k);
        }
        let param: Option<i32> = if neg {
            if k == e + 1 || big {
                None
            } else {
                Some((0i64 - mag as i64) as i32)
            }
        } else if big || mag > 2147483647 {
            None
        } else {
            Some(mag as i32)
        };
        let after = if k < v.len() && v[k] == ' ' { k + 1 } else { k };
        (e, param, after)
    } else {
        let after = if e < v.len() && v[e] == ' ' { e + 1 } else { e };
        (e, None, after)
    }
}


fn ascii_char(c: char) -> (r: bool)
    ensures
        r == is_ascii(c),
{
    c <= '\u{7f}'
}

fn hex_digit(c: char) -> (r: i32)
    ensures
        r == hex_val(c),
{
    if '0' <= c && c <= '9' {
        (c as u32 - '0' as u32) as i32
    } else if 'a' <= c && c <= 'f' {
        (c as u32 - 'a' as u32) as i32 + 10
    } else if 'A' <= c && c <= 'F' {
        (c as u32 - 'A' as u32) as i32 + 10
    } else {
        -1
    }
}

pub(crate) fn hex_pair(a: char, b: char) -> (r: Option<u8>)
    ensures
        r == hex_byte(a, b),
{
    let ha = hex_digit(a);
    let hb = hex_digit(b);
    if ha >= 0 && hb >= 0 {
        Some((ha * 16 + hb) as u8)
    } else if a == '+' && hb >= 0 {
        Some(hb as u8)
    } else {
        None
    }
}

fn apply_symbol(
    v: &Vec<char>,
    j: usize,
    sym: char,
    state: &mut GroupState,
    pending: &mut usize,
    out: &mut Paragraphs,
) -> (k: usize)
    requires
        j <= v.len(),
    ensures
        j <= k <= v.len(),
        (core_of(*final(state), *final(pending), *final(out)), k as int) == symbol_applied(
            v@,
            j as int,
            core_of(*old(state), *old(pending), *old(out)),
            sym,
        ),
{
    if sym == '*' {
        state.skip = true;
        j
    } else if sym == '\'' {
        if j < v.len() && v.len() - j >= 2 && ascii_char(v[j]) && ascii_char(v[j + 1]) {
            match hex_pair(v[j], v[j + 1]) {
                Some(b) => emit(cp1252(b), state, pending, out),
                None => {},
            }
            j + 2
        } else if j < v.len() && '\u{80}' <= v[j] && v[j] <= '\u{7ff}' {
            j + 1
        } else {
            j
        }
    } else if sym == '~' {
        emit('\u{a0}', state, pending, out);
        j
    } else if sym == '_' {
        emit('\u{2011}', state, pending, out);
        j
    } else if sym == '-' {
        j
    } else if sym == '\n' || sym == '\r' {
        end_paragraph_unless_skipped(state, out);
        j
    } else {
        emit(sym, state, pending, out);
        j
    }
}

pub open spec fn scan_of(stack: Seq<GroupState>, group_start: bool, core: Core) -> Scan {
    Scan { stack, group_start, core }
}

/// Converts RTF to Markdown paragraphs.
pub fn rtf_to_markdown(rtf: &str) -> (r: String)
    requires
        readable(rtf@),
    ensures
        r@ == markdown(rtf@),
{
    match try_rtf_to_markdown(rtf) {
        Some(m) => m,
        None => String::new(),
    }
}

/// The Markdown an RTF text reads as, or `None` when a backslash in it is
/// followed by a character outside ASCII, which the reader cannot take.
pub fn try_rtf_to_markdown(rtf: &str) -> (r: Option<String>)
    ensures
        r is Some <==> readable(rtf@),
        r matches Some(m) ==> m@ == markdown(rtf@),
{
    let v = chars_of(rtf);
    let mut stack: Vec<GroupState> = Vec::new();
    let mut state = GroupState::default();
    let mut out = Paragraphs::new();
    // After `\uN`, this many following characters are the ANSI fallback.
    let mut pending: usize = 0;
    // Set right after `{` so we can recognise `{\*\dest ...}` and `{\fonttbl ...}`.
    let mut group_start = false;
    let mut i: usize = 0;
    assert(scan_of(stack@, group_start, core_of(state, pending, out)) == start_scan());
    while i < v.len()
        invariant
            i <= v.len(),
            v@ == rtf@,
            scan(v@, i as int, scan_of(stack@, group_start, core_of(state, pending, out))) == scan(
                v@,
                0,
                start_scan(),
            ),
        decreases v.len() - i,
    {
        let ghost s0 = scan_of(stack@, group_start, core_of(state, pending, out));
        let c = v[i];
        if c == '{' {
            stack.push(state);
            group_start = true;
            i += 1;
        } else if c == '}' {
            match stack.pop() {
                Some(st) => {
                    state = st;
                },
                None => {
                    state = GroupState::default();
                },
            }
            pending = 0;
            group_start = false;
            i += 1;
        } else if c == '\\' {
            if v.len() - i <= 1 {
                // a trailing backslash ends the text
                i = v.len();
            } else {
                let next = v[i + 1];
                if ('a' <= next && next <= 'z') || ('A' <= next && next <= 'Z') {
                    let (e, param, after) = read_word(&v, i + 1);
                    let word = string_of(&v, i + 1, e);
                    apply_word(word.as_str(), param, group_start, &mut state, &mut pending, &mut out);
                    group_start = false;
                    i = after;
                } else {
                    if !(next < '\u{80}') {
                        assert(!is_ascii(next));
                        assert(scan(v@, i as int, s0) is None);
                        return None;
                    }
                    let k = apply_symbol(&v, i + 2, next, &mut state, &mut pending, &mut out);
                    group_start = false;
                    i = k;
                }
            }
        } else if c == '\r' || c == '\n' {
            group_start = false;
            i += 1;
        } else {
            emit(c, &state, &mut pending, &mut out);
            group_start = false;
            i += 1;
        }
    }
    Some(out.finish())
}

} // verus!
