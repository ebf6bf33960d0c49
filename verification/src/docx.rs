//! Word documents as Markdown: heading levels from paragraph styles, runs of
//! formatted text, and the blocks joined into one writing.

use vstd::prelude::*;
use crate::export::hashes;
use crate::import::{find_from, find_pattern};
use crate::xml::{attr_views, piece_view, entity_text, entity_value, piece_views, read_pieces, read_shape, xml_pieces, XmlPiece};
use crate::text::{
    chars_of, is_ws, lowercase, push_str, replace_all, trimmed, same_text, skip_ws, skip_ws_back, starts_with,
    string_of, to_lowercase, trim, trim_end, trim_range, trim_start,
};

verus! {

/// A block of a Word document: a heading (with level) or body Markdown.
#[derive(Debug, Clone, PartialEq, Eq)]
pub enum DocBlock {
    Heading(u8, String),
    Body(String),
}

/// An ASCII digit.
pub open spec fn is_ascii_digit(c: char) -> bool {
    '0' <= c <= '9'
}

/// The ASCII digits of `s`, in order.
pub open spec fn digits_of(s: Seq<char>) -> Seq<char>
    decreases s.len(),
{
    if s.len() == 0 {
        Seq::empty()
    } else if is_ascii_digit(s.last()) {
        digits_of(s.drop_last()).push(s.last())
    } else {
        digits_of(s.drop_last())
    }
}

/// The number that a string of ASCII digits spells.
pub open spec fn digits_value(s: Seq<char>) -> nat
    decreases s.len(),
{
    if s.len() == 0 {
        0
    } else {
        digits_value(s.drop_last()) * 10 + (s.last() as nat - '0' as nat) as nat
    }
}

/// `p` stands somewhere in `s`.
pub open spec fn contains_text(s: Seq<char>, p: Seq<char>) -> bool {
    find_from(s, p, 0) is Some
}

/// A lower-cased style id that names a heading in one of the languages Word
/// is commonly used in.
pub open spec fn heading_word_in(lower: Seq<char>) -> bool {
    ||| contains_text(lower, "heading"@)
    ||| contains_text(lower, "berschrift"@)
    ||| contains_text(lower, "titre"@)
    ||| contains_text(lower, "titolo"@)
    ||| contains_text(lower, "título"@)
    ||| contains_text(lower, "kop"@)
}

/// The heading level a paragraph style gives: 1 for a title, else the number
/// in a heading style's id when it is from 1 to 6.
pub open spec fn style_level(style: Seq<char>) -> Option<nat> {
    let lower = lowercase(style);
    if lower == "title"@ {
        Some(1)
    } else if heading_word_in(lower) && digits_of(lower).len() > 0 && 1 <= digits_value(digits_of(lower))
        <= 6 {
        Some(digits_value(digits_of(lower)))
    } else {
        None
    }
}

fn contains_word(v: &Vec<char>, w: &str) -> (r: bool)
    requires
        w@.len() > 0,
    ensures
        r == contains_text(v@, w@),
{
    let p = chars_of(w);
    find_pattern(v, &p, 0).is_some()
}

/// Heading level from a paragraph style id like "Heading1", "heading 2", "Titre1".
pub fn heading_from_style(style: &str) -> (r: Option<u8>)
    ensures
        match (r, style_level(style@)) {
            (Some(a), Some(b)) => a == b,
            (None, None) => true,
            _ => false,
        },
{
    proof {
        reveal_strlit("title");
        reveal_strlit("heading");
        reveal_strlit("berschrift");
        reveal_strlit("titre");
        reveal_strlit("titolo");
        reveal_strlit("título");
        reveal_strlit("kop");
    }
    let lower = to_lowercase(style);
    if same_text(lower.as_str(), "title") {
        return Some(1);
    }
    let v = chars_of(lower.as_str());
    let looks = contains_word(&v, "heading") || contains_word(&v, "berschrift") || contains_word(&v, "titre")
        || contains_word(&v, "titolo") || contains_word(&v, "título") || contains_word(&v, "kop");
    if !looks {
        return None;
    }
    // The value so far, or 7 once it is past 6 (it can only grow).
    let mut value: u8 = 0;
    let mut count: usize = 0;
    let mut i: usize = 0;
    assert(v@.take(0) =~= Seq::<char>::empty());
    while i < v.len()
        invariant
            i <= v@.len(),
            count == digits_of(v@.take(i as int)).len(),
            digits_value(digits_of(v@.take(i as int))) <= 6 ==> value == digits_value(digits_of(v@.take(i as int))),
            digits_value(digits_of(v@.take(i as int))) > 6 ==> value == 7,
            count <= i,
        decreases v.len() - i,
    {
        let c = v[i];
        let ghost ds = digits_of(v@.take(i as int));
        assert(v@.take(i + 1).drop_last() =~= v@.take(i as int));
        assert(v@.take(i + 1).last() == c);
        if '0' <= c && c <= '9' {
            proof {
                assert(digits_of(v@.take(i + 1)) == ds.push(c));
                assert(ds.push(c).drop_last() =~= ds);
                assert(digits_value(ds.push(c)) == digits_value(ds) * 10 + (c as nat - '0' as nat) as nat);
            }
            let d: u8 = (c as u32 - '0' as u32) as u8;
            if value > 6 {
                value = 7;
            } else {
                let next: u8 = value * 10 + d;
                value = if next > 6 { 7 } else { next };
            }
            count += 1;
        }
        i += 1;
    }
    assert(v@.take(v@.len() as int) =~= v@);
    if count > 0 && 1 <= value && value <= 6 {
        Some(value)
    } else {
        None
    }
}

/// A run of text with its bold and italic flags, as plain values.
pub open spec fn run_view(r: (String, bool, bool)) -> (Seq<char>, bool, bool) {
    (r.0@, r.1, r.2)
}

pub open spec fn run_views(rs: Seq<(String, bool, bool)>) -> Seq<(Seq<char>, bool, bool)> {
    rs.map_values(|r: (String, bool, bool)| run_view(r))
}

/// Neighbouring runs with the same formatting joined into one.
pub open spec fn merged(rs: Seq<(Seq<char>, bool, bool)>) -> Seq<(Seq<char>, bool, bool)>
    decreases rs.len(),
{
    if rs.len() == 0 {
        Seq::empty()
    } else {
        let m = merged(rs.drop_last());
        let r = rs.last();
        if m.len() > 0 && m.last().1 == r.1 && m.last().2 == r.2 {
            m.drop_last().push((m.last().0 + r.0, r.1, r.2))
        } else {
            m.push(r)
        }
    }
}

/// Joins neighbouring runs that have the same formatting.
pub fn merge_runs(runs: Vec<(String, bool, bool)>) -> (r: Vec<(String, bool, bool)>)
    ensures
        run_views(r@) == merged(run_views(runs@)),
{
    let mut out: Vec<(String, bool, bool)> = Vec::new();
    let mut i: usize = 0;
    assert(run_views(runs@).take(0) =~= Seq::<(Seq<char>, bool, bool)>::empty());
    while i < runs.len()
        invariant
            i <= runs@.len(),
            run_views(out@) == merged(run_views(runs@).take(i as int)),
        decreases runs.len() - i,
    {
        let text = runs[i].0.clone();
        let bold = runs[i].1;
        let italic = runs[i].2;
        let ghost before = run_views(out@);
        assert(run_views(runs@).take(i + 1).drop_last() =~= run_views(runs@).take(i as int));
        assert(run_views(runs@).take(i + 1).last() == run_view(runs@[i as int]));
        let n = out.len();
        if n > 0 && out[n - 1].1 == bold && out[n - 1].2 == italic {
            let (mut last, b, it) = out.pop().unwrap();
            assert(run_view((last, b, it)) == before.last());
            push_str(&mut last, text.as_str());
            out.push((last, b, it));
            assert(run_views(out@) =~= before.drop_last().push((before.last().0 + text@, bold, italic)));
        } else {
            out.push((text, bold, italic));
            assert(run_views(out@) =~= before.push((runs@[i as int].0@, bold, italic)));
        }
        i += 1;
    }
    assert(run_views(runs@).take(runs@.len() as int) =~= run_views(runs@));
    out
}

/// Characters that Markdown would read as syntax inside a run of Word text.
pub open spec fn run_special(c: char) -> bool {
    c == '\\' || c == '*' || c == '_' || c == '[' || c == ']' || c == '`' || c == '<'
}

/// `s` with a backslash before each character Markdown would read as syntax.
pub open spec fn run_escaped(s: Seq<char>) -> Seq<char>
    decreases s.len(),
{
    if s.len() == 0 {
        Seq::empty()
    } else {
        let e = run_escaped(s.drop_last());
        if run_special(s.last()) {
            e.push('\\').push(s.last())
        } else {
            e.push(s.last())
        }
    }
}

/// The Markdown emphasis for bold and/or italic text.
pub open spec fn emphasis_marker(bold: bool, italic: bool) -> Seq<char> {
    if bold && italic {
        "***"@
    } else if bold {
        "**"@
    } else {
        "*"@
    }
}

/// A run of Word text as Markdown: escaped, and wrapped in emphasis markers
/// inside its surrounding whitespace when it is bold or italic.
pub open spec fn docx_run(text: Seq<char>, bold: bool, italic: bool) -> Seq<char> {
    let e = run_escaped(text);
    if (!bold && !italic) || trim(e).len() == 0 {
        e
    } else {
        e.take(e.len() - trim_start(e).len()) + emphasis_marker(bold, italic) + trim(e) + emphasis_marker(
            bold,
            italic,
        ) + e.skip(trim_end(e).len() as int)
    }
}

fn escape_run(text: &str) -> (r: Vec<char>)
    ensures
        r@ == run_escaped(text@),
{
    let v = chars_of(text);
    let mut out: Vec<char> = Vec::new();
    let mut i: usize = 0;
    assert(v@.take(0) =~= Seq::<char>::empty());
    while i < v.len()
        invariant
            i <= v@.len(),
            v@ == text@,
            out@ == run_escaped(v@.take(i as int)),
        decreases v.len() - i,
    {
        let c = v[i];
        assert(v@.take(i + 1).drop_last() =~= v@.take(i as int));
        if c == '\\' || c == '*' || c == '_' || c == '[' || c == ']' || c == '`' || c == '<' {
            out.push('\\');
        }
        out.push(c);
        i += 1;
    }
    assert(v@.take(v@.len() as int) =~= v@);
    out
}

/// A run of Word text as Markdown, escaped, with `*`/`**`/`***` for italic,
/// bold, or both.
pub fn render_docx_run(text: &str, bold: bool, italic: bool) -> (r: String)
    ensures
        r@ == docx_run(text@, bold, italic),
{
    let e = escape_run(text);
    let n = e.len();
    assert(e@.subrange(0, n as int) =~= e@);
    let whole = string_of(&e, 0, n);
    if !bold && !italic {
        return whole;
    }
    let (lo, hi) = trim_range(&e, 0, n);
    if lo == hi {
        return whole;
    }
    let lead = skip_ws(&e, 0, n);
    let tail = skip_ws_back(&e, 0, n);
    let marker = if bold && italic {
        "***"
    } else if bold {
        "**"
    } else {
        "*"
    };
    let mut out = string_of(&e, 0, lead);
    push_str(&mut out, marker);
    crate::text::push_range(&mut out, &e, lo, hi);
    push_str(&mut out, marker);
    crate::text::push_range(&mut out, &e, tail, n);
    proof {
        assert(e@.take(n - trim_start(e@).len()) =~= e@.subrange(0, lead as int));
        assert(e@.skip(trim_end(e@).len() as int) =~= e@.subrange(tail as int, n as int));
    }
    out
}

/// A block's own Markdown line(s).
pub open spec fn block_text(b: DocBlock) -> Seq<char> {
    match b {
        DocBlock::Heading(level, text) => hashes(level as int) + " "@ + text@,
        DocBlock::Body(text) => text@,
    }
}

/// What goes between two blocks: one line break inside a list, a blank line
/// otherwise.
pub open spec fn block_gap(prev: Seq<char>, cur: Seq<char>) -> Seq<char> {
    if starts_with(cur, "- "@) && starts_with(prev, "- "@) {
        "\n"@
    } else {
        "\n\n"@
    }
}

/// The blocks' Markdown, joined.
pub open spec fn joined_blocks(bs: Seq<DocBlock>) -> Seq<char>
    decreases bs.len(),
{
    if bs.len() == 0 {
        Seq::empty()
    } else if bs.len() == 1 {
        block_text(bs[0])
    } else {
        joined_blocks(bs.drop_last()) + block_gap(block_text(bs[bs.len() - 2]), block_text(bs.last()))
            + block_text(bs.last())
    }
}

fn block_markdown(b: &DocBlock) -> (r: String)
    ensures
        r@ == block_text(*b),
{
    match b {
        DocBlock::Heading(level, text) => {
            let mut out = String::new();
            let mut k: u8 = 0;
            while k < *level
                invariant
                    k <= *level,
                    out@ == hashes(k as int),
                decreases *level - k,
            {
                out.push('#');
                assert(out@ =~= hashes(k + 1));
                k += 1;
            }
            push_str(&mut out, " ");
            push_str(&mut out, text.as_str());
            out
        },
        DocBlock::Body(text) => text.clone(),
    }
}

fn starts_with_item(s: &str) -> (r: bool)
    ensures
        r == starts_with(s@, "- "@),
{
    let v = chars_of(s);
    let p = chars_of("- ");
    crate::text::has_prefix(&v, &p)
}

/// The blocks as one Markdown text; consecutive list items stay one list.
pub fn blocks_to_markdown(blocks: &[DocBlock]) -> (r: String)
    ensures
        r@ == joined_blocks(blocks@) + "\n"@,
{
    proof {
        reveal_strlit("\n");
        reveal_strlit("\n\n");
        reveal_strlit("- ");
        reveal_strlit(" ");
    }
    let mut joined = String::new();
    let mut prev = String::new();
    let mut i: usize = 0;
    while i < blocks.len()
        invariant
            i <= blocks@.len(),
            joined@ == joined_blocks(blocks@.take(i as int)),
            i > 0 ==> prev@ == block_text(blocks@[i - 1]),
        decreases blocks.len() - i,
    {
        let cur = block_markdown(&blocks[i]);
        let ghost bs = blocks@.take(i + 1);
        assert(bs.drop_last() =~= blocks@.take(i as int));
        assert(bs.last() == blocks@[i as int]);
        if i > 0 {
            assert(bs[bs.len() - 2] == blocks@[i - 1]);
            if starts_with_item(cur.as_str()) && starts_with_item(prev.as_str()) {
                push_str(&mut joined, "\n");
            } else {
                push_str(&mut joined, "\n\n");
            }
        } else {
            assert(bs.len() == 1);
        }
        push_str(&mut joined, cur.as_str());
        prev = cur;
        i += 1;
    }
    assert(blocks@.take(blocks@.len() as int) =~= blocks@);
    push_str(&mut joined, "\n");
    joined
}

/// The text of runs, one after another.
pub open spec fn runs_text(rs: Seq<(Seq<char>, bool, bool)>) -> Seq<char>
    decreases rs.len(),
{
    if rs.len() == 0 {
        Seq::empty()
    } else {
        runs_text(rs.drop_last()) + rs.last().0
    }
}

/// Merging runs keeps their text, and leaves no two neighbours with the same
/// formatting.
pub proof fn law_merged_runs_keep_text_and_alternate(rs: Seq<(Seq<char>, bool, bool)>)
    ensures
        runs_text(merged(rs)) == runs_text(rs),
        forall|k: int|
            0 <= k < merged(rs).len() - 1 ==> !(#[trigger] merged(rs)[k].1 == merged(rs)[k + 1].1 && merged(
                rs,
            )[k].2 == merged(rs)[k + 1].2),
    decreases rs.len(),
{
    if rs.len() > 0 {
        law_merged_runs_keep_text_and_alternate(rs.drop_last());
        let m = merged(rs.drop_last());
        let r = rs.last();
        if m.len() > 0 && m.last().1 == r.1 && m.last().2 == r.2 {
            let n = m.drop_last().push((m.last().0 + r.0, r.1, r.2));
            assert(n.drop_last() =~= m.drop_last());
            assert(m.drop_last().push(m.last()) =~= m);
            assert(runs_text(m) == runs_text(m.drop_last()) + m.last().0);
            assert(runs_text(n) =~= runs_text(m) + r.0);
            assert forall|k: int| 0 <= k < n.len() - 1 implies !(#[trigger] n[k].1 == n[k + 1].1 && n[k].2
                == n[k + 1].2) by {
                assert(n[k] == m[k]);
                if k + 1 < n.len() - 1 {
                    assert(n[k + 1] == m[k + 1]);
                }
            }
        } else {
            let n = m.push(r);
            assert(n.drop_last() =~= m);
            assert forall|k: int| 0 <= k < n.len() - 1 implies !(#[trigger] n[k].1 == n[k + 1].1 && n[k].2
                == n[k + 1].2) by {
                assert(n[k] == m[k]);
                if k + 1 < n.len() - 1 {
                    assert(n[k + 1] == m[k + 1]);
                }
            }
        }
    }
}

/// A block as plain values.
pub enum BlockView {
    Heading(u8, Seq<char>),
    Body(Seq<char>),
}

pub open spec fn block_view(b: DocBlock) -> BlockView {
    match b {
        DocBlock::Heading(l, t) => BlockView::Heading(l, t@),
        DocBlock::Body(t) => BlockView::Body(t@),
    }
}

pub open spec fn block_views(bs: Seq<DocBlock>) -> Seq<BlockView> {
    bs.map_values(|b: DocBlock| block_view(b))
}

/// The value of the first attribute named `key`, when it has one.
pub open spec fn attr_of(attrs: Seq<(String, Option<String>)>, key: Seq<char>) -> Option<Seq<char>>
    decreases attrs.len(),
{
    if attrs.len() == 0 {
        None
    } else if attrs[0].0@ == key {
        match attrs[0].1 {
            Some(v) => Some(v@),
            None => None,
        }
    } else {
        attr_of(attrs.drop_first(), key)
    }
}

/// A `<w:b/>`-style switch is on unless its `val` is "0", "false" or "none".
pub open spec fn switched_on(attrs: Seq<(String, Option<String>)>) -> bool {
    match attr_of(attrs, "val"@) {
        Some(v) => !(v == "0"@ || v == "false"@ || v == "none"@),
        None => true,
    }
}

/// Every character of `d` is an ASCII digit.
pub open spec fn all_digits(d: Seq<char>) -> bool {
    forall|i: int| 0 <= i < d.len() ==> is_ascii_digit(#[trigger] d[i])
}

/// The number `s` spells as `str::parse::<u8>` reads it: an optional `+`,
/// then decimal digits, at most 255.
pub open spec fn u8_value(s: Seq<char>) -> Option<nat> {
    let d = if s.len() > 0 && s[0] == '+' { s.skip(1) } else { s };
    if d.len() > 0 && all_digits(d) && digits_value(d) <= 255 {
        Some(digits_value(d))
    } else {
        None
    }
}

/// Where reading a Word document's body has got to: the blocks so far and
/// the paragraph, run and deletion being read.
pub struct DocxScan {
    pub blocks: Seq<BlockView>,
    pub in_paragraph: bool,
    pub heading: Option<u8>,
    pub list_item: bool,
    pub runs: Seq<(Seq<char>, bool, bool)>,
    pub bold: bool,
    pub italic: bool,
    pub in_run_props: bool,
    pub in_para_props: bool,
    pub in_text: bool,
    pub in_deleted: nat,
}

pub open spec fn docx_initial() -> DocxScan {
    DocxScan {
        blocks: Seq::empty(),
        in_paragraph: false,
        heading: None,
        list_item: false,
        runs: Seq::empty(),
        bold: false,
        italic: false,
        in_run_props: false,
        in_para_props: false,
        in_text: false,
        in_deleted: 0,
    }
}

/// The Markdown of a paragraph's runs: neighbours with the same formatting
/// merged, each rendered.
pub open spec fn rendered_runs(rs: Seq<(Seq<char>, bool, bool)>) -> Seq<char>
    decreases rs.len(),
{
    if rs.len() == 0 {
        Seq::empty()
    } else {
        rendered_runs(rs.drop_last()) + docx_run(rs.last().0, rs.last().1, rs.last().2)
    }
}

/// The state after an element opens.
pub open spec fn docx_open(st: DocxScan, name: Seq<char>, empty: bool, attrs: Seq<(String, Option<String>)>) -> DocxScan {
    if name == "p"@ && !empty {
        DocxScan { in_paragraph: true, heading: None, list_item: false, runs: Seq::empty(), ..st }
    } else if name == "pStyle"@ {
        let h = match attr_of(attrs, "val"@) {
            Some(v) => match style_level(v) {
                Some(l) => Some(l as u8),
                None => st.heading,
            },
            None => st.heading,
        };
        DocxScan { heading: h, ..st }
    } else if name == "outlineLvl"@ {
        match attr_of(attrs, "val"@) {
            Some(v) => match u8_value(v) {
                Some(level) => if level < 6 { DocxScan { heading: Some((level + 1) as u8), ..st } } else { st },
                None => st,
            },
            None => st,
        }
    } else if name == "numPr"@ {
        DocxScan { list_item: true, ..st }
    } else if name == "r"@ && !empty {
        DocxScan { bold: false, italic: false, ..st }
    } else if name == "rPr"@ && !empty {
        DocxScan { in_run_props: true, ..st }
    } else if name == "pPr"@ && !empty {
        DocxScan { in_para_props: true, ..st }
    } else if name == "b"@ && st.in_run_props {
        DocxScan { bold: switched_on(attrs), ..st }
    } else if name == "i"@ && st.in_run_props {
        DocxScan { italic: switched_on(attrs), ..st }
    } else if name == "t"@ && !empty {
        DocxScan { in_text: true, ..st }
    } else if name == "tab"@ && st.in_paragraph && !st.in_para_props {
        DocxScan { runs: st.runs.push(("\t"@, false, false)), ..st }
    } else if (name == "br"@ || name == "cr"@) && st.in_paragraph {
        DocxScan { runs: st.runs.push(("\n"@, false, false)), ..st }
    } else if name == "del"@ && !empty {
        DocxScan { in_deleted: st.in_deleted + 1, ..st }
    } else {
        st
    }
}

/// A finished paragraph's block: a heading with its trimmed text, or a body
/// line (hard breaks as Markdown line breaks), a list item when numbered.
pub open spec fn paragraph_block(st: DocxScan) -> BlockView {
    let text = runs_text(st.runs);
    match st.heading {
        Some(l) => BlockView::Heading(l, trim(text)),
        None => {
            let line = trim(replace_all(rendered_runs(merged(st.runs)), "\n"@, "  \n"@));
            BlockView::Body(if st.list_item { "- "@ + line } else { line })
        },
    }
}

/// The state after an element closes.
pub open spec fn docx_close(st: DocxScan, name: Seq<char>) -> DocxScan {
    if name == "t"@ {
        DocxScan { in_text: false, ..st }
    } else if name == "rPr"@ {
        DocxScan { in_run_props: false, ..st }
    } else if name == "pPr"@ {
        DocxScan { in_para_props: false, ..st }
    } else if name == "del"@ {
        DocxScan { in_deleted: if st.in_deleted > 0 { (st.in_deleted - 1) as nat } else { 0 }, ..st }
    } else if name == "p"@ && st.in_paragraph {
        if trim(runs_text(st.runs)).len() == 0 {
            DocxScan { in_paragraph: false, ..st }
        } else {
            let runs = if st.heading is Some { st.runs } else { Seq::empty() };
            DocxScan { in_paragraph: false, blocks: st.blocks.push(paragraph_block(st)), runs, ..st }
        }
    } else {
        st
    }
}

/// One event of a Word document's body read; `Err` with the message when the
/// document is unreadable.
pub open spec fn docx_step(st: DocxScan, p: XmlPiece) -> Result<DocxScan, Seq<char>> {
    match p {
        XmlPiece::Start { name, empty, attrs } => Ok(docx_open(st, name@, empty, attrs@)),
        XmlPiece::End { name } => Ok(docx_close(st, name@)),
        XmlPiece::Text(r) => if st.in_text && st.in_deleted == 0 {
            match r {
                Ok(t) => Ok(DocxScan { runs: st.runs.push((t@, st.bold, st.italic)), ..st }),
                Err(e) => Err(e@),
            }
        } else {
            Ok(st)
        },
        XmlPiece::Ref(r) => if st.in_text && st.in_deleted == 0 {
            match r {
                Ok(n) => match entity_value(n@) {
                    Some(t) => Ok(DocxScan { runs: st.runs.push((t, st.bold, st.italic)), ..st }),
                    None => Ok(st),
                },
                Err(e) => Err(e@),
            }
        } else {
            Ok(st)
        },
        XmlPiece::Failed(m) => Err("Unreadable Word document: "@ + m@),
        _ => Ok(st),
    }
}

/// The state after `ps[..n]`, or the first error.
pub open spec fn docx_scan(ps: Seq<XmlPiece>, n: int) -> Result<DocxScan, Seq<char>>
    decreases n,
{
    if n <= 0 {
        Ok(docx_initial())
    } else {
        match docx_scan(ps, n - 1) {
            Ok(st) => docx_step(st, ps[n - 1]),
            Err(e) => Err(e),
        }
    }
}

/// Looking an attribute up reads the attributes by their views.
pub proof fn lemma_attr_of_views(a: Seq<(String, Option<String>)>, b: Seq<(String, Option<String>)>, key: Seq<char>)
    requires
        attr_views(a) == attr_views(b),
    ensures
        attr_of(a, key) == attr_of(b, key),
    decreases a.len(),
{
    assert(a.len() == attr_views(a).len() && b.len() == attr_views(b).len());
    if a.len() > 0 {
        assert(attr_views(a)[0] == attr_views(b)[0]);
        assert(attr_views(a.drop_first()) =~= attr_views(a).drop_first());
        assert(attr_views(b.drop_first()) =~= attr_views(b).drop_first());
        lemma_attr_of_views(a.drop_first(), b.drop_first(), key);
    }
}

/// The scan of a Word document reads the events by their views: two
/// readings with the same views scan alike.
pub proof fn lemma_docx_scan_views(a: Seq<XmlPiece>, b: Seq<XmlPiece>, n: int)
    requires
        piece_views(a) == piece_views(b),
        n <= a.len(),
    ensures
        docx_scan(a, n) == docx_scan(b, n),
    decreases n,
{
    if n > 0 {
        lemma_docx_scan_views(a, b, n - 1);
        assert(a.len() == piece_views(a).len() && b.len() == piece_views(b).len());
        assert(piece_views(a)[n - 1] == piece_views(b)[n - 1]);
        assert(0 <= n - 1 < a.len() && n - 1 < b.len());
        assert(piece_views(a)[n - 1] == piece_view(a[n - 1]));
        assert(piece_views(b)[n - 1] == piece_view(b[n - 1]));
        match (a[n - 1], b[n - 1]) {
            (XmlPiece::Start { attrs: x, .. }, XmlPiece::Start { attrs: y, .. }) => {
                assert(attr_views(x@) == attr_views(y@));
                assert forall|k: Seq<char>| attr_of(x@, k) == #[trigger] attr_of(y@, k) by {
                    lemma_attr_of_views(x@, y@, k);
                }
            },
            _ => {},
        }
    }
}

pub(crate) fn attr_value(attrs: &Vec<(String, Option<String>)>, key: &str) -> (r: Option<String>)
    ensures
        match (r, attr_of(attrs@, key@)) {
            (Some(a), Some(b)) => a@ == b,
            (None, None) => true,
            _ => false,
        },
{
    let mut i: usize = 0;
    assert(attrs@.skip(0) =~= attrs@);
    while i < attrs.len()
        invariant
            i <= attrs@.len(),
            attr_of(attrs@, key@) == attr_of(attrs@.skip(i as int), key@),
        decreases attrs.len() - i,
    {
        assert(attrs@.skip(i as int)[0] == attrs@[i as int]);
        assert(attrs@.skip(i as int).drop_first() =~= attrs@.skip(i + 1));
        if same_text(attrs[i].0.as_str(), key) {
            return match &attrs[i].1 {
                Some(v) => Some(v.clone()),
                None => None,
            };
        }
        i += 1;
    }
    None
}

fn switch_on(attrs: &Vec<(String, Option<String>)>) -> (r: bool)
    ensures
        r == switched_on(attrs@),
{
    match attr_value(attrs, "val") {
        Some(v) => !(same_text(v.as_str(), "0") || same_text(v.as_str(), "false") || same_text(v.as_str(), "none")),
        None => true,
    }
}

/// `s` as `str::parse::<u8>` reads it.
pub fn parse_u8(s: &str) -> (r: Option<u8>)
    ensures
        match (r, u8_value(s@)) {
            (Some(a), Some(b)) => a == b,
            (None, None) => true,
            _ => false,
        },
{
    let v = chars_of(s);
    let start: usize = if v.len() > 0 && v[0] == '+' { 1 } else { 0 };
    let ghost d = if s@.len() > 0 && s@[0] == '+' { s@.skip(1) } else { s@ };
    assert(d =~= v@.subrange(start as int, v@.len() as int));
    if start == v.len() {
        return None;
    }
    // The value so far, or 256 once it is past 255 (it can only grow).
    let mut value: u32 = 0;
    let mut i: usize = start;
    while i < v.len()
        invariant
            start <= i <= v@.len(),
            d == v@.subrange(start as int, v@.len() as int),
            d == (if s@.len() > 0 && s@[0] == '+' { s@.skip(1) } else { s@ }),
            forall|k: int| start <= k < i ==> is_ascii_digit(#[trigger] v@[k]),
            digits_value(v@.subrange(start as int, i as int)) <= 255 ==> value == digits_value(
                v@.subrange(start as int, i as int),
            ),
            digits_value(v@.subrange(start as int, i as int)) > 255 ==> value == 256,
        decreases v.len() - i,
    {
        let c = v[i];
        if !('0' <= c && c <= '9') {
            assert(!is_ascii_digit(d[i - start]));
            return None;
        }
        let ghost pre = v@.subrange(start as int, i as int);
        assert(v@.subrange(start as int, i + 1).drop_last() =~= pre);
        assert(v@.subrange(start as int, i + 1).last() == c);
        let dg: u32 = (c as u32) - ('0' as u32);
        if value > 255 {
            value = 256;
        } else {
            let next = value * 10 + dg;
            value = if next > 255 { 256 } else { next };
        }
        i += 1;
    }
    assert(v@.subrange(start as int, v@.len() as int) == d);
    assert(all_digits(d)) by {
        assert forall|k: int| 0 <= k < d.len() implies is_ascii_digit(#[trigger] d[k]) by {
            assert(d[k] == v@[start + k]);
        }
    }
    if value > 255 {
        None
    } else {
        Some(value as u8)
    }
}

/// Reads a Word document's body event by event.
pub struct DocxScanner {
    blocks: Vec<DocBlock>,
    in_paragraph: bool,
    heading: Option<u8>,
    list_item: bool,
    runs: Vec<(String, bool, bool)>,
    bold: bool,
    italic: bool,
    in_run_props: bool,
    in_para_props: bool,
    in_text: bool,
    in_deleted: usize,
}

impl DocxScanner {
    pub closed spec fn view(&self) -> DocxScan {
        DocxScan {
            blocks: block_views(self.blocks@),
            in_paragraph: self.in_paragraph,
            heading: self.heading,
            list_item: self.list_item,
            runs: run_views(self.runs@),
            bold: self.bold,
            italic: self.italic,
            in_run_props: self.in_run_props,
            in_para_props: self.in_para_props,
            in_text: self.in_text,
            in_deleted: self.in_deleted as nat,
        }
    }

    pub closed spec fn deleted(&self) -> nat {
        self.in_deleted as nat
    }

    fn new() -> (r: Self)
        ensures
            r.view() == docx_initial(),
    {
        let r = DocxScanner {
            blocks: Vec::new(),
            in_paragraph: false,
            heading: None,
            list_item: false,
            runs: Vec::new(),
            bold: false,
            italic: false,
            in_run_props: false,
            in_para_props: false,
            in_text: false,
            in_deleted: 0,
        };
        assert(block_views(r.blocks@) =~= Seq::<BlockView>::empty());
        assert(run_views(r.runs@) =~= Seq::<(Seq<char>, bool, bool)>::empty());
        r
    }

    fn push_run(&mut self, text: String, bold: bool, italic: bool)
        ensures
            final(self).view() == (DocxScan { runs: old(self).view().runs.push((text@, bold, italic)), ..old(self).view() }),
    {
        let ghost before = run_views(self.runs@);
        self.runs.push((text, bold, italic));
        assert(run_views(self.runs@) =~= before.push((text@, bold, italic)));
    }

    fn open(&mut self, name: &str, empty: bool, attrs: &Vec<(String, Option<String>)>)
        requires
            old(self).view().in_deleted < usize::MAX,
        ensures
            final(self).view() == docx_open(old(self).view(), name@, empty, attrs@),
    {
        proof {
            reveal_strlit("p");
            reveal_strlit("pStyle");
            reveal_strlit("outlineLvl");
            reveal_strlit("numPr");
            reveal_strlit("r");
            reveal_strlit("rPr");
            reveal_strlit("pPr");
            reveal_strlit("b");
            reveal_strlit("i");
            reveal_strlit("t");
            reveal_strlit("tab");
            reveal_strlit("br");
            reveal_strlit("cr");
            reveal_strlit("del");
        }
        if same_text(name, "p") && !empty {
            self.in_paragraph = true;
            self.heading = None;
            self.list_item = false;
            self.runs = Vec::new();
            assert(run_views(self.runs@) =~= Seq::<(Seq<char>, bool, bool)>::empty());
        } else if same_text(name, "pStyle") {
            match attr_value(attrs, "val") {
                Some(v) => match heading_from_style(v.as_str()) {
                    Some(l) => {
                        self.heading = Some(l);
                    },
                    None => {},
                },
                None => {},
            }
        } else if same_text(name, "outlineLvl") {
            match attr_value(attrs, "val") {
                Some(v) => match parse_u8(v.as_str()) {
                    Some(level) => {
                        if level < 6 {
                            self.heading = Some(level + 1);
                        }
                    },
                    None => {},
                },
                None => {},
            }
        } else if same_text(name, "numPr") {
            self.list_item = true;
        } else if same_text(name, "r") && !empty {
            self.bold = false;
            self.italic = false;
        } else if same_text(name, "rPr") && !empty {
            self.in_run_props = true;
        } else if same_text(name, "pPr") && !empty {
            self.in_para_props = true;
        } else if same_text(name, "b") && self.in_run_props {
            self.bold = switch_on(attrs);
        } else if same_text(name, "i") && self.in_run_props {
            self.italic = switch_on(attrs);
        } else if same_text(name, "t") && !empty {
            self.in_text = true;
        } else if same_text(name, "tab") && self.in_paragraph && !self.in_para_props {
            self.push_run("\t".to_owned(), false, false);
        } else if (same_text(name, "br") || same_text(name, "cr")) && self.in_paragraph {
            self.push_run("\n".to_owned(), false, false);
        } else if same_text(name, "del") && !empty {
            self.in_deleted = self.in_deleted + 1;
        }
    }

    fn close(&mut self, name: &str)
        ensures
            final(self).view() == docx_close(old(self).view(), name@),
            final(self).view().in_deleted <= old(self).view().in_deleted,
    {
        proof {
            reveal_strlit("t");
            reveal_strlit("rPr");
            reveal_strlit("pPr");
            reveal_strlit("del");
            reveal_strlit("p");
        }
        if same_text(name, "t") {
            self.in_text = false;
        } else if same_text(name, "rPr") {
            self.in_run_props = false;
        } else if same_text(name, "pPr") {
            self.in_para_props = false;
        } else if same_text(name, "del") {
            if self.in_deleted > 0 {
                self.in_deleted = self.in_deleted - 1;
            }
        } else if same_text(name, "p") && self.in_paragraph {
            self.finish_paragraph();
        }
    }

    fn finish_paragraph(&mut self)
        requires
            old(self).in_paragraph,
        ensures
            ({
                let st = old(self).view();
                final(self).view() == if trim(runs_text(st.runs)).len() == 0 {
                    DocxScan { in_paragraph: false, ..st }
                } else {
                    let runs = if st.heading is Some { st.runs } else { Seq::empty() };
                    DocxScan { in_paragraph: false, blocks: st.blocks.push(paragraph_block(st)), runs, ..st }
                }
            }),
    {
        let ghost st = self.view();
        let mut text = String::new();
        let mut i: usize = 0;
        assert(run_views(self.runs@).take(0) =~= Seq::<(Seq<char>, bool, bool)>::empty());
        while i < self.runs.len()
            invariant
                i <= self.runs@.len(),
                st == self.view(),
                text@ == runs_text(run_views(self.runs@).take(i as int)),
            decreases self.runs.len() - i,
        {
            assert(run_views(self.runs@).take(i + 1).drop_last() =~= run_views(self.runs@).take(i as int));
            push_str(&mut text, self.runs[i].0.as_str());
            i += 1;
        }
        assert(run_views(self.runs@).take(self.runs@.len() as int) =~= run_views(self.runs@));
        self.in_paragraph = false;
        if crate::text::is_blank(text.as_str()) {
            return;
        }
        match self.heading {
            Some(level) => {
                let t = trimmed(text.as_str());
                let ghost before = block_views(self.blocks@);
                self.blocks.push(DocBlock::Heading(level, t));
                assert(block_views(self.blocks@) =~= before.push(paragraph_block(st)));
            },
            None => {
                let mut rs: Vec<(String, bool, bool)> = Vec::new();
                std::mem::swap(&mut rs, &mut self.runs);
                assert(run_views(self.runs@) =~= Seq::<(Seq<char>, bool, bool)>::empty());
                let m = merge_runs(rs);
                let mut line = String::new();
                let mut k: usize = 0;
                assert(run_views(m@).take(0) =~= Seq::<(Seq<char>, bool, bool)>::empty());
                while k < m.len()
                    invariant
                        k <= m@.len(),
                        line@ == rendered_runs(run_views(m@).take(k as int)),
                    decreases m.len() - k,
                {
                    assert(run_views(m@).take(k + 1).drop_last() =~= run_views(m@).take(k as int));
                    let piece = render_docx_run(m[k].0.as_str(), m[k].1, m[k].2);
                    push_str(&mut line, piece.as_str());
                    k += 1;
                }
                assert(run_views(m@).take(m@.len() as int) =~= run_views(m@));
                proof {
                    reveal_strlit("\n");
                    reveal_strlit("- ");
                }
                let broken = crate::text::replace(line.as_str(), "\n", "  \n");
                let t = trimmed(broken.as_str());
                let body = if self.list_item {
                    let mut b = "- ".to_owned();
                    push_str(&mut b, t.as_str());
                    b
                } else {
                    t
                };
                let ghost before = block_views(self.blocks@);
                self.blocks.push(DocBlock::Body(body));
                assert(block_views(self.blocks@) =~= before.push(paragraph_block(st)));
            },
        }
    }

    fn step(&mut self, p: &XmlPiece) -> (r: Result<(), String>)
        requires
            old(self).view().in_deleted < usize::MAX,
        ensures
            match (r, docx_step(old(self).view(), *p)) {
                (Ok(_), Ok(st)) => final(self).view() == st,
                (Err(a), Err(b)) => a@ == b,
                _ => false,
            },
            final(self).view().in_deleted <= old(self).view().in_deleted + 1,
    {
        match p {
            XmlPiece::Start { name, empty, attrs } => {
                self.open(name.as_str(), *empty, attrs);
                Ok(())
            },
            XmlPiece::End { name } => {
                self.close(name.as_str());
                Ok(())
            },
            XmlPiece::Text(t) => {
                if self.in_text && self.in_deleted == 0 {
                    match t {
                        Ok(text) => {
                            let (b, i) = (self.bold, self.italic);
                            self.push_run(text.clone(), b, i);
                            Ok(())
                        },
                        Err(e) => Err(e.clone()),
                    }
                } else {
                    Ok(())
                }
            },
            XmlPiece::Ref(r) => {
                if self.in_text && self.in_deleted == 0 {
                    match r {
                        Ok(name) => {
                            match entity_text(name.as_str()) {
                                Some(text) => {
                                    let (b, i) = (self.bold, self.italic);
                                    self.push_run(text, b, i);
                                },
                                None => {},
                            }
                            Ok(())
                        },
                        Err(e) => Err(e.clone()),
                    }
                } else {
                    Ok(())
                }
            },
            XmlPiece::Failed(m) => {
                let mut e = "Unreadable Word document: ".to_owned();
                push_str(&mut e, m.as_str());
                proof {
                    reveal_strlit("Unreadable Word document: ");
                }
                Err(e)
            },
            _ => Ok(()),
        }
    }
}

/// The blocks of a Word document's body from its XML events.
pub fn docx_blocks(pieces: &Vec<XmlPiece>) -> (r: Result<Vec<DocBlock>, String>)
    ensures
        match (r, docx_scan(pieces@, pieces@.len() as int)) {
            (Ok(v), Ok(st)) => block_views(v@) == st.blocks,
            (Err(a), Err(b)) => a@ == b,
            _ => false,
        },
{
    let mut sc = DocxScanner::new();
    let mut i: usize = 0;
    while i < pieces.len()
        invariant
            i <= pieces@.len(),
            docx_scan(pieces@, i as int) == Ok::<DocxScan, Seq<char>>(sc.view()),
            sc.view().in_deleted <= i,
        decreases pieces.len() - i,
    {
        match sc.step(&pieces[i]) {
            Ok(_) => {},
            Err(e) => {
                proof {
                    lemma_docx_scan_err(pieces@, i + 1, pieces@.len() as int);
                }
                return Err(e);
            },
        }
        i += 1;
    }
    Ok(sc.blocks)
}

/// Once reading has failed, it stays failed with the same message.
proof fn lemma_docx_scan_err(ps: Seq<XmlPiece>, a: int, b: int)
    requires
        0 <= a <= b,
        docx_scan(ps, a) is Err,
    ensures
        docx_scan(ps, b) == docx_scan(ps, a),
    decreases b - a,
{
    if a < b {
        lemma_docx_scan_err(ps, a, b - 1);
    }
}

/// Reads the body of a Word document (its `word/document.xml`) into blocks.
/// The blocks are what reading the events quick-xml reads from the text
/// (`xml_pieces`) gives.
pub fn parse_docx_blocks(document_xml: &str) -> (r: Result<Vec<DocBlock>, String>)
    ensures
        exists|ps: Seq<XmlPiece>| piece_views(ps) == xml_pieces(document_xml@) && read_shape(ps),
        forall|ps: Seq<XmlPiece>|
            piece_views(ps) == xml_pieces(document_xml@) ==> match (r, #[trigger] docx_scan(ps, ps.len() as int)) {
                (Ok(v), Ok(st)) => block_views(v@) == st.blocks,
                (Err(a), Err(b)) => a@ == b,
                _ => false,
            },
{
    let pieces = read_pieces(document_xml);
    let r = docx_blocks(&pieces);
    assert(read_shape(pieces@));
    proof {
        assert forall|ps: Seq<XmlPiece>| piece_views(ps) == xml_pieces(document_xml@) implies match (r, #[trigger] docx_scan(ps, ps.len() as int)) {
            (Ok(v), Ok(st)) => block_views(v@) == st.blocks,
            (Err(a), Err(b)) => a@ == b,
            _ => false,
        } by {
            assert(ps.len() == piece_views(ps).len() && pieces@.len() == piece_views(pieces@).len());
            lemma_docx_scan_views(pieces@, ps, pieces@.len() as int);
        }
    }
    r
}

/// The smallest heading level among the blocks, if any is a heading.
pub open spec fn top_heading(bs: Seq<DocBlock>) -> Option<u8>
    decreases bs.len(),
{
    if bs.len() == 0 {
        None
    } else {
        let m = top_heading(bs.drop_last());
        match bs.last() {
            DocBlock::Heading(l, _) => match m {
                Some(x) => Some(if l < x { l } else { x }),
                None => Some(l),
            },
            _ => m,
        }
    }
}

/// A block moved into a section: its headings lifted by `top` levels, at
/// least to level 1.
pub open spec fn lifted(b: DocBlock, top: u8) -> BlockView {
    match b {
        DocBlock::Heading(l, t) => BlockView::Heading(if l > top && l - top >= 1 { (l - top) as u8 } else { 1 }, t@),
        DocBlock::Body(t) => BlockView::Body(t@),
    }
}

/// The sections of `bs[..n]`: a new one at each heading of level `top`, named
/// after it; blocks before the first one go to "Opening".
pub open spec fn sections_of(bs: Seq<DocBlock>, top: u8, n: int) -> Seq<(Seq<char>, Seq<BlockView>)>
    decreases n,
{
    if n <= 0 {
        Seq::empty()
    } else {
        let g = sections_of(bs, top, n - 1);
        match bs[n - 1] {
            DocBlock::Heading(l, t) if l == top => g.push((crate::import::cleaned_name(t@), Seq::empty())),
            _ => {
                let g2 = if g.len() == 0 { seq![("Opening"@, Seq::<BlockView>::empty())] } else { g };
                g2.update(g2.len() - 1, (g2.last().0, g2.last().1.push(lifted(bs[n - 1], top))))
            },
        }
    }
}

fn lift_block(b: &DocBlock, top: u8) -> (r: DocBlock)
    ensures
        block_view(r) == lifted(*b, top),
{
    match b {
        DocBlock::Heading(l, t) => DocBlock::Heading(if *l > top && *l - top >= 1 { *l - top } else { 1 }, t.clone()),
        DocBlock::Body(t) => DocBlock::Body(t.clone()),
    }
}

/// With `split`, the sections a Word document's blocks become, one writing
/// each: a new one at every top-level heading (named after it, the heading
/// itself becoming the file name), deeper headings lifted to match; `None`
/// when the document stays one writing (no split asked, or no headings).
pub fn docx_sections(blocks: &Vec<DocBlock>, split: bool) -> (r: Option<Vec<(String, Vec<DocBlock>)>>)
    ensures
        match r {
            None => !split || top_heading(blocks@) is None,
            Some(v) => split && match top_heading(blocks@) {
                Some(top) => {
                    let g = sections_of(blocks@, top, blocks@.len() as int);
                    &&& v@.len() == g.len()
                    &&& forall|k: int|
                        0 <= k < v@.len() ==> #[trigger] v@[k].0@ == g[k].0 && block_views(v@[k].1@) == g[k].1
                },
                None => false,
            },
        },
{
    let mut top: u8 = 0;
    let mut found = false;
    let mut i: usize = 0;
    assert(blocks@.take(0) =~= Seq::<DocBlock>::empty());
    while i < blocks.len()
        invariant
            i <= blocks@.len(),
            found == (top_heading(blocks@.take(i as int)) is Some),
            found ==> top_heading(blocks@.take(i as int)) == Some(top),
        decreases blocks.len() - i,
    {
        assert(blocks@.take(i + 1).drop_last() =~= blocks@.take(i as int));
        assert(blocks@.take(i + 1).last() == blocks@[i as int]);
        match &blocks[i] {
            DocBlock::Heading(l, _) => {
                if !found || *l < top {
                    top = *l;
                }
                found = true;
            },
            _ => {},
        }
        i += 1;
    }
    assert(blocks@.take(blocks@.len() as int) =~= blocks@);
    if !split || !found {
        return None;
    }
    proof {
        reveal_strlit("Opening");
    }
    let mut out: Vec<(String, Vec<DocBlock>)> = Vec::new();
    let mut i: usize = 0;
    while i < blocks.len()
        invariant
            i <= blocks@.len(),
            out@.len() == sections_of(blocks@, top, i as int).len(),
            forall|k: int|
                0 <= k < out@.len() ==> {
                    let g = #[trigger] sections_of(blocks@, top, i as int)[k];
                    &&& out@[k].0@ == g.0
                    &&& block_views(out@[k].1@) == g.1
                },
        decreases blocks.len() - i,
    {
        let starts = match &blocks[i] {
            DocBlock::Heading(l, _) => *l == top,
            _ => false,
        };
        if starts {
            let name = match &blocks[i] {
                DocBlock::Heading(_, t) => crate::import::clean_name(t.as_str()),
                DocBlock::Body(t) => crate::import::clean_name(t.as_str()),
            };
            let empty: Vec<DocBlock> = Vec::new();
            assert(block_views(empty@) =~= Seq::<BlockView>::empty());
            out.push((name, empty));
        } else {
            if out.len() == 0 {
                let empty: Vec<DocBlock> = Vec::new();
                assert(block_views(empty@) =~= Seq::<BlockView>::empty());
                out.push(("Opening".to_owned(), empty));
            }
            let b = lift_block(&blocks[i], top);
            let (name, mut last) = out.pop().unwrap();
            let ghost before = block_views(last@);
            last.push(b);
            assert(block_views(last@) =~= before.push(lifted(blocks@[i as int], top)));
            out.push((name, last));
        }
        i += 1;
    }
    Some(out)
}

} // verus!
