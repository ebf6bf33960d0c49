//! Splits a note into passages for embedding.
//!
//! A passage never spans two sections: every heading starts a new one, and a
//! section longer than `CHUNK_SIZE_LIMIT` is split between blocks (or, for a
//! single huge paragraph, between sentences). Each passage remembers the
//! headings it sits under and the lines it covers, and a passage that
//! continues a section carries the previous passage's last sentence so its
//! embedding keeps the thread. YAML front matter is not indexed.

use vstd::prelude::*;
use pulldown_cmark::{Event, Options, Parser, Tag, TagEnd};
use std::ops::Range;
use crate::export::{byte_len, lemma_byte_len_concat, utf8_width, width_of};
use crate::text::{join, push_range, trimmed, chars_of, is_whitespace, is_ws, skip_ws_back, string_of, trim, trim_end, trim_range};

verus! {

/// Soft cap on a passage's text, in bytes. A passage only goes over when a
/// single sentence does.
pub const CHUNK_SIZE_LIMIT: usize = 1000;

/// Most text carried over from the previous passage of the same section, in bytes.
pub const OVERLAP_LIMIT: usize = 200;

#[derive(Debug, Clone, PartialEq, Eq)]
pub struct Chunk {
    /// The passage as written in the note.
    pub text: String,
    /// Headings above the passage, outermost first, e.g. `["Part 1", "Scene 2"]`.
    pub headings: Vec<String>,
    /// First and last line of the note the passage covers, 1-based.
    pub start_line: usize,
    pub end_line: usize,
    /// End of the previous passage in the same section; embedded with this
    /// one for context, never shown as part of it.
    pub overlap: String,
}

/// A Markdown parse event with its byte range in the source, as plain values.
#[derive(Debug, Clone)]
pub enum MdEvent {
    /// A container or leaf block opens: its heading level (1 to 6), if a
    /// heading, and whether it is a metadata block.
    Start(Option<u8>, bool, usize, usize),
    /// A container closes, and whether it is a metadata block.
    End(bool, usize, usize),
    /// Text or inline code.
    Text(String, usize, usize),
    /// A soft or hard line break.
    Break(usize, usize),
    /// Anything else: a rule, HTML, a footnote reference, math, a task marker.
    Other(usize, usize),
}

/// A parse event as plain values.
pub enum MdEventView {
    Start { heading: Option<u8>, metadata: bool, start: int, end: int },
    End { metadata: bool, start: int, end: int },
    Text { text: Seq<char>, start: int, end: int },
    Break { start: int, end: int },
    Other { start: int, end: int },
}

pub open spec fn event_view(e: MdEvent) -> MdEventView {
    match e {
        MdEvent::Start(heading, metadata, start, end) => MdEventView::Start { heading, metadata, start: start as int, end: end as int },
        MdEvent::End(metadata, start, end) => MdEventView::End { metadata, start: start as int, end: end as int },
        MdEvent::Text(text, start, end) => MdEventView::Text { text: text@, start: start as int, end: end as int },
        MdEvent::Break(start, end) => MdEventView::Break { start: start as int, end: end as int },
        MdEvent::Other(start, end) => MdEventView::Other { start: start as int, end: end as int },
    }
}

pub open spec fn event_views(es: Seq<MdEvent>) -> Seq<MdEventView> {
    es.map_values(|e: MdEvent| event_view(e))
}

/// How many containers are open after `es[..n]`.
pub open spec fn open_after(es: Seq<MdEventView>, n: int) -> int
    decreases n,
{
    if n <= 0 {
        0
    } else {
        open_after(es, n - 1) + match es[n - 1] {
            MdEventView::Start { .. } => 1int,
            MdEventView::End { .. } => -1int,
            _ => 0int,
        }
    }
}

/// No container closes that was not opened.
pub open spec fn balanced(es: Seq<MdEventView>) -> bool {
    forall|n: int| 0 <= n <= es.len() ==> #[trigger] open_after(es, n) >= 0
}

/// The events pulldown-cmark parses a note into, with the app's options.
pub uninterp spec fn md_events(text: Seq<char>) -> Seq<MdEventView>;

#[verifier::external_type_specification]
#[verifier::external_body]
pub struct ExOptions(pulldown_cmark::Options);

/// The parser options notes are read with: tables, strikethrough, task
/// lists, footnotes and YAML-style metadata blocks.
#[verifier::external_body]
fn note_options() -> Options {
    Options::ENABLE_TABLES | Options::ENABLE_STRIKETHROUGH | Options::ENABLE_TASKLISTS
        | Options::ENABLE_FOOTNOTES | Options::ENABLE_YAML_STYLE_METADATA_BLOCKS
}

/// `pulldown_cmark::Parser::new_ext(..).into_offset_iter()` with the note
/// options: the note's events and their byte ranges. The parse depends on the
/// text alone and is named `md_events`; start and end events are balanced,
/// as the crate documents. Each event is carried over with its kind and text.
#[verifier::external_body]
pub(crate) fn markdown_events(text: &str) -> (r: Vec<MdEvent>)
    ensures
        event_views(r@) == md_events(text@),
        balanced(event_views(r@)),
{
    Parser::new_ext(text, note_options()).into_offset_iter().map(|(e, Range { start: a, end: b })| match e {
        Event::Start(Tag::Heading { level, .. }) => MdEvent::Start(Some(level as u8), false, a, b),
        Event::Start(t) => MdEvent::Start(None, matches!(t, Tag::MetadataBlock(_)), a, b),
        Event::End(t) => MdEvent::End(matches!(t, TagEnd::MetadataBlock(_)), a, b),
        Event::Text(s) | Event::Code(s) => MdEvent::Text(s.to_string(), a, b),
        Event::SoftBreak | Event::HardBreak => MdEvent::Break(a, b),
        _ => MdEvent::Other(a, b),
    }).collect()
}

/// A top-level block: its byte range, and for a heading its level and text.
#[derive(Debug, Clone)]
pub struct Block {
    pub start: usize,
    pub end: usize,
    pub heading: Option<(u8, String)>,
}

pub struct BlockView {
    pub start: int,
    pub end: int,
    pub heading: Option<(u8, Seq<char>)>,
}

pub open spec fn block_view(b: Block) -> BlockView {
    BlockView {
        start: b.start as int,
        end: b.end as int,
        heading: match b.heading {
            Some((l, t)) => Some((l, t@)),
            None => None,
        },
    }
}

pub open spec fn block_views(bs: Seq<Block>) -> Seq<BlockView> {
    bs.map_values(|b: Block| block_view(b))
}

/// What grouping events into blocks carries along: open containers, where the
/// current top-level block starts, its heading so far, whether it is a
/// metadata block, and the blocks so far.
pub struct Grouping {
    pub depth: int,
    pub start: int,
    pub heading: Option<(u8, Seq<char>)>,
    pub in_metadata: bool,
    pub out: Seq<BlockView>,
}

/// One event's effect on the grouping.
pub open spec fn group_step(g: Grouping, e: MdEventView) -> Grouping {
    match e {
        MdEventView::Start { heading, metadata, start, .. } => {
            if g.depth == 0 {
                Grouping {
                    depth: 1,
                    start,
                    heading: match heading {
                        Some(l) => Some((l, Seq::empty())),
                        None => g.heading,
                    },
                    in_metadata: if heading is None && metadata { true } else { g.in_metadata },
                    out: g.out,
                }
            } else {
                Grouping { depth: g.depth + 1, ..g }
            }
        },
        MdEventView::End { metadata, end, .. } => {
            if g.depth == 1 {
                if g.in_metadata || metadata {
                    Grouping { depth: 0, in_metadata: false, ..g }
                } else {
                    Grouping {
                        depth: 0,
                        heading: None,
                        out: g.out.push(BlockView { start: g.start, end, heading: g.heading }),
                        ..g
                    }
                }
            } else {
                Grouping { depth: g.depth - 1, ..g }
            }
        },
        MdEventView::Text { text, .. } => match g.heading {
            Some((l, h)) => Grouping { heading: Some((l, h + text)), ..g },
            None => g,
        },
        MdEventView::Break { .. } => match g.heading {
            Some((l, h)) => Grouping { heading: Some((l, h.push(' '))), ..g },
            None => g,
        },
        MdEventView::Other { start, end } => if g.depth == 0 {
            Grouping { out: g.out.push(BlockView { start, end, heading: None }), ..g }
        } else {
            g
        },
    }
}

/// The grouping after `es[..n]`.
pub open spec fn grouped(es: Seq<MdEventView>, n: int) -> Grouping
    decreases n,
{
    if n <= 0 {
        Grouping { depth: 0, start: 0, heading: None, in_metadata: false, out: Seq::empty() }
    } else {
        group_step(grouped(es, n - 1), es[n - 1])
    }
}


/// Groups parse events into top-level blocks with their byte ranges, a
/// heading's level and text collected, metadata blocks dropped.
pub fn blocks_from_events(events: &Vec<MdEvent>) -> (r: Vec<Block>)
    requires
        balanced(event_views(events@)),
    ensures
        block_views(r@) == grouped(event_views(events@), events@.len() as int).out,
{
    let ghost es = event_views(events@);
    let mut out: Vec<Block> = Vec::new();
    let mut depth: usize = 0;
    let mut start: usize = 0;
    let mut heading: Option<(u8, String)> = None;
    let mut in_metadata = false;
    let mut i: usize = 0;
    assert(block_views(out@) =~= Seq::<BlockView>::empty());
    while i < events.len()
        invariant
            i <= events@.len(),
            es == event_views(events@),
            balanced(es),
            depth <= i,
            depth as int == open_after(es, i as int),
            grouped(es, i as int) == (Grouping {
                depth: depth as int,
                start: start as int,
                heading: match heading {
                    Some((l, t)) => Some((l, t@)),
                    None => None,
                },
                in_metadata,
                out: block_views(out@),
            }),
        decreases events.len() - i,
    {
        assert(es[i as int] == event_view(events@[i as int]));
        assert(open_after(es, i + 1) >= 0);
        match &events[i] {
            MdEvent::Start(h, metadata, s, _) => {
                if depth == 0 {
                    start = *s;
                    match h {
                        Some(l) => {
                            heading = Some((*l, String::new()));
                        },
                        None => {
                            if *metadata {
                                in_metadata = true;
                            }
                        },
                    }
                }
                depth += 1;
            },
            MdEvent::End(metadata, _, e) => {
                depth -= 1;
                if depth == 0 {
                    if in_metadata || *metadata {
                        in_metadata = false;
                    } else {
                        let taken = heading;
                        heading = None;
                        out.push(Block { start, end: *e, heading: taken });
                        assert(block_views(out@) =~= grouped(es, i as int).out.push(block_view(out@.last())));
                    }
                }
            },
            MdEvent::Text(t, _, _) => {
                heading = match heading {
                    Some((l, h)) => {
                        let mut h = h;
                        crate::text::push_str(&mut h, t.as_str());
                        Some((l, h))
                    },
                    None => None,
                };
            },
            MdEvent::Break(_, _) => {
                heading = match heading {
                    Some((l, h)) => {
                        let mut h = h;
                        h.push(' ');
                        Some((l, h))
                    },
                    None => None,
                };
            },
            MdEvent::Other(s, e) => {
                if depth == 0 {
                    out.push(Block { start: *s, end: *e, heading: None });
                    assert(block_views(out@) =~= grouped(es, i as int).out.push(block_view(out@.last())));
                }
            },
        }
        i += 1;
    }
    out
}


/// Byte offsets of each character of `v` and of its end: `off[i]` is the
/// UTF-8 length of `v[..i]`.
pub(crate) fn byte_offsets(v: &Vec<char>) -> (off: Vec<u128>)
    ensures
        offsets_of(v@, off@),
{
    let mut off: Vec<u128> = Vec::new();
    off.push(0);
    assert(v@.take(0) =~= Seq::<char>::empty());
    let mut i: usize = 0;
    let mut total: u128 = 0;
    while i < v.len()
        invariant
            i <= v@.len(),
            off@.len() == i + 1,
            total == off@[i as int],
            total <= 4 * i,
            forall|k: int| 0 <= k <= i ==> #[trigger] off@[k] == byte_len(v@.take(k)),
            forall|a: int, b: int| 0 <= a < b <= i ==> #[trigger] off@[a] < #[trigger] off@[b],
        decreases v.len() - i,
    {
        assert(v@.take(i + 1).drop_last() =~= v@.take(i as int));
        let w = width_of(v[i]) as u128;
        total = total + w;
        off.push(total);
        i += 1;
    }
    off
}

/// `off` lists the byte offset of every character boundary of `v`, in order.
pub open spec fn offsets_of(v: Seq<char>, off: Seq<u128>) -> bool {
    &&& off.len() == v.len() + 1
    &&& forall|i: int| 0 <= i <= v.len() ==> #[trigger] off[i] == byte_len(v.take(i))
    &&& forall|a: int, b: int| 0 <= a < b <= v.len() ==> #[trigger] off[a] < #[trigger] off[b]
    &&& off[v.len() as int] <= 4 * v.len()
}

/// Bytes of `v[a..b]`.
pub open spec fn bl(v: Seq<char>, a: int, b: int) -> int {
    byte_len(v.subrange(a, b))
}

pub proof fn lemma_bl(v: Seq<char>, a: int, b: int)
    requires
        0 <= a <= b <= v.len(),
    ensures
        bl(v, a, b) == byte_len(v.take(b)) - byte_len(v.take(a)),
{
    assert(v.take(b) =~= v.take(a) + v.subrange(a, b));
    lemma_byte_len_concat(v.take(a), v.subrange(a, b));
}

/// One character takes one to four bytes.
pub proof fn lemma_bl_one(v: Seq<char>, a: int)
    requires
        0 <= a < v.len(),
    ensures
        1 <= bl(v, a, a + 1) <= 4,
{
    let s = v.subrange(a, a + 1);
    assert(s.drop_last() =~= Seq::<char>::empty());
    assert(byte_len(s.drop_last()) == 0);
    assert(s.last() == v[a]);
}

/// `i` is the character index at byte offset `o` of `v`.
pub open spec fn at_char(v: Seq<char>, o: int, i: int) -> bool {
    0 <= i <= v.len() && byte_len(v.take(i)) == o
}

/// The index of the character that starts at byte `o` of `v` (or of the end
/// of `v`); `None` when `o` falls inside a character or past the end.
pub open spec fn char_pos(v: Seq<char>, o: int) -> Option<int> {
    if exists|i: int| at_char(v, o, i) {
        Some(choose|i: int| at_char(v, o, i))
    } else {
        None
    }
}

/// Finds the character index at byte offset `o` by bisection on the offsets.
pub(crate) fn char_pos_of(off: &Vec<u128>, o: usize, Ghost(v): Ghost<Seq<char>>) -> (r: Option<usize>)
    requires
        offsets_of(v, off@),
    ensures
        match r {
            Some(i) => char_pos(v, o as int) == Some(i as int) && i <= v.len(),
            None => char_pos(v, o as int) is None,
        },
{
    let mut lo: usize = 0;
    let mut hi: usize = off.len();
    while lo < hi
        invariant
            offsets_of(v, off@),
            lo <= hi <= off@.len(),
            forall|k: int| 0 <= k < lo ==> #[trigger] off@[k] < o,
            forall|k: int| hi <= k < off@.len() ==> #[trigger] off@[k] > o,
        decreases hi - lo,
    {
        let mid = lo + (hi - lo) / 2;
        if off[mid] == o as u128 {
            proof {
                assert(at_char(v, o as int, mid as int));
                let c = choose|i: int| at_char(v, o as int, i);
                assert(at_char(v, o as int, c));
                if c < mid {
                    assert(off@[c] < off@[mid as int]);
                } else if c > mid {
                    assert(off@[mid as int] < off@[c]);
                }
            }
            return Some(mid);
        } else if off[mid] < o as u128 {
            assert forall|k: int| 0 <= k < mid + 1 implies #[trigger] off@[k] < o by {
                if k < mid {
                    assert(off@[k] < off@[mid as int]);
                }
            }
            lo = mid + 1;
        } else {
            assert forall|k: int| mid <= k < off@.len() implies #[trigger] off@[k] > o by {
                if k > mid {
                    assert(off@[mid as int] < off@[k]);
                }
            }
            hi = mid;
        }
    }
    assert forall|i: int| !at_char(v, o as int, i) by {
        if at_char(v, o as int, i) {
            assert(off@[i] == o);
        }
    }
    None
}

/// A character a sentence or line can end with.
pub open spec fn ends_sentence(c: char) -> bool {
    c == '.' || c == '!' || c == '?' || c == '\n'
}

/// The cut points of `v[a..b]`: just after each sentence or line end that is
/// followed by whitespace, in order, then `b`.
pub open spec fn cuts_from(v: Seq<char>, k: int, b: int) -> Seq<int>
    decreases b - k,
{
    if k + 1 >= b {
        seq![b]
    } else if ends_sentence(v[k]) && is_ws(v[k + 1]) {
        seq![k + 1] + cuts_from(v, k + 1, b)
    } else {
        cuts_from(v, k + 1, b)
    }
}

/// The end of a forced cut from `ps`: the furthest character boundary at most
/// `limit` bytes on.
pub open spec fn forced_end(v: Seq<char>, ps: int, e: int, limit: int) -> int
    decreases e - ps,
{
    if e <= ps || bl(v, ps, e) <= limit {
        e
    } else {
        forced_end(v, ps, e - 1, limit)
    }
}

/// Pieces forced while the text up to `cut` is over `limit` from `ps`;
/// returns the pieces and where the next piece starts.
pub open spec fn forced(v: Seq<char>, ps: int, cut: int, limit: int, acc: Seq<(int, int)>) -> (Seq<(int, int)>, int)
    decreases cut - ps,
{
    if bl(v, ps, cut) > limit {
        let e = forced_end(v, ps, cut, limit);
        if ps < e < cut {
            forced(v, e, cut, limit, acc.push((ps, e)))
        } else {
            (acc, ps)
        }
    } else {
        (acc, ps)
    }
}

/// Pieces from the cuts `cs[i..]`, the current piece starting at `ps` and the
/// last cut at `lc`.
pub open spec fn pieces_from(v: Seq<char>, cs: Seq<int>, i: int, ps: int, lc: int, limit: int, acc: Seq<(int, int)>) -> (Seq<(int, int)>, int)
    decreases cs.len() - i,
{
    if i >= cs.len() || i < 0 {
        (acc, ps)
    } else {
        let cut = cs[i];
        let (acc1, ps1) = if bl(v, ps, cut) > limit && lc > ps { (acc.push((ps, lc)), lc) } else { (acc, ps) };
        let (acc2, ps2) = forced(v, ps1, cut, limit, acc1);
        pieces_from(v, cs, i + 1, ps2, cut, limit, acc2)
    }
}

/// The pieces of `v[a..b]` whose trimmed text is not empty.
pub open spec fn nonblank_pieces(v: Seq<char>, ps: Seq<(int, int)>) -> Seq<(int, int)>
    decreases ps.len(),
{
    if ps.len() == 0 {
        ps
    } else if trim(v.subrange(ps.last().0, ps.last().1)).len() > 0 {
        nonblank_pieces(v, ps.drop_last()).push(ps.last())
    } else {
        nonblank_pieces(v, ps.drop_last())
    }
}

/// `v[a..b]` in ranges no longer than `limit` bytes where possible, cut
/// after sentence ends or line breaks; a single sentence over the limit is
/// cut at the last character that fits. Blank ranges are dropped.
pub open spec fn split_ranges(v: Seq<char>, a: int, b: int, limit: int) -> Seq<(int, int)> {
    let (ps, start) = pieces_from(v, cuts_from(v, a, b), 0, a, a, limit, Seq::empty());
    let all = if start < b { ps.push((start, b)) } else { ps };
    nonblank_pieces(v, all)
}

/// The positions of `cs` as integers.
pub open spec fn ints(cs: Seq<usize>) -> Seq<int> {
    cs.map_values(|c: usize| c as int)
}

/// Ranges as pairs of integers.
pub open spec fn pairs(r: Seq<(usize, usize)>) -> Seq<(int, int)> {
    r.map_values(|p: (usize, usize)| (p.0 as int, p.1 as int))
}

/// The cut points run up from `k` to `b`, in order, and end at `b`.
pub proof fn lemma_cuts(v: Seq<char>, k: int, b: int)
    requires
        k <= b,
    ensures
        cuts_from(v, k, b).len() > 0,
        cuts_from(v, k, b).last() == b,
        forall|i: int| 0 <= i < cuts_from(v, k, b).len() ==> k <= #[trigger] cuts_from(v, k, b)[i] <= b,
        k < b ==> forall|i: int| 0 <= i < cuts_from(v, k, b).len() ==> k < #[trigger] cuts_from(v, k, b)[i],
        forall|i: int, j: int| 0 <= i < j < cuts_from(v, k, b).len() ==> #[trigger] cuts_from(v, k, b)[i] < #[trigger] cuts_from(v, k, b)[j],
    decreases b - k,
{
    if k + 1 < b {
        lemma_cuts(v, k + 1, b);
        let rest = cuts_from(v, k + 1, b);
        if ends_sentence(v[k]) && is_ws(v[k + 1]) {
            let cs = seq![k + 1] + rest;
            assert forall|i: int| 0 < i < cs.len() implies #[trigger] cs[i] == rest[i - 1] by {}
            assert(cs[0] == k + 1);
        }
    }
}

fn is_sentence_end(c: char) -> (r: bool)
    ensures
        r == ends_sentence(c),
{
    c == '.' || c == '!' || c == '?' || c == '\n'
}

/// The cut points of `v[a..b]`.
fn sentence_cuts(v: &Vec<char>, a: usize, b: usize) -> (cs: Vec<usize>)
    requires
        a <= b <= v.len(),
    ensures
        ints(cs@) == cuts_from(v@, a as int, b as int),
{
    let mut cs: Vec<usize> = Vec::new();
    let mut k = a;
    assert(ints(cs@) + cuts_from(v@, a as int, b as int) =~= cuts_from(v@, a as int, b as int));
    while b - k > 1
        invariant
            a <= k <= b <= v.len(),
            cuts_from(v@, a as int, b as int) == ints(cs@) + cuts_from(v@, k as int, b as int),
        decreases b - k,
    {
        let ghost before = ints(cs@);
        if is_sentence_end(v[k]) && is_whitespace(v[k + 1]) {
            cs.push(k + 1);
            assert(ints(cs@) =~= before.push(k + 1));
            assert(before + (seq![k + 1] + cuts_from(v@, k + 1, b as int)) =~= before.push(k + 1)
                + cuts_from(v@, k + 1, b as int));
        }
        k += 1;
    }
    let ghost before = ints(cs@);
    cs.push(b);
    assert(ints(cs@) =~= before.push(b as int));
    assert(before + seq![b as int] =~= before.push(b as int));
    cs
}

/// `v[a..b]` in pieces of at most `limit` bytes where the sentences allow,
/// blank pieces dropped.
#[verifier::spinoff_prover]
pub(crate) fn split_long(v: &Vec<char>, off: &Vec<u128>, a: usize, b: usize, limit: usize) -> (r: Vec<(usize, usize)>)
    requires
        offsets_of(v@, off@),
        a <= b <= v.len(),
        4 <= limit,
    ensures
        pairs(r@) == split_ranges(v@, a as int, b as int, limit as int),
        forall|j: int| 0 <= j < r@.len() ==> a <= #[trigger] r@[j].0 < r@[j].1 <= b,
{
    let cs = sentence_cuts(v, a, b);
    let ghost csv = ints(cs@);
    let ghost lim = limit as int;
    proof {
        lemma_cuts(v@, a as int, b as int);
        assert(csv.len() == cs@.len());
        assert(forall|k: int| 0 <= k < cs@.len() ==> #[trigger] csv[k] == cs@[k] as int);
    }
    let mut acc: Vec<(usize, usize)> = Vec::new();
    let mut ps = a;
    let mut lc = a;
    let mut i: usize = 0;
    assert(pairs(acc@) =~= Seq::<(int, int)>::empty());
    while i < cs.len()
        invariant
            offsets_of(v@, off@),
            a <= b <= v.len(),
            4 <= limit,
            lim == limit as int,
            csv == ints(cs@),
            csv == cuts_from(v@, a as int, b as int),
            csv.len() == cs@.len(),
            forall|k: int| 0 <= k < cs@.len() ==> #[trigger] csv[k] == cs@[k] as int,
            forall|k: int| 0 <= k < csv.len() ==> a <= #[trigger] csv[k] <= b,
            forall|k: int, l: int| 0 <= k < l < csv.len() ==> #[trigger] csv[k] < #[trigger] csv[l],
            i <= cs.len(),
            a <= ps <= lc <= b,
            i < cs.len() ==> lc <= csv[i as int],
            pieces_from(v@, csv, 0, a as int, a as int, lim, Seq::empty())
                == pieces_from(v@, csv, i as int, ps as int, lc as int, lim, pairs(acc@)),
            forall|j: int| 0 <= j < acc@.len() ==> a <= #[trigger] acc@[j].0 <= acc@[j].1 <= b,
        decreases cs.len() - i,
    {
        let cut = cs[i];
        proof {
            lemma_bl(v@, ps as int, cut as int);
            if ps < cut {
                assert(off@[ps as int] < off@[cut as int]);
            }
        }
        if off[cut] - off[ps] > limit as u128 && lc > ps {
            let ghost before = pairs(acc@);
            acc.push((ps, lc));
            assert(pairs(acc@) =~= before.push((ps as int, lc as int)));
            ps = lc;
        }
        let ghost acc1 = pairs(acc@);
        let ghost ps1 = ps as int;
        proof {
            lemma_bl(v@, ps as int, cut as int);
            if ps < cut {
                assert(off@[ps as int] < off@[cut as int]);
            }
        }
        while off[cut] - off[ps] > limit as u128
            invariant
                offsets_of(v@, off@),
                a <= ps <= cut <= b <= v.len(),
                4 <= limit,
                lim == limit as int,
                forced(v@, ps1, cut as int, lim, acc1) == forced(v@, ps as int, cut as int, lim, pairs(acc@)),
                forall|j: int| 0 <= j < acc@.len() ==> a <= #[trigger] acc@[j].0 <= acc@[j].1 <= b,
                off@[ps as int] <= off@[cut as int],
                off@[cut as int] - off@[ps as int] == bl(v@, ps as int, cut as int),
            decreases cut - ps,
        {
            let mut e = cut;
            while e > ps && off[e] - off[ps] > limit as u128
                invariant
                    offsets_of(v@, off@),
                    ps < e <= cut <= v.len(),
                    4 <= limit,
                    lim == limit as int,
                    off@[cut as int] - off@[ps as int] > limit,
                    forced_end(v@, ps as int, cut as int, lim) == forced_end(v@, ps as int, e as int, lim),
                decreases e,
            {
                proof {
                    lemma_bl(v@, ps as int, e as int);
                    lemma_bl(v@, ps as int, ps + 1);
                    lemma_bl_one(v@, ps as int);
                    assert(off@[ps as int] < off@[e as int]);
                }
                e -= 1;
            }
            proof {
                lemma_bl(v@, ps as int, e as int);
                assert(off@[ps as int] < off@[e as int]);
                assert(forced_end(v@, ps as int, e as int, lim) == e);
            }
            let ghost before = pairs(acc@);
            acc.push((ps, e));
            assert(pairs(acc@) =~= before.push((ps as int, e as int)));
            ps = e;
            proof {
                lemma_bl(v@, ps as int, cut as int);
                assert(off@[ps as int] < off@[cut as int]);
            }
        }
        lc = cut;
        i += 1;
    }
    let mut all = acc;
    if ps < b {
        let ghost before = pairs(all@);
        let ghost prev = all@;
        all.push((ps, b));
        assert(pairs(all@) =~= before.push((ps as int, b as int)));
        assert forall|k: int| 0 <= k < all@.len() implies a <= #[trigger] all@[k].0 <= all@[k].1 <= b by {
            if k < prev.len() {
                assert(all@[k] == prev[k]);
            }
        }
    }
    let ghost allv = pairs(all@);
    let mut out: Vec<(usize, usize)> = Vec::new();
    let mut j: usize = 0;
    assert(allv.take(0) =~= Seq::<(int, int)>::empty());
    assert(pairs(out@) =~= Seq::<(int, int)>::empty());
    while j < all.len()
        invariant
            a <= b <= v.len(),
            allv == pairs(all@),
            j <= all.len(),
            forall|k: int| 0 <= k < all@.len() ==> a <= #[trigger] all@[k].0 <= all@[k].1 <= b,
            pairs(out@) == nonblank_pieces(v@, allv.take(j as int)),
            forall|k: int| 0 <= k < out@.len() ==> a <= #[trigger] out@[k].0 < out@[k].1 <= b,
        decreases all.len() - j,
    {
        let (s, e) = all[j];
        let (lo, hi) = trim_range(v, s, e);
        assert(allv.take(j + 1).drop_last() =~= allv.take(j as int));
        assert(allv.take(j + 1).last() == (s as int, e as int));
        if lo < hi {
            let ghost before = pairs(out@);
            let ghost prev = out@;
            out.push((s, e));
            assert(pairs(out@) =~= before.push((s as int, e as int)));
            assert forall|k: int| 0 <= k < out@.len() implies a <= #[trigger] out@[k].0 < out@[k].1 <= b by {
                if k < prev.len() {
                    assert(out@[k] == prev[k]);
                }
            }
        }
        j += 1;
    }
    assert(allv.take(all.len() as int) =~= allv);
    assert(forall|k: int| 0 <= k < out@.len() ==> a <= #[trigger] out@[k].0 < out@[k].1 <= b);
    out
}

/// Index just past the last sentence or line end in `t[..k]`, or 0.
pub open spec fn last_end_before(t: Seq<char>, k: int) -> int
    decreases k,
{
    if k <= 0 {
        0
    } else if ends_sentence(t[k - 1]) {
        k
    } else {
        last_end_before(t, k - 1)
    }
}

/// The first character boundary of `t`, from `j` on, at least `cap` bytes
/// in, or the end of `t`.
pub open spec fn first_at_least(t: Seq<char>, cap: int, j: int) -> int
    decreases t.len() - j,
{
    if j >= t.len() || byte_len(t.take(j)) >= cap {
        j
    } else {
        first_at_least(t, cap, j + 1)
    }
}

/// The last sentence (or line) of `s`: with trailing whitespace gone, what
/// follows the last sentence or line end before the final character, moved
/// on if need be to the first character boundary within the last
/// `OVERLAP_LIMIT` bytes, trimmed.
pub open spec fn tail_of(s: Seq<char>) -> Seq<char> {
    let t = trim_end(s);
    let after_end = if t.len() == 0 { 0 } else { last_end_before(t, t.len() - 1) };
    let within_cap = first_at_least(t, byte_len(t) - OVERLAP_LIMIT, 0);
    let from = if after_end >= within_cap { after_end } else { within_cap };
    trim(t.subrange(from, t.len() as int))
}

/// The last sentence (or line) of `text`, capped at `OVERLAP_LIMIT` bytes.
pub fn tail(text: &str) -> (r: String)
    ensures
        r@ == tail_of(text@),
{
    let v = chars_of(text);
    let hi = skip_ws_back(&v, 0, v.len());
    assert(v@.subrange(0, v@.len() as int) =~= v@);
    let ghost t = v@.subrange(0, hi as int);
    assert(t == trim_end(text@));
    let off = byte_offsets(&v);
    let mut k: usize = if hi == 0 { 0 } else { hi - 1 };
    while k > 0 && !is_sentence_end(v[k - 1])
        invariant
            k <= hi <= v@.len(),
            t == v@.subrange(0, hi as int),
            hi == 0 ==> k == 0,
            hi > 0 ==> k < hi && last_end_before(t, hi - 1) == last_end_before(t, k as int),
        decreases k,
    {
        assert(t[k - 1] == v@[k - 1]);
        k -= 1;
    }
    proof {
        if k > 0 {
            assert(t[k - 1] == v@[k - 1]);
        }
    }
    let ghost cap_i = byte_len(t) - OVERLAP_LIMIT;
    assert(t =~= v@.take(hi as int));
    let cap: u128 = if off[hi] > OVERLAP_LIMIT as u128 { off[hi] - OVERLAP_LIMIT as u128 } else { 0 };
    let mut j: usize = 0;
    while j < hi && off[j] < cap
        invariant
            j <= hi <= v@.len(),
            offsets_of(v@, off@),
            t == v@.subrange(0, hi as int),
            t =~= v@.take(hi as int),
            cap_i == byte_len(t) - OVERLAP_LIMIT,
            cap == (if off@[hi as int] > OVERLAP_LIMIT { off@[hi as int] - OVERLAP_LIMIT } else { 0int }),
            first_at_least(t, cap_i, 0) == first_at_least(t, cap_i, j as int),
        decreases hi - j,
    {
        assert(t.take(j as int) =~= v@.take(j as int));
        j += 1;
    }
    proof {
        assert(t.take(j as int) =~= v@.take(j as int));
        assert(first_at_least(t, cap_i, j as int) == j);
    }
    let from = if k >= j { k } else { j };
    let (lo, h2) = trim_range(&v, from, hi);
    assert(t.subrange(from as int, t.len() as int) =~= v@.subrange(from as int, hi as int));
    string_of(&v, lo, h2)
}

/// A passage as plain values.
pub struct ChunkView {
    pub text: Seq<char>,
    pub headings: Seq<Seq<char>>,
    pub start_line: int,
    pub end_line: int,
    pub overlap: Seq<char>,
}

pub open spec fn chunk_view(c: Chunk) -> ChunkView {
    ChunkView {
        text: c.text@,
        headings: c.headings@.map_values(|h: String| h@),
        start_line: c.start_line as int,
        end_line: c.end_line as int,
        overlap: c.overlap@,
    }
}

pub open spec fn chunk_views(cs: Seq<Chunk>) -> Seq<ChunkView> {
    cs.map_values(|c: Chunk| chunk_view(c))
}

/// Number of line breaks in `s`.
pub open spec fn newlines(s: Seq<char>) -> int
    decreases s.len(),
{
    if s.len() == 0 {
        0
    } else {
        newlines(s.drop_last()) + if s.last() == '\n' { 1int } else { 0int }
    }
}

/// The 1-based line of the note that character `k` of `v` is on.
pub open spec fn line_at(v: Seq<char>, k: int) -> int {
    1 + newlines(v.take(k))
}

/// The trimmed text of each piece.
pub open spec fn piece_texts(v: Seq<char>, ps: Seq<(int, int)>) -> Seq<Seq<char>> {
    ps.map_values(|p: (int, int)| trim(v.subrange(p.0, p.1)))
}

/// A passage's text: its pieces trimmed, a blank line between each two.
pub open spec fn pieces_text(v: Seq<char>, ps: Seq<(int, int)>) -> Seq<char> {
    join(piece_texts(v, ps), seq!['\n', '\n'])
}

/// What building passages carries along: the passages so far, the open
/// headings with their levels, the pieces of the passage being built, its
/// size in bytes, and the text it carries over from the passage before.
pub struct ChunkState {
    pub chunks: Seq<ChunkView>,
    pub headings: Seq<(u8, Seq<char>)>,
    pub pieces: Seq<(int, int)>,
    pub size: int,
    pub overlap: Seq<char>,
}

pub open spec fn heading_path(hs: Seq<(u8, Seq<char>)>) -> Seq<Seq<char>> {
    hs.map_values(|h: (u8, Seq<char>)| h.1)
}

/// Ends the passage being built, if it has any piece; `continues` means the
/// next passage is in the same section and carries this one's last sentence.
pub open spec fn flushed(v: Seq<char>, st: ChunkState, continues: bool) -> ChunkState {
    if st.pieces.len() == 0 {
        st
    } else {
        let text = pieces_text(v, st.pieces);
        let s = st.pieces[0].0;
        let e = st.pieces.last().1;
        let c = ChunkView {
            text,
            headings: heading_path(st.headings),
            start_line: line_at(v, s),
            end_line: line_at(v, if e - 1 > s { e - 1 } else { s }),
            overlap: st.overlap,
        };
        ChunkState {
            chunks: st.chunks.push(c),
            headings: st.headings,
            pieces: Seq::empty(),
            size: 0,
            overlap: if continues { tail_of(text) } else { Seq::empty() },
        }
    }
}

/// Adds the piece `v[p.0..p.1]` unless it is blank, first ending the passage
/// when the piece would take it over `CHUNK_SIZE_LIMIT`.
pub open spec fn added(v: Seq<char>, st: ChunkState, p: (int, int)) -> ChunkState {
    let len = byte_len(trim(v.subrange(p.0, p.1)));
    if len == 0 {
        st
    } else {
        let st1 = if st.pieces.len() > 0 && st.size + len + 2 > CHUNK_SIZE_LIMIT {
            flushed(v, st, true)
        } else {
            st
        };
        ChunkState {
            size: st1.size + len + if st1.pieces.len() == 0 { 0int } else { 2int },
            pieces: st1.pieces.push(p),
            ..st1
        }
    }
}

pub open spec fn added_all(v: Seq<char>, st: ChunkState, ps: Seq<(int, int)>) -> ChunkState
    decreases ps.len(),
{
    if ps.len() == 0 {
        st
    } else {
        added(v, added_all(v, st, ps.drop_last()), ps.last())
    }
}

/// The headings of `hs` above level `level`.
pub open spec fn kept_below(hs: Seq<(u8, Seq<char>)>, level: u8) -> Seq<(u8, Seq<char>)>
    decreases hs.len(),
{
    if hs.len() == 0 {
        hs
    } else if hs.last().0 < level {
        kept_below(hs.drop_last(), level).push(hs.last())
    } else {
        kept_below(hs.drop_last(), level)
    }
}

/// A top-level block located by character indices.
pub struct CharBlock {
    pub start: int,
    pub end: int,
    pub heading: Option<(u8, Seq<char>)>,
}

/// One block's effect: a heading ends the passage, replaces the headings at
/// its level or deeper with itself and starts the next passage; any other
/// block adds its pieces.
pub open spec fn block_step(v: Seq<char>, st: ChunkState, b: CharBlock) -> ChunkState {
    match b.heading {
        Some((level, title)) => {
            let st1 = flushed(v, st, false);
            let kept = kept_below(st1.headings, level);
            let t = trim(title);
            added(
                v,
                ChunkState {
                    overlap: Seq::empty(),
                    headings: if t.len() > 0 { kept.push((level, t)) } else { kept },
                    ..st1
                },
                (b.start, b.end),
            )
        },
        None => added_all(v, st, split_ranges(v, b.start, b.end, CHUNK_SIZE_LIMIT as int)),
    }
}

pub open spec fn empty_state() -> ChunkState {
    ChunkState {
        chunks: Seq::empty(),
        headings: Seq::empty(),
        pieces: Seq::empty(),
        size: 0,
        overlap: Seq::empty(),
    }
}

/// The state after the blocks `bs`, in order.
pub open spec fn blocks_done(v: Seq<char>, bs: Seq<CharBlock>) -> ChunkState
    decreases bs.len(),
{
    if bs.len() == 0 {
        empty_state()
    } else {
        block_step(v, blocks_done(v, bs.drop_last()), bs.last())
    }
}

/// The passages of the note `v` made of the blocks `bs`.
pub open spec fn chunked(v: Seq<char>, bs: Seq<CharBlock>) -> Seq<ChunkView> {
    flushed(v, blocks_done(v, bs), false).chunks
}

/// A block located by characters, when both ends fall on character
/// boundaries in order.
pub open spec fn char_block(v: Seq<char>, b: BlockView) -> Option<CharBlock> {
    match (char_pos(v, b.start), char_pos(v, b.end)) {
        (Some(s), Some(e)) => if s <= e {
            Some(CharBlock { start: s, end: e, heading: b.heading })
        } else {
            None
        },
        _ => None,
    }
}

pub open spec fn blocks_located(v: Seq<char>, bs: Seq<BlockView>) -> bool {
    forall|i: int| 0 <= i < bs.len() ==> (#[trigger] char_block(v, bs[i])) is Some
}

pub open spec fn char_blocks(v: Seq<char>, bs: Seq<BlockView>) -> Seq<CharBlock> {
    bs.map_values(|b: BlockView| char_block(v, b).unwrap())
}

/// The top-level blocks of a note, as the parse gives them.
pub open spec fn note_blocks(text: Seq<char>) -> Seq<BlockView> {
    grouped(md_events(text), md_events(text).len() as int).out
}

/// Number of line breaks in `v[..k]`.
fn newlines_before(v: &Vec<char>, k: usize) -> (r: usize)
    requires
        k <= v.len(),
    ensures
        r == newlines(v@.take(k as int)),
        r <= k,
{
    let mut n: usize = 0;
    let mut i: usize = 0;
    assert(v@.take(0) =~= Seq::<char>::empty());
    while i < k
        invariant
            i <= k <= v.len(),
            n <= i,
            n == newlines(v@.take(i as int)),
        decreases k - i,
    {
        assert(v@.take(i + 1).drop_last() =~= v@.take(i as int));
        if v[i] == '\n' {
            n += 1;
        }
        i += 1;
    }
    n
}

/// The passages made so far and the one being built.
struct Builder {
    chunks: Vec<Chunk>,
    headings: Vec<(u8, String)>,
    pieces: Vec<(usize, usize)>,
    size: u128,
    overlap: String,
}

pub open spec fn heading_views(hs: Seq<(u8, String)>) -> Seq<(u8, Seq<char>)> {
    hs.map_values(|h: (u8, String)| (h.0, h.1@))
}

impl Builder {
    spec fn state(&self) -> ChunkState {
        ChunkState {
            chunks: chunk_views(self.chunks@),
            headings: heading_views(self.headings@),
            pieces: pairs(self.pieces@),
            size: self.size as int,
            overlap: self.overlap@,
        }
    }

    /// The pieces lie in a note of `n` characters and `total` bytes, and the
    /// size stays in bounds.
    spec fn fits(&self, n: int, total: int) -> bool {
        &&& forall|j: int| 0 <= j < self.pieces@.len() ==> #[trigger] self.pieces@[j].0 < self.pieces@[j].1 <= n
        &&& self.size <= CHUNK_SIZE_LIMIT + total
        &&& self.pieces@.len() == 0 ==> self.size == 0
    }

    fn flush(&mut self, v: &Vec<char>, off: &Vec<u128>, continues: bool)
        requires
            offsets_of(v@, off@),
            old(self).fits(v@.len() as int, off@[v@.len() as int] as int),
        ensures
            final(self).state() == flushed(v@, old(self).state(), continues),
            final(self).fits(v@.len() as int, off@[v@.len() as int] as int),
    {
        if self.pieces.len() == 0 {
            return;
        }
        let ghost st = self.state();
        let ghost ps = pairs(self.pieces@);
        let start = self.pieces[0].0;
        let end = self.pieces[self.pieces.len() - 1].1;
        let mut text = String::new();
        let mut j: usize = 0;
        assert(piece_texts(v@, ps.take(0)) =~= Seq::<Seq<char>>::empty());
        while j < self.pieces.len()
            invariant
                ps == pairs(self.pieces@),
                forall|k: int| 0 <= k < self.pieces@.len() ==> #[trigger] self.pieces@[k].0 < self.pieces@[k].1 <= v@.len(),
                j <= self.pieces@.len(),
                text@ == pieces_text(v@, ps.take(j as int)),
            decreases self.pieces.len() - j,
        {
            let (s, e) = self.pieces[j];
            let (lo, hi) = trim_range(v, s, e);
            let ghost parts = piece_texts(v@, ps.take(j as int));
            assert(piece_texts(v@, ps.take(j + 1)) =~= parts.push(v@.subrange(lo as int, hi as int)));
            proof {
                crate::text::lemma_join_push(parts, v@.subrange(lo as int, hi as int), seq!['\n', '\n']);
            }
            if j > 0 {
                text.push('\n');
                text.push('\n');
            }
            push_range(&mut text, v, lo, hi);
            assert(text@ =~= pieces_text(v@, ps.take(j + 1)));
            j += 1;
        }
        assert(ps.take(self.pieces.len() as int) =~= ps);
        let mut path: Vec<String> = Vec::new();
        let mut k: usize = 0;
        while k < self.headings.len()
            invariant
                k <= self.headings@.len(),
                path@.map_values(|h: String| h@) == heading_path(heading_views(self.headings@)).take(k as int),
            decreases self.headings.len() - k,
        {
            let ghost before = path@.map_values(|h: String| h@);
            path.push(self.headings[k].1.clone());
            assert(path@.map_values(|h: String| h@) =~= before.push(self.headings@[k as int].1@));
            assert(heading_path(heading_views(self.headings@)).take(k + 1) =~= heading_path(
                heading_views(self.headings@),
            ).take(k as int).push(self.headings@[k as int].1@));
            k += 1;
        }
        assert(heading_path(heading_views(self.headings@)).take(k as int) =~= heading_path(
            heading_views(self.headings@),
        ));
        let start_line = 1 + newlines_before(v, start);
        let last = if end - 1 > start { end - 1 } else { start };
        let end_line = 1 + newlines_before(v, last);
        let mut overlap = String::new();
        std::mem::swap(&mut overlap, &mut self.overlap);
        let chunk = Chunk { text, headings: path, start_line, end_line, overlap };
        if continues {
            self.overlap = tail(chunk.text.as_str());
        }
        let ghost before = self.chunks@;
        self.chunks.push(chunk);
        assert(chunk_views(self.chunks@) =~= chunk_views(before).push(chunk_view(chunk)));
        self.pieces = Vec::new();
        self.size = 0;
        assert(pairs(self.pieces@) =~= Seq::<(int, int)>::empty());
    }

    fn add(&mut self, v: &Vec<char>, off: &Vec<u128>, p: (usize, usize))
        requires
            offsets_of(v@, off@),
            old(self).fits(v@.len() as int, off@[v@.len() as int] as int),
            p.0 <= p.1 <= v@.len(),
        ensures
            final(self).state() == added(v@, old(self).state(), (p.0 as int, p.1 as int)),
            final(self).fits(v@.len() as int, off@[v@.len() as int] as int),
    {
        let n_chars = v.len();
        let ghost n = n_chars as int;
        let (lo, hi) = trim_range(v, p.0, p.1);
        proof {
            lemma_bl(v@, lo as int, hi as int);
            if lo < hi {
                assert(off@[lo as int] < off@[hi as int]);
            }
            if hi < n {
                assert(off@[hi as int] < off@[n]);
            }
        }
        let len = off[hi] - off[lo];
        assert(len <= off@[n] <= 4 * n_chars);
        if len == 0 {
            return;
        }
        if self.pieces.len() > 0 && self.size + len + 2 > CHUNK_SIZE_LIMIT as u128 {
            self.flush(v, off, true);
        }
        let ghost st1 = self.state();
        self.size = self.size + len + if self.pieces.len() == 0 { 0 } else { 2 };
        let ghost before = self.pieces@;
        self.pieces.push(p);
        assert(pairs(self.pieces@) =~= pairs(before).push((p.0 as int, p.1 as int)));
        assert forall|j: int| 0 <= j < self.pieces@.len() implies #[trigger] self.pieces@[j].0 < self.pieces@[j].1 <= n by {
            if j < before.len() {
                assert(self.pieces@[j] == before[j]);
            }
        }
    }
}

/// Whether every block's byte range falls on character boundaries of
/// `text`, in order.
pub fn blocks_found(text: &str, blocks: &Vec<Block>) -> (r: bool)
    ensures
        r == blocks_located(text@, block_views(blocks@)),
{
    let v = chars_of(text);
    let off = byte_offsets(&v);
    let ghost bs = block_views(blocks@);
    let mut i: usize = 0;
    while i < blocks.len()
        invariant
            v@ == text@,
            offsets_of(v@, off@),
            bs == block_views(blocks@),
            i <= blocks@.len(),
            forall|k: int| 0 <= k < i ==> (#[trigger] char_block(v@, bs[k])) is Some,
        decreases blocks.len() - i,
    {
        let s = char_pos_of(&off, blocks[i].start, Ghost(v@));
        let e = char_pos_of(&off, blocks[i].end, Ghost(v@));
        assert(bs[i as int] == block_view(blocks@[i as int]));
        match (s, e) {
            (Some(s), Some(e)) => {
                if s > e {
                    assert(char_block(v@, bs[i as int]) is None);
                    return false;
                }
            },
            _ => {
                assert(char_block(v@, bs[i as int]) is None);
                return false;
            },
        }
        i += 1;
    }
    true
}

/// The passages of `text` made of its top-level `blocks`, located by byte
/// ranges.
pub fn chunk_blocks(text: &str, blocks: &Vec<Block>) -> (r: Vec<Chunk>)
    requires
        blocks_located(text@, block_views(blocks@)),
    ensures
        chunk_views(r@) == chunked(text@, char_blocks(text@, block_views(blocks@))),
{
    let v = chars_of(text);
    let off = byte_offsets(&v);
    let n_chars = v.len();
    let ghost total = off@[n_chars as int] as int;
    let ghost cbs = char_blocks(v@, block_views(blocks@));
    let mut b = Builder {
        chunks: Vec::new(),
        headings: Vec::new(),
        pieces: Vec::new(),
        size: 0,
        overlap: String::new(),
    };
    assert(b.state() == empty_state()) by {
        assert(chunk_views(b.chunks@) =~= Seq::<ChunkView>::empty());
        assert(heading_views(b.headings@) =~= Seq::<(u8, Seq<char>)>::empty());
        assert(pairs(b.pieces@) =~= Seq::<(int, int)>::empty());
    }
    let mut i: usize = 0;
    assert(cbs.take(0) =~= Seq::<CharBlock>::empty());
    while i < blocks.len()
        invariant
            v@ == text@,
            offsets_of(v@, off@),
            n_chars == v@.len(),
            total == off@[n_chars as int],
            blocks_located(v@, block_views(blocks@)),
            cbs == char_blocks(v@, block_views(blocks@)),
            i <= blocks@.len(),
            b.fits(n_chars as int, total),
            b.state() == blocks_done(v@, cbs.take(i as int)),
        decreases blocks.len() - i,
    {
        let blk = &blocks[i];
        let ghost bv = block_view(*blk);
        assert(block_views(blocks@)[i as int] == bv);
        assert(char_block(v@, bv) is Some);
        let s = char_pos_of(&off, blk.start, Ghost(v@)).unwrap();
        let e = char_pos_of(&off, blk.end, Ghost(v@)).unwrap();
        let ghost cb = CharBlock { start: s as int, end: e as int, heading: bv.heading };
        assert(cbs[i as int] == cb);
        assert(cbs.take(i + 1).drop_last() =~= cbs.take(i as int));
        assert(cbs.take(i + 1).last() == cb);
        let ghost st0 = b.state();
        match &blk.heading {
            Some((level, title)) => {
                b.flush(&v, &off, false);
                b.overlap = String::new();
                let ghost hs = heading_views(b.headings@);
                let mut kept: Vec<(u8, String)> = Vec::new();
                let mut k: usize = 0;
                assert(hs.take(0) =~= Seq::<(u8, Seq<char>)>::empty());
                assert(heading_views(kept@) =~= Seq::<(u8, Seq<char>)>::empty());
                while k < b.headings.len()
                    invariant
                        hs == heading_views(b.headings@),
                        k <= b.headings@.len(),
                        heading_views(kept@) == kept_below(hs.take(k as int), *level),
                    decreases b.headings.len() - k,
                {
                    assert(hs.take(k + 1).drop_last() =~= hs.take(k as int));
                    assert(hs.take(k + 1).last() == hs[k as int]);
                    if b.headings[k].0 < *level {
                        let ghost before = heading_views(kept@);
                        kept.push((b.headings[k].0, b.headings[k].1.clone()));
                        assert(heading_views(kept@) =~= before.push(hs[k as int]));
                    }
                    k += 1;
                }
                assert(hs.take(k as int) =~= hs);
                let t = trimmed(title.as_str());
                if !t.as_str().is_empty() {
                    let ghost before = heading_views(kept@);
                    kept.push((*level, t));
                    assert(heading_views(kept@) =~= before.push((*level, trim(title@))));
                }
                b.headings = kept;
                b.add(&v, &off, (s, e));
            },
            None => {
                let ps = split_long(&v, &off, s, e, CHUNK_SIZE_LIMIT);
                let ghost pv = pairs(ps@);
                let mut k: usize = 0;
                assert(pv.take(0) =~= Seq::<(int, int)>::empty());
                while k < ps.len()
                    invariant
                        offsets_of(v@, off@),
                        n_chars == v@.len(),
                        total == off@[n_chars as int],
                        pv == pairs(ps@),
                        forall|j: int| 0 <= j < ps@.len() ==> s <= #[trigger] ps@[j].0 < ps@[j].1 <= e,
                        e <= n_chars,
                        k <= ps@.len(),
                        b.fits(n_chars as int, total),
                        b.state() == added_all(v@, st0, pv.take(k as int)),
                    decreases ps.len() - k,
                {
                    assert(pv.take(k + 1).drop_last() =~= pv.take(k as int));
                    assert(pv.take(k + 1).last() == pv[k as int]);
                    b.add(&v, &off, ps[k]);
                    k += 1;
                }
                assert(pv.take(k as int) =~= pv);
            },
        }
        i += 1;
    }
    assert(cbs.take(i as int) =~= cbs);
    b.flush(&v, &off, false);
    b.chunks
}

/// Splits a note into passages: parsed into top-level blocks, then
/// `chunk_blocks`. Should a block's byte range not fall on character
/// boundaries of the note, no passage is made.
pub fn chunk_markdown(text: &str) -> (r: Vec<Chunk>)
    ensures
        blocks_located(text@, note_blocks(text@)) ==> chunk_views(r@) == chunked(
            text@,
            char_blocks(text@, note_blocks(text@)),
        ),
        !blocks_located(text@, note_blocks(text@)) ==> r@.len() == 0,
{
    let events = markdown_events(text);
    let blocks = blocks_from_events(&events);
    assert(event_views(events@).len() == events@.len());
    if blocks_found(text, &blocks) {
        chunk_blocks(text, &blocks)
    } else {
        Vec::new()
    }
}

pub(crate) proof fn lemma_byte_len_nonneg(s: Seq<char>)
    ensures
        byte_len(s) >= 0,
    decreases s.len(),
{
    if s.len() > 0 {
        lemma_byte_len_nonneg(s.drop_last());
    }
}

proof fn lemma_trim_end_shorter(s: Seq<char>)
    ensures
        byte_len(trim_end(s)) <= byte_len(s),
    decreases s.len(),
{
    if s.len() > 0 && is_ws(s.last()) {
        lemma_trim_end_shorter(s.drop_last());
    }
}

proof fn lemma_trim_start_shorter(s: Seq<char>)
    ensures
        byte_len(crate::text::trim_start(s)) <= byte_len(s),
    decreases s.len(),
{
    if s.len() > 0 && is_ws(s[0]) {
        lemma_trim_start_shorter(s.drop_first());
        assert(s =~= seq![s[0]] + s.drop_first());
        lemma_byte_len_concat(seq![s[0]], s.drop_first());
        lemma_byte_len_nonneg(seq![s[0]]);
    }
}

proof fn lemma_first_at_least(t: Seq<char>, cap: int, j: int)
    requires
        0 <= j <= t.len(),
    ensures
        j <= first_at_least(t, cap, j) <= t.len(),
        first_at_least(t, cap, j) == t.len() || byte_len(t.take(first_at_least(t, cap, j))) >= cap,
    decreases t.len() - j,
{
    if j < t.len() && byte_len(t.take(j)) < cap {
        lemma_first_at_least(t, cap, j + 1);
    }
}

proof fn lemma_last_end_before(t: Seq<char>, k: int)
    requires
        k >= 0,
    ensures
        0 <= last_end_before(t, k) <= k,
    decreases k,
{
    if k > 0 && !ends_sentence(t[k - 1]) {
        lemma_last_end_before(t, k - 1);
    }
}

/// What a passage carries over from the one before is at most
/// `OVERLAP_LIMIT` bytes.
pub proof fn law_tail_capped(s: Seq<char>)
    ensures
        byte_len(tail_of(s)) <= OVERLAP_LIMIT,
{
    let t = trim_end(s);
    let cap = byte_len(t) - OVERLAP_LIMIT;
    let after_end = if t.len() == 0 { 0 } else { last_end_before(t, t.len() - 1) };
    let within_cap = first_at_least(t, cap, 0);
    if t.len() > 0 {
        lemma_last_end_before(t, t.len() - 1);
    }
    lemma_first_at_least(t, cap, 0);
    let from = if after_end >= within_cap { after_end } else { within_cap };
    let sub = t.subrange(from, t.len() as int);
    assert(t.take(t.len() as int) =~= t);
    lemma_bl(t, from, t.len() as int);
    if within_cap < t.len() {
        lemma_bl(t, within_cap, from);
        lemma_byte_len_nonneg(t.subrange(within_cap, from));
    } else {
        assert(sub.len() == 0);
    }
    lemma_trim_start_shorter(sub);
    lemma_trim_end_shorter(crate::text::trim_start(sub));
}

/// Every range of `ps` lies in `v[a..b]` and holds at most `limit` bytes.
pub open spec fn ranges_fit(v: Seq<char>, ps: Seq<(int, int)>, a: int, b: int, limit: int) -> bool {
    forall|k: int| 0 <= k < ps.len() ==> {
        &&& a <= (#[trigger] ps[k]).0 <= ps[k].1 <= b
        &&& bl(v, ps[k].0, ps[k].1) <= limit
    }
}

proof fn lemma_forced_end(v: Seq<char>, ps: int, e: int, limit: int)
    requires
        0 <= ps < e <= v.len(),
        4 <= limit,
    ensures
        ps < forced_end(v, ps, e, limit) <= e,
        bl(v, ps, forced_end(v, ps, e, limit)) <= limit,
        bl(v, ps, e) > limit ==> forced_end(v, ps, e, limit) < e,
    decreases e - ps,
{
    if bl(v, ps, e) > limit {
        lemma_bl_one(v, ps);
        if e - 1 > ps {
            lemma_forced_end(v, ps, e - 1, limit);
        }
    }
}

proof fn lemma_forced(v: Seq<char>, ps: int, cut: int, limit: int, acc: Seq<(int, int)>, a: int, b: int)
    requires
        a <= ps <= cut <= b <= v.len(),
        0 <= a,
        4 <= limit,
        ranges_fit(v, acc, a, b, limit),
    ensures
        ranges_fit(v, forced(v, ps, cut, limit, acc).0, a, b, limit),
        ps <= forced(v, ps, cut, limit, acc).1 <= cut,
        bl(v, forced(v, ps, cut, limit, acc).1, cut) <= limit,
    decreases cut - ps,
{
    if bl(v, ps, cut) > limit {
        if ps == cut {
            assert(v.subrange(ps, cut).len() == 0);
        }
        lemma_forced_end(v, ps, cut, limit);
        let e = forced_end(v, ps, cut, limit);
        let acc1 = acc.push((ps, e));
        assert forall|k: int| 0 <= k < acc1.len() implies {
            &&& a <= (#[trigger] acc1[k]).0 <= acc1[k].1 <= b
            &&& bl(v, acc1[k].0, acc1[k].1) <= limit
        } by {
            if k < acc.len() {
                assert(acc1[k] == acc[k]);
            }
        }
        lemma_forced(v, e, cut, limit, acc1, a, b);
    }
}

proof fn lemma_pieces_from(
    v: Seq<char>,
    cs: Seq<int>,
    i: int,
    ps: int,
    lc: int,
    limit: int,
    acc: Seq<(int, int)>,
    a: int,
    b: int,
)
    requires
        0 <= a <= b <= v.len(),
        4 <= limit,
        0 <= i <= cs.len(),
        forall|k: int| 0 <= k < cs.len() ==> a <= #[trigger] cs[k] <= b,
        forall|k: int, l: int| 0 <= k < l < cs.len() ==> #[trigger] cs[k] < #[trigger] cs[l],
        a <= ps <= lc <= b,
        i < cs.len() ==> lc <= cs[i],
        bl(v, ps, lc) <= limit,
        ranges_fit(v, acc, a, b, limit),
    ensures
        ranges_fit(v, pieces_from(v, cs, i, ps, lc, limit, acc).0, a, b, limit),
        a <= pieces_from(v, cs, i, ps, lc, limit, acc).1,
        i < cs.len() ==> pieces_from(v, cs, i, ps, lc, limit, acc).1 <= cs.last(),
        i < cs.len() ==> bl(v, pieces_from(v, cs, i, ps, lc, limit, acc).1, cs.last()) <= limit,
    decreases cs.len() - i,
{
    if i < cs.len() {
        let cut = cs[i];
        let (acc1, ps1) = if bl(v, ps, cut) > limit && lc > ps {
            (acc.push((ps, lc)), lc)
        } else {
            (acc, ps)
        };
        assert forall|k: int| 0 <= k < acc1.len() implies {
            &&& a <= (#[trigger] acc1[k]).0 <= acc1[k].1 <= b
            &&& bl(v, acc1[k].0, acc1[k].1) <= limit
        } by {
            if k < acc.len() {
                assert(acc1[k] == acc[k]);
            }
        }
        lemma_forced(v, ps1, cut, limit, acc1, a, b);
        let (acc2, ps2) = forced(v, ps1, cut, limit, acc1);
        if i + 1 < cs.len() {
            assert(cs[i] < cs[i + 1]);
        }
        lemma_pieces_from(v, cs, i + 1, ps2, cut, limit, acc2, a, b);
        if i + 1 == cs.len() {
            assert(cs.last() == cut);
        }
    }
}

proof fn lemma_nonblank_sub(v: Seq<char>, ps: Seq<(int, int)>, a: int, b: int, limit: int)
    requires
        ranges_fit(v, ps, a, b, limit),
    ensures
        ranges_fit(v, nonblank_pieces(v, ps), a, b, limit),
    decreases ps.len(),
{
    if ps.len() > 0 {
        let rest = ps.drop_last();
        assert forall|k: int| 0 <= k < rest.len() implies {
            &&& a <= (#[trigger] rest[k]).0 <= rest[k].1 <= b
            &&& bl(v, rest[k].0, rest[k].1) <= limit
        } by {
            assert(rest[k] == ps[k]);
        }
        lemma_nonblank_sub(v, rest, a, b, limit);
        let r = nonblank_pieces(v, rest);
        let last = ps.last();
        if trim(v.subrange(last.0, last.1)).len() > 0 {
            let r2 = r.push(last);
            assert forall|k: int| 0 <= k < r2.len() implies {
                &&& a <= (#[trigger] r2[k]).0 <= r2[k].1 <= b
                &&& bl(v, r2[k].0, r2[k].1) <= limit
            } by {
                if k < r.len() {
                    assert(r2[k] == r[k]);
                }
            }
        }
    }
}

/// A block too long for one passage is cut into ranges within the block of
/// at most `limit` bytes each: at sentence or line ends where it can be, and
/// through an over-long sentence where it cannot.
pub proof fn law_split_pieces_fit(v: Seq<char>, a: int, b: int, limit: int)
    requires
        0 <= a <= b <= v.len(),
        4 <= limit,
    ensures
        ranges_fit(v, split_ranges(v, a, b, limit), a, b, limit),
{
    let cs = cuts_from(v, a, b);
    lemma_cuts(v, a, b);
    assert(v.subrange(a, a).len() == 0);
    lemma_pieces_from(v, cs, 0, a, a, limit, Seq::empty(), a, b);
    let (ps, start) = pieces_from(v, cs, 0, a, a, limit, Seq::empty());
    let all = if start < b { ps.push((start, b)) } else { ps };
    assert forall|k: int| 0 <= k < all.len() implies {
        &&& a <= (#[trigger] all[k]).0 <= all[k].1 <= b
        &&& bl(v, all[k].0, all[k].1) <= limit
    } by {
        if k < ps.len() {
            assert(all[k] == ps[k]);
        }
    }
    lemma_nonblank_sub(v, all, a, b, limit);
}

/// Block `i` of `bs` is a heading spanning exactly `p`.
pub open spec fn heading_piece(bs: Seq<CharBlock>, p: (int, int)) -> bool {
    exists|i: int| 0 <= i < bs.len() && (#[trigger] bs[i]).heading is Some && bs[i].start == p.0 && bs[i].end == p.1
}

/// A piece whose text fits a passage, or a heading block.
pub open spec fn piece_ok(v: Seq<char>, bs: Seq<CharBlock>, p: (int, int)) -> bool {
    byte_len(trim(v.subrange(p.0, p.1))) <= CHUNK_SIZE_LIMIT || heading_piece(bs, p)
}

/// A passage within `CHUNK_SIZE_LIMIT` bytes, or the text of a single heading.
pub open spec fn passage_fits(v: Seq<char>, bs: Seq<CharBlock>, c: ChunkView) -> bool {
    byte_len(c.text) <= CHUNK_SIZE_LIMIT || exists|i: int|
        0 <= i < bs.len() && (#[trigger] bs[i]).heading is Some && c.text == trim(v.subrange(bs[i].start, bs[i].end))
}

/// The size tracks the passage being built, which stays within the limit
/// unless it is one heading, and every finished passage fits.
pub open spec fn state_fits(v: Seq<char>, bs: Seq<CharBlock>, st: ChunkState) -> bool {
    &&& st.size == (if st.pieces.len() == 0 { 0 } else { byte_len(pieces_text(v, st.pieces)) })
    &&& st.pieces.len() >= 2 ==> st.size <= CHUNK_SIZE_LIMIT
    &&& st.pieces.len() == 1 ==> piece_ok(v, bs, st.pieces[0])
    &&& forall|k: int| 0 <= k < st.chunks.len() ==> passage_fits(v, bs, #[trigger] st.chunks[k])
}

/// Every block lies within `v`, in order.
pub open spec fn blocks_within(v: Seq<char>, bs: Seq<CharBlock>) -> bool {
    forall|i: int| 0 <= i < bs.len() ==> 0 <= (#[trigger] bs[i]).start <= bs[i].end <= v.len()
}

proof fn lemma_flushed_fits(v: Seq<char>, bs: Seq<CharBlock>, st: ChunkState, continues: bool)
    requires
        state_fits(v, bs, st),
    ensures
        state_fits(v, bs, flushed(v, st, continues)),
{
    if st.pieces.len() > 0 {
        let f = flushed(v, st, continues);
        let c = f.chunks.last();
        assert(c.text == pieces_text(v, st.pieces));
        if st.pieces.len() == 1 {
            let p = st.pieces[0];
            assert(piece_texts(v, st.pieces) =~= seq![trim(v.subrange(p.0, p.1))]);
            assert(c.text == trim(v.subrange(p.0, p.1)));
            if !(byte_len(trim(v.subrange(p.0, p.1))) <= CHUNK_SIZE_LIMIT) {
                let i = choose|i: int|
                    0 <= i < bs.len() && (#[trigger] bs[i]).heading is Some && bs[i].start == p.0 && bs[i].end == p.1;
                assert(c.text == trim(v.subrange(bs[i].start, bs[i].end)));
            }
        }
        assert(passage_fits(v, bs, c));
        assert forall|k: int| 0 <= k < f.chunks.len() implies passage_fits(v, bs, #[trigger] f.chunks[k]) by {
            if k < st.chunks.len() {
                assert(f.chunks[k] == st.chunks[k]);
            }
        }
    }
}

proof fn lemma_two_newlines()
    ensures
        byte_len(seq!['\n', '\n']) == 2,
{
    let s = seq!['\n', '\n'];
    let one = seq!['\n'];
    assert(s.drop_last() =~= one);
    assert(one.drop_last() =~= Seq::<char>::empty());
    assert(byte_len(Seq::<char>::empty()) == 0);
    assert(one.last() == '\n');
    assert(utf8_width('\n') == 1);
    assert(byte_len(one) == 1);
    assert(s.last() == '\n');
}

proof fn lemma_added_fits(v: Seq<char>, bs: Seq<CharBlock>, st: ChunkState, p: (int, int))
    requires
        state_fits(v, bs, st),
        piece_ok(v, bs, p),
    ensures
        state_fits(v, bs, added(v, st, p)),
{
    let len = byte_len(trim(v.subrange(p.0, p.1)));
    if len != 0 {
        let st1 = if st.pieces.len() > 0 && st.size + len + 2 > CHUNK_SIZE_LIMIT {
            flushed(v, st, true)
        } else {
            st
        };
        lemma_flushed_fits(v, bs, st, true);
        let r = added(v, st, p);
        let t = trim(v.subrange(p.0, p.1));
        assert(piece_texts(v, st1.pieces.push(p)) =~= piece_texts(v, st1.pieces).push(t));
        crate::text::lemma_join_push(piece_texts(v, st1.pieces), t, seq!['\n', '\n']);
        if st1.pieces.len() == 0 {
            assert(r.pieces =~= seq![p]);
            assert(pieces_text(v, r.pieces) == t);
        } else {
            lemma_two_newlines();
            lemma_byte_len_concat(pieces_text(v, st1.pieces), seq!['\n', '\n']);
            lemma_byte_len_concat(pieces_text(v, st1.pieces) + seq!['\n', '\n'], t);
        }
    }
}

proof fn lemma_added_all_fits(v: Seq<char>, bs: Seq<CharBlock>, st: ChunkState, ps: Seq<(int, int)>)
    requires
        state_fits(v, bs, st),
        forall|k: int| 0 <= k < ps.len() ==> piece_ok(v, bs, #[trigger] ps[k]),
    ensures
        state_fits(v, bs, added_all(v, st, ps)),
    decreases ps.len(),
{
    if ps.len() > 0 {
        assert forall|k: int| 0 <= k < ps.drop_last().len() implies piece_ok(v, bs, #[trigger] ps.drop_last()[k]) by {
            assert(ps.drop_last()[k] == ps[k]);
        }
        lemma_added_all_fits(v, bs, st, ps.drop_last());
        assert(piece_ok(v, bs, ps[ps.len() - 1]));
        lemma_added_fits(v, bs, added_all(v, st, ps.drop_last()), ps.last());
    }
}

proof fn lemma_blocks_done_fit(v: Seq<char>, bs: Seq<CharBlock>, n: int)
    requires
        blocks_within(v, bs),
        0 <= n <= bs.len(),
    ensures
        state_fits(v, bs, blocks_done(v, bs.take(n))),
    decreases n,
{
    if n == 0 {
        assert(bs.take(0) =~= Seq::<CharBlock>::empty());
        assert(state_fits(v, bs, empty_state()));
    } else {
        lemma_blocks_done_fit(v, bs, n - 1);
        assert(bs.take(n).drop_last() =~= bs.take(n - 1));
        assert(bs.take(n).last() == bs[n - 1]);
        let st = blocks_done(v, bs.take(n - 1));
        let b = bs[n - 1];
        match b.heading {
            Some((level, title)) => {
                let st1 = flushed(v, st, false);
                lemma_flushed_fits(v, bs, st, false);
                let kept = kept_below(st1.headings, level);
                let t = trim(title);
                let st2 = ChunkState {
                    overlap: Seq::empty(),
                    headings: if t.len() > 0 { kept.push((level, t)) } else { kept },
                    ..st1
                };
                assert(heading_piece(bs, (b.start, b.end)));
                lemma_added_fits(v, bs, st2, (b.start, b.end));
            },
            None => {
                let ps = split_ranges(v, b.start, b.end, CHUNK_SIZE_LIMIT as int);
                law_split_pieces_fit(v, b.start, b.end, CHUNK_SIZE_LIMIT as int);
                assert forall|k: int| 0 <= k < ps.len() implies piece_ok(v, bs, #[trigger] ps[k]) by {
                    let sub = v.subrange(ps[k].0, ps[k].1);
                    lemma_trim_start_shorter(sub);
                    lemma_trim_end_shorter(crate::text::trim_start(sub));
                }
                lemma_added_all_fits(v, bs, st, ps);
            },
        }
    }
}

/// Every passage holds at most `CHUNK_SIZE_LIMIT` bytes of text, unless it is
/// the text of a single heading longer than that: sections are split between
/// blocks, and blocks between sentences or, failing that, characters.
pub proof fn law_passages_fit(v: Seq<char>, bs: Seq<CharBlock>)
    requires
        blocks_within(v, bs),
    ensures
        forall|k: int| 0 <= k < chunked(v, bs).len() ==> passage_fits(v, bs, #[trigger] chunked(v, bs)[k]),
{
    lemma_blocks_done_fit(v, bs, bs.len() as int);
    assert(bs.take(bs.len() as int) =~= bs);
    lemma_flushed_fits(v, bs, blocks_done(v, bs), false);
}

proof fn lemma_located_within(v: Seq<char>, bs: Seq<BlockView>)
    requires
        blocks_located(v, bs),
    ensures
        blocks_within(v, char_blocks(v, bs)),
{
    let cbs = char_blocks(v, bs);
    assert forall|i: int| 0 <= i < cbs.len() implies 0 <= (#[trigger] cbs[i]).start <= cbs[i].end <= v.len() by {
        let b = bs[i];
        assert(char_block(v, b) is Some);
        let s = char_pos(v, b.start);
        let e = char_pos(v, b.end);
        assert(at_char(v, b.start, s->0));
        assert(at_char(v, b.end, e->0));
    }
}

/// The passages of a note whose blocks were located: each holds at most
/// `CHUNK_SIZE_LIMIT` bytes of text, unless it is a single long heading.
pub proof fn law_note_passages_fit(text: Seq<char>)
    requires
        blocks_located(text, note_blocks(text)),
    ensures
        forall|k: int|
            0 <= k < chunked(text, char_blocks(text, note_blocks(text))).len() ==> passage_fits(
                text,
                char_blocks(text, note_blocks(text)),
                #[trigger] chunked(text, char_blocks(text, note_blocks(text)))[k],
            ),
{
    lemma_located_within(text, note_blocks(text));
    law_passages_fit(text, char_blocks(text, note_blocks(text)));
}

/// Each passage carries nothing over or the tail of the passage before it;
/// the first carries nothing.
pub open spec fn overlaps_follow(cs: Seq<ChunkView>) -> bool {
    &&& cs.len() > 0 ==> cs[0].overlap.len() == 0
    &&& forall|k: int| 0 < k < cs.len() ==> (#[trigger] cs[k]).overlap.len() == 0 || cs[k].overlap == tail_of(cs[k - 1].text)
}

/// The passages so far follow, and what the next one will carry is nothing
/// or the tail of the last.
pub open spec fn overlap_ok(st: ChunkState) -> bool {
    &&& overlaps_follow(st.chunks)
    &&& st.overlap.len() == 0 || (st.chunks.len() > 0 && st.overlap == tail_of(st.chunks.last().text))
}

proof fn lemma_flushed_overlap(v: Seq<char>, st: ChunkState, continues: bool)
    requires
        overlap_ok(st),
    ensures
        overlap_ok(flushed(v, st, continues)),
{
    if st.pieces.len() > 0 {
        let cs = flushed(v, st, continues).chunks;
        assert forall|k: int| 0 < k < cs.len() implies (#[trigger] cs[k]).overlap.len() == 0 || cs[k].overlap == tail_of(
            cs[k - 1].text,
        ) by {
            if k < cs.len() - 1 {
                assert(cs[k] == st.chunks[k] && cs[k - 1] == st.chunks[k - 1]);
            } else {
                assert(cs[k - 1] == st.chunks.last());
            }
        }
        if st.chunks.len() > 0 {
            assert(cs[0] == st.chunks[0]);
        }
    }
}

proof fn lemma_added_overlap(v: Seq<char>, st: ChunkState, p: (int, int))
    requires
        overlap_ok(st),
    ensures
        overlap_ok(added(v, st, p)),
{
    lemma_flushed_overlap(v, st, true);
}

proof fn lemma_added_all_overlap(v: Seq<char>, st: ChunkState, ps: Seq<(int, int)>)
    requires
        overlap_ok(st),
    ensures
        overlap_ok(added_all(v, st, ps)),
    decreases ps.len(),
{
    if ps.len() > 0 {
        lemma_added_all_overlap(v, st, ps.drop_last());
        lemma_added_overlap(v, added_all(v, st, ps.drop_last()), ps.last());
    }
}

proof fn lemma_blocks_done_overlap(v: Seq<char>, bs: Seq<CharBlock>)
    ensures
        overlap_ok(blocks_done(v, bs)),
    decreases bs.len(),
{
    if bs.len() > 0 {
        lemma_blocks_done_overlap(v, bs.drop_last());
        let st = blocks_done(v, bs.drop_last());
        let b = bs.last();
        match b.heading {
            Some((level, title)) => {
                lemma_flushed_overlap(v, st, false);
                let st1 = flushed(v, st, false);
                let kept = kept_below(st1.headings, level);
                let t = trim(title);
                lemma_added_overlap(
                    v,
                    ChunkState {
                        overlap: Seq::empty(),
                        headings: if t.len() > 0 { kept.push((level, t)) } else { kept },
                        ..st1
                    },
                    (b.start, b.end),
                );
            },
            None => lemma_added_all_overlap(v, st, split_ranges(v, b.start, b.end, CHUNK_SIZE_LIMIT as int)),
        }
    }
}

/// A note's passages each carry over nothing or the last sentence (the tail)
/// of the passage before them, and the first carries nothing.
pub proof fn law_overlap_is_previous_tail(v: Seq<char>, bs: Seq<CharBlock>)
    ensures
        overlaps_follow(chunked(v, bs)),
{
    lemma_blocks_done_overlap(v, bs);
    lemma_flushed_overlap(v, blocks_done(v, bs), false);
}

/// Each passage's text is not empty and has no whitespace at either end.
pub open spec fn passages_trimmed(cs: Seq<ChunkView>) -> bool {
    forall|k: int| 0 <= k < cs.len() ==> (#[trigger] cs[k]).text.len() > 0 && trim(cs[k].text) == cs[k].text
}

/// A passage that carries text over from the one before sits under the same
/// headings as that one.
pub open spec fn overlaps_keep_headings(cs: Seq<ChunkView>) -> bool {
    forall|k: int| 0 < k < cs.len() && (#[trigger] cs[k]).overlap.len() > 0 ==> cs[k].headings == cs[k - 1].headings
}

/// The passages so far are trimmed and keep their headings across an
/// overlap, the pieces waiting are not blank, and what the next passage will
/// carry comes from a passage under the open headings.
spec fn shape_ok(v: Seq<char>, st: ChunkState) -> bool {
    &&& passages_trimmed(st.chunks)
    &&& overlaps_keep_headings(st.chunks)
    &&& forall|k: int| 0 <= k < st.pieces.len() ==> trim(v.subrange((#[trigger] st.pieces[k]).0, st.pieces[k].1)).len() > 0
    &&& st.overlap.len() > 0 ==> st.chunks.len() > 0 && st.chunks.last().headings == heading_path(st.headings)
}

proof fn lemma_trim_start_edge(s: Seq<char>)
    ensures
        crate::text::trim_start(s).len() > 0 ==> !is_ws(crate::text::trim_start(s)[0]),
    decreases s.len(),
{
    if s.len() > 0 && is_ws(s[0]) {
        lemma_trim_start_edge(s.drop_first());
    }
}

proof fn lemma_trim_end_edge(s: Seq<char>)
    ensures
        trim_end(s).len() <= s.len(),
        trim_end(s) == s.take(trim_end(s).len() as int),
        trim_end(s).len() > 0 ==> !is_ws(trim_end(s).last()),
    decreases s.len(),
{
    if s.len() > 0 && is_ws(s.last()) {
        lemma_trim_end_edge(s.drop_last());
        assert(s.drop_last().take(trim_end(s).len() as int) =~= s.take(trim_end(s).len() as int));
    } else {
        assert(s.take(s.len() as int) =~= s);
    }
}

/// Trimmed text that is not empty starts and ends with something other than
/// whitespace.
proof fn lemma_trim_edges(s: Seq<char>)
    ensures
        trim(s).len() > 0 ==> !is_ws(trim(s)[0]) && !is_ws(trim(s).last()),
{
    let t0 = crate::text::trim_start(s);
    lemma_trim_start_edge(s);
    lemma_trim_end_edge(t0);
    if trim(s).len() > 0 {
        assert(trim(s)[0] == t0.take(trim(s).len() as int)[0]);
    }
}

/// Text that starts and ends with something other than whitespace is its own
/// trim.
proof fn lemma_edges_trimmed(s: Seq<char>)
    requires
        s.len() > 0,
        !is_ws(s[0]),
        !is_ws(s.last()),
    ensures
        trim(s) == s,
{
    assert(crate::text::trim_start(s) == s);
}

/// Joining parts that are not empty: the result starts as the first part
/// and ends as the last.
proof fn lemma_join_edges(ts: Seq<Seq<char>>, sep: Seq<char>)
    requires
        ts.len() > 0,
        forall|i: int| 0 <= i < ts.len() ==> (#[trigger] ts[i]).len() > 0,
    ensures
        join(ts, sep).len() > 0,
        join(ts, sep)[0] == ts[0][0],
        join(ts, sep).last() == ts.last().last(),
    decreases ts.len(),
{
    if ts.len() > 1 {
        let rest = ts.drop_last();
        assert forall|i: int| 0 <= i < rest.len() implies (#[trigger] rest[i]).len() > 0 by {
            assert(rest[i] == ts[i]);
        }
        lemma_join_edges(rest, sep);
        assert(rest[0] == ts[0]);
        let j = join(rest, sep) + sep + ts.last();
        assert(j[0] == join(rest, sep)[0]);
    }
}

/// The text of pieces that are not blank is not empty and is trimmed.
proof fn lemma_pieces_text_trimmed(v: Seq<char>, ps: Seq<(int, int)>)
    requires
        ps.len() > 0,
        forall|k: int| 0 <= k < ps.len() ==> trim(v.subrange((#[trigger] ps[k]).0, ps[k].1)).len() > 0,
    ensures
        pieces_text(v, ps).len() > 0,
        trim(pieces_text(v, ps)) == pieces_text(v, ps),
{
    let ts = piece_texts(v, ps);
    assert forall|i: int| 0 <= i < ts.len() implies (#[trigger] ts[i]).len() > 0 by {
        assert(ts[i] == trim(v.subrange(ps[i].0, ps[i].1)));
    }
    lemma_join_edges(ts, seq!['\n', '\n']);
    lemma_trim_edges(v.subrange(ps[0].0, ps[0].1));
    lemma_trim_edges(v.subrange(ps.last().0, ps.last().1));
    assert(ts[0] == trim(v.subrange(ps[0].0, ps[0].1)));
    assert(ts.last() == trim(v.subrange(ps.last().0, ps.last().1)));
    lemma_edges_trimmed(pieces_text(v, ps));
}

proof fn lemma_flushed_shape(v: Seq<char>, st: ChunkState, continues: bool)
    requires
        shape_ok(v, st),
    ensures
        shape_ok(v, flushed(v, st, continues)),
{
    if st.pieces.len() > 0 {
        lemma_pieces_text_trimmed(v, st.pieces);
        let cs = flushed(v, st, continues).chunks;
        assert forall|k: int| 0 <= k < cs.len() implies (#[trigger] cs[k]).text.len() > 0 && trim(cs[k].text)
            == cs[k].text by {
            if k < st.chunks.len() {
                assert(cs[k] == st.chunks[k]);
            }
        }
        assert forall|k: int| 0 < k < cs.len() && (#[trigger] cs[k]).overlap.len() > 0 implies cs[k].headings
            == cs[k - 1].headings by {
            if k < st.chunks.len() {
                assert(cs[k] == st.chunks[k] && cs[k - 1] == st.chunks[k - 1]);
            } else {
                assert(cs[k - 1] == st.chunks.last());
            }
        }
    }
}

proof fn lemma_added_shape(v: Seq<char>, st: ChunkState, p: (int, int))
    requires
        shape_ok(v, st),
    ensures
        shape_ok(v, added(v, st, p)),
{
    let t = trim(v.subrange(p.0, p.1));
    let len = byte_len(t);
    lemma_flushed_shape(v, st, true);
    if len != 0 {
        assert(t.len() > 0);
        let st1 = if st.pieces.len() > 0 && st.size + len + 2 > CHUNK_SIZE_LIMIT {
            flushed(v, st, true)
        } else {
            st
        };
        let ps = st1.pieces.push(p);
        assert forall|k: int| 0 <= k < ps.len() implies trim(v.subrange((#[trigger] ps[k]).0, ps[k].1)).len() > 0 by {
            if k < st1.pieces.len() {
                assert(ps[k] == st1.pieces[k]);
            }
        }
    }
}

proof fn lemma_added_all_shape(v: Seq<char>, st: ChunkState, ps: Seq<(int, int)>)
    requires
        shape_ok(v, st),
    ensures
        shape_ok(v, added_all(v, st, ps)),
    decreases ps.len(),
{
    if ps.len() > 0 {
        lemma_added_all_shape(v, st, ps.drop_last());
        lemma_added_shape(v, added_all(v, st, ps.drop_last()), ps.last());
    }
}

proof fn lemma_blocks_done_shape(v: Seq<char>, bs: Seq<CharBlock>)
    ensures
        shape_ok(v, blocks_done(v, bs)),
    decreases bs.len(),
{
    if bs.len() > 0 {
        lemma_blocks_done_shape(v, bs.drop_last());
        let st = blocks_done(v, bs.drop_last());
        let b = bs.last();
        match b.heading {
            Some((level, title)) => {
                lemma_flushed_shape(v, st, false);
                let st1 = flushed(v, st, false);
                let kept = kept_below(st1.headings, level);
                let t = trim(title);
                lemma_added_shape(
                    v,
                    ChunkState {
                        overlap: Seq::empty(),
                        headings: if t.len() > 0 { kept.push((level, t)) } else { kept },
                        ..st1
                    },
                    (b.start, b.end),
                );
            },
            None => lemma_added_all_shape(v, st, split_ranges(v, b.start, b.end, CHUNK_SIZE_LIMIT as int)),
        }
    }
}

/// No passage is empty, and none starts or ends with whitespace: every piece
/// of a passage is trimmed, and blank pieces are left out.
pub proof fn law_passages_trimmed(v: Seq<char>, bs: Seq<CharBlock>)
    ensures
        passages_trimmed(chunked(v, bs)),
{
    lemma_blocks_done_shape(v, bs);
    lemma_flushed_shape(v, blocks_done(v, bs), false);
}

/// A passage that carries over the last sentence of the one before it sits
/// under the same headings: only a passage that continues a section carries
/// anything over.
pub proof fn law_overlap_keeps_headings(v: Seq<char>, bs: Seq<CharBlock>)
    ensures
        overlaps_keep_headings(chunked(v, bs)),
{
    lemma_blocks_done_shape(v, bs);
    lemma_flushed_shape(v, blocks_done(v, bs), false);
}

/// Blocks follow one another through the note without overlapping.
pub open spec fn blocks_in_order(bs: Seq<CharBlock>) -> bool {
    forall|i: int, j: int| 0 <= i < j < bs.len() ==> #[trigger] bs[i].end <= #[trigger] bs[j].start
}

/// Each passage starts on a line no later than it ends on, and ends on a line
/// no later than the next passage starts on.
pub open spec fn lines_in_order(cs: Seq<ChunkView>) -> bool {
    &&& forall|k: int| 0 <= k < cs.len() ==> (#[trigger] cs[k]).start_line <= cs[k].end_line
    &&& forall|k: int| 0 <= k < cs.len() - 1 ==> (#[trigger] cs[k]).end_line <= cs[k + 1].start_line
}

/// Ranges each in order and one after another.
spec fn in_sequence(ps: Seq<(int, int)>) -> bool {
    &&& forall|k: int| 0 <= k < ps.len() ==> (#[trigger] ps[k]).0 <= ps[k].1
    &&& forall|k: int, l: int| 0 <= k < l < ps.len() ==> (#[trigger] ps[k]).1 <= (#[trigger] ps[l]).0
}

/// Every range ends by `x`.
spec fn ends_by(ps: Seq<(int, int)>, x: int) -> bool {
    forall|k: int| 0 <= k < ps.len() ==> (#[trigger] ps[k]).1 <= x
}

/// Pushing a range that starts after all others end keeps them in sequence.
proof fn lemma_push_in_sequence(ps: Seq<(int, int)>, p: (int, int))
    requires
        in_sequence(ps),
        ends_by(ps, p.0),
        p.0 <= p.1,
    ensures
        in_sequence(ps.push(p)),
        ends_by(ps.push(p), p.1),
{
    let q = ps.push(p);
    assert forall|k: int| 0 <= k < q.len() implies (#[trigger] q[k]).0 <= q[k].1 by {
        if k < ps.len() {
            assert(q[k] == ps[k]);
        }
    }
    assert forall|k: int, l: int| 0 <= k < l < q.len() implies (#[trigger] q[k]).1 <= (#[trigger] q[l]).0 by {
        assert(q[k] == ps[k]);
        if l < ps.len() {
            assert(q[l] == ps[l]);
        }
    }
    assert forall|k: int| 0 <= k < q.len() implies (#[trigger] q[k]).1 <= p.1 by {
        if k < ps.len() {
            assert(q[k] == ps[k]);
        }
    }
}

proof fn lemma_forced_in_sequence(v: Seq<char>, ps: int, cut: int, limit: int, acc: Seq<(int, int)>)
    requires
        in_sequence(acc),
        ends_by(acc, ps),
    ensures
        in_sequence(forced(v, ps, cut, limit, acc).0),
        ends_by(forced(v, ps, cut, limit, acc).0, forced(v, ps, cut, limit, acc).1),
    decreases cut - ps,
{
    if bl(v, ps, cut) > limit {
        let e = forced_end(v, ps, cut, limit);
        if ps < e < cut {
            lemma_push_in_sequence(acc, (ps, e));
            lemma_forced_in_sequence(v, e, cut, limit, acc.push((ps, e)));
        }
    }
}

proof fn lemma_pieces_from_in_sequence(
    v: Seq<char>,
    cs: Seq<int>,
    i: int,
    ps: int,
    lc: int,
    limit: int,
    acc: Seq<(int, int)>,
)
    requires
        in_sequence(acc),
        ends_by(acc, ps),
    ensures
        in_sequence(pieces_from(v, cs, i, ps, lc, limit, acc).0),
        ends_by(pieces_from(v, cs, i, ps, lc, limit, acc).0, pieces_from(v, cs, i, ps, lc, limit, acc).1),
    decreases cs.len() - i,
{
    if 0 <= i < cs.len() {
        let cut = cs[i];
        let (acc1, ps1) = if bl(v, ps, cut) > limit && lc > ps {
            (acc.push((ps, lc)), lc)
        } else {
            (acc, ps)
        };
        if bl(v, ps, cut) > limit && lc > ps {
            lemma_push_in_sequence(acc, (ps, lc));
        }
        lemma_forced_in_sequence(v, ps1, cut, limit, acc1);
        let (acc2, ps2) = forced(v, ps1, cut, limit, acc1);
        lemma_pieces_from_in_sequence(v, cs, i + 1, ps2, cut, limit, acc2);
    }
}

proof fn lemma_nonblank_in_sequence(v: Seq<char>, ps: Seq<(int, int)>, x: int)
    requires
        in_sequence(ps),
        ends_by(ps, x),
    ensures
        in_sequence(nonblank_pieces(v, ps)),
        ends_by(nonblank_pieces(v, ps), x),
    decreases ps.len(),
{
    if ps.len() > 0 {
        let rest = ps.drop_last();
        let last = ps.last();
        assert forall|k: int| 0 <= k < rest.len() implies (#[trigger] rest[k]).0 <= rest[k].1 by {
            assert(rest[k] == ps[k]);
        }
        assert forall|k: int, l: int| 0 <= k < l < rest.len() implies (#[trigger] rest[k]).1 <= (#[trigger] rest[l]).0 by {
            assert(rest[k] == ps[k] && rest[l] == ps[l]);
        }
        assert forall|k: int| 0 <= k < rest.len() implies (#[trigger] rest[k]).1 <= last.0 by {
            assert(rest[k] == ps[k]);
            assert(ps[ps.len() - 1] == last);
        }
        assert(ps[ps.len() - 1] == last);
        lemma_nonblank_in_sequence(v, rest, last.0);
        let r = nonblank_pieces(v, rest);
        if trim(v.subrange(last.0, last.1)).len() > 0 {
            lemma_push_in_sequence(r, last);
        } else {
            assert forall|k: int| 0 <= k < r.len() implies (#[trigger] r[k]).1 <= x by {}
        }
    }
}

/// The ranges a block is split into come one after another.
proof fn lemma_split_in_sequence(v: Seq<char>, a: int, b: int, limit: int)
    requires
        a <= b,
    ensures
        in_sequence(split_ranges(v, a, b, limit)),
{
    let cs = cuts_from(v, a, b);
    lemma_pieces_from_in_sequence(v, cs, 0, a, a, limit, Seq::empty());
    let (ps, start) = pieces_from(v, cs, 0, a, a, limit, Seq::empty());
    if start < b {
        lemma_push_in_sequence(ps, (start, b));
        lemma_nonblank_in_sequence(v, ps.push((start, b)), b);
    } else {
        lemma_nonblank_in_sequence(v, ps, start);
    }
}

/// Later positions are on the same line or a later one.
proof fn lemma_line_at_monotone(v: Seq<char>, j: int, k: int)
    requires
        0 <= j <= k <= v.len(),
    ensures
        line_at(v, j) <= line_at(v, k),
    decreases k - j,
{
    if j < k {
        assert(v.take(k).drop_last() =~= v.take(k - 1));
        lemma_line_at_monotone(v, j, k - 1);
    }
}

/// The passages so far are in line order, the pieces waiting come one after
/// another and end by `f`, and the last passage ends no later than the line
/// where the first waiting piece (or, with none waiting, `f`) is.
spec fn order_ok(v: Seq<char>, st: ChunkState, f: int) -> bool {
    &&& 0 <= f <= v.len()
    &&& lines_in_order(st.chunks)
    &&& in_sequence(st.pieces)
    &&& ends_by(st.pieces, f)
    &&& forall|k: int| 0 <= k < st.pieces.len() ==> 0 <= (#[trigger] st.pieces[k]).0
    &&& st.chunks.len() > 0 ==> st.chunks.last().end_line <= line_at(
        v,
        if st.pieces.len() > 0 { st.pieces[0].0 } else { f },
    )
}

proof fn lemma_order_later(v: Seq<char>, st: ChunkState, f: int, g: int)
    requires
        order_ok(v, st, f),
        f <= g <= v.len(),
    ensures
        order_ok(v, st, g),
{
    lemma_line_at_monotone(v, f, g);
}

proof fn lemma_flushed_order(v: Seq<char>, st: ChunkState, continues: bool, f: int)
    requires
        order_ok(v, st, f),
    ensures
        order_ok(v, flushed(v, st, continues), f),
{
    if st.pieces.len() > 0 {
        let s = st.pieces[0].0;
        let e = st.pieces.last().1;
        let m = if e - 1 > s { e - 1 } else { s };
        assert(st.pieces[st.pieces.len() - 1] == st.pieces.last());
        assert(0 <= s <= st.pieces[0].1 <= f);
        assert(e <= f);
        lemma_line_at_monotone(v, s, m);
        lemma_line_at_monotone(v, m, f);
        let cs = flushed(v, st, continues).chunks;
        assert forall|k: int| 0 <= k < cs.len() implies (#[trigger] cs[k]).start_line <= cs[k].end_line by {
            if k < st.chunks.len() {
                assert(cs[k] == st.chunks[k]);
            }
        }
        assert forall|k: int| 0 <= k < cs.len() - 1 implies (#[trigger] cs[k]).end_line <= cs[k + 1].start_line by {
            if k < st.chunks.len() - 1 {
                assert(cs[k] == st.chunks[k] && cs[k + 1] == st.chunks[k + 1]);
            } else {
                assert(cs[k] == st.chunks.last());
            }
        }
    }
}

proof fn lemma_added_order(v: Seq<char>, st: ChunkState, p: (int, int), f: int)
    requires
        order_ok(v, st, f),
        f <= p.0 <= p.1 <= v.len(),
    ensures
        order_ok(v, added(v, st, p), p.1),
{
    let len = byte_len(trim(v.subrange(p.0, p.1)));
    lemma_line_at_monotone(v, f, p.0);
    if len == 0 {
        lemma_order_later(v, st, f, p.1);
    } else {
        lemma_flushed_order(v, st, true, f);
        let st1 = if st.pieces.len() > 0 && st.size + len + 2 > CHUNK_SIZE_LIMIT {
            flushed(v, st, true)
        } else {
            st
        };
        lemma_push_in_sequence(st1.pieces, p);
        let ps = st1.pieces.push(p);
        assert forall|k: int| 0 <= k < ps.len() implies 0 <= (#[trigger] ps[k]).0 by {
            if k < st1.pieces.len() {
                assert(ps[k] == st1.pieces[k]);
            }
        }
        if st1.pieces.len() > 0 {
            assert(ps[0] == st1.pieces[0]);
        }
    }
}

proof fn lemma_added_all_order(v: Seq<char>, st: ChunkState, ps: Seq<(int, int)>, f: int, b: int)
    requires
        order_ok(v, st, f),
        f <= b <= v.len(),
        in_sequence(ps),
        ends_by(ps, b),
        forall|k: int| 0 <= k < ps.len() ==> f <= (#[trigger] ps[k]).0,
    ensures
        order_ok(v, added_all(v, st, ps), b),
    decreases ps.len(),
{
    if ps.len() == 0 {
        lemma_order_later(v, st, f, b);
    } else {
        let rest = ps.drop_last();
        let last = ps.last();
        assert(ps[ps.len() - 1] == last);
        assert forall|k: int| 0 <= k < rest.len() implies (#[trigger] rest[k]).0 <= rest[k].1 by {
            assert(rest[k] == ps[k]);
        }
        assert forall|k: int, l: int| 0 <= k < l < rest.len() implies (#[trigger] rest[k]).1 <= (#[trigger] rest[l]).0 by {
            assert(rest[k] == ps[k] && rest[l] == ps[l]);
        }
        assert forall|k: int| 0 <= k < rest.len() implies (#[trigger] rest[k]).1 <= last.0 by {
            assert(rest[k] == ps[k]);
        }
        assert forall|k: int| 0 <= k < rest.len() implies f <= (#[trigger] rest[k]).0 by {
            assert(rest[k] == ps[k]);
        }
        assert(f <= last.0 <= last.1 <= b);
        lemma_added_all_order(v, st, rest, f, last.0);
        lemma_added_order(v, added_all(v, st, rest), last, last.0);
        lemma_order_later(v, added(v, added_all(v, st, rest), last), last.1, b);
    }
}

/// Where the blocks of `bs` end: the end of the last, or the note's start.
spec fn blocks_end(bs: Seq<CharBlock>) -> int {
    if bs.len() == 0 { 0 } else { bs.last().end }
}

proof fn lemma_blocks_done_order(v: Seq<char>, bs: Seq<CharBlock>)
    requires
        blocks_within(v, bs),
        blocks_in_order(bs),
    ensures
        order_ok(v, blocks_done(v, bs), blocks_end(bs)),
    decreases bs.len(),
{
    if bs.len() > 0 {
        let rest = bs.drop_last();
        let b = bs.last();
        assert(bs[bs.len() - 1] == b);
        assert forall|i: int| 0 <= i < rest.len() implies 0 <= (#[trigger] rest[i]).start <= rest[i].end <= v.len() by {
            assert(rest[i] == bs[i]);
        }
        assert forall|i: int, j: int| 0 <= i < j < rest.len() implies #[trigger] rest[i].end <= #[trigger] rest[j].start by {
            assert(rest[i] == bs[i] && rest[j] == bs[j]);
        }
        lemma_blocks_done_order(v, rest);
        let f = blocks_end(rest);
        if rest.len() > 0 {
            assert(rest.last() == bs[bs.len() - 2]);
        }
        assert(0 <= f <= b.start <= b.end <= v.len());
        let st = blocks_done(v, rest);
        match b.heading {
            Some((level, title)) => {
                lemma_flushed_order(v, st, false, f);
                let st1 = flushed(v, st, false);
                let kept = kept_below(st1.headings, level);
                let t = trim(title);
                let st2 = ChunkState {
                    overlap: Seq::empty(),
                    headings: if t.len() > 0 { kept.push((level, t)) } else { kept },
                    ..st1
                };
                assert(order_ok(v, st2, f));
                lemma_added_order(v, st2, (b.start, b.end), f);
            },
            None => {
                let ps = split_ranges(v, b.start, b.end, CHUNK_SIZE_LIMIT as int);
                law_split_pieces_fit(v, b.start, b.end, CHUNK_SIZE_LIMIT as int);
                lemma_split_in_sequence(v, b.start, b.end, CHUNK_SIZE_LIMIT as int);
                assert forall|k: int| 0 <= k < ps.len() implies (#[trigger] ps[k]).1 <= b.end by {}
                assert forall|k: int| 0 <= k < ps.len() implies f <= (#[trigger] ps[k]).0 by {}
                lemma_added_all_order(v, st, ps, f, b.end);
            },
        }
    }
}

/// With the blocks in order through the note, the passages come in line
/// order: each starts on a line no later than it ends on, and ends on a line
/// no later than the next one starts on.
pub proof fn law_passages_in_line_order(v: Seq<char>, bs: Seq<CharBlock>)
    requires
        blocks_within(v, bs),
        blocks_in_order(bs),
    ensures
        lines_in_order(chunked(v, bs)),
{
    lemma_blocks_done_order(v, bs);
    lemma_flushed_order(v, blocks_done(v, bs), false, blocks_end(bs));
}

} // verus!
