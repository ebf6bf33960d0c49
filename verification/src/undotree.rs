//! Branching version history for every writing.
//!
//! Each version stores only what changed against its parent (a kept prefix,
//! a kept suffix and the text between), with a full copy every
//! `KEYFRAME_INTERVAL` versions so rebuilding one never walks far.

use vstd::prelude::*;
use vstd::string::*;
use vstd::utf8::*;
use crate::text::same_text;
use crate::keyed::{keyed, keys_unique, find_key, lemma_keyed_lookup, lemma_keyed_remove, lemma_keyed_push, lemma_keyed_update};
use crate::utf8_facts::{bytes_of, text_of, boundary, lemma_ends_are_boundaries, lemma_suffix_boundary, lemma_decode_three};

verus! {

broadcast use vstd::utf8::group_utf8_lib;

/// A version is stored in full at least this often along any branch.
pub const KEYFRAME_INTERVAL: usize = 32;

/// How one version's text is stored.
#[derive(Debug)]
pub enum NodeData {
    Full(String),
    /// The parent's text with its middle replaced: its first `keep_start`
    /// bytes, then `insert`, then its last `keep_end` bytes.
    Delta { keep_start: usize, keep_end: usize, insert: String },
}

/// Whether `data` can be applied to a parent whose text is `parent`: the kept
/// parts fit and both cut points fall between characters.
pub open spec fn applies_to(parent: Seq<char>, data: NodeData) -> bool {
    match data {
        NodeData::Full(_) => true,
        NodeData::Delta { keep_start, keep_end, insert } => {
            let b = bytes_of(parent);
            &&& keep_start + keep_end <= b.len()
            &&& boundary(parent, keep_start as int)
            &&& boundary(parent, b.len() - keep_end)
        },
    }
}

/// The text `data` stands for, given its parent's text.
pub open spec fn apply_spec(parent: Seq<char>, data: NodeData) -> Seq<char> {
    match data {
        NodeData::Full(text) => text@,
        NodeData::Delta { keep_start, keep_end, insert } => {
            let b = bytes_of(parent);
            text_of(b.subrange(0, keep_start as int)) + insert@ + text_of(
                b.subrange(b.len() - keep_end, b.len() as int),
            )
        },
    }
}

/// What `delta(old, new)` returns: the smallest single-span edit turning
/// `old` into `new` whose cut points land on character boundaries of both.
/// The kept prefix is the longest common prefix ending on a boundary of both;
/// the kept suffix is then the longest common suffix ending on a boundary of
/// both that does not overlap the prefix.
pub open spec fn is_delta(old: Seq<char>, new: Seq<char>, data: NodeData) -> bool {
    match data {
        NodeData::Full(_) => false,
        NodeData::Delta { keep_start, keep_end, insert } => {
            let a = bytes_of(old);
            let b = bytes_of(new);
            let s = keep_start as int;
            let e = keep_end as int;
            let cap = if a.len() < b.len() { a.len() - s } else { b.len() - s };
            &&& s + e <= a.len()
            &&& s + e <= b.len()
            &&& a.subrange(0, s) == b.subrange(0, s)
            &&& boundary(old, s) && boundary(new, s)
            &&& forall|k: int|
                s < k <= a.len() && k <= b.len() && #[trigger] a.subrange(0, k) == b.subrange(0, k)
                    ==> !(boundary(old, k) && boundary(new, k))
            &&& a.subrange(a.len() - e, a.len() as int) == b.subrange(b.len() - e, b.len() as int)
            &&& boundary(old, a.len() - e) && boundary(new, b.len() - e)
            &&& forall|k: int|
                e < k <= cap && #[trigger] a.subrange(a.len() - k, a.len() as int) == b.subrange(
                    b.len() - k,
                    b.len() as int,
                ) ==> !(boundary(old, a.len() - k) && boundary(new, b.len() - k))
            &&& bytes_of(insert@) == b.subrange(s, b.len() - e)
        },
    }
}

/// The text a version stores, rebuilt on top of its parent's.
pub fn apply(parent: &str, data: &NodeData) -> (out: String)
    requires
        applies_to(parent@, *data),
    ensures
        out@ == apply_spec(parent@, *data),
{
    match data {
        NodeData::Full(text) => text.clone(),
        NodeData::Delta { keep_start, keep_end, insert } => {
            let len = parent.as_bytes().len();
            let (head, _) = parent.split_at(*keep_start);
            let (_, tail) = parent.split_at(len - *keep_end);
            let mut out = String::from_str(head);
            out.append(insert.as_str());
            out.append(tail);
            out
        },
    }
}

/// Whether `data` can be applied to a parent whose text is `parent`.
pub fn applies(parent: &str, data: &NodeData) -> (r: bool)
    ensures
        r == applies_to(parent@, *data),
{
    match data {
        NodeData::Full(_) => true,
        NodeData::Delta { keep_start, keep_end, .. } => {
            let len = parent.as_bytes().len();
            if *keep_start > len || *keep_end > len - *keep_start {
                false
            } else {
                parent.is_char_boundary(*keep_start) && parent.is_char_boundary(len - *keep_end)
            }
        },
    }
}

/// The smallest single-span edit turning `old` into `new`. Both cut points
/// land on char boundaries in both strings.
pub fn delta(old: &str, new: &str) -> (d: NodeData)
    ensures
        is_delta(old@, new@, d),
        applies_to(old@, d),
{
    let a = old.as_bytes();
    let b = new.as_bytes();
    let ghost ab = bytes_of(old@);
    let ghost bb = bytes_of(new@);
    proof {
        lemma_ends_are_boundaries(old@);
        lemma_ends_are_boundaries(new@);
    }
    let la = a.len();
    let lb = b.len();
    let min = if la < lb { la } else { lb };

    let mut p: usize = 0;
    while p < min && a[p] == b[p]
        invariant
            a@ == ab,
            b@ == bb,
            la == ab.len(),
            lb == bb.len(),
            min <= la && min <= lb,
            p <= min,
            ab.subrange(0, p as int) =~= bb.subrange(0, p as int),
        decreases min - p,
    {
        assert(ab.subrange(0, p + 1) =~= ab.subrange(0, p as int).push(ab[p as int]));
        assert(bb.subrange(0, p + 1) =~= bb.subrange(0, p as int).push(bb[p as int]));
        p += 1;
    }
    // No longer common prefix exists.
    assert forall|k: int| p < k <= la && k <= lb implies #[trigger] ab.subrange(0, k) != bb.subrange(0, k) by {
        assert(ab.subrange(0, k)[p as int] == ab[p as int]);
        assert(bb.subrange(0, k)[p as int] == bb[p as int]);
    }
    let mut start = p;
    while !(old.is_char_boundary(start) && new.is_char_boundary(start))
        invariant
            start <= p <= min,
            boundary(old@, 0) && boundary(new@, 0),
            forall|k: int|
                start < k <= p ==> !(#[trigger] boundary(old@, k) && boundary(new@, k)),
        decreases start,
    {
        start -= 1;
    }
    assert(ab.subrange(0, start as int) =~= ab.subrange(0, p as int).subrange(0, start as int));
    assert(bb.subrange(0, start as int) =~= bb.subrange(0, p as int).subrange(0, start as int));

    let max_end = min - start;
    let mut q: usize = 0;
    while q < max_end && a[la - 1 - q] == b[lb - 1 - q]
        invariant
            a@ == ab,
            b@ == bb,
            la == ab.len(),
            lb == bb.len(),
            start + max_end <= la && start + max_end <= lb,
            q <= max_end,
            ab.subrange(la - q, la as int) =~= bb.subrange(lb - q, lb as int),
        decreases max_end - q,
    {
        assert(ab.subrange(la - (q + 1), la as int) =~= seq![ab[la - 1 - q]] + ab.subrange(
            la - q,
            la as int,
        ));
        assert(bb.subrange(lb - (q + 1), lb as int) =~= seq![bb[lb - 1 - q]] + bb.subrange(
            lb - q,
            lb as int,
        ));
        q += 1;
    }
    assert forall|k: int|
        q < k <= max_end implies #[trigger] ab.subrange(la - k, la as int) != bb.subrange(
        lb - k,
        lb as int,
    ) by {
        assert(ab.subrange(la - k, la as int)[k - 1 - q] == ab[la - 1 - q]);
        assert(bb.subrange(lb - k, lb as int)[k - 1 - q] == bb[lb - 1 - q]);
    }
    let mut end = q;
    while !(old.is_char_boundary(la - end) && new.is_char_boundary(lb - end))
        invariant
            end <= q <= max_end,
            start + max_end <= la && start + max_end <= lb,
            la == ab.len(),
            lb == bb.len(),
            boundary(old@, la as int) && boundary(new@, lb as int),
            forall|k: int|
                end < k <= q ==> !(#[trigger] boundary(old@, la - k) && boundary(new@, lb - k)),
        decreases end,
    {
        end -= 1;
    }
    assert(ab.subrange(la - end, la as int) =~= ab.subrange(la - q, la as int).subrange(
        q - end,
        q as int,
    ));
    assert(bb.subrange(lb - end, lb as int) =~= bb.subrange(lb - q, lb as int).subrange(
        q - end,
        q as int,
    ));

    let (_, rest) = new.split_at(start);
    proof {
        lemma_suffix_boundary(bb, start as int, lb - end - start);
    }
    let (middle, _) = rest.split_at(lb - end - start);
    assert(middle.spec_bytes() =~= bb.subrange(start as int, lb - end));
    let insert = String::from_str(middle);
    proof {
        encode_utf8_decode_utf8(middle@);
    }
    NodeData::Delta { keep_start: start, keep_end: end, insert }
}

/// Applying `delta(old, new)` to `old` gives back `new`: a version stored as
/// a change against its parent rebuilds to exactly the text that was saved.
pub proof fn law_delta_then_apply(old: Seq<char>, new: Seq<char>, d: NodeData)
    requires
        is_delta(old, new, d),
    ensures
        applies_to(old, d),
        apply_spec(old, d) == new,
{
    match d {
        NodeData::Full(_) => {},
        NodeData::Delta { keep_start, keep_end, insert } => {
            let a = bytes_of(old);
            let b = bytes_of(new);
            let s = keep_start as int;
            let e = keep_end as int;
            encode_utf8_valid_utf8(new);
            lemma_decode_three(b, s, b.len() - e);
            encode_utf8_decode_utf8(new);
            encode_utf8_decode_utf8(insert@);
        },
    }
}


/// Index of a version within its history. Versions are only ever appended,
/// so a higher index was created later.
#[derive(Clone, Copy, Debug, PartialEq, Eq, Structural)]
pub struct NodeIndex(pub usize);

/// One state in the history tree.
#[derive(Debug)]
pub struct Node {
    pub data: NodeData,
    pub parent: Option<NodeIndex>,
    pub children: Vec<NodeIndex>,
    /// Milliseconds since the epoch, when known.
    pub created_at: Option<i64>,
    /// Kept alongside the data so the graph never has to rebuild versions.
    pub preview: String,
}

/// Index just past the line of `s` that starts at `from` (its `\n`, or the end).
pub open spec fn line_end(s: Seq<char>, from: int) -> int
    decreases s.len() - from,
{
    if from >= s.len() {
        s.len() as int
    } else if s[from] == '\n' {
        from
    } else {
        line_end(s, from + 1)
    }
}

pub proof fn lemma_line_end(s: Seq<char>, from: int)
    requires
        0 <= from,
    ensures
        from <= s.len() ==> from <= line_end(s, from) <= s.len(),
        from > s.len() ==> line_end(s, from) == s.len(),
        line_end(s, from) < s.len() ==> s[line_end(s, from)] == '\n',
        forall|k: int| from <= k < line_end(s, from) ==> s[k] != '\n',
    decreases s.len() - from,
{
    if from < s.len() && s[from] != '\n' {
        lemma_line_end(s, from + 1);
    }
}

/// The first line of `s` at or after `from` with something besides
/// whitespace on it, trimmed; empty when there is none.
pub open spec fn first_nonblank(s: Seq<char>, from: int) -> Seq<char>
    decreases s.len() + 1 - from,
{
    if from < 0 || from >= s.len() {
        Seq::empty()
    } else {
        let e = line_end(s, from);
        let t = crate::text::trim(s.subrange(from, e));
        if t.len() > 0 {
            t
        } else {
            proof {
                lemma_line_end(s, from);
            }
            first_nonblank(s, e + 1)
        }
    }
}

/// Most characters of a version shown in the history graph.
pub const PREVIEW_CHARS: usize = 64;

/// First non-empty line of a version, trimmed and capped with an ellipsis.
pub open spec fn preview_spec(content: Seq<char>) -> Seq<char> {
    let line = first_nonblank(content, 0);
    if line.len() <= PREVIEW_CHARS {
        line
    } else {
        line.take(PREVIEW_CHARS as int).push('\u{2026}')
    }
}

/// Index of the first `\n` in `v[from..]`, or `v.len()`.
fn find_newline(v: &Vec<char>, from: usize) -> (e: usize)
    requires
        from <= v.len(),
    ensures
        e == line_end(v@, from as int),
        from <= e <= v.len(),
{
    proof {
        lemma_line_end(v@, from as int);
    }
    let mut e = from;
    while e < v.len() && v[e] != '\n'
        invariant
            from <= e <= v.len(),
            line_end(v@, e as int) == line_end(v@, from as int),
        decreases v.len() - e,
    {
        e += 1;
    }
    e
}

/// First non-empty line of a version, trimmed and capped, so the graph can
/// show what a version says without shipping the whole version.
pub fn preview_of(content: &str) -> (p: String)
    ensures
        p@ == preview_spec(content@),
{
    let v = crate::text::chars_of(content);
    let n = v.len();
    let mut from: usize = 0;
    while from < n
        invariant
            n == v.len(),
            v@ == content@,
            from <= n,
            first_nonblank(v@, 0) == first_nonblank(v@, from as int),
        decreases n - from,
    {
        let e = find_newline(&v, from);
        let (lo, hi) = crate::text::trim_range(&v, from, e);
        assert(first_nonblank(v@, from as int) == (if crate::text::trim(v@.subrange(from as int, e as int)).len() > 0 {
            crate::text::trim(v@.subrange(from as int, e as int))
        } else {
            first_nonblank(v@, e + 1)
        }));
        if lo < hi {
            if hi - lo <= PREVIEW_CHARS {
                return crate::text::string_of(&v, lo, hi);
            }
            let mut out = crate::text::string_of(&v, lo, lo + PREVIEW_CHARS);
            out.push('\u{2026}');
            assert(v@.subrange(lo as int, hi as int).take(PREVIEW_CHARS as int) =~= v@.subrange(
                lo as int,
                lo + PREVIEW_CHARS,
            ));
            return out;
        }
        if e == n {
            return String::new();
        }
        from = e + 1;
    }
    String::new()
}

/// The complete change history of one writing.
#[derive(Debug)]
pub struct History {
    pub nodes: Vec<Node>,
    pub current: Option<NodeIndex>,
    /// Versions undone in this session, most recent last; not persisted.
    pub redo_stack: Vec<NodeIndex>,
}

impl History {
    /// An empty history.
    pub fn empty() -> (h: History)
        ensures
            h.nodes@.len() == 0,
            h.current is None,
            h.redo_stack@.len() == 0,
            h.wf(),
    {
        History { nodes: Vec::new(), current: None, redo_stack: Vec::new() }
    }

    pub open spec fn redo(self) -> Seq<NodeIndex> {
        self.redo_stack@
    }

    /// The text of version `i`.
    pub open spec fn text_at(self, i: int) -> Seq<char> {
        text_in(self.nodes@, i)
    }

    /// Versions since the last full copy on the way up from `i`, counting `i`.
    pub open spec fn deltas_above_spec(self, i: int) -> nat {
        deltas_in(self.nodes@, i)
    }

    /// Version `i` is well placed: its parent came before it, a change has a
    /// parent it applies to, and its children are versions of this history.
    pub open spec fn node_ok(self, i: int) -> bool {
        node_ok_in(self.nodes@, i)
    }

    /// Every version can be rebuilt, and every index the history holds names a version.
    pub open spec fn wf(self) -> bool {
        &&& nodes_ok(self.nodes@)
        &&& self.current matches Some(c) ==> c.0 < self.nodes@.len()
        &&& forall|k: int| 0 <= k < self.redo_stack@.len() ==> #[trigger] self.redo_stack@[k].0 < self.nodes@.len()
    }

    /// The children of version `i`.
    pub open spec fn children_of(self, i: int) -> Seq<NodeIndex> {
        self.nodes@[i].children@
    }
}

/// How version `h0.nodes.len()` of `h` was stored when `content` was appended
/// to `h0`: at most `KEYFRAME_INTERVAL - 1` deltas above a full copy; a delta
/// only when the parent is within that bound and the delta is smaller than
/// the text; a full copy holds the text, and is chosen within the bound only
/// when no delta would save anything.
pub open spec fn stored_by_rule(h0: History, h: History, content: Seq<char>) -> bool {
    let n = h0.nodes@.len() as int;
    &&& h.deltas_above_spec(n) < KEYFRAME_INTERVAL
    &&& (h.nodes@[n].data matches NodeData::Delta { insert, .. } ==> {
        &&& h0.current matches Some(p)
        &&& h0.deltas_above_spec(p.0 as int) + 1 < KEYFRAME_INTERVAL
        &&& is_delta(h0.text_at(p.0 as int), content, h.nodes@[n].data)
        &&& bytes_of(insert@).len() < bytes_of(content).len()
    })
    &&& (h.nodes@[n].data matches NodeData::Full(t) ==> {
        &&& t@ == content
        &&& (h0.current is Some && h0.deltas_above_spec(h0.current.unwrap().0 as int) + 1 < KEYFRAME_INTERVAL ==>
            forall|d: NodeData| #[trigger] is_delta(h0.text_at(h0.current.unwrap().0 as int), content, d) ==>
                saves_nothing(d, content))
    })
}

impl History {
    /// `next` is this history with `content` appended as a child of the
    /// current version and made current.
    pub open spec fn appended(self, next: History, content: Seq<char>, created_at: Option<i64>) -> bool {
        let n = self.nodes@.len();
        &&& n <= usize::MAX
        &&& next.nodes@.len() == n + 1
        &&& next.current == Some(NodeIndex(n as usize))
        &&& next.nodes@[n as int].parent == self.current
        &&& next.nodes@[n as int].created_at == created_at
        &&& next.nodes@[n as int].preview@ == preview_spec(content)
        &&& next.nodes@[n as int].children@.len() == 0
        &&& next.text_at(n as int) == content
        &&& forall|i: int|
            #![trigger next.nodes@[i]]
            0 <= i < n ==> {
                &&& next.nodes@[i].data == self.nodes@[i].data
                &&& next.nodes@[i].parent == self.nodes@[i].parent
                &&& next.nodes@[i].created_at == self.nodes@[i].created_at
                &&& next.nodes@[i].preview == self.nodes@[i].preview
                &&& next.text_at(i) == self.text_at(i)
                &&& next.children_of(i) == if self.current == Some(NodeIndex(i as usize)) {
                    self.children_of(i).push(NodeIndex(n as usize))
                } else {
                    self.children_of(i)
                }
            }
        &&& next.wf()
    }

    /// The children of `node_index`, newest (largest index) first; empty for
    /// an index outside the history.
    pub fn get_latest_children(&self, node_index: NodeIndex) -> (r: Vec<NodeIndex>)
        ensures
            node_index.0 >= self.nodes@.len() ==> r@.len() == 0,
            node_index.0 < self.nodes@.len() ==> r@.to_multiset() == self.children_of(
                node_index.0 as int,
            ).to_multiset(),
            sorted_desc(r@),
            node_index.0 < self.nodes@.len() && self.children_of(node_index.0 as int).no_duplicates() ==> forall|
                i: int,
                j: int,
            | 0 <= i < j < r@.len() ==> r@[i].0 > r@[j].0,
    {
        broadcast use vstd::seq_lib::group_to_multiset_ensures;

        if node_index.0 >= self.nodes.len() {
            return Vec::new();
        }
        let children = &self.nodes[node_index.0].children;
        let mut r: Vec<NodeIndex> = Vec::new();
        let mut i: usize = 0;
        while i < children.len()
            invariant
                i <= children@.len(),
                r@.to_multiset() == children@.take(i as int).to_multiset(),
                sorted_desc(r@),
            decreases children@.len() - i,
        {
            let c = children[i];
            let mut pos: usize = 0;
            while pos < r.len() && r[pos].0 > c.0
                invariant
                    pos <= r@.len(),
                    forall|k: int| 0 <= k < pos ==> r@[k].0 > c.0,
                decreases r@.len() - pos,
            {
                pos += 1;
            }
            proof {
                vstd::seq_lib::to_multiset_insert(r@, pos as int, c);
                assert(children@.take(i + 1) =~= children@.take(i as int).push(c));
                vstd::seq_lib::to_multiset_build(children@.take(i as int), c);
            }
            r.insert(pos, c);
            i += 1;
        }
        assert(children@.take(children@.len() as int) =~= children@);
        proof {
            if children@.no_duplicates() {
                assert forall|a: int, b: int| 0 <= a < b < r@.len() implies r@[a].0 > r@[b].0 by {
                    assert(r@[a].0 >= r@[b].0);
                    if r@[a] == r@[b] {
                        lemma_twice_counts(r@, a, b);
                        children@.lemma_multiset_has_no_duplicates();
                        assert(children@.to_multiset().count(r@[a]) == 1);
                    }
                }
            }
        }
        r
    }

    /// Rebuilds a version's text from the nearest full copy above it; `None`
    /// for an index outside the history.
    pub fn content_of(&self, index: NodeIndex) -> (r: Option<String>)
        requires
            self.wf(),
        ensures
            r is Some <==> index.0 < self.nodes@.len(),
            r matches Some(s) ==> s@ == self.text_at(index.0 as int),
    {
        let len = self.nodes.len();
        if index.0 >= len {
            return None;
        }
        let mut chain: Vec<usize> = Vec::new();
        let mut at = index.0;
        loop
            invariant_except_break
                at < len,
                len == self.nodes@.len(),
                self.wf(),
                chain@.len() == 0 ==> at == index.0,
                chain@.len() > 0 ==> chain@[0] == index.0,
                chain@.len() > 0 ==> self.nodes@[chain@.last() as int].parent == Some(NodeIndex(at)),
                forall|k: int| 0 <= k < chain@.len() ==> #[trigger] chain@[k] < len,
                forall|k: int|
                    0 <= k < chain@.len() ==> self.nodes@[#[trigger] chain@[k] as int].data is Delta,
                forall|k: int|
                    0 <= k < chain@.len() - 1 ==> self.nodes@[#[trigger] chain@[k] as int].parent == Some(
                        NodeIndex(chain@[k + 1]),
                    ),
            ensures
                len == self.nodes@.len(),
                chain@.len() > 0,
                chain@[0] == index.0,
                forall|k: int| 0 <= k < chain@.len() ==> #[trigger] chain@[k] < len,
                self.nodes@[chain@.last() as int].data is Full,
                forall|k: int|
                    0 <= k < chain@.len() - 1 ==> self.nodes@[#[trigger] chain@[k] as int].parent == Some(
                        NodeIndex(chain@[k + 1]),
                    ),
            decreases at,
        {
            assert(self.node_ok(at as int));
            chain.push(at);
            match self.nodes[at].parent {
                None => {
                    break;
                },
                Some(p) => {
                    if let NodeData::Full(_) = self.nodes[at].data {
                        break;
                    }
                    at = p.0;
                },
            }
        }
        let mut text = String::new();
        let mut k = chain.len();
        while k > 0
            invariant
                0 <= k <= chain@.len(),
                chain@.len() > 0,
                self.wf(),
                len == self.nodes@.len(),
                forall|j: int| 0 <= j < chain@.len() ==> #[trigger] chain@[j] < len,
                self.nodes@[chain@.last() as int].data is Full,
                forall|j: int|
                    0 <= j < chain@.len() - 1 ==> self.nodes@[#[trigger] chain@[j] as int].parent == Some(
                        NodeIndex(chain@[j + 1]),
                    ),
                k < chain@.len() ==> text@ == self.text_at(chain@[k as int] as int),
            decreases k,
        {
            k -= 1;
            let i = chain[k];
            assert(self.node_ok(i as int));
            text = apply(text.as_str(), &self.nodes[i].data);
        }
        Some(text)
    }

    /// The text of the current version.
    pub fn current_content(&self) -> (r: Option<String>)
        requires
            self.wf(),
        ensures
            r is Some <==> self.current is Some,
            r matches Some(s) ==> s@ == self.text_at(self.current.unwrap().0 as int),
    {
        match self.current {
            Some(c) => self.content_of(c),
            None => None,
        }
    }

    proof fn lemma_deltas_bound(self, i: int)
        requires
            0 <= i,
        ensures
            self.deltas_above_spec(i) <= i + 1,
        decreases i,
    {
        if 0 <= i < self.nodes@.len() {
            if let Some(p) = self.nodes@[i].parent {
                if p.0 < i {
                    self.lemma_deltas_bound(p.0 as int);
                }
            }
        }
    }

    /// Versions since the last full copy on the way up from `index`, counting `index`.
    fn deltas_above(&self, index: NodeIndex) -> (n: usize)
        requires
            self.wf(),
            index.0 < self.nodes@.len(),
        ensures
            n == self.deltas_above_spec(index.0 as int),
    {
        let mut count: usize = 0;
        let mut at = index.0;
        loop
            invariant_except_break
                self.wf(),
                at < self.nodes@.len(),
                at <= index.0,
                count <= index.0 - at,
                count + self.deltas_above_spec(at as int) == self.deltas_above_spec(index.0 as int),
            ensures
                count == self.deltas_above_spec(index.0 as int),
            decreases at,
        {
            assert(self.node_ok(at as int));
            if let NodeData::Full(_) = self.nodes[at].data {
                break;
            }
            count += 1;
            match self.nodes[at].parent {
                Some(p) => {
                    at = p.0;
                },
                None => {
                    break;
                },
            }
        }
        count
    }

    /// Appends `content` as a child of the current version and moves to it.
    /// Identical content is ignored (`false`).
    fn push(&mut self, content: &str, created_at: Option<i64>) -> (changed: bool)
        requires
            old(self).wf(),
        ensures
            changed == !(old(self).current matches Some(c) && old(self).text_at(c.0 as int) == content@),
            !changed ==> *final(self) == *old(self),
            changed ==> old(self).appended(*final(self), content@, created_at),
            changed ==> final(self).redo_stack@.len() == 0,
            changed ==> stored_by_rule(*old(self), *final(self), content@),
            changed ==> final(self).deltas_above_spec(old(self).nodes@.len() as int) < KEYFRAME_INTERVAL,
            changed ==> (final(self).nodes@[old(self).nodes@.len() as int].data matches NodeData::Delta { insert, .. } ==> {
                &&& old(self).current matches Some(p)
                &&& old(self).deltas_above_spec(p.0 as int) + 1 < KEYFRAME_INTERVAL
                &&& is_delta(old(self).text_at(p.0 as int), content@, final(self).nodes@[old(self).nodes@.len() as int].data)
                &&& bytes_of(insert@).len() < bytes_of(content@).len()
            }),
            changed ==> (final(self).nodes@[old(self).nodes@.len() as int].data matches NodeData::Full(t) ==> {
                &&& t@ == content@
                &&& (old(self).current is Some && old(self).deltas_above_spec(old(self).current.unwrap().0 as int) + 1 < KEYFRAME_INTERVAL ==>
                    forall|d: NodeData| #[trigger] is_delta(old(self).text_at(old(self).current.unwrap().0 as int), content@, d) ==>
                        saves_nothing(d, content@))
            }),
    {
        let ghost before = *self;
        let parent = self.current;
        let parent_text: Option<String> = match parent {
            Some(p) => self.content_of(p),
            None => None,
        };
        let owned = String::from_str(content);
        if let Some(t) = &parent_text {
            if *t == owned {
                return false;
            }
        }
        let data = match (parent, parent_text) {
            (Some(p), Some(text)) => {
                proof {
                    self.lemma_deltas_bound(p.0 as int);
                }
                if self.deltas_above(p) < KEYFRAME_INTERVAL - 1 {
                    let d = delta(text.as_str(), content);
                    let too_long = match &d {
                        NodeData::Delta { insert, .. } => insert.as_str().as_bytes().len() >= content.as_bytes().len(),
                        NodeData::Full(_) => true,
                    };
                    if too_long {
                        proof {
                            assert forall|d2: NodeData| #[trigger] is_delta(text@, content@, d2) implies
                                saves_nothing(d2, content@)
                            by {
                                lemma_delta_unique(text@, content@, d, d2);
                            }
                        }
                        NodeData::Full(owned)
                    } else {
                        d
                    }
                } else {
                    NodeData::Full(owned)
                }
            },
            _ => NodeData::Full(owned),
        };
        let n = self.nodes.len();
        let preview = preview_of(content);
        self.nodes.push(Node { data, parent, children: Vec::new(), created_at, preview });
        if let Some(p) = parent {
            self.nodes[p.0].children.push(NodeIndex(n));
        }
        self.current = Some(NodeIndex(n));
        self.redo_stack.clear();
        proof {
            let after = *self;
            assert forall|i: int| 0 <= i < n implies after.text_at(i) == before.text_at(i)
                && after.deltas_above_spec(i) == before.deltas_above_spec(i) by {
                lemma_text_prefix(before, after, i);
            }
            match parent {
                Some(p) => {
                    assert(after.text_at(n as int) == apply_spec(before.text_at(p.0 as int), after.nodes@[n as int].data));
                    if let NodeData::Delta { .. } = after.nodes@[n as int].data {
                        law_delta_then_apply(before.text_at(p.0 as int), content@, after.nodes@[n as int].data);
                    }
                },
                None => {},
            }
            assert forall|i: int| 0 <= i < after.nodes@.len() implies #[trigger] node_ok_in(after.nodes@, i) by {
                if i < n {
                    assert(before.node_ok(i));
                    if let Some(q) = after.nodes@[i].parent {
                        assert(after.text_at(q.0 as int) == before.text_at(q.0 as int));
                    }
                    assert forall|k: int| 0 <= k < after.nodes@[i].children@.len() implies
                        #[trigger] after.nodes@[i].children@[k].0 < after.nodes@.len() by {
                        if before.current == Some(NodeIndex(i as usize)) && k == before.nodes@[i].children@.len() {
                        } else {
                            assert(after.nodes@[i].children@[k] == before.nodes@[i].children@[k]);
                        }
                    }
                }
            }
        }
        true
    }
}

/// A version as the single-file format of older releases stored it: the
/// full text, its parent and when it was made.
#[derive(Debug)]
pub struct LegacyNode {
    pub content: String,
    pub parent: Option<NodeIndex>,
    pub created_at: Option<i64>,
}

impl History {
    /// Like `push`, but keeps identical versions so node indices survive migration.
    fn nodes_push_unchecked(&mut self, content: &str, created_at: Option<i64>)
        requires
            old(self).wf(),
        ensures
            old(self).appended(*final(self), content@, created_at),
    {
        if !self.push(content, created_at) {
            let ghost before = *self;
            let parent = self.current;
            let n = self.nodes.len();
            let keep = content.as_bytes().len();
            let preview = preview_of(content);
            self.nodes.push(Node {
                data: NodeData::Delta { keep_start: keep, keep_end: 0, insert: String::new() },
                parent,
                children: Vec::new(),
                created_at,
                preview,
            });
            if let Some(p) = parent {
                self.nodes[p.0].children.push(NodeIndex(n));
            }
            self.current = Some(NodeIndex(n));
            proof {
                let after = *self;
                let p = parent.unwrap();
                let b = bytes_of(content@);
                crate::utf8_facts::lemma_ends_are_boundaries(content@);
                assert(b.subrange(0, keep as int) =~= b);
                assert(b.subrange(b.len() - 0, b.len() as int) =~= Seq::<u8>::empty());
                encode_utf8_decode_utf8(content@);
                assert(decode_utf8(Seq::<u8>::empty()) =~= Seq::<char>::empty());
                assert forall|i: int| 0 <= i < n implies after.text_at(i) == before.text_at(i)
                    && after.deltas_above_spec(i) == before.deltas_above_spec(i) by {
                    lemma_text_prefix(before, after, i);
                }
                assert(after.text_at(n as int) == apply_spec(before.text_at(p.0 as int), after.nodes@[n as int].data));
                assert(after.text_at(n as int) =~= content@);
                assert forall|i: int| 0 <= i < after.nodes@.len() implies #[trigger] node_ok_in(after.nodes@, i) by {
                    if i < n {
                        assert(before.node_ok(i));
                        if let Some(q) = after.nodes@[i].parent {
                            assert(after.text_at(q.0 as int) == before.text_at(q.0 as int));
                        }
                        assert forall|k: int| 0 <= k < after.nodes@[i].children@.len() implies
                            #[trigger] after.nodes@[i].children@[k].0 < after.nodes@.len() by {
                            if before.current == Some(NodeIndex(i as usize)) && k == before.nodes@[i].children@.len() {
                            } else {
                                assert(after.nodes@[i].children@[k] == before.nodes@[i].children@[k]);
                            }
                        }
                    }
                }
            }
        }
    }

    /// Rebuilds a history kept in the old single-file format. Nodes were only
    /// ever appended, so replaying them in order rebuilds the same tree: each
    /// version keeps its index, parent and text. A parent that does not come
    /// before its child, or a current version that does not exist, is dropped.
    pub fn from_legacy(old: &Vec<LegacyNode>, current: Option<NodeIndex>) -> (h: History)
        ensures
            h.wf(),
            h.nodes@.len() == old@.len(),
            forall|i: int| 0 <= i < old@.len() ==> #[trigger] h.text_at(i) == old@[i].content@,
            forall|i: int|
                0 <= i < old@.len() ==> #[trigger] h.nodes@[i].parent == (match old@[i].parent {
                    Some(p) if p.0 < i => Some(p),
                    _ => None,
                }),
            forall|i: int| 0 <= i < old@.len() ==> #[trigger] h.nodes@[i].created_at == old@[i].created_at,
            h.current == (match current {
                Some(c) if c.0 < old@.len() => Some(c),
                _ => None,
            }),
    {
        let mut history = History::empty();
        let mut i: usize = 0;
        while i < old.len()
            invariant
                i <= old@.len(),
                history.wf(),
                history.nodes@.len() == i,
                forall|j: int| 0 <= j < i ==> #[trigger] history.text_at(j) == old@[j].content@,
                forall|j: int|
                    0 <= j < i ==> #[trigger] history.nodes@[j].parent == (match old@[j].parent {
                        Some(p) if p.0 < j => Some(p),
                        _ => None,
                    }),
                forall|j: int| 0 <= j < i ==> #[trigger] history.nodes@[j].created_at == old@[j].created_at,
            decreases old@.len() - i,
        {
            let node = &old[i];
            let ghost h0 = history;
            history.current = match node.parent {
                Some(p) if p.0 < i => Some(p),
                _ => None,
            };
            proof {
                assert forall|j: int| 0 <= j < i implies #[trigger] history.text_at(j) == h0.text_at(j) by {
                    lemma_text_prefix(h0, history, j);
                }
                assert forall|j: int| 0 <= j < i implies #[trigger] node_ok_in(history.nodes@, j) by {
                    assert(h0.node_ok(j));
                    if let Some(q) = history.nodes@[j].parent {
                        assert(history.text_at(q.0 as int) == h0.text_at(q.0 as int));
                    }
                }
            }
            history.nodes_push_unchecked(node.content.as_str(), node.created_at);
            i += 1;
        }
        let ghost h0 = history;
        history.current = match current {
            Some(c) if c.0 < history.nodes.len() => Some(c),
            _ => None,
        };
        proof {
            assert forall|j: int| 0 <= j < i implies #[trigger] history.text_at(j) == h0.text_at(j) by {
                lemma_text_prefix(h0, history, j);
            }
            assert forall|j: int| 0 <= j < i implies #[trigger] node_ok_in(history.nodes@, j) by {
                assert(h0.node_ok(j));
                if let Some(q) = history.nodes@[j].parent {
                    assert(history.text_at(q.0 as int) == h0.text_at(q.0 as int));
                }
            }
        }
        history
    }
}

impl History {
    /// Whether the history is well formed: every version can be rebuilt from
    /// its parent, and every index it holds names one of its versions. A
    /// history read from disk is handed to the tree only when it is.
    pub fn is_valid(&self) -> (r: bool)
        ensures
            r == self.wf(),
    {
        let n = self.nodes.len();
        let mut texts: Vec<String> = Vec::new();
        let mut i: usize = 0;
        while i < n
            invariant
                n == self.nodes@.len(),
                i <= n,
                texts@.len() == i,
                forall|k: int| 0 <= k < i ==> (#[trigger] texts@[k])@ == text_in(self.nodes@, k),
                forall|k: int| 0 <= k < i ==> #[trigger] node_ok_in(self.nodes@, k),
            decreases n - i,
        {
            let node = &self.nodes[i];
            let mut c: usize = 0;
            while c < node.children.len()
                invariant
                    i < n,
                    node == self.nodes@[i as int],
                    n == self.nodes@.len(),
                    c <= node.children@.len(),
                    forall|q: int| 0 <= q < c ==> #[trigger] node.children@[q].0 < n,
                decreases node.children.len() - c,
            {
                if node.children[c].0 >= n {
                    assert(!node_ok_in(self.nodes@, i as int));
                    return false;
                }
                c += 1;
            }
            let text = match node.parent {
                Some(p) => {
                    if p.0 >= i {
                        assert(!node_ok_in(self.nodes@, i as int));
                        return false;
                    }
                    if !applies(texts[p.0].as_str(), &node.data) {
                        assert(!node_ok_in(self.nodes@, i as int));
                        return false;
                    }
                    apply(texts[p.0].as_str(), &node.data)
                },
                None => {
                    match &node.data {
                        NodeData::Full(t) => t.clone(),
                        NodeData::Delta { .. } => {
                            assert(!node_ok_in(self.nodes@, i as int));
                            return false;
                        },
                    }
                },
            };
            assert(node_ok_in(self.nodes@, i as int));
            texts.push(text);
            i += 1;
        }
        assert(nodes_ok(self.nodes@));
        match self.current {
            Some(c) => {
                if c.0 >= n {
                    return false;
                }
            },
            None => {},
        }
        let mut k: usize = 0;
        while k < self.redo_stack.len()
            invariant
                n == self.nodes@.len(),
                k <= self.redo_stack@.len(),
                forall|q: int| 0 <= q < k ==> #[trigger] self.redo_stack@[q].0 < n,
            decreases self.redo_stack.len() - k,
        {
            if self.redo_stack[k].0 >= n {
                return false;
            }
            k += 1;
        }
        true
    }

    /// What `undo` does: moves to the parent of the current version, keeping
    /// the version left behind for `redo_latest_branch`. Without a current
    /// version, or at the root, nothing changes.
    pub open spec fn undone(self, next: History) -> bool {
        match self.current {
            Some(c) if self.nodes@[c.0 as int].parent is Some => {
                &&& next.nodes == self.nodes
                &&& next.current == self.nodes@[c.0 as int].parent
                &&& next.redo_stack@ == self.redo_stack@.push(c)
            },
            _ => next.nodes == self.nodes && next.current == self.current && next.redo_stack@ == self.redo_stack@,
        }
    }

    /// The version `redo_latest_branch` moves to: the last one undone in this
    /// session, else the newest child of the current version.
    pub open spec fn redo_target(self) -> Option<NodeIndex> {
        if self.redo_stack@.len() > 0 {
            Some(self.redo_stack@.last())
        } else {
            match self.current {
                Some(c) if self.children_of(c.0 as int).len() > 0 => Some(
                    NodeIndex(max_index(self.children_of(c.0 as int))),
                ),
                _ => None,
            }
        }
    }

    /// What `redo_latest_branch` does.
    pub open spec fn redone(self, next: History) -> bool {
        match self.redo_target() {
            Some(t) => {
                &&& next.nodes == self.nodes
                &&& next.current == Some(t)
                &&& next.redo_stack@ == if self.redo_stack@.len() > 0 {
                    self.redo_stack@.drop_last()
                } else {
                    self.redo_stack@
                }
            },
            None => next.nodes == self.nodes && next.current == self.current && next.redo_stack@ == self.redo_stack@,
        }
    }

    /// Moves back to the parent of the current version and returns its text;
    /// `None` when there is no current version or it is the root.
    pub fn undo(&mut self) -> (r: Option<String>)
        requires
            old(self).wf(),
        ensures
            old(self).undone(*final(self)),
            final(self).wf(),
            r is Some <==> (old(self).current is Some && old(self).nodes@[old(self).current.unwrap().0 as int].parent is Some),
            r matches Some(t) ==> t@ == old(self).text_at(final(self).current.unwrap().0 as int),
    {
        let current_index = match self.current {
            Some(c) => c,
            None => return None,
        };
        assert(self.node_ok(current_index.0 as int));
        let parent_index = match self.nodes[current_index.0].parent {
            Some(p) => p,
            None => return None,
        };
        self.redo_stack.push(current_index);
        self.current = Some(parent_index);
        self.content_of(parent_index)
    }

    /// Moves to the version undone last in this session, or else to the
    /// newest child of the current version, and returns its text.
    pub fn redo_latest_branch(&mut self) -> (r: Option<String>)
        requires
            old(self).wf(),
        ensures
            old(self).redone(*final(self)),
            final(self).wf(),
            r is Some <==> old(self).redo_target() is Some,
            r matches Some(t) ==> t@ == old(self).text_at(old(self).redo_target().unwrap().0 as int),
    {
        let target = match self.redo_stack.pop() {
            Some(t) => t,
            None => {
                let c = match self.current {
                    Some(c) => c,
                    None => return None,
                };
                let children = self.get_latest_children(c);
                if children.len() == 0 {
                    assert(self.children_of(c.0 as int).len() == 0) by {
                        broadcast use vstd::seq_lib::group_to_multiset_ensures;
                        assert(children@.to_multiset().len() == 0);
                    }
                    return None;
                }
                proof {
                    lemma_first_of_sorted_is_max(children@, self.children_of(c.0 as int));
                }
                children[0]
            },
        };
        proof {
            if old(self).redo_stack@.len() == 0 {
                let c = old(self).current.unwrap();
                assert(old(self).node_ok(c.0 as int));
                lemma_max_index_in(old(self).children_of(c.0 as int));
            }
        }
        self.current = Some(target);
        self.content_of(target)
    }

    /// Makes `target` the current version and returns its text; `None`, with
    /// nothing changed, for an index outside the history.
    pub fn goto_version(&mut self, target: usize) -> (r: Option<String>)
        requires
            old(self).wf(),
        ensures
            final(self).wf(),
            target >= old(self).nodes@.len() ==> r is None && *final(self) == *old(self),
            target < old(self).nodes@.len() ==> {
                &&& final(self).nodes == old(self).nodes
                &&& final(self).current == Some(NodeIndex(target))
                &&& final(self).redo_stack@.len() == 0
                &&& r matches Some(t) && t@ == old(self).text_at(target as int)
            },
    {
        let content = match self.content_of(NodeIndex(target)) {
            Some(c) => c,
            None => return None,
        };
        self.current = Some(NodeIndex(target));
        self.redo_stack.clear();
        Some(content)
    }
}

/// The largest index in `s`.
pub open spec fn max_index(s: Seq<NodeIndex>) -> usize
    decreases s.len(),
{
    if s.len() == 0 {
        0
    } else {
        let rest = max_index(s.drop_last());
        if s.len() == 1 || s.last().0 > rest {
            s.last().0
        } else {
            rest
        }
    }
}

pub proof fn lemma_max_index_in(s: Seq<NodeIndex>)
    requires
        s.len() > 0,
    ensures
        exists|k: int| 0 <= k < s.len() && s[k].0 == max_index(s),
        forall|k: int| 0 <= k < s.len() ==> s[k].0 <= max_index(s),
    decreases s.len(),
{
    if s.len() > 1 {
        lemma_max_index_in(s.drop_last());
        let k = choose|k: int| 0 <= k < s.drop_last().len() && s.drop_last()[k].0 == max_index(s.drop_last());
        assert(s[k] == s.drop_last()[k]);
        assert forall|j: int| 0 <= j < s.len() implies s[j].0 <= max_index(s) by {
            if j < s.len() - 1 {
                assert(s[j] == s.drop_last()[j]);
            }
        }
    } else {
        assert(s[0].0 == max_index(s));
    }
}

/// The first element of a descending permutation of `s` is its largest index.
pub proof fn lemma_first_of_sorted_is_max(r: Seq<NodeIndex>, s: Seq<NodeIndex>)
    requires
        r.to_multiset() == s.to_multiset(),
        sorted_desc(r),
        r.len() > 0,
    ensures
        s.len() > 0,
        r[0].0 == max_index(s),
{
    broadcast use vstd::seq_lib::group_to_multiset_ensures;

    assert(r.to_multiset().count(r[0]) > 0);
    assert(s.contains(r[0]));
    lemma_max_index_in(s);
    let k = choose|k: int| 0 <= k < s.len() && s[k].0 == max_index(s);
    assert(s.to_multiset().count(s[k]) > 0);
    assert(r.contains(s[k]));
    let j = choose|j: int| 0 <= j < r.len() && r[j] == s[k];
    let i = choose|i: int| 0 <= i < s.len() && s[i] == r[0];
    assert(r[0].0 >= r[j].0);
}

/// Milliseconds since the Unix epoch, for stamping a new version. Reads the
/// system clock, so nothing is claimed about the value.
#[verifier::external_body]
fn now_millis() -> (t: Option<i64>) {
    std::time::SystemTime::now().duration_since(std::time::UNIX_EPOCH).ok().map(|d| d.as_millis() as i64)
}

/// A lower-case hexadecimal digit.
pub open spec fn is_lower_hex(c: char) -> bool {
    ('0' <= c && c <= '9') || ('a' <= c && c <= 'f')
}

/// A fresh id: `uuid::Uuid::new_v4()` in its simple form. The value is random;
/// every outcome is 32 lower-case hexadecimal digits.
#[verifier::external_body]
pub(crate) fn new_history_id() -> (id: String)
    ensures
        id@.len() == 32,
        forall|i: int| 0 <= i < 32 ==> is_lower_hex(#[trigger] id@[i]),
{
    uuid::Uuid::new_v4().simple().to_string()
}

/// What a save must write: the histories changed since the last save (by
/// id), whether the index changed, and the ids whose files are gone.
#[derive(Debug)]
pub struct SavePlan {
    pub histories: Vec<String>,
    pub index: bool,
    pub removed: Vec<String>,
}

/// The version histories of every writing, by writing name. Each history
/// has an id; a writing's history lives under that id.
#[derive(Debug)]
pub struct UndoTree {
    /// Writing name -> history id.
    index: Vec<(String, String)>,
    /// Histories loaded so far, by id.
    loaded: Vec<(String, History)>,
    /// Ids of histories changed since the last save.
    dirty: Vec<String>,
    index_dirty: bool,
    /// Ids of histories dropped since the last save.
    removed: Vec<String>,
}

/// Some writing in `m` has the history `id`.
pub open spec fn id_from(m: Map<Seq<char>, String>, id: String) -> bool {
    exists|n0: Seq<char>| #[trigger] m.contains_key(n0) && m[n0] == id
}

/// Entry `k` of a saved index counts: no earlier entry has its name or its id.
pub open spec fn first_entry(index: Seq<(String, String)>, k: int) -> bool {
    forall|j: int| 0 <= j < k ==> #[trigger] index[j].0@ != index[k].0@ && index[j].1@ != index[k].1@
}

/// Whether an entry before `i` has entry `i`'s name or id.
fn clashes(index: &Vec<(String, String)>, i: usize) -> (r: bool)
    requires
        i < index@.len(),
    ensures
        r == !first_entry(index@, i as int),
{
    let mut j: usize = 0;
    while j < i
        invariant
            j <= i < index@.len(),
            forall|q: int| #![trigger index@[q]] 0 <= q < j ==> index@[q].0@ != index@[i as int].0@ && index@[q].1@ != index@[i as int].1@,
        decreases i - j,
    {
        let same_name = same_text(index[j].0.as_str(), index[i].0.as_str());
        let same_id = same_text(index[j].1.as_str(), index[i].1.as_str());
        if same_name || same_id {
            assert(!(index@[j as int].0@ != index@[i as int].0@ && index@[j as int].1@ != index@[i as int].1@));
            return true;
        }
        assert(index@[j as int].0@ != index@[i as int].0@ && index@[j as int].1@ != index@[i as int].1@);
        assert forall|q: int| #![trigger index@[q]] 0 <= q < j + 1 implies index@[q].0@ != index@[i as int].0@
            && index@[q].1@ != index@[i as int].1@ by {
            if q == j {
            }
        }
        j += 1;
    }
    false
}

/// No two writings share a history.
pub open spec fn ids_distinct(m: Map<Seq<char>, String>) -> bool {
    forall|a: Seq<char>, b: Seq<char>|
        #[trigger] m.contains_key(a) && #[trigger] m.contains_key(b) && a != b ==> m[a]@ != m[b]@
}

/// Whether some entry of `index` has the id `id`.
fn id_taken(index: &Vec<(String, String)>, id: &String) -> (r: bool)
    ensures
        r == exists|k: int| 0 <= k < index@.len() && #[trigger] index@[k].1@ == id@,
{
    let mut i: usize = 0;
    while i < index.len()
        invariant
            i <= index@.len(),
            forall|k: int| 0 <= k < i ==> #[trigger] index@[k].1@ != id@,
        decreases index.len() - i,
    {
        if crate::text::same_text(index[i].1.as_str(), id.as_str()) {
            return true;
        }
        i += 1;
    }
    false
}

/// An id longer than every id in `index`, so unlike all of them.
fn longer_than_all(index: &Vec<(String, String)>) -> (r: String)
    ensures
        forall|k: int| 0 <= k < index@.len() ==> #[trigger] index@[k].1@.len() < r@.len(),
{
    let mut longest = String::new();
    let mut i: usize = 0;
    while i < index.len()
        invariant
            i <= index@.len(),
            forall|k: int| 0 <= k < i ==> #[trigger] index@[k].1@.len() <= longest@.len(),
        decreases index.len() - i,
    {
        let n = crate::text::chars_of(index[i].1.as_str()).len();
        if n > crate::text::chars_of(longest.as_str()).len() {
            longest = index[i].1.clone();
        }
        i += 1;
    }
    longest.push('0');
    longest
}

impl UndoTree {
    /// Writing name -> history id.
    pub closed spec fn names(self) -> Map<Seq<char>, String> {
        keyed(self.index@)
    }

    /// History id -> loaded history.
    pub closed spec fn histories(self) -> Map<Seq<char>, History> {
        keyed(self.loaded@)
    }

    /// The history of writing `name`, if it has one loaded.
    pub open spec fn history_of(self, name: Seq<char>) -> Option<History> {
        if self.names().contains_key(name) && self.histories().contains_key(self.names()[name]@) {
            Some(self.histories()[self.names()[name]@])
        } else {
            None
        }
    }

    /// Whether the history `id` changed since the last save.
    pub closed spec fn is_dirty(self, id: Seq<char>) -> bool {
        exists|k: int| 0 <= k < self.dirty@.len() && #[trigger] self.dirty@[k]@ == id
    }

    /// Whether the index changed since the last save.
    pub closed spec fn index_changed(self) -> bool {
        self.index_dirty
    }

    /// Ids of histories dropped since the last save.
    pub closed spec fn dropped(self) -> Seq<String> {
        self.removed@
    }

    pub closed spec fn wf(self) -> bool {
        &&& ids_distinct(self.names())
        &&& keys_unique(self.index@)
        &&& keys_unique(self.loaded@)
        &&& forall|k: int| 0 <= k < self.loaded@.len() ==> (#[trigger] self.loaded@[k]).1.wf()
    }

    pub proof fn lemma_histories_wf(self)
        requires
            self.wf(),
        ensures
            forall|id: Seq<char>| #[trigger] self.histories().contains_key(id) ==> self.histories()[id].wf(),
    {
        lemma_keyed_lookup(self.loaded@);
        assert forall|id: Seq<char>| #[trigger] self.histories().contains_key(id) implies self.histories()[id].wf() by {
            let k = choose|k: int| 0 <= k < self.loaded@.len() && self.loaded@[k].0@ == id;
            assert(self.loaded@[k].1.wf());
            assert(keyed(self.loaded@).contains_key(self.loaded@[k].0@));
        }
    }

    /// An empty tree.
    pub fn new() -> (t: UndoTree)
        ensures
            t.wf(),
            t.names() == Map::<Seq<char>, String>::empty(),
            t.histories() == Map::<Seq<char>, History>::empty(),
    {
        UndoTree { index: Vec::new(), loaded: Vec::new(), dirty: Vec::new(), index_dirty: false, removed: Vec::new() }
    }

    /// A tree read back from its saved index: writing name -> history id,
    /// with no history read in yet. An entry whose name or id an earlier
    /// entry already has is skipped, so no two writings share a history.
    pub fn from_index(index: Vec<(String, String)>) -> (t: UndoTree)
        ensures
            t.wf(),
            t.histories() == Map::<Seq<char>, History>::empty(),
            forall|k: int|
                0 <= k < index@.len() && #[trigger] first_entry(index@, k) ==> t.names().contains_key(index@[k].0@)
                    && t.names()[index@[k].0@] == index@[k].1,
            forall|n: Seq<char>| #[trigger] t.names().contains_key(n) ==> exists|k: int|
                0 <= k < index@.len() && #[trigger] first_entry(index@, k) && index@[k].0@ == n,
            forall|x: Seq<char>| !t.is_dirty(x),
            !t.index_changed(),
            t.dropped().len() == 0,
    {
        let mut out: Vec<(String, String)> = Vec::new();
        let ghost mut src: Seq<int> = Seq::empty();
        let mut i: usize = 0;
        while i < index.len()
            invariant
                i <= index@.len(),
                out@.len() == src.len(),
                forall|m: int| 0 <= m < src.len() ==> 0 <= #[trigger] src[m] < i && first_entry(index@, src[m])
                    && out@[m] == index@[src[m]],
                forall|a: int, b: int| 0 <= a < b < src.len() ==> #[trigger] src[a] < #[trigger] src[b],
                forall|k: int| 0 <= k < i && #[trigger] first_entry(index@, k) ==> exists|m: int|
                    0 <= m < src.len() && #[trigger] src[m] == k,
            decreases index.len() - i,
        {
            let clash = clashes(&index, i);
            if !clash {
                let e = (index[i].0.clone(), index[i].1.clone());
                assert(e == index@[i as int]);
                out.push(e);
                proof {
                    let old_src = src;
                    src = src.push(i as int);
                    assert forall|k: int| 0 <= k < i + 1 && #[trigger] first_entry(index@, k) implies exists|m: int|
                        0 <= m < src.len() && #[trigger] src[m] == k by {
                        if k == i {
                            assert(src[src.len() - 1] == k);
                        } else {
                            let m = choose|m: int| 0 <= m < old_src.len() && #[trigger] old_src[m] == k;
                            assert(src[m] == k);
                        }
                    }
                }
            }
            i += 1;
        }
        let t = UndoTree { index: out, loaded: Vec::new(), dirty: Vec::new(), index_dirty: false, removed: Vec::new() };
        proof {
            assert forall|a: int, b: int| 0 <= a < b < t.index@.len() implies #[trigger] t.index@[a].0@
                != #[trigger] t.index@[b].0@ && t.index@[a].1@ != t.index@[b].1@ by {
                assert(src[a] < src[b]);
                assert(first_entry(index@, src[b]));
                assert(index@[src[a]].0@ != index@[src[b]].0@);
            }
            assert(keys_unique(t.index@));
            lemma_keyed_lookup(t.index@);
            assert(keyed(t.loaded@) =~= Map::<Seq<char>, History>::empty());
            assert forall|a: Seq<char>, b: Seq<char>|
                #[trigger] t.names().contains_key(a) && #[trigger] t.names().contains_key(b) && a != b implies t.names()[a]@
                    != t.names()[b]@ by {
                let ma = choose|m: int| 0 <= m < t.index@.len() && t.index@[m].0@ == a;
                let mb = choose|m: int| 0 <= m < t.index@.len() && t.index@[m].0@ == b;
                assert(t.names()[a] == t.index@[ma].1 && t.names()[b] == t.index@[mb].1);
                if ma < mb {
                    assert(t.index@[ma].1@ != t.index@[mb].1@);
                } else {
                    assert(t.index@[mb].1@ != t.index@[ma].1@);
                }
            }
            assert forall|k: int|
                0 <= k < index@.len() && #[trigger] first_entry(index@, k) implies t.names().contains_key(index@[k].0@)
                    && t.names()[index@[k].0@] == index@[k].1 by {
                let m = choose|m: int| 0 <= m < src.len() && #[trigger] src[m] == k;
                assert(t.index@[m] == index@[k]);
            }
            assert forall|n: Seq<char>| #[trigger] t.names().contains_key(n) implies exists|k: int|
                0 <= k < index@.len() && #[trigger] first_entry(index@, k) && index@[k].0@ == n by {
                let m = choose|m: int| 0 <= m < t.index@.len() && t.index@[m].0@ == n;
                assert(first_entry(index@, src[m]) && index@[src[m]].0@ == n);
            }
        }
        t
    }

    /// Hands in the history `id` as read from disk, in place of any held.
    pub fn insert_loaded(&mut self, id: &str, h: History)
        requires
            old(self).wf(),
            h.wf(),
        ensures
            final(self).wf(),
            final(self).names() == old(self).names(),
            final(self).histories() == old(self).histories().insert(id@, h),
            forall|x: Seq<char>| #[trigger] final(self).is_dirty(x) == old(self).is_dirty(x),
            final(self).index_changed() == old(self).index_changed(),
            final(self).dropped() == old(self).dropped(),
    {
        let key = String::from_str(id);
        proof {
            lemma_keyed_lookup(self.loaded@);
        }
        match find_key(&self.loaded, &key) {
            Some(k) => {
                let ghost before = self.loaded@;
                let name = self.loaded[k].0.clone();
                self.loaded.set(k, (name, h));
                proof {
                    lemma_keyed_update(before, k as int, h);
                    assert(self.loaded@ == before.update(k as int, (before[k as int].0, h)));
                    assert forall|j: int| 0 <= j < self.loaded@.len() implies (#[trigger] self.loaded@[j]).1.wf() by {
                        if j != k {
                            assert(self.loaded@[j] == before[j]);
                        }
                    }
                }
            },
            None => {
                let ghost before = self.loaded@;
                proof {
                    lemma_keyed_push(self.loaded@, (key, h));
                }
                self.loaded.push((key, h));
                proof {
                    assert forall|j: int| 0 <= j < self.loaded@.len() implies (#[trigger] self.loaded@[j]).1.wf() by {
                        if j < before.len() {
                            assert(self.loaded@[j] == before[j]);
                        }
                    }
                }
            },
        }
        assert(self.dirty@ == old(self).dirty@);
        assert forall|x: Seq<char>| #[trigger] self.is_dirty(x) == old(self).is_dirty(x) by {
            if self.is_dirty(x) {
                let q = choose|q: int| 0 <= q < self.dirty@.len() && #[trigger] self.dirty@[q]@ == x;
                assert(old(self).dirty@[q]@ == x);
            }
            if old(self).is_dirty(x) {
                let q = choose|q: int| 0 <= q < old(self).dirty@.len() && #[trigger] old(self).dirty@[q]@ == x;
                assert(self.dirty@[q]@ == x);
            }
        }
    }

    /// The id for `name`, assigning a new one if it has no history yet.
    fn id_for(&mut self, name: &str) -> (id: String)
        requires
            old(self).wf(),
        ensures
            final(self).wf(),
            final(self).names() == (if old(self).names().contains_key(name@) {
                old(self).names()
            } else {
                old(self).names().insert(name@, id)
            }),
            old(self).names().contains_key(name@) ==> id == old(self).names()[name@],
            final(self).histories() == old(self).histories(),
            final(self).dirty@ == old(self).dirty@,
            final(self).removed@ == old(self).removed@,
            final(self).index_dirty == (old(self).index_dirty || !old(self).names().contains_key(name@)),
    {
        let key = String::from_str(name);
        match find_key(&self.index, &key) {
            Some(k) => {
                proof {
                    lemma_keyed_lookup(self.index@);
                }
                self.index[k].1.clone()
            },
            None => {
                let mut id = new_history_id();
                if id_taken(&self.index, &id) {
                    // A random id already in use: take one longer than any.
                    id = longer_than_all(&self.index);
                }
                proof {
                    lemma_keyed_lookup(self.index@);
                    assert forall|a: Seq<char>| #[trigger] self.names().contains_key(a) implies self.names()[a]@ != id@ by {
                        let k = choose|k: int| 0 <= k < self.index@.len() && self.index@[k].0@ == a;
                        assert(self.names()[a] == self.index@[k].1);
                    }
                }
                let idc = id.clone();
                proof {
                    lemma_keyed_push(self.index@, (key, idc));
                }
                self.index.push((key, idc));
                self.index_dirty = true;
                id
            },
        }
    }

    /// Position of the history with id `id`, reading it in (as a blank
    /// history, since nothing is on disk here) the first time it is needed.
    fn loaded_pos(&mut self, id: &String) -> (k: usize)
        requires
            old(self).wf(),
        ensures
            final(self).wf(),
            k < final(self).loaded@.len(),
            final(self).loaded@[k as int].0@ == id@,
            final(self).histories().contains_key(id@),
            final(self).histories()[id@] == final(self).loaded@[k as int].1,
            old(self).histories().contains_key(id@) ==> final(self).histories() == old(self).histories(),
            !old(self).histories().contains_key(id@) ==> {
                let h = final(self).histories()[id@];
                &&& h.nodes@.len() == 0
                &&& h.current is None
                &&& h.redo_stack@.len() == 0
                &&& final(self).histories() == old(self).histories().insert(id@, h)
            },
            final(self).names() == old(self).names(),
            final(self).dirty@ == old(self).dirty@,
            final(self).removed@ == old(self).removed@,
            final(self).index_dirty == old(self).index_dirty,
    {
        proof {
            lemma_keyed_lookup(self.loaded@);
        }
        match find_key(&self.loaded, id) {
            Some(k) => {
                k
            },
            None => {
                let h = History::empty();
                let idc = id.clone();
                proof {
                    lemma_keyed_push(self.loaded@, (idc, h));
                }
                self.loaded.push((idc, h));
                proof {
                    lemma_keyed_lookup(self.loaded@);
                    assert(self.loaded@[self.loaded@.len() - 1].0@ == id@);
                }
                self.loaded.len() - 1
            },
        }
    }

    fn mark_dirty_id(&mut self, id: &String)
        requires
            old(self).wf(),
        ensures
            final(self).wf(),
            final(self).names() == old(self).names(),
            final(self).histories() == old(self).histories(),
            final(self).is_dirty(id@),
            forall|x: Seq<char>| old(self).is_dirty(x) ==> final(self).is_dirty(x),
            forall|x: Seq<char>| final(self).is_dirty(x) ==> x == id@ || old(self).is_dirty(x),
            final(self).removed@ == old(self).removed@,
            final(self).index_dirty == old(self).index_dirty,
    {
        let ghost before = *self;
        let mut i: usize = 0;
        while i < self.dirty.len()
            invariant
                *self == before,
                before.wf(),
                i <= self.dirty@.len(),
                forall|k: int| 0 <= k < i ==> self.dirty@[k]@ != id@,
            decreases self.dirty@.len() - i,
        {
            if self.dirty[i] == *id {
                assert(self.dirty@[i as int]@ == id@);
                return;
            }
            i += 1;
        }
        self.dirty.push(id.clone());
        proof {
            assert forall|x: Seq<char>| self.is_dirty(x) implies x == id@ || before.is_dirty(x) by {
                let k = choose|k: int| 0 <= k < self.dirty@.len() && #[trigger] self.dirty@[k]@ == x;
                if k < before.dirty@.len() {
                    assert(self.dirty@[k] == before.dirty@[k]);
                }
            }
        }
        proof {
            assert(self.dirty@[self.dirty@.len() - 1]@ == id@);
            assert forall|x: Seq<char>| before.is_dirty(x) implies self.is_dirty(x) by {
                let k = choose|k: int| 0 <= k < before.dirty@.len() && #[trigger] before.dirty@[k]@ == x;
                assert(self.dirty@[k] == before.dirty@[k]);
            }
        }
    }

    /// What `add_change` does: `name` gets a history, and `content` becomes
    /// its current text, appended by the storage rule when it differs from
    /// the current one; the change is recorded for the next save; every other
    /// history is as it was.
    pub open spec fn changed(before: UndoTree, after: UndoTree, name: Seq<char>, content: Seq<char>) -> bool {
        let id = after.names()[name]@;
        let h = after.histories()[id];
        let unchanged = before.histories().get(id) matches Some(h0) && h0.current matches Some(c)
            && h0.text_at(c.0 as int) == content;
        &&& after.names().contains_key(name)
        &&& before.names().contains_key(name) ==> after.names() == before.names()
        &&& !before.names().contains_key(name) ==> after.names() == before.names().insert(name, after.names()[name])
        &&& after.history_of(name) is Some
        &&& h.current is Some
        &&& h.text_at(h.current.unwrap().0 as int) == content
        &&& forall|x: Seq<char>| x != id ==> #[trigger] after.histories().contains_key(x) == before.histories().contains_key(x)
        &&& forall|x: Seq<char>| x != id && before.histories().contains_key(x) ==> #[trigger] after.histories()[x] == before.histories()[x]
        &&& match before.histories().get(id) {
            Some(h0) => if h0.current matches Some(c) && h0.text_at(c.0 as int) == content {
                h == h0
            } else {
                exists|t: Option<i64>| h0.appended(h, content, t)
            },
            None => {
                &&& h.nodes@.len() == 1
                &&& h.current == Some(NodeIndex(0))
                &&& h.nodes@[0].parent is None
                &&& h.nodes@[0].data matches NodeData::Full(t) && t@ == content
                &&& h.nodes@[0].preview@ == preview_spec(content)
                &&& h.nodes@[0].children@.len() == 0
                &&& h.redo_stack@.len() == 0
            },
        }
        // What a save will write: the history when it changed, and the
        // index when the writing is new.
        &&& !unchanged ==> after.is_dirty(id)
        &&& unchanged ==> forall|x: Seq<char>| #[trigger] after.is_dirty(x) == before.is_dirty(x)
        &&& forall|x: Seq<char>| #[trigger] before.is_dirty(x) ==> after.is_dirty(x)
        &&& forall|x: Seq<char>| #[trigger] after.is_dirty(x) ==> x == id || before.is_dirty(x)
        &&& after.index_changed() == (before.index_changed() || !before.names().contains_key(name))
        &&& after.dropped() == before.dropped()
        // The storage rule: a change is kept as a delta only within
        // KEYFRAME_INTERVAL versions of a full copy, and only when that is smaller.
        &&& match before.histories().get(id) {
            Some(h0) => h != h0 ==> stored_by_rule(h0, h, content),
            None => h.deltas_above_spec(0) < KEYFRAME_INTERVAL,
        }
    }

    /// Adds a change. If content is identical to the current state, it is ignored.
    pub fn add_change(&mut self, file_name: &str, content: &str)
        requires
            old(self).wf(),
        ensures
            final(self).wf(),
            Self::changed(*old(self), *final(self), file_name@, content@),
    {
        let id = self.id_for(file_name);
        let k = self.loaded_pos(&id);
        proof {
            assert(self.loaded@[k as int].1.wf());
        }
        let ghost before = self.loaded@[k as int].1;
        let ghost loaded_before = self.loaded@;
        let t = now_millis();
        let changed = self.loaded[k].1.push(content, t);
        proof {
            assert(self.loaded@ == loaded_before.update(k as int, (loaded_before[k as int].0, self.loaded@[k as int].1)));
            lemma_keyed_update(loaded_before, k as int, self.loaded@[k as int].1);
            lemma_keyed_lookup(self.loaded@);
            assert forall|j: int| 0 <= j < self.loaded@.len() implies (#[trigger] self.loaded@[j]).1.wf() by {
                if j != k {
                    assert(self.loaded@[j] == loaded_before[j]);
                }
            }
            let h = self.loaded@[k as int].1;
            assert(self.histories()[id@] == h);
            if !changed {
                assert(before.current is Some);
                assert(h.text_at(h.current.unwrap().0 as int) == content@);
            } else {
                assert(h.current == Some(NodeIndex(before.nodes@.len() as usize)));
                assert(h.text_at(before.nodes@.len() as int) == content@);
            }
        }
        let ghost hh = self.loaded@[k as int].1;
        assert(self.dirty@ == old(self).dirty@);
        assert(hh.text_at(hh.current.unwrap().0 as int) == content@);
        proof {
            let unchanged = old(self).histories().get(id@) matches Some(h0) && h0.current matches Some(c)
                && h0.text_at(c.0 as int) == content@;
            if old(self).histories().contains_key(id@) {
                assert(old(self).histories().get(id@) == Some(before));
            } else {
                assert(old(self).histories().get(id@) is None);
                assert(before.current is None);
            }
            assert(changed == !unchanged);
        }
        if changed {
            self.mark_dirty_id(&id);
        }
        proof {
            assert(self.histories()[id@] == hh);
            assert(self.names()[file_name@]@ == id@);
            if !changed {
                assert forall|x: Seq<char>| #[trigger] self.is_dirty(x) == old(self).is_dirty(x) by {}
            }
            assert forall|x: Seq<char>| #[trigger] old(self).is_dirty(x) implies self.is_dirty(x) by {}
            assert forall|x: Seq<char>| #[trigger] self.is_dirty(x) implies x == id@ || old(self).is_dirty(x) by {}
        }
    }


    /// Writing name -> history id, after renaming `a` to `b`: `b` takes `a`'s
    /// id and whatever `b` had before is forgotten.
    pub open spec fn rename_map(m: Map<Seq<char>, String>, a: Seq<char>, b: Seq<char>) -> Map<Seq<char>, String> {
        if m.contains_key(a) {
            m.remove(a).remove(b).insert(b, m[a])
        } else {
            m
        }
    }

    /// Forgets `name`'s history, e.g. when another writing is renamed over it.
    fn drop_entry(&mut self, name: &str)
        requires
            old(self).wf(),
        ensures
            final(self).wf(),
            final(self).names() == old(self).names().remove(name@),
            final(self).histories() == if old(self).names().contains_key(name@) {
                old(self).histories().remove(old(self).names()[name@]@)
            } else {
                old(self).histories()
            },
            old(self).names().contains_key(name@) ==> !final(self).is_dirty(old(self).names()[name@]@),
            forall|x: Seq<char>| final(self).is_dirty(x) ==> old(self).is_dirty(x),
    {
        let key = String::from_str(name);
        let k = match find_key(&self.index, &key) {
            Some(k) => k,
            None => {
                assert(old(self).names().remove(name@) =~= old(self).names());
                return;
            },
        };
        proof {
            lemma_keyed_lookup(self.index@);
            lemma_keyed_remove(self.index@, k as int);
        }
        let (_, id) = self.index.remove(k);
        self.index_dirty = true;
        if let Some(j) = find_key(&self.loaded, &id) {
            proof {
                lemma_keyed_lookup(self.loaded@);
                lemma_keyed_remove(self.loaded@, j as int);
            }
            let ghost loaded_before = self.loaded@;
            self.loaded.remove(j);
            proof {
                assert forall|q: int| 0 <= q < self.loaded@.len() implies (#[trigger] self.loaded@[q]).1.wf() by {
                    let q2 = if q < j { q } else { q + 1 };
                    assert(self.loaded@[q] == loaded_before[q2]);
                }
            }
        } else {
            assert(old(self).histories().remove(id@) =~= old(self).histories());
        }
        let ghost dirty_before = self.dirty@;
        let mut kept: Vec<String> = Vec::new();
        let mut i: usize = 0;
        while i < self.dirty.len()
            invariant
                i <= self.dirty@.len(),
                self.dirty@ == dirty_before,
                forall|q: int| 0 <= q < kept@.len() ==> #[trigger] kept@[q]@ != id@,
                forall|q: int| 0 <= q < kept@.len() ==> exists|r: int| 0 <= r < dirty_before.len() && (#[trigger] kept@[q])@ == dirty_before[r]@,
            decreases self.dirty@.len() - i,
        {
            if self.dirty[i] != id {
                kept.push(self.dirty[i].clone());
                proof {
                    assert(kept@[kept@.len() - 1]@ == dirty_before[i as int]@);
                }
            }
            i += 1;
        }
        self.dirty = kept;
        self.removed.push(id);
        proof {
            assert forall|x: Seq<char>| self.is_dirty(x) implies old(self).is_dirty(x) by {
                let q = choose|q: int| 0 <= q < self.dirty@.len() && #[trigger] self.dirty@[q]@ == x;
                let r = choose|r: int| 0 <= r < dirty_before.len() && self.dirty@[q]@ == dirty_before[r]@;
                assert(old(self).dirty@[r]@ == x);
            }
            if self.is_dirty(id@) {
                let q = choose|q: int| 0 <= q < self.dirty@.len() && #[trigger] self.dirty@[q]@ == id@;
                assert(self.dirty@[q]@ != id@);
            }
        }
    }

    /// Moves `old_name`'s history to `new_name`, forgetting any history
    /// `new_name` had. Nothing happens if `old_name` has none.
    pub fn rename_entry(&mut self, old_name: &str, new_name: &str)
        requires
            old(self).wf(),
        ensures
            final(self).wf(),
            final(self).names() == Self::rename_map(old(self).names(), old_name@, new_name@),
            final(self).histories() == if old(self).names().contains_key(old_name@)
                && old(self).names().remove(old_name@).contains_key(new_name@) {
                old(self).histories().remove(old(self).names()[new_name@]@)
            } else {
                old(self).histories()
            },
            forall|n: Seq<char>| #[trigger] final(self).names().contains_key(n) ==> id_from(old(self).names(), final(self).names()[n]),
            forall|n: Seq<char>| #[trigger] final(self).names().contains_key(n) && old(self).histories().contains_key(
                final(self).names()[n]@,
            ) ==> final(self).histories().contains_key(final(self).names()[n]@)
                && final(self).histories()[final(self).names()[n]@] == old(self).histories()[final(self).names()[n]@],
    {
        let key = String::from_str(old_name);
        let k = match find_key(&self.index, &key) {
            Some(k) => k,
            None => {
                assert(*self == *old(self));
                assert forall|n: Seq<char>| #[trigger] self.names().contains_key(n) implies id_from(old(self).names(), self.names()[n]) by {
                    assert(old(self).names().contains_key(n) && old(self).names()[n] == self.names()[n]);
                }
                return;
            },
        };
        proof {
            lemma_keyed_lookup(self.index@);
            lemma_keyed_remove(self.index@, k as int);
        }
        let (_, id) = self.index.remove(k);
        let ghost moved = id;
        assert(moved == old(self).names()[old_name@]);
        self.drop_entry(new_name);
        let new_key = String::from_str(new_name);
        proof {
            lemma_keyed_push(self.index@, (new_key, id));
        }
        self.index.push((new_key, id));
        self.index_dirty = true;
        proof {
            let m = old(self).names();
            assert(self.names() =~= Self::rename_map(m, old_name@, new_name@));
            assert forall|n: Seq<char>| #[trigger] self.names().contains_key(n) implies exists|n0: Seq<char>|
                m.contains_key(n0) && m[n0] == self.names()[n] by {
                if n == new_name@ {
                    assert(m.contains_key(old_name@) && m[old_name@] == self.names()[n]);
                } else {
                    assert(m.contains_key(n) && m[n] == self.names()[n]);
                }
            }
            assert forall|n: Seq<char>| #[trigger] self.names().contains_key(n) && old(self).histories().contains_key(
                self.names()[n]@,
            ) implies self.histories().contains_key(self.names()[n]@)
                && self.histories()[self.names()[n]@] == old(self).histories()[self.names()[n]@] by {
                if m.remove(old_name@).contains_key(new_name@) {
                    if n == new_name@ {
                        assert(m[old_name@]@ != m[new_name@]@);
                    } else {
                        assert(m[n]@ != m[new_name@]@);
                    }
                }
            }
        }
    }

    /// Names in `entries` that lie under the folder `dir` (which ends in `/`).
    pub open spec fn under(entries: Seq<(String, String)>, dir: Seq<char>) -> Seq<Seq<char>>
        decreases entries.len(),
    {
        if entries.len() == 0 {
            Seq::empty()
        } else {
            let rest = Self::under(entries.drop_last(), dir);
            let name = entries.last().0@;
            if name.len() >= dir.len() && name.take(dir.len() as int) == dir {
                rest.push(name)
            } else {
                rest
            }
        }
    }

    pub proof fn lemma_under(entries: Seq<(String, String)>, dir: Seq<char>)
        ensures
            forall|q: int| 0 <= q < Self::under(entries, dir).len() ==> (#[trigger] Self::under(entries, dir)[q]).len() >= dir.len(),
        decreases entries.len(),
    {
        if entries.len() > 0 {
            let rest = Self::under(entries.drop_last(), dir);
            Self::lemma_under(entries.drop_last(), dir);
            let u = Self::under(entries, dir);
            assert forall|q: int| 0 <= q < u.len() implies (#[trigger] u[q]).len() >= dir.len() by {
                if q < rest.len() {
                    assert(u[q] == rest[q]);
                }
            }
        }
    }

    /// Renames each of `keys` from under `old_dir` to under `new_dir`, in order.
    pub open spec fn rename_all(m: Map<Seq<char>, String>, keys: Seq<Seq<char>>, old_dir: Seq<char>, new_dir: Seq<char>) -> Map<Seq<char>, String>
        decreases keys.len(),
    {
        if keys.len() == 0 {
            m
        } else {
            Self::rename_all(
                Self::rename_map(m, keys[0], new_dir + keys[0].skip(old_dir.len() as int)),
                keys.drop_first(),
                old_dir,
                new_dir,
            )
        }
    }

    /// The names under folder `dir`, in the order the tree keeps them.
    pub closed spec fn names_under(self, dir: Seq<char>) -> Seq<Seq<char>> {
        Self::under(self.index@, dir)
    }

    /// The names `under` lists are exactly the keys of `entries` that start with `dir`.
    pub proof fn lemma_under_keys(entries: Seq<(String, String)>, dir: Seq<char>)
        ensures
            forall|q: int| 0 <= q < Self::under(entries, dir).len() ==> {
                let n = #[trigger] Self::under(entries, dir)[q];
                &&& keyed(entries).contains_key(n)
                &&& n.len() >= dir.len()
                &&& n.take(dir.len() as int) == dir
            },
            forall|n: Seq<char>| #[trigger] keyed(entries).contains_key(n) && n.len() >= dir.len() && n.take(dir.len() as int) == dir
                ==> Self::under(entries, dir).contains(n),
        decreases entries.len(),
    {
        if entries.len() > 0 {
            let d = entries.drop_last();
            Self::lemma_under_keys(d, dir);
            let u = Self::under(entries, dir);
            let ud = Self::under(d, dir);
            let name = entries.last().0@;
            assert forall|q: int| 0 <= q < u.len() implies {
                let n = #[trigger] u[q];
                &&& keyed(entries).contains_key(n)
                &&& n.len() >= dir.len()
                &&& n.take(dir.len() as int) == dir
            } by {
                if q < ud.len() {
                    assert(u[q] == ud[q]);
                }
            }
            assert forall|n: Seq<char>| #[trigger] keyed(entries).contains_key(n) && n.len() >= dir.len() && n.take(dir.len() as int) == dir
                implies u.contains(n) by {
                if n == name {
                    assert(u[u.len() - 1] == n);
                } else {
                    assert(keyed(d).contains_key(n));
                    let q = choose|q: int| 0 <= q < ud.len() && ud[q] == n;
                    assert(u[q] == ud[q]);
                }
            }
        }
    }

    /// The names under folder `dir` are exactly the writings whose names start with `dir`.
    pub proof fn lemma_names_under(self, dir: Seq<char>)
        ensures
            forall|q: int| 0 <= q < self.names_under(dir).len() ==> {
                let n = #[trigger] self.names_under(dir)[q];
                &&& self.names().contains_key(n)
                &&& n.len() >= dir.len()
                &&& n.take(dir.len() as int) == dir
            },
            forall|n: Seq<char>| #[trigger] self.names().contains_key(n) && n.len() >= dir.len() && n.take(dir.len() as int) == dir
                ==> self.names_under(dir).contains(n),
    {
        Self::lemma_under_keys(self.index@, dir);
    }

    /// Re-keys every entry under folder `old_prefix` to live under
    /// `new_prefix` (both without trailing slash), so moving or renaming a
    /// folder keeps the version history of every writing inside it.
    pub fn rename_prefix(&mut self, old_prefix: &str, new_prefix: &str)
        requires
            old(self).wf(),
        ensures
            final(self).wf(),
            final(self).names() == Self::rename_all(
                old(self).names(),
                old(self).names_under(old_prefix@.push('/')),
                old_prefix@.push('/'),
                new_prefix@.push('/'),
            ),
            forall|id: Seq<char>| #[trigger] final(self).histories().contains_key(id) ==>
                old(self).histories().contains_key(id) && final(self).histories()[id] == old(self).histories()[id],
            // Every writing keeps its history: only those of writings renamed over are forgotten.
            forall|n: Seq<char>| #[trigger] final(self).names().contains_key(n) && old(self).histories().contains_key(
                final(self).names()[n]@,
            ) ==> final(self).histories().contains_key(final(self).names()[n]@)
                && final(self).histories()[final(self).names()[n]@] == old(self).histories()[final(self).names()[n]@],
    {
        let mut old_dir = String::from_str(old_prefix);
        old_dir.push('/');
        let mut new_dir = String::from_str(new_prefix);
        new_dir.push('/');
        let dir_chars = crate::text::chars_of(old_dir.as_str());
        let mut keys: Vec<String> = Vec::new();
        let mut i: usize = 0;
        while i < self.index.len()
            invariant
                i <= self.index@.len(),
                dir_chars@ == old_dir@,
                keys@.len() == Self::under(self.index@.take(i as int), old_dir@).len(),
                forall|q: int| 0 <= q < keys@.len() ==> #[trigger] keys@[q]@ == Self::under(self.index@.take(i as int), old_dir@)[q],
            decreases self.index@.len() - i,
        {
            let name = crate::text::chars_of(self.index[i].0.as_str());
            assert(self.index@.take(i + 1).drop_last() =~= self.index@.take(i as int));
            if crate::text::has_at(&name, 0, &dir_chars) {
                keys.push(self.index[i].0.clone());
                assert(name@.subrange(0, dir_chars@.len() as int) =~= name@.take(dir_chars@.len() as int));
            } else {
                assert(!(name@.len() >= dir_chars@.len() && name@.take(dir_chars@.len() as int) == dir_chars@)) by {
                    if name@.len() >= dir_chars@.len() {
                        assert(name@.subrange(0, dir_chars@.len() as int) =~= name@.take(dir_chars@.len() as int));
                    }
                }
            }
            i += 1;
        }
        assert(self.index@.take(self.index@.len() as int) =~= self.index@);
        let ghost all_keys = Self::under(self.index@, old_dir@);
        let ghost start = *self;
        proof {
            assert forall|n: Seq<char>| #[trigger] self.names().contains_key(n) implies id_from(start.names(), self.names()[n]) by {
                assert(start.names().contains_key(n) && start.names()[n] == self.names()[n]);
            }
            Self::lemma_under(self.index@, old_dir@);
            assert(all_keys.skip(0) =~= all_keys);
        }
        let mut j: usize = 0;
        while j < keys.len()
            invariant
                j <= keys@.len(),
                keys@.len() == all_keys.len(),
                forall|q: int| 0 <= q < keys@.len() ==> #[trigger] keys@[q]@ == all_keys[q],
                forall|q: int| 0 <= q < all_keys.len() ==> (#[trigger] all_keys[q]).len() >= dir_chars@.len(),
                dir_chars@ == old_dir@,
                self.wf(),
                Self::rename_all(self.names(), all_keys.skip(j as int), old_dir@, new_dir@) == Self::rename_all(
                    start.names(),
                    all_keys,
                    old_dir@,
                    new_dir@,
                ),
                forall|id: Seq<char>| #[trigger] self.histories().contains_key(id) ==>
                    start.histories().contains_key(id) && self.histories()[id] == start.histories()[id],
                forall|n: Seq<char>| #[trigger] self.names().contains_key(n) ==> id_from(start.names(), self.names()[n]),
                forall|n: Seq<char>| #[trigger] self.names().contains_key(n) && start.histories().contains_key(
                    self.names()[n]@,
                ) ==> self.histories().contains_key(self.names()[n]@)
                    && self.histories()[self.names()[n]@] == start.histories()[self.names()[n]@],
            decreases keys@.len() - j,
        {
            let key = crate::text::chars_of(keys[j].as_str());
            let mut target = new_dir.clone();
            crate::text::push_range(&mut target, &key, dir_chars.len(), key.len());
            assert(key@.subrange(dir_chars@.len() as int, key@.len() as int) =~= key@.skip(old_dir@.len() as int));
            assert(all_keys.skip(j as int).drop_first() =~= all_keys.skip(j + 1));
            let ghost mid = *self;
            self.rename_entry(keys[j].as_str(), target.as_str());
            proof {
                assert forall|n: Seq<char>| #[trigger] self.names().contains_key(n) implies id_from(start.names(), self.names()[n]) by {
                    let n1 = choose|n1: Seq<char>| mid.names().contains_key(n1) && mid.names()[n1] == self.names()[n];
                    assert(mid.names().contains_key(n1));
                }
                assert forall|n: Seq<char>| #[trigger] self.names().contains_key(n) && start.histories().contains_key(
                    self.names()[n]@,
                ) implies self.histories().contains_key(self.names()[n]@)
                    && self.histories()[self.names()[n]@] == start.histories()[self.names()[n]@] by {
                    let n1 = choose|n1: Seq<char>| mid.names().contains_key(n1) && mid.names()[n1] == self.names()[n];
                    assert(mid.names().contains_key(n1));
                    assert(mid.histories().contains_key(mid.names()[n1]@));
                }
            }
            j += 1;
        }
        assert(all_keys.skip(keys@.len() as int) =~= Seq::<Seq<char>>::empty());
    }

    /// Position of `name`'s history among those loaded, reading it in first.
    fn history_pos(&mut self, name: &str) -> (r: Option<usize>)
        requires
            old(self).wf(),
        ensures
            final(self).wf(),
            final(self).names() == old(self).names(),
            forall|x: Seq<char>| final(self).is_dirty(x) == old(self).is_dirty(x),
            r is Some <==> old(self).names().contains_key(name@),
            r is None ==> final(self).histories() == old(self).histories(),
            r matches Some(k) ==> {
                let id = old(self).names()[name@]@;
                &&& k < final(self).loaded@.len()
                &&& final(self).histories().contains_key(id)
                &&& final(self).histories()[id] == final(self).loaded@[k as int].1
                &&& final(self).loaded@[k as int].0@ == id
                &&& Self::based_on(old(self).histories(), final(self).histories(), id)
            },
    {
        let key = String::from_str(name);
        match find_key(&self.index, &key) {
            None => None,
            Some(k) => {
                proof {
                    lemma_keyed_lookup(self.index@);
                }
                let id = self.index[k].1.clone();
                Some(self.loaded_pos(&id))
            },
        }
    }

    /// What `goto_version` does to `name`: its history (read in blank if it
    /// was not loaded) moves to version `target` when it has one, returning
    /// its text; otherwise nothing changes.
    pub open spec fn went(before: UndoTree, after: UndoTree, name: Seq<char>, target: usize, r: Option<String>) -> bool {
        &&& after.names() == before.names()
        &&& !before.names().contains_key(name) ==> r is None && after.histories() == before.histories()
        &&& before.names().contains_key(name) ==> {
            let id = before.names()[name]@;
            let h = after.histories()[id];
            &&& after.histories().contains_key(id)
            &&& forall|x: Seq<char>| x != id ==> #[trigger] after.histories().get(x) == before.histories().get(x)
            &&& exists|h0: History| {
                &&& Self::based_on(before.histories(), before.histories().insert(id, h0), id)
                &&& (target >= h0.nodes@.len() ==> r is None && h == h0)
                &&& (target < h0.nodes@.len() ==> {
                    &&& h.nodes == h0.nodes
                    &&& h.current == Some(NodeIndex(target))
                    &&& h.redo_stack@.len() == 0
                    &&& r matches Some(t) && t@ == h0.text_at(target as int)
                    &&& after.is_dirty(id)
                })
            }
        }
    }

    /// What `undo` does to `name`: its history (read in blank if it was not
    /// loaded) moves back to the parent of its current version, returning
    /// that version's text; nothing else changes.
    pub open spec fn undid(before: UndoTree, after: UndoTree, name: Seq<char>, r: Option<String>) -> bool {
        &&& after.names() == before.names()
        &&& !before.names().contains_key(name) ==> r is None && after.histories() == before.histories()
        &&& before.names().contains_key(name) ==> {
            let id = before.names()[name]@;
            let h = after.histories()[id];
            &&& after.histories().contains_key(id)
            &&& forall|x: Seq<char>| x != id ==> #[trigger] after.histories().get(x) == before.histories().get(x)
            &&& exists|h0: History| {
                &&& Self::based_on(before.histories(), before.histories().insert(id, h0), id)
                &&& h0.undone(h)
                &&& (r is Some <==> (h0.current is Some && h0.nodes@[h0.current.unwrap().0 as int].parent is Some))
                &&& (r matches Some(t) ==> t@ == h0.text_at(h.current.unwrap().0 as int) && after.is_dirty(id))
            }
        }
    }

    /// What `redo_latest_branch` does to `name`: its history (read in blank
    /// if it was not loaded) moves to the version undone last, or else to the
    /// newest child of its current version, returning that version's text.
    pub open spec fn redid(before: UndoTree, after: UndoTree, name: Seq<char>, r: Option<String>) -> bool {
        &&& after.names() == before.names()
        &&& !before.names().contains_key(name) ==> r is None && after.histories() == before.histories()
        &&& before.names().contains_key(name) ==> {
            let id = before.names()[name]@;
            let h = after.histories()[id];
            &&& after.histories().contains_key(id)
            &&& forall|x: Seq<char>| x != id ==> #[trigger] after.histories().get(x) == before.histories().get(x)
            &&& exists|h0: History| {
                &&& Self::based_on(before.histories(), before.histories().insert(id, h0), id)
                &&& h0.redone(h)
                &&& (r is Some <==> h0.redo_target() is Some)
                &&& (r matches Some(t) ==> t@ == h0.text_at(h0.redo_target().unwrap().0 as int) && after.is_dirty(id))
            }
        }
    }

    /// `after` holds the history `id` as `before` did, or, if `before` had
    /// none, a blank one; every other history is as it was.
    pub open spec fn based_on(before: Map<Seq<char>, History>, after: Map<Seq<char>, History>, id: Seq<char>) -> bool {
        &&& after.contains_key(id)
        &&& if before.contains_key(id) {
            after == before
        } else {
            &&& after == before.insert(id, after[id])
            &&& after[id].nodes@.len() == 0
            &&& after[id].current is None
            &&& after[id].redo_stack@.len() == 0
        }
    }

    fn mark_dirty(&mut self, name: &str)
        requires
            old(self).wf(),
        ensures
            final(self).wf(),
            final(self).names() == old(self).names(),
            final(self).histories() == old(self).histories(),
            old(self).names().contains_key(name@) ==> final(self).is_dirty(old(self).names()[name@]@),
    {
        let key = String::from_str(name);
        if let Some(k) = find_key(&self.index, &key) {
            proof {
                lemma_keyed_lookup(self.index@);
            }
            let id = self.index[k].1.clone();
            self.mark_dirty_id(&id);
        }
    }

    /// Replaces the history at position `k` with `h`.
    proof fn lemma_replace(before: Self, after: Self, k: int, h: History)
        requires
            before.wf(),
            0 <= k < before.loaded@.len(),
            after.loaded@ == before.loaded@.update(k, (before.loaded@[k].0, h)),
            after.index@ == before.index@,
            h.wf(),
        ensures
            after.wf(),
            after.names() == before.names(),
            after.histories() == before.histories().insert(before.loaded@[k].0@, h),
    {
        lemma_keyed_update(before.loaded@, k, h);
        assert forall|j: int| 0 <= j < after.loaded@.len() implies (#[trigger] after.loaded@[j]).1.wf() by {
            if j != k {
                assert(after.loaded@[j] == before.loaded@[j]);
            }
        }
    }

    /// The id of the history that must be read in and handed over with
    /// `insert_loaded` before `file_name`'s history can be used: `None` when
    /// the writing has no history or its history is already held.
    pub fn needs_loading(&self, file_name: &str) -> (r: Option<String>)
        requires
            self.wf(),
        ensures
            r is Some <==> (self.names().contains_key(file_name@) && !self.histories().contains_key(
                self.names()[file_name@]@,
            )),
            r matches Some(id) ==> id@ == self.names()[file_name@]@,
    {
        let key = String::from_str(file_name);
        match find_key(&self.index, &key) {
            None => None,
            Some(k) => {
                proof {
                    lemma_keyed_lookup(self.index@);
                }
                let id = &self.index[k].1;
                match find_key(&self.loaded, id) {
                    Some(_) => None,
                    None => Some(id.clone()),
                }
            },
        }
    }

    /// The history of `file_name`, read in if needed; `None` when it has none.
    pub fn get_history(&mut self, file_name: &str) -> (r: Option<&History>)
        requires
            old(self).wf(),
        ensures
            final(self).wf(),
            final(self).names() == old(self).names(),
            r is Some <==> old(self).names().contains_key(file_name@),
            r is None ==> final(self).histories() == old(self).histories(),
            r matches Some(h) ==> {
                &&& final(self).history_of(file_name@) == Some(*h)
                &&& h.wf()
                &&& Self::based_on(old(self).histories(), final(self).histories(), old(self).names()[file_name@]@)
            },
    {
        match self.history_pos(file_name) {
            None => None,
            Some(k) => {
                proof {
                    lemma_keyed_lookup(self.loaded@);
                    assert(self.loaded@[k as int].1.wf());
                }
                Some(&self.loaded[k].1)
            },
        }
    }

    /// The text of `file_name`'s current version.
    pub fn current_content(&mut self, file_name: &str) -> (r: Option<String>)
        requires
            old(self).wf(),
        ensures
            final(self).wf(),
            final(self).names() == old(self).names(),
            r is Some <==> (final(self).history_of(file_name@) is Some && final(self).history_of(file_name@).unwrap().current is Some),
            r matches Some(t) ==> {
                let h = final(self).history_of(file_name@).unwrap();
                t@ == h.text_at(h.current.unwrap().0 as int)
            },
    {
        match self.get_history(file_name) {
            Some(h) => h.current_content(),
            None => None,
        }
    }

    /// Makes version `target_node_index` of `file_name` current and returns its text.
    pub fn goto_version(&mut self, file_name: &str, target_node_index: usize) -> (r: Option<String>)
        requires
            old(self).wf(),
        ensures
            final(self).wf(),
            Self::went(*old(self), *final(self), file_name@, target_node_index, r),
    {
        let k = match self.history_pos(file_name) {
            Some(k) => k,
            None => return None,
        };
        let ghost mid = *self;
        let ghost h0 = self.loaded@[k as int].1;
        proof {
            lemma_keyed_lookup(self.loaded@);
            assert(self.loaded@[k as int].1.wf());
        }
        let r = self.loaded[k].1.goto_version(target_node_index);
        proof {
            Self::lemma_replace(mid, *self, k as int, self.loaded@[k as int].1);
            assert(mid.histories().insert(mid.loaded@[k as int].0@, h0) =~= mid.histories());
        }
        if r.is_none() {
            return r;
        }
        self.mark_dirty(file_name);
        r
    }

    /// Moves `file_name` back to the parent of its current version and
    /// returns that version's text.
    pub fn undo(&mut self, file_name: &str) -> (r: Option<String>)
        requires
            old(self).wf(),
        ensures
            final(self).wf(),
            Self::undid(*old(self), *final(self), file_name@, r),
    {
        let k = match self.history_pos(file_name) {
            Some(k) => k,
            None => return None,
        };
        let ghost mid = *self;
        proof {
            lemma_keyed_lookup(self.loaded@);
            assert(self.loaded@[k as int].1.wf());
        }
        let ghost h0 = self.loaded@[k as int].1;
        let r = self.loaded[k].1.undo();
        proof {
            Self::lemma_replace(mid, *self, k as int, self.loaded@[k as int].1);
            assert(old(self).histories().insert(old(self).names()[file_name@]@, h0) == mid.histories());
        }
        if r.is_none() {
            return r;
        }
        self.mark_dirty(file_name);
        r
    }

    /// Moves `file_name` to the version undone last, or else to the newest
    /// child of its current version, and returns that version's text.
    pub fn redo_latest_branch(&mut self, file_name: &str) -> (r: Option<String>)
        requires
            old(self).wf(),
        ensures
            final(self).wf(),
            Self::redid(*old(self), *final(self), file_name@, r),
    {
        let k = match self.history_pos(file_name) {
            Some(k) => k,
            None => return None,
        };
        let ghost mid = *self;
        proof {
            lemma_keyed_lookup(self.loaded@);
            assert(self.loaded@[k as int].1.wf());
        }
        let ghost h0 = self.loaded@[k as int].1;
        let r = self.loaded[k].1.redo_latest_branch();
        proof {
            Self::lemma_replace(mid, *self, k as int, self.loaded@[k as int].1);
            assert(old(self).histories().insert(old(self).names()[file_name@]@, h0) == mid.histories());
        }
        if r.is_none() {
            return r;
        }
        self.mark_dirty(file_name);
        r
    }

    /// Clears the record of what changed and returns what must be written:
    /// the changed histories that are loaded, whether the index changed, and
    /// the ids of histories dropped.
    pub fn save(&mut self) -> (plan: SavePlan)
        requires
            old(self).wf(),
        ensures
            final(self).wf(),
            final(self).names() == old(self).names(),
            final(self).histories() == old(self).histories(),
            forall|x: Seq<char>| !#[trigger] final(self).is_dirty(x),
            forall|q: int| 0 <= q < plan.histories@.len() ==> old(self).is_dirty(#[trigger] plan.histories@[q]@)
                && old(self).histories().contains_key(plan.histories@[q]@),
            forall|x: Seq<char>| old(self).is_dirty(x) && old(self).histories().contains_key(x) ==>
                exists|q: int| 0 <= q < plan.histories@.len() && #[trigger] plan.histories@[q]@ == x,
            plan.index == old(self).index_changed(),
            plan.removed@ == old(self).dropped(),
            !final(self).index_changed(),
            final(self).dropped().len() == 0,
    {
        proof {
            lemma_keyed_lookup(self.loaded@);
        }
        let mut histories: Vec<String> = Vec::new();
        let mut i: usize = 0;
        while i < self.dirty.len()
            invariant
                *self == *old(self),
                self.wf(),
                i <= self.dirty@.len(),
                forall|q: int| 0 <= q < histories@.len() ==> self.is_dirty(#[trigger] histories@[q]@)
                    && self.histories().contains_key(histories@[q]@),
                forall|r: int| 0 <= r < i && #[trigger] self.histories().contains_key(self.dirty@[r]@) ==>
                    exists|q: int| 0 <= q < histories@.len() && #[trigger] histories@[q]@ == self.dirty@[r]@,
            decreases self.dirty@.len() - i,
        {
            let ghost before = histories@;
            if find_key(&self.loaded, &self.dirty[i]).is_some() {
                histories.push(self.dirty[i].clone());
                proof {
                    assert(histories@[histories@.len() - 1]@ == self.dirty@[i as int]@);
                    assert(self.is_dirty(self.dirty@[i as int]@)) by {
                        assert(self.dirty@[i as int]@ == self.dirty@[i as int]@);
                    }
                    assert forall|r: int| 0 <= r < i + 1 && #[trigger] self.histories().contains_key(self.dirty@[r]@) implies
                        exists|q: int| 0 <= q < histories@.len() && #[trigger] histories@[q]@ == self.dirty@[r]@ by {
                        if r < i {
                            let q = choose|q: int| 0 <= q < before.len() && #[trigger] before[q]@ == self.dirty@[r]@;
                            assert(histories@[q] == before[q]);
                        } else {
                            assert(histories@[histories@.len() - 1]@ == self.dirty@[r]@);
                        }
                    }
                }
            }
            i += 1;
        }
        proof {
            assert forall|x: Seq<char>| old(self).is_dirty(x) && old(self).histories().contains_key(x) implies
                exists|q: int| 0 <= q < histories@.len() && #[trigger] histories@[q]@ == x by {
                let r = choose|r: int| 0 <= r < self.dirty@.len() && #[trigger] self.dirty@[r]@ == x;
                assert(self.histories().contains_key(self.dirty@[r]@));
                let q = choose|q: int| 0 <= q < histories@.len() && #[trigger] histories@[q]@ == self.dirty@[r]@;
                assert(histories@[q]@ == x);
            }
        }
        let index = self.index_dirty;
        let mut removed: Vec<String> = Vec::new();
        std::mem::swap(&mut removed, &mut self.removed);
        self.dirty = Vec::new();
        self.index_dirty = false;
        let ghost hv = histories@;
        let plan = SavePlan { histories, index, removed };
        proof {
            assert(plan.histories@ == hv);
            assert forall|x: Seq<char>| old(self).is_dirty(x) && old(self).histories().contains_key(x) implies
                exists|q: int| 0 <= q < plan.histories@.len() && #[trigger] plan.histories@[q]@ == x by {
                let q = choose|q: int| 0 <= q < hv.len() && #[trigger] hv[q]@ == x;
                assert(plan.histories@[q]@ == x);
            }
        }
        plan
    }

} // impl UndoTree

/// Line of the Graphviz drawing for version `i`, with its parent edge.
pub open spec fn dot_lines(h: History, i: int) -> Seq<char> {
    let n = h.nodes@[i];
    let label = if n.preview@.len() <= 10 { n.preview@ } else { n.preview@.take(10) };
    let color = if h.current == Some(NodeIndex(i as usize)) {
        "color=red, style=filled, fillcolor=pink"@
    } else {
        ""@
    };
    let node = "  node"@ + crate::text::decimal(i as nat) + " [label=\""@ + crate::text::decimal(i as nat) + ": "@
        + label + "\" "@ + color + "];\n"@;
    match n.parent {
        Some(p) => node + "  node"@ + crate::text::decimal(p.0 as nat) + " -> node"@ + crate::text::decimal(i as nat) + ";\n"@,
        None => node,
    }
}

/// Lines of the drawing for versions `0..i`.
pub open spec fn dot_body(h: History, i: int) -> Seq<char>
    decreases i,
{
    if i <= 0 {
        Seq::empty()
    } else {
        dot_body(h, i - 1) + dot_lines(h, i - 1)
    }
}

/// The whole Graphviz drawing of a history.
pub open spec fn dot_spec(h: History) -> Seq<char> {
    "digraph History {\n"@ + dot_body(h, h.nodes@.len() as int) + "}\n"@
}

impl History {
    fn push_dot_lines(&self, dot: &mut String, i: usize)
        requires
            i < self.nodes@.len(),
        ensures
            final(dot)@ == old(dot)@ + dot_lines(*self, i as int),
    {
        let node = &self.nodes[i];
        let chars = crate::text::chars_of(node.preview.as_str());
        let take = if chars.len() <= 10 { chars.len() } else { 10 };
        let mut line = String::new();
        crate::text::push_str(&mut line, "  node");
        crate::text::push_decimal(&mut line, i as u64);
        crate::text::push_str(&mut line, " [label=\"");
        crate::text::push_decimal(&mut line, i as u64);
        crate::text::push_str(&mut line, ": ");
        crate::text::push_range(&mut line, &chars, 0, take);
        crate::text::push_str(&mut line, "\" ");
        if self.current == Some(NodeIndex(i)) {
            crate::text::push_str(&mut line, "color=red, style=filled, fillcolor=pink");
        } else {
            crate::text::push_str(&mut line, "");
        }
        crate::text::push_str(&mut line, "];\n");
        assert(chars@.subrange(0, take as int) =~= (if chars@.len() <= 10 { chars@ } else { chars@.take(10) }));
        if let Some(p) = node.parent {
            crate::text::push_str(&mut line, "  node");
            crate::text::push_decimal(&mut line, p.0 as u64);
            crate::text::push_str(&mut line, " -> node");
            crate::text::push_decimal(&mut line, i as u64);
            crate::text::push_str(&mut line, ";\n");
        }
        assert(line@ =~= dot_lines(*self, i as int));
        crate::text::push_str(dot, line.as_str());
    }

    /// A Graphviz DOT drawing of the history, the current version highlighted.
    pub fn to_dot(&self) -> (dot: String)
        ensures
            dot@ == dot_spec(*self),
    {
        let mut dot = String::new();
        crate::text::push_str(&mut dot, "digraph History {\n");
        let mut i: usize = 0;
        while i < self.nodes.len()
            invariant
                i <= self.nodes@.len(),
                dot@ == "digraph History {\n"@ + dot_body(*self, i as int),
            decreases self.nodes@.len() - i,
        {
            let ghost start = dot@;
            self.push_dot_lines(&mut dot, i);
            assert(dot_body(*self, i + 1) == dot_body(*self, i as int) + dot_lines(*self, i as int));
            assert(dot@ =~= "digraph History {\n"@ + dot_body(*self, i + 1));
            i += 1;
        }
        crate::text::push_str(&mut dot, "}\n");
        dot
    }
}

/// A version without its content, for drawing the history graph.
#[derive(Debug)]
pub struct NodeSummary {
    pub parent: Option<NodeIndex>,
    pub children: Vec<NodeIndex>,
    pub created_at: Option<i64>,
    /// A short excerpt, never the full version content.
    pub preview: String,
}

/// History shape without version contents.
#[derive(Debug)]
pub struct HistorySummary {
    pub nodes: Vec<NodeSummary>,
    pub current: Option<NodeIndex>,
}

impl HistorySummary {
    /// The shape of `history`: every version's parent, children, time and
    /// preview, and which one is current.
    pub fn of(history: &History) -> (s: HistorySummary)
        ensures
            s.current == history.current,
            s.nodes@.len() == history.nodes@.len(),
            forall|i: int| 0 <= i < s.nodes@.len() ==> {
                &&& (#[trigger] s.nodes@[i]).parent == history.nodes@[i].parent
                &&& s.nodes@[i].children@ == history.nodes@[i].children@
                &&& s.nodes@[i].created_at == history.nodes@[i].created_at
                &&& s.nodes@[i].preview@ == history.nodes@[i].preview@
            },
    {
        let mut nodes: Vec<NodeSummary> = Vec::new();
        let mut i: usize = 0;
        while i < history.nodes.len()
            invariant
                i <= history.nodes@.len(),
                nodes@.len() == i,
                forall|j: int| 0 <= j < i ==> {
                    &&& (#[trigger] nodes@[j]).parent == history.nodes@[j].parent
                    &&& nodes@[j].children@ == history.nodes@[j].children@
                    &&& nodes@[j].created_at == history.nodes@[j].created_at
                    &&& nodes@[j].preview@ == history.nodes@[j].preview@
                },
            decreases history.nodes@.len() - i,
        {
            let n = &history.nodes[i];
            let mut children: Vec<NodeIndex> = Vec::new();
            let mut k: usize = 0;
            while k < n.children.len()
                invariant
                    k <= n.children@.len(),
                    children@ == n.children@.take(k as int),
                decreases n.children@.len() - k,
            {
                children.push(n.children[k]);
                assert(n.children@.take(k + 1) =~= n.children@.take(k as int).push(n.children@[k as int]));
                k += 1;
            }
            assert(n.children@.take(n.children@.len() as int) =~= n.children@);
            nodes.push(NodeSummary { parent: n.parent, children, created_at: n.created_at, preview: n.preview.clone() });
            i += 1;
        }
        HistorySummary { nodes, current: history.current }
    }
}

impl UndoTree {
    /// A Graphviz DOT drawing of `file_name`'s history; empty when it has none.
    pub fn to_dot(&mut self, file_name: &str) -> (dot: String)
        requires
            old(self).wf(),
        ensures
            final(self).wf(),
            final(self).names() == old(self).names(),
            final(self).history_of(file_name@) matches Some(h) ==> dot@ == dot_spec(h),
            !old(self).names().contains_key(file_name@) ==> dot@.len() == 0,
    {
        match self.get_history(file_name) {
            Some(h) => h.to_dot(),
            None => String::new(),
        }
    }
}

/// Undoing a version and then redoing returns to the version undone, with
/// the redo list as it was before the undo.
pub proof fn law_undo_then_redo(h0: History, h1: History, h2: History)
    requires
        h0.wf(),
        h0.current is Some,
        h0.nodes@[h0.current.unwrap().0 as int].parent is Some,
        h0.undone(h1),
        h1.redone(h2),
    ensures
        h2.current == h0.current,
        h2.redo_stack@ == h0.redo_stack@,
        h2.nodes == h0.nodes,
{
    assert(h1.redo_stack@.last() == h0.current.unwrap());
    assert(h1.redo_stack@.drop_last() =~= h0.redo_stack@);
}

/// A change whose inserted text is at least as long as the whole new text:
/// storing it saves nothing over a full copy.
pub open spec fn saves_nothing(d: NodeData, content: Seq<char>) -> bool {
    match d {
        NodeData::Delta { insert, .. } => bytes_of(insert@).len() >= bytes_of(content).len(),
        NodeData::Full(_) => true,
    }
}

/// Two changes that keep and insert the same text.
pub open spec fn same_change(d1: NodeData, d2: NodeData) -> bool {
    match (d1, d2) {
        (NodeData::Delta { keep_start: s1, keep_end: e1, insert: i1 }, NodeData::Delta { keep_start: s2, keep_end: e2, insert: i2 }) =>
            s1 == s2 && e1 == e2 && i1@ == i2@,
        _ => false,
    }
}

/// The delta between two texts is unique.
pub proof fn lemma_delta_unique(old: Seq<char>, new: Seq<char>, d1: NodeData, d2: NodeData)
    requires
        is_delta(old, new, d1),
        is_delta(old, new, d2),
    ensures
        same_change(d1, d2),
{
    match (d1, d2) {
        (NodeData::Delta { keep_start: s1, keep_end: e1, insert: i1 }, NodeData::Delta { keep_start: s2, keep_end: e2, insert: i2 }) => {
            let a = bytes_of(old);
            let b = bytes_of(new);
            if s1 < s2 {
                assert(a.subrange(0, s2 as int) == b.subrange(0, s2 as int));
            } else if s2 < s1 {
                assert(a.subrange(0, s1 as int) == b.subrange(0, s1 as int));
            }
            assert(s1 == s2);
            if e1 < e2 {
                assert(a.subrange(a.len() - e2, a.len() as int) == b.subrange(b.len() - e2, b.len() as int));
            } else if e2 < e1 {
                assert(a.subrange(a.len() - e1, a.len() as int) == b.subrange(b.len() - e1, b.len() as int));
            }
            assert(e1 == e2);
            crate::utf8_facts::lemma_bytes_injective(i1@, i2@);
        },
        _ => {},
    }
}

/// The text of version `i` of `nodes`.
pub open spec fn text_in(nodes: Seq<Node>, i: int) -> Seq<char>
    decreases i,
{
    if 0 <= i < nodes.len() {
        match nodes[i].parent {
            Some(p) if p.0 < i => apply_spec(text_in(nodes, p.0 as int), nodes[i].data),
            _ => apply_spec(Seq::empty(), nodes[i].data),
        }
    } else {
        Seq::empty()
    }
}

/// Versions of `nodes` since the last full copy on the way up from `i`, counting `i`.
pub open spec fn deltas_in(nodes: Seq<Node>, i: int) -> nat
    decreases i,
{
    if 0 <= i < nodes.len() {
        match nodes[i].data {
            NodeData::Full(_) => 0,
            NodeData::Delta { .. } => match nodes[i].parent {
                Some(p) if p.0 < i => 1 + deltas_in(nodes, p.0 as int),
                _ => 1,
            },
        }
    } else {
        0
    }
}

/// Version `i` of `nodes` is well placed.
pub open spec fn node_ok_in(nodes: Seq<Node>, i: int) -> bool {
    let n = nodes[i];
    &&& match n.parent {
        Some(p) => p.0 < i && applies_to(text_in(nodes, p.0 as int), n.data),
        None => n.data is Full,
    }
    &&& forall|k: int| 0 <= k < n.children@.len() ==> #[trigger] n.children@[k].0 < nodes.len()
}

/// Every version of `nodes` is well placed.
pub open spec fn nodes_ok(nodes: Seq<Node>) -> bool {
    forall|i: int| 0 <= i < nodes.len() ==> #[trigger] node_ok_in(nodes, i)
}

/// A value found at two places of a sequence is counted at least twice.
proof fn lemma_twice_counts(s: Seq<NodeIndex>, a: int, b: int)
    requires
        0 <= a < b < s.len(),
        s[a] == s[b],
    ensures
        s.to_multiset().count(s[a]) >= 2,
    decreases s.len(),
{
    broadcast use vstd::seq_lib::group_to_multiset_ensures;

    let x = s[a];
    if b == s.len() - 1 {
        assert(s.drop_last().contains(x)) by {
            assert(s.drop_last()[a] == x);
        }
        assert(s =~= s.drop_last().push(x));
        assert(s.drop_last().to_multiset().count(x) >= 1);
    } else {
        assert(s.drop_last()[a] == x && s.drop_last()[b] == x);
        lemma_twice_counts(s.drop_last(), a, b);
        assert(s =~= s.drop_last().push(s.last()));
    }
}

/// Whether `s` lists indices from the largest down.
pub open spec fn sorted_desc(s: Seq<NodeIndex>) -> bool {
    forall|i: int, j: int| 0 <= i < j < s.len() ==> s[i].0 >= s[j].0
}

/// Texts depend only on the versions at or before them.
pub proof fn lemma_text_prefix(h1: History, h2: History, i: int)
    requires
        0 <= i < h1.nodes@.len(),
        i < h2.nodes@.len(),
        forall|j: int|
            0 <= j <= i ==> #[trigger] h1.nodes@[j].data == h2.nodes@[j].data && h1.nodes@[j].parent
                == h2.nodes@[j].parent,
    ensures
        h1.text_at(i) == h2.text_at(i),
        h1.deltas_above_spec(i) == h2.deltas_above_spec(i),
    decreases i,
{
    lemma_text_prefix_in(h1.nodes@, h2.nodes@, i);
}

pub proof fn lemma_text_prefix_in(n1: Seq<Node>, n2: Seq<Node>, i: int)
    requires
        0 <= i < n1.len(),
        i < n2.len(),
        forall|j: int|
            0 <= j <= i ==> #[trigger] n1[j].data == n2[j].data && n1[j].parent == n2[j].parent,
    ensures
        text_in(n1, i) == text_in(n2, i),
        deltas_in(n1, i) == deltas_in(n2, i),
    decreases i,
{
    match n1[i].parent {
        Some(p) => {
            if p.0 < i {
                lemma_text_prefix_in(n1, n2, p.0 as int);
            }
        },
        None => {},
    }
}

/// Saving a change and then undoing it returns to the version the change
/// was made on, with its text, and puts the change on the redo list.
pub proof fn law_change_then_undo(h0: History, h1: History, h2: History, content: Seq<char>, created_at: Option<i64>)
    requires
        h0.wf(),
        h0.current is Some,
        h0.appended(h1, content, created_at),
        h1.undone(h2),
    ensures
        h2.current == h0.current,
        h2.text_at(h2.current.unwrap().0 as int) == h0.text_at(h0.current.unwrap().0 as int),
        h2.redo_stack@ == h1.redo_stack@.push(h1.current.unwrap()),
{
    let n = h0.nodes@.len() as int;
    let c = h0.current.unwrap().0 as int;
    assert(h1.nodes@[n].parent == h0.current);
    assert(c < n);
    assert(h1.nodes@[c] == h1.nodes@[c]);
    assert(h1.text_at(c) == h0.text_at(c));
}

/// Every version of `h0` is still in `h1`, with the same text.
pub open spec fn keeps_texts(h0: History, h1: History) -> bool {
    &&& h0.nodes@.len() <= h1.nodes@.len()
    &&& forall|i: int| 0 <= i < h0.nodes@.len() ==> #[trigger] h1.text_at(i) == h0.text_at(i)
}

/// Saving a change, undoing, redoing and going to a version all leave every
/// version's text as it was: what `content_of` gives for a version is the text
/// its change saved.
pub proof fn law_steps_keep_texts(h0: History, h1: History, content: Seq<char>, created_at: Option<i64>, target: usize)
    requires
        h0.wf(),
        h0.appended(h1, content, created_at) || h0.undone(h1) || h0.redone(h1) || (target
            < h0.nodes@.len() && h1.nodes == h0.nodes && h1.current == Some(NodeIndex(target))),
    ensures
        keeps_texts(h0, h1),
{
    if h0.appended(h1, content, created_at) {
        assert forall|i: int| 0 <= i < h0.nodes@.len() implies #[trigger] h1.text_at(i) == h0.text_at(i) by {
            assert(h1.nodes@[i] == h1.nodes@[i]);
        }
    }
}

/// Any run of such steps keeps every version's text: keeping texts chains.
pub proof fn law_kept_texts_chain(h0: History, h1: History, h2: History)
    requires
        keeps_texts(h0, h1),
        keeps_texts(h1, h2),
    ensures
        keeps_texts(h0, h2),
{
    assert forall|i: int| 0 <= i < h0.nodes@.len() implies #[trigger] h2.text_at(i) == h0.text_at(i) by {
        assert(h2.text_at(i) == h1.text_at(i));
    }
}

/// Every version of `h` is within `KEYFRAME_INTERVAL - 1` deltas of a full copy.
pub open spec fn keyframes_bounded(h: History) -> bool {
    forall|i: int| 0 <= i < h.nodes@.len() ==> #[trigger] h.deltas_above_spec(i) < KEYFRAME_INTERVAL
}

/// Saving a change by the storage rule keeps every version within
/// `KEYFRAME_INTERVAL - 1` deltas of a full copy, so rebuilding any version
/// replays a bounded run of changes.
pub proof fn law_append_keeps_keyframes_bounded(h0: History, h1: History, content: Seq<char>, created_at: Option<i64>)
    requires
        h0.wf(),
        keyframes_bounded(h0),
        h0.appended(h1, content, created_at),
        stored_by_rule(h0, h1, content),
    ensures
        keyframes_bounded(h1),
{
    let n = h0.nodes@.len() as int;
    assert forall|i: int| 0 <= i < h1.nodes@.len() implies #[trigger] h1.deltas_above_spec(i) < KEYFRAME_INTERVAL by {
        if i < n {
            assert forall|j: int| 0 <= j <= i implies #[trigger] h0.nodes@[j].data == h1.nodes@[j].data
                && h0.nodes@[j].parent == h1.nodes@[j].parent by {
                assert(h1.nodes@[j] == h1.nodes@[j]);
            }
            lemma_text_prefix(h0, h1, i);
        }
    }
}

/// Each version's parent lists it among its children, once, and each listed
/// child names that version as its parent.
pub open spec fn linked(h: History) -> bool {
    &&& forall|i: int|
        #![trigger h.nodes@[i]]
        0 <= i < h.nodes@.len() ==> h.children_of(i).no_duplicates()
    &&& forall|i: int|
        #![trigger h.nodes@[i]]
        0 <= i < h.nodes@.len() && h.nodes@[i].parent is Some ==> h.children_of(
            h.nodes@[i].parent.unwrap().0 as int,
        ).contains(NodeIndex(i as usize))
    &&& forall|i: int, k: int|
        #![trigger h.children_of(i)[k]]
        0 <= i < h.nodes@.len() && 0 <= k < h.children_of(i).len() ==> h.nodes@[h.children_of(i)[k].0 as int].parent
            == Some(NodeIndex(i as usize))
}

/// What every history the app builds satisfies: it is well formed, parents
/// and children agree, and every version is within `KEYFRAME_INTERVAL - 1`
/// deltas of a full copy.
pub open spec fn history_inv(h: History) -> bool {
    h.wf() && linked(h) && keyframes_bounded(h)
}

/// `h1` is `h0` moved to one of its versions, with nothing left to redo.
pub open spec fn went_to(h0: History, h1: History) -> bool {
    exists|t: usize|
        t < h0.nodes@.len() && h1.nodes == h0.nodes && #[trigger] h1.current == Some(NodeIndex(t))
            && h1.redo_stack@.len() == 0
}

/// One step of a history: a change saved by the storage rule, an undo, a
/// redo, a move to a version, or nothing.
pub open spec fn one_step(h0: History, h1: History) -> bool {
    ||| exists|c: Seq<char>, t: Option<i64>| #[trigger] h0.appended(h1, c, t) && stored_by_rule(h0, h1, c)
    ||| h0.undone(h1)
    ||| h0.redone(h1)
    ||| went_to(h0, h1)
    ||| h1 == h0
}

proof fn lemma_append_keeps_links(h0: History, h1: History, c: Seq<char>, t: Option<i64>)
    requires
        h0.wf(),
        linked(h0),
        h0.appended(h1, c, t),
    ensures
        linked(h1),
{
    lemma_append_keeps_distinct(h0, h1, c, t);
    let n = h0.nodes@.len() as int;
    assert forall|i: int|
        #![trigger h1.nodes@[i]]
        0 <= i < h1.nodes@.len() && h1.nodes@[i].parent is Some implies h1.children_of(
            h1.nodes@[i].parent.unwrap().0 as int,
        ).contains(NodeIndex(i as usize)) by {
        if i < n {
            let p = h0.nodes@[i].parent.unwrap().0 as int;
            assert(h0.nodes@[i] == h0.nodes@[i]);
            assert(node_ok_in(h0.nodes@, i));
            assert(h0.children_of(p).contains(NodeIndex(i as usize)));
            let k = choose|k: int| 0 <= k < h0.children_of(p).len() && h0.children_of(p)[k] == NodeIndex(i as usize);
            assert(h1.nodes@[p] == h1.nodes@[p]);
            assert(h1.children_of(p)[k] == NodeIndex(i as usize));
        } else {
            let p = h0.current.unwrap().0 as int;
            assert(h1.nodes@[p] == h1.nodes@[p]);
            assert(h1.children_of(p).last() == NodeIndex(n as usize));
        }
    }
    assert forall|i: int, k: int|
        #![trigger h1.children_of(i)[k]]
        0 <= i < h1.nodes@.len() && 0 <= k < h1.children_of(i).len() implies h1.nodes@[h1.children_of(i)[k].0 as int].parent
            == Some(NodeIndex(i as usize)) by {
        if i < n {
            assert(h1.nodes@[i] == h1.nodes@[i]);
            if k < h0.children_of(i).len() {
                assert(h1.children_of(i)[k] == h0.children_of(i)[k]);
                assert(node_ok_in(h0.nodes@, i));
                let ch = h0.children_of(i)[k].0 as int;
                assert(ch < n);
                assert(h1.nodes@[ch] == h1.nodes@[ch]);
            } else {
                assert(h1.children_of(i)[k] == NodeIndex(n as usize));
            }
        }
    }
}

proof fn lemma_append_keeps_distinct(h0: History, h1: History, c: Seq<char>, t: Option<i64>)
    requires
        h0.wf(),
        linked(h0),
        h0.appended(h1, c, t),
    ensures
        forall|i: int| #![trigger h1.nodes@[i]] 0 <= i < h1.nodes@.len() ==> h1.children_of(i).no_duplicates(),
{
    let n = h0.nodes@.len() as int;
    assert forall|i: int| #![trigger h1.nodes@[i]] 0 <= i < h1.nodes@.len() implies h1.children_of(i).no_duplicates() by {
        if i < n {
            assert(h0.nodes@[i] == h0.nodes@[i]);
            assert(node_ok_in(h0.nodes@, i));
            let cs = h0.children_of(i);
            if h0.current == Some(NodeIndex(i as usize)) {
                let ds = cs.push(NodeIndex(n as usize));
                assert(h1.children_of(i) == ds);
                assert forall|a: int, b: int| 0 <= a < ds.len() && 0 <= b < ds.len() && a != b implies ds[a]
                    != ds[b] by {
                    if a < cs.len() && b < cs.len() {
                        assert(ds[a] == cs[a] && ds[b] == cs[b]);
                    } else if a < cs.len() {
                        assert(ds[a] == cs[a] && cs[a].0 < n);
                    } else {
                        assert(ds[b] == cs[b] && cs[b].0 < n);
                    }
                }
            }
        }
    }
}

/// Each step keeps what every history the app builds satisfies, and keeps
/// every version's text.
pub proof fn law_step_keeps_history(h0: History, h1: History)
    requires
        history_inv(h0),
        one_step(h0, h1),
    ensures
        history_inv(h1),
        keeps_texts(h0, h1),
{
    if exists|c: Seq<char>, t: Option<i64>| #[trigger] h0.appended(h1, c, t) && stored_by_rule(h0, h1, c) {
        let (c, t) = choose|c: Seq<char>, t: Option<i64>| #[trigger] h0.appended(h1, c, t) && stored_by_rule(h0, h1, c);
        lemma_append_keeps_links(h0, h1, c, t);
        law_append_keeps_keyframes_bounded(h0, h1, c, t);
        law_steps_keep_texts(h0, h1, c, t, 0);
    } else if h1 == h0 {
    } else {
        assert(h1.nodes == h0.nodes);
        assert(h1.nodes@ == h0.nodes@);
        assert forall|i: int| 0 <= i < h1.nodes@.len() implies #[trigger] h1.deltas_above_spec(i) < KEYFRAME_INTERVAL by {
            assert(h0.deltas_above_spec(i) < KEYFRAME_INTERVAL);
        }
        if h0.undone(h1) {
            match h0.current {
                Some(c) => {
                    assert(node_ok_in(h0.nodes@, c.0 as int));
                },
                None => {},
            }
            assert forall|k: int| 0 <= k < h1.redo_stack@.len() implies #[trigger] h1.redo_stack@[k].0 < h1.nodes@.len() by {
                if k < h0.redo_stack@.len() {
                    assert(h1.redo_stack@[k] == h0.redo_stack@[k]);
                }
            }
        } else if h0.redone(h1) {
            if h0.redo_stack@.len() == 0 {
                match h0.current {
                    Some(c) => {
                        if h0.children_of(c.0 as int).len() > 0 {
                            assert(node_ok_in(h0.nodes@, c.0 as int));
                            lemma_max_index_in(h0.children_of(c.0 as int));
                        }
                    },
                    None => {},
                }
            } else {
                assert(h0.redo_stack@.last() == h0.redo_stack@[h0.redo_stack@.len() - 1]);
            }
            assert forall|k: int| 0 <= k < h1.redo_stack@.len() implies #[trigger] h1.redo_stack@[k].0 < h1.nodes@.len() by {
                assert(h1.redo_stack@[k] == h0.redo_stack@[k]);
            }
        } else {
            assert(went_to(h0, h1));
        }
        assert(nodes_ok(h1.nodes@));
        assert(h1.wf());
        assert(linked(h1)) by {
            assert forall|i: int| #![trigger h1.nodes@[i]] 0 <= i < h1.nodes@.len() implies h1.children_of(
                i,
            ).no_duplicates() by {
                assert(h0.nodes@[i] == h1.nodes@[i]);
            }
            assert forall|i: int|
                #![trigger h1.nodes@[i]]
                0 <= i < h1.nodes@.len() && h1.nodes@[i].parent is Some implies h1.children_of(
                    h1.nodes@[i].parent.unwrap().0 as int,
                ).contains(NodeIndex(i as usize)) by {
                assert(h0.nodes@[i] == h1.nodes@[i]);
            }
            assert forall|i: int, k: int|
                #![trigger h1.children_of(i)[k]]
                0 <= i < h1.nodes@.len() && 0 <= k < h1.children_of(i).len() implies h1.nodes@[h1.children_of(i)[k].0 as int].parent
                    == Some(NodeIndex(i as usize)) by {
                assert(h0.children_of(i)[k] == h1.children_of(i)[k]);
            }
        }
        assert(keyframes_bounded(h1));
    }
}

/// Over any run of steps from a history the app built, every history met
/// satisfies the same and keeps every earlier version's text: what
/// `content_of` gives for version `k` stays the text its change saved.
pub proof fn law_steps_keep_history(hs: Seq<History>)
    requires
        hs.len() >= 1,
        history_inv(hs[0]),
        forall|k: int| 0 <= k < hs.len() - 1 ==> one_step(#[trigger] hs[k], hs[k + 1]),
    ensures
        forall|k: int| 0 <= k < hs.len() ==> history_inv(#[trigger] hs[k]) && keeps_texts(hs[0], hs[k]),
    decreases hs.len(),
{
    if hs.len() > 1 {
        let front = hs.drop_last();
        assert forall|k: int| 0 <= k < front.len() - 1 implies one_step(#[trigger] front[k], front[k + 1]) by {
            assert(front[k] == hs[k] && front[k + 1] == hs[k + 1]);
            assert(one_step(hs[k], hs[k + 1]));
        }
        law_steps_keep_history(front);
        let m = hs.len() - 2;
        assert(front[m] == hs[m]);
        assert(history_inv(hs[m]) && keeps_texts(hs[0], hs[m]));
        assert(one_step(hs[m], hs[m + 1]));
        law_step_keeps_history(hs[m], hs[m + 1]);
        law_kept_texts_chain(hs[0], hs[m], hs[m + 1]);
        assert forall|k: int| 0 <= k < hs.len() implies history_inv(#[trigger] hs[k]) && keeps_texts(hs[0], hs[k]) by {
            if k < hs.len() - 1 {
                assert(front[k] == hs[k]);
            }
        }
    } else {
        assert forall|i: int| 0 <= i < hs[0].nodes@.len() implies #[trigger] hs[0].text_at(i) == hs[0].text_at(i) by {}
    }
}

/// Every history held in `t` satisfies what the app's histories satisfy.
pub open spec fn tree_inv(t: UndoTree) -> bool {
    forall|id: Seq<char>| #[trigger] t.histories().contains_key(id) ==> history_inv(t.histories()[id])
}

proof fn lemma_blank_inv(h: History)
    requires
        h.nodes@.len() == 0,
        h.current is None,
        h.redo_stack@.len() == 0,
    ensures
        history_inv(h),
{
}

/// The history `undid` or `redid` started from: the one held, or a blank one.
proof fn lemma_based_on_inv(t0: UndoTree, id: Seq<char>, h0: History)
    requires
        t0.wf(),
        tree_inv(t0),
        UndoTree::based_on(t0.histories(), t0.histories().insert(id, h0), id),
    ensures
        history_inv(h0),
        t0.histories().contains_key(id) ==> h0 == t0.histories()[id],
{
    assert(t0.histories().insert(id, h0)[id] == h0);
    if !t0.histories().contains_key(id) {
        lemma_blank_inv(h0);
    }
}

/// Saving a change keeps every history of the tree as the app builds them:
/// well formed, parents and children in agreement, every version within
/// `KEYFRAME_INTERVAL - 1` deltas of a full copy.
pub proof fn law_tree_change_keeps_inv(t0: UndoTree, t1: UndoTree, name: Seq<char>, content: Seq<char>)
    requires
        t0.wf(),
        t1.wf(),
        tree_inv(t0),
        UndoTree::changed(t0, t1, name, content),
    ensures
        tree_inv(t1),
{
    t1.lemma_histories_wf();
    let id = t1.names()[name]@;
    let h = t1.histories()[id];
    assert forall|x: Seq<char>| #[trigger] t1.histories().contains_key(x) implies history_inv(t1.histories()[x]) by {
        if x != id {
            assert(t0.histories().contains_key(x));
        } else {
            match t0.histories().get(id) {
                Some(h0) => {
                    assert(t0.histories().contains_key(id));
                    if !(h0.current matches Some(c) && h0.text_at(c.0 as int) == content) {
                        let t = choose|t: Option<i64>| h0.appended(h, content, t);
                        assert(h.nodes@.len() != h0.nodes@.len());
                        assert(h0.appended(h, content, t) && stored_by_rule(h0, h, content));
                        assert(one_step(h0, h));
                        law_step_keeps_history(h0, h);
                    }
                },
                None => {
                    assert(h.wf());
                    assert(keyframes_bounded(h));
                },
            }
        }
    }
}

/// Undo keeps every history of the tree as the app builds them.
pub proof fn law_tree_undo_keeps_inv(t0: UndoTree, t1: UndoTree, name: Seq<char>, r: Option<String>)
    requires
        t0.wf(),
        tree_inv(t0),
        UndoTree::undid(t0, t1, name, r),
    ensures
        tree_inv(t1),
{
    if t0.names().contains_key(name) {
        let id = t0.names()[name]@;
        let h0 = choose|h0: History| {
            &&& UndoTree::based_on(t0.histories(), t0.histories().insert(id, h0), id)
            &&& h0.undone(t1.histories()[id])
            &&& (r is Some <==> (h0.current is Some && h0.nodes@[h0.current.unwrap().0 as int].parent is Some))
            &&& (r matches Some(t) ==> t@ == h0.text_at(t1.histories()[id].current.unwrap().0 as int) && t1.is_dirty(id))
        };
        lemma_based_on_inv(t0, id, h0);
        law_step_keeps_history(h0, t1.histories()[id]);
        assert forall|x: Seq<char>| #[trigger] t1.histories().contains_key(x) implies history_inv(t1.histories()[x]) by {
            if x != id {
                assert(t1.histories().get(x) == t0.histories().get(x));
            }
        }
    }
}

/// Redo keeps every history of the tree as the app builds them.
pub proof fn law_tree_redo_keeps_inv(t0: UndoTree, t1: UndoTree, name: Seq<char>, r: Option<String>)
    requires
        t0.wf(),
        tree_inv(t0),
        UndoTree::redid(t0, t1, name, r),
    ensures
        tree_inv(t1),
{
    if t0.names().contains_key(name) {
        let id = t0.names()[name]@;
        let h0 = choose|h0: History| {
            &&& UndoTree::based_on(t0.histories(), t0.histories().insert(id, h0), id)
            &&& h0.redone(t1.histories()[id])
            &&& (r is Some <==> h0.redo_target() is Some)
            &&& (r matches Some(t) ==> t@ == h0.text_at(h0.redo_target().unwrap().0 as int) && t1.is_dirty(id))
        };
        lemma_based_on_inv(t0, id, h0);
        law_step_keeps_history(h0, t1.histories()[id]);
        assert forall|x: Seq<char>| #[trigger] t1.histories().contains_key(x) implies history_inv(t1.histories()[x]) by {
            if x != id {
                assert(t1.histories().get(x) == t0.histories().get(x));
            }
        }
    }
}

/// On the tree, an undo that moved back is taken back by the redo after it:
/// the writing returns to the version it was at, and the redo gives that
/// version's text.
pub proof fn law_tree_undo_then_redo(
    t0: UndoTree,
    t1: UndoTree,
    t2: UndoTree,
    name: Seq<char>,
    r1: Option<String>,
    r2: Option<String>,
)
    requires
        t0.wf(),
        UndoTree::undid(t0, t1, name, r1),
        r1 is Some,
        UndoTree::redid(t1, t2, name, r2),
    ensures
        t0.history_of(name) is Some,
        t2.history_of(name) is Some,
        t2.history_of(name).unwrap().current == t0.history_of(name).unwrap().current,
        r2 is Some,
        r2.unwrap()@ == t0.history_of(name).unwrap().text_at(t0.history_of(name).unwrap().current.unwrap().0 as int),
{
    t0.lemma_histories_wf();
    let id = t0.names()[name]@;
    let h1 = t1.histories()[id];
    let h0 = choose|h0: History| {
        &&& UndoTree::based_on(t0.histories(), t0.histories().insert(id, h0), id)
        &&& h0.undone(h1)
        &&& (r1 is Some <==> (h0.current is Some && h0.nodes@[h0.current.unwrap().0 as int].parent is Some))
        &&& (r1 matches Some(t) ==> t@ == h0.text_at(h1.current.unwrap().0 as int) && t1.is_dirty(id))
    };
    assert(t0.histories().insert(id, h0)[id] == h0);
    assert(t0.histories().contains_key(id));
    assert(h0 == t0.histories()[id]);
    let h2 = t2.histories()[id];
    let g = choose|g: History| {
        &&& UndoTree::based_on(t1.histories(), t1.histories().insert(id, g), id)
        &&& g.redone(h2)
        &&& (r2 is Some <==> g.redo_target() is Some)
        &&& (r2 matches Some(t) ==> t@ == g.text_at(g.redo_target().unwrap().0 as int) && t2.is_dirty(id))
    };
    assert(t1.histories().insert(id, g)[id] == g);
    assert(g == h1);
    law_undo_then_redo(h0, h1, h2);
    assert(h1.redo_stack@.last() == h0.current.unwrap());
}

/// Going to a version keeps every history of the tree as the app builds them.
pub proof fn law_tree_goto_keeps_inv(t0: UndoTree, t1: UndoTree, name: Seq<char>, target: usize, r: Option<String>)
    requires
        t0.wf(),
        tree_inv(t0),
        UndoTree::went(t0, t1, name, target, r),
    ensures
        tree_inv(t1),
{
    if t0.names().contains_key(name) {
        let id = t0.names()[name]@;
        let h1 = t1.histories()[id];
        let h0 = choose|h0: History| {
            &&& UndoTree::based_on(t0.histories(), t0.histories().insert(id, h0), id)
            &&& (target >= h0.nodes@.len() ==> r is None && h1 == h0)
            &&& (target < h0.nodes@.len() ==> {
                &&& h1.nodes == h0.nodes
                &&& h1.current == Some(NodeIndex(target))
                &&& h1.redo_stack@.len() == 0
                &&& r matches Some(t) && t@ == h0.text_at(target as int)
                &&& t1.is_dirty(id)
            })
        };
        lemma_based_on_inv(t0, id, h0);
        if target < h0.nodes@.len() {
            assert(went_to(h0, h1));
        }
        assert(one_step(h0, h1));
        law_step_keeps_history(h0, h1);
        assert forall|x: Seq<char>| #[trigger] t1.histories().contains_key(x) implies history_inv(t1.histories()[x]) by {
            if x != id {
                assert(t1.histories().get(x) == t0.histories().get(x));
            }
        }
    }
}

} // verus!
