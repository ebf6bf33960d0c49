//! Scrivener projects: the binder of a `.scrivx` file, read into a tree.

use vstd::prelude::*;
use crate::docx::{attr_of, attr_value, lemma_attr_of_views};
use crate::import::{front_matter_text, with_front_matter, Meta};
use crate::text::{chars_of, decimal, ends_with, push_decimal, push_str, same_text, trim, trimmed};
use crate::xml::{attr_views, entity_text, entity_value, piece_view, piece_views, read_pieces, read_shape, xml_pieces, XmlPiece};

verus! {

/// An item of a Scrivener binder: a folder, a text, or something else
/// (images, PDFs, web pages), with its children.
#[derive(Debug)]
pub struct BinderItem {
    pub id: String,
    pub kind: String,
    pub title: String,
    pub status_id: Option<String>,
    pub label_id: Option<String>,
    pub include_in_compile: bool,
    pub children: Vec<BinderItem>,
}

/// A binder item as plain values.
pub struct BinderView {
    pub id: Seq<char>,
    pub kind: Seq<char>,
    pub title: Seq<char>,
    pub status_id: Option<Seq<char>>,
    pub label_id: Option<Seq<char>>,
    pub include_in_compile: bool,
    pub children: Seq<BinderView>,
}

pub open spec fn opt_chars(o: Option<String>) -> Option<Seq<char>> {
    match o {
        Some(s) => Some(s@),
        None => None,
    }
}

pub open spec fn binder_view(b: BinderItem) -> BinderView
    decreases b, 1int,
{
    BinderView {
        id: b.id@,
        kind: b.kind@,
        title: b.title@,
        status_id: opt_chars(b.status_id),
        label_id: opt_chars(b.label_id),
        include_in_compile: b.include_in_compile,
        children: binder_views(b.children@),
    }
}

pub open spec fn binder_views(cs: Seq<BinderItem>) -> Seq<BinderView>
    decreases cs, 0int,
{
    if cs.len() == 0 {
        Seq::empty()
    } else {
        binder_views(cs.drop_last()).push(binder_view(cs.last()))
    }
}

proof fn lemma_binder_views(cs: Seq<BinderItem>)
    ensures
        binder_views(cs).len() == cs.len(),
        forall|i: int| 0 <= i < cs.len() ==> #[trigger] binder_views(cs)[i] == binder_view(cs[i]),
    decreases cs.len(),
{
    if cs.len() > 0 {
        lemma_binder_views(cs.drop_last());
        assert forall|i: int| 0 <= i < cs.len() implies #[trigger] binder_views(cs)[i] == binder_view(cs[i]) by {
            if i < cs.len() - 1 {
                assert(cs.drop_last()[i] == cs[i]);
            }
        }
    }
}

proof fn lemma_binder_views_push(cs: Seq<BinderItem>, x: BinderItem)
    ensures
        binder_views(cs.push(x)) == binder_views(cs).push(binder_view(x)),
{
    assert(cs.push(x).drop_last() =~= cs);
}

/// A Scrivener project: its binder, and the names of its statuses and labels
/// by id (a later entry for an id replaces an earlier one).
#[derive(Debug)]
pub struct ScrivenerProject {
    pub items: Vec<BinderItem>,
    pub statuses: Vec<(String, String)>,
    pub labels: Vec<(String, String)>,
}

pub open spec fn pair_views(v: Seq<(String, String)>) -> Seq<(Seq<char>, Seq<char>)> {
    v.map_values(|p: (String, String)| (p.0@, p.1@))
}

/// Where reading a project file has got to: the finished top-level items, the
/// items still open (innermost last), the status and label names, and the
/// element whose text is being collected with that text.
pub struct ScrivScan {
    pub items: Seq<BinderView>,
    pub stack: Seq<BinderView>,
    pub statuses: Seq<(Seq<char>, Seq<char>)>,
    pub labels: Seq<(Seq<char>, Seq<char>)>,
    pub capture: Option<(Seq<char>, Option<Seq<char>>)>,
    pub text: Seq<char>,
}

pub open spec fn scriv_initial() -> ScrivScan {
    ScrivScan {
        items: Seq::empty(),
        stack: Seq::empty(),
        statuses: Seq::empty(),
        labels: Seq::empty(),
        capture: None,
        text: Seq::empty(),
    }
}

/// A new binder item from its element's attributes.
pub open spec fn new_item(attrs: Seq<(String, Option<String>)>) -> BinderView {
    BinderView {
        id: match attr_of(attrs, "UUID"@) {
            Some(v) => v,
            None => match attr_of(attrs, "ID"@) {
                Some(v) => v,
                None => Seq::empty(),
            },
        },
        kind: match attr_of(attrs, "Type"@) {
            Some(v) => v,
            None => Seq::empty(),
        },
        title: Seq::empty(),
        status_id: None,
        label_id: None,
        include_in_compile: true,
        children: Seq::empty(),
    }
}

/// `v` is "yes", ignoring ASCII case.
pub open spec fn is_yes(v: Seq<char>) -> bool {
    v.len() == 3 && (v[0] == 'y' || v[0] == 'Y') && (v[1] == 'e' || v[1] == 'E') && (v[2] == 's' || v[2] == 'S')
}

/// The state after an element opens.
pub open spec fn scriv_open(st: ScrivScan, name: Seq<char>, attrs: Seq<(String, Option<String>)>) -> ScrivScan {
    if name == "BinderItem"@ {
        ScrivScan { stack: st.stack.push(new_item(attrs)), ..st }
    } else if name == "Title"@ || name == "StatusID"@ || name == "LabelID"@ || name == "IncludeInCompile"@ {
        ScrivScan { capture: Some((name, None)), text: Seq::empty(), ..st }
    } else if name == "Status"@ || name == "Label"@ {
        ScrivScan { capture: Some((name, attr_of(attrs, "ID"@))), text: Seq::empty(), ..st }
    } else {
        st
    }
}

/// The collected text stored where its element says.
pub open spec fn scriv_store(st: ScrivScan, captured: Seq<char>, id: Option<Seq<char>>, value: Seq<char>) -> ScrivScan {
    let n = st.stack.len();
    if captured == "Title"@ && n > 0 {
        ScrivScan { stack: st.stack.update(n - 1, BinderView { title: value, ..st.stack.last() }), ..st }
    } else if captured == "StatusID"@ && n > 0 {
        ScrivScan { stack: st.stack.update(n - 1, BinderView { status_id: Some(value), ..st.stack.last() }), ..st }
    } else if captured == "LabelID"@ && n > 0 {
        ScrivScan { stack: st.stack.update(n - 1, BinderView { label_id: Some(value), ..st.stack.last() }), ..st }
    } else if captured == "IncludeInCompile"@ && n > 0 {
        ScrivScan {
            stack: st.stack.update(n - 1, BinderView { include_in_compile: is_yes(value), ..st.stack.last() }),
            ..st
        }
    } else if captured == "Status"@ {
        match id {
            Some(i) => ScrivScan { statuses: st.statuses.push((i, value)), ..st },
            None => st,
        }
    } else if captured == "Label"@ {
        match id {
            Some(i) => ScrivScan { labels: st.labels.push((i, value)), ..st },
            None => st,
        }
    } else {
        st
    }
}

/// A closing `BinderItem` moves the innermost open item into its parent, or
/// to the top level.
pub open spec fn scriv_close_item(st: ScrivScan) -> ScrivScan {
    let n = st.stack.len();
    if n == 0 {
        st
    } else if n == 1 {
        ScrivScan { items: st.items.push(st.stack[0]), stack: Seq::empty(), ..st }
    } else {
        let parent = st.stack[n - 2];
        ScrivScan {
            stack: st.stack.take(n - 2).push(BinderView { children: parent.children.push(st.stack[n - 1]), ..parent }),
            ..st
        }
    }
}

/// The state after an element closes.
pub open spec fn scriv_close(st: ScrivScan, name: Seq<char>) -> ScrivScan {
    let stored = match st.capture {
        Some((captured, id)) => if captured == name {
            scriv_store(ScrivScan { capture: None, ..st }, captured, id, trim(st.text))
        } else {
            st
        },
        None => st,
    };
    if name == "BinderItem"@ { scriv_close_item(stored) } else { stored }
}

/// One event of a project file read; `Err` with the message when it is unreadable.
pub open spec fn scriv_step(st: ScrivScan, p: XmlPiece) -> Result<ScrivScan, Seq<char>> {
    match p {
        XmlPiece::Start { name, empty, attrs } => if empty { Ok(st) } else { Ok(scriv_open(st, name@, attrs@)) },
        XmlPiece::End { name } => Ok(scriv_close(st, name@)),
        XmlPiece::Text(r) => if st.capture is Some {
            match r {
                Ok(t) => Ok(ScrivScan { text: st.text + t@, ..st }),
                Err(e) => Err(e@),
            }
        } else {
            Ok(st)
        },
        XmlPiece::Ref(r) => if st.capture is Some {
            match r {
                Ok(n) => match entity_value(n@) {
                    Some(t) => Ok(ScrivScan { text: st.text + t, ..st }),
                    None => Ok(st),
                },
                Err(e) => Err(e@),
            }
        } else {
            Ok(st)
        },
        XmlPiece::Failed(m) => Err("Unreadable Scrivener project: "@ + m@),
        _ => Ok(st),
    }
}

/// The state after `ps[..n]`, or the first error.
pub open spec fn scriv_scan(ps: Seq<XmlPiece>, n: int) -> Result<ScrivScan, Seq<char>>
    decreases n,
{
    if n <= 0 {
        Ok(scriv_initial())
    } else {
        match scriv_scan(ps, n - 1) {
            Ok(st) => scriv_step(st, ps[n - 1]),
            Err(e) => Err(e),
        }
    }
}

/// The scan of a project reads the events by their views: two readings with
/// the same views scan alike.
pub proof fn lemma_scriv_scan_views(a: Seq<XmlPiece>, b: Seq<XmlPiece>, n: int)
    requires
        piece_views(a) == piece_views(b),
        n <= a.len(),
    ensures
        scriv_scan(a, n) == scriv_scan(b, n),
    decreases n,
{
    if n > 0 {
        lemma_scriv_scan_views(a, b, n - 1);
        assert(a.len() == piece_views(a).len() && b.len() == piece_views(b).len());
        assert(0 <= n - 1 < a.len() && n - 1 < b.len());
        assert(piece_views(a)[n - 1] == piece_view(a[n - 1]));
        assert(piece_views(b)[n - 1] == piece_view(b[n - 1]));
        match (a[n - 1], b[n - 1]) {
            (XmlPiece::Start { attrs: x, .. }, XmlPiece::Start { attrs: y, .. }) => {
                assert(attr_views(x@) == attr_views(y@));
                assert forall|k: Seq<char>| attr_of(x@, k) == #[trigger] attr_of(y@, k) by {
                    lemma_attr_of_views(x@, y@, k);
                }
            },
            _ => {},
        }
    }
}

proof fn lemma_binder_views_take(cs: Seq<BinderItem>, k: int)
    requires
        0 <= k <= cs.len(),
    ensures
        binder_views(cs.take(k)) == binder_views(cs).take(k),
{
    lemma_binder_views(cs);
    lemma_binder_views(cs.take(k));
    assert(binder_views(cs.take(k)) =~= binder_views(cs).take(k));
}

proof fn lemma_binder_views_last(cs: Seq<BinderItem>, x: BinderItem)
    requires
        cs.len() > 0,
    ensures
        binder_views(cs.drop_last().push(x)) == binder_views(cs).update(cs.len() - 1, binder_view(x)),
        binder_views(cs).last() == binder_view(cs.last()),
{
    lemma_binder_views(cs);
    lemma_binder_views(cs.drop_last().push(x));
    assert(binder_views(cs.drop_last().push(x)) =~= binder_views(cs).update(cs.len() - 1, binder_view(x)));
}

/// Reads a Scrivener project file event by event.
pub struct ScrivScanner {
    items: Vec<BinderItem>,
    stack: Vec<BinderItem>,
    statuses: Vec<(String, String)>,
    labels: Vec<(String, String)>,
    capture: Option<(String, Option<String>)>,
    text: String,
}

impl ScrivScanner {
    pub closed spec fn view(&self) -> ScrivScan {
        ScrivScan {
            items: binder_views(self.items@),
            stack: binder_views(self.stack@),
            statuses: pair_views(self.statuses@),
            labels: pair_views(self.labels@),
            capture: match self.capture {
                Some((n, id)) => Some((n@, opt_chars(id))),
                None => None,
            },
            text: self.text@,
        }
    }

    fn new() -> (r: Self)
        ensures
            r.view() == scriv_initial(),
    {
        let r = ScrivScanner {
            items: Vec::new(),
            stack: Vec::new(),
            statuses: Vec::new(),
            labels: Vec::new(),
            capture: None,
            text: String::new(),
        };
        assert(binder_views(r.items@) =~= Seq::<BinderView>::empty());
        assert(binder_views(r.stack@) =~= Seq::<BinderView>::empty());
        assert(pair_views(r.statuses@) =~= Seq::<(Seq<char>, Seq<char>)>::empty());
        assert(pair_views(r.labels@) =~= Seq::<(Seq<char>, Seq<char>)>::empty());
        r
    }

    fn open(&mut self, name: &str, attrs: &Vec<(String, Option<String>)>)
        ensures
            final(self).view() == scriv_open(old(self).view(), name@, attrs@),
    {
        proof {
            reveal_strlit("BinderItem");
            reveal_strlit("Title");
            reveal_strlit("StatusID");
            reveal_strlit("LabelID");
            reveal_strlit("IncludeInCompile");
            reveal_strlit("Status");
            reveal_strlit("Label");
            reveal_strlit("UUID");
            reveal_strlit("ID");
            reveal_strlit("Type");
        }
        if same_text(name, "BinderItem") {
            let id = match attr_value(attrs, "UUID") {
                Some(v) => v,
                None => match attr_value(attrs, "ID") {
                    Some(v) => v,
                    None => String::new(),
                },
            };
            let kind = match attr_value(attrs, "Type") {
                Some(v) => v,
                None => String::new(),
            };
            let item = BinderItem {
                id,
                kind,
                title: String::new(),
                status_id: None,
                label_id: None,
                include_in_compile: true,
                children: Vec::new(),
            };
            assert(binder_views(item.children@) =~= Seq::<BinderView>::empty());
            assert(binder_view(item) == new_item(attrs@));
            proof {
                lemma_binder_views_push(self.stack@, item);
            }
            self.stack.push(item);
        } else if same_text(name, "Title") || same_text(name, "StatusID") || same_text(name, "LabelID")
            || same_text(name, "IncludeInCompile") {
            self.capture = Some((name.to_owned(), None));
            self.text = String::new();
        } else if same_text(name, "Status") || same_text(name, "Label") {
            self.capture = Some((name.to_owned(), attr_value(attrs, "ID")));
            self.text = String::new();
        }
    }

    fn store(&mut self, captured: &str, id: Option<String>, value: String)
        ensures
            final(self).view() == scriv_store(old(self).view(), captured@, opt_chars(id), value@),
    {
        proof {
            reveal_strlit("Title");
            reveal_strlit("StatusID");
            reveal_strlit("LabelID");
            reveal_strlit("IncludeInCompile");
            reveal_strlit("Status");
            reveal_strlit("Label");
        }
        let n = self.stack.len();
        let ghost old_stack = self.stack@;
        let ghost ov = self.view();
        proof {
            lemma_binder_views(old_stack);
        }
        if n > 0 && (same_text(captured, "Title") || same_text(captured, "StatusID") || same_text(captured, "LabelID")
            || same_text(captured, "IncludeInCompile")) {
            let mut item = self.stack.pop().unwrap();
            assert(self.stack@ == old_stack.drop_last());
            let ghost before = binder_view(item);
            proof {
                lemma_binder_views_last(old_stack, item);
                assert(item == old_stack.last());
            }
            if same_text(captured, "Title") {
                item.title = value;
            } else if same_text(captured, "StatusID") {
                item.status_id = Some(value);
            } else if same_text(captured, "LabelID") {
                item.label_id = Some(value);
            } else {
                item.include_in_compile = is_yes_text(value.as_str());
            }
            proof {
                lemma_binder_views_last(old_stack, item);
                assert(binder_view(item) == (BinderView { title: item.title@, status_id: opt_chars(item.status_id), label_id: opt_chars(item.label_id), include_in_compile: item.include_in_compile, ..before }));
            }
            self.stack.push(item);
        } else if same_text(captured, "Status") {
            match id {
                Some(i) => {
                    let ghost before = pair_views(self.statuses@);
                    self.statuses.push((i, value));
                    assert(pair_views(self.statuses@) =~= before.push((i@, value@)));
                },
                None => {},
            }
        } else if same_text(captured, "Label") {
            match id {
                Some(i) => {
                    let ghost before = pair_views(self.labels@);
                    self.labels.push((i, value));
                    assert(pair_views(self.labels@) =~= before.push((i@, value@)));
                },
                None => {},
            }
        }
    }

    fn close_item(&mut self)
        ensures
            final(self).view() == scriv_close_item(old(self).view()),
    {
        let n = self.stack.len();
        if n == 0 {
            return;
        }
        let ghost old_stack = self.stack@;
        proof {
            lemma_binder_views(old_stack);
        }
        let item = self.stack.pop().unwrap();
        if n == 1 {
            proof {
                lemma_binder_views_push(self.items@, item);
                assert(binder_views(self.stack@) =~= Seq::<BinderView>::empty());
            }
            self.items.push(item);
        } else {
            let mut parent = self.stack.pop().unwrap();
            assert(self.stack@ =~= old_stack.take(n - 2));
            proof {
                lemma_binder_views_push(parent.children@, item);
                lemma_binder_views_take(old_stack, n - 2);
            }
            parent.children.push(item);
            proof {
                lemma_binder_views_push(self.stack@, parent);
            }
            self.stack.push(parent);
        }
    }

    fn close(&mut self, name: &str)
        ensures
            final(self).view() == scriv_close(old(self).view(), name@),
    {
        proof {
            reveal_strlit("BinderItem");
        }
        let matches = match &self.capture {
            Some((c, _)) => same_text(c.as_str(), name),
            None => false,
        };
        if matches {
            let mut cap: Option<(String, Option<String>)> = None;
            std::mem::swap(&mut cap, &mut self.capture);
            match cap {
                Some((captured, id)) => {
                    let value = trimmed(self.text.as_str());
                    self.store(captured.as_str(), id, value);
                },
                None => {},
            }
        }
        if same_text(name, "BinderItem") {
            self.close_item();
        }
    }

    fn step(&mut self, p: &XmlPiece) -> (r: Result<(), String>)
        ensures
            match (r, scriv_step(old(self).view(), *p)) {
                (Ok(_), Ok(st)) => final(self).view() == st,
                (Err(a), Err(b)) => a@ == b,
                _ => false,
            },
    {
        match p {
            XmlPiece::Start { name, empty, attrs } => {
                if !*empty {
                    self.open(name.as_str(), attrs);
                }
                Ok(())
            },
            XmlPiece::End { name } => {
                self.close(name.as_str());
                Ok(())
            },
            XmlPiece::Text(t) => {
                if self.capture.is_some() {
                    match t {
                        Ok(text) => {
                            push_str(&mut self.text, text.as_str());
                            Ok(())
                        },
                        Err(e) => Err(e.clone()),
                    }
                } else {
                    Ok(())
                }
            },
            XmlPiece::Ref(r) => {
                if self.capture.is_some() {
                    match r {
                        Ok(name) => {
                            match entity_text(name.as_str()) {
                                Some(text) => push_str(&mut self.text, text.as_str()),
                                None => {},
                            }
                            Ok(())
                        },
                        Err(e) => Err(e.clone()),
                    }
                } else {
                    Ok(())
                }
            },
            XmlPiece::Failed(m) => {
                let mut e = "Unreadable Scrivener project: ".to_owned();
                push_str(&mut e, m.as_str());
                proof {
                    reveal_strlit("Unreadable Scrivener project: ");
                }
                Err(e)
            },
            _ => Ok(()),
        }
    }
}

fn is_yes_text(v: &str) -> (r: bool)
    ensures
        r == is_yes(v@),
{
    let c = chars_of(v);
    c.len() == 3 && (c[0] == 'y' || c[0] == 'Y') && (c[1] == 'e' || c[1] == 'E') && (c[2] == 's' || c[2] == 'S')
}

/// The project a Scrivener file's events describe.
pub fn scrivener_project(pieces: &Vec<XmlPiece>) -> (r: Result<ScrivenerProject, String>)
    ensures
        match (r, scriv_scan(pieces@, pieces@.len() as int)) {
            (Ok(p), Ok(st)) => binder_views(p.items@) == st.items && pair_views(p.statuses@) == st.statuses
                && pair_views(p.labels@) == st.labels,
            (Err(a), Err(b)) => a@ == b,
            _ => false,
        },
{
    let mut sc = ScrivScanner::new();
    let mut i: usize = 0;
    while i < pieces.len()
        invariant
            i <= pieces@.len(),
            scriv_scan(pieces@, i as int) == Ok::<ScrivScan, Seq<char>>(sc.view()),
        decreases pieces.len() - i,
    {
        match sc.step(&pieces[i]) {
            Ok(_) => {},
            Err(e) => {
                proof {
                    lemma_scriv_scan_err(pieces@, i + 1, pieces@.len() as int);
                }
                return Err(e);
            },
        }
        i += 1;
    }
    Ok(ScrivenerProject { items: sc.items, statuses: sc.statuses, labels: sc.labels })
}

/// Once reading has failed, it stays failed with the same message.
proof fn lemma_scriv_scan_err(ps: Seq<XmlPiece>, a: int, b: int)
    requires
        0 <= a <= b,
        scriv_scan(ps, a) is Err,
    ensures
        scriv_scan(ps, b) == scriv_scan(ps, a),
    decreases b - a,
{
    if a < b {
        lemma_scriv_scan_err(ps, a, b - 1);
    }
}

/// Reads a Scrivener project file (`.scrivx`): the project is what reading
/// the events quick-xml reads from the text (`xml_pieces`) gives.
pub fn parse_scrivx(xml: &str) -> (r: Result<ScrivenerProject, String>)
    ensures
        exists|ps: Seq<XmlPiece>| piece_views(ps) == xml_pieces(xml@) && read_shape(ps),
        forall|ps: Seq<XmlPiece>|
            piece_views(ps) == xml_pieces(xml@) ==> match (r, #[trigger] scriv_scan(ps, ps.len() as int)) {
                (Ok(p), Ok(st)) => binder_views(p.items@) == st.items && pair_views(p.statuses@) == st.statuses
                    && pair_views(p.labels@) == st.labels,
                (Err(a), Err(b)) => a@ == b,
                _ => false,
            },
{
    let pieces = read_pieces(xml);
    let r = scrivener_project(&pieces);
    assert(read_shape(pieces@));
    proof {
        assert forall|ps: Seq<XmlPiece>| piece_views(ps) == xml_pieces(xml@) implies match (r, #[trigger] scriv_scan(ps, ps.len() as int)) {
            (Ok(p), Ok(st)) => binder_views(p.items@) == st.items && pair_views(p.statuses@) == st.statuses
                && pair_views(p.labels@) == st.labels,
            (Err(a), Err(b)) => a@ == b,
            _ => false,
        } by {
            assert(ps.len() == piece_views(ps).len() && pieces@.len() == piece_views(pieces@).len());
            lemma_scriv_scan_views(pieces@, ps, pieces@.len() as int);
        }
    }
    r
}

/// The items of `vs` that are neither in the trash nor included in
/// compiles, counted at every depth (texts only).
pub open spec fn excluded_count(vs: Seq<BinderView>) -> nat
    decreases vs, 1int,
{
    if vs.len() == 0 {
        0
    } else {
        excluded_count(vs.drop_last()) + excluded_in(vs.last())
    }
}

/// What one item and its children add to `excluded_count`.
pub open spec fn excluded_in(v: BinderView) -> nat
    decreases v, 0int,
{
    if v.kind == "TrashFolder"@ {
        0
    } else {
        (if !v.include_in_compile && v.kind == "Text"@ { 1nat } else { 0nat }) + excluded_count(v.children)
    }
}

/// How many texts a project marks "not included in compile", outside the trash
/// (at most `usize::MAX`).
pub fn count_excluded(items: &Vec<BinderItem>) -> (r: usize)
    ensures
        r == if excluded_count(binder_views(items@)) > usize::MAX {
            usize::MAX as nat
        } else {
            excluded_count(binder_views(items@))
        },
    decreases items@,
{
    proof {
        reveal_strlit("TrashFolder");
        reveal_strlit("Text");
    }
    let mut total: usize = 0;
    let mut i: usize = 0;
    assert(items@.take(0) =~= Seq::<BinderItem>::empty());
    while i < items.len()
        invariant
            i <= items@.len(),
            total == if excluded_count(binder_views(items@.take(i as int))) > usize::MAX {
                usize::MAX as nat
            } else {
                excluded_count(binder_views(items@.take(i as int)))
            },
        decreases items.len() - i,
    {
        let item = &items[i];
        let ghost prev = binder_views(items@.take(i as int));
        let ghost v = binder_view(*item);
        proof {
            assert(items@.take(i + 1) =~= items@.take(i as int).push(*item));
            lemma_binder_views_push(items@.take(i as int), *item);
            assert(binder_views(items@.take(i + 1)) == prev.push(v));
            assert(prev.push(v).drop_last() =~= prev);
            assert(excluded_count(prev.push(v)) == excluded_count(prev) + excluded_in(v));
        }
        if !same_text(item.kind.as_str(), "TrashFolder") {
            let own: usize = if !item.include_in_compile && same_text(item.kind.as_str(), "Text") { 1 } else { 0 };
            assert(decreases_to!(items@ => item.children@)) by {
                assert(decreases_to!(items@ => items@[i as int]));
            }
            let inner = count_excluded(&item.children);
            total = total.saturating_add(own).saturating_add(inner);
        }
        i += 1;
    }
    assert(items@.take(items@.len() as int) =~= items@);
    total
}

/// The last value stored for `key` in `table`.
pub open spec fn looked_up(table: Seq<(Seq<char>, Seq<char>)>, key: Seq<char>) -> Option<Seq<char>>
    decreases table.len(),
{
    if table.len() == 0 {
        None
    } else if table.last().0 == key {
        Some(table.last().1)
    } else {
        looked_up(table.drop_last(), key)
    }
}

/// The name an item's status or label id stands for, unless the id is "-1" or
/// the name is Scrivener's "No Status" / "No Label".
pub open spec fn named_in(id: Option<Seq<char>>, table: Seq<(Seq<char>, Seq<char>)>) -> Option<Seq<char>> {
    match id {
        Some(i) => if i == "-1"@ {
            None
        } else {
            match looked_up(table, i) {
                Some(n) => if n == "No Status"@ || n == "No Label"@ { None } else { Some(n) },
                None => None,
            }
        },
        None => None,
    }
}

fn name_in(id: &Option<String>, table: &Vec<(String, String)>) -> (r: Option<String>)
    ensures
        opt_chars(r) == named_in(opt_chars(*id), pair_views(table@)),
{
    proof {
        reveal_strlit("-1");
        reveal_strlit("No Status");
        reveal_strlit("No Label");
    }
    let i = match id {
        Some(i) => i,
        None => return None,
    };
    if same_text(i.as_str(), "-1") {
        return None;
    }
    let ghost t = pair_views(table@);
    let mut k = table.len();
    assert(t.take(k as int) =~= t);
    while k > 0
        invariant
            k <= table@.len(),
            t == pair_views(table@),
            looked_up(t, i@) == looked_up(t.take(k as int), i@),
            opt_chars(*id) == Some(i@),
            i@ != "-1"@,
        decreases k,
    {
        proof {
            reveal_strlit("No Status");
            reveal_strlit("No Label");
        }
        assert(t.take(k as int).last() == (table@[k - 1].0@, table@[k - 1].1@));
        assert(t.take(k as int).drop_last() =~= t.take(k - 1));
        if same_text(table[k - 1].0.as_str(), i.as_str()) {
            let n = &table[k - 1].1;
            if same_text(n.as_str(), "No Status") || same_text(n.as_str(), "No Label") {
                return None;
            }
            return Some(n.clone());
        }
        k -= 1;
    }
    None
}

/// An item's metadata: its synopsis (trimmed, when not blank) and the names
/// of its status and label.
pub fn binder_meta(item: &BinderItem, project: &ScrivenerProject, synopsis: Option<String>) -> (r: Meta)
    ensures
        opt_chars(r.synopsis) == match synopsis {
            Some(s) => if trim(s@).len() == 0 { None } else { Some(trim(s@)) },
            None => None,
        },
        opt_chars(r.status) == named_in(opt_chars(item.status_id), pair_views(project.statuses@)),
        opt_chars(r.label) == named_in(opt_chars(item.label_id), pair_views(project.labels@)),
{
    let synopsis = match synopsis {
        Some(s) => {
            let t = trimmed(s.as_str());
            if chars_of(t.as_str()).len() == 0 { None } else { Some(t) }
        },
        None => None,
    };
    Meta {
        synopsis,
        status: name_in(&item.status_id, &project.statuses),
        label: name_in(&item.label_id, &project.labels),
    }
}

/// The binder items an import writes: all but the trash.
pub fn importable_items(items: &Vec<BinderItem>) -> (r: Vec<usize>)
    ensures
        forall|k: int| 0 <= k < r@.len() ==> r@[k] < items@.len() && items@[r@[k] as int].kind@ != "TrashFolder"@,
        forall|a: int, b: int| 0 <= a < b < r@.len() ==> r@[a] < r@[b],
        forall|j: int|
            0 <= j < items@.len() && items@[j].kind@ != "TrashFolder"@ ==> r@.contains(j as usize),
{
    proof {
        reveal_strlit("TrashFolder");
    }
    let mut out: Vec<usize> = Vec::new();
    let mut i: usize = 0;
    while i < items.len()
        invariant
            i <= items@.len(),
            forall|k: int| 0 <= k < out@.len() ==> out@[k] < i && items@[out@[k] as int].kind@ != "TrashFolder"@,
            forall|a: int, b: int| 0 <= a < b < out@.len() ==> out@[a] < out@[b],
            forall|j: int| 0 <= j < i && items@[j].kind@ != "TrashFolder"@ ==> out@.contains(j as usize),
        decreases items.len() - i,
    {
        if !same_text(items[i].kind.as_str(), "TrashFolder") {
            let ghost before = out@;
            out.push(i);
            assert forall|j: int| 0 <= j < i + 1 && items@[j].kind@ != "TrashFolder"@ implies out@.contains(
                j as usize,
            ) by {
                if j < i {
                    let k = choose|k: int| 0 <= k < before.len() && before[k] == j as usize;
                    assert(out@[k] == j as usize);
                } else {
                    assert(out@[out@.len() - 1] == i);
                }
            }
        }
        i += 1;
    }
    out
}

/// What importing one binder item does.
pub struct EntryPlan {
    /// A PDF, image or web page: skipped, as only text is imported.
    pub skipped: bool,
    /// The writing to create for it, with its text (metadata block first).
    pub writing: Option<String>,
    /// Where its children go: `Some(true)` in a new folder of its name (a
    /// folder), `Some(false)` in a folder of that name beside the writing (a
    /// text with children); `None` when there are none to place.
    pub children: Option<bool>,
}

/// A writing's file text: the metadata block and body, ending in a line break.
pub open spec fn entry_text(meta: Meta, body: Seq<char>) -> Seq<char> {
    let c = front_matter_text(meta, body);
    if ends_with(c, "\n"@) { c } else { c.push('\n') }
}

/// Folders, and texts with their own text, metadata or children, are kept;
/// everything else in the binder is media.
pub open spec fn planned(kind: Seq<char>, has_children: bool, body: Seq<char>, meta: Meta) -> (bool, Option<Seq<char>>, Option<bool>) {
    let is_folder = ends_with(kind, "Folder"@);
    let is_text = kind == "Text"@;
    if !is_folder && !is_text {
        (true, None, None)
    } else {
        let empty_meta = meta.synopsis is None && meta.status is None && meta.label is None;
        (
            false,
            if is_text || trim(body).len() > 0 || !empty_meta { Some(entry_text(meta, body)) } else { None },
            if is_folder || has_children { Some(is_folder) } else { None },
        )
    }
}

/// Decides what importing a binder item of `kind` does, given its converted
/// text and metadata.
pub fn plan_entry(kind: &str, has_children: bool, body: &str, meta: &Meta) -> (r: EntryPlan)
    ensures
        (r.skipped, opt_chars(r.writing), r.children) == planned(kind@, has_children, body@, *meta),
{
    proof {
        reveal_strlit("Folder");
        reveal_strlit("Text");
        reveal_strlit("\n");
    }
    let kv = chars_of(kind);
    let suffix = chars_of("Folder");
    let is_folder = crate::text::has_suffix(&kv, &suffix);
    let is_text = same_text(kind, "Text");
    if !is_folder && !is_text {
        return EntryPlan { skipped: true, writing: None, children: None };
    }
    let writing = if is_text || !crate::text::is_blank(body) || !meta.is_empty() {
        let mut content = with_front_matter(meta, body);
        let cv = chars_of(content.as_str());
        let nl = chars_of("\n");
        if !crate::text::has_suffix(&cv, &nl) {
            content.push('\n');
        }
        Some(content)
    } else {
        None
    };
    let children = if is_folder || has_children { Some(is_folder) } else { None };
    EntryPlan { skipped: false, writing, children }
}

/// The warning for media a project import skipped.
pub open spec fn skipped_warning_text(stem: Seq<char>, n: nat) -> Seq<char> {
    stem + ": skipped "@ + decimal(n) + " PDFs, images or web pages (only text is imported)."@
}

pub fn skipped_warning(stem: &str, n: u64) -> (r: String)
    ensures
        r@ == skipped_warning_text(stem@, n as nat),
{
    let mut out = stem.to_owned();
    push_str(&mut out, ": skipped ");
    push_decimal(&mut out, n);
    push_str(&mut out, " PDFs, images or web pages (only text is imported).");
    out
}

/// The warning for texts a project left out of compiles, which were imported anyway.
pub open spec fn excluded_warning_text(stem: Seq<char>, n: nat) -> Seq<char> {
    stem + ": "@ + decimal(n)
        + " items were marked “not included in compile” in Scrivener; they were imported anyway."@
}

pub fn excluded_warning(stem: &str, n: u64) -> (r: String)
    ensures
        r@ == excluded_warning_text(stem@, n as nat),
{
    let mut out = stem.to_owned();
    push_str(&mut out, ": ");
    push_decimal(&mut out, n);
    push_str(&mut out, " items were marked “not included in compile” in Scrivener; they were imported anyway.");
    out
}

} // verus!
