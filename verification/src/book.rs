//! A book ready to render: its front and back matter pages, and the whole
//! manuscript as one Markdown file.

use vstd::prelude::*;
use crate::export::{
    html_escape, html_escaped,
    apply_chapter_headings, clone_opt, fm_value, front_matter_value, opt_text, strip_front_matter,
    without_front_matter, MatterItem, chaptered, compile_markdown, compiled, compiled_parts, demote_headings, demoted,
    drop_empty_headings, hashes, kept, part_view, part_views, title_block, ExportRequest, MatterKind,
    MatterStyle, Part, PartView,
};
use crate::export_events::{html_of, markdown_to_html};
use crate::paths::{comp_view, comp_views, components_of, joined_path, path_components, path_join, Comp};
use crate::pdf::{escape_text, typst_escaped};
use crate::text::{
    chars_of, join, lowercase, push_str, replace, replace_all, same_text, skip_ws_back, string_of, to_lowercase, trim, trim_end, trimmed,
};

verus! {

/// A matter page ready to render; its Markdown has tokens filled in.
#[derive(Debug, Clone)]
pub struct Matter {
    pub kind: MatterKind,
    pub markdown: String,
}

/// Everything a render needs, loaded.
pub struct Book {
    pub parts: Vec<Part>,
    pub front: Vec<Matter>,
    pub back: Vec<Matter>,
}

/// The heading level of matter pages in a book compile: below the book title
/// when there is one.
pub open spec fn matter_level(title: Seq<char>) -> int {
    if trim(title).len() == 0 { 1 } else { 2 }
}

/// One matter page in a book compile: its text with headings pushed down to
/// `level`, under its page heading when its kind has one.
pub open spec fn page_markdown(m: Matter, level: int) -> Seq<char> {
    let body = trim(demoted(trim(m.markdown@), level));
    match m.kind.heading_text() {
        Some(h) => hashes(level) + " "@ + h + "\n\n"@ + body + "\n\n"@,
        None => body + "\n\n"@,
    }
}

/// The matter pages in a book compile, in order.
pub open spec fn pages_markdown(pages: Seq<Matter>, level: int) -> Seq<char>
    decreases pages.len(),
{
    if pages.len() == 0 {
        Seq::empty()
    } else {
        pages_markdown(pages.drop_last(), level) + page_markdown(pages.last(), level)
    }
}

/// The whole book as one Markdown text: the title block, the front matter,
/// the manuscript and the back matter, ending in one line break.
pub open spec fn book_markdown(
    title: Seq<char>,
    author: Seq<char>,
    sep: Seq<char>,
    parts: Seq<Part>,
    front: Seq<Matter>,
    back: Seq<Matter>,
) -> Seq<char> {
    let shift = if trim(title).len() == 0 { 0 } else { 1 };
    let level = matter_level(title);
    trim_end(
        title_block(title, author) + pages_markdown(front, level) + compiled_parts(sep, parts, 0, shift, shift, false)
            + pages_markdown(back, level),
    ) + "\n"@
}

fn push_page(out: &mut String, m: &Matter, level: usize)
    requires
        1 <= level <= 2,
    ensures
        final(out)@ == old(out)@ + page_markdown(*m, level as int),
{
    let t = trimmed(m.markdown.as_str());
    let d = demote_headings(t.as_str(), level);
    let body = trimmed(d.as_str());
    match m.kind.style() {
        MatterStyle::Headed(heading) => {
            let mut k: usize = 0;
            while k < level
                invariant
                    k <= level,
                    out@ == old(out)@ + hashes(k as int),
                decreases level - k,
            {
                out.push('#');
                assert(hashes(k + 1) =~= hashes(k as int).push('#'));
                k += 1;
            }
            push_str(out, " ");
            push_str(out, heading);
            push_str(out, "\n\n");
        },
        _ => {},
    }
    push_str(out, body.as_str());
    push_str(out, "\n\n");
    assert(final(out)@ =~= old(out)@ + page_markdown(*m, level as int));
}

fn push_pages(out: &mut String, pages: &Vec<Matter>, level: usize)
    requires
        1 <= level <= 2,
    ensures
        final(out)@ == old(out)@ + pages_markdown(pages@, level as int),
{
    let mut i: usize = 0;
    assert(pages@.take(0) =~= Seq::<Matter>::empty());
    while i < pages.len()
        invariant
            1 <= level <= 2,
            i <= pages@.len(),
            out@ == old(out)@ + pages_markdown(pages@.take(i as int), level as int),
        decreases pages.len() - i,
    {
        assert(pages@.take(i + 1).drop_last() =~= pages@.take(i as int));
        push_page(out, &pages[i], level);
        i += 1;
    }
    assert(pages@.take(pages@.len() as int) =~= pages@);
}

/// The whole book as one Markdown file, matter included.
pub fn compile_book_markdown(request: &ExportRequest, book: &Book) -> (r: String)
    ensures
        r@ == book_markdown(
            request.title@,
            request.author@,
            request.scene_separator@,
            book.parts@,
            book.front@,
            book.back@,
        ),
{
    let full = compile_markdown(request, book.parts.as_slice());
    // compile_markdown starts with the title block; matter goes right after it.
    let empty: Vec<Part> = Vec::new();
    let head = compile_markdown(request, empty.as_slice());
    let fv = chars_of(full.as_str());
    let hv = chars_of(head.as_str());
    let ghost shift: int = if trim(request.title@).len() == 0 { 0 } else { 1 };
    proof {
        assert(empty@ =~= Seq::<Part>::empty());
        assert(compiled_parts(request.scene_separator@, empty@, 0, shift, shift, false) == Seq::<char>::empty());
        assert(hv@ =~= title_block(request.title@, request.author@));
        assert(fv@.subrange(hv@.len() as int, fv@.len() as int) =~= compiled_parts(
            request.scene_separator@,
            book.parts@,
            0,
            shift,
            shift,
            false,
        ));
    }
    let level: usize = if crate::text::is_blank(request.title.as_str()) { 1 } else { 2 };
    let mut out = head;
    push_pages(&mut out, &book.front, level);
    crate::text::push_range(&mut out, &fv, hv.len(), fv.len());
    push_pages(&mut out, &book.back, level);
    let ov = chars_of(out.as_str());
    let hi = skip_ws_back(&ov, 0, ov.len());
    assert(ov@.subrange(0, ov@.len() as int) =~= ov@);
    let mut r = string_of(&ov, 0, hi);
    push_str(&mut r, "\n");
    r
}

/// The statuses a request leaves out: trimmed and lower-cased, blank ones dropped.
pub open spec fn excluded_statuses(ss: Seq<String>) -> Seq<Seq<char>>
    decreases ss.len(),
{
    if ss.len() == 0 {
        Seq::empty()
    } else {
        let e = excluded_statuses(ss.drop_last());
        let t = lowercase(trim(ss.last()@));
        if t.len() == 0 { e } else { e.push(t) }
    }
}

/// Whether a part passes the status filter: a writing whose status is one of
/// `ex` (ignoring case and surrounding whitespace) does not.
pub open spec fn passes_status(p: PartView, ex: Seq<Seq<char>>) -> bool {
    match p {
        PartView::Document { status: Some(st), .. } => !ex.contains(lowercase(trim(st))),
        _ => true,
    }
}

/// The parts that pass the status filter, in order.
pub open spec fn status_filtered(ps: Seq<PartView>, ex: Seq<Seq<char>>) -> Seq<PartView>
    decreases ps.len(),
{
    if ps.len() == 0 {
        Seq::empty()
    } else if passes_status(ps.last(), ex) {
        status_filtered(ps.drop_last(), ex).push(ps.last())
    } else {
        status_filtered(ps.drop_last(), ex)
    }
}

/// What the status filter leaves of a manuscript: the writings that pass and
/// the headings whose sections still hold one.
pub open spec fn left_after_filter(ps: Seq<PartView>, ex: Seq<Seq<char>>) -> Seq<PartView> {
    let f = status_filtered(ps, ex);
    kept(f, f.len() as int)
}

/// Some part is a writing.
pub open spec fn has_document(ps: Seq<PartView>) -> bool {
    exists|j: int| 0 <= j < ps.len() && #[trigger] ps[j] is Document
}

pub const ALL_FILTERED: &'static str = "Every writing was left out by the status filter.";

/// The parts a render uses: filtered by status when the request leaves some
/// out (an error when nothing is left), then with chapter headings applied.
pub open spec fn prepared(ps: Seq<PartView>, statuses: Seq<String>, template: Seq<char>) -> Option<Seq<PartView>> {
    let ex = excluded_statuses(statuses);
    if ex.len() == 0 {
        Some(chaptered(ps, template))
    } else if has_document(left_after_filter(ps, ex)) {
        Some(chaptered(left_after_filter(ps, ex), template))
    } else {
        None
    }
}

fn excluded_of(statuses: &Vec<String>) -> (r: Vec<String>)
    ensures
        r@.map_values(|s: String| s@) == excluded_statuses(statuses@),
{
    let mut out: Vec<String> = Vec::new();
    let mut i: usize = 0;
    assert(statuses@.take(0) =~= Seq::<String>::empty());
    assert(out@.map_values(|s: String| s@) =~= Seq::<Seq<char>>::empty());
    while i < statuses.len()
        invariant
            i <= statuses@.len(),
            out@.map_values(|s: String| s@) == excluded_statuses(statuses@.take(i as int)),
        decreases statuses.len() - i,
    {
        assert(statuses@.take(i + 1).drop_last() =~= statuses@.take(i as int));
        let t = trimmed(statuses[i].as_str());
        let l = to_lowercase(t.as_str());
        if !is_empty_text(l.as_str()) {
            let ghost before = out@.map_values(|s: String| s@);
            out.push(l);
            assert(out@.map_values(|s: String| s@) =~= before.push(lowercase(trim(statuses@[i as int]@))));
        }
        i += 1;
    }
    assert(statuses@.take(statuses@.len() as int) =~= statuses@);
    out
}

fn clone_part(p: &Part) -> (r: Part)
    ensures
        r == *p,
{
    match p {
        Part::Heading { level, text } => {
            Part::Heading { level: *level, text: text.clone() }
        },
        Part::Document { title, label, markdown, status } => Part::Document {
            title: clone_opt(title),
            label: label.clone(),
            markdown: markdown.clone(),
            status: clone_opt(status),
        },
    }
}

fn is_empty_text(s: &str) -> (r: bool)
    ensures
        r == (s@.len() == 0),
{
    chars_of(s).len() == 0
}

fn listed(ex: &Vec<String>, s: &str) -> (r: bool)
    ensures
        r == ex@.map_values(|e: String| e@).contains(s@),
{
    let ghost v = ex@.map_values(|e: String| e@);
    let mut i: usize = 0;
    while i < ex.len()
        invariant
            i <= ex@.len(),
            v == ex@.map_values(|e: String| e@),
            forall|j: int| 0 <= j < i ==> v[j] != s@,
        decreases ex.len() - i,
    {
        if same_text(ex[i].as_str(), s) {
            assert(v[i as int] == s@);
            return true;
        }
        i += 1;
    }
    false
}

/// The parts to render: filtered by status, with chapter headings applied.
pub fn prepare_manuscript(request: &ExportRequest, parts: Vec<Part>) -> (r: Result<Vec<Part>, String>)
    ensures
        match (r, prepared(part_views(parts@), request.exclude_statuses@, request.chapter_heading@)) {
            (Ok(v), Some(ps)) => part_views(v@) == ps,
            (Err(e), None) => e@ == ALL_FILTERED@,
            _ => false,
        },
{
    let ex = excluded_of(&request.exclude_statuses);
    let ghost exv = ex@.map_values(|e: String| e@);
    let mut parts = parts;
    if ex.len() > 0 {
        let ghost ps = part_views(parts@);
        let mut kept_parts: Vec<Part> = Vec::new();
        let mut rest = parts;
        let mut i: usize = 0;
        let n = rest.len();
        assert(ps.take(0) =~= Seq::<PartView>::empty());
        while i < n
            invariant
                n == rest@.len(),
                i <= n,
                ps == part_views(rest@),
                exv == ex@.map_values(|e: String| e@),
                part_views(kept_parts@) == status_filtered(ps.take(i as int), exv),
            decreases n - i,
        {
            assert(ps.take(i + 1).drop_last() =~= ps.take(i as int));
            assert(ps.take(i + 1).last() == part_view(rest@[i as int]));
            let pass = match &rest[i] {
                Part::Document { status: Some(st), .. } => {
                    let t = trimmed(st.as_str());
                    let l = to_lowercase(t.as_str());
                    !listed(&ex, l.as_str())
                },
                _ => true,
            };
            if pass {
                let p = clone_part(&rest[i]);
                let ghost before = part_views(kept_parts@);
                kept_parts.push(p);
                assert(part_views(kept_parts@) =~= before.push(part_view(rest@[i as int])));
            }
            i += 1;
        }
        assert(ps.take(n as int) =~= ps);
        let left = drop_empty_headings(kept_parts);
        let ghost lv = part_views(left@);
        let mut any = false;
        let mut k: usize = 0;
        while k < left.len()
            invariant
                k <= left@.len(),
                lv == part_views(left@),
                any == exists|j: int| 0 <= j < k && #[trigger] lv[j] is Document,
            decreases left.len() - k,
        {
            assert(lv[k as int] == part_view(left@[k as int]));
            if let Part::Document { .. } = &left[k] {
                any = true;
            }
            k += 1;
        }
        if !any {
            return Err(ALL_FILTERED.to_owned());
        }
        parts = left;
    }
    apply_chapter_headings(request.chapter_heading.as_str(), &mut parts);
    Ok(parts)
}

/// A folder heading of the manuscript, its level kept from 1 to 6.
pub fn heading_part(level: u8, text: String) -> (r: Part)
    ensures
        part_view(r) == (PartView::Heading {
            level: if level < 1 { 1 } else if level > 6 { 6 } else { level },
            text: text@,
        }),
{
    let level = if level < 1 { 1 } else if level > 6 { 6 } else { level };
    Part::Heading { level, text }
}

/// A writing of the manuscript from its file's text: its status read from the
/// metadata block, which is then dropped.
pub fn document_part(title: Option<String>, label: String, text: &str) -> (r: Part)
    ensures
        part_view(r) == (PartView::Document {
            title: opt_text(title),
            label: label@,
            markdown: without_front_matter(text@),
            status: fm_value(text@, "status"@),
        }),
{
    let status = front_matter_value(text, "status");
    let markdown = strip_front_matter(text);
    Part::Document { title, label, markdown, status }
}

/// The writing a matter page takes its text from, when it names one.
pub fn matter_source(item: &MatterItem) -> (r: Option<String>)
    ensures
        match item.name {
            Some(n) => if n@.len() > 0 {
                r matches Some(m) && m@ == n@
            } else {
                r is None
            },
            None => r is None,
        },
{
    match &item.name {
        Some(n) => if is_empty_text(n.as_str()) { None } else { Some(n.clone()) },
        None => None,
    }
}

/// A matter page's Markdown with `{year}`, `{author}` and `{title}` filled in.
pub open spec fn filled_matter(text: Seq<char>, year: Seq<char>, author: Seq<char>, title: Seq<char>) -> Seq<char> {
    replace_all(replace_all(replace_all(text, "{year}"@, year), "{author}"@, trim(author)), "{title}"@, trim(title))
}

/// A page of front or back matter from its text (the writing's text without
/// its metadata block, or what was typed in), with tokens filled in; `None`
/// when it comes out blank, as such pages are skipped.
pub fn matter_page(kind: MatterKind, text: &str, year: &str, request: &ExportRequest) -> (r: Option<Matter>)
    ensures
        ({
            let m = filled_matter(text@, year@, request.author@, request.title@);
            if trim(m).len() == 0 {
                r is None
            } else {
                r matches Some(page) && page.kind == kind && page.markdown@ == m
            }
        }),
{
    proof {
        reveal_strlit("{year}");
        reveal_strlit("{author}");
        reveal_strlit("{title}");
    }
    let author = trimmed(request.author.as_str());
    let title = trimmed(request.title.as_str());
    let a = replace(text, "{year}", year);
    let b = replace(a.as_str(), "{author}", author.as_str());
    let markdown = replace(b.as_str(), "{title}", title.as_str());
    if crate::text::is_blank(markdown.as_str()) {
        None
    } else {
        Some(Matter { kind, markdown })
    }
}

/// One EPUB file of the book.
pub struct Chapter {
    pub title: String,
    pub markdown: String,
}

/// The smallest (outermost) folder heading level, if there is a heading.
pub open spec fn min_heading(ps: Seq<Part>) -> Option<u8>
    decreases ps.len(),
{
    if ps.len() == 0 {
        None
    } else {
        let m = min_heading(ps.drop_last());
        match ps.last() {
            Part::Heading { level, .. } => match m {
                Some(x) => Some(if level < x { level } else { x }),
                None => Some(level),
            },
            _ => m,
        }
    }
}

/// The level of the headings that start EPUB files: the outermost one there is.
pub open spec fn top_level(ps: Seq<Part>) -> u8 {
    match min_heading(ps) {
        Some(l) => l,
        None => 1,
    }
}

/// Whether `ps[i]` starts a new EPUB file: a top-level heading, or any
/// writing when there are no headings at all.
pub open spec fn starts_chapter(ps: Seq<Part>, i: int) -> bool {
    match ps[i] {
        Part::Heading { level, .. } => level == top_level(ps),
        Part::Document { .. } => min_heading(ps) is None,
    }
}

/// The title of the `n`th EPUB file, which `p` starts: a heading's text, or a
/// writing's title, else its label, else "Chapter n".
pub open spec fn chapter_title(p: Part, n: nat) -> Seq<char> {
    match p {
        Part::Heading { text, .. } => text@,
        Part::Document { title, label, .. } => if title is Some && trim(title->0@).len() > 0 {
            title->0@
        } else if trim(label@).len() > 0 {
            label@
        } else {
            "Chapter "@ + crate::text::decimal(n)
        },
    }
}

/// The EPUB files of `ps[..n]`: each a title and the parts in it, in order.
pub open spec fn chapter_groups(ps: Seq<Part>, n: int) -> Seq<(Seq<char>, Seq<Part>)>
    decreases n,
{
    if n <= 0 {
        Seq::empty()
    } else {
        let g = chapter_groups(ps, n - 1);
        if g.len() == 0 || starts_chapter(ps, n - 1) {
            g.push((chapter_title(ps[n - 1], (g.len() + 1) as nat), seq![ps[n - 1]]))
        } else {
            g.update(g.len() - 1, (g.last().0, g.last().1.push(ps[n - 1])))
        }
    }
}

proof fn lemma_groups_len(ps: Seq<Part>, n: int)
    ensures
        chapter_groups(ps, n).len() <= if n < 0 { 0 } else { n },
    decreases n,
{
    if n > 0 {
        lemma_groups_len(ps, n - 1);
    }
}

/// Splits the manuscript into EPUB files: a new one at every top-level
/// heading, or one per writing when there are no headings at all.
pub fn epub_chapters(request: &ExportRequest, parts: &[Part]) -> (r: Vec<Chapter>)
    ensures
        r@.len() == chapter_groups(parts@, parts@.len() as int).len(),
        forall|k: int|
            0 <= k < r@.len() ==> {
                let g = #[trigger] chapter_groups(parts@, parts@.len() as int)[k];
                &&& r@[k].title@ == g.0
                &&& r@[k].markdown@ == compiled_parts(request.scene_separator@, g.1, 0, 0, 0, false)
            },
{
    let ghost ps = parts@;
    let mut has_headings = false;
    let mut top: u8 = 1;
    let mut i: usize = 0;
    assert(ps.take(0) =~= Seq::<Part>::empty());
    while i < parts.len()
        invariant
            i <= ps.len(),
            ps == parts@,
            has_headings == (min_heading(ps.take(i as int)) is Some),
            match min_heading(ps.take(i as int)) {
                Some(l) => top == l,
                None => top == 1,
            },
        decreases parts.len() - i,
    {
        assert(ps.take(i + 1).drop_last() =~= ps.take(i as int));
        assert(ps.take(i + 1).last() == ps[i as int]);
        match &parts[i] {
            Part::Heading { level, .. } => {
                if !has_headings || *level < top {
                    top = *level;
                }
                has_headings = true;
            },
            _ => {},
        }
        i += 1;
    }
    assert(ps.take(ps.len() as int) =~= ps);
    let mut titles: Vec<String> = Vec::new();
    let mut members: Vec<Vec<Part>> = Vec::new();
    let mut i: usize = 0;
    while i < parts.len()
        invariant
            i <= ps.len(),
            ps == parts@,
            has_headings == (min_heading(ps) is Some),
            top == top_level(ps),
            titles@.len() == members@.len(),
            titles@.len() == chapter_groups(ps, i as int).len(),
            forall|k: int|
                0 <= k < titles@.len() ==> {
                    let g = #[trigger] chapter_groups(ps, i as int)[k];
                    &&& titles@[k]@ == g.0
                    &&& members@[k]@ == g.1
                },
        decreases parts.len() - i,
    {
        let ghost g = chapter_groups(ps, i as int);
        proof {
            lemma_groups_len(ps, i as int);
        }
        let starts = match &parts[i] {
            Part::Heading { level, .. } => *level == top,
            Part::Document { .. } => !has_headings,
        };
        assert(starts == starts_chapter(ps, i as int));
        let p = clone_part(&parts[i]);
        if titles.len() == 0 || starts {
            let n = titles.len() + 1;
            let title = match &parts[i] {
                Part::Heading { text, .. } => text.clone(),
                Part::Document { title, label, .. } => {
                    let named = match title {
                        Some(t) => if crate::text::is_blank(t.as_str()) { None } else { Some(t.clone()) },
                        None => None,
                    };
                    match named {
                        Some(t) => t,
                        None => if !crate::text::is_blank(label.as_str()) {
                            label.clone()
                        } else {
                            let mut c = "Chapter ".to_owned();
                            proof {
                                reveal_strlit("Chapter ");
                            }
                            crate::text::push_decimal(&mut c, n as u64);
                            c
                        },
                    }
                },
            };
            assert(title@ == chapter_title(ps[i as int], n as nat));
            titles.push(title);
            let mut group: Vec<Part> = Vec::new();
            group.push(p);
            assert(group@ =~= seq![ps[i as int]]);
            members.push(group);
            assert(chapter_groups(ps, i + 1) == g.push((chapter_title(ps[i as int], n as nat), seq![ps[i as int]])));
        } else {
            let mut last = members.pop().unwrap();
            last.push(p);
            members.push(last);
            assert(chapter_groups(ps, i + 1) == g.update(g.len() - 1, (g.last().0, g.last().1.push(ps[i as int]))));
        }
        i += 1;
    }
    let mut out: Vec<Chapter> = Vec::new();
    let mut k: usize = 0;
    let ghost gs = chapter_groups(ps, ps.len() as int);
    while k < titles.len()
        invariant
            k <= titles@.len(),
            titles@.len() == members@.len(),
            titles@.len() == gs.len(),
            gs == chapter_groups(parts@, parts@.len() as int),
            forall|j: int|
                0 <= j < titles@.len() ==> {
                    let g = #[trigger] gs[j];
                    &&& titles@[j]@ == g.0
                    &&& members@[j]@ == g.1
                },
            out@.len() == k,
            forall|j: int|
                0 <= j < k ==> {
                    let g = #[trigger] gs[j];
                    &&& out@[j].title@ == g.0
                    &&& out@[j].markdown@ == compiled_parts(request.scene_separator@, g.1, 0, 0, 0, false)
                },
        decreases titles.len() - k,
    {
        let mut markdown = String::new();
        crate::export::push_compiled_parts(&mut markdown, request.scene_separator.as_str(), members[k].as_slice(), 0);
        assert(gs[k as int].1 == members@[k as int]@);
        out.push(Chapter { title: titles[k].clone(), markdown });
        k += 1;
    }
    out
}

/// The Markdown of a matter page's own text, its headings below the page
/// heading (or at level 2 without one).
pub fn matter_body(m: &Matter) -> (r: String)
    ensures
        r@ == demoted(trim(m.markdown@), 1),
{
    let t = trimmed(m.markdown.as_str());
    demote_headings(t.as_str(), 1)
}

/// A matter page in Typst around its body (already in Typst). Small and
/// centered pages go without running head or page number, as in print.
pub open spec fn matter_typst_text(kind: MatterKind, body: Seq<char>) -> Seq<char> {
    match kind.heading_text() {
        Some(h) => "#pagebreak(weak: true)\n#align(center, text(size: 1.6em)["@ + typst_escaped(h)
            + "])\n#v(1.5em)\n"@ + body + "\n#pagebreak(weak: true)\n\n"@,
        None => if kind == MatterKind::Copyright {
            "#page(header: none, footer: none)[#v(1fr)\n#set text(size: 0.85em)\n#set par(first-line-indent: 0em, justify: false)\n"@
                + body + "]\n\n"@
        } else {
            "#page(header: none, footer: none)[#v(25%)\n#set align(center)\n#set text(style: \"italic\")\n#set par(first-line-indent: 0em, justify: false)\n"@
                + body + "]\n\n"@
        },
    }
}

/// A matter page in Typst, from its body in Typst.
pub fn matter_typst(kind: MatterKind, body: &str) -> (r: String)
    ensures
        r@ == matter_typst_text(kind, body@),
{
    let mut out = String::new();
    match kind.style() {
        MatterStyle::Small => {
            push_str(
                &mut out,
                "#page(header: none, footer: none)[#v(1fr)\n#set text(size: 0.85em)\n#set par(first-line-indent: 0em, justify: false)\n",
            );
            push_str(&mut out, body);
            push_str(&mut out, "]\n\n");
        },
        MatterStyle::Centered => {
            push_str(
                &mut out,
                "#page(header: none, footer: none)[#v(25%)\n#set align(center)\n#set text(style: \"italic\")\n#set par(first-line-indent: 0em, justify: false)\n",
            );
            push_str(&mut out, body);
            push_str(&mut out, "]\n\n");
        },
        MatterStyle::Headed(heading) => {
            push_str(&mut out, "#pagebreak(weak: true)\n#align(center, text(size: 1.6em)[");
            let h = escape_text(heading);
            push_str(&mut out, h.as_str());
            push_str(&mut out, "])\n#v(1.5em)\n");
            push_str(&mut out, body);
            push_str(&mut out, "\n#pagebreak(weak: true)\n\n");
        },
    }
    out
}

/// A matter page as its own HTML section around its body (already in HTML),
/// starting a new page in print.
pub open spec fn matter_html_text(kind: MatterKind, body: Seq<char>) -> Seq<char> {
    let class = match kind.heading_text() {
        Some(_) => Seq::empty(),
        None => if kind == MatterKind::Copyright { " matter-small"@ } else { " matter-centered"@ },
    };
    let heading = match kind.heading_text() {
        Some(h) => "<h2 class=\"matter-heading\">"@ + html_escaped(h) + "</h2>\n"@,
        None => Seq::empty(),
    };
    "<section class=\"matter matter-"@ + kind.id_text() + class + " page-break\">\n"@ + heading + body
        + "</section>\n"@
}

/// A matter page as its own HTML section, from its body in HTML.
pub fn matter_html(kind: MatterKind, body: &str) -> (r: String)
    ensures
        r@ == matter_html_text(kind, body@),
{
    let mut out = String::new();
    push_str(&mut out, "<section class=\"matter matter-");
    push_str(&mut out, kind.id());
    let style = kind.style();
    match style {
        MatterStyle::Small => push_str(&mut out, " matter-small"),
        MatterStyle::Centered => push_str(&mut out, " matter-centered"),
        MatterStyle::Headed(_) => {},
    }
    push_str(&mut out, " page-break\">\n");
    match style {
        MatterStyle::Headed(h) => {
            push_str(&mut out, "<h2 class=\"matter-heading\">");
            let e = html_escape(h);
            push_str(&mut out, e.as_str());
            push_str(&mut out, "</h2>\n");
        },
        _ => {},
    }
    push_str(&mut out, body);
    push_str(&mut out, "</section>\n");
    out
}

/// A page of an EPUB: an XHTML document around `body`.
pub open spec fn xhtml_text(title: Seq<char>, body: Seq<char>) -> Seq<char> {
    "<?xml version=\"1.0\" encoding=\"UTF-8\"?>\n<!DOCTYPE html>\n<html xmlns=\"http://www.w3.org/1999/xhtml\" xmlns:epub=\"http://www.idpf.org/2007/ops\">\n<head>\n<meta charset=\"utf-8\"/>\n<title>"@
        + html_escaped(title)
        + "</title>\n<link rel=\"stylesheet\" type=\"text/css\" href=\"stylesheet.css\"/>\n</head>\n<body>\n"@
        + body + "</body>\n</html>\n"@
}

pub fn xhtml_page(title: &str, body: &str) -> (r: String)
    ensures
        r@ == xhtml_text(title@, body@),
{
    let mut out = String::new();
    push_str(
        &mut out,
        "<?xml version=\"1.0\" encoding=\"UTF-8\"?>\n<!DOCTYPE html>\n<html xmlns=\"http://www.w3.org/1999/xhtml\" xmlns:epub=\"http://www.idpf.org/2007/ops\">\n<head>\n<meta charset=\"utf-8\"/>\n<title>",
    );
    let t = html_escape(title);
    push_str(&mut out, t.as_str());
    push_str(
        &mut out,
        "</title>\n<link rel=\"stylesheet\" type=\"text/css\" href=\"stylesheet.css\"/>\n</head>\n<body>\n",
    );
    push_str(&mut out, body);
    push_str(&mut out, "</body>\n</html>\n");
    out
}

/// The stylesheet of HTML and EPUB exports.
pub const BOOK_CSS: &'static str = r#"
body { font-family: Georgia, "Times New Roman", serif; line-height: 1.6; max-width: 38em; margin: 0 auto; padding: 2em 1.5em; }
h1, h2, h3, h4 { line-height: 1.25; font-weight: normal; }
h1.book-title { text-align: center; margin-top: 30vh; font-size: 2.4em; }
p.book-author { text-align: center; font-style: italic; }
p { margin: 0 0 0.9em; }
p.separator { text-align: center; margin: 1.5em 0; letter-spacing: 0.3em; }
blockquote { margin: 1em 2em; font-style: italic; }
pre, code { font-family: Menlo, Consolas, monospace; font-size: 0.85em; }
table { border-collapse: collapse; }
td, th { border: 1px solid #999; padding: 0.25em 0.5em; }
section.matter { margin: 3em 0; }
.matter-small { font-size: 0.85em; }
.matter-centered { text-align: center; font-style: italic; margin-top: 25vh; }
h2.matter-heading { text-align: center; }
"#;

/// Page rules for printing an HTML export.
pub const PRINT_CSS: &'static str = r#"
@page { margin: 2.5cm; }
@media print {
  body { max-width: none; padding: 0; }
  .page-break { break-before: page; }
  h1, h2, h3 { break-after: avoid; }
}
"#;

/// The Markdown of the manuscript without the book title, as HTML, DOCX and
/// PDF renders take it.
pub fn manuscript_body(request: &ExportRequest, parts: &[Part]) -> (r: String)
    ensures
        r@ == compiled_parts(request.scene_separator@, parts@, 0, 0, 0, false),
{
    let mut out = String::new();
    crate::export::push_compiled_parts(&mut out, request.scene_separator.as_str(), parts, 0);
    out
}

/// The title page of an HTML export: the escaped title and author, then a
/// page break; nothing without a title.
pub open spec fn html_title_page(title: Seq<char>, author: Seq<char>) -> Seq<char> {
    if trim(title).len() == 0 {
        Seq::empty()
    } else {
        "<h1 class=\"book-title\">"@ + html_escaped(trim(title)) + "</h1>\n"@ + (if trim(author).len() == 0 {
            Seq::<char>::empty()
        } else {
            "<p class=\"book-author\">"@ + html_escaped(trim(author)) + "</p>\n"@
        }) + "<div class=\"page-break\"></div>\n"@
    }
}

/// One standalone HTML page for the whole manuscript, from the body and the
/// matter pages already in HTML; top-level headings start new pages in print
/// when the request asks for it.
pub open spec fn html_document(
    title: Seq<char>,
    author: Seq<char>,
    page_breaks: bool,
    body: Seq<char>,
    front: Seq<Seq<char>>,
    back: Seq<Seq<char>>,
) -> Seq<char> {
    let b = if page_breaks { replace_all(body, "<h1>"@, "<h1 class=\"page-break\">"@) } else { body };
    "<!DOCTYPE html>\n<html>\n<head>\n<meta charset=\"utf-8\">\n<title>"@ + html_escaped(trim(title))
        + "</title>\n<style>"@ + BOOK_CSS@ + PRINT_CSS@ + "</style>\n</head>\n<body>\n"@ + html_title_page(
        title,
        author,
    ) + join(front, Seq::empty()) + b + join(back, Seq::empty()) + "</body>\n</html>\n"@
}

fn push_all(out: &mut String, pages: &Vec<String>)
    ensures
        final(out)@ == old(out)@ + join(pages@.map_values(|p: String| p@), Seq::empty()),
{
    let ghost ps = pages@.map_values(|p: String| p@);
    let mut i: usize = 0;
    assert(ps.take(0) =~= Seq::<Seq<char>>::empty());
    while i < pages.len()
        invariant
            i <= pages@.len(),
            ps == pages@.map_values(|p: String| p@),
            out@ == old(out)@ + join(ps.take(i as int), Seq::empty()),
        decreases pages.len() - i,
    {
        proof {
            crate::text::lemma_join_push(ps.take(i as int), ps[i as int], Seq::empty());
            assert(ps.take(i + 1) =~= ps.take(i as int).push(ps[i as int]));
        }
        let ghost before = out@;
        push_str(out, pages[i].as_str());
        assert(out@ =~= old(out)@ + join(ps.take(i + 1), Seq::empty()));
        i += 1;
    }
    assert(ps.take(ps.len() as int) =~= ps);
}

/// One standalone HTML page for the whole manuscript, from its parts already
/// in HTML.
pub fn assemble_html(request: &ExportRequest, body: &str, front: &Vec<String>, back: &Vec<String>) -> (r: String)
    ensures
        r@ == html_document(
            request.title@,
            request.author@,
            request.chapter_page_breaks,
            body@,
            front@.map_values(|p: String| p@),
            back@.map_values(|p: String| p@),
        ),
{
    proof {
        reveal_strlit("<h1>");
    }
    let b = if request.chapter_page_breaks {
        replace(body, "<h1>", "<h1 class=\"page-break\">")
    } else {
        body.to_owned()
    };
    let t = trimmed(request.title.as_str());
    let title = html_escape(t.as_str());
    let mut out = String::new();
    push_str(&mut out, "<!DOCTYPE html>\n<html>\n<head>\n<meta charset=\"utf-8\">\n<title>");
    push_str(&mut out, title.as_str());
    push_str(&mut out, "</title>\n<style>");
    push_str(&mut out, BOOK_CSS);
    push_str(&mut out, PRINT_CSS);
    push_str(&mut out, "</style>\n</head>\n<body>\n");
    let ghost head = out@;
    if !crate::text::is_blank(request.title.as_str()) {
        push_str(&mut out, "<h1 class=\"book-title\">");
        push_str(&mut out, title.as_str());
        push_str(&mut out, "</h1>\n");
        if !crate::text::is_blank(request.author.as_str()) {
            push_str(&mut out, "<p class=\"book-author\">");
            let a = trimmed(request.author.as_str());
            let e = html_escape(a.as_str());
            push_str(&mut out, e.as_str());
            push_str(&mut out, "</p>\n");
        }
        push_str(&mut out, "<div class=\"page-break\"></div>\n");
    }
    assert(out@ =~= head + html_title_page(request.title@, request.author@));
    push_all(&mut out, front);
    push_str(&mut out, b.as_str());
    push_all(&mut out, back);
    push_str(&mut out, "</body>\n</html>\n");
    out
}

/// A matter page as HTML: its body's HTML inside its section.
pub open spec fn matter_page_html(m: Matter) -> Seq<char> {
    matter_html_text(m.kind, html_of(demoted(trim(m.markdown@), 1)))
}

fn pages_html(pages: &Vec<Matter>) -> (r: Vec<String>)
    ensures
        r@.map_values(|p: String| p@) == pages@.map_values(|m: Matter| matter_page_html(m)),
{
    let mut out: Vec<String> = Vec::new();
    let mut i: usize = 0;
    while i < pages.len()
        invariant
            i <= pages@.len(),
            out@.len() == i,
            forall|k: int| 0 <= k < i ==> (#[trigger] out@[k])@ == matter_page_html(pages@[k]),
        decreases pages.len() - i,
    {
        let body = matter_body(&pages[i]);
        let html = markdown_to_html(body.as_str());
        out.push(matter_html(pages[i].kind, html.as_str()));
        i += 1;
    }
    assert(out@.map_values(|p: String| p@) =~= pages@.map_values(|m: Matter| matter_page_html(m)));
    out
}

/// One standalone HTML page for the whole manuscript. Also what gets printed to PDF.
pub fn render_html(request: &ExportRequest, book: &Book) -> (r: String)
    ensures
        r@ == html_document(
            request.title@,
            request.author@,
            request.chapter_page_breaks,
            html_of(compiled_parts(request.scene_separator@, book.parts@, 0, 0, 0, false)),
            book.front@.map_values(|m: Matter| matter_page_html(m)),
            book.back@.map_values(|m: Matter| matter_page_html(m)),
        ),
{
    let markdown = manuscript_body(request, book.parts.as_slice());
    let body = markdown_to_html(markdown.as_str());
    let front = pages_html(&book.front);
    let back = pages_html(&book.back);
    assemble_html(request, body.as_str(), &front, &back)
}

/// All components of `name` are plain names: no root, prefix, `.` or `..`,
/// so joining it to a directory stays inside that directory.
pub open spec fn stays_inside(name: Seq<char>) -> bool {
    forall|i: int| 0 <= i < components_of(name).len() ==> #[trigger] components_of(name)[i] is Normal
}

fn all_normal(name: &str) -> (r: bool)
    ensures
        r == stays_inside(name@),
{
    let cs = path_components(name);
    let mut i: usize = 0;
    while i < cs.len()
        invariant
            i <= cs@.len(),
            comp_views(cs@) == components_of(name@),
            forall|k: int| 0 <= k < i ==> #[trigger] components_of(name@)[k] is Normal,
        decreases cs.len() - i,
    {
        assert(comp_views(cs@)[i as int] == comp_view(cs@[i as int]));
        match &cs[i] {
            Comp::Normal(_) => {},
            _ => {
                return false;
            },
        }
        i += 1;
    }
    true
}

/// Rejects names that could escape the content directory.
pub fn safe_join(content_dir: &str, name: &str) -> (r: Result<String, String>)
    ensures
        r is Ok <==> stays_inside(name@),
        r is Ok ==> r->Ok_0@ == joined_path(content_dir@, name@),
        r is Err ==> r->Err_0@ == "Invalid writing name: "@ + name@,
{
    if !all_normal(name) {
        let mut e = "Invalid writing name: ".to_owned();
        push_str(&mut e, name);
        return Err(e);
    }
    Ok(path_join(content_dir, name))
}

/// Per-binder compile settings live in `<binder>/.compile.json`, so they move
/// and sync with the binder. Hidden files stay out of the binder tree and index.
pub const COMPILE_SETTINGS_FILE: &'static str = ".compile.json";

/// Where a binder's compile settings are kept; the binder must be one plain
/// top-level name.
pub fn compile_settings_path(content_dir: &str, binder: &str) -> (r: Result<String, String>)
    ensures
        r is Ok <==> (binder@.len() > 0 && !binder@.contains('/') && !binder@.contains('\\') && stays_inside(binder@)),
        r is Ok ==> r->Ok_0@ == joined_path(joined_path(content_dir@, binder@), COMPILE_SETTINGS_FILE@),
        r is Err ==> (r->Err_0@ == "Invalid binder: "@ + binder@ || r->Err_0@ == "Invalid writing name: "@ + binder@),
{
    let v = chars_of(binder);
    let mut bad = v.len() == 0;
    let mut i: usize = 0;
    while i < v.len()
        invariant
            i <= v@.len(),
            v@ == binder@,
            bad == (v@.len() == 0 || exists|k: int| 0 <= k < i && (v@[k] == '/' || v@[k] == '\\')),
        decreases v.len() - i,
    {
        if v[i] == '/' || v[i] == '\\' {
            bad = true;
        }
        i += 1;
    }
    proof {
        if !bad {
            assert(!binder@.contains('/')) by {
                if binder@.contains('/') {
                    let k = choose|k: int| 0 <= k < binder@.len() && binder@[k] == '/';
                    assert(v@[k] == '/');
                }
            }
            assert(!binder@.contains('\\')) by {
                if binder@.contains('\\') {
                    let k = choose|k: int| 0 <= k < binder@.len() && binder@[k] == '\\';
                    assert(v@[k] == '\\');
                }
            }
        } else if v@.len() > 0 {
            let k = choose|k: int| 0 <= k < v@.len() && (v@[k] == '/' || v@[k] == '\\');
            assert(binder@[k] == '/' || binder@[k] == '\\');
        }
    }
    if bad {
        let mut e = "Invalid binder: ".to_owned();
        push_str(&mut e, binder);
        return Err(e);
    }
    match safe_join(content_dir, binder) {
        Ok(dir) => Ok(path_join(dir.as_str(), COMPILE_SETTINGS_FILE)),
        Err(e) => Err(e),
    }
}

} // verus!
