//! Writings on disk as the app lists them.

use vstd::prelude::*;
use crate::paths::{comp_view, comp_views, components_of, extension_in, extension_of, file_name_of, path_components, Comp};
use crate::text::{join, lemma_join_push, push_str};

verus! {

/// The extension of writings.
pub const DEFAULT_EXTENSION: &'static str = "md";

/// A writing: where it is, its name under the content directory
/// (`Novel/Chapter 1/Scene 1.md`), when it last changed (seconds since the
/// epoch, 0 when unknown) and its binder.
#[derive(Debug, Clone, PartialEq, Eq)]
pub struct File {
    pub path: String,
    pub name: String,
    pub last_modified: u64,
    pub folder: Option<String>,
}

pub open spec fn texts_of(v: Seq<String>) -> Seq<Seq<char>> {
    v.map_values(|s: String| s@)
}

/// The name of a writing in `dirs` with file name `base`.
pub open spec fn name_in(dirs: Seq<Seq<char>>, base: Seq<char>) -> Seq<char> {
    if dirs.len() == 0 { base } else { join(dirs, seq!['/']) + seq!['/'] + base }
}

/// The file name of a path, or nothing.
pub open spec fn base_name(path: Seq<char>) -> Seq<char> {
    match file_name_of(components_of(path)) {
        Some(n) => n,
        None => Seq::empty(),
    }
}

impl File {
    pub fn new(path: String, modified: Option<u64>) -> (f: File)
        ensures
            f.path@ == path@,
            f.name@ == base_name(path@),
            f.last_modified == match modified { Some(t) => t, None => 0 },
            f.folder is None,
    {
        let r = Self::with_relative_dir(path, modified, Vec::new());
        assert(texts_of(Seq::<String>::empty()) =~= Seq::<Seq<char>>::empty());
        r
    }

    /// `folder`, if given, is treated as the single top-level directory the file
    /// lives in. Kept for callers that only ever deal with one level of nesting.
    pub fn with_folder(path: String, modified: Option<u64>, folder: Option<String>) -> (f: File)
        ensures
            f.path@ == path@,
            f.name@ == match folder {
                Some(d) => d@ + seq!['/'] + base_name(path@),
                None => base_name(path@),
            },
            f.last_modified == match modified { Some(t) => t, None => 0 },
            match (f.folder, folder) {
                (Some(a), Some(b)) => a@ == b@,
                (None, None) => true,
                _ => false,
            },
    {
        let mut dirs: Vec<String> = Vec::new();
        match folder {
            Some(d) => {
                dirs.push(d);
            },
            None => {},
        }
        proof {
            if dirs@.len() == 1 {
                assert(texts_of(dirs@) =~= seq![dirs@[0]@]);
                assert(join(seq![dirs@[0]@], seq!['/']) == dirs@[0]@);
            } else {
                assert(texts_of(dirs@) =~= Seq::<Seq<char>>::empty());
            }
        }
        Self::with_relative_dir(path, modified, dirs)
    }

    /// `relative_dir` is the chain of directory names from the content root down
    /// to (but not including) the file itself, e.g. `["Novel", "Chapter 1"]` for
    /// `Novel/Chapter 1/Scene 1.md`. `folder` is set to the first segment (the
    /// binder), matching the flat binder model callers filter by.
    pub fn with_relative_dir(path: String, modified: Option<u64>, relative_dir: Vec<String>) -> (f: File)
        ensures
            f.path@ == path@,
            f.name@ == name_in(texts_of(relative_dir@), base_name(path@)),
            f.last_modified == match modified { Some(t) => t, None => 0 },
            relative_dir@.len() == 0 ==> f.folder is None,
            relative_dir@.len() > 0 ==> (f.folder matches Some(d) && d@ == relative_dir@[0]@),
    {
        let cs = path_components(path.as_str());
        let n = cs.len();
        let base = if n > 0 {
            assert(comp_views(cs@).last() == comp_view(cs@[n - 1]));
            match &cs[n - 1] {
                Comp::Normal(name) => name.clone(),
                _ => String::new(),
            }
        } else {
            String::new()
        };
        assert(base@ == base_name(path@));
        let mut name = String::new();
        let mut k: usize = 0;
        while k < relative_dir.len()
            invariant
                k <= relative_dir@.len(),
                name@ == join(texts_of(relative_dir@.take(k as int)), seq!['/']),
            decreases relative_dir.len() - k,
        {
            proof {
                assert(texts_of(relative_dir@.take(k + 1)) =~= texts_of(relative_dir@.take(k as int)).push(relative_dir@[k as int]@));
                lemma_join_push(texts_of(relative_dir@.take(k as int)), relative_dir@[k as int]@, seq!['/']);
            }
            if k > 0 {
                name.push('/');
            }
            push_str(&mut name, relative_dir[k].as_str());
            k += 1;
        }
        assert(relative_dir@.take(relative_dir@.len() as int) =~= relative_dir@);
        if relative_dir.len() > 0 {
            name.push('/');
        }
        push_str(&mut name, base.as_str());
        assert(name@ =~= name_in(texts_of(relative_dir@), base_name(path@)));
        let folder = if relative_dir.len() > 0 { Some(relative_dir[0].clone()) } else { None };
        let last_modified = match modified {
            Some(t) => t,
            None => 0,
        };
        File { path, name, last_modified, folder }
    }

    /// The extension of the writing's file.
    pub fn extension(&self) -> (r: Option<String>)
        ensures
            match (r, extension_of(components_of(self.path@))) {
                (Some(a), Some(b)) => a@ == b,
                (None, None) => true,
                _ => false,
            },
    {
        let cs = path_components(self.path.as_str());
        extension_in(&cs)
    }
}

/// Positions `0..n`, each once: an order of `n` things.
pub open spec fn is_order(r: Seq<usize>, n: int) -> bool {
    &&& r.len() == n
    &&& forall|k: int| 0 <= k < n ==> #[trigger] r[k] < n
    &&& forall|a: int, b: int| 0 <= a < b < n ==> #[trigger] r[a] != #[trigger] r[b]
}

/// Writing `x` is listed before `y` among the recent ones: it changed later,
/// or at the same time and was found first.
pub open spec fn newer_first(modified: Seq<u64>, x: int, y: int) -> bool {
    modified[x] > modified[y] || (modified[x] == modified[y] && x < y)
}

/// `a` comes before `b` in the order of Rust's `str` comparison: by code
/// point, and a prefix before what extends it.
pub open spec fn text_lt(a: Seq<char>, b: Seq<char>) -> bool
    decreases a.len(),
{
    if a.len() == 0 {
        b.len() > 0
    } else if b.len() == 0 {
        false
    } else if a[0] != b[0] {
        a[0] < b[0]
    } else {
        text_lt(a.drop_first(), b.drop_first())
    }
}

/// Name `x` is listed before name `y`: it sorts first, or it is the same name
/// and was found first.
pub open spec fn name_first(names: Seq<Seq<char>>, x: int, y: int) -> bool {
    text_lt(names[x], names[y]) || (names[x] == names[y] && x < y)
}

/// Of two different texts, one sorts before the other; none before itself.
pub proof fn lemma_text_lt_total(a: Seq<char>, b: Seq<char>)
    ensures
        !text_lt(a, a),
        a != b ==> text_lt(a, b) || text_lt(b, a),
        !(text_lt(a, b) && text_lt(b, a)),
    decreases a.len(),
{
    if a.len() > 0 && b.len() > 0 {
        lemma_text_lt_total(a.drop_first(), b.drop_first());
        if a[0] == b[0] && a != b {
            assert(a =~= seq![a[0]] + a.drop_first());
            assert(b =~= seq![b[0]] + b.drop_first());
        }
        lemma_text_lt_total(a.drop_first(), a.drop_first());
    } else if a.len() > 0 {
        lemma_text_lt_total(a.drop_first(), a.drop_first());
    } else if b.len() == 0 {
        assert(a =~= b);
    }
}

pub proof fn lemma_text_lt_transitive(a: Seq<char>, b: Seq<char>, c: Seq<char>)
    requires
        text_lt(a, b),
        text_lt(b, c),
    ensures
        text_lt(a, c),
    decreases a.len(),
{
    if a.len() > 0 && b.len() > 0 && c.len() > 0 && a[0] == b[0] && b[0] == c[0] {
        lemma_text_lt_transitive(a.drop_first(), b.drop_first(), c.drop_first());
    }
}

proof fn lemma_name_first_transitive(names: Seq<Seq<char>>, x: int, y: int, z: int)
    requires
        name_first(names, x, y),
        name_first(names, y, z),
    ensures
        name_first(names, x, z),
{
    if text_lt(names[x], names[y]) && text_lt(names[y], names[z]) {
        lemma_text_lt_transitive(names[x], names[y], names[z]);
    }
}

fn text_less(a: &Vec<char>, b: &Vec<char>) -> (r: bool)
    ensures
        r == text_lt(a@, b@),
{
    let mut i: usize = 0;
    assert(a@.skip(0) =~= a@ && b@.skip(0) =~= b@);
    while i < a.len() && i < b.len() && a[i] == b[i]
        invariant
            i <= a@.len(),
            i <= b@.len(),
            text_lt(a@, b@) == text_lt(a@.skip(i as int), b@.skip(i as int)),
        decreases a.len() - i,
    {
        assert(a@.skip(i as int).drop_first() =~= a@.skip(i + 1));
        assert(b@.skip(i as int).drop_first() =~= b@.skip(i + 1));
        i += 1;
    }
    if i == a.len() {
        i < b.len()
    } else if i == b.len() {
        false
    } else {
        a[i] < b[i]
    }
}

/// The order of names ascending, ties in the order they were found: how
/// `discover_files` lists writings by `File::name` and `list_folders` lists
/// folders. `names[r[k]]` is the `k`-th name listed.
pub fn name_order(names: &Vec<String>) -> (r: Vec<usize>)
    ensures
        is_order(r@, names@.len() as int),
        forall|a: int, b: int| 0 <= a < b < r@.len() ==> name_first(texts_of(names@), #[trigger] r@[a] as int, #[trigger] r@[b] as int),
{
    let ghost ns = texts_of(names@);
    let mut chars: Vec<Vec<char>> = Vec::new();
    let mut j: usize = 0;
    while j < names.len()
        invariant
            j <= names@.len(),
            ns == texts_of(names@),
            chars@.len() == j,
            forall|k: int| 0 <= k < j ==> #[trigger] chars@[k]@ == ns[k],
        decreases names.len() - j,
    {
        chars.push(crate::text::chars_of(names[j].as_str()));
        j += 1;
    }
    let mut r: Vec<usize> = Vec::new();
    let mut i: usize = 0;
    while i < names.len()
        invariant
            i <= names@.len(),
            ns == texts_of(names@),
            chars@.len() == names@.len(),
            forall|k: int| 0 <= k < names@.len() ==> #[trigger] chars@[k]@ == ns[k],
            r@.len() == i,
            forall|k: int| 0 <= k < i ==> #[trigger] r@[k] < i,
            forall|a: int, b: int| 0 <= a < b < i ==> #[trigger] r@[a] != #[trigger] r@[b],
            forall|a: int, b: int| 0 <= a < b < r@.len() ==> name_first(ns, #[trigger] r@[a] as int, #[trigger] r@[b] as int),
        decreases names.len() - i,
    {
        let mut p: usize = 0;
        while p < r.len() && !text_less(&chars[i], &chars[r[p]])
            invariant
                p <= r@.len(),
                i < names@.len(),
                chars@.len() == names@.len(),
                r@.len() == i,
                forall|k: int| 0 <= k < i ==> #[trigger] r@[k] < i,
                forall|k: int| 0 <= k < names@.len() ==> #[trigger] chars@[k]@ == ns[k],
                forall|k: int| 0 <= k < p ==> name_first(ns, #[trigger] r@[k] as int, i as int),
            decreases r.len() - p,
        {
            proof {
                lemma_text_lt_total(ns[i as int], ns[r@[p as int] as int]);
            }
            p += 1;
        }
        let ghost r0 = r@;
        proof {
            if p < r0.len() {
                assert(text_lt(ns[i as int], ns[r0[p as int] as int]));
            }
        }
        r.insert(p, i);
        proof {
            assert(r@ == r0.insert(p as int, i));
            assert forall|a: int, b: int| 0 <= a < b < r@.len() implies name_first(ns, #[trigger] r@[a] as int, #[trigger] r@[b] as int) by {
                if b < p {
                    assert(r@[a] == r0[a] && r@[b] == r0[b]);
                } else if b == p {
                    assert(r@[a] == r0[a]);
                } else if a == p {
                    assert(r@[b] == r0[b - 1]);
                    if b - 1 > p {
                        assert(name_first(ns, r0[p as int] as int, r0[b - 1] as int));
                        lemma_name_first_transitive(ns, i as int, r0[p as int] as int, r0[b - 1] as int);
                    }
                } else if a < p {
                    assert(r@[a] == r0[a] && r@[b] == r0[b - 1]);
                } else {
                    assert(r@[a] == r0[a - 1] && r@[b] == r0[b - 1]);
                }
            }
            assert forall|a: int, b: int| 0 <= a < b < i + 1 implies #[trigger] r@[a] != #[trigger] r@[b] by {
                if b < p {
                    assert(r@[a] == r0[a] && r@[b] == r0[b]);
                } else if b == p {
                    assert(r@[a] == r0[a]);
                } else if a == p {
                    assert(r@[b] == r0[b - 1]);
                } else if a < p {
                    assert(r@[a] == r0[a] && r@[b] == r0[b - 1]);
                } else {
                    assert(r@[a] == r0[a - 1] && r@[b] == r0[b - 1]);
                }
            }
            assert forall|k: int| 0 <= k < i + 1 implies #[trigger] r@[k] < i + 1 by {
                if k < p {
                    assert(r@[k] == r0[k]);
                } else if k > p {
                    assert(r@[k] == r0[k - 1]);
                }
            }
        }
        i += 1;
    }
    r
}

/// The order of the recent writings: last changed first, ties in the order
/// they were found, as `get_recent` sorts them. `modified[r[k]]` is the
/// `k`-th listed.
pub fn recent_order(modified: &Vec<u64>) -> (r: Vec<usize>)
    ensures
        is_order(r@, modified@.len() as int),
        forall|a: int, b: int| 0 <= a < b < r@.len() ==> newer_first(modified@, #[trigger] r@[a] as int, #[trigger] r@[b] as int),
{
    let mut r: Vec<usize> = Vec::new();
    let mut i: usize = 0;
    while i < modified.len()
        invariant
            i <= modified@.len(),
            r@.len() == i,
            forall|k: int| 0 <= k < i ==> #[trigger] r@[k] < i,
            forall|a: int, b: int| 0 <= a < b < i ==> #[trigger] r@[a] != #[trigger] r@[b],
            forall|a: int, b: int| 0 <= a < b < r@.len() ==> newer_first(modified@, #[trigger] r@[a] as int, #[trigger] r@[b] as int),
        decreases modified.len() - i,
    {
        let mt = modified[i];
        let mut p: usize = 0;
        while p < r.len() && modified[r[p]] >= mt
            invariant
                p <= r@.len(),
                i < modified@.len(),
                mt == modified@[i as int],
                r@.len() == i,
                forall|k: int| 0 <= k < i ==> #[trigger] r@[k] < i,
                forall|k: int| 0 <= k < p ==> newer_first(modified@, #[trigger] r@[k] as int, i as int),
            decreases r.len() - p,
        {
            p += 1;
        }
        let ghost r0 = r@;
        r.insert(p, i);
        proof {
            assert(r@ == r0.insert(p as int, i));
            assert forall|a: int, b: int| 0 <= a < b < r@.len() implies newer_first(modified@, #[trigger] r@[a] as int, #[trigger] r@[b] as int) by {
                if b < p {
                    assert(r@[a] == r0[a] && r@[b] == r0[b]);
                } else if b == p {
                    assert(r@[a] == r0[a]);
                } else if a == p {
                    assert(r@[b] == r0[b - 1]);
                    if b - 1 > p {
                        assert(newer_first(modified@, r0[p as int] as int, r0[b - 1] as int));
                    }
                } else if a < p {
                    assert(r@[a] == r0[a] && r@[b] == r0[b - 1]);
                } else {
                    assert(r@[a] == r0[a - 1] && r@[b] == r0[b - 1]);
                }
            }
            assert forall|a: int, b: int| 0 <= a < b < i + 1 implies #[trigger] r@[a] != #[trigger] r@[b] by {
                if b < p {
                    assert(r@[a] == r0[a] && r@[b] == r0[b]);
                } else if b == p {
                    assert(r@[a] == r0[a]);
                } else if a == p {
                    assert(r@[b] == r0[b - 1]);
                } else if a < p {
                    assert(r@[a] == r0[a] && r@[b] == r0[b - 1]);
                } else {
                    assert(r@[a] == r0[a - 1] && r@[b] == r0[b - 1]);
                }
            }
            assert forall|k: int| 0 <= k < i + 1 implies #[trigger] r@[k] < i + 1 by {
                if k < p {
                    assert(r@[k] == r0[k]);
                } else if k > p {
                    assert(r@[k] == r0[k - 1]);
                }
            }
        }
        i += 1;
    }
    r
}

/// A file or folder name the app skips: one starting with `.`.
pub open spec fn hidden_name(name: Seq<char>) -> bool {
    name.len() > 0 && name[0] == '.'
}

/// Whether `name` is hidden: `list_folders` and the writing scan skip such
/// folders and everything under them.
pub fn is_hidden(name: &str) -> (r: bool)
    ensures
        r == hidden_name(name@),
{
    let v = crate::text::chars_of(name);
    v.len() > 0 && v[0] == '.'
}

} // verus!
