//! File-system paths as the library names them.

use vstd::prelude::*;

verus! {

#[verifier::external_type_specification]
#[verifier::external_body]
pub struct ExPath(std::path::Path);

#[verifier::external_type_specification]
#[verifier::external_body]
pub struct ExPathBuf(std::path::PathBuf);

/// The path `relative` appended to `dir`, as `Path::join` gives it.
pub uninterp spec fn joined_path(dir: Seq<char>, relative: Seq<char>) -> Seq<char>;

/// `Path::join`, on paths given as text: `relative` appended to `dir` (or
/// `relative` alone when it is absolute). The result depends on the two texts
/// alone and is named `joined_path`; the rules are not restated.
#[verifier::external_body]
pub(crate) fn path_join(dir: &str, relative: &str) -> (r: String)
    ensures
        r@ == joined_path(dir@, relative@),
{
    std::path::Path::new(dir).join(relative).to_string_lossy().into_owned()
}

/// The final component of a path without its extension, as `Path::file_stem`
/// gives it.
pub uninterp spec fn stem_of_path(p: Seq<char>) -> Option<Seq<char>>;

/// `Path::file_stem`, on a path given as text. Named `stem_of_path`.
#[verifier::external_body]
pub(crate) fn file_stem_text(p: &str) -> (r: Option<String>)
    ensures
        match (r, stem_of_path(p@)) {
            (Some(a), Some(b)) => a@ == b,
            (None, None) => true,
            _ => false,
        },
{
    std::path::Path::new(p).file_stem().and_then(|stem| stem.to_str()).map(|stem| stem.to_string())
}

/// `p` with its final component replaced by `name`, as `Path::with_file_name` gives it.
pub uninterp spec fn renamed_path(p: Seq<char>, name: Seq<char>) -> Seq<char>;

/// `Path::with_file_name`, on paths given as text. Named `renamed_path`.
#[verifier::external_body]
pub(crate) fn with_file_name(p: &str, name: &str) -> (r: String)
    ensures
        r@ == renamed_path(p@, name@),
{
    std::path::Path::new(p).with_file_name(name).to_string_lossy().into_owned()
}

/// `PathBuf::from`: the text as a path. Paths are opaque here; nothing is
/// claimed of it.
#[verifier::external_body]
pub(crate) fn path_buf(p: String) -> std::path::PathBuf {
    std::path::PathBuf::from(p)
}

/// One component of a path, as `std::path::Component` names them.
#[derive(Debug, Clone)]
pub enum Comp {
    /// A Windows drive or share prefix.
    Prefix(String),
    Root,
    Cur,
    Parent,
    Normal(String),
}

/// A component as plain values.
pub enum CompView {
    Prefix(Seq<char>),
    Root,
    Cur,
    Parent,
    Normal(Seq<char>),
}

pub open spec fn comp_view(c: Comp) -> CompView {
    match c {
        Comp::Prefix(p) => CompView::Prefix(p@),
        Comp::Root => CompView::Root,
        Comp::Cur => CompView::Cur,
        Comp::Parent => CompView::Parent,
        Comp::Normal(n) => CompView::Normal(n@),
    }
}

pub open spec fn comp_views(cs: Seq<Comp>) -> Seq<CompView> {
    cs.map_values(|c: Comp| comp_view(c))
}

/// The components of a path, as `Path::components` parses them.
pub uninterp spec fn components_of(p: Seq<char>) -> Seq<CompView>;

/// `Path::components`: a path split into its root, `.`, `..` and named parts,
/// repeated separators and inner `.` dropped. The parse depends on the text
/// alone and is named `components_of`; its rules are not restated.
#[verifier::external_body]
pub(crate) fn path_components(p: &str) -> (r: Vec<Comp>)
    ensures
        comp_views(r@) == components_of(p@),
{
    std::path::Path::new(p)
        .components()
        .map(|c| match c {
            std::path::Component::Prefix(x) => Comp::Prefix(x.as_os_str().to_string_lossy().into_owned()),
            std::path::Component::RootDir => Comp::Root,
            std::path::Component::CurDir => Comp::Cur,
            std::path::Component::ParentDir => Comp::Parent,
            std::path::Component::Normal(n) => Comp::Normal(n.to_string_lossy().into_owned()),
        })
        .collect()
}

/// What is left of `path` after the leading components `root` has, as
/// `Path::strip_prefix` gives it; `None` when `root` is not a prefix.
pub uninterp spec fn stripped(path: Seq<char>, root: Seq<char>) -> Option<Seq<char>>;

/// `Path::strip_prefix`: the rest of `path` when its components start with
/// those of `root`, else an error. Named `stripped`; the matching rules are
/// not restated.
#[verifier::external_body]
pub(crate) fn strip_path_prefix(path: &str, root: &str) -> (r: Option<String>)
    ensures
        match (r, stripped(path@, root@)) {
            (Some(a), Some(b)) => a@ == b,
            (None, None) => true,
            _ => false,
        },
{
    std::path::Path::new(path).strip_prefix(root).ok().map(|rest| rest.to_string_lossy().into_owned())
}

/// Index of the last `c` in `s`, or -1.
pub open spec fn last_of(s: Seq<char>, c: char) -> int
    decreases s.len(),
{
    if s.len() == 0 {
        -1
    } else if s.last() == c {
        s.len() - 1
    } else {
        last_of(s.drop_last(), c)
    }
}

/// The last component, when it is a name.
pub open spec fn file_name_of(cs: Seq<CompView>) -> Option<Seq<char>> {
    if cs.len() > 0 && cs.last() is Normal {
        Some(cs.last()->Normal_0)
    } else {
        None
    }
}

/// A name's extension, as `Path::extension` gives it: what follows the last
/// `.`, when that `.` is not the first character.
pub open spec fn extension_of_name(n: Seq<char>) -> Option<Seq<char>> {
    let k = last_of(n, '.');
    if k > 0 { Some(n.skip(k + 1)) } else { None }
}

pub open spec fn extension_of(cs: Seq<CompView>) -> Option<Seq<char>> {
    match file_name_of(cs) {
        Some(n) => extension_of_name(n),
        None => None,
    }
}

/// The extension of the path with components `cs`.
pub fn extension_in(cs: &Vec<Comp>) -> (r: Option<String>)
    ensures
        match (r, extension_of(comp_views(cs@))) {
            (Some(a), Some(b)) => a@ == b,
            (None, None) => true,
            _ => false,
        },
{
    let n = cs.len();
    if n == 0 {
        return None;
    }
    assert(comp_views(cs@).last() == comp_view(cs@[n - 1]));
    match &cs[n - 1] {
        Comp::Normal(name) => {
            let v = crate::text::chars_of(name.as_str());
            let mut k = v.len();
            assert(v@.subrange(0, v@.len() as int) =~= v@);
            while k > 0 && v[k - 1] != '.'
                invariant
                    k <= v@.len(),
                    last_of(v@, '.') == last_of(v@.subrange(0, k as int), '.'),
                decreases k,
            {
                assert(v@.subrange(0, k as int).drop_last() =~= v@.subrange(0, k - 1));
                k -= 1;
            }
            proof {
                assert(v@.subrange(0, v@.len() as int) =~= v@);
                if k > 0 {
                    assert(v@.subrange(0, k as int).last() == v@[k - 1]);
                } else {
                    assert(v@.subrange(0, 0) =~= Seq::<char>::empty());
                }
            }
            if k > 1 {
                assert(v@.skip(k as int) =~= v@.subrange(k as int, v@.len() as int));
                Some(crate::text::string_of(&v, k, v.len()))
            } else {
                None
            }
        },
        _ => None,
    }
}

} // verus!
