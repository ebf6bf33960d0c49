//! Keeping the search index in step with the notes: which watcher events
//! matter, and when a file's metadata can be trusted.

use vstd::prelude::*;
use vstd::string::*;
use crate::dropbox::{hex_encode, hex_lower, sha256, sha256_digest};
use crate::paths::{
    comp_view, comp_views, components_of, extension_in, extension_of, path_components, stripped,
    strip_path_prefix, Comp, CompView,
};
use crate::text::{push_str, same_text};

verus! {

/// A file modified this close to when it was last checked may have changed
/// again within the same mtime tick, so its mtime isn't trusted (git calls
/// this "racily clean").
pub const RACY_WINDOW_MS: i64 = 2000;

/// The extension of notes.
pub const NOTE_EXTENSION: &'static str = "md";

/// What the index knows of a note: its metadata when last indexed, its
/// content hash, and when that was checked.
#[derive(Clone, Debug, PartialEq, Eq)]
pub struct Entry {
    pub mtime_ms: i64,
    pub size: u64,
    pub hash: String,
    pub checked_at_ms: i64,
}

impl Entry {
    /// Whether the file can be assumed unchanged from its metadata alone:
    /// same mtime and size, and checked well after it was last written.
    pub fn matches(&self, mtime_ms: i64, size: u64) -> (r: bool)
        requires
            i64::MIN <= self.checked_at_ms - self.mtime_ms <= i64::MAX,
        ensures
            r == (self.mtime_ms == mtime_ms && self.size == size && self.checked_at_ms - self.mtime_ms
                > RACY_WINDOW_MS),
    {
        self.mtime_ms == mtime_ms && self.size == size && self.checked_at_ms - self.mtime_ms > RACY_WINDOW_MS
    }
}

/// The SHA-256 of a note's text, in hex.
pub fn content_hash(content: &str) -> (r: String)
    ensures
        r@ == hex_lower(sha256(content.spec_bytes())),
{
    let digest = sha256_digest(content.as_bytes());
    hex_encode(digest.as_slice())
}

/// A named component that starts with a dot.
pub open spec fn is_hidden(c: CompView) -> bool {
    c matches CompView::Normal(n) && n.len() > 0 && n[0] == '.'
}

/// Whether a watcher event's path under `root` can affect the index: a note,
/// or a folder that might hold notes, and nothing hidden on the way.
pub open spec fn note_path(root: Seq<char>, path: Seq<char>) -> bool {
    match stripped(path, root) {
        None => false,
        Some(rel) => {
            let cs = components_of(rel);
            &&& forall|j: int| 0 <= j < cs.len() ==> !is_hidden(#[trigger] cs[j])
            &&& match extension_of(cs) {
                Some(e) => e == NOTE_EXTENSION@,
                None => true,
            }
        },
    }
}

fn any_hidden(cs: &Vec<Comp>) -> (r: bool)
    ensures
        r == exists|j: int| 0 <= j < cs@.len() && is_hidden(#[trigger] comp_views(cs@)[j]),
{
    let mut i: usize = 0;
    while i < cs.len()
        invariant
            i <= cs@.len(),
            forall|j: int| 0 <= j < i ==> !is_hidden(#[trigger] comp_views(cs@)[j]),
        decreases cs.len() - i,
    {
        assert(comp_views(cs@)[i as int] == comp_view(cs@[i as int]));
        match &cs[i] {
            Comp::Normal(n) => {
                let v = crate::text::chars_of(n.as_str());
                if v.len() > 0 && v[0] == '.' {
                    return true;
                }
            },
            _ => {},
        }
        i += 1;
    }
    false
}

/// Whether a watcher event under `root` can affect the index: a note, or a
/// folder that might hold notes. Hidden paths (`.git`, editor swap folders)
/// are ignored, so a git pull's object writes don't each start a pass.
pub fn is_note_path(root: &str, path: &str) -> (r: bool)
    ensures
        r == note_path(root@, path@),
{
    match strip_path_prefix(path, root) {
        None => false,
        Some(rel) => {
            let cs = path_components(rel.as_str());
            if any_hidden(&cs) {
                return false;
            }
            match extension_in(&cs) {
                Some(e) => same_text(e.as_str(), NOTE_EXTENSION),
                None => true,
            }
        },
    }
}

/// What a batch of watcher events asks the indexer to look at.
#[derive(Debug, PartialEq, Eq)]
pub enum WatchChange {
    Nothing,
    /// Only these notes changed (created, edited, renamed or deleted); each
    /// path once, as paths compare (by their components).
    Notes(Vec<String>),
    /// A folder changed, which may have moved or removed any number of notes.
    Everything,
}

/// A note path with no extension: a folder that may have held notes.
pub open spec fn folder_change(root: Seq<char>, path: Seq<char>) -> bool {
    note_path(root, path) && extension_of(components_of(path)) is None
}

fn same_components(a: &Vec<Comp>, b: &Vec<Comp>) -> (r: bool)
    ensures
        r == (comp_views(a@) == comp_views(b@)),
{
    if a.len() != b.len() {
        return false;
    }
    let mut i: usize = 0;
    while i < a.len()
        invariant
            a@.len() == b@.len(),
            i <= a@.len(),
            forall|j: int| 0 <= j < i ==> comp_view(#[trigger] a@[j]) == comp_view(b@[j]),
        decreases a.len() - i,
    {
        let same = match (&a[i], &b[i]) {
            (Comp::Prefix(x), Comp::Prefix(y)) => same_text(x.as_str(), y.as_str()),
            (Comp::Root, Comp::Root) => true,
            (Comp::Cur, Comp::Cur) => true,
            (Comp::Parent, Comp::Parent) => true,
            (Comp::Normal(x), Comp::Normal(y)) => same_text(x.as_str(), y.as_str()),
            _ => false,
        };
        if !same {
            assert(comp_views(a@)[i as int] != comp_views(b@)[i as int]);
            return false;
        }
        i += 1;
    }
    assert(comp_views(a@) =~= comp_views(b@));
    true
}

/// Whether `x` is one of the events that are notes.
pub open spec fn from_note_event(root: Seq<char>, paths: Seq<&str>, x: Seq<char>) -> bool {
    exists|j: int| 0 <= j < paths.len() && note_path(root, paths[j]@) && paths[j]@ == x
}

/// Whether some listed path has the components `c`.
pub open spec fn listed(v: Seq<String>, c: Seq<CompView>) -> bool {
    exists|k: int| 0 <= k < v.len() && components_of(v[k]@) == c
}

/// Where among `known` a path with components `cs` already is.
fn find_components(known: &Vec<Vec<Comp>>, cs: &Vec<Comp>) -> (r: Option<usize>)
    ensures
        match r {
            Some(k) => k < known@.len() && comp_views(known@[k as int]@) == comp_views(cs@),
            None => forall|k: int| 0 <= k < known@.len() ==> comp_views(#[trigger] known@[k]@) != comp_views(cs@),
        },
{
    let mut k: usize = 0;
    while k < known.len()
        invariant
            k <= known@.len(),
            forall|m: int| 0 <= m < k ==> comp_views(#[trigger] known@[m]@) != comp_views(cs@),
        decreases known.len() - k,
    {
        if same_components(&known[k], cs) {
            return Some(k);
        }
        k += 1;
    }
    None
}

/// Sorts a batch of watcher events: `Everything` when a folder changed,
/// the changed notes when only notes did, `Nothing` when nothing that can
/// affect the index did.
#[verifier::rlimit(40)]
pub fn classify_changes(root: &str, paths: &[&str]) -> (r: WatchChange)
    ensures
        (exists|j: int| 0 <= j < paths@.len() && folder_change(root@, #[trigger] paths@[j]@)) ==> r
            == WatchChange::Everything,
        !(exists|j: int| 0 <= j < paths@.len() && folder_change(root@, #[trigger] paths@[j]@)) ==> match r {
            WatchChange::Everything => false,
            WatchChange::Nothing => forall|j: int| 0 <= j < paths@.len() ==> !note_path(root@, #[trigger] paths@[j]@),
            WatchChange::Notes(v) => {
                &&& v@.len() > 0
                &&& forall|k: int| 0 <= k < v@.len() ==> from_note_event(root@, paths@, #[trigger] v@[k]@)
                &&& forall|j: int| 0 <= j < paths@.len() && note_path(root@, #[trigger] paths@[j]@) ==> listed(v@, components_of(paths@[j]@))
                &&& forall|k: int, m: int| 0 <= k < m < v@.len() ==> components_of(#[trigger] v@[k]@) != components_of(#[trigger] v@[m]@)
            },
        },
{
    let mut notes: Vec<String> = Vec::new();
    let mut note_comps: Vec<Vec<Comp>> = Vec::new();
    // For each note, the event it came from; for each event that is a note,
    // the note with its components.
    let ghost mut origin: Seq<int> = Seq::empty();
    let ghost mut cover: Seq<int> = Seq::empty();
    let mut i: usize = 0;
    while i < paths.len()
        invariant
            i <= paths@.len(),
            notes@.len() == note_comps@.len() == origin.len(),
            cover.len() == i,
            forall|j: int| 0 <= j < i ==> !folder_change(root@, #[trigger] paths@[j]@),
            forall|k: int| 0 <= k < notes@.len() ==> comp_views(#[trigger] note_comps@[k]@) == components_of(notes@[k]@),
            forall|k: int|
                0 <= k < notes@.len() ==> 0 <= #[trigger] origin[k] < i && note_path(root@, paths@[origin[k]]@)
                    && paths@[origin[k]]@ == notes@[k]@,
            forall|j: int|
                0 <= j < i && note_path(root@, #[trigger] paths@[j]@) ==> 0 <= cover[j] < notes@.len()
                    && components_of(notes@[cover[j]]@) == components_of(paths@[j]@),
            forall|k: int, m: int| 0 <= k < m < notes@.len() ==> components_of(#[trigger] notes@[k]@) != components_of(#[trigger] notes@[m]@),
        decreases paths.len() - i,
    {
        let path: &str = paths[i];
        if is_note_path(root, path) {
            let cs = path_components(path);
            match extension_in(&cs) {
                None => {
                    assert(folder_change(root@, paths@[i as int]@));
                    return WatchChange::Everything;
                },
                Some(_) => {},
            }
            match find_components(&note_comps, &cs) {
                Some(k) => {
                    proof {
                        cover = cover.push(k as int);
                    }
                },
                None => {
                    proof {
                        cover = cover.push(notes@.len() as int);
                        origin = origin.push(i as int);
                        assert forall|m: int| 0 <= m < notes@.len() implies components_of(#[trigger] notes@[m]@) != components_of(path@) by {
                            assert(comp_views(note_comps@[m]@) != comp_views(cs@));
                        }
                    }
                    notes.push(path.to_owned());
                    note_comps.push(cs);
                },
            }
        } else {
            proof {
                cover = cover.push(0);
            }
        }
        i += 1;
    }
    proof {
        assert forall|k: int| 0 <= k < notes@.len() implies from_note_event(root@, paths@, #[trigger] notes@[k]@) by {
            let j = origin[k];
            assert(paths@[j]@ == notes@[k]@);
        }
        assert forall|j: int| 0 <= j < paths@.len() && note_path(root@, #[trigger] paths@[j]@) implies listed(notes@, components_of(paths@[j]@)) by {
            let k = cover[j];
            assert(components_of(notes@[k]@) == components_of(paths@[j]@));
        }
        if notes@.len() == 0 {
            assert forall|j: int| 0 <= j < paths@.len() implies !note_path(root@, #[trigger] paths@[j]@) by {
                if note_path(root@, paths@[j]@) {
                    assert(0 <= cover[j] < notes@.len());
                }
            }
        }
    }
    if notes.len() == 0 {
        WatchChange::Nothing
    } else {
        WatchChange::Notes(notes)
    }
}

/// The note name (`Novel/Chapter 1/Scene.md`) and folders of a relative
/// path's components, when all of them are names and there is at least one.
pub open spec fn name_and_folders(cs: Seq<CompView>) -> Option<(Seq<char>, Seq<Seq<char>>)> {
    if cs.len() > 0 && forall|j: int| 0 <= j < cs.len() ==> #[trigger] cs[j] is Normal {
        let names = cs.map_values(|c: CompView| c->Normal_0);
        let folders = names.drop_last();
        let name = if folders.len() == 0 {
            names.last()
        } else {
            crate::text::join(folders, seq!['/']) + seq!['/'] + names.last()
        };
        Some((name, folders))
    } else {
        None
    }
}

/// The note name and folders for a path under `root`.
pub open spec fn note_name_of(root: Seq<char>, path: Seq<char>) -> Option<(Seq<char>, Seq<Seq<char>>)> {
    match stripped(path, root) {
        None => None,
        Some(rel) => name_and_folders(components_of(rel)),
    }
}

/// The note name (`Novel/Chapter 1/Scene.md`, as `fs::File::name` spells it) and
/// its folders for a path under `root`, or `None` for a path outside it.
pub fn note_name(root: &str, path: &str) -> (r: Option<(String, Vec<String>)>)
    ensures
        match (r, note_name_of(root@, path@)) {
            (Some((n, f)), Some((sn, sf))) => n@ == sn && f@.map_values(|s: String| s@) == sf,
            (None, None) => true,
            _ => false,
        },
{
    let rel = match strip_path_prefix(path, root) {
        Some(r) => r,
        None => {
            return None;
        },
    };
    let cs = path_components(rel.as_str());
    let ghost views = comp_views(cs@);
    assert(stripped(path@, root@) == Some(rel@));
    let mut names: Vec<String> = Vec::new();
    let mut i: usize = 0;
    while i < cs.len()
        invariant
            i <= cs@.len(),
            views == comp_views(cs@),
            views == components_of(rel@),
            stripped(path@, root@) == Some(rel@),
            names@.len() == i,
            forall|j: int| 0 <= j < i ==> #[trigger] views[j] is Normal && views[j]->Normal_0 == names@[j]@,
        decreases cs.len() - i,
    {
        assert(views[i as int] == comp_view(cs@[i as int]));
        match &cs[i] {
            Comp::Normal(n) => {
                names.push(n.clone());
            },
            _ => {
                assert(!(views[i as int] is Normal));
                return None;
            },
        }
        i += 1;
    }
    if names.len() == 0 {
        return None;
    }
    let file = names.pop().unwrap();
    let ghost all = views.map_values(|c: CompView| c->Normal_0);
    assert(names@.map_values(|s: String| s@) =~= all.drop_last());
    let mut name = String::new();
    let mut k: usize = 0;
    while k < names.len()
        invariant
            k <= names@.len(),
            name@ == crate::text::join(names@.take(k as int).map_values(|s: String| s@), seq!['/']),
        decreases names.len() - k,
    {
        proof {
            assert(names@.take(k + 1).map_values(|s: String| s@) =~= names@.take(k as int).map_values(
                |s: String| s@,
            ).push(names@[k as int]@));
            crate::text::lemma_join_push(names@.take(k as int).map_values(|s: String| s@), names@[k as int]@, seq!['/']);
        }
        if k > 0 {
            name.push('/');
        }
        push_str(&mut name, names[k].as_str());
        k += 1;
    }
    assert(names@.take(names@.len() as int) =~= names@);
    if names.len() > 0 {
        name.push('/');
    }
    push_str(&mut name, file.as_str());
    Some((name, names))
}

/// How often, in indexed notes, the manifest is saved during a pass.
pub const SAVE_EVERY: usize = 25;

/// Whether the manifest is saved after the `done + 1`th note of a pass.
pub fn save_due(done: usize) -> (r: bool)
    requires
        done < usize::MAX,
    ensures
        r == ((done + 1) % (SAVE_EVERY as int) == 0),
{
    (done + 1) % SAVE_EVERY == 0
}

/// Whether a note's stamp vouches for it: same mtime and size as indexed,
/// and checked well after it was last written.
pub open spec fn stamp_fresh(e: Entry, mtime_ms: i64, size: u64) -> bool {
    e.mtime_ms == mtime_ms && e.size == size && e.checked_at_ms - e.mtime_ms > RACY_WINDOW_MS
}

/// The entry stored for `name` (the first, when there are several).
pub open spec fn entry_of(manifest: Seq<(String, Entry)>, name: Seq<char>) -> Option<Entry>
    decreases manifest.len(),
{
    if manifest.len() == 0 {
        None
    } else if manifest[0].0@ == name {
        Some(manifest[0].1)
    } else {
        entry_of(manifest.drop_first(), name)
    }
}

pub open spec fn names_of(v: Seq<String>) -> Seq<Seq<char>> {
    v.map_values(|s: String| s@)
}

pub open spec fn disk_names(on_disk: Seq<(String, i64, u64)>) -> Seq<Seq<char>> {
    on_disk.map_values(|f: (String, i64, u64)| f.0@)
}

/// `v` with the elements that fail `keep` left out, in order.
pub open spec fn kept_where<A>(v: Seq<A>, keep: spec_fn(A) -> bool) -> Seq<A>
    decreases v.len(),
{
    if v.len() == 0 {
        Seq::empty()
    } else if keep(v.last()) {
        kept_where(v.drop_last(), keep).push(v.last())
    } else {
        kept_where(v.drop_last(), keep)
    }
}

/// The database titles a full pass deletes: notes no longer on disk.
pub open spec fn titles_gone(in_db: Seq<Seq<char>>, on_disk: Seq<Seq<char>>) -> Seq<Seq<char>> {
    kept_where(in_db, |t: Seq<char>| !on_disk.contains(t))
}

/// The database titles still on disk.
pub open spec fn titles_kept(in_db: Seq<Seq<char>>, on_disk: Seq<Seq<char>>) -> Seq<Seq<char>> {
    kept_where(in_db, |t: Seq<char>| on_disk.contains(t))
}

/// A full pass starts the manifest over when forced or when it was indexed
/// under another embedding version.
pub open spec fn manifest_reset(full: bool, force: bool, version_ok: bool) -> bool {
    full && (force || !version_ok)
}

/// The manifest a pass works with: in a full pass, restarted when it must be
/// and without the notes gone from disk; as it is otherwise.
pub open spec fn pass_manifest(
    full: bool,
    force: bool,
    version_ok: bool,
    on_disk: Seq<Seq<char>>,
    manifest: Seq<(String, Entry)>,
) -> Seq<(String, Entry)> {
    if !full {
        manifest
    } else {
        let base = if manifest_reset(full, force, version_ok) { Seq::empty() } else { manifest };
        kept_where(base, |e: (String, Entry)| on_disk.contains(e.0@))
    }
}

/// Whether note `i` of `on_disk` can be skipped: it is in the database and its
/// stamp in the manifest vouches for it. A note missing from the database is
/// re-indexed whatever the manifest says.
pub open spec fn note_fresh(
    on_disk: Seq<(String, i64, u64)>,
    i: int,
    in_db: Seq<Seq<char>>,
    manifest: Seq<(String, Entry)>,
) -> bool {
    &&& in_db.contains(on_disk[i].0@)
    &&& entry_of(manifest, on_disk[i].0@) matches Some(e)
    &&& stamp_fresh(e, on_disk[i].1, on_disk[i].2)
}

/// What an indexing pass does before reading any note.
pub struct PassPlan {
    /// Database titles to delete (a full pass: notes gone from disk).
    pub delete: Vec<String>,
    /// The notes known to be in the database.
    pub in_db: Vec<String>,
    /// Whether the manifest's version must be set to the current one.
    pub reset: bool,
    /// The manifest to work with.
    pub manifest: Vec<(String, Entry)>,
    /// Whether the manifest changed.
    pub dirty: bool,
    /// The notes to index, by position in `on_disk`: most recently edited first.
    pub changed: Vec<usize>,
}

fn clone_entry(e: &Entry) -> (r: Entry)
    ensures
        r == *e,
{
    Entry { mtime_ms: e.mtime_ms, size: e.size, hash: e.hash.clone(), checked_at_ms: e.checked_at_ms }
}

fn lookup_entry(manifest: &Vec<(String, Entry)>, name: &str) -> (r: Option<usize>)
    ensures
        match r {
            Some(k) => k < manifest@.len() && entry_of(manifest@, name@) == Some(manifest@[k as int].1),
            None => entry_of(manifest@, name@) is None,
        },
{
    let mut i: usize = 0;
    assert(manifest@.skip(0) =~= manifest@);
    while i < manifest.len()
        invariant
            i <= manifest@.len(),
            entry_of(manifest@, name@) == entry_of(manifest@.skip(i as int), name@),
        decreases manifest.len() - i,
    {
        assert(manifest@.skip(i as int)[0] == manifest@[i as int]);
        assert(manifest@.skip(i as int).drop_first() =~= manifest@.skip(i + 1));
        if same_text(manifest[i].0.as_str(), name) {
            return Some(i);
        }
        i += 1;
    }
    None
}

fn listed_name(names: &Vec<String>, name: &str) -> (r: bool)
    ensures
        r == names_of(names@).contains(name@),
{
    let ghost v = names_of(names@);
    let mut i: usize = 0;
    while i < names.len()
        invariant
            i <= names@.len(),
            v == names_of(names@),
            forall|k: int| 0 <= k < i ==> v[k] != name@,
        decreases names.len() - i,
    {
        if same_text(names[i].as_str(), name) {
            assert(v[i as int] == name@);
            return true;
        }
        i += 1;
    }
    false
}

fn on_disk_has(on_disk: &Vec<(String, i64, u64)>, name: &str) -> (r: bool)
    ensures
        r == disk_names(on_disk@).contains(name@),
{
    let ghost v = disk_names(on_disk@);
    let mut i: usize = 0;
    while i < on_disk.len()
        invariant
            i <= on_disk@.len(),
            v == disk_names(on_disk@),
            forall|k: int| 0 <= k < i ==> v[k] != name@,
        decreases on_disk.len() - i,
    {
        if same_text(on_disk[i].0.as_str(), name) {
            assert(v[i as int] == name@);
            return true;
        }
        i += 1;
    }
    false
}

/// Note `x` of `on_disk` comes before note `y`: edited later, or at the same
/// time and listed first.
pub open spec fn edited_before(on_disk: Seq<(String, i64, u64)>, x: usize, y: usize) -> bool {
    on_disk[x as int].1 > on_disk[y as int].1 || (on_disk[x as int].1 == on_disk[y as int].1 && x < y)
}

/// The notes `v` are in order, most recently edited first.
pub open spec fn recent_first(on_disk: Seq<(String, i64, u64)>, v: Seq<usize>) -> bool {
    forall|a: int, b: int| 0 <= a < b < v.len() ==> edited_before(on_disk, #[trigger] v[a], #[trigger] v[b])
}

/// Puts note `i`, listed after every note in `changed`, in its place.
fn insert_recent(changed: &mut Vec<usize>, on_disk: &Vec<(String, i64, u64)>, i: usize)
    requires
        i < on_disk@.len(),
        recent_first(on_disk@, old(changed)@),
        forall|k: int| 0 <= k < old(changed)@.len() ==> #[trigger] old(changed)@[k] < i,
    ensures
        recent_first(on_disk@, final(changed)@),
        final(changed)@.contains(i),
        forall|x: usize| old(changed)@.contains(x) ==> final(changed)@.contains(x),
        forall|k: int| 0 <= k < final(changed)@.len() ==> #[trigger] final(changed)@[k] == i || old(changed)@.contains(final(changed)@[k]),
{
    let mt = on_disk[i].1;
    let mut p: usize = 0;
    while p < changed.len() && on_disk[changed[p]].1 >= mt
        invariant
            p <= changed@.len(),
            changed@ == old(changed)@,
            forall|k: int| 0 <= k < changed@.len() ==> #[trigger] changed@[k] < i,
            i < on_disk@.len(),
            mt == on_disk@[i as int].1,
            forall|k: int| 0 <= k < p ==> on_disk@[#[trigger] changed@[k] as int].1 >= mt,
        decreases changed.len() - p,
    {
        p += 1;
    }
    let ghost c0 = changed@;
    changed.insert(p, i);
    proof {
        assert(changed@ == c0.insert(p as int, i));
        assert forall|a: int, b: int| 0 <= a < b < changed@.len() implies edited_before(on_disk@, #[trigger] changed@[a], #[trigger] changed@[b]) by {
            if b < p {
                assert(changed@[a] == c0[a] && changed@[b] == c0[b]);
            } else if b == p {
                assert(changed@[a] == c0[a]);
            } else if a == p {
                assert(changed@[b] == c0[b - 1]);
                assert(on_disk@[c0[p as int] as int].1 < mt);
                if b - 1 > p {
                    assert(edited_before(on_disk@, c0[p as int], c0[b - 1]));
                }
            } else if a < p {
                assert(changed@[a] == c0[a] && changed@[b] == c0[b - 1]);
            } else {
                assert(changed@[a] == c0[a - 1] && changed@[b] == c0[b - 1]);
            }
        }
        assert(changed@[p as int] == i);
        assert forall|x: usize| c0.contains(x) implies changed@.contains(x) by {
            let k = choose|k: int| 0 <= k < c0.len() && c0[k] == x;
            if k < p {
                assert(changed@[k] == c0[k]);
            } else {
                assert(changed@[k + 1] == c0[k]);
            }
        }
        assert forall|k: int| 0 <= k < changed@.len() implies #[trigger] changed@[k] == i || c0.contains(changed@[k]) by {
            if k < p {
                assert(changed@[k] == c0[k]);
            } else if k > p {
                assert(changed@[k] == c0[k - 1]);
            }
        }
    }
}

/// Plans an indexing pass over the notes `on_disk` (name, mtime, size): in a
/// full pass (`full`), the database titles gone from disk are deleted and the
/// manifest is restarted (when `force`d or indexed under another version, not
/// `version_ok`) and trimmed to the notes on disk; `in_db` is the database's
/// titles then, or, in a pass over some notes, those of them found in it.
/// The notes to index are those not vouched for, most recently edited first.
pub fn plan_pass(
    full: bool,
    force: bool,
    version_ok: bool,
    on_disk: &Vec<(String, i64, u64)>,
    in_db: &Vec<String>,
    manifest: &Vec<(String, Entry)>,
) -> (r: PassPlan)
    ensures
        ({
            let disk = disk_names(on_disk@);
            let db = names_of(in_db@);
            let m = pass_manifest(full, force, version_ok, disk, manifest@);
            let known = if full { titles_kept(db, disk) } else { db };
            &&& names_of(r.delete@) == (if full { titles_gone(db, disk) } else { Seq::empty() })
            &&& names_of(r.in_db@) == known
            &&& r.reset == manifest_reset(full, force, version_ok)
            &&& r.manifest@ == m
            &&& r.dirty == (full && (manifest_reset(full, force, version_ok) || m.len() != (if manifest_reset(full, force, version_ok) { 0 } else { manifest@.len() })))
            &&& forall|k: int| 0 <= k < r.changed@.len() ==> r.changed@[k] < on_disk@.len()
                && !note_fresh(on_disk@, #[trigger] r.changed@[k] as int, known, m)
            &&& forall|i: int| 0 <= i < on_disk@.len() && !note_fresh(on_disk@, i, known, m) ==> r.changed@.contains(i as usize)
            &&& recent_first(on_disk@, r.changed@)
        }),
{
    let ghost disk = disk_names(on_disk@);
    let ghost db = names_of(in_db@);
    let reset = full && (force || !version_ok);
    // Database titles: deleted when gone from disk, known when still there.
    let mut delete: Vec<String> = Vec::new();
    let mut known: Vec<String> = Vec::new();
    let mut i: usize = 0;
    assert(db.take(0) =~= Seq::<Seq<char>>::empty());
    assert(names_of(delete@) =~= Seq::<Seq<char>>::empty());
    assert(names_of(known@) =~= Seq::<Seq<char>>::empty());
    while i < in_db.len()
        invariant
            i <= in_db@.len(),
            db == names_of(in_db@),
            disk == disk_names(on_disk@),
            names_of(delete@) == (if full { titles_gone(db.take(i as int), disk) } else { Seq::empty() }),
            names_of(known@) == (if full { titles_kept(db.take(i as int), disk) } else { db.take(i as int) }),
        decreases in_db.len() - i,
    {
        let t = &in_db[i];
        assert(db.take(i + 1).drop_last() =~= db.take(i as int));
        assert(db.take(i + 1).last() == t@);
        let ghost d0 = names_of(delete@);
        let ghost k0 = names_of(known@);
        if full && !on_disk_has(on_disk, t.as_str()) {
            delete.push(t.clone());
            assert(names_of(delete@) =~= d0.push(t@));
            assert(names_of(known@) == titles_kept(db.take(i + 1), disk));
        } else {
            known.push(t.clone());
            assert(names_of(known@) =~= k0.push(t@));
        }
        i += 1;
    }
    assert(db.take(in_db@.len() as int) =~= db);
    // The manifest to work with.
    let mut kept: Vec<(String, Entry)> = Vec::new();
    let ghost base = if reset { Seq::<(String, Entry)>::empty() } else { manifest@ };
    let mut j: usize = 0;
    if full && !reset {
        assert(base.take(0) =~= Seq::<(String, Entry)>::empty());
        while j < manifest.len()
            invariant
                j <= manifest@.len(),
                base == manifest@,
                disk == disk_names(on_disk@),
                kept@ == kept_where(base.take(j as int), |e: (String, Entry)| disk.contains(e.0@)),
            decreases manifest.len() - j,
        {
            assert(base.take(j + 1).drop_last() =~= base.take(j as int));
            assert(base.take(j + 1).last() == manifest@[j as int]);
            if on_disk_has(on_disk, manifest[j].0.as_str()) {
                kept.push((manifest[j].0.clone(), clone_entry(&manifest[j].1)));
            }
            j += 1;
        }
        assert(base.take(manifest@.len() as int) =~= base);
    } else if !full {
        while j < manifest.len()
            invariant
                j <= manifest@.len(),
                kept@ == manifest@.take(j as int),
            decreases manifest.len() - j,
        {
            kept.push((manifest[j].0.clone(), clone_entry(&manifest[j].1)));
            assert(manifest@.take(j + 1) =~= manifest@.take(j as int).push(manifest@[j as int]));
            j += 1;
        }
        assert(manifest@.take(manifest@.len() as int) =~= manifest@);
    } else {
        assert(kept@ =~= kept_where(Seq::<(String, Entry)>::empty(), |e: (String, Entry)| disk.contains(e.0@)));
    }
    let ghost m = pass_manifest(full, force, version_ok, disk, manifest@);
    assert(kept@ == m);
    let dirty = full && (reset || kept.len() != (if reset { 0 } else { manifest.len() }));
    // The notes not vouched for, most recently edited first (ties in order).
    let ghost kn = names_of(known@);
    let mut changed: Vec<usize> = Vec::new();
    let mut i: usize = 0;
    while i < on_disk.len()
        invariant
            i <= on_disk@.len(),
            kn == names_of(known@),
            kept@ == m,
            forall|k: int| 0 <= k < changed@.len() ==> changed@[k] < i && !note_fresh(on_disk@, #[trigger] changed@[k] as int, kn, m),
            forall|x: int| 0 <= x < i && !note_fresh(on_disk@, x, kn, m) ==> changed@.contains(x as usize),
            recent_first(on_disk@, changed@),
        decreases on_disk.len() - i,
    {
        let name = on_disk[i].0.as_str();
        let in_db_now = listed_name(&known, name);
        let fresh = in_db_now && match lookup_entry(&kept, name) {
            Some(k) => {
                let e = &kept[k].1;
                e.mtime_ms == on_disk[i].1 && e.size == on_disk[i].2
                    && (e.checked_at_ms as i128) - (e.mtime_ms as i128) > (RACY_WINDOW_MS as i128)
            },
            None => false,
        };
        assert(fresh == note_fresh(on_disk@, i as int, kn, m));
        if !fresh {
            let ghost c0 = changed@;
            insert_recent(&mut changed, on_disk, i);
            proof {
                assert forall|x: int| 0 <= x < i + 1 && !note_fresh(on_disk@, x, kn, m) implies changed@.contains(x as usize) by {
                    if x != i {
                        assert(c0.contains(x as usize));
                    }
                }
                assert forall|k: int| 0 <= k < changed@.len() implies changed@[k] < i + 1
                    && !note_fresh(on_disk@, #[trigger] changed@[k] as int, kn, m) by {
                    if changed@[k] != i {
                        let q = choose|q: int| 0 <= q < c0.len() && c0[q] == changed@[k];
                        assert(c0[q] < i && !note_fresh(on_disk@, c0[q] as int, kn, m));
                    }
                }
            }
        }
        i += 1;
    }
    PassPlan { delete, in_db: known, reset, manifest: kept, dirty, changed }
}

/// Whether a note's text must be embedded again: unless it is in the database
/// and the manifest holds the same text hash.
pub fn needs_embedding(in_db: bool, entry: Option<&Entry>, hash: &str) -> (r: bool)
    ensures
        r == !(in_db && match entry {
            Some(e) => e.hash@ == hash@,
            None => false,
        }),
{
    !(in_db && match entry {
        Some(e) => same_text(e.hash.as_str(), hash),
        None => false,
    })
}

} // verus!
