//! Answers the window asks for.

use vstd::prelude::*;
use crate::dropbox::pieces;
use crate::text::first_of;

verus! {

/// How much of the content is indexed for search, and whether indexing runs.
#[derive(Debug, Clone, Copy)]
pub struct IndexStatus {
    pub documents: usize,
    pub passages: usize,
    pub indexing: bool,
}

/// Index of the last `c` in `s`, if any.
pub open spec fn last_index(s: Seq<char>, c: char) -> Option<int>
    decreases s.len(),
{
    if s.len() == 0 {
        None
    } else if s.last() == c {
        Some(s.len() - 1)
    } else {
        last_index(s.drop_last(), c)
    }
}

/// The folders of a writing's name: what comes before its last `/`, split
/// at each `/`; none for a name without one.
pub open spec fn dir_segments(name: Seq<char>) -> Seq<Seq<char>> {
    match last_index(name, '/') {
        Some(k) => pieces(name.take(k), '/'),
        None => Seq::empty(),
    }
}

/// Splits `v[a..b]` at each `/`, as `str::split` does.
fn split_slashes(v: &Vec<char>, a: usize, b: usize) -> (r: Vec<String>)
    requires
        a <= b <= v.len(),
    ensures
        r@.map_values(|s: String| s@) == pieces(v@.subrange(a as int, b as int), '/'),
    decreases b - a,
{
    let mut k = a;
    while k < b && v[k] != '/'
        invariant
            a <= k <= b <= v.len(),
            forall|j: int| a <= j < k ==> v@[j] != '/',
        decreases b - k,
    {
        k += 1;
    }
    let ghost s = v@.subrange(a as int, b as int);
    proof {
        assert forall|j: int| 0 <= j < k - a implies s[j] != '/' by {
            assert(s[j] == v@[a + j]);
        }
        if k < b {
            assert(s[k - a] == v@[k as int]);
        }
        crate::text::lemma_first_of(s, '/', k - a);
    }
    let first = crate::text::string_of(v, a, k);
    assert(s.take(k - a) =~= v@.subrange(a as int, k as int));
    if k < b {
        let rest = split_slashes(v, k + 1, b);
        let mut out: Vec<String> = Vec::new();
        out.push(first);
        let mut i: usize = 0;
        let ghost rv = rest@.map_values(|x: String| x@);
        assert(rv.take(0) =~= Seq::<Seq<char>>::empty());
        assert(out@.map_values(|x: String| x@) =~= seq![s.take(k - a)] + rv.take(0));
        while i < rest.len()
            invariant
                i <= rest@.len(),
                rv == rest@.map_values(|x: String| x@),
                out@.map_values(|x: String| x@) == seq![s.take(k - a)] + rv.take(i as int),
            decreases rest.len() - i,
        {
            out.push(rest[i].clone());
            assert(rv.take(i + 1) =~= rv.take(i as int).push(rv[i as int]));
            assert(out@.map_values(|x: String| x@) =~= (seq![s.take(k - a)] + rv.take(i as int)).push(rv[i as int]));
            i += 1;
        }
        assert(rv.take(i as int) =~= rv);
        assert(s.skip(k - a + 1) =~= v@.subrange(k + 1, b as int));
        assert(s.take(k - a) =~= v@.subrange(a as int, k as int));
        out
    } else {
        let mut out: Vec<String> = Vec::new();
        out.push(first);
        assert(s.take(k - a) =~= s);
        assert(out@.map_values(|x: String| x@) =~= seq![s]);
        out
    }
}

/// The folders a writing's name puts it in: `Novel/Part 1/Scene.md` is in
/// `["Novel", "Part 1"]`.
pub fn relative_dir_segments(name: &str) -> (r: Vec<String>)
    ensures
        r@.map_values(|s: String| s@) == dir_segments(name@),
{
    let v = crate::text::chars_of(name);
    let mut k = v.len();
    assert(v@.take(v@.len() as int) =~= v@);
    while k > 0 && v[k - 1] != '/'
        invariant
            k <= v@.len(),
            last_index(v@, '/') == last_index(v@.take(k as int), '/'),
        decreases k,
    {
        assert(v@.take(k as int).drop_last() =~= v@.take(k - 1));
        k -= 1;
    }
    assert(v@.take(v@.len() as int) =~= v@);
    if k == 0 {
        assert(v@.take(0) =~= Seq::<char>::empty());
        let empty: Vec<String> = Vec::new();
        assert(empty@.map_values(|s: String| s@) =~= Seq::<Seq<char>>::empty());
        return empty;
    }
    assert(v@.take(k as int).last() == '/');
    assert(v@.take(k - 1) =~= v@.subrange(0, k - 1));
    split_slashes(&v, 0, k - 1)
}

} // verus!
