//! Small association lists keyed by text, with their map views.

use vstd::prelude::*;

verus! {

/// The map a list of `(key, value)` entries stands for; later entries win.
pub open spec fn keyed<V>(s: Seq<(String, V)>) -> Map<Seq<char>, V>
    decreases s.len(),
{
    if s.len() == 0 {
        Map::empty()
    } else {
        keyed(s.drop_last()).insert(s.last().0@, s.last().1)
    }
}

/// No key occurs twice.
pub open spec fn keys_unique<V>(s: Seq<(String, V)>) -> bool {
    forall|i: int, j: int| 0 <= i < j < s.len() ==> #[trigger] s[i].0@ != #[trigger] s[j].0@
}

/// With distinct keys, an entry's key maps to its value, and a key that no
/// entry has is absent.
pub proof fn lemma_keyed_lookup<V>(s: Seq<(String, V)>)
    requires
        keys_unique(s),
    ensures
        forall|k: int| 0 <= k < s.len() ==> #[trigger] keyed(s).contains_key(s[k].0@) && keyed(s)[s[k].0@] == s[k].1,
        forall|key: Seq<char>| #[trigger] keyed(s).contains_key(key) ==> exists|k: int| 0 <= k < s.len() && s[k].0@ == key,
    decreases s.len(),
{
    if s.len() > 0 {
        let t = s.drop_last();
        assert forall|i: int, j: int| 0 <= i < j < t.len() implies #[trigger] t[i].0@ != #[trigger] t[j].0@ by {
            assert(t[i] == s[i] && t[j] == s[j]);
        }
        lemma_keyed_lookup(t);
        assert forall|k: int| 0 <= k < s.len() implies #[trigger] keyed(s).contains_key(s[k].0@) && keyed(s)[s[k].0@] == s[k].1 by {
            if k < s.len() - 1 {
                assert(s[k] == t[k]);
                assert(s[k].0@ != s.last().0@);
                assert(keyed(t).contains_key(t[k].0@));
            }
        }
        assert forall|key: Seq<char>| #[trigger] keyed(s).contains_key(key) implies exists|k: int| 0 <= k < s.len() && s[k].0@ == key by {
            if key != s.last().0@ {
                assert(keyed(t).contains_key(key));
                let k = choose|k: int| 0 <= k < t.len() && t[k].0@ == key;
                assert(s[k] == t[k]);
            } else {
                assert(s[s.len() - 1].0@ == key);
            }
        }
    }
}

/// Removing the entry at `k` removes its key.
pub proof fn lemma_keyed_remove<V>(s: Seq<(String, V)>, k: int)
    requires
        keys_unique(s),
        0 <= k < s.len(),
    ensures
        keys_unique(s.remove(k)),
        keyed(s.remove(k)) == keyed(s).remove(s[k].0@),
{
    let r = s.remove(k);
    assert forall|i: int, j: int| 0 <= i < j < r.len() implies #[trigger] r[i].0@ != #[trigger] r[j].0@ by {
        let i2 = if i < k { i } else { i + 1 };
        let j2 = if j < k { j } else { j + 1 };
        assert(r[i] == s[i2] && r[j] == s[j2]);
    }
    lemma_keyed_lookup(s);
    lemma_keyed_lookup(r);
    assert forall|key: Seq<char>| #[trigger] keyed(r).contains_key(key) <==> keyed(s).remove(s[k].0@).contains_key(key) by {
        if keyed(r).contains_key(key) {
            let i = choose|i: int| 0 <= i < r.len() && r[i].0@ == key;
            let i2 = if i < k { i } else { i + 1 };
            assert(r[i] == s[i2]);
        }
        if keyed(s).remove(s[k].0@).contains_key(key) {
            let i = choose|i: int| 0 <= i < s.len() && s[i].0@ == key;
            let i2 = if i < k { i } else { i - 1 };
            assert(r[i2] == s[i]);
        }
    }
    assert forall|key: Seq<char>| #[trigger] keyed(r).contains_key(key) implies keyed(r)[key] == keyed(s).remove(s[k].0@)[key] by {
        let i = choose|i: int| 0 <= i < r.len() && r[i].0@ == key;
        let i2 = if i < k { i } else { i + 1 };
        assert(r[i] == s[i2]);
    }
    assert(keyed(r) =~= keyed(s).remove(s[k].0@));
}

/// Appending an entry with a new key keeps keys distinct.
pub proof fn lemma_keyed_push<V>(s: Seq<(String, V)>, e: (String, V))
    requires
        keys_unique(s),
        !keyed(s).contains_key(e.0@),
    ensures
        keys_unique(s.push(e)),
        keyed(s.push(e)) == keyed(s).insert(e.0@, e.1),
{
    lemma_keyed_lookup(s);
    let t = s.push(e);
    assert(t.drop_last() =~= s);
    assert forall|i: int, j: int| 0 <= i < j < t.len() implies #[trigger] t[i].0@ != #[trigger] t[j].0@ by {
        if j == t.len() - 1 {
            assert(t[i] == s[i]);
            assert(keyed(s).contains_key(s[i].0@));
        } else {
            assert(t[i] == s[i] && t[j] == s[j]);
        }
    }
}

/// Replacing the value of the entry at `k` updates its key's value.
pub proof fn lemma_keyed_update<V>(s: Seq<(String, V)>, k: int, v: V)
    requires
        keys_unique(s),
        0 <= k < s.len(),
    ensures
        keys_unique(s.update(k, (s[k].0, v))),
        keyed(s.update(k, (s[k].0, v))) == keyed(s).insert(s[k].0@, v),
{
    let r = s.update(k, (s[k].0, v));
    assert forall|i: int, j: int| 0 <= i < j < r.len() implies #[trigger] r[i].0@ != #[trigger] r[j].0@ by {
        assert(r[i].0@ == s[i].0@ && r[j].0@ == s[j].0@);
    }
    lemma_keyed_lookup(s);
    lemma_keyed_lookup(r);
    assert forall|key: Seq<char>| #[trigger] keyed(r).contains_key(key) <==> keyed(s).insert(s[k].0@, v).contains_key(key) by {
        if keyed(r).contains_key(key) {
            let i = choose|i: int| 0 <= i < r.len() && r[i].0@ == key;
            assert(r[i].0@ == s[i].0@);
        }
        if keyed(s).contains_key(key) {
            let i = choose|i: int| 0 <= i < s.len() && s[i].0@ == key;
            assert(r[i].0@ == s[i].0@);
        }
    }
    assert forall|key: Seq<char>| #[trigger] keyed(r).contains_key(key) implies keyed(r)[key] == keyed(s).insert(s[k].0@, v)[key] by {
        let i = choose|i: int| 0 <= i < r.len() && r[i].0@ == key;
        if i != k {
            assert(r[i] == s[i]);
        }
    }
    assert(keyed(r) =~= keyed(s).insert(s[k].0@, v));
}

/// Position of the entry whose key is `key`.
pub fn find_key<V>(s: &Vec<(String, V)>, key: &String) -> (r: Option<usize>)
    requires
        keys_unique(s@),
    ensures
        match r {
            Some(k) => k < s@.len() && s@[k as int].0@ == key@,
            None => !keyed(s@).contains_key(key@),
        },
        r is Some <==> keyed(s@).contains_key(key@),
{
    proof {
        lemma_keyed_lookup(s@);
    }
    let mut k: usize = 0;
    while k < s.len()
        invariant
            k <= s@.len(),
            keys_unique(s@),
            forall|i: int| 0 <= i < k ==> s@[i].0@ != key@,
        decreases s@.len() - k,
    {
        if s[k].0 == *key {
            proof {
                lemma_keyed_lookup(s@);
                assert(keyed(s@).contains_key(s@[k as int].0@));
            }
            return Some(k);
        }
        k += 1;
    }
    None
}

} // verus!
