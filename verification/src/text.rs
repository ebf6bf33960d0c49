//! Character-level helpers shared by the rest of the library: Unicode
//! whitespace, trimming, and moving between `&str`, `String` and `Vec<char>`.

use vstd::prelude::*;
use vstd::string::*;

verus! {

/// `String::push` appends one character.
pub assume_specification[ String::push ](s: &mut String, ch: char)
    ensures
        final(s)@ == old(s)@.push(ch),
;

/// Unicode `White_Space`, the set `char::is_whitespace` tests.
pub open spec fn is_ws(c: char) -> bool {
    ||| ('\u{9}' <= c && c <= '\u{d}')
    ||| c == ' '
    ||| c == '\u{85}'
    ||| c == '\u{a0}'
    ||| c == '\u{1680}'
    ||| ('\u{2000}' <= c && c <= '\u{200a}')
    ||| c == '\u{2028}'
    ||| c == '\u{2029}'
    ||| c == '\u{202f}'
    ||| c == '\u{205f}'
    ||| c == '\u{3000}'
}

pub fn is_whitespace(c: char) -> (r: bool)
    ensures
        r == is_ws(c),
{
    ('\u{9}' <= c && c <= '\u{d}') || c == ' ' || c == '\u{85}' || c == '\u{a0}' || c == '\u{1680}'
        || ('\u{2000}' <= c && c <= '\u{200a}') || c == '\u{2028}' || c == '\u{2029}'
        || c == '\u{202f}' || c == '\u{205f}' || c == '\u{3000}'
}

/// The characters of `s`, in order.
pub fn chars_of(s: &str) -> (v: Vec<char>)
    ensures
        v@ == s@,
{
    let mut v: Vec<char> = Vec::new();
    for c in it: s.chars()
        invariant
            v@ == it.seq().take(it.index() as int),
    {
        v.push(c);
    }
    v
}

/// A `String` holding the characters of `v[from..to]`.
pub fn string_of(v: &Vec<char>, from: usize, to: usize) -> (s: String)
    requires
        from <= to <= v.len(),
    ensures
        s@ == v@.subrange(from as int, to as int),
{
    let mut s = String::new();
    let mut i = from;
    while i < to
        invariant
            from <= i <= to <= v.len(),
            s@ == v@.subrange(from as int, i as int),
        decreases to - i,
    {
        s.push(v[i]);
        i += 1;
    }
    s
}


/// `s` without leading whitespace.
pub open spec fn trim_start(s: Seq<char>) -> Seq<char>
    decreases s.len(),
{
    if s.len() > 0 && is_ws(s[0]) {
        trim_start(s.drop_first())
    } else {
        s
    }
}

/// `s` without trailing whitespace.
pub open spec fn trim_end(s: Seq<char>) -> Seq<char>
    decreases s.len(),
{
    if s.len() > 0 && is_ws(s.last()) {
        trim_end(s.drop_last())
    } else {
        s
    }
}

/// `s` without leading or trailing whitespace, as `str::trim` gives it.
pub open spec fn trim(s: Seq<char>) -> Seq<char> {
    trim_end(trim_start(s))
}

/// Index of the first non-whitespace character of `v[from..to]`, or `to`.
pub fn skip_ws(v: &Vec<char>, from: usize, to: usize) -> (lo: usize)
    requires
        from <= to <= v.len(),
    ensures
        from <= lo <= to,
        trim_start(v@.subrange(from as int, to as int)) == v@.subrange(lo as int, to as int),
        forall|k: int| from <= k < lo ==> is_ws(#[trigger] v@[k]),
        lo < to ==> !is_ws(v@[lo as int]),
{
    let mut lo = from;
    while lo < to && is_whitespace(v[lo])
        invariant
            from <= lo <= to <= v.len(),
            trim_start(v@.subrange(from as int, to as int)) == trim_start(
                v@.subrange(lo as int, to as int),
            ),
            forall|k: int| from <= k < lo ==> is_ws(#[trigger] v@[k]),
        decreases to - lo,
    {
        assert(v@.subrange(lo as int, to as int).drop_first() =~= v@.subrange(
            lo + 1,
            to as int,
        ));
        lo += 1;
    }
    lo
}

/// Index just past the last non-whitespace character of `v[from..to]`, or `from`.
pub fn skip_ws_back(v: &Vec<char>, from: usize, to: usize) -> (hi: usize)
    requires
        from <= to <= v.len(),
    ensures
        from <= hi <= to,
        trim_end(v@.subrange(from as int, to as int)) == v@.subrange(from as int, hi as int),
        forall|k: int| hi <= k < to ==> is_ws(#[trigger] v@[k]),
        from < hi ==> !is_ws(v@[hi - 1]),
{
    let mut hi = to;
    while hi > from && is_whitespace(v[hi - 1])
        invariant
            from <= hi <= to <= v.len(),
            trim_end(v@.subrange(from as int, to as int)) == trim_end(
                v@.subrange(from as int, hi as int),
            ),
            forall|k: int| hi <= k < to ==> is_ws(#[trigger] v@[k]),
        decreases hi - from,
    {
        assert(v@.subrange(from as int, hi as int).drop_last() =~= v@.subrange(
            from as int,
            hi - 1,
        ));
        hi -= 1;
    }
    hi
}

/// Bounds of `v[from..to]` with surrounding whitespace removed.
pub fn trim_range(v: &Vec<char>, from: usize, to: usize) -> (r: (usize, usize))
    requires
        from <= to <= v.len(),
    ensures
        from <= r.0 <= r.1 <= to,
        trim(v@.subrange(from as int, to as int)) == v@.subrange(r.0 as int, r.1 as int),
{
    let lo = skip_ws(v, from, to);
    let hi = skip_ws_back(v, lo, to);
    (lo, hi)
}

/// `s` with surrounding whitespace removed.
pub fn trimmed(s: &str) -> (t: String)
    ensures
        t@ == trim(s@),
{
    let v = chars_of(s);
    let (lo, hi) = trim_range(&v, 0, v.len());
    assert(v@.subrange(0, v@.len() as int) =~= v@);
    string_of(&v, lo, hi)
}

/// Whether two character sequences are equal.
pub fn same_chars(a: &Vec<char>, b: &Vec<char>) -> (r: bool)
    ensures
        r == (a@ == b@),
{
    if a.len() != b.len() {
        return false;
    }
    let mut i: usize = 0;
    while i < a.len()
        invariant
            a.len() == b.len(),
            i <= a.len(),
            forall|k: int| 0 <= k < i ==> a@[k] == b@[k],
        decreases a.len() - i,
    {
        if a[i] != b[i] {
            return false;
        }
        i += 1;
    }
    assert(a@ =~= b@);
    true
}

/// Whether `v[at..]` starts with `p`.
pub fn has_at(v: &Vec<char>, at: usize, p: &Vec<char>) -> (r: bool)
    requires
        at <= v.len(),
    ensures
        r == (at + p.len() <= v.len() && v@.subrange(at as int, at + p.len()) == p@),
{
    if p.len() > v.len() - at {
        return false;
    }
    let mut i: usize = 0;
    while i < p.len()
        invariant
            at + p.len() <= v.len(),
            i <= p.len(),
            forall|k: int| 0 <= k < i ==> v@[at + k] == p@[k],
        decreases p.len() - i,
    {
        if v[at + i] != p[i] {
            return false;
        }
        i += 1;
    }
    assert(v@.subrange(at as int, at + p.len()) =~= p@);
    true
}

/// Appends `v[from..to]` to `s`.
pub fn push_range(s: &mut String, v: &Vec<char>, from: usize, to: usize)
    requires
        from <= to <= v.len(),
    ensures
        final(s)@ == old(s)@ + v@.subrange(from as int, to as int),
{
    let mut i = from;
    while i < to
        invariant
            from <= i <= to <= v.len(),
            s@ == old(s)@ + v@.subrange(from as int, i as int),
        decreases to - i,
    {
        s.push(v[i]);
        assert(v@.subrange(from as int, i + 1) =~= v@.subrange(from as int, i as int).push(v@[i as int]));
        i += 1;
    }
}

/// Appends `t` to `s`.
pub fn push_str(s: &mut String, t: &str)
    ensures
        final(s)@ == old(s)@ + t@,
{
    s.append(t);
}


/// The decimal digit `d`.
pub open spec fn digit(d: nat) -> char {
    if d == 0 { '0' } else if d == 1 { '1' } else if d == 2 { '2' } else if d == 3 { '3' }
    else if d == 4 { '4' } else if d == 5 { '5' } else if d == 6 { '6' } else if d == 7 { '7' }
    else if d == 8 { '8' } else { '9' }
}

/// `n` written in decimal, as `n.to_string()` gives it.
pub open spec fn decimal(n: nat) -> Seq<char>
    decreases n,
{
    if n < 10 {
        seq![digit(n)]
    } else {
        decimal(n / 10).push(digit(n % 10))
    }
}

fn digit_char(d: u64) -> (c: char)
    requires
        d < 10,
    ensures
        c == digit(d as nat),
{
    if d == 0 { '0' } else if d == 1 { '1' } else if d == 2 { '2' } else if d == 3 { '3' }
    else if d == 4 { '4' } else if d == 5 { '5' } else if d == 6 { '6' } else if d == 7 { '7' }
    else if d == 8 { '8' } else { '9' }
}

/// Appends `n` in decimal to `s`.
pub fn push_decimal(s: &mut String, n: u64)
    ensures
        final(s)@ == old(s)@ + decimal(n as nat),
    decreases n,
{
    if n >= 10 {
        push_decimal(s, n / 10);
    }
    s.push(digit_char(n % 10));
    assert(final(s)@ =~= old(s)@ + decimal(n as nat));
}

/// `n` in decimal.
pub fn decimal_string(n: u64) -> (s: String)
    ensures
        s@ == decimal(n as nat),
{
    let mut s = String::new();
    push_decimal(&mut s, n);
    assert(s@ =~= decimal(n as nat));
    s
}


/// `s` with every occurrence of `pat` replaced by `rep`, left to right, as
/// `str::replace` does for a non-empty pattern.
pub open spec fn replace_all(s: Seq<char>, pat: Seq<char>, rep: Seq<char>) -> Seq<char>
    decreases s.len(),
{
    if pat.len() == 0 || s.len() < pat.len() {
        s
    } else if s.take(pat.len() as int) == pat {
        rep + replace_all(s.skip(pat.len() as int), pat, rep)
    } else {
        seq![s[0]] + replace_all(s.skip(1), pat, rep)
    }
}

/// `s` with every occurrence of `pat` replaced by `rep`.
pub fn replace(s: &str, pat: &str, rep: &str) -> (r: String)
    requires
        pat@.len() > 0,
    ensures
        r@ == replace_all(s@, pat@, rep@),
{
    let v = chars_of(s);
    let p = chars_of(pat);
    let mut out = String::new();
    let mut i: usize = 0;
    assert(v@.skip(0) =~= v@);
    assert(out@ + replace_all(v@, p@, rep@) =~= replace_all(v@, p@, rep@));
    while i < v.len()
        invariant
            i <= v.len(),
            p@ == pat@,
            v@ == s@,
            p@.len() > 0,
            out@ + replace_all(v@.skip(i as int), p@, rep@) == replace_all(v@, p@, rep@),
        decreases v.len() - i,
    {
        let ghost rest = v@.skip(i as int);
        if has_at(&v, i, &p) {
            assert(rest.take(p@.len() as int) =~= v@.subrange(i as int, i + p@.len()));
            assert(rest.skip(p@.len() as int) =~= v@.skip(i + p@.len()));
            push_str(&mut out, rep);
            i += p.len();
        } else {
            proof {
                if rest.len() >= p@.len() {
                    assert(rest.take(p@.len() as int) =~= v@.subrange(i as int, i + p@.len()));
                }
                assert(rest.skip(1) =~= v@.skip(i + 1));
            }
            if v.len() - i < p.len() {
                // too short to hold a match: copy the rest
                assert(replace_all(rest, p@, rep@) == rest);
                push_range(&mut out, &v, i, v.len());
                assert(v@.subrange(i as int, v@.len() as int) =~= rest);
                assert(v@.skip(v@.len() as int) =~= Seq::<char>::empty());
                assert(out@ =~= replace_all(v@, p@, rep@));
                i = v.len();
            } else {
                out.push(v[i]);
                assert(out@ + replace_all(v@.skip(i + 1), p@, rep@) =~= replace_all(v@, p@, rep@));
                i += 1;
            }
        }
    }
    assert(v@.skip(i as int) =~= Seq::<char>::empty());
    out
}

/// `s` with each `c` replaced by `rep`.
pub open spec fn replace_char(s: Seq<char>, c: char, rep: Seq<char>) -> Seq<char>
    decreases s.len(),
{
    if s.len() == 0 {
        s
    } else if s.last() == c {
        replace_char(s.drop_last(), c, rep) + rep
    } else {
        replace_char(s.drop_last(), c, rep).push(s.last())
    }
}

/// Whether `s` ends with `suffix`.
pub open spec fn ends_with(s: Seq<char>, suffix: Seq<char>) -> bool {
    s.len() >= suffix.len() && s.skip(s.len() - suffix.len()) == suffix
}

/// Whether `s` starts with `prefix`.
pub open spec fn starts_with(s: Seq<char>, prefix: Seq<char>) -> bool {
    s.len() >= prefix.len() && s.take(prefix.len() as int) == prefix
}

/// Whether `v` ends with `suffix`.
pub fn has_suffix(v: &Vec<char>, suffix: &Vec<char>) -> (r: bool)
    ensures
        r == ends_with(v@, suffix@),
{
    if suffix.len() > v.len() {
        return false;
    }
    let r = has_at(v, v.len() - suffix.len(), suffix);
    assert(v@.subrange(v@.len() - suffix@.len(), v@.len() as int) =~= v@.skip(v@.len() - suffix@.len()));
    r
}

/// Whether `v` starts with `prefix`.
pub fn has_prefix(v: &Vec<char>, prefix: &Vec<char>) -> (r: bool)
    ensures
        r == starts_with(v@, prefix@),
{
    let r = has_at(v, 0, prefix);
    if prefix.len() <= v.len() {
        assert(v@.subrange(0, prefix@.len() as int) =~= v@.take(prefix@.len() as int));
    }
    r
}

/// `s` cut to its first `max` characters plus an ellipsis when longer.
pub open spec fn truncate_spec(s: Seq<char>, max: nat) -> Seq<char> {
    if s.len() > max {
        s.take(max as int).push('\u{2026}')
    } else {
        s
    }
}


/// Whether two strings hold the same characters.
pub fn same_text(a: &str, b: &str) -> (r: bool)
    ensures
        r == (a@ == b@),
{
    let va = chars_of(a);
    let vb = chars_of(b);
    same_chars(&va, &vb)
}

/// Whether `s` is empty or all whitespace.
pub fn is_blank(s: &str) -> (r: bool)
    ensures
        r == (trim(s@).len() == 0),
{
    let v = chars_of(s);
    let (lo, hi) = trim_range(&v, 0, v.len());
    assert(v@.subrange(0, v@.len() as int) =~= v@);
    lo == hi
}

/// Index of the first `c` in `s`, or `s.len()` when there is none.
pub open spec fn first_of(s: Seq<char>, c: char) -> int
    decreases s.len(),
{
    if s.len() == 0 {
        0
    } else if s[0] == c {
        0
    } else {
        1 + first_of(s.drop_first(), c)
    }
}

/// `first_of` is the position before which `c` does not occur and at which it
/// does (or the end).
pub proof fn lemma_first_of(s: Seq<char>, c: char, i: int)
    requires
        0 <= i <= s.len(),
        forall|j: int| 0 <= j < i ==> s[j] != c,
        i == s.len() || s[i] == c,
    ensures
        first_of(s, c) == i,
    decreases i,
{
    if i > 0 {
        assert forall|j: int| 0 <= j < i - 1 implies s.drop_first()[j] != c by {
            assert(s.drop_first()[j] == s[j + 1]);
        }
        lemma_first_of(s.drop_first(), c, i - 1);
    }
}

/// Position of the first `c` in `v[from..]`, or `v.len()`.
pub fn find_char(v: &Vec<char>, from: usize, c: char) -> (k: usize)
    requires
        from <= v.len(),
    ensures
        from <= k <= v.len(),
        k == from + first_of(v@.skip(from as int), c),
        forall|j: int| from <= j < k ==> v@[j] != c,
        k < v.len() ==> v@[k as int] == c,
{
    let mut k = from;
    while k < v.len() && v[k] != c
        invariant
            from <= k <= v.len(),
            forall|j: int| from <= j < k ==> v@[j] != c,
        decreases v.len() - k,
    {
        k += 1;
    }
    proof {
        let t = v@.skip(from as int);
        assert forall|j: int| 0 <= j < k - from implies t[j] != c by {
            assert(t[j] == v@[from + j]);
        }
        lemma_first_of(t, c, k - from);
    }
    k
}

/// Whether `c` is alphanumeric, as `char::is_alphanumeric` decides it from the
/// Unicode tables.
pub uninterp spec fn alphanumeric(c: char) -> bool;

/// `char::is_alphanumeric`: the answer is a fixed function of the character
/// (the Unicode `Alphabetic` property or a numeric general category), named
/// `alphanumeric` here; the tables themselves are not restated.
#[verifier::external_body]
pub(crate) fn is_alphanumeric(c: char) -> (r: bool)
    ensures
        r == alphanumeric(c),
{
    c.is_alphanumeric()
}

/// `s` in lower case, as `str::to_lowercase` maps it.
pub uninterp spec fn lowercase(s: Seq<char>) -> Seq<char>;

/// `str::to_lowercase`: the lower-case form depends on the text alone (Unicode
/// case mapping, with the final-sigma rule), named `lowercase` here; the
/// mapping tables are not restated.
#[verifier::external_body]
pub(crate) fn to_lowercase(s: &str) -> (r: String)
    ensures
        r@ == lowercase(s@),
{
    s.to_lowercase()
}

/// `parts` joined with `sep` between neighbours, as `[..].join(sep)` gives it.
pub open spec fn join(parts: Seq<Seq<char>>, sep: Seq<char>) -> Seq<char>
    decreases parts.len(),
{
    if parts.len() == 0 {
        Seq::empty()
    } else if parts.len() == 1 {
        parts[0]
    } else {
        join(parts.drop_last(), sep) + sep + parts.last()
    }
}

/// Joining one more part.
pub proof fn lemma_join_push(parts: Seq<Seq<char>>, p: Seq<char>, sep: Seq<char>)
    ensures
        join(parts.push(p), sep) == (if parts.len() == 0 { p } else { join(parts, sep) + sep + p }),
{
    assert(parts.push(p).drop_last() =~= parts);
}

} // verus!
