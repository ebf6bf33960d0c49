//! Bringing outside writing in: the natural order of names, and the report of
//! what an import did.

use vstd::prelude::*;
use std::cmp::Ordering;
use crate::dropbox::strip_lead;
use crate::rtf::{digit_run, is_digit, lemma_digit_run};
use crate::text::{
    chars_of, decimal, digit, decimal_string, join, lemma_join_push, push_decimal, push_str, string_of, trim, trim_range,
    trimmed,
};

verus! {

/// What an import created and what it had to skip.
#[derive(Debug)]
pub struct ImportReport {
    /// Content-relative names of the writings created.
    pub created: Vec<String>,
    /// Top-level folders created (one per imported project or folder).
    pub folders: Vec<String>,
    /// Things that were skipped or could not be converted, for the writer to see.
    pub warnings: Vec<String>,
}

/// Scene metadata stored as front matter at the top of a writing.
#[derive(Debug, Clone)]
pub struct Meta {
    pub synopsis: Option<String>,
    pub status: Option<String>,
    pub label: Option<String>,
}

impl Default for Meta {
    fn default() -> (r: Self)
        ensures
            r.synopsis is None && r.status is None && r.label is None,
    {
        Meta { synopsis: None, status: None, label: None }
    }
}

impl Meta {
    pub fn is_empty(&self) -> (r: bool)
        ensures
            r == (self.synopsis is None && self.status is None && self.label is None),
    {
        self.synopsis.is_none() && self.status.is_none() && self.label.is_none()
    }
}

/// The characters `char::to_lowercase` maps `c` to.
pub uninterp spec fn char_lower(c: char) -> Seq<char>;

/// `char::to_lowercase`: the one or more characters `c` becomes in lower case,
/// a fixed function of `c` from the Unicode tables, named `char_lower`.
#[verifier::external_body]
fn lower_char(c: char) -> (r: Vec<char>)
    ensures
        r@ == char_lower(c),
{
    c.to_lowercase().collect()
}

/// Lexicographic order of two character sequences, by code point, as a sign:
/// negative, zero or positive.
pub open spec fn lex_sign(x: Seq<char>, y: Seq<char>) -> int
    decreases x.len(),
{
    if x.len() == 0 && y.len() == 0 {
        0
    } else if x.len() == 0 {
        -1
    } else if y.len() == 0 {
        1
    } else if x[0] < y[0] {
        -1
    } else if x[0] > y[0] {
        1
    } else {
        lex_sign(x.drop_first(), y.drop_first())
    }
}

fn lex_sign_of(x: &Vec<char>, xs: usize, xe: usize, y: &Vec<char>, ys: usize, ye: usize) -> (r: i8)
    requires
        xs <= xe <= x.len(),
        ys <= ye <= y.len(),
    ensures
        r == lex_sign(x@.subrange(xs as int, xe as int), y@.subrange(ys as int, ye as int)),
{
    let mut i = xs;
    let mut j = ys;
    while i < xe && j < ye && x[i] == y[j]
        invariant
            xs <= i <= xe <= x.len(),
            ys <= j <= ye <= y.len(),
            lex_sign(x@.subrange(xs as int, xe as int), y@.subrange(ys as int, ye as int)) == lex_sign(
                x@.subrange(i as int, xe as int),
                y@.subrange(j as int, ye as int),
            ),
        decreases xe - i,
    {
        assert(x@.subrange(i as int, xe as int).drop_first() =~= x@.subrange(i + 1, xe as int));
        assert(y@.subrange(j as int, ye as int).drop_first() =~= y@.subrange(j + 1, ye as int));
        i += 1;
        j += 1;
    }
    if i == xe && j == ye {
        0
    } else if i == xe {
        -1
    } else if j == ye {
        1
    } else if x[i] < y[j] {
        -1
    } else {
        1
    }
}

/// "Chapter 2" before "Chapter 10", ignoring case, as a sign: runs of digits
/// compare as numbers (leading zeros aside, shorter first, then digit by
/// digit), other characters by their lower-case forms.
pub open spec fn natural_sign(a: Seq<char>, b: Seq<char>) -> int
    decreases a.len() + b.len(),
{
    if a.len() == 0 && b.len() == 0 {
        0
    } else if a.len() == 0 {
        -1
    } else if b.len() == 0 {
        1
    } else if is_digit(a[0]) && is_digit(b[0]) {
        let da = digit_run(a);
        let db = digit_run(b);
        let ta = strip_lead(a.take(da), '0');
        let tb = strip_lead(b.take(db), '0');
        let o = if ta.len() < tb.len() {
            -1
        } else if ta.len() > tb.len() {
            1
        } else {
            lex_sign(ta, tb)
        };
        if o != 0 {
            o
        } else if 0 < da <= a.len() && 0 < db <= b.len() {
            natural_sign(a.skip(da), b.skip(db))
        } else {
            0
        }
    } else {
        let o = lex_sign(char_lower(a[0]), char_lower(b[0]));
        if o != 0 {
            o
        } else {
            natural_sign(a.drop_first(), b.drop_first())
        }
    }
}

/// The natural order of two names.
pub open spec fn natural_order(a: Seq<char>, b: Seq<char>) -> Ordering {
    let s = natural_sign(a, b);
    if s < 0 {
        Ordering::Less
    } else if s > 0 {
        Ordering::Greater
    } else {
        Ordering::Equal
    }
}

/// End of the digit run at `i`, and where it starts once leading zeros are
/// skipped.
fn digit_span(v: &Vec<char>, i: usize) -> (r: (usize, usize))
    requires
        i < v.len(),
        is_digit(v@[i as int]),
    ensures
        i < r.1 <= v.len(),
        i <= r.0 <= r.1,
        r.1 == i + digit_run(v@.skip(i as int)),
        v@.subrange(r.0 as int, r.1 as int) == strip_lead(v@.subrange(i as int, r.1 as int), '0'),
{
    let mut e = i;
    while e < v.len() && '0' <= v[e] && v[e] <= '9'
        invariant
            i <= e <= v.len(),
            forall|k: int| i <= k < e ==> is_digit(#[trigger] v@[k]),
        decreases v.len() - e,
    {
        e += 1;
    }
    proof {
        let t = v@.skip(i as int);
        assert forall|k: int| 0 <= k < e - i implies is_digit(t[k]) by {
            assert(t[k] == v@[i + k]);
        }
        lemma_digit_run(t, e - i);
    }
    let mut s = i;
    while s < e && v[s] == '0'
        invariant
            i <= s <= e <= v.len(),
            strip_lead(v@.subrange(i as int, e as int), '0') == strip_lead(v@.subrange(s as int, e as int), '0'),
        decreases e - s,
    {
        assert(v@.subrange(s as int, e as int).drop_first() =~= v@.subrange(s + 1, e as int));
        s += 1;
    }
    (s, e)
}

/// The sign of the natural order of `a` and `b`.
fn natural_sign_of(a: &str, b: &str) -> (r: i8)
    ensures
        r == natural_sign(a@, b@),
{
    let va = chars_of(a);
    let vb = chars_of(b);
    let mut i: usize = 0;
    let mut j: usize = 0;
    assert(va@.skip(0) =~= va@);
    assert(vb@.skip(0) =~= vb@);
    loop
        invariant
            i <= va@.len(),
            j <= vb@.len(),
            natural_sign(va@.skip(i as int), vb@.skip(j as int)) == natural_sign(a@, b@),
        decreases va@.len() - i + vb@.len() - j,
    {
        let ghost sa = va@.skip(i as int);
        let ghost sb = vb@.skip(j as int);
        if i == va.len() && j == vb.len() {
            return 0;
        } else if i == va.len() {
            return -1;
        } else if j == vb.len() {
            return 1;
        }
        assert(sa[0] == va@[i as int] && sb[0] == vb@[j as int]);
        if '0' <= va[i] && va[i] <= '9' && '0' <= vb[j] && vb[j] <= '9' {
            let (za, ea) = digit_span(&va, i);
            let (zb, eb) = digit_span(&vb, j);
            proof {
                assert(sa.take(ea - i) =~= va@.subrange(i as int, ea as int));
                assert(sb.take(eb - j) =~= vb@.subrange(j as int, eb as int));
                assert(sa.skip(ea - i) =~= va@.skip(ea as int));
                assert(sb.skip(eb - j) =~= vb@.skip(eb as int));
            }
            let la = ea - za;
            let lb = eb - zb;
            if la < lb {
                return -1;
            } else if la > lb {
                return 1;
            }
            let o = lex_sign_of(&va, za, ea, &vb, zb, eb);
            if o != 0 {
                return o;
            }
            i = ea;
            j = eb;
        } else {
            let la = lower_char(va[i]);
            let lb = lower_char(vb[j]);
            let o = lex_sign_of(&la, 0, la.len(), &lb, 0, lb.len());
            assert(la@.subrange(0, la@.len() as int) =~= la@ && lb@.subrange(0, lb@.len() as int) =~= lb@);
            if o != 0 {
                return o;
            }
            assert(sa.drop_first() =~= va@.skip(i + 1));
            assert(sb.drop_first() =~= vb@.skip(j + 1));
            i += 1;
            j += 1;
        }
    }
}

/// "Chapter 2" before "Chapter 10", ignoring case: the order the app's tree uses.
pub fn natural_cmp(a: &str, b: &str) -> (r: Ordering)
    ensures
        r == natural_order(a@, b@),
{
    let s = natural_sign_of(a, b);
    if s < 0 {
        Ordering::Less
    } else if s > 0 {
        Ordering::Greater
    } else {
        Ordering::Equal
    }
}

/// Whether each name is no greater than the next in natural order.
pub open spec fn in_natural_order(ns: Seq<String>) -> bool {
    forall|i: int| 0 <= i < ns.len() - 1 ==> natural_sign(#[trigger] ns[i]@, ns[i + 1]@) <= 0
}

/// `n` in decimal, zero-padded to at least `w` digits.
pub open spec fn padded(n: nat, w: nat) -> Seq<char> {
    let d = decimal(n);
    let zeros = if w > d.len() { (w - d.len()) as nat } else { 0 };
    Seq::new(zeros, |_i: int| '0') + d
}

/// How many digits a list of `count` names is numbered with: those of
/// `count`, and at least two.
pub open spec fn prefix_width(count: nat) -> nat {
    if decimal(count).len() > 2 { decimal(count).len() } else { 2 }
}

fn padded_number(n: usize, w: usize) -> (r: String)
    ensures
        r@ == padded(n as nat, w as nat),
{
    let digits = decimal_string(n as u64);
    let d = chars_of(digits.as_str()).len();
    let mut out = String::new();
    let mut k: usize = d;
    while k < w
        invariant
            d <= k <= w || (w < d && k == d),
            d == decimal(n as nat).len(),
            out@ == Seq::new((k - d) as nat, |_i: int| '0'),
        decreases w - k,
    {
        out.push('0');
        assert(out@ =~= Seq::new((k + 1 - d) as nat, |_i: int| '0'));
        k += 1;
    }
    push_str(&mut out, digits.as_str());
    assert(out@ =~= padded(n as nat, w as nat));
    out
}

/// Prefixes names with "01 ", "02 "… only when sorting them would change their
/// order: names already in natural order come back as they are.
pub fn ordered_names(names: &[String]) -> (r: Vec<String>)
    ensures
        r@.len() == names@.len(),
        in_natural_order(r@),
        in_natural_order(names@) ==> forall|i: int| 0 <= i < r@.len() ==> (#[trigger] r@[i])@ == names@[i]@,
        !in_natural_order(names@) ==> forall|i: int|
            0 <= i < r@.len() ==> (#[trigger] r@[i])@ == padded((i + 1) as nat, prefix_width(names@.len()))
                + " "@ + names@[i]@,
{
    let mut sorted = true;
    let mut k: usize = 0;
    while k < names.len() && names.len() - k > 1
        invariant
            k < names@.len() || names@.len() == 0,
            sorted == (forall|i: int| 0 <= i < k ==> natural_sign(#[trigger] names@[i]@, names@[i + 1]@) <= 0),
        decreases names@.len() - k,
    {
        if natural_sign_of(names[k].as_str(), names[k + 1].as_str()) > 0 {
            sorted = false;
        }
        k += 1;
    }
    let mut out: Vec<String> = Vec::new();
    if sorted {
        let mut i: usize = 0;
        while i < names.len()
            invariant
                i <= names@.len(),
                out@.len() == i,
                forall|m: int| 0 <= m < i ==> (#[trigger] out@[m])@ == names@[m]@,
            decreases names.len() - i,
        {
            out.push(names[i].clone());
            i += 1;
        }
        proof {
            assert forall|m: int| 0 <= m < out@.len() - 1 implies natural_sign(
                #[trigger] out@[m]@,
                out@[m + 1]@,
            ) <= 0 by {
                assert(out@[m]@ == names@[m]@ && out@[m + 1]@ == names@[m + 1]@);
            }
        }
        return out;
    }
    let count_digits = chars_of(decimal_string(names.len() as u64).as_str()).len();
    let width = if count_digits > 2 { count_digits } else { 2 };
    let mut i: usize = 0;
    while i < names.len()
        invariant
            i <= names@.len(),
            width == prefix_width(names@.len()),
            out@.len() == i,
            forall|m: int|
                0 <= m < i ==> (#[trigger] out@[m])@ == padded((m + 1) as nat, prefix_width(names@.len()))
                    + " "@ + names@[m]@,
        decreases names.len() - i,
    {
        let mut line = padded_number(i + 1, width);
        push_str(&mut line, " ");
        push_str(&mut line, names[i].as_str());
        out.push(line);
        i += 1;
    }
    proof {
        lemma_numbered_in_order(out@, names@);
    }
    out
}

/// More never takes fewer digits.
proof fn lemma_decimal_len_monotone(a: nat, b: nat)
    requires
        a <= b,
    ensures
        decimal(a).len() <= decimal(b).len(),
{
    lemma_decimal_shape(a);
    lemma_decimal_shape(b);
    if decimal(a).len() > decimal(b).len() {
        lemma_pow10_monotone(decimal(b).len(), (decimal(a).len() - 1) as nat);
    }
}

/// Leading zeros in front of a number's digits fall away again.
proof fn lemma_strip_zeros(z: nat, d: Seq<char>)
    requires
        d.len() > 0,
        d[0] != '0',
    ensures
        strip_lead(Seq::new(z, |_i: int| '0') + d, '0') == d,
    decreases z,
{
    let s = Seq::new(z, |_i: int| '0') + d;
    if z > 0 {
        assert(s[0] == '0');
        assert(s.drop_first() =~= Seq::new((z - 1) as nat, |_i: int| '0') + d);
        lemma_strip_zeros((z - 1) as nat, d);
    } else {
        assert(s =~= d);
    }
}

/// A positive number padded to a width its digits fit in: all digits, that
/// wide, and its own digits once the zeros are dropped.
proof fn lemma_padded_shape(n: nat, w: nat)
    requires
        n >= 1,
        decimal(n).len() <= w,
    ensures
        padded(n, w).len() == w,
        forall|j: int| 0 <= j < w ==> is_digit(#[trigger] padded(n, w)[j]),
        strip_lead(padded(n, w), '0') == decimal(n),
{
    lemma_decimal_shape(n);
    let d = decimal(n);
    let z = (w - d.len()) as nat;
    assert(padded(n, w) == Seq::new(z, |_i: int| '0') + d);
    assert forall|j: int| 0 <= j < w implies is_digit(#[trigger] padded(n, w)[j]) by {
        if j >= z {
            assert(padded(n, w)[j] == d[j - z]);
        }
    }
    lemma_strip_zeros(z, d);
}

/// Two names numbered to one width, each number followed by something that
/// is not a digit: the smaller number comes first, whatever follows.
proof fn lemma_numbered_before(m: nat, n: nat, w: nat, x: Seq<char>, y: Seq<char>)
    requires
        1 <= m < n,
        decimal(n).len() <= w,
        x.len() > 0 && !is_digit(x[0]),
        y.len() > 0 && !is_digit(y[0]),
    ensures
        natural_sign(padded(m, w) + x, padded(n, w) + y) == -1,
{
    lemma_decimal_len_monotone(m, n);
    lemma_decimal_shape(m);
    lemma_decimal_shape(n);
    lemma_padded_shape(m, w);
    lemma_padded_shape(n, w);
    let pa = padded(m, w);
    let pb = padded(n, w);
    let a = pa + x;
    let b = pb + y;
    assert forall|j: int| 0 <= j < w implies is_digit(a[j]) by {
        assert(a[j] == pa[j]);
    }
    assert forall|j: int| 0 <= j < w implies is_digit(b[j]) by {
        assert(b[j] == pb[j]);
    }
    assert(a[w as int] == x[0] && b[w as int] == y[0]);
    lemma_digit_run(a, w as int);
    lemma_digit_run(b, w as int);
    assert(a.take(w as int) =~= pa);
    assert(b.take(w as int) =~= pb);
    assert(is_digit(a[0]) && is_digit(b[0]));
    if decimal(m).len() == decimal(n).len() {
        lemma_decimal_lex(m, n);
    }
}

/// Numbering names one after another in order puts them in natural order.
proof fn lemma_numbered_in_order(r: Seq<String>, names: Seq<String>)
    requires
        r.len() == names.len(),
        forall|i: int|
            0 <= i < r.len() ==> (#[trigger] r[i])@ == padded((i + 1) as nat, prefix_width(names.len())) + " "@
                + names[i]@,
    ensures
        in_natural_order(r),
{
    reveal_strlit(" ");
    let w = prefix_width(names.len());
    assert forall|i: int| 0 <= i < r.len() - 1 implies natural_sign(#[trigger] r[i]@, r[i + 1]@) <= 0 by {
        lemma_decimal_len_monotone((i + 2) as nat, names.len());
        lemma_decimal_shape(names.len());
        let x = " "@ + names[i]@;
        let y = " "@ + names[i + 1]@;
        assert(r[i]@ =~= padded((i + 1) as nat, w) + x);
        assert(r[i + 1]@ =~= padded((i + 2) as nat, w) + y);
        assert(x[0] == ' ' && y[0] == ' ');
        lemma_numbered_before((i + 1) as nat, (i + 2) as nat, w, x, y);
    }
}

proof fn lemma_lex_sign_antisymmetric(x: Seq<char>, y: Seq<char>)
    ensures
        lex_sign(x, y) == -lex_sign(y, x),
    decreases x.len(),
{
    if x.len() > 0 && y.len() > 0 && x[0] == y[0] {
        lemma_lex_sign_antisymmetric(x.drop_first(), y.drop_first());
    }
}

/// The natural order is antisymmetric: swapping the names flips the
/// comparison, so sorting by it is consistent.
pub proof fn law_natural_order_antisymmetric(a: Seq<char>, b: Seq<char>)
    ensures
        natural_sign(a, b) == -natural_sign(b, a),
    decreases a.len() + b.len(),
{
    if a.len() > 0 && b.len() > 0 {
        if is_digit(a[0]) && is_digit(b[0]) {
            let da = digit_run(a);
            let db = digit_run(b);
            let ta = strip_lead(a.take(da), '0');
            let tb = strip_lead(b.take(db), '0');
            lemma_lex_sign_antisymmetric(ta, tb);
            if 0 < da <= a.len() && 0 < db <= b.len() {
                law_natural_order_antisymmetric(a.skip(da), b.skip(db));
            }
        } else {
            lemma_lex_sign_antisymmetric(char_lower(a[0]), char_lower(b[0]));
            law_natural_order_antisymmetric(a.drop_first(), b.drop_first());
        }
    }
}

/// A name is in natural order with itself: it compares equal.
pub proof fn law_natural_order_reflexive(a: Seq<char>)
    ensures
        natural_sign(a, a) == 0,
        natural_order(a, a) == Ordering::Equal,
{
    law_natural_order_antisymmetric(a, a);
}

/// `a2` is `a` with characters swapped for ones of the same lower-case form,
/// digits left as they are.
pub open spec fn same_but_case(a: Seq<char>, a2: Seq<char>) -> bool {
    &&& a.len() == a2.len()
    &&& forall|i: int|
        0 <= i < a.len() ==> char_lower(#[trigger] a[i]) == char_lower(a2[i]) && is_digit(a[i]) == is_digit(a2[i])
            && (is_digit(a[i]) ==> a[i] == a2[i])
}

proof fn lemma_same_but_case_skip(a: Seq<char>, a2: Seq<char>, k: int)
    requires
        same_but_case(a, a2),
        0 <= k <= a.len(),
    ensures
        same_but_case(a.skip(k), a2.skip(k)),
{
    assert forall|i: int| 0 <= i < a.skip(k).len() implies char_lower(#[trigger] a.skip(k)[i]) == char_lower(
        a2.skip(k)[i],
    ) && is_digit(a.skip(k)[i]) == is_digit(a2.skip(k)[i]) && (is_digit(a.skip(k)[i]) ==> a.skip(k)[i]
        == a2.skip(k)[i]) by {
        assert(a.skip(k)[i] == a[i + k] && a2.skip(k)[i] == a2[i + k]);
    }
}

proof fn lemma_same_but_case_digits(a: Seq<char>, a2: Seq<char>)
    requires
        same_but_case(a, a2),
    ensures
        digit_run(a) == digit_run(a2),
        a.take(digit_run(a)) == a2.take(digit_run(a2)),
    decreases a.len(),
{
    lemma_digit_run_props(a);
    lemma_digit_run_props(a2);
    if a.len() > 0 && is_digit(a[0]) {
        assert(is_digit(a[0]) == is_digit(a2[0]));
        lemma_same_but_case_skip(a, a2, 1);
        assert(a.skip(1) =~= a.drop_first() && a2.skip(1) =~= a2.drop_first());
        lemma_same_but_case_digits(a.drop_first(), a2.drop_first());
        let k = digit_run(a);
        assert forall|i: int| 0 <= i < k implies a.take(k)[i] == a2.take(k)[i] by {
            assert(is_digit(a[i]));
        }
        assert(a.take(k) =~= a2.take(k));
    } else {
        if a.len() > 0 {
            assert(is_digit(a[0]) == is_digit(a2[0]));
        }
        assert(a.take(0) =~= a2.take(0));
    }
}

/// Case does not change the natural order: a name compares with any other
/// as it does once its characters are swapped for ones with the same
/// lower-case form, its digits left alone. So "chapter 2" and "Chapter 2"
/// sort alike wherever `char::to_lowercase` gives 'c' and 'C' one form.
pub proof fn law_natural_order_ignores_case(a: Seq<char>, a2: Seq<char>, b: Seq<char>)
    requires
        same_but_case(a, a2),
    ensures
        natural_sign(a, b) == natural_sign(a2, b),
    decreases a.len() + b.len(),
{
    if a.len() > 0 && b.len() > 0 {
        assert(char_lower(a[0]) == char_lower(a2[0]) && is_digit(a[0]) == is_digit(a2[0]));
        if is_digit(a[0]) && is_digit(b[0]) {
            lemma_same_but_case_digits(a, a2);
            let da = digit_run(a);
            lemma_digit_run_props(a);
            if 0 < da <= a.len() && 0 < digit_run(b) <= b.len() {
                lemma_same_but_case_skip(a, a2, da);
                law_natural_order_ignores_case(a.skip(da), a2.skip(da), b.skip(digit_run(b)));
            }
        } else {
            lemma_same_but_case_skip(a, a2, 1);
            assert(a.skip(1) =~= a.drop_first() && a2.skip(1) =~= a2.drop_first());
            law_natural_order_ignores_case(a.drop_first(), a2.drop_first(), b.drop_first());
        }
    }
}

/// The sign of `m - n`.
pub open spec fn sign_of(m: int, n: int) -> int {
    if m < n { -1 } else if m > n { 1 } else { 0 }
}

proof fn lemma_lex_sign_reflexive(x: Seq<char>)
    ensures
        lex_sign(x, x) == 0,
{
    lemma_lex_sign_antisymmetric(x, x);
}

proof fn lemma_digit_value(d: nat)
    requires
        d < 10,
    ensures
        digit(d) as int == 48 + d,
        is_digit(digit(d)),
{
}

/// A number's decimal digits: all digits, the first not `0` unless the
/// number is, as many as the number is long.
proof fn lemma_decimal_shape(n: nat)
    ensures
        decimal(n).len() >= 1,
        forall|i: int| 0 <= i < decimal(n).len() ==> is_digit(#[trigger] decimal(n)[i]),
        n > 0 ==> decimal(n)[0] != '0',
        n == 0 ==> decimal(n) == seq!['0'],
        n < pow10(decimal(n).len()),
        n > 0 ==> pow10((decimal(n).len() - 1) as nat) <= n,
    decreases n,
{
    if n < 10 {
        lemma_digit_value(n);
        assert(pow10(1) == 10) by {
            assert(pow10(0) == 1);
        }
        assert(pow10(0) == 1);
    } else {
        lemma_decimal_shape(n / 10);
        lemma_digit_value(n % 10);
        let k = decimal(n / 10).len();
        assert(decimal(n) == decimal(n / 10).push(digit(n % 10)));
        assert(pow10(k + 1) == 10 * pow10(k));
        assert(pow10(k) == 10 * pow10((k - 1) as nat));
        assert(n == 10 * (n / 10) + n % 10);
    }
}

/// Ten to the `k`.
pub open spec fn pow10(k: nat) -> nat
    decreases k,
{
    if k == 0 { 1 } else { 10 * pow10((k - 1) as nat) }
}

proof fn lemma_pow10_monotone(a: nat, b: nat)
    requires
        a <= b,
    ensures
        pow10(a) <= pow10(b),
    decreases b,
{
    if a < b {
        lemma_pow10_monotone(a, (b - 1) as nat);
    }
}

/// Of two numbers written with as many digits, the digits compare as the
/// numbers do.
proof fn lemma_decimal_lex(m: nat, n: nat)
    requires
        decimal(m).len() == decimal(n).len(),
    ensures
        lex_sign(decimal(m), decimal(n)) == sign_of(m as int, n as int),
    decreases m,
{
    lemma_decimal_shape(m);
    lemma_decimal_shape(n);
    lemma_digit_value(m % 10);
    lemma_digit_value(n % 10);
    if m < 10 || n < 10 {
        if m >= 10 {
            lemma_decimal_shape(m / 10);
        }
        if n >= 10 {
            lemma_decimal_shape(n / 10);
        }
        assert(m < 10 && n < 10);
        lemma_lex_sign_single(digit(m), digit(n));
    } else {
        assert(decimal(m) == decimal(m / 10).push(digit(m % 10)));
        assert(decimal(n) == decimal(n / 10).push(digit(n % 10)));
        lemma_decimal_lex(m / 10, n / 10);
        lemma_lex_sign_push(decimal(m / 10), decimal(n / 10), digit(m % 10), digit(n % 10));
        lemma_lex_sign_single(digit(m % 10), digit(n % 10));
        assert(m == 10 * (m / 10) + m % 10);
        assert(n == 10 * (n / 10) + n % 10);
    }
}

proof fn lemma_lex_sign_single(x: char, y: char)
    ensures
        lex_sign(seq![x], seq![y]) == sign_of(x as int, y as int),
{
    reveal_with_fuel(lex_sign, 2);
    assert(seq![x][0] == x && seq![y][0] == y);
    assert(seq![x].drop_first().len() == 0 && seq![y].drop_first().len() == 0);
}

/// Comparing two texts of one length with a character added to each.
proof fn lemma_lex_sign_push(a: Seq<char>, b: Seq<char>, x: char, y: char)
    requires
        a.len() == b.len(),
    ensures
        lex_sign(a.push(x), b.push(y)) == if lex_sign(a, b) != 0 {
            lex_sign(a, b)
        } else {
            lex_sign(seq![x], seq![y])
        },
    decreases a.len(),
{
    if a.len() > 0 {
        assert(a.push(x).drop_first() =~= a.drop_first().push(x));
        assert(b.push(y).drop_first() =~= b.drop_first().push(y));
        lemma_lex_sign_push(a.drop_first(), b.drop_first(), x, y);
    } else {
        assert(a.push(x) =~= seq![x] && b.push(y) =~= seq![y]);
    }
}

proof fn lemma_digit_run_props(s: Seq<char>)
    ensures
        0 <= digit_run(s) <= s.len(),
        forall|j: int| 0 <= j < digit_run(s) ==> is_digit(#[trigger] s[j]),
        digit_run(s) == s.len() || !is_digit(s[digit_run(s)]),
    decreases s.len(),
{
    if s.len() > 0 && is_digit(s[0]) {
        lemma_digit_run_props(s.drop_first());
        assert forall|j: int| 0 <= j < digit_run(s) implies is_digit(#[trigger] s[j]) by {
            if j > 0 {
                assert(s[j] == s.drop_first()[j - 1]);
            }
        }
    }
}

/// A shared start that does not end in a digit leaves the comparison to
/// what follows it.
proof fn lemma_natural_prefix(p: Seq<char>, x: Seq<char>, y: Seq<char>)
    requires
        p.len() == 0 || !is_digit(p.last()),
    ensures
        natural_sign(p + x, p + y) == natural_sign(x, y),
    decreases p.len(),
{
    if p.len() > 0 {
        let a = p + x;
        let b = p + y;
        assert(a[0] == p[0] && b[0] == p[0]);
        if is_digit(p[0]) {
            lemma_digit_run_props(p);
            let k = digit_run(p);
            assert(k < p.len());
            assert(k >= 1);
            assert forall|j: int| 0 <= j < k implies is_digit(a[j]) by {
                assert(a[j] == p[j]);
            }
            assert forall|j: int| 0 <= j < k implies is_digit(b[j]) by {
                assert(b[j] == p[j]);
            }
            assert(a[k] == p[k] && b[k] == p[k]);
            lemma_digit_run(a, k);
            lemma_digit_run(b, k);
            assert(a.take(k) =~= p.take(k));
            assert(b.take(k) =~= p.take(k));
            lemma_lex_sign_reflexive(strip_lead(p.take(k), '0'));
            assert(a.skip(k) =~= p.skip(k) + x);
            assert(b.skip(k) =~= p.skip(k) + y);
            assert(p.skip(k).last() == p.last());
            lemma_natural_prefix(p.skip(k), x, y);
        } else {
            lemma_lex_sign_reflexive(char_lower(p[0]));
            assert(a.drop_first() =~= p.drop_first() + x);
            assert(b.drop_first() =~= p.drop_first() + y);
            lemma_natural_prefix(p.drop_first(), x, y);
        }
    } else {
        assert(p + x =~= x && p + y =~= y);
    }
}

/// Names that differ only in a number at the end compare as the numbers:
/// "Chapter 2" before "Chapter 10", for any start that does not end in a
/// digit.
pub proof fn law_natural_order_numbers(p: Seq<char>, m: nat, n: nat)
    requires
        p.len() == 0 || !is_digit(p.last()),
    ensures
        natural_sign(p + decimal(m), p + decimal(n)) == sign_of(m as int, n as int),
{
    let a = decimal(m);
    let b = decimal(n);
    lemma_natural_prefix(p, a, b);
    lemma_decimal_shape(m);
    lemma_decimal_shape(n);
    lemma_digit_run(a, a.len() as int);
    lemma_digit_run(b, b.len() as int);
    assert(a.take(a.len() as int) =~= a && b.take(b.len() as int) =~= b);
    assert(a.skip(a.len() as int) =~= Seq::<char>::empty() && b.skip(b.len() as int) =~= Seq::<char>::empty());
    reveal_with_fuel(strip_lead, 2);
    if m == 0 {
        assert(seq!['0'].drop_first() =~= Seq::<char>::empty());
        assert(strip_lead(a, '0') =~= Seq::<char>::empty());
    } else {
        assert(strip_lead(a, '0') == a);
    }
    if n == 0 {
        assert(seq!['0'].drop_first() =~= Seq::<char>::empty());
        assert(strip_lead(b, '0') =~= Seq::<char>::empty());
    } else {
        assert(strip_lead(b, '0') == b);
    }
    lemma_lex_sign_reflexive(Seq::<char>::empty());
    assert(natural_sign(Seq::<char>::empty(), Seq::<char>::empty()) == 0);
    assert(is_digit(a[0]) && is_digit(b[0]));
    assert(digit_run(a) == a.len() && digit_run(b) == b.len());
    if m > 0 && n > 0 {
        if a.len() < b.len() {
            lemma_pow10_monotone(a.len(), (b.len() - 1) as nat);
        } else if a.len() > b.len() {
            lemma_pow10_monotone(b.len(), (a.len() - 1) as nat);
        } else {
            lemma_decimal_lex(m, n);
        }
    }
}

/// A lower-case hexadecimal digit.
pub open spec fn lower_hex(d: int) -> char {
    if d < 10 { (48 + d) as char } else { (97 + d - 10) as char }
}

/// How `serde_json` writes one character inside a string literal: `"` and
/// `\` behind a backslash, the usual short escapes for backspace, tab, line
/// feed, form feed and carriage return, other control characters as
/// `\u00XX` in lower-case hex, everything else as it is.
pub open spec fn json_char(c: char) -> Seq<char> {
    if c == '"' {
        seq!['\\', '"']
    } else if c == '\\' {
        seq!['\\', '\\']
    } else if c as u32 == 8 {
        seq!['\\', 'b']
    } else if c == '\t' {
        seq!['\\', 't']
    } else if c == '\n' {
        seq!['\\', 'n']
    } else if c as u32 == 12 {
        seq!['\\', 'f']
    } else if c == '\r' {
        seq!['\\', 'r']
    } else if (c as u32) < 32 {
        seq!['\\', 'u', '0', '0', lower_hex(((c as u32) / 16) as int), lower_hex(((c as u32) % 16) as int)]
    } else {
        seq![c]
    }
}

/// The characters of `s` as `serde_json` writes them inside a string literal.
pub open spec fn json_escaped(s: Seq<char>) -> Seq<char>
    decreases s.len(),
{
    if s.len() == 0 {
        Seq::empty()
    } else {
        json_escaped(s.drop_last()) + json_char(s.last())
    }
}

/// The JSON string literal `serde_json` writes for `s`.
pub open spec fn json_quoted(s: Seq<char>) -> Seq<char> {
    seq!['"'] + json_escaped(s) + seq!['"']
}

/// No line feed or carriage return stands raw in an escaped text.
proof fn lemma_json_escaped_one_line(s: Seq<char>)
    ensures
        forall|j: int| 0 <= j < json_escaped(s).len() ==> #[trigger] json_escaped(s)[j] != '\n' && json_escaped(s)[j] != '\r',
    decreases s.len(),
{
    if s.len() > 0 {
        lemma_json_escaped_one_line(s.drop_last());
        let c = s.last();
        let p = json_escaped(s.drop_last());
        let e = json_char(c);
        assert forall|j: int| 0 <= j < e.len() implies #[trigger] e[j] != '\n' && e[j] != '\r' by {
            if (c as u32) < 32 && !(c as u32 == 8 || c == '\t' || c == '\n' || c as u32 == 12 || c == '\r') {
                assert(((c as u32) / 16) < 2 && ((c as u32) % 16) < 16);
            }
        }
        assert forall|j: int| 0 <= j < json_escaped(s).len() implies #[trigger] json_escaped(s)[j] != '\n'
            && json_escaped(s)[j] != '\r' by {
            if j < p.len() {
                assert(json_escaped(s)[j] == p[j]);
            } else {
                assert(json_escaped(s)[j] == e[j - p.len()]);
            }
        }
    }
}

/// A quoted literal starts and ends with `"` and holds no raw line break.
proof fn lemma_json_quoted_ok(s: Seq<char>)
    ensures
        quoted_ok(json_quoted(s)),
{
    lemma_json_escaped_one_line(s);
    let q = json_quoted(s);
    let e = json_escaped(s);
    assert forall|j: int| 0 <= j < q.len() implies #[trigger] q[j] != '\n' && q[j] != '\r' by {
        if 0 < j < q.len() - 1 {
            assert(q[j] == e[j - 1]);
        }
    }
}

/// `serde_json::to_string` of a string: the JSON string literal its
/// compact writer produces, `json_quoted`. Writing a string into memory
/// cannot fail.
#[verifier::external_body]
fn quote_json(s: &str) -> (r: String)
    ensures
        r@ == json_quoted(s@),
{
    serde_json::to_string(s).unwrap_or_default()
}

/// The metadata line for `key`: `key: "value"` with the value trimmed and
/// JSON-quoted, or nothing when the value is missing or blank.
pub open spec fn meta_line(key: Seq<char>, value: Option<String>) -> Seq<char> {
    match value {
        Some(v) => if trim(v@).len() > 0 { key + ": "@ + json_quoted(trim(v@)) + "\n"@ } else { Seq::empty() },
        None => Seq::empty(),
    }
}

/// A writing with its metadata block: the body alone when no value is set,
/// else `---`, a line per non-blank value, `---`, a blank line and the body.
pub open spec fn front_matter_text(meta: Meta, body: Seq<char>) -> Seq<char> {
    if meta.synopsis is None && meta.status is None && meta.label is None {
        body
    } else {
        "---\n"@ + meta_line("synopsis"@, meta.synopsis) + meta_line("status"@, meta.status) + meta_line(
            "label"@,
            meta.label,
        ) + "---\n\n"@ + body
    }
}

/// A JSON string literal as `serde_json` writes it: quoted, with no raw line
/// break.
pub open spec fn quoted_ok(q: Seq<char>) -> bool {
    &&& q.len() >= 2
    &&& q[0] == '"'
    &&& q.last() == '"'
    &&& forall|j: int| 0 <= j < q.len() ==> #[trigger] q[j] != '\n' && q[j] != '\r'
}

/// A metadata line as written: nothing, or `key: ` and a quoted value.
pub open spec fn line_ok(key: Seq<char>, l: Seq<char>) -> bool {
    l.len() == 0 || exists|q: Seq<char>| quoted_ok(q) && l == key + ": "@ + q + "\n"@
}

/// A key the metadata block uses: letters only.
pub open spec fn plain_key(key: Seq<char>) -> bool {
    key.len() > 0 && forall|j: int| 0 <= j < key.len() ==> 'a' <= #[trigger] key[j] && key[j] <= 'z'
}

fn push_meta_line(out: &mut String, key: &str, value: &Option<String>)
    ensures
        final(out)@ == old(out)@ + meta_line(key@, *value),
        line_ok(key@, meta_line(key@, *value)),
{
    match value {
        Some(v) => {
            let t = trimmed(v.as_str());
            if !t.as_str().is_empty() {
                let ghost before = out@;
                push_str(out, key);
                push_str(out, ": ");
                let q = quote_json(t.as_str());
                proof {
                    lemma_json_quoted_ok(t@);
                }
                push_str(out, q.as_str());
                push_str(out, "\n");
                assert(out@ =~= before + meta_line(key@, *value));
                assert(quoted_ok(q@));
                assert(meta_line(key@, *value) == key@ + ": "@ + q@ + "\n"@);
            } else {
                assert(meta_line(key@, *value) =~= Seq::<char>::empty());
                assert(out@ =~= old(out)@ + Seq::<char>::empty());
            }
        },
        None => {
            assert(out@ =~= old(out)@ + Seq::<char>::empty());
        },
    }
}

/// A metadata line at `i`: the scan for the block's end moves past it, and
/// it reads as a `key: value` line.
proof fn lemma_meta_line_at(m: Seq<char>, i: int, key: Seq<char>, q: Seq<char>)
    requires
        plain_key(key),
        quoted_ok(q),
        0 <= i,
        i + key.len() + q.len() + 3 <= m.len(),
        m.subrange(i, i + key.len() + q.len() + 3) == key + ": "@ + q + "\n"@,
    ensures
        crate::export::fm_scan(m, i) == crate::export::fm_scan(m, i + key.len() + q.len() + 3),
        crate::export::first_line_at(m, i) == key + ": "@ + q,
        crate::export::is_key(key + ": "@ + q),
{
    reveal_strlit(": ");
    reveal_strlit("\n");
    let n = key.len() + q.len() + 3;
    let line = key + ": "@ + q + "\n"@;
    let c = key + ": "@ + q;
    assert(line =~= c.push('\n'));
    assert(c.len() == n - 1);
    assert forall|j: int| 0 <= j < key.len() implies #[trigger] c[j] == key[j] by {}
    assert(c[key.len() as int] == ':');
    assert(c[key.len() + 1int] == ' ');
    assert forall|j: int| 0 <= j < q.len() implies #[trigger] c[key.len() + 2 + j] == q[j] by {}
    assert forall|j: int| 0 <= j < n - 1 implies #[trigger] c[j] != '\n' by {
        if j < key.len() {
            assert(c[j] == key[j]);
        } else if j >= key.len() + 2 {
            assert(c[j] == q[j - key.len() - 2]);
        }
    }
    let s = m.skip(i);
    assert forall|j: int| 0 <= j < n - 1 implies s[j] != '\n' by {
        assert(s[j] == m[i + j]);
        assert(m[i + j] == line[j]);
        assert(line[j] == c[j]);
    }
    assert(s[n - 1] == m[i + n - 1]);
    assert(m[i + n - 1] == line[n - 1]);
    crate::text::lemma_first_of(s, '\n', n - 1);
    assert(crate::export::line_end(m, i) == i + n);
    assert(m.subrange(i, i + n) == line);
    assert(line.drop_last() =~= c);
    assert(c.last() == q.last());
    assert(line.last() == '\n');
    assert(crate::export::strip_breaks_tail(line) == crate::export::strip_breaks_tail(c));
    assert(c.last() == '"');
    assert(crate::export::strip_breaks_tail(c) == c);
    assert(crate::text::trim_end(c) == c);
    assert(c != seq!['-', '-', '-']) by {
        assert(c[0] == key[0]);
    }
    crate::text::lemma_first_of(c, ':', key.len() as int);
    assert(crate::export::is_key_start(c[0])) by {
        assert(c[0] == key[0]);
    }
    assert forall|j: int| 0 <= j < key.len() implies crate::export::is_key_char(#[trigger] c[j]) by {
        assert(c[j] == key[j]);
    }
    assert(crate::export::is_key(c));
    assert(crate::export::yaml_like(c));
    assert(m.subrange(i, i + n - 1) =~= c);
}

/// The closing `---` line at `i` ends the block just after it.
proof fn lemma_close_at(m: Seq<char>, i: int)
    requires
        0 <= i,
        i + 4 <= m.len(),
        m.subrange(i, i + 4) == "---\n"@,
    ensures
        crate::export::fm_scan(m, i) == Some(i + 4),
{
    reveal_strlit("---\n");
    let s = m.skip(i);
    assert forall|j: int| 0 <= j < 3 implies s[j] != '\n' by {
        assert(s[j] == m[i + j]);
        assert(m[i + j] == "---\n"@[j]);
    }
    assert(s[3] == m[i + 3]);
    assert(m[i + 3] == "---\n"@[3]);
    crate::text::lemma_first_of(s, '\n', 3);
    assert(crate::export::line_end(m, i) == i + 4);
    let line = m.subrange(i, i + 4);
    let dashes = seq!['-', '-', '-'];
    assert(line.drop_last() =~= dashes);
    assert(line.last() == '\n');
    assert(crate::export::strip_breaks_tail(line) == crate::export::strip_breaks_tail(dashes));
    assert(dashes.last() == '-');
    assert(crate::export::strip_breaks_tail(dashes) == dashes);
    assert(crate::text::trim_end(seq!['-', '-', '-']) =~= seq!['-', '-', '-']);
}

proof fn lemma_line_moves(m: Seq<char>, i: int, key: Seq<char>, l: Seq<char>)
    requires
        plain_key(key),
        line_ok(key, l),
        l.len() > 0,
        0 <= i,
        i + l.len() <= m.len(),
        m.subrange(i, i + l.len()) == l,
    ensures
        crate::export::fm_scan(m, i) == crate::export::fm_scan(m, i + l.len()),
        crate::export::is_key(crate::export::first_line_at(m, i)),
{
    reveal_strlit(": ");
    reveal_strlit("\n");
    let q = choose|q: Seq<char>| quoted_ok(q) && l == key + ": "@ + q + "\n"@;
    assert(l.len() == key.len() + q.len() + 3);
    lemma_meta_line_at(m, i, key, q);
}

/// A block whose lines are as written, at least one of them set, is
/// recognised as metadata and dropped, leaving the body (without the line
/// breaks it may start with).
proof fn lemma_block_strips(l1: Seq<char>, l2: Seq<char>, l3: Seq<char>, body: Seq<char>)
    requires
        line_ok("synopsis"@, l1),
        line_ok("status"@, l2),
        line_ok("label"@, l3),
        l1.len() > 0 || l2.len() > 0 || l3.len() > 0,
    ensures
        crate::export::without_front_matter("---\n"@ + l1 + l2 + l3 + "---\n\n"@ + body)
            == crate::export::strip_breaks_lead(body),
{
    reveal_strlit("synopsis");
    reveal_strlit("status");
    reveal_strlit("label");
    reveal_strlit("---\n");
    reveal_strlit("---\n\n");
    let m = "---\n"@ + l1 + l2 + l3 + "---\n\n"@ + body;
    let p1: int = 4int + l1.len();
    let p2: int = p1 + l2.len();
    let p3: int = p2 + l3.len();
    assert(m.subrange(4, p1) =~= l1);
    assert(m.subrange(p1, p2) =~= l2);
    assert(m.subrange(p2, p3) =~= l3);
    assert(m.subrange(p3, p3 + 4) =~= "---\n"@);
    assert(plain_key("synopsis"@));
    assert(plain_key("status"@));
    assert(plain_key("label"@));
    lemma_close_at(m, p3);
    if l3.len() > 0 {
        lemma_line_moves(m, p2, "label"@, l3);
    }
    if l2.len() > 0 {
        lemma_line_moves(m, p1, "status"@, l2);
    }
    if l1.len() > 0 {
        lemma_line_moves(m, 4, "synopsis"@, l1);
    }
    assert(crate::export::fm_scan(m, 4) == Some(p3 + 4));
    assert(crate::text::starts_with(m, seq!['-', '-', '-', '\n'])) by {
        assert(m.take(4) =~= seq!['-', '-', '-', '\n']);
    }
    assert(crate::export::fm_prefix(m) == 4);
    assert(crate::export::is_key(crate::export::first_line_at(m, 4)));
    assert(m.skip(p3 + 4) =~= seq!['\n'] + body);
    assert((seq!['\n'] + body).drop_first() =~= body);
    assert(crate::export::strip_breaks_lead(seq!['\n'] + body) == crate::export::strip_breaks_lead(body));
}

/// Some value of `meta` is set and not blank.
pub open spec fn has_value(meta: Meta) -> bool {
    ||| meta.synopsis matches Some(v) && trim(v@).len() > 0
    ||| meta.status matches Some(v) && trim(v@).len() > 0
    ||| meta.label matches Some(v) && trim(v@).len() > 0
}

/// Values are JSON strings, which are also valid YAML, so any text round-trips.
pub fn with_front_matter(meta: &Meta, body: &str) -> (r: String)
    ensures
        r@ == front_matter_text(*meta, body@),
        has_value(*meta) ==> crate::export::without_front_matter(r@) == crate::export::strip_breaks_lead(body@),
{
    if meta.is_empty() {
        return body.to_string();
    }
    let mut out = String::new();
    push_str(&mut out, "---\n");
    push_meta_line(&mut out, "synopsis", &meta.synopsis);
    push_meta_line(&mut out, "status", &meta.status);
    push_meta_line(&mut out, "label", &meta.label);
    push_str(&mut out, "---\n\n");
    push_str(&mut out, body);
    proof {
        let l1 = meta_line("synopsis"@, meta.synopsis);
        let l2 = meta_line("status"@, meta.status);
        let l3 = meta_line("label"@, meta.label);
        assert(out@ =~= "---\n"@ + l1 + l2 + l3 + "---\n\n"@ + body@);
        if has_value(*meta) {
            reveal_strlit(": ");
            reveal_strlit("\n");
            lemma_block_strips(l1, l2, l3, body@);
        }
    }
    out
}

/// A byte `encodeURIComponent` leaves alone: ASCII letters and digits and
/// `- _ . ! ~ * '`.
pub open spec fn component_safe(b: u8) -> bool {
    (48 <= b && b <= 57) || (65 <= b && b <= 90) || (97 <= b && b <= 122) || b == 45 || b == 95 || b == 46
        || b == 33 || b == 126 || b == 42 || b == 39
}

/// The bytes `b` as a link component: safe bytes as they are, others as `%XX`.
pub open spec fn component_encoded(b: Seq<u8>) -> Seq<char>
    decreases b.len(),
{
    if b.len() == 0 {
        Seq::empty()
    } else if component_safe(b.last()) {
        component_encoded(b.drop_last()).push(b.last() as char)
    } else {
        component_encoded(b.drop_last()) + seq![
            '%',
            crate::dropbox::upper_hex(b.last() as int / 16),
            crate::dropbox::upper_hex(b.last() as int % 16),
        ]
    }
}

/// Same encoding as the editor's `encodeURIComponent`, plus parentheses so the
/// link destination never ends early.
pub fn encode_component(s: &str) -> (r: String)
    ensures
        r@ == component_encoded(vstd::utf8::encode_utf8(s@)),
{
    let b = s.as_bytes();
    let mut out = String::new();
    let mut i: usize = 0;
    while i < b.len()
        invariant
            i <= b@.len(),
            b@ == vstd::utf8::encode_utf8(s@),
            out@ == component_encoded(b@.take(i as int)),
        decreases b.len() - i,
    {
        assert(b@.take(i + 1).drop_last() =~= b@.take(i as int));
        let x = b[i];
        if (48 <= x && x <= 57) || (65 <= x && x <= 90) || (97 <= x && x <= 122) || x == 45 || x == 95 || x == 46
            || x == 33 || x == 126 || x == 42 || x == 39 {
            out.push(x as char);
        } else {
            out.push('%');
            out.push(crate::dropbox::upper_hex_digit(x / 16));
            out.push(crate::dropbox::upper_hex_digit(x % 16));
        }
        assert(out@ =~= component_encoded(b@.take(i + 1)));
        i += 1;
    }
    assert(b@.take(b@.len() as int) =~= b@);
    out
}

/// `p` stands at `i` in `s`.
pub open spec fn occurs_at(s: Seq<char>, i: int, p: Seq<char>) -> bool {
    0 <= i && i + p.len() <= s.len() && s.subrange(i, i + p.len()) == p
}

/// The first place from `i` on where `p` stands in `s`.
pub open spec fn find_from(s: Seq<char>, p: Seq<char>, i: int) -> Option<int>
    decreases s.len() + 1 - i,
{
    if i < 0 || i + p.len() > s.len() {
        None
    } else if occurs_at(s, i, p) {
        Some(i)
    } else {
        find_from(s, p, i + 1)
    }
}

/// What follows the last `/` of `s` (all of it when there is none).
pub open spec fn after_last_slash(s: Seq<char>) -> Seq<char>
    decreases s.len(),
{
    if s.len() == 0 || s.last() == '/' {
        Seq::empty()
    } else {
        after_last_slash(s.drop_last()).push(s.last())
    }
}

/// The value of the first entry with key `key`.
pub open spec fn first_value(lookup: Seq<(String, String)>, key: Seq<char>) -> Option<Seq<char>>
    decreases lookup.len(),
{
    if lookup.len() == 0 {
        None
    } else if lookup[0].0@ == key {
        Some(lookup[0].1@)
    } else {
        first_value(lookup.drop_first(), key)
    }
}

/// What a wiki link `[[inner]]` becomes: a link to the writing its note
/// (before any `#` and `|`, last path segment, lower-cased) names, showing
/// its alias or target with brackets escaped; an embed or an unknown note
/// leaves just that text.
pub open spec fn wiki_link(inner: Seq<char>, embed: bool, lookup: Seq<(String, String)>) -> Seq<char> {
    let k = crate::text::first_of(inner, '|');
    let target = if k < inner.len() { inner.take(k) } else { inner };
    let shown = if k < inner.len() { inner.skip(k + 1) } else { inner };
    let note = trim(target.take(crate::text::first_of(target, '#')));
    let text = trim(shown);
    let key = crate::text::lowercase(after_last_slash(note));
    match first_value(lookup, key) {
        Some(name) => if embed {
            text
        } else {
            "["@ + crate::text::replace_all(crate::text::replace_all(text, "["@, "\\["@), "]"@, "\\]"@)
                + "](#writing/"@ + component_encoded(vstd::utf8::encode_utf8(name)) + ")"@
        },
        None => text,
    }
}

/// `s` from `pos` on with its wiki links converted.
pub open spec fn wiki_from(s: Seq<char>, pos: int, lookup: Seq<(String, String)>) -> Seq<char>
    decreases s.len() - pos,
{
    if pos < 0 || pos > s.len() {
        Seq::empty()
    } else {
        match find_from(s, "[["@, pos) {
            None => s.skip(pos),
            Some(start) => match find_from(s, "]]"@, start + 2) {
                None => s.skip(pos),
                Some(end) => {
                    let inner = s.subrange(start + 2, end);
                    if start + 2 <= pos || end + 2 <= pos || start + 2 > end || end + 2 > s.len() {
                        Seq::empty()
                    } else if inner.contains('\n') || find_from(inner, "[["@, 0) is Some {
                        s.subrange(pos, start + 2) + wiki_from(s, start + 2, lookup)
                    } else {
                        let embed = start > pos && s[start - 1] == '!';
                        s.subrange(pos, if embed { start - 1 } else { start }) + wiki_link(inner, embed, lookup)
                            + wiki_from(s, end + 2, lookup)
                    }
                },
            },
        }
    }
}

/// The first place from `from` on where `p` stands in `v`.
pub(crate) fn find_pattern(v: &Vec<char>, p: &Vec<char>, from: usize) -> (r: Option<usize>)
    requires
        from <= v.len(),
        p@.len() > 0,
    ensures
        match r {
            Some(i) => find_from(v@, p@, from as int) == Some(i as int) && from <= i && i + p@.len() <= v@.len(),
            None => find_from(v@, p@, from as int) is None,
        },
{
    let mut i = from;
    while i < v.len()
        invariant
            from <= i <= v.len(),
            p@.len() > 0,
            find_from(v@, p@, from as int) == find_from(v@, p@, i as int),
        decreases v.len() - i,
    {
        if p.len() > v.len() - i {
            return None;
        }
        if crate::text::has_at(v, i, p) {
            return Some(i);
        }
        i += 1;
    }
    None
}

fn first_value_of(lookup: &Vec<(String, String)>, key: &str) -> (r: Option<String>)
    ensures
        match r {
            Some(v) => first_value(lookup@, key@) == Some(v@),
            None => first_value(lookup@, key@) is None,
        },
{
    let mut i: usize = 0;
    assert(lookup@.skip(0) =~= lookup@);
    while i < lookup.len()
        invariant
            i <= lookup@.len(),
            first_value(lookup@, key@) == first_value(lookup@.skip(i as int), key@),
        decreases lookup.len() - i,
    {
        assert(lookup@.skip(i as int)[0] == lookup@[i as int]);
        assert(lookup@.skip(i as int).drop_first() =~= lookup@.skip(i + 1));
        if crate::text::same_text(lookup[i].0.as_str(), key) {
            return Some(lookup[i].1.clone());
        }
        i += 1;
    }
    None
}

fn after_last_slash_of(v: &Vec<char>, a: usize, b: usize) -> (r: usize)
    requires
        a <= b <= v.len(),
    ensures
        a <= r <= b,
        v@.subrange(r as int, b as int) == after_last_slash(v@.subrange(a as int, b as int)),
{
    let mut k = b;
    while k > a && v[k - 1] != '/'
        invariant
            a <= k <= b <= v.len(),
            forall|j: int| k <= j < b ==> #[trigger] v@[j] != '/',
        decreases k,
    {
        k -= 1;
    }
    proof {
        lemma_after_last_slash(v@, a as int, k as int, b as int);
    }
    k
}

proof fn lemma_after_last_slash(v: Seq<char>, a: int, k: int, b: int)
    requires
        0 <= a <= k <= b <= v.len(),
        forall|j: int| k <= j < b ==> #[trigger] v[j] != '/',
        k == a || v[k - 1] == '/',
    ensures
        v.subrange(k, b) == after_last_slash(v.subrange(a, b)),
    decreases b - k,
{
    let s = v.subrange(a, b);
    if b == k {
        if s.len() > 0 {
            assert(s.last() == v[k - 1]);
        }
        assert(v.subrange(k, b) =~= Seq::<char>::empty());
    } else {
        lemma_after_last_slash(v, a, k, b - 1);
        assert(s.drop_last() =~= v.subrange(a, b - 1));
        assert(s.last() == v[b - 1]);
        assert(v.subrange(k, b) =~= v.subrange(k, b - 1).push(v[b - 1]));
    }
}

/// The link text for `v[a..b]`, the inside of a wiki link.
fn wiki_link_of(v: &Vec<char>, a: usize, b: usize, embed: bool, lookup: &Vec<(String, String)>) -> (r: String)
    requires
        a <= b <= v.len(),
    ensures
        r@ == wiki_link(v@.subrange(a as int, b as int), embed, lookup@),
{
    let ghost inner = v@.subrange(a as int, b as int);
    let bar = crate::text::find_char(v, a, '|');
    let k = if bar < b { bar } else { b };
    proof {
        lemma_first_in(v@, a as int, b as int, bar as int, '|');
    }
    let (tb, sa) = if bar < b { (bar, bar + 1) } else { (b, a) };
    let hash = crate::text::find_char(v, a, '#');
    let te = if hash < tb { hash } else { tb };
    proof {
        lemma_first_in(v@, a as int, tb as int, hash as int, '#');
        assert(inner.take(k - a) =~= v@.subrange(a as int, tb as int) || k == b);
    }
    let (n0, n1) = crate::text::trim_range(v, a, te);
    let (t0, t1) = crate::text::trim_range(v, sa, if bar < b { b } else { b });
    let after = after_last_slash_of(v, n0, n1);
    let note_tail = string_of(v, after, n1);
    let key = crate::text::to_lowercase(note_tail.as_str());
    let text = string_of(v, t0, t1);
    proof {
        if bar < b {
            assert(inner.take(bar - a) =~= v@.subrange(a as int, bar as int));
            assert(inner.skip(bar - a + 1) =~= v@.subrange(bar + 1, b as int));
        } else {
            assert(inner =~= v@.subrange(a as int, b as int));
        }
        let target = v@.subrange(a as int, tb as int);
        assert(target.take(te - a) =~= v@.subrange(a as int, te as int));
    }
    match first_value_of(lookup, key.as_str()) {
        Some(name) => {
            if embed {
                text
            } else {
                proof {
                    reveal_strlit("[");
                    reveal_strlit("]");
                }
                let e1 = crate::text::replace(text.as_str(), "[", "\\[");
                let e2 = crate::text::replace(e1.as_str(), "]", "\\]");
                let mut out = String::new();
                push_str(&mut out, "[");
                push_str(&mut out, e2.as_str());
                push_str(&mut out, "](#writing/");
                let enc = encode_component(name.as_str());
                push_str(&mut out, enc.as_str());
                push_str(&mut out, ")");
                out
            }
        },
        None => text,
    }
}

/// `find_char` from `a` gives, within `v[a..b]`, the first `c` or `b - a`.
proof fn lemma_first_in(v: Seq<char>, a: int, b: int, found: int, c: char)
    requires
        0 <= a <= b <= v.len(),
        a <= found <= v.len(),
        forall|j: int| a <= j < found ==> v[j] != c,
        found < v.len() ==> v[found] == c,
    ensures
        crate::text::first_of(v.subrange(a, b), c) == if found < b { found - a } else { b - a },
{
    let s = v.subrange(a, b);
    let i = if found < b { found - a } else { b - a };
    assert forall|j: int| 0 <= j < i implies s[j] != c by {
        assert(s[j] == v[a + j]);
    }
    if found < b {
        assert(s[found - a] == v[found]);
    }
    crate::text::lemma_first_of(s, c, i);
}

/// The text from `pos` up to and including the next wiki link converted,
/// and where to go on; `None` when the rest holds no complete link.
fn wiki_next(
    v: &Vec<char>,
    open: &Vec<char>,
    close: &Vec<char>,
    pos: usize,
    lookup: &Vec<(String, String)>,
) -> (r: (String, Option<usize>))
    requires
        open@ == "[["@,
        close@ == "]]"@,
        open@.len() == 2,
        close@.len() == 2,
        pos <= v@.len(),
    ensures
        match r.1 {
            None => r.0@ == wiki_from(v@, pos as int, lookup@),
            Some(next) => pos < next <= v@.len() && wiki_from(v@, pos as int, lookup@) == r.0@ + wiki_from(
                v@,
                next as int,
                lookup@,
            ),
        },
{
    let total = v.len();
    let mut out = String::new();
    let start = match find_pattern(v, open, pos) {
        Some(st) => st,
        None => {
            crate::text::push_range(&mut out, v, pos, total);
            assert(v@.subrange(pos as int, v@.len() as int) =~= v@.skip(pos as int));
            return (out, None);
        },
    };
    let end = match find_pattern(v, close, start + 2) {
        Some(e) => e,
        None => {
            crate::text::push_range(&mut out, v, pos, total);
            assert(v@.subrange(pos as int, v@.len() as int) =~= v@.skip(pos as int));
            return (out, None);
        },
    };
    let inner = string_of(v, start + 2, end);
    let iv = chars_of(inner.as_str());
    let nl = crate::text::find_char(&iv, 0, '\n');
    let nested = find_pattern(&iv, open, 0);
    let ghost innerv = v@.subrange(start + 2, end as int);
    proof {
        if nl < iv.len() {
            assert(innerv[nl as int] == '\n');
        } else {
            assert(!innerv.contains('\n'));
        }
    }
    if nl < iv.len() || nested.is_some() {
        crate::text::push_range(&mut out, v, pos, start + 2);
        (out, Some(start + 2))
    } else {
        let embed = start > pos && v[start - 1] == '!';
        let lead_end = if embed { start - 1 } else { start };
        crate::text::push_range(&mut out, v, pos, lead_end);
        let link = wiki_link_of(v, start + 2, end, embed, lookup);
        push_str(&mut out, link.as_str());
        (out, Some(end + 2))
    }
}

/// Turns Obsidian `[[Note]]`, `[[Note|Alias]]` and `[[Note#Heading]]` into links
/// between writings; embeds (`![[...]]`) and unknown targets become plain text.
/// `lookup` maps a note's lower-cased file stem to its writing; the first
/// entry for a stem counts.
pub fn convert_wikilinks(markdown: &str, lookup: &Vec<(String, String)>) -> (r: String)
    ensures
        r@ == wiki_from(markdown@, 0, lookup@),
{
    let v = chars_of(markdown);
    let open = chars_of("[[");
    let close = chars_of("]]");
    proof {
        reveal_strlit("[[");
        reveal_strlit("]]");
    }
    let mut out = String::new();
    let mut pos: usize = 0;
    assert(out@ + wiki_from(v@, 0, lookup@) =~= wiki_from(v@, 0, lookup@));
    loop
        invariant
            v@ == markdown@,
            open@ == "[["@,
            close@ == "]]"@,
            open@.len() == 2,
            close@.len() == 2,
            pos <= v@.len(),
            wiki_from(v@, 0, lookup@) == out@ + wiki_from(v@, pos as int, lookup@),
        decreases v@.len() - pos,
    {
        let (piece, next) = wiki_next(&v, &open, &close, pos, lookup);
        let ghost before = out@;
        push_str(&mut out, piece.as_str());
        match next {
            None => {
                return out;
            },
            Some(n) => {
                assert(before + (piece@ + wiki_from(v@, n as int, lookup@)) =~= out@ + wiki_from(v@, n as int, lookup@));
                pos = n;
            },
        }
    }
}

/// The whitespace-separated words of `s`, in order.
pub open spec fn words(s: Seq<char>) -> Seq<Seq<char>>
    decreases s.len(),
{
    if s.len() == 0 {
        Seq::empty()
    } else {
        let w = words(s.drop_last());
        let c = s.last();
        if crate::text::is_ws(c) {
            w
        } else if s.len() > 1 && !crate::text::is_ws(s[s.len() - 2]) {
            w.drop_last().push(w.last().push(c))
        } else {
            w.push(seq![c])
        }
    }
}

/// `s` without `c` at its start.
pub open spec fn strip_lead_char(s: Seq<char>, c: char) -> Seq<char>
    decreases s.len(),
{
    if s.len() > 0 && s[0] == c { strip_lead_char(s.drop_first(), c) } else { s }
}

/// `s` without `c` at its end.
pub open spec fn strip_trail_char(s: Seq<char>, c: char) -> Seq<char>
    decreases s.len(),
{
    if s.len() > 0 && s.last() == c { strip_trail_char(s.drop_last(), c) } else { s }
}

/// A character as it stands in a file name: awkward ones become spaces.
pub open spec fn name_char(c: char) -> char {
    if crate::export::bad_in_name(c) { ' ' } else { c }
}

/// The file or folder name `name` gets: awkward characters as spaces, runs of
/// whitespace as one space, no dots at either end, trimmed, at most 120
/// characters; `Untitled` when nothing is left.
pub open spec fn cleaned_name(name: Seq<char>) -> Seq<char> {
    let collapsed = join(words(name.map_values(|c: char| name_char(c))), " "@);
    let stripped = trim(strip_trail_char(strip_lead_char(collapsed, '.'), '.'));
    let short = if stripped.len() > 120 { stripped.take(120) } else { stripped };
    if short.len() == 0 { "Untitled"@ } else { short }
}

proof fn lemma_join_extend_last(ws: Seq<Seq<char>>, c: char, sep: Seq<char>)
    requires
        ws.len() > 0,
    ensures
        join(ws.drop_last().push(ws.last().push(c)), sep) == join(ws, sep).push(c),
{
    lemma_join_push(ws.drop_last(), ws.last().push(c), sep);
    lemma_join_push(ws.drop_last(), ws.last(), sep);
    assert(ws.drop_last().push(ws.last()) =~= ws);
}

/// A file or folder name that is safe on every platform.
pub fn clean_name(name: &str) -> (r: String)
    ensures
        r@ == cleaned_name(name@),
{
    proof {
        reveal_strlit(" ");
        assert(" "@ =~= seq![' ']);
    }
    let v = chars_of(name);
    let ghost m = name@.map_values(|c: char| name_char(c));
    let mut mapped: Vec<char> = Vec::new();
    let mut out: Vec<char> = Vec::new();
    let mut i: usize = 0;
    while i < v.len()
        invariant
            i <= v@.len(),
            v@ == name@,
            m == name@.map_values(|c: char| name_char(c)),
            " "@ == seq![' '],
            mapped@ == m.take(i as int),
            out@ == join(words(m.take(i as int)), " "@),
            (out@.len() == 0) == (words(m.take(i as int)).len() == 0),
        decreases v.len() - i,
    {
        let c0 = v[i];
        let bad = c0 == '/' || c0 == '\\' || c0 == ':' || c0 == '*' || c0 == '?' || c0 == '"' || c0 == '<'
            || c0 == '>' || c0 == '|' || c0 <= '\u{1f}' || ('\u{7f}' <= c0 && c0 <= '\u{9f}');
        let c = if bad { ' ' } else { c0 };
        let ghost t = m.take(i + 1);
        assert(t.drop_last() =~= m.take(i as int));
        assert(t.last() == c);
        let ghost w = words(m.take(i as int));
        if !crate::text::is_whitespace(c) {
            if i > 0 && !crate::text::is_whitespace(mapped[i - 1]) {
                assert(t[t.len() - 2] == mapped@[i - 1]);
                assert(w.len() > 0);
                proof {
                    lemma_join_extend_last(w, c, " "@);
                }
                out.push(c);
            } else {
                proof {
                    lemma_join_push(w, seq![c], " "@);
                }
                let ghost o = out@;
                if out.len() > 0 {
                    out.push(' ');
                    out.push(c);
                    assert(out@ =~= o + " "@ + seq![c]);
                } else {
                    out.push(c);
                    assert(out@ =~= seq![c]);
                }
            }
        }
        mapped.push(c);
        i += 1;
    }
    assert(m.take(v@.len() as int) =~= m);
    let n = out.len();
    let mut lo: usize = 0;
    assert(out@.subrange(0, n as int) =~= out@);
    while lo < n && out[lo] == '.'
        invariant
            lo <= n == out@.len(),
            strip_lead_char(out@, '.') == strip_lead_char(out@.subrange(lo as int, n as int), '.'),
        decreases n - lo,
    {
        assert(out@.subrange(lo as int, n as int).drop_first() =~= out@.subrange(lo + 1, n as int));
        lo += 1;
    }
    let mut hi: usize = n;
    while hi > lo && out[hi - 1] == '.'
        invariant
            lo <= hi <= n == out@.len(),
            strip_trail_char(out@.subrange(lo as int, n as int), '.') == strip_trail_char(
                out@.subrange(lo as int, hi as int),
                '.',
            ),
        decreases hi - lo,
    {
        assert(out@.subrange(lo as int, hi as int).drop_last() =~= out@.subrange(lo as int, hi - 1));
        hi -= 1;
    }
    let (a, b) = trim_range(&out, lo, hi);
    proof {
        reveal_strlit("Untitled");
        assert(out@.subrange(lo as int, hi as int).len() == 0 || out@.subrange(lo as int, hi as int)[0] != '.');
        assert(strip_lead_char(out@.subrange(lo as int, n as int), '.') == out@.subrange(lo as int, n as int));
    }
    if a == b {
        return "Untitled".to_owned();
    }
    if b - a > 120 {
        assert(out@.subrange(a as int, b as int).take(120) =~= out@.subrange(a as int, a + 120));
        string_of(&out, a, a + 120)
    } else {
        string_of(&out, a, b)
    }
}

/// No character of `s` is awkward in a file name.
pub open spec fn name_safe(s: Seq<char>) -> bool {
    forall|i: int| 0 <= i < s.len() ==> !crate::export::bad_in_name(#[trigger] s[i])
}

proof fn lemma_words_safe(s: Seq<char>)
    requires
        name_safe(s),
    ensures
        forall|j: int| 0 <= j < words(s).len() ==> name_safe(#[trigger] words(s)[j]),
    decreases s.len(),
{
    if s.len() > 0 {
        let t = s.drop_last();
        assert(name_safe(t)) by {
            assert forall|i: int| 0 <= i < t.len() implies !crate::export::bad_in_name(#[trigger] t[i]) by {
                assert(t[i] == s[i]);
            }
        }
        lemma_words_safe(t);
        let w = words(t);
        let c = s.last();
        assert(!crate::export::bad_in_name(s[s.len() - 1]));
        if !crate::text::is_ws(c) {
            if s.len() > 1 && !crate::text::is_ws(s[s.len() - 2]) {
                let n = w.drop_last().push(w.last().push(c));
                if w.len() > 0 {
                    assert(name_safe(w[w.len() - 1]));
                    assert forall|j: int| 0 <= j < n.len() implies name_safe(#[trigger] n[j]) by {
                        if j < n.len() - 1 {
                            assert(n[j] == w[j]);
                        } else {
                            let x = w.last().push(c);
                            assert forall|i: int| 0 <= i < x.len() implies !crate::export::bad_in_name(
                                #[trigger] x[i],
                            ) by {
                                if i < x.len() - 1 {
                                    assert(x[i] == w.last()[i]);
                                }
                            }
                        }
                    }
                }
            } else {
                let n = w.push(seq![c]);
                assert forall|j: int| 0 <= j < n.len() implies name_safe(#[trigger] n[j]) by {
                    if j < n.len() - 1 {
                        assert(n[j] == w[j]);
                    } else {
                        assert(n[j] == seq![c]);
                    }
                }
            }
        }
    }
}

proof fn lemma_join_safe(parts: Seq<Seq<char>>, sep: Seq<char>)
    requires
        forall|j: int| 0 <= j < parts.len() ==> name_safe(#[trigger] parts[j]),
        name_safe(sep),
    ensures
        name_safe(join(parts, sep)),
    decreases parts.len(),
{
    if parts.len() > 1 {
        let p = parts.drop_last();
        assert forall|j: int| 0 <= j < p.len() implies name_safe(#[trigger] p[j]) by {
            assert(p[j] == parts[j]);
        }
        lemma_join_safe(p, sep);
        let a = join(p, sep);
        let b = parts.last();
        assert(name_safe(b)) by {
            assert(b == parts[parts.len() - 1]);
        }
        let r = a + sep + b;
        assert forall|i: int| 0 <= i < r.len() implies !crate::export::bad_in_name(#[trigger] r[i]) by {
            if i < a.len() {
                assert(r[i] == a[i]);
            } else if i < a.len() + sep.len() {
                assert(r[i] == sep[i - a.len()]);
            } else {
                assert(r[i] == b[i - a.len() - sep.len()]);
            }
        }
    } else if parts.len() == 1 {
        assert(name_safe(parts[0]));
    }
}

proof fn lemma_subrange_safe(s: Seq<char>, a: int, b: int)
    requires
        name_safe(s),
        0 <= a <= b <= s.len(),
    ensures
        name_safe(s.subrange(a, b)),
{
    assert forall|i: int| 0 <= i < b - a implies !crate::export::bad_in_name(#[trigger] s.subrange(a, b)[i]) by {
        assert(s.subrange(a, b)[i] == s[a + i]);
    }
}

proof fn lemma_strips_safe(s: Seq<char>, c: char)
    requires
        name_safe(s),
    ensures
        name_safe(strip_lead_char(s, c)),
        name_safe(strip_trail_char(s, c)),
        name_safe(crate::text::trim_start(s)),
        name_safe(crate::text::trim_end(s)),
    decreases s.len(),
{
    if s.len() > 0 {
        lemma_subrange_safe(s, 1, s.len() as int);
        lemma_subrange_safe(s, 0, s.len() - 1);
        assert(s.drop_first() =~= s.subrange(1, s.len() as int));
        assert(s.drop_last() =~= s.subrange(0, s.len() - 1));
        lemma_strips_safe(s.drop_first(), c);
        lemma_strips_safe(s.drop_last(), c);
    }
}

/// A cleaned name is never empty, has at most 120 characters, and holds no
/// character that is awkward in a file name on some platform.
pub proof fn law_clean_name_is_safe(name: Seq<char>)
    ensures
        0 < cleaned_name(name).len() <= 120,
        name_safe(cleaned_name(name)),
{
    reveal_strlit("Untitled");
    reveal_strlit(" ");
    let m = name.map_values(|c: char| name_char(c));
    assert(name_safe(m)) by {
        assert forall|i: int| 0 <= i < m.len() implies !crate::export::bad_in_name(#[trigger] m[i]) by {
            assert(m[i] == name_char(name[i]));
        }
    }
    lemma_words_safe(m);
    assert(name_safe(" "@)) by {
        assert(" "@ =~= seq![' ']);
    }
    lemma_join_safe(words(m), " "@);
    let collapsed = join(words(m), " "@);
    lemma_strips_safe(collapsed, '.');
    let a = strip_lead_char(collapsed, '.');
    lemma_strips_safe(a, '.');
    let b = strip_trail_char(a, '.');
    lemma_strips_safe(b, '.');
    let t = crate::text::trim_start(b);
    lemma_strips_safe(t, '.');
    let stripped = trim(b);
    assert(stripped == crate::text::trim_end(t));
    if stripped.len() > 120 {
        lemma_subrange_safe(stripped, 0, 120);
        assert(stripped.take(120) =~= stripped.subrange(0, 120));
    }
    let u = "Untitled"@;
    assert(name_safe(u)) by {
        assert forall|i: int| 0 <= i < u.len() implies !crate::export::bad_in_name(#[trigger] u[i]) by {
        }
    }
}

/// A character's code with ASCII capitals lowered.
pub open spec fn ascii_lower_code(c: char) -> u32 {
    if 'A' <= c && c <= 'Z' { (c as u32 + 32) as u32 } else { c as u32 }
}

/// `a` and `b` are equal ignoring ASCII case, as `eq_ignore_ascii_case` tells.
pub open spec fn same_ignoring_ascii_case(a: Seq<char>, b: Seq<char>) -> bool {
    a.len() == b.len() && forall|i: int| 0 <= i < a.len() ==> #[trigger] ascii_lower_code(a[i]) == ascii_lower_code(b[i])
}

/// Whether `a` equals `b` ignoring ASCII case.
pub fn eq_ignore_ascii_case(a: &str, b: &str) -> (r: bool)
    ensures
        r == same_ignoring_ascii_case(a@, b@),
{
    let va = chars_of(a);
    let vb = chars_of(b);
    if va.len() != vb.len() {
        return false;
    }
    let mut i: usize = 0;
    while i < va.len()
        invariant
            i <= va@.len() == vb@.len(),
            va@ == a@,
            vb@ == b@,
            forall|k: int| 0 <= k < i ==> #[trigger] ascii_lower_code(va@[k]) == ascii_lower_code(vb@[k]),
        decreases va.len() - i,
    {
        let x = va[i];
        let y = vb[i];
        let lx: u32 = if 'A' <= x && x <= 'Z' { x as u32 + 32 } else { x as u32 };
        let ly: u32 = if 'A' <= y && y <= 'Z' { y as u32 + 32 } else { y as u32 };
        if lx != ly {
            assert(ascii_lower_code(a@[i as int]) != ascii_lower_code(b@[i as int]));
            return false;
        }
        i += 1;
    }
    true
}

/// The extension of a path, compared ignoring ASCII case, is `e`.
pub open spec fn has_ext(path: Seq<char>, e: Seq<char>) -> bool {
    match crate::paths::extension_of(crate::paths::components_of(path)) {
        Some(x) => same_ignoring_ascii_case(x, e),
        None => false,
    }
}

/// What a source to import is.
#[derive(Debug, Clone, Copy, PartialEq, Eq, Structural)]
pub enum SourceKind {
    /// A Scrivener project (a `.scriv` folder).
    Scrivener,
    /// Any other folder, read for Markdown and text files.
    MarkdownFolder,
    /// A Word document.
    WordDocument,
    /// One Markdown, text or RTF file.
    Text,
    /// Something that cannot be imported.
    Unsupported,
}

pub open spec fn kind_of_source(path: Seq<char>, is_dir: bool) -> SourceKind {
    if is_dir && has_ext(path, "scriv"@) {
        SourceKind::Scrivener
    } else if is_dir {
        SourceKind::MarkdownFolder
    } else if has_ext(path, "docx"@) {
        SourceKind::WordDocument
    } else if has_ext(path, "md"@) || has_ext(path, "markdown"@) || has_ext(path, "txt"@) || has_ext(path, "rtf"@) {
        SourceKind::Text
    } else {
        SourceKind::Unsupported
    }
}

fn ext_is(ext: &Option<String>, e: &str) -> (r: bool)
    ensures
        r == match *ext {
            Some(x) => same_ignoring_ascii_case(x@, e@),
            None => false,
        },
{
    match ext {
        Some(x) => eq_ignore_ascii_case(x.as_str(), e),
        None => false,
    }
}

/// How a source is imported, by whether it is a folder and by its extension.
pub fn source_kind(path: &str, is_dir: bool) -> (r: SourceKind)
    ensures
        r == kind_of_source(path@, is_dir),
{
    let cs = crate::paths::path_components(path);
    let ext = crate::paths::extension_in(&cs);
    let ghost x = crate::paths::extension_of(crate::paths::components_of(path@));
    assert(match (ext, x) {
        (Some(a), Some(b)) => a@ == b,
        (None, None) => true,
        _ => false,
    });
    if is_dir && ext_is(&ext, "scriv") {
        SourceKind::Scrivener
    } else if is_dir {
        SourceKind::MarkdownFolder
    } else if ext_is(&ext, "docx") {
        SourceKind::WordDocument
    } else if ext_is(&ext, "md") || ext_is(&ext, "markdown") || ext_is(&ext, "txt") || ext_is(&ext, "rtf") {
        SourceKind::Text
    } else {
        SourceKind::Unsupported
    }
}

} // verus!
