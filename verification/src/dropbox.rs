//! Dropbox sync: the PKCE and URL encodings of the login, the content hash,
//! and how a file compares across this machine, Dropbox and the last sync.

use vstd::prelude::*;
use vstd::string::*;
use vstd::utf8::{decode_utf8, encode_utf8, is_continuation_byte, valid_utf8};
use crate::keyed::{find_key, keyed, keys_unique, lemma_keyed_lookup, lemma_keyed_push, lemma_keyed_remove, lemma_keyed_update};
use crate::paths::{file_stem_text, joined_path, path_join, renamed_path, stem_of_path, with_file_name};
use crate::rtf::{hex_byte, hex_pair, hex_val};
use crate::undotree::{is_lower_hex, new_history_id};
use sha2::{Digest, Sha256};
use crate::text::{
    chars_of, find_char, first_of, is_ws, lemma_first_of, push_range, push_str, same_text, string_of,
    trim, trim_range,
};

verus! {

/// Dropbox hashes files in 4 MiB blocks.
pub const HASH_BLOCK: usize = 4194304;

#[derive(Debug, Clone)]
pub struct DropboxAccount {
    pub account_id: String,
    pub name: String,
    pub email: Option<String>,
    pub photo_url: Option<String>,
}

#[derive(Debug)]
pub struct DropboxAuthStart {
    pub auth_url: String,
}

#[derive(Debug)]
pub enum AuthPollResult {
    Pending,
    Success { account: DropboxAccount },
    Expired,
    Error { message: String },
}

/// One file that differs between the content directory and the Dropbox folder.
#[derive(Debug)]
pub struct DropboxFileStatus {
    pub path: String,
    /// `local_new`, `local_modified`, `remote_new`, `remote_modified` or
    /// `conflict`.
    pub status: String,
}

/// What a push or a pull did.
#[derive(Debug)]
pub struct SyncResult {
    pub uploaded: u32,
    pub downloaded: u32,
    /// Files changed on both sides. A push skips them; a pull saves Dropbox's
    /// version beside the local one.
    pub conflicts: u32,
    /// Files deleted on one side since the last sync, removed from the other.
    pub deleted: u32,
}

impl Default for SyncResult {
    fn default() -> (r: Self)
        ensures
            r.uploaded == 0 && r.downloaded == 0 && r.conflicts == 0 && r.deleted == 0,
    {
        SyncResult { uploaded: 0, downloaded: 0, conflicts: 0, deleted: 0 }
    }
}

/// The base64url digit for a six-bit value.
pub open spec fn b64_char(i: int) -> char {
    if i < 26 {
        (65 + i) as char
    } else if i < 52 {
        (97 + i - 26) as char
    } else if i < 62 {
        (48 + i - 52) as char
    } else if i == 62 {
        '-'
    } else {
        '_'
    }
}

/// Base64url without padding: each three bytes become four digits; a final
/// one or two bytes become two or three.
pub open spec fn b64(b: Seq<u8>) -> Seq<char>
    decreases b.len(),
{
    if b.len() == 0 {
        Seq::empty()
    } else {
        let b0 = b[0] as int;
        let b1 = if b.len() > 1 { b[1] as int } else { 0 };
        let b2 = if b.len() > 2 { b[2] as int } else { 0 };
        let q = seq![
            b64_char(b0 / 4),
            b64_char((b0 % 4) * 16 + b1 / 16),
            b64_char((b1 % 16) * 4 + b2 / 64),
            b64_char(b2 % 64),
        ];
        if b.len() >= 3 {
            q + b64(b.skip(3))
        } else {
            q.take(b.len() as int + 1)
        }
    }
}

fn b64_digit(i: u8) -> (c: char)
    requires
        i < 64,
    ensures
        c == b64_char(i as int),
{
    if i < 26 {
        (65 + i) as char
    } else if i < 52 {
        (97 + i - 26) as char
    } else if i < 62 {
        (48 + i - 52) as char
    } else if i == 62 {
        '-'
    } else {
        '_'
    }
}

/// Base64url without padding, as PKCE and Dropbox expect.
pub fn base64_url_nopad(bytes: &[u8]) -> (r: String)
    ensures
        r@ == b64(bytes@),
{
    let mut out = String::new();
    let mut i: usize = 0;
    assert(bytes@.skip(0) =~= bytes@);
    while i < bytes.len()
        invariant
            i <= bytes@.len(),
            out@ + b64(bytes@.skip(i as int)) == b64(bytes@),
        decreases bytes.len() - i,
    {
        let rest = bytes.len() - i;
        let b0 = bytes[i];
        let b1: u8 = if rest > 1 { bytes[i + 1] } else { 0 };
        let b2: u8 = if rest > 2 { bytes[i + 2] } else { 0 };
        let ghost s = bytes@.skip(i as int);
        let ghost before = out@;
        assert(s[0] == b0);
        assert(rest > 1 ==> s[1] == b1);
        assert(rest > 2 ==> s[2] == b2);
        out.push(b64_digit(b0 / 4));
        out.push(b64_digit((b0 % 4) * 16 + b1 / 16));
        if rest > 1 {
            out.push(b64_digit((b1 % 16) * 4 + b2 / 64));
        }
        if rest > 2 {
            out.push(b64_digit(b2 % 64));
        }
        if rest >= 3 {
            assert(s.skip(3) =~= bytes@.skip(i + 3));
            assert(out@ + b64(bytes@.skip(i + 3)) =~= b64(bytes@));
            i += 3;
        } else {
            assert(bytes@.skip(bytes@.len() as int) =~= Seq::<u8>::empty());
            assert(out@ =~= before + b64(s));
            i = bytes.len();
        }
    }
    assert(bytes@.skip(bytes@.len() as int) =~= Seq::<u8>::empty());
    out
}

/// Bytes a URL can carry as they are.
pub open spec fn unreserved(b: u8) -> bool {
    (65 <= b <= 90) || (97 <= b <= 122) || (48 <= b <= 57) || b == 45 || b == 95 || b == 46 || b == 126
}

/// An upper-case hexadecimal digit.
pub open spec fn upper_hex(d: int) -> char {
    if d < 10 { (48 + d) as char } else { (65 + d - 10) as char }
}

/// `b` percent-encoded: unreserved bytes as they are, others as `%XX`.
pub open spec fn pct_encoded(b: Seq<u8>) -> Seq<char>
    decreases b.len(),
{
    if b.len() == 0 {
        Seq::empty()
    } else if unreserved(b.last()) {
        pct_encoded(b.drop_last()).push(b.last() as char)
    } else {
        pct_encoded(b.drop_last()) + seq!['%', upper_hex(b.last() as int / 16), upper_hex(b.last() as int % 16)]
    }
}

pub(crate) fn upper_hex_digit(d: u8) -> (c: char)
    requires
        d < 16,
    ensures
        c == upper_hex(d as int),
{
    if d < 10 { (48 + d) as char } else { (65 + d - 10) as char }
}

/// Percent-encodes every byte of `value` outside the unreserved set.
pub fn percent_encode(value: &str) -> (r: String)
    ensures
        r@ == pct_encoded(value.spec_bytes()),
{
    let bytes = value.as_bytes();
    let mut out = String::new();
    let mut i: usize = 0;
    while i < bytes.len()
        invariant
            i <= bytes@.len(),
            out@ == pct_encoded(bytes@.take(i as int)),
        decreases bytes.len() - i,
    {
        assert(bytes@.take(i + 1).drop_last() =~= bytes@.take(i as int));
        let b = bytes[i];
        if (65 <= b && b <= 90) || (97 <= b && b <= 122) || (48 <= b && b <= 57) || b == 45 || b == 95
            || b == 46 || b == 126 {
            out.push(b as char);
        } else {
            out.push('%');
            out.push(upper_hex_digit(b / 16));
            out.push(upper_hex_digit(b % 16));
            assert(out@ =~= pct_encoded(bytes@.take(i + 1)));
        }
        i += 1;
    }
    assert(bytes@.take(bytes@.len() as int) =~= bytes@);
    out
}

/// The bytes `%XY` escapes and `+` signs stand for, reading from `i`.
pub open spec fn pct_decoded(b: Seq<u8>, i: int) -> Seq<u8>
    decreases b.len() - i,
{
    if i < 0 || i >= b.len() {
        Seq::empty()
    } else if b[i] == 37 && i + 2 < b.len() {
        match hex_byte(b[i + 1] as char, b[i + 2] as char) {
            Some(x) => seq![x] + pct_decoded(b, i + 3),
            None => seq![b[i]] + pct_decoded(b, i + 1),
        }
    } else if b[i] == 43 {
        seq![32u8] + pct_decoded(b, i + 1)
    } else {
        seq![b[i]] + pct_decoded(b, i + 1)
    }
}

/// Whether each `%` read as an escape from `i` on is followed by two bytes that
/// end on a character boundary, which reading them as text needs.
pub open spec fn decodable(b: Seq<u8>, i: int) -> bool
    decreases b.len() - i,
{
    if i < 0 || i >= b.len() {
        true
    } else if b[i] == 37 && i + 2 < b.len() {
        (i + 3 == b.len() || !is_continuation_byte(b[i + 3])) && match hex_byte(
            b[i + 1] as char,
            b[i + 2] as char,
        ) {
            Some(_) => decodable(b, i + 3),
            None => decodable(b, i + 1),
        }
    } else {
        decodable(b, i + 1)
    }
}

/// Text from bytes as `String::from_utf8_lossy` reads it.
pub uninterp spec fn lossy(b: Seq<u8>) -> Seq<char>;

/// `String::from_utf8_lossy`: valid UTF-8 decodes as itself; each invalid
/// sequence becomes U+FFFD. The result depends on the bytes alone and is named
/// `lossy`; the replacement rule for invalid sequences is not restated.
#[verifier::external_body]
fn utf8_lossy(bytes: &[u8]) -> (r: String)
    ensures
        r@ == lossy(bytes@),
        valid_utf8(bytes@) ==> r@ == decode_utf8(bytes@),
{
    String::from_utf8_lossy(bytes).into_owned()
}

/// Decodes `%XY` escapes and `+` as a space.
pub fn percent_decode(value: &str) -> (r: String)
    requires
        decodable(value.spec_bytes(), 0),
    ensures
        r@ == lossy(pct_decoded(value.spec_bytes(), 0)),
        valid_utf8(pct_decoded(value.spec_bytes(), 0)) ==> r@ == decode_utf8(pct_decoded(value.spec_bytes(), 0)),
{
    let bytes = value.as_bytes();
    let mut out: Vec<u8> = Vec::new();
    let mut i: usize = 0;
    while i < bytes.len()
        invariant
            i <= bytes@.len(),
            bytes@ == value.spec_bytes(),
            decodable(bytes@, i as int),
            out@ + pct_decoded(bytes@, i as int) == pct_decoded(bytes@, 0),
        decreases bytes.len() - i,
    {
        let ghost before = out@;
        if bytes[i] == 37 && bytes.len() - i > 2 {
            match hex_pair(bytes[i + 1] as char, bytes[i + 2] as char) {
                Some(byte) => {
                    out.push(byte);
                    assert(out@ + pct_decoded(bytes@, i + 3) =~= before + pct_decoded(bytes@, i as int));
                    i += 3;
                },
                None => {
                    out.push(bytes[i]);
                    assert(out@ + pct_decoded(bytes@, i + 1) =~= before + pct_decoded(bytes@, i as int));
                    i += 1;
                },
            }
        } else if bytes[i] == 43 {
            out.push(32u8);
            assert(out@ + pct_decoded(bytes@, i + 1) =~= before + pct_decoded(bytes@, i as int));
            i += 1;
        } else {
            out.push(bytes[i]);
            assert(out@ + pct_decoded(bytes@, i + 1) =~= before + pct_decoded(bytes@, i as int));
            i += 1;
        }
    }
    assert(out@ =~= pct_decoded(bytes@, 0));
    utf8_lossy(out.as_slice())
}

/// The bytes of a text made of ASCII characters, one per character.
pub open spec fn ascii_bytes(cs: Seq<char>) -> Seq<u8> {
    cs.map_values(|c: char| c as u8)
}

/// Encoding a concatenation encodes each part.
proof fn lemma_pct_encoded_concat(a: Seq<u8>, b: Seq<u8>)
    ensures
        pct_encoded(a + b) == pct_encoded(a) + pct_encoded(b),
    decreases b.len(),
{
    if b.len() > 0 {
        lemma_pct_encoded_concat(a, b.drop_last());
        assert((a + b).drop_last() =~= a + b.drop_last());
        assert((a + b).last() == b.last());
    } else {
        assert(a + b =~= a);
        assert(pct_encoded(a) + pct_encoded(b) =~= pct_encoded(a));
    }
}

/// Percent-encoded text is ASCII.
proof fn lemma_pct_encoded_ascii(b: Seq<u8>)
    ensures
        vstd::utf8::is_ascii_chars(pct_encoded(b)),
    decreases b.len(),
{
    if b.len() > 0 {
        lemma_pct_encoded_ascii(b.drop_last());
        let x = b.last();
        let p = pct_encoded(b.drop_last());
        if unreserved(x) {
            assert(pct_encoded(b) =~= p.push(x as char));
        } else {
            lemma_hex_of_upper(x as int / 16);
            lemma_hex_of_upper(x as int % 16);
            assert(pct_encoded(b) =~= p + seq!['%', upper_hex(x as int / 16), upper_hex(x as int % 16)]);
        }
    }
}

/// Reading from `i` reads what follows `i`.
proof fn lemma_pct_decoded_skip(z: Seq<u8>, i: int)
    requires
        0 <= i <= z.len(),
    ensures
        pct_decoded(z, i) == pct_decoded(z.skip(i), 0),
        decodable(z, i) == decodable(z.skip(i), 0),
    decreases z.len() - i,
{
    if i < z.len() {
        let w = z.skip(i);
        if i + 1 <= z.len() {
            lemma_pct_decoded_skip(z, i + 1);
            lemma_pct_decoded_skip(w, 1);
            assert(w.skip(1) =~= z.skip(i + 1));
        }
        if i + 3 <= z.len() {
            lemma_pct_decoded_skip(z, i + 3);
            lemma_pct_decoded_skip(w, 3);
            assert(w.skip(3) =~= z.skip(i + 3));
        }
    } else {
        assert(z.skip(i).len() == 0);
    }
}

proof fn lemma_hex_of_upper(d: int)
    requires
        0 <= d < 16,
    ensures
        hex_val(upper_hex(d)) == d,
        '\0' <= upper_hex(d) <= '\u{7f}',
        (upper_hex(d) as u8) as char == upper_hex(d),
{
}

/// Percent-decoding the ASCII bytes of an encoding gives the bytes back, and
/// they can be decoded.
proof fn lemma_pct_round_trip(b: Seq<u8>)
    ensures
        pct_decoded(ascii_bytes(pct_encoded(b)), 0) == b,
        decodable(ascii_bytes(pct_encoded(b)), 0),
    decreases b.len(),
{
    if b.len() > 0 {
        let x = b[0];
        let rest = b.drop_first();
        lemma_pct_round_trip(rest);
        assert(seq![x] + rest =~= b);
        lemma_pct_encoded_concat(seq![x], rest);
        assert(seq![x].drop_last() =~= Seq::<u8>::empty());
        reveal_with_fuel(pct_encoded, 2);
        let e1 = pct_encoded(seq![x]);
        let er = pct_encoded(rest);
        let z = ascii_bytes(pct_encoded(b));
        assert(z =~= ascii_bytes(e1) + ascii_bytes(er));
        lemma_pct_encoded_ascii(rest);
        if unreserved(x) {
            assert(e1 =~= seq![x as char]);
            assert(z[0] == x);
            lemma_pct_decoded_skip(z, 1);
            assert(z.skip(1) =~= ascii_bytes(er));
            assert(pct_decoded(z, 0) =~= seq![x] + rest);
        } else {
            let h = x as int / 16;
            let l = x as int % 16;
            lemma_hex_of_upper(h);
            lemma_hex_of_upper(l);
            assert(e1 =~= seq!['%', upper_hex(h), upper_hex(l)]);
            assert(z[0] == 37u8);
            assert(z[1] as char == upper_hex(h));
            assert(z[2] as char == upper_hex(l));
            assert(hex_byte(z[1] as char, z[2] as char) == Some(x));
            lemma_pct_decoded_skip(z, 3);
            assert(z.skip(3) =~= ascii_bytes(er));
            if z.len() > 3 {
                assert(z[3] == er[0] as u8);
                assert('\0' <= er[0] <= '\u{7f}');
                assert(!is_continuation_byte(z[3]));
            }
            assert(pct_decoded(z, 0) =~= seq![x] + rest);
        }
    } else {
        assert(ascii_bytes(pct_encoded(b)) =~= Seq::<u8>::empty());
    }
}

/// Percent-decoding undoes percent-encoding: the bytes of `percent_encode(s)`
/// can be decoded, and decode to the bytes of `s`, which read as `s` again.
/// So `percent_decode(&percent_encode(s)) == s` for every text.
pub proof fn law_percent_round_trip(s: Seq<char>)
    ensures
        decodable(encode_utf8(pct_encoded(encode_utf8(s))), 0),
        pct_decoded(encode_utf8(pct_encoded(encode_utf8(s))), 0) == encode_utf8(s),
        valid_utf8(encode_utf8(s)),
        decode_utf8(encode_utf8(s)) == s,
{
    let b = encode_utf8(s);
    let e = pct_encoded(b);
    lemma_pct_encoded_ascii(b);
    vstd::utf8::is_ascii_chars_encode_utf8(e);
    assert(encode_utf8(e) =~= ascii_bytes(e));
    lemma_pct_round_trip(b);
    vstd::utf8::encode_utf8_valid_utf8(s);
    vstd::utf8::encode_utf8_decode_utf8(s);
}

/// `s` without leading `c`s.
pub open spec fn strip_lead(s: Seq<char>, c: char) -> Seq<char>
    decreases s.len(),
{
    if s.len() > 0 && s[0] == c { strip_lead(s.drop_first(), c) } else { s }
}

/// `s` without trailing `c`s.
pub open spec fn strip_trail(s: Seq<char>, c: char) -> Seq<char>
    decreases s.len(),
{
    if s.len() > 0 && s.last() == c { strip_trail(s.drop_last(), c) } else { s }
}

/// A folder as a Dropbox path: trimmed, without surrounding slashes, and
/// with one leading slash; the account root is empty.
pub open spec fn folder_path(folder: Seq<char>) -> Seq<char> {
    let t = strip_trail(strip_lead(trim(folder), '/'), '/');
    if t.len() == 0 { t } else { seq!['/'] + t }
}

/// Normalises a user-supplied folder into a Dropbox path: `Memoire`,
/// `/Memoire` and `/Memoire/` all become `/Memoire`. The account root is `""`.
pub fn normalize_folder(folder: &str) -> (r: String)
    ensures
        r@ == folder_path(folder@),
{
    let v = chars_of(folder);
    let (lo0, hi0) = trim_range(&v, 0, v.len());
    assert(v@.subrange(0, v@.len() as int) =~= v@);
    let mut lo = lo0;
    while lo < hi0 && v[lo] == '/'
        invariant
            lo0 <= lo <= hi0 <= v@.len(),
            strip_lead(v@.subrange(lo0 as int, hi0 as int), '/') == strip_lead(
                v@.subrange(lo as int, hi0 as int),
                '/',
            ),
        decreases hi0 - lo,
    {
        assert(v@.subrange(lo as int, hi0 as int).drop_first() =~= v@.subrange(lo + 1, hi0 as int));
        lo += 1;
    }
    let mut hi = hi0;
    while hi > lo && v[hi - 1] == '/'
        invariant
            lo <= hi <= hi0 <= v@.len(),
            strip_trail(v@.subrange(lo as int, hi0 as int), '/') == strip_trail(
                v@.subrange(lo as int, hi as int),
                '/',
            ),
        decreases hi - lo,
    {
        assert(v@.subrange(lo as int, hi as int).drop_last() =~= v@.subrange(lo as int, hi - 1));
        hi -= 1;
    }
    let mut out = String::new();
    if lo < hi {
        out.push('/');
        push_range(&mut out, &v, lo, hi);
    }
    assert(out@ =~= folder_path(folder@));
    out
}

/// Where a note of the content directory lives in Dropbox.
pub open spec fn remote_path_of(folder: Seq<char>, relative: Seq<char>) -> Seq<char> {
    folder_path(folder) + seq!['/'] + relative
}

pub fn remote_path(folder: &str, relative: &str) -> (r: String)
    ensures
        r@ == remote_path_of(folder@, relative@),
{
    let mut out = normalize_folder(folder);
    out.push('/');
    push_str(&mut out, relative);
    out
}

/// How one file compares across the content directory, Dropbox, and the last
/// sync.
#[derive(Debug, Clone, Copy, PartialEq, Eq, Structural)]
pub enum Change {
    InSync,
    LocalNew,
    LocalModified,
    RemoteNew,
    RemoteModified,
    /// Deleted locally; Dropbox still has the last-synced version.
    LocalDeleted,
    /// Deleted in Dropbox; the local file is still the last-synced version.
    RemoteDeleted,
    /// Both sides changed since the last sync (or they differ and were never
    /// synced). Neither push nor pull overwrites it.
    Conflict,
}

impl Change {
    pub open spec fn name(self) -> Seq<char> {
        match self {
            Change::InSync => "in_sync"@,
            Change::LocalNew => "local_new"@,
            Change::LocalModified => "local_modified"@,
            Change::RemoteNew => "remote_new"@,
            Change::RemoteModified => "remote_modified"@,
            Change::LocalDeleted => "local_deleted"@,
            Change::RemoteDeleted => "remote_deleted"@,
            Change::Conflict => "conflict"@,
        }
    }

    pub fn as_str(self) -> (s: &'static str)
        ensures
            s@ == self.name(),
    {
        match self {
            Change::InSync => "in_sync",
            Change::LocalNew => "local_new",
            Change::LocalModified => "local_modified",
            Change::RemoteNew => "remote_new",
            Change::RemoteModified => "remote_modified",
            Change::LocalDeleted => "local_deleted",
            Change::RemoteDeleted => "remote_deleted",
            Change::Conflict => "conflict",
        }
    }
}

/// How a file compares, from its hash here, in Dropbox and at the last sync.
/// Missing on one side while the other still matches the last sync means it
/// was deleted; anything else missing on one side is new, so a delete never
/// wins over an edit.
pub open spec fn change_of(local: Option<Seq<char>>, remote: Option<Seq<char>>, base: Option<Seq<char>>) -> Change {
    match (local, remote) {
        (Some(l), Some(r)) => if l == r {
            Change::InSync
        } else if base == Some(r) {
            Change::LocalModified
        } else if base == Some(l) {
            Change::RemoteModified
        } else {
            Change::Conflict
        },
        (Some(l), None) => if base == Some(l) { Change::RemoteDeleted } else { Change::LocalNew },
        (None, Some(r)) => if base == Some(r) { Change::LocalDeleted } else { Change::RemoteNew },
        (None, None) => Change::InSync,
    }
}

/// The characters of an optional string.
pub open spec fn opt_chars(o: Option<&str>) -> Option<Seq<char>> {
    match o {
        Some(s) => Some(s@),
        None => None,
    }
}

fn same_opt(a: Option<&str>, b: &str) -> (r: bool)
    ensures
        r == (opt_chars(a) == Some(b@)),
{
    match a {
        Some(x) => same_text(x, b),
        None => false,
    }
}

pub fn classify(local: Option<&str>, remote: Option<&str>, base: Option<&str>) -> (c: Change)
    ensures
        c == change_of(opt_chars(local), opt_chars(remote), opt_chars(base)),
{
    match (local, remote) {
        (Some(l), Some(r)) => if same_text(l, r) {
            Change::InSync
        } else if same_opt(base, r) {
            Change::LocalModified
        } else if same_opt(base, l) {
            Change::RemoteModified
        } else {
            Change::Conflict
        },
        (Some(l), None) => if same_opt(base, l) { Change::RemoteDeleted } else { Change::LocalNew },
        (None, Some(r)) => if same_opt(base, r) { Change::LocalDeleted } else { Change::RemoteNew },
        (None, None) => Change::InSync,
    }
}


/// The SHA-256 digest of `data`.
pub uninterp spec fn sha256(data: Seq<u8>) -> Seq<u8>;

/// `sha2::Sha256::digest`: the 32-byte SHA-256 digest of the input. The digest
/// itself is named `sha256`, not restated.
#[verifier::external_body]
pub(crate) fn sha256_digest(data: &[u8]) -> (r: Vec<u8>)
    ensures
        r@ == sha256(data@),
        r@.len() == 32,
{
    Sha256::digest(data).to_vec()
}

/// A lower-case hexadecimal digit.
pub open spec fn lower_hex(d: int) -> char {
    if d < 10 { (48 + d) as char } else { (97 + d - 10) as char }
}

/// `b` as lower-case hexadecimal, two digits a byte.
pub open spec fn hex_lower(b: Seq<u8>) -> Seq<char>
    decreases b.len(),
{
    if b.len() == 0 {
        Seq::empty()
    } else {
        hex_lower(b.drop_last()) + seq![lower_hex(b.last() as int / 16), lower_hex(b.last() as int % 16)]
    }
}

/// `hex::encode`: each byte as two lower-case hexadecimal digits, in order.
#[verifier::external_body]
pub(crate) fn hex_encode(data: &[u8]) -> (r: String)
    ensures
        r@ == hex_lower(data@),
{
    hex::encode(data)
}

/// The SHA-256 digests of each 4 MiB block of `b`, concatenated.
pub open spec fn block_digests(b: Seq<u8>) -> Seq<u8>
    decreases b.len(),
{
    if b.len() == 0 {
        Seq::empty()
    } else if b.len() <= HASH_BLOCK {
        sha256(b)
    } else {
        sha256(b.take(HASH_BLOCK as int)) + block_digests(b.skip(HASH_BLOCK as int))
    }
}

/// Dropbox's content hash: SHA-256 of the concatenated block digests, in hex.
pub open spec fn dropbox_hash(b: Seq<u8>) -> Seq<char> {
    hex_lower(sha256(block_digests(b)))
}

/// Dropbox's content hash: SHA-256 of the concatenated SHA-256 digests of each
/// 4 MiB block. <https://www.dropbox.com/developers/reference/content-hash>
pub fn content_hash(bytes: &[u8]) -> (r: String)
    ensures
        r@ == dropbox_hash(bytes@),
{
    let mut concatenated: Vec<u8> = Vec::new();
    let mut i: usize = 0;
    assert(bytes@.skip(0) =~= bytes@);
    while i < bytes.len()
        invariant
            i <= bytes@.len(),
            concatenated@ + block_digests(bytes@.skip(i as int)) == block_digests(bytes@),
        decreases bytes.len() - i,
    {
        let ghost rest = bytes@.skip(i as int);
        let end = if bytes.len() - i > HASH_BLOCK { i + HASH_BLOCK } else { bytes.len() };
        let digest = sha256_digest(&bytes[i..end]);
        let ghost before = concatenated@;
        concatenated.extend_from_slice(digest.as_slice());
        assert(concatenated@ =~= before + digest@);
        if end < bytes.len() {
            assert(bytes@.subrange(i as int, end as int) =~= rest.take(HASH_BLOCK as int));
            assert(rest.skip(HASH_BLOCK as int) =~= bytes@.skip(end as int));
        } else {
            assert(bytes@.subrange(i as int, end as int) =~= rest);
            assert(bytes@.skip(end as int) =~= Seq::<u8>::empty());
        }
        i = end;
    }
    assert(bytes@.skip(bytes@.len() as int) =~= Seq::<u8>::empty());
    assert(concatenated@ =~= block_digests(bytes@));
    let whole = sha256_digest(concatenated.as_slice());
    hex_encode(whole.as_slice())
}

/// A high-entropy PKCE code verifier built from two v4 UUIDs (128 random bits
/// each), rendered as unreserved characters.
pub fn new_code_verifier() -> (r: String)
    ensures
        r@.len() == 64,
        forall|i: int| 0 <= i < 64 ==> is_lower_hex(#[trigger] r@[i]),
{
    let mut r = new_history_id();
    let second = new_history_id();
    push_str(&mut r, second.as_str());
    proof {
        assert forall|i: int| 0 <= i < 64 implies is_lower_hex(#[trigger] r@[i]) by {
            if i >= 32 {
                assert(r@[i] == second@[i - 32]);
            }
        }
    }
    r
}

/// The PKCE challenge for a verifier: its SHA-256 digest in base64url.
pub fn code_challenge(verifier: &str) -> (r: String)
    ensures
        r@ == b64(sha256(verifier.spec_bytes())),
{
    let digest = sha256_digest(verifier.as_bytes());
    base64_url_nopad(digest.as_slice())
}

/// The file name a conflicting Dropbox version is saved under, beside a note
/// whose name (without extension) is `stem`.
pub open spec fn conflict_name(stem: Option<Seq<char>>) -> Seq<char> {
    let base = match stem {
        Some(s) => s,
        None => "Untitled"@,
    };
    base + " (Dropbox conflict).md"@
}

pub fn conflict_file_name(stem: Option<&str>) -> (r: String)
    ensures
        r@ == conflict_name(opt_chars(stem)),
{
    let mut out = String::new();
    match stem {
        Some(s) => push_str(&mut out, s),
        None => push_str(&mut out, "Untitled"),
    }
    push_str(&mut out, " (Dropbox conflict).md");
    out
}

/// `Novel/Chapter 1.md` -> `<content>/Novel/Chapter 1 (Dropbox conflict).md`:
/// the note's path with its file name replaced by the conflict name of its stem.
pub fn conflict_copy_path(content_dir: &str, relative: &str) -> (r: String)
    ensures
        r@ == renamed_path(
            joined_path(content_dir@, relative@),
            conflict_name(stem_of_path(joined_path(content_dir@, relative@))),
        ),
{
    let original = path_join(content_dir, relative);
    let stem = file_stem_text(original.as_str());
    let name = match &stem {
        Some(s) => conflict_file_name(Some(s.as_str())),
        None => conflict_file_name(None),
    };
    with_file_name(original.as_str(), name.as_str())
}

/// What a push does with a file that exists here.
#[derive(Debug, Clone, Copy, PartialEq, Eq, Structural)]
pub enum PushStep {
    /// Already the same on both sides: remember its hash as synced.
    Record,
    /// New or changed only here: upload it.
    Upload,
    /// Changed on both sides: count it, touch neither.
    Conflict,
    /// Left for a pull, or deleted in Dropbox since the last sync.
    Leave,
}

/// What a pull does with a file that exists in Dropbox.
#[derive(Debug, Clone, Copy, PartialEq, Eq, Structural)]
pub enum PullStep {
    Record,
    /// New or changed only in Dropbox: download it over the local file.
    Download,
    /// Changed on both sides: keep the local file and save Dropbox's version
    /// beside it.
    SaveConflictCopy,
    Leave,
}

pub open spec fn push_step_of(c: Change) -> PushStep {
    match c {
        Change::InSync => PushStep::Record,
        Change::LocalNew | Change::LocalModified => PushStep::Upload,
        Change::Conflict => PushStep::Conflict,
        _ => PushStep::Leave,
    }
}

pub open spec fn pull_step_of(c: Change) -> PullStep {
    match c {
        Change::InSync => PullStep::Record,
        Change::RemoteNew | Change::RemoteModified => PullStep::Download,
        Change::Conflict => PullStep::SaveConflictCopy,
        _ => PullStep::Leave,
    }
}

/// A push uploads files that are new or changed only here; it never uploads
/// over a Dropbox edit.
pub fn push_step(c: Change) -> (r: PushStep)
    ensures
        r == push_step_of(c),
        r == PushStep::Upload ==> (c == Change::LocalNew || c == Change::LocalModified),
{
    match c {
        Change::InSync => PushStep::Record,
        Change::LocalNew | Change::LocalModified => PushStep::Upload,
        Change::Conflict => PushStep::Conflict,
        _ => PushStep::Leave,
    }
}

/// A pull downloads files that are new or changed only in Dropbox; it never
/// writes over a local edit.
pub fn pull_step(c: Change) -> (r: PullStep)
    ensures
        r == pull_step_of(c),
        r == PullStep::Download ==> (c == Change::RemoteNew || c == Change::RemoteModified),
{
    match c {
        Change::InSync => PullStep::Record,
        Change::RemoteNew | Change::RemoteModified => PullStep::Download,
        Change::Conflict => PullStep::SaveConflictCopy,
        _ => PullStep::Leave,
    }
}

/// Whether a push deletes a Dropbox file that is gone here: only when Dropbox
/// still holds the last-synced version, so a delete never wipes an edit.
pub fn push_deletes(remote_hash: &str, base: Option<&str>) -> (r: bool)
    ensures
        r == (change_of(None, Some(remote_hash@), opt_chars(base)) == Change::LocalDeleted),
        r == (opt_chars(base) == Some(remote_hash@)),
{
    classify(None, Some(remote_hash), base) == Change::LocalDeleted
}

/// Whether a pull deletes a local file that is gone from Dropbox: only when the
/// local copy is still the last-synced version.
pub fn pull_deletes(local_hash: &str, base: Option<&str>) -> (r: bool)
    ensures
        r == (change_of(Some(local_hash@), None, opt_chars(base)) == Change::RemoteDeleted),
        r == (opt_chars(base) == Some(local_hash@)),
{
    classify(Some(local_hash), None, base) == Change::RemoteDeleted
}


/// The pieces of `s` between `sep`s, as `str::split` gives them.
pub open spec fn pieces(s: Seq<char>, sep: char) -> Seq<Seq<char>>
    decreases s.len(),
{
    let k = first_of(s, sep);
    if 0 <= k < s.len() {
        seq![s.take(k)] + pieces(s.skip(k + 1), sep)
    } else {
        seq![s]
    }
}

/// A `key=value` piece split at its first `=`; `None` without one.
pub open spec fn pair_of(piece: Seq<char>) -> Option<(Seq<char>, Seq<char>)> {
    let k = first_of(piece, '=');
    if 0 <= k < piece.len() {
        Some((piece.take(k), piece.skip(k + 1)))
    } else {
        None
    }
}

/// The `key=value` pairs among `ps`, in order.
pub open spec fn pairs_of(ps: Seq<Seq<char>>) -> Seq<(Seq<char>, Seq<char>)>
    decreases ps.len(),
{
    if ps.len() == 0 {
        Seq::empty()
    } else {
        let first = match pair_of(ps[0]) {
            Some(p) => seq![p],
            None => Seq::empty(),
        };
        first + pairs_of(ps.drop_first())
    }
}

/// The raw `key=value` pairs of a request target's query: what follows the
/// first `?`, split at `&`, pieces without `=` dropped.
pub open spec fn query_of(t: Seq<char>) -> Seq<(Seq<char>, Seq<char>)> {
    let q = first_of(t, '?');
    if 0 <= q < t.len() {
        pairs_of(pieces(t.skip(q + 1), '&'))
    } else {
        Seq::empty()
    }
}

/// Whether every query value can be percent-decoded.
pub open spec fn query_decodable(t: Seq<char>) -> bool {
    forall|i: int| 0 <= i < query_of(t).len() ==> decodable(encode_utf8(#[trigger] query_of(t)[i].1), 0)
}

/// A value as the login reads it: percent-decoded.
pub open spec fn decoded_value(raw: Seq<char>) -> Seq<char> {
    lossy(pct_decoded(encode_utf8(raw), 0))
}

/// The query parameters of a request, in order; a later repeat of a key wins.
pub struct QueryParams {
    pub entries: Vec<(String, String)>,
}

/// A key absent from the entries after `k` has the same lookup in the whole
/// list as in its first `k` entries.
proof fn lemma_keyed_suffix(s: Seq<(String, String)>, k: int, key: Seq<char>)
    requires
        0 <= k <= s.len(),
        forall|j: int| k <= j < s.len() ==> s[j].0@ != key,
    ensures
        keyed(s).contains_key(key) == keyed(s.take(k)).contains_key(key),
        keyed(s).contains_key(key) ==> keyed(s)[key] == keyed(s.take(k))[key],
    decreases s.len(),
{
    if s.len() == k {
        assert(s.take(k) =~= s);
    } else {
        let t = s.drop_last();
        assert(t.take(k) =~= s.take(k));
        lemma_keyed_suffix(t, k, key);
    }
}

impl QueryParams {
    /// The parameters as a map.
    pub open spec fn map(&self) -> Map<Seq<char>, String> {
        keyed(self.entries@)
    }

    /// The value of `key`.
    pub fn get(&self, key: &str) -> (r: Option<&String>)
        ensures
            match r {
                Some(v) => self.map().contains_key(key@) && self.map()[key@] == *v,
                None => !self.map().contains_key(key@),
            },
    {
        let mut k = self.entries.len();
        while k > 0
            invariant
                k <= self.entries@.len(),
                forall|j: int| k <= j < self.entries@.len() ==> self.entries@[j].0@ != key@,
            decreases k,
        {
            if same_text(self.entries[k - 1].0.as_str(), key) {
                proof {
                    let s = self.entries@;
                    lemma_keyed_suffix(s, k as int, key@);
                    assert(s.take(k as int).drop_last() =~= s.take(k - 1));
                }
                return Some(&self.entries[k - 1].1);
            }
            k -= 1;
        }
        proof {
            lemma_keyed_suffix(self.entries@, 0, key@);
            assert(self.entries@.take(0) =~= Seq::<(String, String)>::empty());
        }
        None
    }

    /// Whether there are no parameters.
    pub fn is_empty(&self) -> (r: bool)
        ensures
            r == (self.entries@.len() == 0),
            r == (self.map() =~= Map::<Seq<char>, String>::empty()),
    {
        proof {
            let s = self.entries@;
            if s.len() > 0 {
                assert(keyed(s).contains_key(s.last().0@));
            }
        }
        self.entries.len() == 0
    }
}

/// The query parameters of a request target like `/?code=abc&state=xyz`,
/// values percent-decoded.
pub fn query_params(target: &str) -> (r: QueryParams)
    requires
        query_decodable(target@),
    ensures
        r.entries@.len() == query_of(target@).len(),
        forall|i: int|
            0 <= i < r.entries@.len() ==> (#[trigger] r.entries@[i]).0@ == query_of(target@)[i].0
                && r.entries@[i].1@ == decoded_value(query_of(target@)[i].1),
{
    let v = chars_of(target);
    let q = find_char(&v, 0, '?');
    assert(v@.skip(0) =~= v@);
    let mut entries: Vec<(String, String)> = Vec::new();
    if q == v.len() {
        return QueryParams { entries };
    }
    let ghost all = query_of(target@);
    assert(all == pairs_of(pieces(v@.subrange(q + 1, v@.len() as int), '&'))) by {
        assert(v@.skip(q + 1) =~= v@.subrange(q + 1, v@.len() as int));
    }
    let ghost mut processed: Seq<(Seq<char>, Seq<char>)> = Seq::empty();
    let mut start = q + 1;
    let mut done = false;
    while !done
        invariant
            q < start <= v@.len(),
            v@ == target@,
            all == query_of(target@),
            query_decodable(target@),
            !done ==> processed + pairs_of(pieces(v@.subrange(start as int, v@.len() as int), '&')) == all,
            done ==> processed == all,
            entries@.len() == processed.len(),
            forall|i: int|
                0 <= i < entries@.len() ==> (#[trigger] entries@[i]).0@ == processed[i].0
                    && entries@[i].1@ == decoded_value(processed[i].1),
        decreases (if done { 0 } else { v@.len() + 1 - start }),
    {
        let ghost rest = v@.subrange(start as int, v@.len() as int);
        let e = find_char(&v, start, '&');
        let kk = find_char(&v, start, '=');
        let ghost piece = v@.subrange(start as int, e as int);
        proof {
            assert(v@.skip(start as int) =~= rest);
            assert(rest.take(e - start) =~= piece);
            if e < v@.len() {
                assert(rest.skip(e - start + 1) =~= v@.subrange(e + 1, v@.len() as int));
            }
            if kk < e {
                assert forall|j: int| 0 <= j < kk - start implies piece[j] != '=' by {
                    assert(piece[j] == v@[start + j]);
                }
                lemma_first_of(piece, '=', kk - start);
            } else {
                assert forall|j: int| 0 <= j < piece.len() implies piece[j] != '=' by {
                    assert(piece[j] == v@[start + j]);
                }
                lemma_first_of(piece, '=', piece.len() as int);
            }
        }
        let ghost ps = pieces(rest, '&');
        let ghost first = match pair_of(piece) {
            Some(p) => seq![p],
            None => Seq::<(Seq<char>, Seq<char>)>::empty(),
        };
        proof {
            if e < v@.len() {
                assert(ps == seq![piece] + pieces(v@.subrange(e + 1, v@.len() as int), '&'));
                assert((seq![piece] + pieces(v@.subrange(e + 1, v@.len() as int), '&')).drop_first()
                    =~= pieces(v@.subrange(e + 1, v@.len() as int), '&'));
                assert(pairs_of(ps) == first + pairs_of(pieces(v@.subrange(e + 1, v@.len() as int), '&')));
            } else {
                assert(piece =~= rest);
                assert(ps == seq![rest]);
                assert(seq![rest].drop_first() =~= Seq::<Seq<char>>::empty());
                assert(pairs_of(Seq::<Seq<char>>::empty()) == Seq::<(Seq<char>, Seq<char>)>::empty());
                assert(seq![rest][0] == piece);
                assert(pairs_of(ps) == first + pairs_of(Seq::<Seq<char>>::empty()));
                assert(pairs_of(ps) =~= first);
            }
        }
        if kk < e {
            let key = string_of(&v, start, kk);
            let raw = string_of(&v, kk + 1, e);
            proof {
                assert(piece.take(kk - start) =~= key@);
                assert(piece.skip(kk - start + 1) =~= raw@);
                let idx = processed.len() as int;
                assert(all[idx] == (key@, raw@));
                assert(decodable(encode_utf8(all[idx].1), 0));
            }
            let value = percent_decode(raw.as_str());
            entries.push((key, value));
            proof {
                processed = processed.push((key@, raw@));
            }
        }
        proof {
            if e < v@.len() {
                assert(processed + pairs_of(pieces(v@.subrange(e + 1, v@.len() as int), '&')) =~= all);
            } else {
                assert(processed =~= all);
            }
        }
        if e == v.len() {
            done = true;
        } else {
            start = e + 1;
        }
    }
    QueryParams { entries }
}

/// A push never uploads over an edit made in Dropbox: it uploads only a file
/// that exists here and that Dropbox lacks or still holds as last synced.
pub proof fn law_push_never_overwrites_remote_edit(
    local: Option<Seq<char>>,
    remote: Option<Seq<char>>,
    base: Option<Seq<char>>,
)
    ensures
        push_step_of(change_of(local, remote, base)) == PushStep::Upload ==> local is Some && (remote is None
            || remote == base),
{
}

/// A pull never downloads over an edit made here: it downloads only a file
/// that Dropbox has and that is missing here or still as last synced.
pub proof fn law_pull_never_overwrites_local_edit(
    local: Option<Seq<char>>,
    remote: Option<Seq<char>>,
    base: Option<Seq<char>>,
)
    ensures
        pull_step_of(change_of(local, remote, base)) == PullStep::Download ==> remote is Some && (local is None
            || local == base),
{
}

/// A file missing on one side is deleted on the other only while that copy
/// is still the last-synced version: a delete never wins over an edit.
pub proof fn law_delete_never_wins_over_edit(kept: Seq<char>, base: Option<Seq<char>>)
    ensures
        change_of(Some(kept), None, base) == Change::RemoteDeleted <==> base == Some(kept),
        change_of(None, Some(kept), base) == Change::LocalDeleted <==> base == Some(kept),
{
}

fn lower_hex_digit(d: u8) -> (c: char)
    requires
        d < 16,
    ensures
        c == lower_hex(d as int),
{
    if d < 10 { (48 + d) as char } else { (97 + d - 10) as char }
}

/// The UTF-16 code units of a character.
pub open spec fn utf16_of(c: char) -> Seq<int> {
    let u = (c as u32) as int;
    if u < 0x10000 {
        seq![u]
    } else {
        seq![0xD800 + (u - 0x10000) / 1024, 0xDC00 + (u - 0x10000) % 1024]
    }
}

/// `\uXXXX` for a code unit, four lower-case hex digits.
pub open spec fn unit_escape(u: int) -> Seq<char> {
    seq!['\\', 'u', lower_hex(u / 4096 % 16), lower_hex(u / 256 % 16), lower_hex(u / 16 % 16), lower_hex(u % 16)]
}

/// `s` with each non-ASCII character written as `\u` escapes of its UTF-16
/// code units.
pub open spec fn ascii_escaped(s: Seq<char>) -> Seq<char>
    decreases s.len(),
{
    if s.len() == 0 {
        s
    } else {
        let c = s.last();
        ascii_escaped(s.drop_last()) + if (c as u32) < 128 {
            seq![c]
        } else if utf16_of(c).len() == 1 {
            unit_escape(utf16_of(c)[0])
        } else {
            unit_escape(utf16_of(c)[0]) + unit_escape(utf16_of(c)[1])
        }
    }
}

fn push_unit_escape(out: &mut String, u: u32)
    requires
        u < 0x10000,
    ensures
        final(out)@ == old(out)@ + unit_escape(u as int),
{
    out.push('\\');
    out.push('u');
    out.push(lower_hex_digit((u / 4096 % 16) as u8));
    out.push(lower_hex_digit((u / 256 % 16) as u8));
    out.push(lower_hex_digit((u / 16 % 16) as u8));
    out.push(lower_hex_digit((u % 16) as u8));
    assert(final(out)@ =~= old(out)@ + unit_escape(u as int));
}

/// Escapes every non-ASCII character of a JSON text as `\u` code units, so
/// it can travel in an HTTP header.
pub fn ascii_escape(text: &str) -> (r: String)
    ensures
        r@ == ascii_escaped(text@),
{
    let v = chars_of(text);
    let mut out = String::new();
    let mut i: usize = 0;
    while i < v.len()
        invariant
            i <= v@.len(),
            v@ == text@,
            out@ == ascii_escaped(v@.take(i as int)),
        decreases v.len() - i,
    {
        assert(v@.take(i + 1).drop_last() =~= v@.take(i as int));
        let c = v[i];
        let u = c as u32;
        assert(v@.take(i + 1).last() == c);
        if u < 128 {
            out.push(c);
        } else if u < 0x10000 {
            push_unit_escape(&mut out, u);
        } else {
            proof {
                vstd::utf8::char_is_scalar(c);
            }
            let w = u - 0x10000;
            push_unit_escape(&mut out, 0xD800 + w / 1024);
            push_unit_escape(&mut out, 0xDC00 + w % 1024);
        }
        assert(out@ =~= ascii_escaped(v@.take(i + 1)));
        i += 1;
    }
    assert(v@.take(v@.len() as int) =~= v@);
    out
}

/// `Dropbox-API-Arg` is an HTTP header, so every non-ASCII character of the
/// JSON argument (its text, as `serde_json` writes it) has to be escaped:
/// file names with accents or emoji would otherwise make the request invalid.
pub fn ascii_escape_json(json: &str) -> (r: String)
    ensures
        r@ == ascii_escaped(json@),
{
    ascii_escape(json)
}

/// The hashes of a list of `(relative path, hash)` entries, by path.
pub open spec fn hashes(s: Seq<(String, String)>) -> Map<Seq<char>, Seq<char>> {
    keyed(s).map_values(|h: String| h@)
}

/// The hash a list holds for `relative`, if any.
pub open spec fn hash_of(s: Seq<(String, String)>, relative: Seq<char>) -> Option<Seq<char>> {
    if keyed(s).contains_key(relative) {
        Some(keyed(s)[relative]@)
    } else {
        None
    }
}

/// What a push or pull carries from one file to the next: the hashes last
/// synced, by relative path, and what it has done so far. The transfers
/// themselves are made by the caller, between the steps.
pub struct SyncRun {
    pub base: Vec<(String, String)>,
    pub result: SyncResult,
}

impl SyncRun {
    /// No path is listed twice in the last-synced hashes.
    pub open spec fn wf(self) -> bool {
        keys_unique(self.base@)
    }

    /// The last-synced hash of `relative`, if any.
    pub open spec fn base_hash(self, relative: Seq<char>) -> Option<Seq<char>> {
        hash_of(self.base@, relative)
    }

    /// The counts so far: uploaded, downloaded, conflicts, deleted.
    pub open spec fn counts(self) -> (u32, u32, u32, u32) {
        (self.result.uploaded, self.result.downloaded, self.result.conflicts, self.result.deleted)
    }

    /// A run starting from the last-synced hashes `base`, with nothing done.
    pub fn new(base: Vec<(String, String)>) -> (r: SyncRun)
        requires
            keys_unique(base@),
        ensures
            r.wf(),
            r.base@ == base@,
            r.counts() == (0u32, 0u32, 0u32, 0u32),
    {
        SyncRun { base, result: SyncResult::default() }
    }

    /// The last-synced hash of `relative`.
    pub fn base_get(&self, relative: &String) -> (r: Option<&str>)
        requires
            self.wf(),
        ensures
            opt_chars(r) == self.base_hash(relative@),
    {
        proof {
            lemma_keyed_lookup(self.base@);
        }
        match find_key(&self.base, relative) {
            Some(k) => Some(self.base[k].1.as_str()),
            None => None,
        }
    }

    /// Records `hash` as the last-synced hash of `relative`.
    fn remember(&mut self, relative: &String, hash: &str)
        requires
            old(self).wf(),
        ensures
            final(self).wf(),
            hashes(final(self).base@) == hashes(old(self).base@).insert(relative@, hash@),
            final(self).result == old(self).result,
    {
        let h = String::from_str(hash);
        proof {
            lemma_keyed_lookup(self.base@);
        }
        match find_key(&self.base, relative) {
            Some(k) => {
                let key = self.base[k].0.clone();
                let ghost before = self.base@;
                self.base.set(k, (key, h));
                proof {
                    lemma_keyed_update(before, k as int, h);
                    assert(keyed(self.base@) =~= keyed(before.update(k as int, (before[k as int].0, h))));
                }
            },
            None => {
                let ghost before = self.base@;
                let key = String::from_str(relative.as_str());
                proof {
                    lemma_keyed_push(before, (key, h));
                }
                self.base.push((key, h));
            },
        }
        assert(hashes(self.base@) =~= hashes(old(self).base@).insert(relative@, hash@));
    }

    /// Forgets the last-synced hash of `relative`.
    fn forget(&mut self, relative: &String)
        requires
            old(self).wf(),
        ensures
            final(self).wf(),
            hashes(final(self).base@) == hashes(old(self).base@).remove(relative@),
            final(self).result == old(self).result,
    {
        match find_key(&self.base, relative) {
            Some(k) => {
                proof {
                    lemma_keyed_remove(self.base@, k as int);
                }
                self.base.remove(k);
            },
            None => {},
        }
        assert(hashes(self.base@) =~= hashes(old(self).base@).remove(relative@));
    }

    /// A push meets a file that is here: what to do with it. A file already
    /// the same on both sides has its hash recorded; a conflict is counted;
    /// a file to upload is left to the caller, who reports back with
    /// `uploaded`.
    pub fn push_local(&mut self, relative: &String, local_hash: &str, remote_hash: Option<&str>) -> (step: PushStep)
        requires
            old(self).wf(),
            old(self).result.conflicts < u32::MAX,
        ensures
            final(self).wf(),
            step == push_step_of(change_of(Some(local_hash@), opt_chars(remote_hash), old(self).base_hash(relative@))),
            step == PushStep::Record ==> hashes(final(self).base@) == hashes(old(self).base@).insert(
                relative@,
                local_hash@,
            ) && final(self).counts() == old(self).counts(),
            step == PushStep::Conflict ==> final(self).base@ == old(self).base@ && final(self).counts() == (
                old(self).result.uploaded,
                old(self).result.downloaded,
                (old(self).result.conflicts + 1) as u32,
                old(self).result.deleted,
            ),
            step == PushStep::Upload || step == PushStep::Leave ==> final(self).base@ == old(self).base@
                && final(self).counts() == old(self).counts(),
    {
        let base = self.base_get(relative);
        let step = push_step(classify(Some(local_hash), remote_hash, base));
        match step {
            PushStep::Record => self.remember(relative, local_hash),
            PushStep::Conflict => self.result.conflicts = self.result.conflicts + 1,
            _ => {},
        }
        step
    }

    /// The caller uploaded `relative`, sending content whose hash is `hash`.
    pub fn uploaded(&mut self, relative: &String, hash: &str)
        requires
            old(self).wf(),
            old(self).result.uploaded < u32::MAX,
        ensures
            final(self).wf(),
            hashes(final(self).base@) == hashes(old(self).base@).insert(relative@, hash@),
            final(self).counts() == (
                (old(self).result.uploaded + 1) as u32,
                old(self).result.downloaded,
                old(self).result.conflicts,
                old(self).result.deleted,
            ),
    {
        self.remember(relative, hash);
        self.result.uploaded = self.result.uploaded + 1;
    }

    /// A push meets a Dropbox file with hash `remote_hash`: whether to delete
    /// it there. Only a file gone here whose Dropbox copy is still the
    /// last-synced version is deleted.
    pub fn push_deletes_remote(&self, relative: &String, remote_hash: &str, here: bool) -> (r: bool)
        requires
            self.wf(),
        ensures
            r == (!here && change_of(None, Some(remote_hash@), self.base_hash(relative@)) == Change::LocalDeleted),
            r == (!here && self.base_hash(relative@) == Some(remote_hash@)),
    {
        !here && push_deletes(remote_hash, self.base_get(relative))
    }

    /// A pull meets a Dropbox file: what to do with it. A file already the
    /// same on both sides has its hash recorded; a download or a conflict copy
    /// is left to the caller, who reports back with `downloaded`.
    pub fn pull_remote(&mut self, relative: &String, remote_hash: &str, local_hash: Option<&str>) -> (step: PullStep)
        requires
            old(self).wf(),
        ensures
            final(self).wf(),
            step == pull_step_of(change_of(opt_chars(local_hash), Some(remote_hash@), old(self).base_hash(relative@))),
            step == PullStep::Record ==> hashes(final(self).base@) == hashes(old(self).base@).insert(
                relative@,
                remote_hash@,
            ),
            step != PullStep::Record ==> final(self).base@ == old(self).base@,
            final(self).counts() == old(self).counts(),
    {
        let base = self.base_get(relative);
        let step = pull_step(classify(local_hash, Some(remote_hash), base));
        match step {
            PullStep::Record => self.remember(relative, remote_hash),
            _ => {},
        }
        step
    }

    /// The caller wrote Dropbox's version of `relative`, whose hash is `hash`:
    /// over the local file, or beside it when it was a conflict. Either way
    /// Dropbox's version now counts as seen.
    pub fn downloaded(&mut self, relative: &String, hash: &str, conflict: bool)
        requires
            old(self).wf(),
            old(self).result.downloaded < u32::MAX,
            old(self).result.conflicts < u32::MAX,
        ensures
            final(self).wf(),
            hashes(final(self).base@) == hashes(old(self).base@).insert(relative@, hash@),
            final(self).counts() == (if conflict {
                (
                    old(self).result.uploaded,
                    old(self).result.downloaded,
                    (old(self).result.conflicts + 1) as u32,
                    old(self).result.deleted,
                )
            } else {
                (
                    old(self).result.uploaded,
                    (old(self).result.downloaded + 1) as u32,
                    old(self).result.conflicts,
                    old(self).result.deleted,
                )
            }),
    {
        self.remember(relative, hash);
        if conflict {
            self.result.conflicts = self.result.conflicts + 1;
        } else {
            self.result.downloaded = self.result.downloaded + 1;
        }
    }

    /// A pull meets a local file with hash `local_hash`: whether to delete it
    /// here. Only a file gone from Dropbox whose local copy is still the
    /// last-synced version is deleted.
    pub fn pull_deletes_local(&self, relative: &String, local_hash: &str, in_dropbox: bool) -> (r: bool)
        requires
            self.wf(),
        ensures
            r == (!in_dropbox && change_of(Some(local_hash@), None, self.base_hash(relative@)) == Change::RemoteDeleted),
            r == (!in_dropbox && self.base_hash(relative@) == Some(local_hash@)),
    {
        !in_dropbox && pull_deletes(local_hash, self.base_get(relative))
    }

    /// The caller deleted `relative` on the other side: its last-synced hash
    /// is dropped and the delete counted.
    pub fn deleted(&mut self, relative: &String)
        requires
            old(self).wf(),
            old(self).result.deleted < u32::MAX,
        ensures
            final(self).wf(),
            hashes(final(self).base@) == hashes(old(self).base@).remove(relative@),
            final(self).counts() == (
                old(self).result.uploaded,
                old(self).result.downloaded,
                old(self).result.conflicts,
                (old(self).result.deleted + 1) as u32,
            ),
    {
        self.forget(relative);
        self.result.deleted = self.result.deleted + 1;
    }
}

} // verus!
