//! Facts about UTF-8 byte strings that the version history relies on when it
//! cuts texts at byte offsets.

use vstd::prelude::*;
use vstd::utf8::*;

verus! {

broadcast use vstd::utf8::group_utf8_lib;

/// The bytes of a text.
pub open spec fn bytes_of(s: Seq<char>) -> Seq<u8> {
    encode_utf8(s)
}

/// The text whose encoding is `b`.
pub open spec fn text_of(b: Seq<u8>) -> Seq<char> {
    decode_utf8(b)
}

/// A byte offset that falls between two characters of `s`.
pub open spec fn boundary(s: Seq<char>, i: int) -> bool {
    is_char_boundary(encode_utf8(s), i)
}

/// Two texts with the same encoding are the same text.
pub proof fn lemma_bytes_injective(a: Seq<char>, b: Seq<char>)
    requires
        bytes_of(a) == bytes_of(b),
    ensures
        a == b,
{
    encode_utf8_decode_utf8(a);
    encode_utf8_decode_utf8(b);
}

/// Both ends of a text are boundaries.
pub proof fn lemma_ends_are_boundaries(s: Seq<char>)
    ensures
        boundary(s, 0),
        boundary(s, bytes_of(s).len() as int),
{
    encode_utf8_valid_utf8(s);
    is_char_boundary_start_end_of_seq(encode_utf8(s));
}

/// A boundary of `bytes` past `i` is a boundary of the bytes from `i` on.
pub proof fn lemma_suffix_boundary(bytes: Seq<u8>, i: int, m: int)
    requires
        valid_utf8(bytes),
        is_char_boundary(bytes, i),
        0 <= m,
        i + m <= bytes.len(),
        is_char_boundary(bytes, i + m),
    ensures
        valid_utf8(bytes.subrange(i, bytes.len() as int)),
        is_char_boundary(bytes.subrange(i, bytes.len() as int), m),
{
    valid_utf8_split(bytes, i);
    let s = bytes.subrange(i, bytes.len() as int);
    if m == s.len() {
        is_char_boundary_start_end_of_seq(s);
    } else if m == 0 {
    } else {
        is_char_boundary_iff_not_is_continuation_byte(bytes, i + m);
        is_char_boundary_iff_not_is_continuation_byte(s, m);
    }
}

/// A boundary of `bytes` before `j` is a boundary of the bytes up to `j`.
pub proof fn lemma_prefix_boundary(bytes: Seq<u8>, j: int, m: int)
    requires
        valid_utf8(bytes),
        is_char_boundary(bytes, j),
        0 <= m <= j,
        is_char_boundary(bytes, m),
    ensures
        valid_utf8(bytes.subrange(0, j)),
        is_char_boundary(bytes.subrange(0, j), m),
{
    valid_utf8_split(bytes, j);
    let p = bytes.subrange(0, j);
    if m == j {
        is_char_boundary_start_end_of_seq(p);
    } else if m == 0 {
    } else {
        is_char_boundary_iff_not_is_continuation_byte(bytes, m);
        is_char_boundary_iff_not_is_continuation_byte(p, m);
    }
}

/// Cutting a text's bytes at two boundaries and decoding the three pieces
/// gives back the text, piece by piece.
pub proof fn lemma_decode_three(bytes: Seq<u8>, i: int, j: int)
    requires
        valid_utf8(bytes),
        0 <= i <= j <= bytes.len(),
        is_char_boundary(bytes, i),
        is_char_boundary(bytes, j),
    ensures
        decode_utf8(bytes) == decode_utf8(bytes.subrange(0, i)) + decode_utf8(bytes.subrange(i, j))
            + decode_utf8(bytes.subrange(j, bytes.len() as int)),
{
    decode_utf8_split(bytes, j);
    lemma_prefix_boundary(bytes, j, i);
    let p = bytes.subrange(0, j);
    decode_utf8_split(p, i);
    assert(p.subrange(0, i) =~= bytes.subrange(0, i));
    assert(p.subrange(i, p.len() as int) =~= bytes.subrange(i, j));
}

} // verus!
