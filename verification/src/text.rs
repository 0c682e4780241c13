//! Cutting `str` values at byte offsets, with the facts about UTF-8 that make
//! the cuts legal.

use vstd::prelude::*;
use vstd::string::*;
use vstd::utf8::*;

verus! {

/// The byte `\`.
pub const BACKSLASH: u8 = 0x5c;

/// The byte `{`.
pub const OPEN_BRACE: u8 = 0x7b;

/// The byte `}`.
pub const CLOSE_BRACE: u8 = 0x7d;

/// The byte `|`.
pub const BAR: u8 = 0x7c;

/// The part of `s` from byte offset `from` to its end.
pub fn tail<'a>(s: &'a str, from: usize) -> (r: &'a str)
    requires
        is_char_boundary(s.spec_bytes(), from as int),
    ensures
        r.spec_bytes() == s.spec_bytes().subrange(from as int, s.spec_bytes().len() as int),
{
    s.split_at(from).1
}

/// The part of `s` before byte offset `to`.
pub fn head<'a>(s: &'a str, to: usize) -> (r: &'a str)
    requires
        is_char_boundary(s.spec_bytes(), to as int),
    ensures
        r.spec_bytes() == s.spec_bytes().subrange(0, to as int),
{
    s.split_at(to).0
}

/// The part of `s` from byte offset `from` up to byte offset `to`.
pub fn between<'a>(s: &'a str, from: usize, to: usize) -> (r: &'a str)
    requires
        from <= to <= s.spec_bytes().len(),
        is_char_boundary(s.spec_bytes(), from as int),
        is_char_boundary(s.spec_bytes(), to as int),
    ensures
        r.spec_bytes() == s.spec_bytes().subrange(from as int, to as int),
{
    broadcast use vstd::utf8::group_utf8_lib;

    let front = head(s, to);
    proof {
        let b = s.spec_bytes();
        if from < to {
            is_char_boundary_iff_not_is_continuation_byte(b, from as int);
            is_char_boundary_iff_not_is_continuation_byte(front.spec_bytes(), from as int);
        }
        assert(front.spec_bytes().subrange(from as int, to as int) =~= b.subrange(
            from as int,
            to as int,
        ));
    }
    tail(front, from)
}

/// The encoding of two texts joined is the two encodings joined.
pub proof fn lemma_encode_concat(a: Seq<char>, b: Seq<char>)
    ensures
        encode_utf8(a + b) == encode_utf8(a) + encode_utf8(b),
    decreases a.len(),
{
    if a.len() == 0 {
        assert(a + b =~= b);
        assert(encode_utf8(a) + encode_utf8(b) =~= encode_utf8(b));
    } else {
        lemma_encode_concat(a.drop_first(), b);
        assert((a + b).drop_first() =~= a.drop_first() + b);
        assert(encode_utf8(a + b) =~= encode_utf8(a) + encode_utf8(b));
    }
}

/// Appends `piece` to `buffer`.
pub fn push_text(buffer: &mut String, piece: &str)
    ensures
        encode_utf8(final(buffer)@) == encode_utf8(old(buffer)@) + piece.spec_bytes(),
{
    proof {
        lemma_encode_concat(buffer@, piece@);
    }
    buffer.append(piece);
}

/// The bytes of `b` from offset `from` to the end.
pub open spec fn suffix(b: Seq<u8>, from: int) -> Seq<u8> {
    b.subrange(from, b.len() as int)
}

/// A character boundary of a suffix, counted from a character boundary of the
/// whole, is a character boundary of the whole.
pub proof fn lemma_boundary_add(b: Seq<u8>, i: int, k: int)
    requires
        valid_utf8(b),
        0 <= i <= b.len(),
        is_char_boundary(b, i),
        0 <= k <= b.len() - i,
        is_char_boundary(suffix(b, i), k),
    ensures
        is_char_boundary(b, i + k),
    decreases b.len(),
{
    broadcast use vstd::utf8::group_utf8_lib;

    if i == 0 {
        assert(suffix(b, 0) =~= b);
    } else {
        reveal_with_fuel(is_char_boundary, 2);
        let l = length_of_first_scalar(b);
        let rest = pop_first_scalar(b);
        assert(suffix(rest, i - l) =~= suffix(b, i));
        lemma_boundary_add(rest, i - l, k);
    }
}

/// In valid UTF-8 the offset just after an ASCII byte is a character boundary.
pub proof fn lemma_boundary_after_ascii(b: Seq<u8>, i: int)
    requires
        valid_utf8(b),
        0 <= i < b.len(),
        b[i] < 0x80,
    ensures
        is_char_boundary(b, i),
        is_char_boundary(b, i + 1),
{
    broadcast use vstd::utf8::group_utf8_lib;

    is_char_boundary_iff_not_is_continuation_byte(b, i);
    let sub = suffix(b, i);
    assert(valid_utf8(sub));
    assert(sub[0] == b[i]);
    reveal_with_fuel(is_char_boundary, 2);
    assert(is_char_boundary(sub, 1));
    lemma_boundary_add(b, i, 1);
}

/// In valid UTF-8 the offset just after the character that starts at a
/// character boundary is a character boundary again.
pub proof fn lemma_boundary_after_scalar(b: Seq<u8>, i: int)
    requires
        valid_utf8(b),
        0 <= i < b.len(),
        is_char_boundary(b, i),
    ensures
        1 <= length_of_first_scalar(suffix(b, i)) <= b.len() - i,
        is_char_boundary(b, i + length_of_first_scalar(suffix(b, i))),
{
    broadcast use vstd::utf8::group_utf8_lib;

    let sub = suffix(b, i);
    assert(valid_utf8(sub));
    reveal_with_fuel(is_char_boundary, 2);
    assert(is_char_boundary(sub, length_of_first_scalar(sub)));
    lemma_boundary_add(b, i, length_of_first_scalar(sub));
}

} // verus!
