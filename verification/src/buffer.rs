//! Text buffer backed by a rope. The rope's content is modelled as a sequence
//! of characters through the uninterpreted function [`rope_chars`]; each
//! wrapper below states, over that model, what the corresponding rope
//! operation does, as ropey's documentation and source give it. The rope is
//! built without line-ending features, so `'\n'` is the only line separator.

use vstd::prelude::*;

use crate::codec::{byte_off, bytes_of, unit_off, PositionEncodingKind};
use crate::lines::{count_nl, line_at, line_count, line_start};

verus! {

#[verifier::external_type_specification]
#[verifier::external_body]
pub struct ExRope(ropey::Rope);

/// The characters a rope holds, in order.
pub uninterp spec fn rope_chars(r: ropey::Rope) -> Seq<char>;

/// Relies on ropey's `Rope::from_str`: the rope holds exactly the given text.
#[verifier::external_body]
pub(crate) fn rope_from_str(text: &str) -> (r: ropey::Rope)
    ensures
        rope_chars(r) == text@,
{
    ropey::Rope::from_str(text)
}

/// Relies on ropey's `Rope::len_chars`: the number of characters held.
#[verifier::external_body]
pub(crate) fn rope_len_chars(r: &ropey::Rope) -> (n: usize)
    ensures
        n == rope_chars(*r).len(),
{
    r.len_chars()
}

/// Relies on ropey's `Rope::len_bytes`: the UTF-8 byte length of the content.
#[verifier::external_body]
pub(crate) fn rope_len_bytes(r: &ropey::Rope) -> (n: usize)
    ensures
        n as int == bytes_of(rope_chars(*r)),
{
    r.len_bytes()
}

/// Relies on ropey's `Rope::len_lines`: one more than the number of line
/// separators (ropey counts the text after the last separator as a line).
#[verifier::external_body]
pub(crate) fn rope_len_lines(r: &ropey::Rope) -> (n: usize)
    ensures
        n as int == line_count(rope_chars(*r)),
{
    r.len_lines()
}

/// Relies on ropey's `Rope::get_line`: the line's content, separator included,
/// for a line index below the line count, and `None` past it.
#[verifier::external_body]
pub(crate) fn rope_get_line(r: &ropey::Rope, i: usize) -> (l: Option<String>)
    ensures
        match l {
            Some(s) => (i as int) < line_count(rope_chars(*r)) && s@ == line_at(rope_chars(*r), i as int),
            None => (i as int) >= line_count(rope_chars(*r)),
        },
{
    match r.get_line(i) {
        Some(slice) => Some(slice.to_string()),
        None => None,
    }
}

/// Relies on ropey's `Rope::line_to_char`: the character offset at which the
/// given line starts.
#[verifier::external_body]
pub(crate) fn rope_line_to_char(r: &ropey::Rope, i: usize) -> (c: usize)
    requires
        (i as int) < line_count(rope_chars(*r)),
    ensures
        c as int == line_start(rope_chars(*r), i as int),
{
    r.line_to_char(i)
}

/// Relies on ropey's `Rope::char_to_byte`: the byte offset of the given
/// character offset (one past the end allowed).
#[verifier::external_body]
pub(crate) fn rope_char_to_byte(r: &ropey::Rope, c: usize) -> (b: usize)
    requires
        c <= rope_chars(*r).len(),
    ensures
        b as int == byte_off(rope_chars(*r), c as int),
{
    r.char_to_byte(c)
}

/// Relies on ropey's `Rope::line_to_byte`: the byte offset at which the given
/// line starts.
#[verifier::external_body]
pub(crate) fn rope_line_to_byte(r: &ropey::Rope, i: usize) -> (b: usize)
    requires
        (i as int) < line_count(rope_chars(*r)),
    ensures
        b as int == byte_off(rope_chars(*r), line_start(rope_chars(*r), i as int)),
{
    r.line_to_byte(i)
}

/// Relies on ropey's `Rope::byte_to_line`: the line containing the given byte
/// offset, which equals the number of separators before it.
#[verifier::external_body]
pub(crate) fn rope_byte_to_line(r: &ropey::Rope, b: usize) -> (i: usize)
    requires
        exists|c: int|
            0 <= c <= rope_chars(*r).len() && byte_off(rope_chars(*r), c) == b as int,
    ensures
        forall|c: int|
            0 <= c <= rope_chars(*r).len() && byte_off(rope_chars(*r), c) == b as int ==> i as int
                == count_nl(rope_chars(*r).subrange(0, c)),
{
    r.byte_to_line(b)
}

/// Relies on ropey's `Rope::remove`: deletes the characters in `[start, end)`.
#[verifier::external_body]
pub(crate) fn rope_remove(r: &mut ropey::Rope, start: usize, end: usize)
    requires
        start <= end <= rope_chars(*old(r)).len(),
    ensures
        rope_chars(*final (r)) == rope_chars(*old(r)).subrange(0, start as int) + rope_chars(
            *old(r),
        ).subrange(end as int, rope_chars(*old(r)).len() as int),
{
    r.remove(start..end)
}

/// Relies on ropey's `Rope::insert`: inserts the text at a character offset.
#[verifier::external_body]
pub(crate) fn rope_insert(r: &mut ropey::Rope, at: usize, text: &str)
    requires
        at <= rope_chars(*old(r)).len(),
    ensures
        rope_chars(*final (r)) == rope_chars(*old(r)).subrange(0, at as int) + text@ + rope_chars(
            *old(r),
        ).subrange(at as int, rope_chars(*old(r)).len() as int),
{
    r.insert(at, text)
}

/// Relies on ropey's `Display` for `Rope`: writes out exactly the content.
#[verifier::external_body]
pub(crate) fn rope_to_string(r: &ropey::Rope) -> (s: String)
    ensures
        s@ == rope_chars(*r),
{
    r.to_string()
}

/// Relies on std's `str::chars`: the characters of the string, in order.
#[verifier::external_body]
pub(crate) fn str_chars(s: &str) -> (v: Vec<char>)
    ensures
        v@ == s@,
{
    s.chars().collect()
}

/// Relies on std's `PartialEq` for `str`: equality of the character sequences.
#[verifier::external_body]
pub(crate) fn str_eq(a: &str, b: &str) -> (r: bool)
    ensures
        r <==> a@ == b@,
{
    a == b
}

/// Unit offsets within any line of a text are bounded by the text's total
/// byte length, whichever convention counts them.
pub proof fn lemma_line_unit_off_le_bytes(
    enc: PositionEncodingKind,
    s: Seq<char>,
    i: int,
    c: int,
)
    requires
        0 <= i,
        0 <= c <= line_at(s, i).len(),
    ensures
        unit_off(enc, line_at(s, i), c) <= bytes_of(s),
{
    let l = line_at(s, i);
    assert(l =~= l.subrange(0, c) + l.subrange(c, l.len() as int));
    crate::codec::lemma_units_of_concat(enc, l.subrange(0, c), l.subrange(c, l.len() as int));
    crate::codec::lemma_units_of_ge_len(enc, l.subrange(c, l.len() as int));
    crate::lines::lemma_line_units_le(enc, s, i);
    match enc {
        PositionEncodingKind::UTF8 => {},
        PositionEncodingKind::UTF16 => {
            crate::codec::lemma_units16_le_bytes(s);
        },
        PositionEncodingKind::UTF32 => {
            crate::codec::lemma_units_of_ge_len(PositionEncodingKind::UTF8, s);
            crate::codec::lemma_units16_le_bytes(s);
            lemma_utf32_le_bytes(s);
        },
    }
}

/// Character counts never exceed byte counts.
pub proof fn lemma_utf32_le_bytes(s: Seq<char>)
    ensures
        units_of_utf32(s) <= bytes_of(s),
{
    crate::codec::lemma_units_of_ge_len(PositionEncodingKind::UTF8, s);
    lemma_utf32_is_len(s);
}

/// Under the codepoint convention, a sequence's unit count is its length.
pub open spec fn units_of_utf32(s: Seq<char>) -> int {
    crate::codec::units_of(PositionEncodingKind::UTF32, s)
}

pub proof fn lemma_utf32_is_len(s: Seq<char>)
    ensures
        units_of_utf32(s) == s.len(),
    decreases s.len(),
{
    if s.len() > 0 {
        lemma_utf32_is_len(s.drop_first());
    }
}

} // verus!
