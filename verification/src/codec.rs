//! Position codec: converts a unit offset within one line of text into an
//! in-line character offset and back, under the session's counting convention.

use vstd::prelude::*;

verus! {

/// The counting convention used to express positions at the system boundary.
/// It is negotiated once per session and applied uniformly to all documents.
#[derive(Debug, Clone, Copy, PartialEq, Eq, Structural)]
pub enum PositionEncodingKind {
    /// Unit offsets count UTF-8 bytes.
    UTF8,
    /// Unit offsets count 16-bit code units (surrogate pairs take two).
    UTF16,
    /// Unit offsets count Unicode scalar values directly.
    UTF32,
}

/// Number of bytes the UTF-8 encoding of `c` takes.
pub open spec fn utf8_len(c: char) -> int {
    if (c as u32) < 0x80 {
        1
    } else if (c as u32) < 0x800 {
        2
    } else if (c as u32) < 0x10000 {
        3
    } else {
        4
    }
}

/// Number of 16-bit code units the UTF-16 encoding of `c` takes.
pub open spec fn utf16_len(c: char) -> int {
    if (c as u32) < 0x10000 {
        1
    } else {
        2
    }
}

/// Number of units one character occupies under the given convention.
pub open spec fn unit_len(enc: PositionEncodingKind, c: char) -> int {
    match enc {
        PositionEncodingKind::UTF8 => utf8_len(c),
        PositionEncodingKind::UTF16 => utf16_len(c),
        PositionEncodingKind::UTF32 => 1,
    }
}

/// Total number of units a character sequence occupies under the convention.
pub open spec fn units_of(enc: PositionEncodingKind, s: Seq<char>) -> int
    decreases s.len(),
{
    if s.len() == 0 {
        0
    } else {
        unit_len(enc, s[0]) + units_of(enc, s.drop_first())
    }
}

/// Total UTF-8 byte length of a character sequence.
pub open spec fn bytes_of(s: Seq<char>) -> int {
    units_of(PositionEncodingKind::UTF8, s)
}

/// Unit offset of the character index `c` within `s`.
pub open spec fn unit_off(enc: PositionEncodingKind, s: Seq<char>, c: int) -> int {
    units_of(enc, s.subrange(0, c))
}

/// UTF-8 byte offset of the character index `c` within `s`.
pub open spec fn byte_off(s: Seq<char>, c: int) -> int {
    unit_off(PositionEncodingKind::UTF8, s, c)
}

/// A unit offset is a boundary when it is the unit offset of some character index.
pub open spec fn is_unit_boundary(enc: PositionEncodingKind, s: Seq<char>, u: int) -> bool {
    exists|c: int| 0 <= c <= s.len() && unit_off(enc, s, c) == u
}

/// The character index sitting at a boundary unit offset.
pub open spec fn char_at_unit(enc: PositionEncodingKind, s: Seq<char>, u: int) -> int {
    choose|c: int| 0 <= c <= s.len() && unit_off(enc, s, c) == u
}

pub proof fn lemma_units_of_concat(enc: PositionEncodingKind, a: Seq<char>, b: Seq<char>)
    ensures
        units_of(enc, a + b) == units_of(enc, a) + units_of(enc, b),
    decreases a.len(),
{
    if a.len() == 0 {
        assert(a + b =~= b);
    } else {
        assert((a + b).drop_first() =~= a.drop_first() + b);
        lemma_units_of_concat(enc, a.drop_first(), b);
    }
}

pub proof fn lemma_units_of_ge_len(enc: PositionEncodingKind, s: Seq<char>)
    ensures
        units_of(enc, s) >= s.len(),
    decreases s.len(),
{
    if s.len() > 0 {
        lemma_units_of_ge_len(enc, s.drop_first());
    }
}

pub proof fn lemma_unit_off_zero(enc: PositionEncodingKind, s: Seq<char>)
    ensures
        unit_off(enc, s, 0) == 0,
{
    assert(s.subrange(0, 0) =~= Seq::<char>::empty());
}

/// One more character advances the unit offset by that character's unit length.
pub proof fn lemma_unit_off_step(enc: PositionEncodingKind, s: Seq<char>, c: int)
    requires
        0 <= c < s.len(),
    ensures
        unit_off(enc, s, c + 1) == unit_off(enc, s, c) + unit_len(enc, s[c]),
{
    let one = seq![s[c]];
    assert(s.subrange(0, c + 1) =~= s.subrange(0, c) + one);
    lemma_units_of_concat(enc, s.subrange(0, c), one);
    assert(one.drop_first() =~= Seq::<char>::empty());
    assert(units_of(enc, one.drop_first()) == 0);
    assert(units_of(enc, one) == unit_len(enc, s[c]));
}

/// Unit offsets grow by at least one per character.
pub proof fn lemma_unit_off_mono(enc: PositionEncodingKind, s: Seq<char>, c1: int, c2: int)
    requires
        0 <= c1 <= c2 <= s.len(),
    ensures
        unit_off(enc, s, c1) + (c2 - c1) <= unit_off(enc, s, c2),
{
    let mid = s.subrange(c1, c2);
    assert(s.subrange(0, c2) =~= s.subrange(0, c1) + mid);
    lemma_units_of_concat(enc, s.subrange(0, c1), mid);
    lemma_units_of_ge_len(enc, mid);
}

/// Law: within a line, converting a character offset to a unit offset under a
/// convention and back under the same convention yields the same character
/// offset; the produced unit offset is always a valid boundary.
pub proof fn lemma_codec_round_trip(enc: PositionEncodingKind, s: Seq<char>, c: int)
    requires
        0 <= c <= s.len(),
    ensures
        is_unit_boundary(enc, s, unit_off(enc, s, c)),
        char_at_unit(enc, s, unit_off(enc, s, c)) == c,
{
    let u = unit_off(enc, s, c);
    assert(0 <= c <= s.len() && unit_off(enc, s, c) == u);
    let c2 = char_at_unit(enc, s, u);
    if c2 < c {
        lemma_unit_off_mono(enc, s, c2, c);
    } else if c2 > c {
        lemma_unit_off_mono(enc, s, c, c2);
    }
}

/// Unit lengths never shrink when moving from the 16-bit convention to bytes:
/// a one-unit character takes at most three bytes, a two-unit one four.
pub proof fn lemma_units16_le_bytes(s: Seq<char>)
    ensures
        units_of(PositionEncodingKind::UTF16, s) <= bytes_of(s),
    decreases s.len(),
{
    if s.len() > 0 {
        lemma_units16_le_bytes(s.drop_first());
    }
}

/// Number of units one character occupies under the given convention.
pub fn unit_len_exec(enc: PositionEncodingKind, c: char) -> (k: usize)
    ensures
        k as int == unit_len(enc, c),
{
    match enc {
        PositionEncodingKind::UTF8 => {
            let u = c as u32;
            if u < 0x80 {
                1
            } else if u < 0x800 {
                2
            } else if u < 0x10000 {
                3
            } else {
                4
            }
        },
        PositionEncodingKind::UTF16 => {
            if (c as u32) < 0x10000 {
                1
            } else {
                2
            }
        },
        PositionEncodingKind::UTF32 => 1,
    }
}

/// Convert a unit offset within the line `line` into an in-line character
/// offset. Returns `None` exactly when the unit offset does not land on a
/// character boundary under the convention (it falls inside a multi-unit
/// encoding, or past the end of the line).
pub fn unit_to_char(enc: PositionEncodingKind, line: &Vec<char>, unit: usize) -> (r: Option<usize>)
    ensures
        (r matches Some(c) ==> c <= line.len() && unit_off(enc, line@, c as int) == unit as int),
        (r is None ==> !is_unit_boundary(enc, line@, unit as int)),
{
    let mut c: usize = 0;
    let mut u: usize = 0;
    proof {
        lemma_unit_off_zero(enc, line@);
    }
    loop
        invariant
            c <= line.len(),
            u as int == unit_off(enc, line@, c as int),
            u <= unit,
        decreases line.len() - c + 1 + (unit - u),
    {
        if u == unit {
            return Some(c);
        }
        if c == line.len() {
            proof {
                assert forall|c2: int| 0 <= c2 <= line@.len() implies unit_off(
                    enc,
                    line@,
                    c2,
                ) != unit as int by {
                    lemma_unit_off_mono(enc, line@, c2, line@.len() as int);
                }
            }
            return None;
        }
        let k = unit_len_exec(enc, line[c]);
        proof {
            lemma_unit_off_step(enc, line@, c as int);
        }
        if unit - u < k {
            proof {
                assert forall|c2: int| 0 <= c2 <= line@.len() implies unit_off(
                    enc,
                    line@,
                    c2,
                ) != unit as int by {
                    if c2 <= c as int {
                        lemma_unit_off_mono(enc, line@, c2, c as int);
                    } else {
                        lemma_unit_off_mono(enc, line@, c as int + 1, c2);
                    }
                }
            }
            return None;
        }
        u = u + k;
        c = c + 1;
    }
}

/// Convert an in-line character offset into the unit offset of the same
/// position under the convention (the codec's inverse direction).
pub fn char_to_unit(enc: PositionEncodingKind, line: &Vec<char>, c: usize) -> (u: usize)
    requires
        c <= line.len(),
        unit_off(enc, line@, c as int) <= usize::MAX,
    ensures
        u as int == unit_off(enc, line@, c as int),
{
    let mut i: usize = 0;
    let mut u: usize = 0;
    proof {
        lemma_unit_off_zero(enc, line@);
    }
    while i < c
        invariant
            i <= c <= line.len(),
            u as int == unit_off(enc, line@, i as int),
            unit_off(enc, line@, c as int) <= usize::MAX,
        decreases c - i,
    {
        let k = unit_len_exec(enc, line[i]);
        proof {
            lemma_unit_off_step(enc, line@, i as int);
            lemma_unit_off_mono(enc, line@, i as int + 1, c as int);
        }
        u = u + k;
        i = i + 1;
    }
    u
}

} // verus!
