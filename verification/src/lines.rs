//! Line structure of a character sequence. Lines are separated by `'\n'`;
//! every line except possibly the last ends with the separator, and the text
//! after the last separator forms one final (possibly empty) line.

use vstd::prelude::*;

use crate::codec::{
    bytes_of, lemma_units_of_concat, lemma_units_of_ge_len, units_of, PositionEncodingKind,
};

verus! {

/// Number of line separators in `s`.
pub open spec fn count_nl(s: Seq<char>) -> int
    decreases s.len(),
{
    if s.len() == 0 {
        0
    } else {
        count_nl(s.drop_first()) + if s[0] == '\n' {
            1int
        } else {
            0int
        }
    }
}

/// Number of lines of `s`: one more than the number of separators.
pub open spec fn line_count(s: Seq<char>) -> int {
    count_nl(s) + 1
}

/// Character index just after the first `'\n'` at or after index `p`, or the
/// end of the text when no further separator exists.
pub open spec fn next_start(s: Seq<char>, p: int) -> int
    decreases s.len() - p,
{
    if p < 0 || p >= s.len() {
        s.len() as int
    } else if s[p] == '\n' {
        p + 1
    } else {
        next_start(s, p + 1)
    }
}

/// Character index of the start of line `i`.
pub open spec fn line_start(s: Seq<char>, i: int) -> int
    decreases i,
{
    if i <= 0 {
        0
    } else {
        next_start(s, line_start(s, i - 1))
    }
}

/// Content of line `i`, including its trailing separator if it has one.
pub open spec fn line_at(s: Seq<char>, i: int) -> Seq<char> {
    s.subrange(line_start(s, i), line_start(s, i + 1))
}

pub proof fn lemma_count_nl_nonneg(s: Seq<char>)
    ensures
        count_nl(s) >= 0,
    decreases s.len(),
{
    if s.len() > 0 {
        lemma_count_nl_nonneg(s.drop_first());
    }
}

pub proof fn lemma_count_nl_concat(a: Seq<char>, b: Seq<char>)
    ensures
        count_nl(a + b) == count_nl(a) + count_nl(b),
    decreases a.len(),
{
    if a.len() == 0 {
        assert(a + b =~= b);
    } else {
        assert((a + b).drop_first() =~= a.drop_first() + b);
        lemma_count_nl_concat(a.drop_first(), b);
    }
}

pub proof fn lemma_next_start_bounds(s: Seq<char>, p: int)
    requires
        0 <= p <= s.len(),
    ensures
        p <= next_start(s, p) <= s.len(),
        p < s.len() ==> p + 1 <= next_start(s, p),
    decreases s.len() - p,
{
    if p < s.len() && s[p] != '\n' {
        lemma_next_start_bounds(s, p + 1);
    }
}

pub proof fn lemma_line_start_bounds(s: Seq<char>, i: int)
    ensures
        0 <= line_start(s, i) <= s.len(),
    decreases i,
{
    if i > 0 {
        lemma_line_start_bounds(s, i - 1);
        lemma_next_start_bounds(s, line_start(s, i - 1));
    }
}

pub proof fn lemma_line_start_mono(s: Seq<char>, i: int, j: int)
    requires
        0 <= i <= j,
    ensures
        line_start(s, i) <= line_start(s, j),
    decreases j - i,
{
    if i < j {
        lemma_line_start_mono(s, i, j - 1);
        lemma_line_start_bounds(s, j - 1);
        lemma_next_start_bounds(s, line_start(s, j - 1));
    }
}

/// The first separator at or after `p` is no later than a known one at `q`.
pub proof fn lemma_next_start_le(s: Seq<char>, p: int, q: int)
    requires
        0 <= p <= q < s.len(),
        s[q] == '\n',
    ensures
        next_start(s, p) <= q + 1,
    decreases q - p,
{
    if p < q && s[p] != '\n' {
        lemma_next_start_le(s, p + 1, q);
    }
}

/// Every character index lies at or after the start of the line that contains
/// it, and that line exists.
pub proof fn lemma_line_of_char(s: Seq<char>, c: int)
    requires
        0 <= c <= s.len(),
    ensures
        0 <= count_nl(s.subrange(0, c)) < line_count(s),
        line_start(s, count_nl(s.subrange(0, c))) <= c,
    decreases c,
{
    lemma_count_nl_nonneg(s.subrange(0, c));
    assert(s =~= s.subrange(0, c) + s.subrange(c, s.len() as int));
    lemma_count_nl_concat(s.subrange(0, c), s.subrange(c, s.len() as int));
    lemma_count_nl_nonneg(s.subrange(c, s.len() as int));
    if c == 0 {
        assert(s.subrange(0, 0) =~= Seq::<char>::empty());
    } else {
        lemma_line_of_char(s, c - 1);
        let pre = s.subrange(0, c - 1);
        let one = seq![s[c - 1]];
        assert(s.subrange(0, c) =~= pre + one);
        lemma_count_nl_concat(pre, one);
        assert(one.drop_first() =~= Seq::<char>::empty());
        assert(count_nl(one.drop_first()) == 0);
        assert(count_nl(one) == if s[c - 1] == '\n' {
            1int
        } else {
            0int
        });
        let i = count_nl(pre);
        lemma_count_nl_nonneg(pre);
        lemma_line_start_bounds(s, i);
        if s[c - 1] == '\n' {
            // line i + 1 starts no later than c
            lemma_next_start_le(s, line_start(s, i), c - 1);
            assert(line_start(s, i + 1) == next_start(s, line_start(s, i)));
        }
    }
}

/// A line's character span never exceeds the whole text, and its unit count
/// never exceeds the text's unit count.
pub proof fn lemma_line_units_le(enc: PositionEncodingKind, s: Seq<char>, i: int)
    requires
        0 <= i,
    ensures
        units_of(enc, line_at(s, i)) <= units_of(enc, s),
    decreases i,
{
    lemma_line_start_bounds(s, i);
    lemma_line_start_bounds(s, i + 1);
    lemma_line_start_mono(s, i, i + 1);
    let a = line_start(s, i);
    let b = line_start(s, i + 1);
    assert(s =~= s.subrange(0, a) + s.subrange(a, b) + s.subrange(b, s.len() as int));
    lemma_units_of_concat(enc, s.subrange(0, a) + s.subrange(a, b), s.subrange(b, s.len() as int));
    lemma_units_of_concat(enc, s.subrange(0, a), s.subrange(a, b));
    lemma_units_of_ge_len(enc, s.subrange(0, a));
    lemma_units_of_ge_len(enc, s.subrange(b, s.len() as int));
}

/// A stretch without separators counts none.
pub proof fn lemma_count_nl_zero(s: Seq<char>)
    requires
        forall|j: int| 0 <= j < s.len() ==> s[j] != '\n',
    ensures
        count_nl(s) == 0,
    decreases s.len(),
{
    if s.len() > 0 {
        assert(forall|j: int| 0 <= j < s.drop_first().len() ==> s.drop_first()[j] != '\n');
        lemma_count_nl_zero(s.drop_first());
    }
}

/// What the separator scan finds: nothing before its landing point, and at
/// the landing point either a separator just behind it or the text's end
/// with no separator left.
pub proof fn lemma_next_start_spec(s: Seq<char>, p: int)
    requires
        0 <= p <= s.len(),
    ensures
        p <= next_start(s, p) <= s.len(),
        forall|j: int| p <= j < next_start(s, p) - 1 ==> s[j] != '\n',
        (next_start(s, p) > p && s[next_start(s, p) - 1] == '\n') || (next_start(s, p) == s.len()
            && forall|j: int| p <= j < s.len() ==> s[j] != '\n'),
    decreases s.len() - p,
{
    if p < s.len() && s[p] != '\n' {
        lemma_next_start_spec(s, p + 1);
    }
}

/// The scan cannot land before a stretch without separators ends.
pub proof fn lemma_next_start_ge(s: Seq<char>, p: int, r: int)
    requires
        0 <= p <= r <= s.len(),
        forall|j: int| p <= j < r - 1 ==> s[j] != '\n',
    ensures
        next_start(s, p) >= r,
    decreases r - p,
{
    lemma_next_start_bounds(s, p);
    if p < r - 1 {
        lemma_next_start_ge(s, p + 1, r);
    }
}

/// Each existing line starts just after its separator, and exactly as many
/// separators lie before its start as its index says.
pub proof fn lemma_line_start_count(s: Seq<char>, i: int)
    requires
        0 <= i < line_count(s),
    ensures
        count_nl(s.subrange(0, line_start(s, i))) == i,
        i > 0 ==> line_start(s, i) >= 1 && s[line_start(s, i) - 1] == '\n',
    decreases i,
{
    if i == 0 {
        assert(s.subrange(0, 0) =~= Seq::<char>::empty());
    } else {
        lemma_count_nl_nonneg(s);
        lemma_line_start_count(s, i - 1);
        lemma_line_start_bounds(s, i - 1);
        let q = line_start(s, i - 1);
        let r = next_start(s, q);
        assert(r == line_start(s, i));
        lemma_next_start_spec(s, q);
        if r > q && s[r - 1] == '\n' {
            assert(s.subrange(0, r) =~= s.subrange(0, q) + s.subrange(q, r));
            lemma_count_nl_concat(s.subrange(0, q), s.subrange(q, r));
            let seg = s.subrange(q, r);
            assert(seg =~= s.subrange(q, r - 1) + seq![s[r - 1]]);
            lemma_count_nl_concat(s.subrange(q, r - 1), seq![s[r - 1]]);
            assert(forall|j: int|
                0 <= j < s.subrange(q, r - 1).len() ==> #[trigger] s.subrange(q, r - 1)[j]
                    != '\n');
            lemma_count_nl_zero(s.subrange(q, r - 1));
            assert(seq![s[r - 1]].drop_first() =~= Seq::<char>::empty());
            assert(count_nl(seq![s[r - 1]].drop_first()) == 0);
            assert(count_nl(seq![s[r - 1]]) == 1);
        } else {
            // No separator remains after line i-1's start, so line i-1 is the
            // last line, against i < line_count(s).
            assert(s =~= s.subrange(0, q) + s.subrange(q, s.len() as int));
            lemma_count_nl_concat(s.subrange(0, q), s.subrange(q, s.len() as int));
            assert(forall|j: int|
                0 <= j < s.subrange(q, s.len() as int).len() ==> #[trigger] s.subrange(
                    q,
                    s.len() as int,
                )[j] != '\n');
            lemma_count_nl_zero(s.subrange(q, s.len() as int));
            assert(false);
        }
    }
}

/// Inserting text at or after a line's start leaves that line's start, and
/// every earlier one, where it was.
pub proof fn lemma_line_start_insert(s: Seq<char>, a: int, t: Seq<char>, i: int)
    requires
        0 <= i < line_count(s),
        line_start(s, i) <= a <= s.len(),
    ensures
        line_start(splice(s, a, a, t), i) == line_start(s, i),
    decreases i,
{
    let ns = splice(s, a, a, t);
    assert(forall|j: int| 0 <= j < a ==> ns[j] == s[j]);
    if i > 0 {
        lemma_line_start_mono(s, i - 1, i);
        lemma_line_start_bounds(s, i - 1);
        lemma_line_start_insert(s, a, t, i - 1);
        let q = line_start(s, i - 1);
        let r = line_start(s, i);
        assert(r == next_start(s, q));
        lemma_line_start_count(s, i);
        lemma_next_start_spec(s, q);
        assert(r > q) by {
            if r == q {
                // The scan moved nowhere, so q is the text's end; then no
                // line can follow line i-1, against i < line_count(s).
                lemma_next_start_bounds(s, q);
                lemma_line_start_count(s, i - 1);
                assert(q == s.len());
                assert(s.subrange(0, q) =~= s);
                assert(false);
            }
        }
        assert(forall|j: int| q <= j < r - 1 ==> ns[j] != '\n');
        assert(ns[r - 1] == '\n');
        lemma_next_start_ge(ns, q, r);
        lemma_next_start_le(ns, q, r - 1);
        assert(line_start(ns, i) == next_start(ns, q));
    }
}

/// Splicing: the text with characters `[a, b)` removed and `t` inserted at `a`.
pub open spec fn splice(s: Seq<char>, a: int, b: int, t: Seq<char>) -> Seq<char> {
    s.subrange(0, a) + t + s.subrange(b, s.len() as int)
}

/// Law: two consecutive insertions, the second at the offset just past the
/// first inserted text, have the same effect as one insertion of the
/// concatenated text at the original offset.
pub proof fn lemma_insert_composition(s: Seq<char>, a: int, t1: Seq<char>, t2: Seq<char>)
    requires
        0 <= a <= s.len(),
    ensures
        splice(splice(s, a, a, t1), a + t1.len(), a + t1.len(), t2) == splice(s, a, a, t1 + t2),
{
    let s1 = splice(s, a, a, t1);
    assert(s1.subrange(0, a + t1.len()) =~= s.subrange(0, a) + t1);
    assert(s1.subrange(a + t1.len(), s1.len() as int) =~= s.subrange(a, s.len() as int));
    assert(splice(s1, a + t1.len(), a + t1.len(), t2) =~= splice(s, a, a, t1 + t2));
}

} // verus!
