//! One open document: an editable text buffer plus an optional syntax tree,
//! kept mutually consistent while partial edits arrive.

use vstd::prelude::*;
use vstd::string::StrSliceExecFns;

use crate::buffer::{
    lemma_line_unit_off_le_bytes, rope_char_to_byte, rope_chars, rope_from_str, rope_get_line,
    rope_byte_to_line, rope_insert, rope_len_bytes, rope_len_chars, rope_line_to_byte, rope_line_to_char,
    rope_remove, rope_to_string, str_chars,
};
use crate::codec::{
    byte_off, bytes_of, char_at_unit, is_unit_boundary, lemma_codec_round_trip,
    lemma_unit_off_mono, unit_off, unit_to_char, char_to_unit, PositionEncodingKind,
};
use crate::codec::{lemma_units_of_concat, unit_len, units_of};
use crate::lines::{
    count_nl, lemma_count_nl_concat, lemma_count_nl_nonneg, lemma_insert_composition,
    lemma_line_of_char, lemma_line_start_bounds, lemma_line_start_insert, lemma_line_start_mono,
    lemma_next_start_ge, lemma_next_start_spec, line_at, line_count, line_start, next_start,
    splice,
};
use crate::syntax::{parser_new, parser_parse, parser_set_cql_language, tree_edit, tree_span,
    tree_span_bytes};

verus! {

/// A position in editor coordinates: a line and a unit offset within it,
/// whose meaning depends on the session's counting convention.
#[derive(Debug, Clone, Copy, PartialEq, Eq, Structural)]
pub struct Position {
    pub line: u32,
    pub character: u32,
}

/// A half-open region `[start, end)` in editor coordinates.
#[derive(Debug, Clone, Copy, PartialEq, Eq, Structural)]
pub struct EditRange {
    pub start: Position,
    pub end: Position,
}

/// One change event: an incremental edit replacing the range with `text`,
/// or, when `range` is absent, a full-document replacement by `text`.
#[derive(Debug)]
pub struct ChangeEvent {
    pub range: Option<EditRange>,
    pub text: String,
}

#[derive(Debug, Clone, Copy, PartialEq, Eq, Structural)]
pub enum DocumentError {
    /// The referenced line does not exist, or the unit offset does not land
    /// on a character boundary within it.
    PositionOutOfBounds(u32, u32),
}

pub open spec fn oob(p: Position) -> DocumentError {
    DocumentError::PositionOutOfBounds(p.line, p.character)
}

/// `start` does not come after `end`.
pub open spec fn range_ordered(r: EditRange) -> bool {
    r.start.line < r.end.line || (r.start.line == r.end.line && r.start.character
        <= r.end.character)
}

/// The position's line exists in the text.
pub open spec fn pos_line_exists(s: Seq<char>, p: Position) -> bool {
    (p.line as int) < line_count(s)
}

/// The position's unit offset lands on a character boundary of its line.
pub open spec fn pos_unit_ok(enc: PositionEncodingKind, s: Seq<char>, p: Position) -> bool {
    is_unit_boundary(enc, line_at(s, p.line as int), p.character as int)
}

pub open spec fn pos_valid(enc: PositionEncodingKind, s: Seq<char>, p: Position) -> bool {
    pos_line_exists(s, p) && pos_unit_ok(enc, s, p)
}

/// The document-wide character offset a position denotes.
pub open spec fn pos_char(enc: PositionEncodingKind, s: Seq<char>, p: Position) -> int {
    line_start(s, p.line as int) + char_at_unit(enc, line_at(s, p.line as int), p.character as int)
}

/// What one change does to a text: the new text, or the error rejecting the
/// change, with boundaries checked in the order start line, end line, start
/// unit offset, end unit offset, after the range-ordering check.
pub open spec fn change_outcome(
    enc: PositionEncodingKind,
    s: Seq<char>,
    range: Option<EditRange>,
    t: Seq<char>,
) -> Result<Seq<char>, DocumentError> {
    match range {
        None => Ok(t),
        Some(r) => {
            if !range_ordered(r) {
                Err(oob(r.start))
            } else if !pos_line_exists(s, r.start) {
                Err(oob(r.start))
            } else if !pos_line_exists(s, r.end) {
                Err(oob(r.end))
            } else if !pos_unit_ok(enc, s, r.start) {
                Err(oob(r.start))
            } else if !pos_unit_ok(enc, s, r.end) {
                Err(oob(r.end))
            } else {
                Ok(splice(s, pos_char(enc, s, r.start), pos_char(enc, s, r.end), t))
            }
        },
    }
}

/// The edit descriptor handed to the external parser after a buffer
/// mutation: document byte offsets of the edit's start, old end, and new
/// end, each with its row and in-line column.
#[derive(Debug, Clone, Copy, PartialEq, Eq, Structural)]
pub struct EditDescriptor {
    pub start_byte: usize,
    pub old_end_byte: usize,
    pub new_end_byte: usize,
    pub start_row: usize,
    pub start_col: usize,
    pub old_end_row: usize,
    pub old_end_col: usize,
    pub new_end_row: usize,
    pub new_end_col: usize,
}

/// What the descriptor of an accepted edit holds, for the edit replacing
/// characters `[start, end)` of `s` with `t`: the byte offsets of the three
/// boundaries (the new end measured in the mutated text), their rows, and
/// their in-line columns — counted in the 16-bit convention's own units
/// under that convention and in bytes otherwise, with the new end's row and
/// column re-derived from the mutated text.
pub open spec fn describes_edit(
    d: EditDescriptor,
    enc: PositionEncodingKind,
    s: Seq<char>,
    r: EditRange,
    t: Seq<char>,
) -> bool {
    let a = pos_char(enc, s, r.start);
    let b = pos_char(enc, s, r.end);
    let ns = splice(s, a, b, t);
    let ne = a + t.len();
    &&& d.start_byte as int == byte_off(s, a)
    &&& d.old_end_byte as int == byte_off(s, b)
    &&& d.new_end_byte as int == byte_off(ns, ne)
    &&& d.start_row as int == r.start.line as int
    &&& d.start_col as int == unit_off(col_enc(enc), line_at(s, r.start.line as int), char_at_unit(enc, line_at(s, r.start.line as int), r.start.character as int))
    &&& d.old_end_row as int == r.end.line as int
    &&& d.old_end_col as int == unit_off(col_enc(enc), line_at(s, r.end.line as int), char_at_unit(enc, line_at(s, r.end.line as int), r.end.character as int))
    &&& d.new_end_row as int == count_nl(ns.subrange(0, ne))
    &&& d.new_end_col as int == byte_off(ns, ne) - byte_off(ns, line_start(ns, d.new_end_row as int))
}

/// Builds the descriptor for a completed mutation from the boundary values
/// resolved before it and the buffer after it: the new end's position is
/// re-queried from the mutated buffer, since inserted text may span lines
/// and shift line numbering.
fn build_edit_descriptor(
    rope: &ropey::Rope,
    start_char: usize,
    start_byte: usize,
    old_end_byte: usize,
    start_row: usize,
    start_col: usize,
    old_end_row: usize,
    old_end_col: usize,
    inserted_chars: usize,
    Ghost(enc): Ghost<PositionEncodingKind>,
    Ghost(s): Ghost<Seq<char>>,
    Ghost(r): Ghost<EditRange>,
    Ghost(t): Ghost<Seq<char>>,
) -> (d: EditDescriptor)
    requires
        range_ordered(r),
        pos_valid(enc, s, r.start),
        pos_valid(enc, s, r.end),
        start_char as int == pos_char(enc, s, r.start),
        start_byte as int == byte_off(s, pos_char(enc, s, r.start)),
        old_end_byte as int == byte_off(s, pos_char(enc, s, r.end)),
        start_row as int == r.start.line as int,
        start_col as int == unit_off(col_enc(enc), line_at(s, r.start.line as int), char_at_unit(enc, line_at(s, r.start.line as int), r.start.character as int)),
        old_end_row as int == r.end.line as int,
        old_end_col as int == unit_off(col_enc(enc), line_at(s, r.end.line as int), char_at_unit(enc, line_at(s, r.end.line as int), r.end.character as int)),
        inserted_chars as int == t.len(),
        rope_chars(*rope) == splice(s, pos_char(enc, s, r.start), pos_char(enc, s, r.end), t),
    ensures
        describes_edit(d, enc, s, r, t),
{
    let ghost ns = rope_chars(*rope);
    proof {
        lemma_pos_char_bounds(enc, s, r);
    }
    let _new_len_chars = rope_len_chars(rope);
    let new_end_char = start_char + inserted_chars;
    let new_end_byte = rope_char_to_byte(rope, new_end_char);
    proof {
        lemma_line_of_char(ns, new_end_char as int);
    }
    let new_end_row = rope_byte_to_line(rope, new_end_byte);
    proof {
        lemma_line_start_bounds(ns, new_end_row as int);
        lemma_unit_off_mono(
            PositionEncodingKind::UTF8,
            ns,
            line_start(ns, new_end_row as int),
            new_end_char as int,
        );
    }
    let new_row_byte = rope_line_to_byte(rope, new_end_row);
    EditDescriptor {
        start_byte,
        old_end_byte,
        new_end_byte,
        start_row,
        start_col,
        old_end_row,
        old_end_col,
        new_end_row,
        new_end_col: new_end_byte - new_row_byte,
    }
}

/// One open document. The buffer is the live content; the tree, when
/// present, is the external parser's structure for exactly that content.
pub struct TextDocument {
    pub rope: ropey::Rope,
    pub tree: Option<tree_sitter::Tree>,
    parser: tree_sitter::Parser,
}

impl TextDocument {
    /// The buffer content as a character sequence.
    pub closed spec fn text_view(&self) -> Seq<char> {
        rope_chars(self.rope)
    }

    /// The syntax tree currently held, if any.
    pub closed spec fn spec_tree(&self) -> Option<tree_sitter::Tree> {
        self.tree
    }

    /// Buffer and tree are mutually consistent: a present tree spans exactly
    /// the buffer's bytes.
    pub closed spec fn wf(&self) -> bool {
        match self.tree {
            Some(t) => tree_span_bytes(t) == bytes_of(self.text_view()),
            None => true,
        }
    }

    /// Creates a buffer, parser, and initial tree from the given text. The
    /// bundled grammar always loads, so construction always succeeds; the
    /// tree may still be absent when the parser yields none, which is a
    /// valid state, not an error.
    pub fn new(text: &str) -> (d: TextDocument)
        ensures
            d.text_view() == text@,
            d.wf(),
    {
        let mut parser = parser_new();
        let _loaded = parser_set_cql_language(&mut parser);
        let rope = rope_from_str(text);
        let tree = parser_parse(&mut parser, text, None);
        TextDocument { rope, tree, parser }
    }

    /// The buffer's full current content.
    pub fn text(&self) -> (s: String)
        ensures
            s@ == self.text_view(),
    {
        rope_to_string(&self.rope)
    }

    /// The byte span the current tree reports, when one is present.
    pub fn tree_byte_span(&self) -> (r: Option<usize>)
        ensures
            match r {
                Some(n) => self.spec_tree() matches Some(t) && n as int == tree_span_bytes(t),
                None => self.spec_tree() is None,
            },
    {
        match &self.tree {
            Some(t) => Some(tree_span(t)),
            None => None,
        }
    }

    /// Resolves a position in editor coordinates to the document-wide byte
    /// offset it denotes, for the parser's byte-oriented queries. Fails with
    /// the position's coordinates exactly when the position is not valid in
    /// this buffer under the convention.
    pub fn position_to_byte(
        &self,
        pos: Position,
        position_encoding: PositionEncodingKind,
    ) -> (r: Result<usize, DocumentError>)
        ensures
            match r {
                Ok(b) => pos_valid(position_encoding, self.text_view(), pos) && b as int
                    == byte_off(self.text_view(), pos_char(position_encoding, self.text_view(), pos)),
                Err(e) => !pos_valid(position_encoding, self.text_view(), pos) && e == oob(pos),
            },
    {
        let ghost s = self.text_view();
        let enc = position_encoding;
        let slen = rope_len_chars(&self.rope);
        let line_idx = pos.line as usize;
        let line = match rope_get_line(&self.rope, line_idx) {
            Some(l) => l,
            None => {
                return Err(DocumentError::PositionOutOfBounds(pos.line, pos.character));
            },
        };
        let lv = str_chars(line.as_str());
        let line_char_idx = match unit_to_char(enc, &lv, pos.character as usize) {
            Some(c) => c,
            None => {
                return Err(DocumentError::PositionOutOfBounds(pos.line, pos.character));
            },
        };
        proof {
            lemma_codec_round_trip(enc, line_at(s, line_idx as int), line_char_idx as int);
            lemma_line_start_bounds(s, line_idx as int);
            lemma_line_start_bounds(s, line_idx as int + 1);
            lemma_line_start_mono(s, line_idx as int, line_idx as int + 1);
        }
        let doc_char_idx = rope_line_to_char(&self.rope, line_idx) + line_char_idx;
        Ok(rope_char_to_byte(&self.rope, doc_char_idx))
    }

    /// Applies one change event under the session's counting convention.
    /// On success the buffer holds exactly the spliced (or replacing) text
    /// and the tree, if any, is a fresh parse of it; on rejection buffer and
    /// tree are exactly as before the call.
    #[verifier::rlimit(100)]
    pub fn apply_content_change(
        &mut self,
        change: ChangeEvent,
        position_encoding: PositionEncodingKind,
    ) -> (r: Result<(), DocumentError>)
        ensures
            match change_outcome(
                position_encoding,
                old(self).text_view(),
                change.range,
                change.text@,
            ) {
                Ok(t) => r is Ok && final (self).text_view() == t && final (self).wf(),
                Err(e) => r == Err::<(), DocumentError>(e) && *final (self) == *old(self),
            },
            (change.range is Some && old(self).spec_tree() is None) ==> final (self).spec_tree() is None,
    {
        let ghost s = self.text_view();
        let enc = position_encoding;
        match change.range {
            None => {
                self.rope = rope_from_str(change.text.as_str());
                self.tree = parser_parse(&mut self.parser, change.text.as_str(), None);
                Ok(())
            },
            Some(range) => {
                if !(range.start.line < range.end.line || (range.start.line == range.end.line
                    && range.start.character <= range.end.character)) {
                    return Err(DocumentError::PositionOutOfBounds(
                        range.start.line,
                        range.start.character,
                    ));
                }
                let same_line = range.start.line == range.end.line;
                let same_character = range.start.character == range.end.character;
                let slen = rope_len_chars(&self.rope);
                let sbytes = rope_len_bytes(&self.rope);

                // 1. The line at which the change starts.
                let start_line_idx = range.start.line as usize;
                let start_line = match rope_get_line(&self.rope, start_line_idx) {
                    Some(l) => l,
                    None => {
                        return Err(DocumentError::PositionOutOfBounds(
                            range.start.line,
                            range.start.character,
                        ));
                    },
                };

                // 2. The line at which the change ends.
                let end_line_idx = range.end.line as usize;
                let end_line_opt: Option<String> = if same_line {
                    None
                } else {
                    match rope_get_line(&self.rope, end_line_idx) {
                        Some(l) => Some(l),
                        None => {
                            return Err(DocumentError::PositionOutOfBounds(
                                range.end.line,
                                range.end.character,
                            ));
                        },
                    }
                };

                // 3. In-line character offsets of both boundaries.
                let start_lv = str_chars(start_line.as_str());
                let end_lv_own: Option<Vec<char>> = match &end_line_opt {
                    Some(l) => Some(str_chars(l.as_str())),
                    None => None,
                };
                let end_lv: &Vec<char> = match &end_lv_own {
                    Some(v) => v,
                    None => &start_lv,
                };
                let start_line_char_idx = match unit_to_char(
                    enc,
                    &start_lv,
                    range.start.character as usize,
                ) {
                    Some(c) => c,
                    None => {
                        return Err(DocumentError::PositionOutOfBounds(
                            range.start.line,
                            range.start.character,
                        ));
                    },
                };
                let end_line_char_idx = if same_line && same_character {
                    start_line_char_idx
                } else {
                    match unit_to_char(enc, end_lv, range.end.character as usize) {
                        Some(c) => c,
                        None => {
                            return Err(DocumentError::PositionOutOfBounds(
                                range.end.line,
                                range.end.character,
                            ));
                        },
                    }
                };
                proof {
                    lemma_codec_round_trip(enc, line_at(s, start_line_idx as int),
                        start_line_char_idx as int);
                    lemma_codec_round_trip(enc, line_at(s, end_line_idx as int),
                        end_line_char_idx as int);
                    lemma_line_start_bounds(s, start_line_idx as int);
                    lemma_line_start_bounds(s, start_line_idx as int + 1);
                    lemma_line_start_mono(s, start_line_idx as int, start_line_idx as int + 1);
                    lemma_line_start_bounds(s, end_line_idx as int);
                    lemma_line_start_bounds(s, end_line_idx as int + 1);
                    lemma_line_start_mono(s, end_line_idx as int, end_line_idx as int + 1);
                }

                // 4. Document-wide character and byte offsets of both boundaries.
                let start_doc_char_idx = rope_line_to_char(&self.rope, start_line_idx)
                    + start_line_char_idx;
                let end_doc_char_idx = if same_line && same_character {
                    start_doc_char_idx
                } else if same_line {
                    rope_line_to_char(&self.rope, start_line_idx) + end_line_char_idx
                } else {
                    rope_line_to_char(&self.rope, end_line_idx) + end_line_char_idx
                };
                proof {
                    if same_line && !same_character {
                        if end_line_char_idx < start_line_char_idx {
                            lemma_unit_off_mono(
                                enc,
                                line_at(s, start_line_idx as int),
                                end_line_char_idx as int,
                                start_line_char_idx as int,
                            );
                        }
                    }
                    if !same_line {
                        lemma_line_start_mono(s, start_line_idx as int + 1, end_line_idx as int);
                    }
                }
                let start_doc_byte_idx = rope_char_to_byte(&self.rope, start_doc_char_idx);
                let end_doc_byte_idx = if same_line && same_character {
                    start_doc_byte_idx
                } else {
                    rope_char_to_byte(&self.rope, end_doc_char_idx)
                };

                // 5. In-line columns of both boundaries for the parser's edit
                //    descriptor.
                proof {
                    lemma_line_unit_off_le_bytes(col_enc(enc), s, start_line_idx as int,
                        start_line_char_idx as int);
                    lemma_line_unit_off_le_bytes(col_enc(enc), s, end_line_idx as int,
                        end_line_char_idx as int);
                }
                let start_line_col = char_to_unit(col_enc_exec(enc), &start_lv,
                    start_line_char_idx);
                let end_line_col = if same_line && same_character {
                    start_line_col
                } else {
                    char_to_unit(col_enc_exec(enc), end_lv, end_line_char_idx)
                };

                // 6. Mutate the buffer: remove, then insert. All fallible
                //    lookups are complete, so no failure can follow.
                rope_remove(&mut self.rope, start_doc_char_idx, end_doc_char_idx);
                rope_insert(&mut self.rope, start_doc_char_idx, change.text.as_str());
                let ghost ns = rope_chars(self.rope);
                proof {
                    let a = start_doc_char_idx as int;
                    let b = end_doc_char_idx as int;
                    let mid = s.subrange(0, a) + s.subrange(b, s.len() as int);
                    assert(mid.subrange(0, a) =~= s.subrange(0, a));
                    assert(mid.subrange(a, mid.len() as int) =~= s.subrange(b, s.len() as int));
                    assert(ns =~= splice(s, a, b, change.text@));
                }

                // 7. Keep the tree in step: mark the edit on the old tree,
                //    then re-parse with it as a reuse hint.
                let old_tree = self.tree.take();
                match old_tree {
                    Some(mut t) => {
                        let inserted_chars = change.text.as_str().unicode_len();
                        let descriptor = build_edit_descriptor(
                            &self.rope,
                            start_doc_char_idx,
                            start_doc_byte_idx,
                            end_doc_byte_idx,
                            start_line_idx,
                            start_line_col,
                            end_line_idx,
                            end_line_col,
                            inserted_chars,
                            Ghost(enc),
                            Ghost(s),
                            Ghost(range),
                            Ghost(change.text@),
                        );
                        tree_edit(&mut t, &descriptor);
                        let text_now = rope_to_string(&self.rope);
                        self.tree = parser_parse(&mut self.parser, text_now.as_str(), Some(&t));
                    },
                    None => {},
                }
                Ok(())
            },
        }
    }
}

/// The convention that counts a line's descriptor column: the 16-bit
/// convention keeps its own units, the others use the line's bytes.
pub open spec fn col_enc(enc: PositionEncodingKind) -> PositionEncodingKind {
    match enc {
        PositionEncodingKind::UTF16 => PositionEncodingKind::UTF16,
        _ => PositionEncodingKind::UTF8,
    }
}

fn col_enc_exec(enc: PositionEncodingKind) -> (r: PositionEncodingKind)
    ensures
        r == col_enc(enc),
{
    match enc {
        PositionEncodingKind::UTF16 => PositionEncodingKind::UTF16,
        _ => PositionEncodingKind::UTF8,
    }
}

/// An accepted edit's boundary offsets are ordered and lie within the text.
pub proof fn lemma_pos_char_bounds(enc: PositionEncodingKind, s: Seq<char>, r: EditRange)
    requires
        range_ordered(r),
        pos_valid(enc, s, r.start),
        pos_valid(enc, s, r.end),
    ensures
        0 <= pos_char(enc, s, r.start) <= pos_char(enc, s, r.end) <= s.len(),
{
    let sl = r.start.line as int;
    let el = r.end.line as int;
    let ls = line_at(s, sl);
    let le = line_at(s, el);
    let cs = char_at_unit(enc, ls, r.start.character as int);
    let ce = char_at_unit(enc, le, r.end.character as int);
    assert(0 <= cs <= ls.len() && unit_off(enc, ls, cs) == r.start.character as int);
    assert(0 <= ce <= le.len() && unit_off(enc, le, ce) == r.end.character as int);
    lemma_line_start_bounds(s, sl);
    lemma_line_start_bounds(s, sl + 1);
    lemma_line_start_mono(s, sl, sl + 1);
    lemma_line_start_bounds(s, el);
    lemma_line_start_bounds(s, el + 1);
    lemma_line_start_mono(s, el, el + 1);
    if sl == el {
        if ce < cs {
            lemma_unit_off_mono(enc, ls, ce, cs);
        }
    } else {
        lemma_line_start_mono(s, sl + 1, el);
    }
}

/// An accepted pure insertion of one character grows its position's unit
/// offset by that character's unit length: the grown offset is again a
/// boundary of the edited line, and it denotes the character offset just
/// after the insertion. The statement excludes a position sitting just past
/// a line's separator, where the grown offset would leave the line.
pub proof fn lemma_grow_position(enc: PositionEncodingKind, s: Seq<char>, p: Position, c: char)
    requires
        pos_valid(enc, s, p),
        ({
            let line = line_at(s, p.line as int);
            let ci = char_at_unit(enc, line, p.character as int);
            ci < line.len() || line.len() == 0 || line[line.len() - 1] != '\n'
        }),
    ensures
        ({
            let a = pos_char(enc, s, p);
            let ns = splice(s, a, a, seq![c]);
            let gu = p.character + unit_len(enc, c);
            &&& 0 <= a <= s.len()
            &&& (p.line as int) < line_count(ns)
            &&& is_unit_boundary(enc, line_at(ns, p.line as int), gu)
            &&& line_start(ns, p.line as int) + char_at_unit(enc, line_at(ns, p.line as int), gu)
                == a + 1
        }),
{
    let l = p.line as int;
    let line = line_at(s, l);
    let u = p.character as int;
    let ci = char_at_unit(enc, line, u);
    assert(0 <= ci <= line.len() && unit_off(enc, line, ci) == u);
    lemma_line_start_bounds(s, l);
    lemma_line_start_bounds(s, l + 1);
    lemma_line_start_mono(s, l, l + 1);
    let ls = line_start(s, l);
    let r = line_start(s, l + 1);
    assert(line.len() == r - ls);
    let a = ls + ci;
    let ns = splice(s, a, a, seq![c]);
    assert(ns.len() == s.len() + 1);
    assert(forall|j: int| 0 <= j < a ==> ns[j] == s[j]);
    assert(ns[a] == c);
    assert(r == next_start(s, ls));
    lemma_next_start_spec(s, ls);
    assert forall|j: int| ls <= j < a implies ns[j] != '\n' by {
        if j == r - 1 {
            assert(s[j] == line[line.len() - 1]);
        }
    }
    lemma_line_start_insert(s, a, seq![c], l);
    lemma_line_start_bounds(ns, l);
    lemma_line_start_bounds(ns, l + 1);
    lemma_line_start_mono(ns, l, l + 1);
    assert(line_start(ns, l + 1) == next_start(ns, ls));
    lemma_next_start_ge(ns, ls, a + 1);
    let nline = line_at(ns, l);
    assert(nline.len() >= ci + 1);
    assert(nline.subrange(0, ci + 1) =~= line.subrange(0, ci) + seq![c]);
    lemma_units_of_concat(enc, line.subrange(0, ci), seq![c]);
    assert(seq![c].drop_first() =~= Seq::<char>::empty());
    assert(units_of(enc, seq![c].drop_first()) == 0);
    assert(units_of(enc, seq![c]) == unit_len(enc, c));
    let gu = u + unit_len(enc, c);
    assert(unit_off(enc, nline, ci + 1) == gu);
    assert(s =~= s.subrange(0, a) + s.subrange(a, s.len() as int));
    lemma_count_nl_concat(s.subrange(0, a), s.subrange(a, s.len() as int));
    assert(ns =~= s.subrange(0, a) + (seq![c] + s.subrange(a, s.len() as int)));
    lemma_count_nl_concat(s.subrange(0, a), seq![c] + s.subrange(a, s.len() as int));
    lemma_count_nl_concat(seq![c], s.subrange(a, s.len() as int));
    lemma_count_nl_nonneg(seq![c]);
    assert(0 <= ci + 1 <= nline.len() && unit_off(enc, nline, ci + 1) == gu);
    lemma_codec_round_trip(enc, nline, ci + 1);
}

/// Law: two sequential single-character insertions, the second at the unit
/// offset grown by the first character's unit length, produce the same
/// buffer as one insertion of the two characters at the original offset.
/// The law excludes a position sitting just past a line's separator — there
/// the grown offset leaves the line and the second insertion is rejected —
/// and asks that the grown offset still fit its integer type.
pub proof fn lemma_growing_insertions(
    enc: PositionEncodingKind,
    s: Seq<char>,
    p: Position,
    c1: char,
    c2: char,
)
    requires
        pos_valid(enc, s, p),
        p.character + unit_len(enc, c1) <= u32::MAX,
        ({
            let line = line_at(s, p.line as int);
            let ci = char_at_unit(enc, line, p.character as int);
            ci < line.len() || line.len() == 0 || line[line.len() - 1] != '\n'
        }),
    ensures
        ({
            let one = EditRange { start: p, end: p };
            let grown = Position {
                line: p.line,
                character: (p.character + unit_len(enc, c1)) as u32,
            };
            let two = EditRange { start: grown, end: grown };
            let first = change_outcome(enc, s, Some(one), seq![c1]);
            &&& first is Ok
            &&& change_outcome(enc, first->Ok_0, Some(two), seq![c2]) == change_outcome(
                enc,
                s,
                Some(one),
                seq![c1, c2],
            )
        }),
{
    let a = pos_char(enc, s, p);
    lemma_grow_position(enc, s, p, c1);
    let ns = splice(s, a, a, seq![c1]);
    let one = EditRange { start: p, end: p };
    assert(change_outcome(enc, s, Some(one), seq![c1]) == Ok::<Seq<char>, DocumentError>(ns));
    let grown = Position { line: p.line, character: (p.character + unit_len(enc, c1)) as u32 };
    assert(grown.character as int == p.character + unit_len(enc, c1));
    assert(pos_valid(enc, ns, grown));
    assert(pos_char(enc, ns, grown) == a + 1);
    let two = EditRange { start: grown, end: grown };
    assert(change_outcome(enc, ns, Some(two), seq![c2]) == Ok::<Seq<char>, DocumentError>(
        splice(ns, a + 1, a + 1, seq![c2]),
    ));
    lemma_insert_composition(s, a, seq![c1], seq![c2]);
    assert(seq![c1] + seq![c2] =~= seq![c1, c2]);
    assert(change_outcome(enc, s, Some(one), seq![c1, c2]) == Ok::<Seq<char>, DocumentError>(
        splice(s, a, a, seq![c1, c2]),
    ));
}

/// Law: an accepted incremental edit that removes the characters in
/// `[start, end)` and inserts `t` changes the buffer's character count by
/// exactly the inserted length minus the removed length.
pub proof fn lemma_length_invariant(
    enc: PositionEncodingKind,
    s: Seq<char>,
    r: EditRange,
    t: Seq<char>,
)
    requires
        change_outcome(enc, s, Some(r), t) is Ok,
    ensures
        change_outcome(enc, s, Some(r), t)->Ok_0.len() == s.len() - (pos_char(enc, s, r.end)
            - pos_char(enc, s, r.start)) + t.len(),
{
    lemma_pos_char_bounds(enc, s, r);
}

} // verus!
