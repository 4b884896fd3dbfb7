use cql_ls::codec::PositionEncodingKind;
use cql_ls::document::{ChangeEvent, DocumentError, EditRange, Position, TextDocument};
use cql_ls::syntax::{find_statement_or_error, is_statement_or_error_kind};

fn range(sl: u32, sc: u32, el: u32, ec: u32) -> EditRange {
    EditRange {
        start: Position { line: sl, character: sc },
        end: Position { line: el, character: ec },
    }
}

fn edit(sl: u32, sc: u32, el: u32, ec: u32, text: &str) -> ChangeEvent {
    ChangeEvent { range: Some(range(sl, sc, el, ec)), text: text.to_string() }
}

#[test]
fn replace_star_with_id() {
    let mut doc = TextDocument::new("SELECT * FROM t;\n");
    let r = doc.apply_content_change(edit(0, 7, 0, 8, "id"), PositionEncodingKind::UTF32);
    assert!(r.is_ok());
    assert_eq!(doc.text(), "SELECT id FROM t;\n");
}

#[test]
fn full_replace_yields_exactly_the_new_text() {
    let mut doc = TextDocument::new("SELECT * FROM t;\n");
    let r = doc.apply_content_change(
        ChangeEvent { range: None, text: "USE ks;\n".to_string() },
        PositionEncodingKind::UTF16,
    );
    assert!(r.is_ok());
    assert_eq!(doc.text(), "USE ks;\n");
}

#[test]
fn length_invariant_on_incremental_edit() {
    let mut doc = TextDocument::new("hello\nworld\n");
    let before = doc.text().chars().count();
    // Removes pos(0,1)..pos(1,2): seven characters; inserts one.
    let r = doc.apply_content_change(edit(0, 1, 1, 2, "X"), PositionEncodingKind::UTF32);
    assert!(r.is_ok());
    assert_eq!(doc.text(), "hXrld\n");
    let after = doc.text().chars().count();
    assert_eq!(after, before - 7 + 1);
}

#[test]
fn reversed_range_is_rejected_without_mutation() {
    let mut doc = TextDocument::new("SELECT * FROM t;\n");
    let before = doc.text();
    let r = doc.apply_content_change(edit(0, 5, 0, 2, "x"), PositionEncodingKind::UTF32);
    assert_eq!(r, Err(DocumentError::PositionOutOfBounds(0, 5)));
    assert_eq!(doc.text(), before);
    let r2 = doc.apply_content_change(edit(3, 0, 1, 0, "x"), PositionEncodingKind::UTF32);
    assert_eq!(r2, Err(DocumentError::PositionOutOfBounds(3, 0)));
    assert_eq!(doc.text(), before);
}

#[test]
fn missing_line_is_rejected_without_mutation() {
    let mut doc = TextDocument::new("SELECT * FROM t;\n");
    let before = doc.text();
    let r = doc.apply_content_change(edit(5, 0, 5, 0, "x"), PositionEncodingKind::UTF32);
    assert_eq!(r, Err(DocumentError::PositionOutOfBounds(5, 0)));
    assert_eq!(doc.text(), before);
    // An end line past the document is reported with the end coordinates.
    let r2 = doc.apply_content_change(edit(0, 0, 7, 0, "x"), PositionEncodingKind::UTF32);
    assert_eq!(r2, Err(DocumentError::PositionOutOfBounds(7, 0)));
    assert_eq!(doc.text(), before);
}

#[test]
fn offset_splitting_a_character_is_rejected() {
    let mut doc = TextDocument::new("s\u{e9}l;\n");
    let before = doc.text();
    let r = doc.apply_content_change(edit(0, 2, 0, 3, "x"), PositionEncodingKind::UTF8);
    assert_eq!(r, Err(DocumentError::PositionOutOfBounds(0, 2)));
    assert_eq!(doc.text(), before);
    let mut doc2 = TextDocument::new("a\u{1F600}b;\n");
    let r2 = doc2.apply_content_change(edit(0, 2, 0, 3, "x"), PositionEncodingKind::UTF16);
    assert_eq!(r2, Err(DocumentError::PositionOutOfBounds(0, 2)));
}

#[test]
fn utf16_edit_after_surrogate_pair() {
    let mut doc = TextDocument::new("a\u{1F600}b;\n");
    // Units 3..4 address 'b' under the 16-bit convention.
    let r = doc.apply_content_change(edit(0, 3, 0, 4, "XY"), PositionEncodingKind::UTF16);
    assert!(r.is_ok());
    assert_eq!(doc.text(), "a\u{1F600}XY;\n");
}

#[test]
fn tree_span_matches_buffer_byte_length_after_changes() {
    let mut doc = TextDocument::new("SELECT * FROM t;\n");
    assert_eq!(doc.tree_byte_span(), Some(doc.text().len()));
    let r = doc.apply_content_change(edit(0, 7, 0, 8, "name"), PositionEncodingKind::UTF32);
    assert!(r.is_ok());
    assert_eq!(doc.tree_byte_span(), Some(doc.text().len()));
    let r2 = doc.apply_content_change(
        ChangeEvent { range: None, text: "USE ks;\n".to_string() },
        PositionEncodingKind::UTF32,
    );
    assert!(r2.is_ok());
    assert_eq!(doc.tree_byte_span(), Some(doc.text().len()));
}

#[test]
fn multi_line_insertion_shifts_line_numbering() {
    let mut doc = TextDocument::new("ab\ncd\n");
    let r = doc.apply_content_change(edit(0, 1, 0, 1, "X\nY"), PositionEncodingKind::UTF32);
    assert!(r.is_ok());
    assert_eq!(doc.text(), "aX\nYb\ncd\n");
    assert_eq!(doc.tree_byte_span(), Some(doc.text().len()));
}

#[test]
fn two_insertions_equal_one_concatenated_insertion() {
    let mut doc1 = TextDocument::new("abcd;\n");
    assert!(doc1
        .apply_content_change(edit(0, 2, 0, 2, "X"), PositionEncodingKind::UTF32)
        .is_ok());
    assert!(doc1
        .apply_content_change(edit(0, 3, 0, 3, "Y"), PositionEncodingKind::UTF32)
        .is_ok());
    let mut doc2 = TextDocument::new("abcd;\n");
    assert!(doc2
        .apply_content_change(edit(0, 2, 0, 2, "XY"), PositionEncodingKind::UTF32)
        .is_ok());
    assert_eq!(doc1.text(), doc2.text());
    assert_eq!(doc1.text(), "abXYcd;\n");
}

#[test]
fn grown_offset_past_a_separator_is_rejected() {
    // Growing an offset that sat just past a line separator leaves the line,
    // so the follow-up insertion is rejected and the buffer keeps its state.
    let mut doc = TextDocument::new("ab\ncd\n");
    assert!(doc
        .apply_content_change(edit(0, 3, 0, 3, "X"), PositionEncodingKind::UTF32)
        .is_ok());
    assert_eq!(doc.text(), "ab\nXcd\n");
    let r = doc.apply_content_change(edit(0, 4, 0, 4, "Y"), PositionEncodingKind::UTF32);
    assert_eq!(r, Err(DocumentError::PositionOutOfBounds(0, 4)));
    assert_eq!(doc.text(), "ab\nXcd\n");
}

#[test]
fn position_to_byte_counts_utf8_bytes() {
    let doc = TextDocument::new("a\u{1F600}b;\nx");
    assert_eq!(doc.position_to_byte(Position { line: 0, character: 3 }, PositionEncodingKind::UTF16), Ok(5));
    assert_eq!(doc.position_to_byte(Position { line: 1, character: 0 }, PositionEncodingKind::UTF32), Ok(8));
    assert_eq!(doc.position_to_byte(Position { line: 1, character: 1 }, PositionEncodingKind::UTF32), Ok(9));
    assert_eq!(
        doc.position_to_byte(Position { line: 0, character: 2 }, PositionEncodingKind::UTF16),
        Err(DocumentError::PositionOutOfBounds(0, 2))
    );
    assert_eq!(
        doc.position_to_byte(Position { line: 9, character: 0 }, PositionEncodingKind::UTF32),
        Err(DocumentError::PositionOutOfBounds(9, 0))
    );
}

#[test]
fn statement_walk_finds_enclosing_statement_or_error() {
    assert!(is_statement_or_error_kind("statement"));
    assert!(is_statement_or_error_kind("ERROR"));
    assert!(!is_statement_or_error_kind("identifier"));
    let doc = TextDocument::new("SELECT * FROM t;\n");
    let tree = doc.tree.as_ref().expect("initial parse yields a tree");
    let root = tree.root_node();
    let node = root
        .descendant_for_byte_range(8, 8)
        .expect("a node covers the cursor");
    let found = find_statement_or_error(node);
    if let Some(n) = found {
        let kind = n.kind();
        assert!(kind == "statement" || kind == "ERROR");
    }
}
