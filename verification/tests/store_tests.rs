use cql_ls::codec::PositionEncodingKind;
use cql_ls::document::{ChangeEvent, DocumentError, EditRange, Position};
use cql_ls::store::DocumentStore;

fn edit(sl: u32, sc: u32, el: u32, ec: u32, text: &str) -> ChangeEvent {
    ChangeEvent {
        range: Some(EditRange {
            start: Position { line: sl, character: sc },
            end: Position { line: el, character: ec },
        }),
        text: text.to_string(),
    }
}

#[test]
fn open_change_close_lifecycle() {
    let mut store = DocumentStore::new(PositionEncodingKind::UTF16);
    store.open("file:///a.cql", "SELECT * FROM t;\n");
    let doc = store.get("file:///a.cql").expect("document is open");
    assert_eq!(doc.text(), "SELECT * FROM t;\n");
    let r = store.change("file:///a.cql", vec![edit(0, 7, 0, 8, "id")]);
    assert!(r.is_ok());
    assert_eq!(store.get("file:///a.cql").unwrap().text(), "SELECT id FROM t;\n");
    store.close("file:///a.cql");
    assert!(store.get("file:///a.cql").is_none());
}

#[test]
fn change_on_unknown_id_is_a_silent_no_op() {
    let mut store = DocumentStore::new(PositionEncodingKind::UTF16);
    store.open("file:///kept.cql", "USE ks;\n");
    let r = store.change("file:///never-opened.cql", vec![edit(0, 0, 0, 1, "x")]);
    assert_eq!(r, Ok(()));
    assert!(store.get("file:///never-opened.cql").is_none());
    assert_eq!(store.get("file:///kept.cql").unwrap().text(), "USE ks;\n");
}

#[test]
fn close_twice_is_a_no_op_the_second_time() {
    let mut store = DocumentStore::new(PositionEncodingKind::UTF16);
    store.open("file:///a.cql", "USE ks;\n");
    store.open("file:///b.cql", "SELECT * FROM t;\n");
    store.close("file:///a.cql");
    assert!(store.get("file:///a.cql").is_none());
    store.close("file:///a.cql");
    assert!(store.get("file:///a.cql").is_none());
    assert_eq!(store.get("file:///b.cql").unwrap().text(), "SELECT * FROM t;\n");
}

#[test]
fn reopen_replaces_the_previous_document() {
    let mut store = DocumentStore::new(PositionEncodingKind::UTF16);
    store.open("file:///a.cql", "USE ks;\n");
    store.open("file:///a.cql", "USE other;\n");
    assert_eq!(store.get("file:///a.cql").unwrap().text(), "USE other;\n");
}

#[test]
fn events_in_one_change_apply_in_order() {
    let mut store = DocumentStore::new(PositionEncodingKind::UTF16);
    store.open("file:///a.cql", "abcd;\n");
    let r = store.change(
        "file:///a.cql",
        vec![edit(0, 2, 0, 2, "X"), edit(0, 3, 0, 3, "Y")],
    );
    assert!(r.is_ok());
    assert_eq!(store.get("file:///a.cql").unwrap().text(), "abXYcd;\n");
}

#[test]
fn change_stops_at_the_first_rejected_event() {
    let mut store = DocumentStore::new(PositionEncodingKind::UTF16);
    store.open("file:///a.cql", "abcd;\n");
    let r = store.change(
        "file:///a.cql",
        vec![edit(0, 2, 0, 2, "X"), edit(9, 0, 9, 0, "bad"), edit(0, 0, 0, 1, "unreached")],
    );
    assert_eq!(r, Err(DocumentError::PositionOutOfBounds(9, 0)));
    // The event before the rejected one remains applied.
    assert_eq!(store.get("file:///a.cql").unwrap().text(), "abXcd;\n");
}
