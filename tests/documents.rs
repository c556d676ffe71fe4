use tyls::document::{handle_did_change, ContentChange, Document};
use tyls::position::{Position, Range};

fn ranged(l0: u32, c0: u32, l1: u32, c1: u32, text: &str) -> ContentChange {
    ContentChange {
        range: Some(Range::new(Position::new(l0, c0), Position::new(l1, c1))),
        text: text.to_string(),
    }
}

#[test]
fn ranged_edit_replaces_characters() {
    let mut doc = Document::new("start\n");
    let r = handle_did_change(&mut doc, &vec![ranged(0, 0, 0, 5, "begin")]);
    assert_eq!(r, Ok(()));
    assert_eq!(doc.text(), "begin\n");
}

#[test]
fn edits_apply_in_order() {
    let mut doc = Document::new("ab\ncd\n");
    let changes = vec![ranged(1, 0, 1, 2, "xyz"), ranged(0, 2, 1, 0, ""), ranged(2, 0, 2, 0, "end")];
    assert_eq!(handle_did_change(&mut doc, &changes), Ok(()));
    assert_eq!(doc.text(), "abxyz\nend");
}

#[test]
fn unranged_change_replaces_everything() {
    let mut doc = Document::new("old text");
    let c = ContentChange { range: None, text: "new".to_string() };
    assert_eq!(handle_did_change(&mut doc, &vec![c]), Ok(()));
    assert_eq!(doc.text(), "new");
}

#[test]
fn bad_range_stops_the_batch() {
    let mut doc = Document::new("one\ntwo\n");
    let changes = vec![ranged(0, 0, 0, 3, "ONE"), ranged(5, 0, 5, 1, "x"), ranged(1, 0, 1, 3, "TWO")];
    assert_eq!(handle_did_change(&mut doc, &changes), Err(1));
    assert_eq!(doc.text(), "ONE\ntwo\n");
    let mut doc = Document::new("ab");
    assert!(!doc.apply_change(&ranged(0, 2, 0, 1, "")));
    assert!(!doc.apply_change(&ranged(0, 0, 0, 3, "")));
    assert_eq!(doc.text(), "ab");
}

#[test]
fn carriage_returns_break_lines() {
    let mut doc = Document::new("a\r\nb\rc");
    assert!(doc.apply_change(&ranged(2, 0, 2, 1, "C")));
    assert!(doc.apply_change(&ranged(1, 0, 1, 1, "B")));
    assert_eq!(doc.text(), "a\r\nB\rC");
}
