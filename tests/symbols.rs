use tyls::position::{Position, Range};
use tyls::symbol::{handle_hover, Symbol, SymbolTable};

fn sym(name: &str, line: u32, start: u32, end: u32) -> Symbol {
    Symbol {
        name: name.to_string(),
        ty: "i32".to_string(),
        range: Range::new(Position::new(line, start), Position::new(line, end)),
    }
}

fn table(uri: &str, syms: Vec<Symbol>) -> SymbolTable {
    let records: Vec<(String, Symbol)> = syms.into_iter().map(|s| (uri.to_string(), s)).collect();
    SymbolTable::from_records(&records)
}

#[test]
fn query_finds_the_containing_symbol() {
    let uri = "file:///a.rs".to_string();
    let t = table(&uri, vec![sym("c", 3, 4, 9), sym("a", 0, 4, 5), sym("b", 0, 8, 12)]);
    assert_eq!(t.query(&uri, Position::new(0, 4)).unwrap().name, "a");
    assert_eq!(t.query(&uri, Position::new(0, 11)).unwrap().name, "b");
    assert_eq!(t.query(&uri, Position::new(3, 8)).unwrap().name, "c");
    assert!(t.query(&uri, Position::new(0, 5)).is_none());
    assert!(t.query(&uri, Position::new(0, 12)).is_none());
    assert!(t.query(&uri, Position::new(1, 4)).is_none());
    assert!(t.query(&"file:///other.rs".to_string(), Position::new(0, 4)).is_none());
}

#[test]
fn boundary_belongs_to_the_symbol_that_starts_there() {
    let uri = "u".to_string();
    let t = table(&uri, vec![sym("x", 2, 0, 3), sym("y", 2, 3, 6)]);
    assert_eq!(t.query(&uri, Position::new(2, 3)).unwrap().name, "y");
    assert_eq!(t.query(&uri, Position::new(2, 2)).unwrap().name, "x");
    assert!(t.query(&uri, Position::new(2, 6)).is_none());
}

#[test]
fn disjoint_ranges_are_all_found() {
    let uri = "u".to_string();
    let mut syms = Vec::new();
    let mut seed: u32 = 7;
    for line in 0..40u32 {
        let mut col = 0;
        for _ in 0..(line % 4) {
            seed = seed.wrapping_mul(1103515245).wrapping_add(12345);
            let gap = (seed >> 16) % 3;
            let len = 1 + (seed >> 20) % 4;
            syms.push(sym(&format!("s{}_{}", line, col + gap), line, col + gap, col + gap + len));
            col += gap + len;
        }
    }
    let t = table(&uri, syms.iter().rev().cloned().collect());
    for line in 0..40u32 {
        for c in 0..20u32 {
            let expect = syms.iter().find(|s| {
                s.range.start.line == line && s.range.start.character <= c && c < s.range.end.character
            });
            let got = t.query(&uri, Position::new(line, c));
            assert_eq!(got.map(|s| s.name), expect.map(|s| s.name.clone()));
        }
    }
}

#[test]
fn overlapping_and_multiline_records_are_left_out() {
    let uri = "u".to_string();
    let multi = Symbol {
        name: "m".to_string(),
        ty: "T".to_string(),
        range: Range::new(Position::new(5, 0), Position::new(6, 2)),
    };
    let t = table(&uri, vec![sym("first", 1, 0, 5), sym("overlap", 1, 3, 8), multi]);
    assert_eq!(t.query(&uri, Position::new(1, 4)).unwrap().name, "first");
    assert!(t.query(&uri, Position::new(1, 6)).is_none());
    assert!(t.query(&uri, Position::new(5, 1)).is_none());
}

#[test]
fn merge_replaces_whole_documents() {
    let a = "a".to_string();
    let b = "b".to_string();
    let mut t = SymbolTable::from_records(&vec![
        (a.clone(), sym("old1", 0, 0, 3)),
        (a.clone(), sym("old2", 4, 0, 3)),
        (b.clone(), sym("keep", 0, 0, 3)),
    ]);
    let other = SymbolTable::from_records(&vec![(a.clone(), sym("new", 1, 0, 3))]);
    t.merge_replace(other);
    assert!(t.query(&a, Position::new(0, 1)).is_none());
    assert!(t.query(&a, Position::new(4, 1)).is_none());
    assert_eq!(t.query(&a, Position::new(1, 1)).unwrap().name, "new");
    assert_eq!(t.query(&b, Position::new(0, 1)).unwrap().name, "keep");
    t.replace_all(b.clone(), vec![]);
    assert!(t.query(&b, Position::new(0, 1)).is_none());
    let empty = SymbolTable::new();
    assert!(empty.query(&a, Position::new(0, 0)).is_none());
}

#[test]
fn hover_shows_name_and_type() {
    let uri = "u".to_string();
    let t = table(&uri, vec![sym("count", 2, 8, 13)]);
    let h = handle_hover(&t, &uri, Position::new(2, 9)).unwrap();
    assert_eq!(h.contents, "count: i32");
    assert_eq!(h.range, Range::new(Position::new(2, 8), Position::new(2, 13)));
    assert!(handle_hover(&t, &uri, Position::new(2, 13)).is_none());
}
