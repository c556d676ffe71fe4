use tyls::edit::{edits_from_ops, handle_formatting, synthesize_edits, LineOp, OpKind, TextEdit};
use tyls::error::{rustfmt_failed, Code, RequestError};
use tyls::lines::split_lines;
use tyls::position::{Position, Range};

/// Applies edits given in the coordinates of `text`, lines split after
/// `\n`, `\r\n` or a lone `\r`.
fn apply(text: &str, edits: &[TextEdit]) -> String {
    let lines = split_lines(text);
    let offset = |p: Position| -> usize {
        let l = (p.line as usize).min(lines.len());
        lines[..l].iter().map(|s| s.chars().count()).sum::<usize>() + p.character as usize
    };
    let chars: Vec<char> = text.chars().collect();
    let mut out = String::new();
    let mut at = 0;
    for e in edits {
        let a = offset(e.range.start);
        let b = offset(e.range.end);
        out.extend(&chars[at..a]);
        out.push_str(&e.new_text);
        at = b;
    }
    out.extend(&chars[at..]);
    out
}

#[test]
fn split_lines_keeps_terminators() {
    let ls = split_lines("a\nb\r\nc\rd");
    assert_eq!(ls, vec!["a\n", "b\r\n", "c\r", "d"]);
    assert!(split_lines("").is_empty());
    assert_eq!(split_lines("x\n"), vec!["x\n"]);
}

#[test]
fn round_trip_on_several_pairs() {
    let pairs = [
        ("fn main(){}\n", "fn main() {}\n"),
        ("a\nb\nc\n", "a\nc\n"),
        ("a\nc\n", "a\nb\nc\n"),
        ("a\nb", "a\nb\n"),
        ("", "x\ny\n"),
        ("x\ny\n", ""),
        ("one\r\ntwo\r\n", "one\ntwo\n"),
        ("let x=1;\nlet  y=2;\n\n\nfn f(){}\n", "let x = 1;\nlet y = 2;\n\nfn f() {}\n"),
    ];
    for (o, r) in pairs {
        let edits = synthesize_edits(o, r);
        assert_eq!(apply(o, &edits), r, "from {:?} to {:?}", o, r);
    }
}

#[test]
fn formatter_echo_gives_no_edits() {
    let text = "fn main() {\n    println!(\"hi\");\n}\n";
    let r = handle_formatting(text, Ok(text.to_string())).unwrap();
    assert!(r.is_empty());
}

#[test]
fn formatter_failure_is_reported() {
    let text = "fn main( {\n";
    let doc = tyls::document::Document::new(text);
    let r = handle_formatting(&doc.text(), Err(Some(1)));
    assert_eq!(doc.text(), text);
    assert_eq!(r.unwrap_err(), RequestError::FormatterFailed(Some(1)));
    assert_eq!(rustfmt_failed(Some(1)).code(), Code::RustfmtFailed);
    assert_eq!(Code::RustfmtFailed.number(), 2);
    assert_eq!(Code::FileNotOpen.number(), 1);
    assert_eq!(RequestError::FileNotOpen.code(), Code::FileNotOpen);
    assert_eq!(rustfmt_failed(Some(1)).message(), "rustfmt failed with status 1");
    assert_eq!(rustfmt_failed(Some(-42)).message(), "rustfmt failed with status -42");
    assert_eq!(rustfmt_failed(Some(130)).message(), "rustfmt failed with status 130");
    assert_eq!(rustfmt_failed(None).message(), "rustfmt was terminated by a signal");
    assert_eq!(RequestError::FileNotOpen.message(), "file not open");
    assert_eq!(tyls::error::decimal_string(i32::MIN), "-2147483648");
    assert_eq!(tyls::error::decimal_string(0), "0");
}

#[test]
fn formatting_replaces_the_changed_line() {
    let r = handle_formatting("a\nfn f(){}\nb\n", Ok("a\nfn f() {}\nb\n".to_string())).unwrap();
    assert_eq!(r.len(), 1);
    assert_eq!(r[0].range, Range::new(Position::new(1, 0), Position::new(2, 0)));
    assert_eq!(r[0].new_text, "fn f() {}\n");
}

#[test]
fn edits_from_ops_follows_the_cursor() {
    let new_lines: Vec<String> = vec!["a\n".into(), "X\n".into(), "Y\n".into(), "c\n".into()];
    let ops = vec![
        LineOp { kind: OpKind::Equal, old_index: 0, old_len: 1, new_index: 0, new_len: 1 },
        LineOp { kind: OpKind::Replace, old_index: 1, old_len: 1, new_index: 1, new_len: 2 },
        LineOp { kind: OpKind::Delete, old_index: 2, old_len: 1, new_index: 3, new_len: 0 },
        LineOp { kind: OpKind::Equal, old_index: 3, old_len: 1, new_index: 3, new_len: 1 },
        LineOp { kind: OpKind::Insert, old_index: 4, old_len: 0, new_index: 4, new_len: 0 },
    ];
    let edits = edits_from_ops(&ops, &new_lines);
    assert_eq!(edits.len(), 3);
    assert_eq!(edits[0].range, Range::new(Position::new(1, 0), Position::new(2, 0)));
    assert_eq!(edits[0].new_text, "X\nY\n");
    assert_eq!(edits[1].range, Range::new(Position::new(2, 0), Position::new(3, 0)));
    assert_eq!(edits[1].new_text, "");
    assert_eq!(edits[2].range, Range::new(Position::new(4, 0), Position::new(4, 0)));
    assert_eq!(edits[2].new_text, "");
}

#[test]
fn insertion_is_zero_width() {
    let edits = synthesize_edits("a\nc\n", "a\nb\nc\n");
    assert_eq!(edits.len(), 1);
    assert_eq!(edits[0].range, Range::new(Position::new(1, 0), Position::new(1, 0)));
    assert_eq!(edits[0].new_text, "b\n");
}
