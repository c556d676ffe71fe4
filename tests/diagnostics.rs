use tyls::diagnostic::{
    level_severity, parse_diagnostics, Applicability, DiagnosticRecord, DiagnosticStore, Message,
    QuickFix, Severity, Span,
};
use tyls::position::{check_sub_range, Position, Range};

fn span(file: &str, line: u32, c0: u32, c1: u32, label: Option<&str>, fix: Option<(&str, Applicability)>) -> Span {
    Span {
        line_start: line,
        line_end: line,
        column_start: c0,
        column_end: c1,
        file_name: file.to_string(),
        label: label.map(|l| l.to_string()),
        quick_fix: QuickFix {
            suggested_replacement: fix.map(|f| f.0.to_string()),
            suggestion_applicability: fix.map(|f| f.1),
        },
    }
}

fn node(level: &str, message: &str, spans: Vec<Span>, children: Vec<Message>) -> Message {
    Message { children, level: level.to_string(), message: message.to_string(), spans, code: None }
}

const ROOT: &str = "/work/proj";
const MAIN: &str = "file:///work/proj/src/main.rs";

fn whole() -> Range {
    Range::new(Position::new(0, 0), Position::new(1000, 0))
}

#[test]
fn error_with_fix_is_published_with_a_preferred_action() {
    let mut store = DiagnosticStore::new();
    let m = node("error", "bad", vec![span("src/main.rs", 3, 5, 8, None, Some(("foo", Applicability::MachineApplicable)))], vec![]);
    let errors = store.handle_record(ROOT, &m);
    assert!(errors.is_empty());
    let published = store.publications();
    assert_eq!(published.len(), 1);
    assert_eq!(published[0].0, MAIN);
    assert_eq!(published[0].1.len(), 1);
    let d = &published[0].1[0];
    assert_eq!(d.severity, Some(Severity::Error));
    assert_eq!(d.range, Range::new(Position::new(2, 4), Position::new(2, 7)));
    assert_eq!(d.message, "bad");
    let actions = store.handle_code_action(&MAIN.to_string(), whole());
    assert_eq!(actions.len(), 1);
    assert!(actions[0].is_preferred);
    assert_eq!(actions[0].new_text, "foo");
    assert_eq!(actions[0].title, "bad");
    assert_eq!(actions[0].range, d.range);
}

#[test]
fn severities_follow_the_level() {
    let cases = [
        ("error", Some(Severity::Error)),
        ("internal-compiler-error", Some(Severity::Error)),
        ("warning", Some(Severity::Warning)),
        ("note", Some(Severity::Information)),
        ("failure-note", Some(Severity::Information)),
        ("help", Some(Severity::Hint)),
        ("Error", None),
        ("", None),
        ("hint", None),
    ];
    for (level, sev) in cases {
        assert_eq!(level_severity(&level.to_string()), sev, "{}", level);
    }
}

#[test]
fn unknown_level_logs_once_and_goes_on() {
    let mut store = DiagnosticStore::new();
    let child = node("help", "try this", vec![span("src/lib.rs", 1, 1, 2, None, None)], vec![]);
    let m = node("weird", "odd", vec![span("src/main.rs", 1, 1, 2, None, None)], vec![child]);
    let errors = store.handle_record(ROOT, &m);
    assert_eq!(errors, vec!["unknown severity: weird".to_string()]);
    let main = store.diagnostics(&MAIN.to_string());
    assert_eq!(main.len(), 1);
    assert_eq!(main[0].severity, None);
    let lib = store.diagnostics(&"file:///work/proj/src/lib.rs".to_string());
    assert_eq!(lib.len(), 1);
    assert_eq!(lib[0].severity, Some(Severity::Hint));
}

#[test]
fn labels_children_and_codes() {
    let mut out = Vec::new();
    let mut errors = Vec::new();
    let child = node("note", "see here", vec![span("src/main.rs", 9, 1, 4, Some("defined here"), None)], vec![]);
    let mut m = node("warning", "unused", vec![span("src/main.rs", 2, 3, 6, Some("this"), None)], vec![child]);
    m.code = Some("unused_variables".to_string());
    parse_diagnostics(ROOT, &mut out, &mut errors, &m);
    assert!(errors.is_empty());
    assert_eq!(out.len(), 2);
    assert_eq!(out[0].diagnostic.message, "unused\nthis");
    assert_eq!(out[0].diagnostic.code, Some("unused_variables".to_string()));
    assert_eq!(out[0].diagnostic.severity, Some(Severity::Warning));
    assert_eq!(out[1].diagnostic.message, "see here\ndefined here");
    assert_eq!(out[1].diagnostic.severity, Some(Severity::Information));
    assert_eq!(out[1].diagnostic.code, None);
    assert_eq!(out[1].uri, MAIN);
}

#[test]
fn bad_spans_are_reported() {
    let mut store = DiagnosticStore::new();
    let m = node("error", "x", vec![span("src/main.rs", 0, 1, 2, None, None)], vec![]);
    assert_eq!(store.handle_record(ROOT, &m), vec!["invalid span in src/main.rs".to_string()]);
    let m = node("error", "x", vec![span("src/main.rs", 1, 1, 2, None, None)], vec![]);
    assert_eq!(store.handle_record("relative", &m), vec!["invalid file path: src/main.rs".to_string()]);
    assert!(store.publications().is_empty());
}

#[test]
fn refresh_clears_stale_documents() {
    let mut store = DiagnosticStore::new();
    let m = node("error", "a", vec![span("src/main.rs", 1, 1, 2, None, None), span("src/main.rs", 2, 1, 2, None, None)], vec![]);
    store.handle_record(ROOT, &m);
    let m = node("warning", "b", vec![span("src/lib.rs", 1, 1, 2, None, None)], vec![]);
    store.handle_record(ROOT, &m);
    let mut cleared = store.begin_refresh();
    cleared.sort();
    assert_eq!(cleared, vec!["file:///work/proj/src/lib.rs".to_string(), MAIN.to_string()]);
    let m = node("warning", "b", vec![span("src/lib.rs", 1, 1, 2, None, None)], vec![]);
    store.handle_record(ROOT, &m);
    let published = store.publications();
    assert_eq!(published.len(), 1);
    assert_eq!(published[0].0, "file:///work/proj/src/lib.rs");
    assert!(store.diagnostics(&MAIN.to_string()).is_empty());
    assert!(store.begin_refresh().len() == 1);
    assert!(store.begin_refresh().is_empty());
}

#[test]
fn actions_need_a_replacement_inside_the_range() {
    let mut store = DiagnosticStore::new();
    let m = node(
        "warning",
        "w",
        vec![
            span("src/main.rs", 5, 3, 7, None, Some(("x", Applicability::MaybeIncorrect))),
            span("src/main.rs", 6, 1, 2, None, None),
            span("src/main.rs", 9, 1, 4, None, Some(("y", Applicability::MachineApplicable))),
            span("src/main.rs", 10, 1, 4, None, Some(("", Applicability::MachineApplicable))),
        ],
        vec![],
    );
    store.handle_record(ROOT, &m);
    let uri = MAIN.to_string();
    let all = store.handle_code_action(&uri, whole());
    assert_eq!(all.len(), 2);
    assert!(!all[0].is_preferred);
    assert!(all[1].is_preferred);
    let some = store.handle_code_action(&uri, Range::new(Position::new(4, 0), Position::new(4, 10)));
    assert_eq!(some.len(), 1);
    assert_eq!(some[0].new_text, "x");
    let none = store.handle_code_action(&uri, Range::new(Position::new(4, 4), Position::new(4, 10)));
    assert!(none.is_empty());
    assert!(store.handle_code_action(&"file:///else.rs".to_string(), whole()).is_empty());
}

#[test]
fn sub_range_includes_end_points() {
    let outer = Range::new(Position::new(1, 2), Position::new(3, 4));
    assert!(check_sub_range(outer, outer));
    assert!(check_sub_range(Range::new(Position::new(2, 0), Position::new(3, 0)), outer));
    assert!(!check_sub_range(Range::new(Position::new(1, 1), Position::new(2, 0)), outer));
    assert!(!check_sub_range(Range::new(Position::new(2, 0), Position::new(3, 5)), outer));
}

#[test]
fn a_batch_of_records_is_flattened_in_order() {
    let mut store = DiagnosticStore::new();
    let records = vec![
        DiagnosticRecord {
            root: ROOT.to_string(),
            message: node("strange", "a", vec![span("src/main.rs", 1, 1, 2, None, None)], vec![
                node("odd", "b", vec![span("src/main.rs", 2, 1, 2, None, None)], vec![]),
            ]),
        },
        DiagnosticRecord {
            root: ROOT.to_string(),
            message: node("warning", "c", vec![span("src/lib.rs", 3, 1, 2, None, None)], vec![]),
        },
    ];
    let errors = store.handle_records(&records);
    assert_eq!(errors, vec!["unknown severity: strange".to_string(), "unknown severity: odd".to_string()]);
    let main = store.diagnostics(&MAIN.to_string());
    assert_eq!(main.len(), 2);
    assert_eq!(main[0].message, "a");
    assert_eq!(main[1].message, "b");
    assert_eq!(store.diagnostics(&"file:///work/proj/src/lib.rs".to_string()).len(), 1);
}
