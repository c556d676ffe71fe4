//! Diagnostics reported by the linter: flattening its nested records into
//! per-document lists, the refresh cycle, and the quick fixes they offer.

use vstd::prelude::*;

use crate::position::{Position, Range, range_within, check_sub_range};

verus! {

/// How serious a diagnostic is.
#[derive(Clone, Copy, Debug, PartialEq, Eq, Structural)]
pub enum Severity {
    Error,
    Warning,
    Information,
    Hint,
}

/// How safe a suggested replacement is to apply.
#[derive(Clone, Copy, Debug, PartialEq, Eq, Structural)]
pub enum Applicability {
    /// Safe to apply without looking.
    MachineApplicable,
    MaybeIncorrect,
    HasPlaceholders,
    Unspecified,
}

/// The views of an optional string.
pub open spec fn opt_view(o: Option<String>) -> Option<Seq<char>> {
    match o {
        Some(s) => Some(s@),
        None => None,
    }
}

fn clone_opt(o: &Option<String>) -> (r: Option<String>)
    ensures
        r == *o,
{
    match o {
        Some(s) => Some(s.clone()),
        None => None,
    }
}

/// A suggested replacement for the text of a diagnostic's range.
#[derive(Debug)]
pub struct QuickFix {
    pub suggested_replacement: Option<String>,
    pub suggestion_applicability: Option<Applicability>,
}

impl Clone for QuickFix {
    fn clone(&self) -> (r: Self)
        ensures
            r == *self,
    {
        QuickFix {
            suggested_replacement: clone_opt(&self.suggested_replacement),
            suggestion_applicability: self.suggestion_applicability,
        }
    }
}

/// What a quick fix says.
pub struct FixView {
    pub replacement: Option<Seq<char>>,
    pub applicability: Option<Applicability>,
}

impl View for QuickFix {
    type V = FixView;

    open spec fn view(&self) -> FixView {
        FixView {
            replacement: opt_view(self.suggested_replacement),
            applicability: self.suggestion_applicability,
        }
    }
}

/// A message tied to a range of a document.
#[derive(Debug)]
pub struct Diagnostic {
    pub range: Range,
    pub severity: Option<Severity>,
    pub code: Option<String>,
    pub message: String,
}

impl Clone for Diagnostic {
    fn clone(&self) -> (r: Self)
        ensures
            r == *self,
    {
        Diagnostic {
            range: self.range,
            severity: self.severity,
            code: clone_opt(&self.code),
            message: self.message.clone(),
        }
    }
}

/// What a diagnostic says.
pub struct DiagnosticView {
    pub range: Range,
    pub severity: Option<Severity>,
    pub code: Option<Seq<char>>,
    pub message: Seq<char>,
}

impl View for Diagnostic {
    type V = DiagnosticView;

    open spec fn view(&self) -> DiagnosticView {
        DiagnosticView {
            range: self.range,
            severity: self.severity,
            code: opt_view(self.code),
            message: self.message@,
        }
    }
}

/// A diagnostic of one document, with the fix its span suggests.
#[derive(Debug)]
pub struct Entry {
    pub uri: String,
    pub diagnostic: Diagnostic,
    pub quick_fix: QuickFix,
}

/// What an entry says.
pub struct EntryView {
    pub uri: Seq<char>,
    pub diagnostic: DiagnosticView,
    pub fix: FixView,
}

impl View for Entry {
    type V = EntryView;

    open spec fn view(&self) -> EntryView {
        EntryView { uri: self.uri@, diagnostic: self.diagnostic@, fix: self.quick_fix@ }
    }
}

/// One span of a linter record: 1-based lines and columns, end column
/// exclusive, in a file named relative to the project root.
#[derive(Clone, Debug)]
pub struct Span {
    pub line_start: u32,
    pub line_end: u32,
    pub column_start: u32,
    pub column_end: u32,
    pub file_name: String,
    pub label: Option<String>,
    pub quick_fix: QuickFix,
}

/// A node of a linter record, with nested notes and help as children.
#[derive(Debug)]
pub struct Message {
    pub children: Vec<Message>,
    pub level: String,
    pub message: String,
    pub spans: Vec<Span>,
    pub code: Option<String>,
}

/// The severity that a level names; `None` for a level not listed.
pub open spec fn severity_of(level: Seq<char>) -> Option<Severity> {
    if level == "error"@ || level == "internal-compiler-error"@ {
        Some(Severity::Error)
    } else if level == "warning"@ {
        Some(Severity::Warning)
    } else if level == "note"@ || level == "failure-note"@ {
        Some(Severity::Information)
    } else if level == "help"@ {
        Some(Severity::Hint)
    } else {
        None
    }
}

/// Maps a level string to its severity, matching case and all.
pub fn level_severity(level: &String) -> (r: Option<Severity>)
    ensures
        r == severity_of(level@),
{
    if *level == String::from_str("error") || *level == String::from_str(
        "internal-compiler-error",
    ) {
        Some(Severity::Error)
    } else if *level == String::from_str("warning") {
        Some(Severity::Warning)
    } else if *level == String::from_str("note") || *level == String::from_str("failure-note") {
        Some(Severity::Information)
    } else if *level == String::from_str("help") {
        Some(Severity::Hint)
    } else {
        None
    }
}

} // verus!

verus! {

/// The document that `file`, relative to `root`, names.
pub uninterp spec fn file_uri_of(root: Seq<char>, file: Seq<char>) -> Option<Seq<char>>;

/// Relies on `Path::join` and `url::Url::from_file_path` (through
/// tower-lsp): the `file://` URL of `root` joined with `file`, or `None`
/// where that path is not absolute. It depends on the two strings alone.
#[verifier::external_body]
fn file_uri(root: &str, file: &str) -> (r: Option<String>)
    ensures
        opt_view(r) == file_uri_of(root@, file@),
{
    let path = std::path::Path::new(root).join(file);
    tower_lsp::lsp_types::Url::from_file_path(path).ok().map(|u| u.to_string())
}

/// The views of a sequence of entries.
pub open spec fn entry_views(es: Seq<Entry>) -> Seq<EntryView> {
    es.map_values(|e: Entry| e@)
}

/// The views of a sequence of strings.
pub open spec fn string_views(ss: Seq<String>) -> Seq<Seq<char>> {
    ss.map_values(|s: String| s@)
}

/// A span's range, turned 0-based.
pub open spec fn span_range(s: Span) -> Range {
    Range {
        start: Position { line: (s.line_start - 1) as u32, character: (s.column_start - 1) as u32 },
        end: Position { line: (s.line_end - 1) as u32, character: (s.column_end - 1) as u32 },
    }
}

/// Lines and columns of a span are 1-based.
pub open spec fn span_in_range(s: Span) -> bool {
    s.line_start >= 1 && s.line_end >= 1 && s.column_start >= 1 && s.column_end >= 1
}

/// A node's message, with the span's label on a line of its own.
pub open spec fn labelled(message: Seq<char>, label: Option<String>) -> Seq<char> {
    match label {
        Some(l) => message + "\n"@ + l@,
        None => message,
    }
}

/// What one span of node `m` yields: an entry, or an error when its
/// coordinates are not 1-based or its file names no document.
pub open spec fn span_outcome(root: Seq<char>, m: Message, s: Span) -> (
    Seq<EntryView>,
    Seq<Seq<char>>,
) {
    if !span_in_range(s) {
        (seq![], seq!["invalid span in "@ + s.file_name@])
    } else {
        match file_uri_of(root, s.file_name@) {
            None => (seq![], seq!["invalid file path: "@ + s.file_name@]),
            Some(uri) => (
                seq![
                    EntryView {
                        uri,
                        diagnostic: DiagnosticView {
                            range: span_range(s),
                            severity: severity_of(m.level@),
                            code: opt_view(m.code),
                            message: labelled(m.message@, s.label),
                        },
                        fix: s.quick_fix@,
                    },
                ],
                seq![],
            ),
        }
    }
}

/// What the first `n` spans of `m` yield, in order.
pub open spec fn spans_outcome(root: Seq<char>, m: Message, n: int) -> (
    Seq<EntryView>,
    Seq<Seq<char>>,
)
    decreases n,
{
    if n <= 0 || n > m.spans@.len() {
        (seq![], seq![])
    } else {
        let p = spans_outcome(root, m, n - 1);
        let o = span_outcome(root, m, m.spans@[n - 1]);
        (p.0 + o.0, p.1 + o.1)
    }
}

/// The error that an unknown level of `m` yields.
pub open spec fn level_errors(m: Message) -> Seq<Seq<char>> {
    if severity_of(m.level@) is None {
        seq!["unknown severity: "@ + m.level@]
    } else {
        seq![]
    }
}

/// The entries and errors of the tree under `m`: its own spans first, then
/// its children in order. A node with an unknown level yields one error and
/// is processed all the same.
pub open spec fn flatten(root: Seq<char>, m: Message) -> (Seq<EntryView>, Seq<Seq<char>>)
    decreases m, m.children@.len() + 1,
{
    let sp = spans_outcome(root, m, m.spans@.len() as int);
    let ch = children_outcome(root, m, m.children@.len() as int);
    (sp.0 + ch.0, level_errors(m) + sp.1 + ch.1)
}

/// What the first `n` children of `m` yield, in order.
pub open spec fn children_outcome(root: Seq<char>, m: Message, n: int) -> (
    Seq<EntryView>,
    Seq<Seq<char>>,
)
    decreases m, n,
{
    if n <= 0 || n > m.children@.len() {
        (seq![], seq![])
    } else {
        let p = children_outcome(root, m, n - 1);
        let c = flatten(root, m.children@[n - 1]);
        (p.0 + c.0, p.1 + c.1)
    }
}

} // verus!

verus! {

proof fn lemma_entry_views_push(es: Seq<Entry>, e: Entry)
    ensures
        entry_views(es.push(e)) == entry_views(es) + seq![e@],
{
    assert(entry_views(es.push(e)) =~= entry_views(es) + seq![e@]);
}

proof fn lemma_string_views_push(ss: Seq<String>, s: String)
    ensures
        string_views(ss.push(s)) == string_views(ss) + seq![s@],
{
    assert(string_views(ss.push(s)) =~= string_views(ss) + seq![s@]);
}

/// `prefix` followed by `s`.
fn prefixed(prefix: &str, s: &String) -> (r: String)
    ensures
        r@ == prefix@ + s@,
{
    let mut r = String::from_str(prefix);
    r.append(s.as_str());
    r
}

/// Adds what one span of `m` yields.
fn parse_span(
    root: &str,
    m: &Message,
    severity: Option<Severity>,
    s: &Span,
    out: &mut Vec<Entry>,
    errors: &mut Vec<String>,
)
    requires
        severity == severity_of(m.level@),
    ensures
        entry_views(final(out)@) == entry_views(old(out)@) + span_outcome(root@, *m, *s).0,
        string_views(final(errors)@) == string_views(old(errors)@) + span_outcome(
            root@,
            *m,
            *s,
        ).1,
{
    if s.line_start == 0 || s.line_end == 0 || s.column_start == 0 || s.column_end == 0 {
        let e = prefixed("invalid span in ", &s.file_name);
        proof {
            lemma_string_views_push(errors@, e);
            assert(entry_views(out@) + seq![] =~= entry_views(out@));
        }
        errors.push(e);
        return ;
    }
    match file_uri(root, s.file_name.as_str()) {
        None => {
            let e = prefixed("invalid file path: ", &s.file_name);
            proof {
                lemma_string_views_push(errors@, e);
                assert(entry_views(out@) + seq![] =~= entry_views(out@));
            }
            errors.push(e);
        },
        Some(uri) => {
            let mut message = m.message.clone();
            match &s.label {
                Some(l) => {
                    message.append("\n");
                    message.append(l.as_str());
                },
                None => {},
            }
            let range = Range {
                start: Position { line: s.line_start - 1, character: s.column_start - 1 },
                end: Position { line: s.line_end - 1, character: s.column_end - 1 },
            };
            let e = Entry {
                uri,
                diagnostic: Diagnostic { range, severity, code: clone_opt(&m.code), message },
                quick_fix: s.quick_fix.clone(),
            };
            proof {
                lemma_entry_views_push(out@, e);
                assert(string_views(errors@) + seq![] =~= string_views(errors@));
                assert(e@ == span_outcome(root@, *m, *s).0[0]);
            }
            out.push(e);
        },
    }
}

/// Flattens the tree under `message` into `out`, one entry per span, and
/// notes in `errors` what could not be used. Children come after the spans
/// of their parent.
pub fn parse_diagnostics(
    root: &str,
    out: &mut Vec<Entry>,
    errors: &mut Vec<String>,
    message: &Message,
)
    ensures
        entry_views(final(out)@) == entry_views(old(out)@) + flatten(root@, *message).0,
        string_views(final(errors)@) == string_views(old(errors)@) + flatten(root@, *message).1,
    decreases message,
{
    let ghost out0 = entry_views(out@);
    let ghost err0 = string_views(errors@);
    let severity = level_severity(&message.level);
    if severity.is_none() {
        let e = prefixed("unknown severity: ", &message.level);
        proof {
            lemma_string_views_push(errors@, e);
        }
        errors.push(e);
    }
    proof {
        assert(string_views(errors@) == err0 + level_errors(*message));
    }
    let ghost err1 = string_views(errors@);
    let mut i: usize = 0;
    proof {
        assert(out0 + spans_outcome(root@, *message, 0).0 =~= out0);
        assert(err1 + spans_outcome(root@, *message, 0).1 =~= err1);
    }
    while i < message.spans.len()
        invariant
            i <= message.spans@.len(),
            severity == severity_of(message.level@),
            entry_views(out@) == out0 + spans_outcome(root@, *message, i as int).0,
            string_views(errors@) == err1 + spans_outcome(root@, *message, i as int).1,
        decreases message.spans@.len() - i,
    {
        parse_span(root, message, severity, &message.spans[i], out, errors);
        proof {
            let p = spans_outcome(root@, *message, i as int);
            let o = span_outcome(root@, *message, message.spans@[i as int]);
            assert(out0 + p.0 + o.0 =~= out0 + (p.0 + o.0));
            assert(err1 + p.1 + o.1 =~= err1 + (p.1 + o.1));
        }
        i = i + 1;
    }
    let ghost out2 = entry_views(out@);
    let ghost err2 = string_views(errors@);
    let mut j: usize = 0;
    proof {
        assert(out2 + children_outcome(root@, *message, 0).0 =~= out2);
        assert(err2 + children_outcome(root@, *message, 0).1 =~= err2);
    }
    while j < message.children.len()
        invariant
            j <= message.children@.len(),
            entry_views(out@) == out2 + children_outcome(root@, *message, j as int).0,
            string_views(errors@) == err2 + children_outcome(root@, *message, j as int).1,
        decreases message.children@.len() - j,
    {
        parse_diagnostics(root, out, errors, &message.children[j]);
        proof {
            let p = children_outcome(root@, *message, j as int);
            let c = flatten(root@, message.children@[j as int]);
            assert(out2 + p.0 + c.0 =~= out2 + (p.0 + c.0));
            assert(err2 + p.1 + c.1 =~= err2 + (p.1 + c.1));
        }
        j = j + 1;
    }
    proof {
        let sp = spans_outcome(root@, *message, message.spans@.len() as int);
        let ch = children_outcome(root@, *message, message.children@.len() as int);
        assert(out0 + sp.0 + ch.0 =~= out0 + (sp.0 + ch.0));
        assert(err0 + level_errors(*message) + sp.1 + ch.1 =~= err0 + (level_errors(*message)
            + sp.1 + ch.1));
    }
}

} // verus!

verus! {

/// The diagnostics of document `uri` among `es`, in order.
pub open spec fn diagnostics_for(es: Seq<EntryView>, uri: Seq<char>) -> Seq<DiagnosticView>
    decreases es.len(),
{
    if es.len() == 0 {
        seq![]
    } else {
        let prev = diagnostics_for(es.drop_last(), uri);
        if es.last().uri == uri {
            prev.push(es.last().diagnostic)
        } else {
            prev
        }
    }
}

/// The views of a sequence of diagnostics.
pub open spec fn diagnostic_views(ds: Seq<Diagnostic>) -> Seq<DiagnosticView> {
    ds.map_values(|d: Diagnostic| d@)
}

/// Some entry of `es` belongs to document `uri`.
pub open spec fn has_uri(es: Seq<EntryView>, uri: Seq<char>) -> bool {
    exists|i: int| 0 <= i < es.len() && (#[trigger] es[i]).uri == uri
}

/// No string appears twice.
pub open spec fn distinct(ss: Seq<Seq<char>>) -> bool {
    forall|i: int, j: int| 0 <= i < j < ss.len() ==> ss[i] != ss[j]
}

/// A quick fix offered for a diagnostic: replace `range` by `new_text`.
#[derive(Debug)]
pub struct CodeAction {
    pub title: String,
    pub diagnostic: Diagnostic,
    pub range: Range,
    pub new_text: String,
    pub is_preferred: bool,
}

/// What a code action says.
pub struct ActionView {
    pub title: Seq<char>,
    pub diagnostic: DiagnosticView,
    pub range: Range,
    pub new_text: Seq<char>,
    pub is_preferred: bool,
}

impl View for CodeAction {
    type V = ActionView;

    open spec fn view(&self) -> ActionView {
        ActionView {
            title: self.title@,
            diagnostic: self.diagnostic@,
            range: self.range,
            new_text: self.new_text@,
            is_preferred: self.is_preferred,
        }
    }
}

/// The views of a sequence of code actions.
pub open spec fn action_views(acts: Seq<CodeAction>) -> Seq<ActionView> {
    acts.map_values(|a: CodeAction| a@)
}

/// The action that entry `e` offers: the diagnostic's message as its title,
/// preferred exactly when the fix is safe to apply without looking.
pub open spec fn action_of(e: EntryView) -> ActionView {
    ActionView {
        title: e.diagnostic.message,
        diagnostic: e.diagnostic,
        range: e.diagnostic.range,
        new_text: e.fix.replacement->0,
        is_preferred: e.fix.applicability == Some(Applicability::MachineApplicable),
    }
}

/// Entry `e` offers a fix within `range` of document `uri`.
pub open spec fn offers_fix(e: EntryView, uri: Seq<char>, range: Range) -> bool {
    &&& e.uri == uri
    &&& e.fix.replacement is Some
    &&& e.fix.replacement->0.len() > 0
    &&& range_within(e.diagnostic.range, range)
}

/// The actions offered in `range` of document `uri`, in order: one per
/// diagnostic with a non-empty suggested replacement whose range lies
/// within `range`.
pub open spec fn actions_for(es: Seq<EntryView>, uri: Seq<char>, range: Range) -> Seq<ActionView>
    decreases es.len(),
{
    if es.len() == 0 {
        seq![]
    } else {
        let prev = actions_for(es.drop_last(), uri, range);
        if offers_fix(es.last(), uri, range) {
            prev.push(action_of(es.last()))
        } else {
            prev
        }
    }
}

/// The diagnostics last published, per document, with their quick fixes.
pub struct DiagnosticStore {
    entries: Vec<Entry>,
}

impl View for DiagnosticStore {
    type V = Seq<EntryView>;

    closed spec fn view(&self) -> Seq<EntryView> {
        entry_views(self.entries@)
    }
}

impl DiagnosticStore {
    /// A store with nothing published.
    pub fn new() -> (s: DiagnosticStore)
        ensures
            s@ == Seq::<EntryView>::empty(),
    {
        let s = DiagnosticStore { entries: Vec::new() };
        proof {
            assert(s@ =~= Seq::<EntryView>::empty());
        }
        s
    }

    /// The documents that have diagnostics, each once.
    pub fn documents(&self) -> (r: Vec<String>)
        ensures
            distinct(string_views(r@)),
            forall|u: Seq<char>| has_uri(self@, u) <==> string_views(r@).contains(u),
    {
        let mut r: Vec<String> = Vec::new();
        let mut i: usize = 0;
        while i < self.entries.len()
            invariant
                i <= self.entries@.len(),
                distinct(string_views(r@)),
                forall|u: Seq<char>| has_uri(self@.take(i as int), u) <==> string_views(r@).contains(u),
            decreases self.entries@.len() - i,
        {
            let uri = &self.entries[i].uri;
            let mut found = false;
            let mut j: usize = 0;
            while j < r.len()
                invariant
                    j <= r@.len(),
                    found <==> exists|k: int| 0 <= k < j && r@[k]@ == uri@,
                decreases r@.len() - j,
            {
                if r[j] == *uri {
                    found = true;
                }
                j = j + 1;
            }
            proof {
                let es = self@;
                assert(es.take(i + 1) =~= es.take(i as int).push(es[i as int]));
                assert forall|u: Seq<char>| has_uri(es.take(i + 1), u) <==> (has_uri(es.take(i as int), u)
                    || u == uri@) by {
                    if has_uri(es.take(i + 1), u) && u != uri@ {
                        let k = choose|k: int| 0 <= k < i + 1 && (#[trigger] es.take(i + 1)[k]).uri == u;
                        assert(es.take(i as int)[k] == es.take(i + 1)[k]);
                    }
                    if has_uri(es.take(i as int), u) {
                        let k = choose|k: int| 0 <= k < i && (#[trigger] es.take(i as int)[k]).uri == u;
                        assert(es.take(i as int)[k] == es.take(i + 1)[k]);
                    }
                    if u == uri@ {
                        assert(es.take(i + 1)[i as int].uri == u);
                    }
                }
            }
            if !found {
                let ghost before = string_views(r@);
                let u = uri.clone();
                proof {
                    lemma_string_views_push(r@, u);
                    assert(!before.contains(uri@)) by {
                        if before.contains(uri@) {
                            let k = choose|k: int| 0 <= k < before.len() && before[k] == uri@;
                            assert(r@[k]@ == uri@);
                        }
                    }
                    assert forall|u2: Seq<char>| (before + seq![u@]).contains(u2) <==> (before.contains(u2)
                        || u2 == u@) by {
                        if (before + seq![u@]).contains(u2) && u2 != u@ {
                            let k = choose|k: int| 0 <= k < before.len() + 1 && (before + seq![u@])[k] == u2;
                            assert(before[k] == u2);
                        }
                        if before.contains(u2) {
                            let k = choose|k: int| 0 <= k < before.len() && before[k] == u2;
                            assert((before + seq![u@])[k] == u2);
                        }
                        if u2 == u@ {
                            assert((before + seq![u@])[before.len() as int] == u2);
                        }
                    }
                }
                r.push(u);
                proof {
                    assert(string_views(r@) == before + seq![u@]);
                    assert forall|u2: Seq<char>| has_uri(self@.take(i + 1), u2) <==> string_views(
                        r@,
                    ).contains(u2) by {
                        assert(has_uri(self@.take(i + 1), u2) <==> (has_uri(self@.take(i as int), u2)
                            || u2 == uri@));
                        assert(has_uri(self@.take(i as int), u2) <==> before.contains(u2));
                        assert((before + seq![u@]).contains(u2) <==> (before.contains(u2) || u2 == u@));
                    }
                }
            } else {
                proof {
                    let k = choose|k: int| 0 <= k < j && r@[k]@ == uri@;
                    assert(string_views(r@)[k] == uri@);
                    assert(string_views(r@).contains(uri@));
                    assert forall|u2: Seq<char>| has_uri(self@.take(i + 1), u2) <==> string_views(
                        r@,
                    ).contains(u2) by {
                        assert(has_uri(self@.take(i + 1), u2) <==> (has_uri(self@.take(i as int), u2)
                            || u2 == uri@));
                        assert(has_uri(self@.take(i as int), u2) <==> string_views(r@).contains(u2));
                    }
                }
            }
            i = i + 1;
        }
        proof {
            assert(self@.take(self@.len() as int) =~= self@);
        }
        r
    }

    /// Starts a refresh: forgets every diagnostic and returns the documents
    /// that had some, each once, so that an empty list can be published for
    /// each of them.
    pub fn begin_refresh(&mut self) -> (cleared: Vec<String>)
        ensures
            final(self)@ == Seq::<EntryView>::empty(),
            distinct(string_views(cleared@)),
            forall|u: Seq<char>| has_uri(old(self)@, u) <==> string_views(cleared@).contains(u),
    {
        let cleared = self.documents();
        self.entries = Vec::new();
        proof {
            assert(self@ =~= Seq::<EntryView>::empty());
        }
        cleared
    }

    /// Adds what one linter record yields, its files named relative to
    /// `root`; returns the errors to log.
    pub fn handle_record(&mut self, root: &str, message: &Message) -> (errors: Vec<String>)
        ensures
            final(self)@ == old(self)@ + flatten(root@, *message).0,
            string_views(errors@) == flatten(root@, *message).1,
    {
        let mut errors: Vec<String> = Vec::new();
        proof {
            assert(string_views(errors@) =~= Seq::<Seq<char>>::empty());
        }
        parse_diagnostics(root, &mut self.entries, &mut errors, message);
        proof {
            assert(Seq::<Seq<char>>::empty() + flatten(root@, *message).1 =~= flatten(
                root@,
                *message,
            ).1);
        }
        errors
    }

    /// The diagnostics of document `uri`, in order.
    pub fn diagnostics(&self, uri: &String) -> (r: Vec<Diagnostic>)
        ensures
            diagnostic_views(r@) == diagnostics_for(self@, uri@),
    {
        let mut r: Vec<Diagnostic> = Vec::new();
        let mut i: usize = 0;
        proof {
            assert(diagnostic_views(r@) =~= diagnostics_for(self@.take(0), uri@));
        }
        while i < self.entries.len()
            invariant
                i <= self.entries@.len(),
                diagnostic_views(r@) == diagnostics_for(self@.take(i as int), uri@),
            decreases self.entries@.len() - i,
        {
            proof {
                assert(self@.take(i + 1).drop_last() =~= self@.take(i as int));
                assert(self@.take(i + 1).last() == self.entries@[i as int]@);
            }
            if self.entries[i].uri == *uri {
                let d = self.entries[i].diagnostic.clone();
                proof {
                    assert(diagnostic_views(r@.push(d)) =~= diagnostic_views(r@).push(d@));
                }
                r.push(d);
            }
            i = i + 1;
        }
        proof {
            assert(self@.take(self@.len() as int) =~= self@);
        }
        r
    }

    /// What to publish once the records are in: each document that has
    /// diagnostics, once, with its list in order.
    pub fn publications(&self) -> (r: Vec<(String, Vec<Diagnostic>)>)
        ensures
            distinct(r@.map_values(|p: (String, Vec<Diagnostic>)| p.0@)),
            forall|u: Seq<char>|
                has_uri(self@, u) <==> exists|j: int| 0 <= j < r@.len() && (#[trigger] r@[j]).0@ == u,
            forall|j: int|
                0 <= j < r@.len() ==> diagnostic_views((#[trigger] r@[j]).1@) == diagnostics_for(
                    self@,
                    r@[j].0@,
                ),
    {
        let docs = self.documents();
        let mut r: Vec<(String, Vec<Diagnostic>)> = Vec::new();
        let mut j: usize = 0;
        while j < docs.len()
            invariant
                j <= docs@.len(),
                r@.len() == j,
                distinct(string_views(docs@)),
                forall|u: Seq<char>| has_uri(self@, u) <==> string_views(docs@).contains(u),
                forall|k: int| 0 <= k < j ==> (#[trigger] r@[k]).0@ == docs@[k]@,
                forall|k: int|
                    0 <= k < j ==> diagnostic_views((#[trigger] r@[k]).1@) == diagnostics_for(
                        self@,
                        r@[k].0@,
                    ),
            decreases docs@.len() - j,
        {
            let ds = self.diagnostics(&docs[j]);
            r.push((docs[j].clone(), ds));
            j = j + 1;
        }
        proof {
            let keys = r@.map_values(|p: (String, Vec<Diagnostic>)| p.0@);
            assert(keys =~= string_views(docs@));
            assert forall|u: Seq<char>| has_uri(self@, u) <==> exists|k: int|
                0 <= k < r@.len() && (#[trigger] r@[k]).0@ == u by {
                if has_uri(self@, u) {
                    let k = choose|k: int| 0 <= k < docs@.len() && string_views(docs@)[k] == u;
                    assert(r@[k].0@ == u);
                }
                if exists|k: int| 0 <= k < r@.len() && (#[trigger] r@[k]).0@ == u {
                    let k = choose|k: int| 0 <= k < r@.len() && (#[trigger] r@[k]).0@ == u;
                    assert(string_views(docs@)[k] == u);
                }
            }
        }
        r
    }

    /// The quick fixes offered in `range` of document `uri`: one per
    /// diagnostic with a non-empty suggested replacement whose range lies within
    /// `range`, preferred when the fix is safe to apply without looking.
    pub fn handle_code_action(&self, uri: &String, range: Range) -> (r: Vec<CodeAction>)
        ensures
            action_views(r@) == actions_for(self@, uri@, range),
    {
        let mut r: Vec<CodeAction> = Vec::new();
        let mut i: usize = 0;
        proof {
            assert(action_views(r@) =~= actions_for(self@.take(0), uri@, range));
        }
        while i < self.entries.len()
            invariant
                i <= self.entries@.len(),
                action_views(r@) == actions_for(self@.take(i as int), uri@, range),
            decreases self.entries@.len() - i,
        {
            proof {
                assert(self@.take(i + 1).drop_last() =~= self@.take(i as int));
                assert(self@.take(i + 1).last() == self.entries@[i as int]@);
            }
            let e = &self.entries[i];
            if e.uri == *uri && check_sub_range(e.diagnostic.range, range) {
                match &e.quick_fix.suggested_replacement {
                    Some(text) if text.unicode_len() > 0 => {
                        let preferred = match e.quick_fix.suggestion_applicability {
                            Some(Applicability::MachineApplicable) => true,
                            _ => false,
                        };
                        let a = CodeAction {
                            title: e.diagnostic.message.clone(),
                            diagnostic: e.diagnostic.clone(),
                            range: e.diagnostic.range,
                            new_text: text.clone(),
                            is_preferred: preferred,
                        };
                        proof {
                            assert(action_views(r@.push(a)) =~= action_views(r@).push(a@));
                        }
                        r.push(a);
                    },
                    _ => {},
                }
            }
            i = i + 1;
        }
        proof {
            assert(self@.take(self@.len() as int) =~= self@);
        }
        r
    }
}

} // verus!

verus! {

/// Refresh clears stale state: a document that no record of the refresh
/// names has an empty list afterwards and is not among those published
/// with diagnostics; `begin_refresh` returned it if it had diagnostics, so
/// it is published empty.
pub proof fn lemma_refresh_clears(after: Seq<EntryView>, uri: Seq<char>)
    requires
        !has_uri(after, uri),
    ensures
        diagnostics_for(after, uri) == Seq::<DiagnosticView>::empty(),
    decreases after.len(),
{
    if after.len() > 0 {
        assert(!has_uri(after.drop_last(), uri)) by {
            if has_uri(after.drop_last(), uri) {
                let i = choose|i: int| 0 <= i < after.len() - 1 && (#[trigger] after.drop_last()[i]).uri == uri;
                assert(after[i].uri == uri);
            }
        }
        assert(after.last().uri != uri) by {
            assert(after[after.len() - 1] == after.last());
        }
        lemma_refresh_clears(after.drop_last(), uri);
    }
}

/// Severity mapping totality: the listed levels map to exactly one
/// severity each and yield no error; any other level maps to none and
/// yields exactly one error, while the node's spans and children are
/// processed all the same.
pub proof fn lemma_severity_total(root: Seq<char>, m: Message)
    ensures
        severity_of(m.level@) == Some(Severity::Error) <==> (m.level@ == "error"@ || m.level@
            == "internal-compiler-error"@),
        severity_of(m.level@) == Some(Severity::Warning) <==> m.level@ == "warning"@,
        severity_of(m.level@) == Some(Severity::Information) <==> (m.level@ == "note"@ || m.level@
            == "failure-note"@),
        severity_of(m.level@) == Some(Severity::Hint) <==> m.level@ == "help"@,
        level_errors(m).len() == (if severity_of(m.level@) is None {
            1int
        } else {
            0int
        }),
        flatten(root, m).0 == spans_outcome(root, m, m.spans@.len() as int).0 + children_outcome(
            root,
            m,
            m.children@.len() as int,
        ).0,
{
    reveal_strlit("error");
    reveal_strlit("internal-compiler-error");
    reveal_strlit("warning");
    reveal_strlit("note");
    reveal_strlit("failure-note");
    reveal_strlit("help");
    assert("error"@.len() == 5);
    assert("internal-compiler-error"@.len() == 23);
    assert("warning"@.len() == 7);
    assert("note"@.len() == 4);
    assert("failure-note"@.len() == 12);
    assert("help"@.len() == 4);
    assert("help"@[0] != "note"@[0]);
}

} // verus!

verus! {

/// One linter record: a diagnostic tree, its files named relative to `root`.
#[derive(Debug)]
pub struct DiagnosticRecord {
    pub root: String,
    pub message: Message,
}

/// What a batch of records yields, in order.
pub open spec fn records_outcome(rs: Seq<DiagnosticRecord>) -> (Seq<EntryView>, Seq<Seq<char>>)
    decreases rs.len(),
{
    if rs.len() == 0 {
        (seq![], seq![])
    } else {
        let p = records_outcome(rs.drop_last());
        let f = flatten(rs.last().root@, rs.last().message);
        (p.0 + f.0, p.1 + f.1)
    }
}

impl DiagnosticStore {
    /// Adds what a batch of linter records yields; returns the errors to log.
    pub fn handle_records(&mut self, records: &Vec<DiagnosticRecord>) -> (errors: Vec<String>)
        ensures
            final(self)@ == old(self)@ + records_outcome(records@).0,
            string_views(errors@) == records_outcome(records@).1,
    {
        let mut errors: Vec<String> = Vec::new();
        let mut i: usize = 0;
        proof {
            assert(records@.take(0) =~= Seq::<DiagnosticRecord>::empty());
            assert(self@ + records_outcome(records@.take(0)).0 =~= self@);
            assert(string_views(errors@) =~= records_outcome(records@.take(0)).1);
        }
        while i < records.len()
            invariant
                i <= records@.len(),
                self@ == old(self)@ + records_outcome(records@.take(i as int)).0,
                string_views(errors@) == records_outcome(records@.take(i as int)).1,
            decreases records@.len() - i,
        {
            let r = &records[i];
            parse_diagnostics(r.root.as_str(), &mut self.entries, &mut errors, &r.message);
            proof {
                let t = records@.take(i + 1);
                assert(t.drop_last() =~= records@.take(i as int));
                assert(t.last() == records@[i as int]);
                let p = records_outcome(records@.take(i as int));
                let f = flatten(r.root@, r.message);
                assert(old(self)@ + p.0 + f.0 =~= old(self)@ + (p.0 + f.0));
            }
            i = i + 1;
        }
        proof {
            assert(records@.take(records@.len() as int) =~= records@);
        }
        errors
    }
}

/// Refresh clears stale state, for a whole batch: after `begin_refresh`
/// empties the store and `handle_records` adds a batch whose records name
/// no span of document `uri`, `uri` has no diagnostics and is not among the
/// documents published with diagnostics.
pub proof fn lemma_refresh_batch(records: Seq<DiagnosticRecord>, uri: Seq<char>)
    requires
        !has_uri(records_outcome(records).0, uri),
    ensures
        diagnostics_for(Seq::<EntryView>::empty() + records_outcome(records).0, uri)
            == Seq::<DiagnosticView>::empty(),
        !has_uri(Seq::<EntryView>::empty() + records_outcome(records).0, uri),
{
    assert(Seq::<EntryView>::empty() + records_outcome(records).0 =~= records_outcome(records).0);
    lemma_refresh_clears(records_outcome(records).0, uri);
}

/// A span that yields an entry: 1-based, in a file that names a document.
pub open spec fn span_usable(root: Seq<char>, s: Span) -> bool {
    span_in_range(s) && file_uri_of(root, s.file_name@) is Some
}

/// Every span of the tree under `m` yields an entry.
pub open spec fn tree_spans_usable(root: Seq<char>, m: Message) -> bool
    decreases m, m.children@.len() + 1,
{
    &&& forall|i: int| 0 <= i < m.spans@.len() ==> span_usable(root, #[trigger] m.spans@[i])
    &&& children_usable(root, m, m.children@.len() as int)
}

/// Every span of the first `n` children of `m` yields an entry.
pub open spec fn children_usable(root: Seq<char>, m: Message, n: int) -> bool
    decreases m, n,
{
    if n <= 0 || n > m.children@.len() {
        true
    } else {
        children_usable(root, m, n - 1) && tree_spans_usable(root, m.children@[n - 1])
    }
}

/// One "unknown severity" error per node of the tree under `m` whose level
/// is not listed, in pre-order.
pub open spec fn tree_level_errors(m: Message) -> Seq<Seq<char>>
    decreases m, m.children@.len() + 1,
{
    level_errors(m) + children_level_errors(m, m.children@.len() as int)
}

/// The level errors of the first `n` children of `m`, in order.
pub open spec fn children_level_errors(m: Message, n: int) -> Seq<Seq<char>>
    decreases m, n,
{
    if n <= 0 || n > m.children@.len() {
        seq![]
    } else {
        children_level_errors(m, n - 1) + tree_level_errors(m.children@[n - 1])
    }
}

/// The documents of the usable spans among the first `n` of `m`, in order.
pub open spec fn spans_uris(root: Seq<char>, m: Message, n: int) -> Seq<Seq<char>>
    decreases n,
{
    if n <= 0 || n > m.spans@.len() {
        seq![]
    } else {
        let s = m.spans@[n - 1];
        if span_usable(root, s) {
            spans_uris(root, m, n - 1).push(file_uri_of(root, s.file_name@)->0)
        } else {
            spans_uris(root, m, n - 1)
        }
    }
}

/// The documents of the usable spans of the tree under `m`, in pre-order,
/// whatever the levels of its nodes.
pub open spec fn tree_uris(root: Seq<char>, m: Message) -> Seq<Seq<char>>
    decreases m, m.children@.len() + 1,
{
    spans_uris(root, m, m.spans@.len() as int) + children_uris(root, m, m.children@.len() as int)
}

/// The documents of the usable spans of the first `n` children of `m`.
pub open spec fn children_uris(root: Seq<char>, m: Message, n: int) -> Seq<Seq<char>>
    decreases m, n,
{
    if n <= 0 || n > m.children@.len() {
        seq![]
    } else {
        children_uris(root, m, n - 1) + tree_uris(root, m.children@[n - 1])
    }
}

/// The documents of a sequence of entries.
pub open spec fn entry_uris(es: Seq<EntryView>) -> Seq<Seq<char>> {
    es.map_values(|e: EntryView| e.uri)
}

proof fn lemma_entry_uris_add(a: Seq<EntryView>, b: Seq<EntryView>)
    ensures
        entry_uris(a + b) == entry_uris(a) + entry_uris(b),
{
    assert(entry_uris(a + b) =~= entry_uris(a) + entry_uris(b));
}

proof fn lemma_spans_parts(root: Seq<char>, m: Message, n: int)
    requires
        0 <= n <= m.spans@.len(),
    ensures
        entry_uris(spans_outcome(root, m, n).0) == spans_uris(root, m, n),
        (forall|i: int| 0 <= i < n ==> span_usable(root, #[trigger] m.spans@[i])) ==> spans_outcome(
            root,
            m,
            n,
        ).1 == Seq::<Seq<char>>::empty(),
    decreases n,
{
    if n > 0 {
        lemma_spans_parts(root, m, n - 1);
        let p = spans_outcome(root, m, n - 1);
        let o = span_outcome(root, m, m.spans@[n - 1]);
        lemma_entry_uris_add(p.0, o.0);
        if span_usable(root, m.spans@[n - 1]) {
            assert(entry_uris(o.0) =~= seq![file_uri_of(root, m.spans@[n - 1].file_name@)->0]);
        } else {
            assert(entry_uris(o.0) =~= Seq::<Seq<char>>::empty());
        }
        if forall|i: int| 0 <= i < n ==> span_usable(root, #[trigger] m.spans@[i]) {
            assert(span_usable(root, m.spans@[n - 1]));
            assert(p.1 + o.1 =~= Seq::<Seq<char>>::empty());
        }
    } else {
        assert(entry_uris(spans_outcome(root, m, n).0) =~= Seq::<Seq<char>>::empty());
    }
}

/// Severity mapping totality over a whole tree: the entries of the tree
/// under `m` belong to the documents of its usable spans, one each, in
/// pre-order, whatever the levels; and when every span is usable, the
/// errors are exactly one "unknown severity" per node whose level is not
/// listed.
pub proof fn lemma_tree_outcome(root: Seq<char>, m: Message)
    ensures
        entry_uris(flatten(root, m).0) == tree_uris(root, m),
        tree_spans_usable(root, m) ==> flatten(root, m).1 == tree_level_errors(m),
    decreases m, m.children@.len() + 1,
{
    let sp = spans_outcome(root, m, m.spans@.len() as int);
    let ch = children_outcome(root, m, m.children@.len() as int);
    lemma_spans_parts(root, m, m.spans@.len() as int);
    lemma_children_outcome(root, m, m.children@.len() as int);
    lemma_entry_uris_add(sp.0, ch.0);
    if tree_spans_usable(root, m) {
        assert(level_errors(m) + sp.1 + ch.1 =~= level_errors(m) + ch.1);
    }
}

proof fn lemma_children_outcome(root: Seq<char>, m: Message, n: int)
    requires
        0 <= n <= m.children@.len(),
    ensures
        entry_uris(children_outcome(root, m, n).0) == children_uris(root, m, n),
        children_usable(root, m, n) ==> children_outcome(root, m, n).1 == children_level_errors(
            m,
            n,
        ),
    decreases m, n,
{
    if n > 0 {
        lemma_children_outcome(root, m, n - 1);
        lemma_tree_outcome(root, m.children@[n - 1]);
        let p = children_outcome(root, m, n - 1);
        let c = flatten(root, m.children@[n - 1]);
        lemma_entry_uris_add(p.0, c.0);
    } else {
        assert(entry_uris(children_outcome(root, m, n).0) =~= Seq::<Seq<char>>::empty());
    }
}

} // verus!
