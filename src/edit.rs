//! Minimal edits that turn a document into its reformatted text.

use vstd::prelude::*;
use vstd::seq_lib::lemma_flatten_concat;
use similar::DiffOp as D;

use crate::lines::{line_tokens, lemma_line_tokens, split_lines, views};
use crate::error::{RequestError, rustfmt_failed};
use crate::position::{Position, Range};

verus! {

/// What a run of an edit script does.
#[derive(Clone, Copy, Debug, PartialEq, Eq, Structural)]
pub enum OpKind {
    Equal,
    Delete,
    Insert,
    Replace,
}

/// One run of a line edit script: `old_len` old lines from `old_index`
/// become `new_len` new lines from `new_index`.
#[derive(Clone, Copy, Debug, PartialEq, Eq, Structural)]
pub struct LineOp {
    pub kind: OpKind,
    pub old_index: usize,
    pub old_len: usize,
    pub new_index: usize,
    pub new_len: usize,
}

/// A replacement of the text in `range` by `new_text`.
#[derive(Clone, Debug)]
pub struct TextEdit {
    pub range: Range,
    pub new_text: String,
}

impl View for TextEdit {
    type V = (Range, Seq<char>);

    open spec fn view(&self) -> (Range, Seq<char>) {
        (self.range, self.new_text@)
    }
}

/// The views of a sequence of edits.
pub open spec fn edit_views(es: Seq<TextEdit>) -> Seq<(Range, Seq<char>)> {
    es.map_values(|e: TextEdit| e@)
}

/// Where the old lines of the runs before `k` end.
#[verifier::opaque]
pub open spec fn old_end(ops: Seq<LineOp>, k: int) -> int {
    if k <= 0 {
        0
    } else {
        ops[k - 1].old_index + ops[k - 1].old_len
    }
}

/// Where the new lines of the runs before `k` end.
#[verifier::opaque]
pub open spec fn new_end(ops: Seq<LineOp>, k: int) -> int {
    if k <= 0 {
        0
    } else {
        ops[k - 1].new_index + ops[k - 1].new_len
    }
}

/// The runs follow each other over the `n` old lines, without gap or overlap.
pub open spec fn tiles_old(ops: Seq<LineOp>, n: int) -> bool {
    &&& forall|k: int| 0 <= k < ops.len() ==> #[trigger] ops[k].old_index == old_end(ops, k)
    &&& old_end(ops, ops.len() as int) == n
}

/// The runs follow each other over the `n` new lines, without gap or overlap.
pub open spec fn tiles_new(ops: Seq<LineOp>, n: int) -> bool {
    &&& forall|k: int| 0 <= k < ops.len() ==> #[trigger] ops[k].new_index == new_end(ops, k)
    &&& new_end(ops, ops.len() as int) == n
}

/// What each run says of the lines it covers holds.
pub open spec fn run_holds(op: LineOp, old: Seq<Seq<char>>, new: Seq<Seq<char>>) -> bool {
    match op.kind {
        OpKind::Equal => op.old_len == op.new_len && old.subrange(
            op.old_index as int,
            op.old_index + op.old_len,
        ) == new.subrange(op.new_index as int, op.new_index + op.new_len),
        OpKind::Delete => op.new_len == 0,
        OpKind::Insert => op.old_len == 0,
        OpKind::Replace => true,
    }
}

/// `ops` is an edit script from the lines `old` to the lines `new`.
pub open spec fn is_edit_script(ops: Seq<LineOp>, old: Seq<Seq<char>>, new: Seq<Seq<char>>) -> bool {
    &&& tiles_old(ops, old.len() as int)
    &&& tiles_new(ops, new.len() as int)
    &&& forall|k: int| 0 <= k < ops.len() ==> run_holds(#[trigger] ops[k], old, new)
}

/// The start of line `l`.
pub open spec fn line_pos(l: int) -> Position {
    Position { line: l as u32, character: 0 }
}

/// The edit that a run other than `Equal` stands for.
pub open spec fn op_edit(op: LineOp, new: Seq<Seq<char>>) -> (Range, Seq<char>) {
    let inserted = new.subrange(op.new_index as int, op.new_index + op.new_len).flatten();
    match op.kind {
        OpKind::Insert => (
            Range { start: line_pos(op.old_index as int), end: line_pos(op.old_index as int) },
            inserted,
        ),
        OpKind::Delete => (
            Range {
                start: line_pos(op.old_index as int),
                end: line_pos(op.old_index + op.old_len),
            },
            Seq::empty(),
        ),
        _ => (
            Range {
                start: line_pos(op.old_index as int),
                end: line_pos(op.old_index + op.old_len),
            },
            inserted,
        ),
    }
}

/// The edits of a script, in order: one per run that is not `Equal`.
#[verifier::opaque]
pub open spec fn edits_of(ops: Seq<LineOp>, new: Seq<Seq<char>>) -> Seq<(Range, Seq<char>)>
    decreases ops.len(),
{
    if ops.len() == 0 {
        seq![]
    } else {
        let prev = edits_of(ops.drop_last(), new);
        if ops.last().kind == OpKind::Equal {
            prev
        } else {
            prev.push(op_edit(ops.last(), new))
        }
    }
}

/// Character offset of the start of line `l`, the end of the text past the last line.
pub open spec fn line_offset(lines: Seq<Seq<char>>, l: int) -> int {
    if 0 <= l <= lines.len() {
        lines.take(l).flatten().len() as int
    } else {
        lines.flatten().len() as int
    }
}

/// Character offset of `p`.
pub open spec fn pos_offset(lines: Seq<Seq<char>>, p: Position) -> int {
    line_offset(lines, p.line as int) + p.character
}

/// The text up to offset `to` once `edits` (sorted, disjoint, in the
/// coordinates of `text`) are applied.
pub open spec fn splice_upto(
    text: Seq<char>,
    lines: Seq<Seq<char>>,
    edits: Seq<(Range, Seq<char>)>,
    to: int,
) -> Seq<char>
    decreases edits.len(),
{
    if edits.len() == 0 {
        text.take(to)
    } else {
        let e = edits.last();
        splice_upto(text, lines, edits.drop_last(), pos_offset(lines, e.0.start)) + e.1
            + text.subrange(pos_offset(lines, e.0.end), to)
    }
}

/// `text` with `edits` applied, each edit addressing the original text.
pub open spec fn apply_text_edits(text: Seq<char>, edits: Seq<(Range, Seq<char>)>) -> Seq<char> {
    splice_upto(text, line_tokens(text), edits, text.len() as int)
}

/// A line diff of `old` into `new`, as similar computes it.
pub uninterp spec fn line_diff_of(old: Seq<char>, new: Seq<char>) -> Seq<LineOp>;

/// Relies on `similar::TextDiff::from_lines` and `TextDiff::ops`: the ops are
/// an edit script over the lines of both texts (split after `\n`, `\r\n` or
/// a lone `\r`), in order and covering both, `Equal` runs on equal lines.
/// The diff is computed without a deadline, so it depends on the texts alone.
/// Equal texts give `Equal` runs only.
#[verifier::external_body]
fn line_diff(old: &str, new: &str) -> (r: Vec<LineOp>)
    ensures
        r@ == line_diff_of(old@, new@),
        is_edit_script(r@, line_tokens(old@), line_tokens(new@)),
        old@ == new@ ==> forall|k: int| 0 <= k < r@.len() ==> (#[trigger] r@[k]).kind == OpKind::Equal,
{
    similar::TextDiff::from_lines(old, new).ops().iter().map(|op| match *op {
        D::Equal { old_index, new_index, len } =>
            LineOp { kind: OpKind::Equal, old_index, old_len: len, new_index, new_len: len },
        D::Delete { old_index, old_len, new_index } =>
            LineOp { kind: OpKind::Delete, old_index, old_len, new_index, new_len: 0 },
        D::Insert { old_index, new_index, new_len } =>
            LineOp { kind: OpKind::Insert, old_index, old_len: 0, new_index, new_len },
        D::Replace { old_index, old_len, new_index, new_len } =>
            LineOp { kind: OpKind::Replace, old_index, old_len, new_index, new_len },
    }).collect()
}

} // verus!

verus! {

proof fn lemma_edit_views_push(es: Seq<TextEdit>, e: TextEdit)
    ensures
        edit_views(es.push(e)) == edit_views(es).push(e@),
{
    assert(edit_views(es.push(e)) =~= edit_views(es).push(e@));
}

proof fn lemma_end_step(ops: Seq<LineOp>, k: int)
    ensures
        old_end(ops, 0) == 0,
        new_end(ops, 0) == 0,
        0 <= k < ops.len() ==> old_end(ops, k + 1) == ops[k].old_index + ops[k].old_len,
        0 <= k < ops.len() ==> new_end(ops, k + 1) == ops[k].new_index + ops[k].new_len,
{
    reveal(old_end);
    reveal(new_end);
}

/// The new lines of the runs before `k` end no later than those of all runs.
proof fn lemma_new_ends_grow(ops: Seq<LineOp>, n: int, k: int)
    requires
        tiles_new(ops, n),
        0 <= k <= ops.len(),
    ensures
        new_end(ops, k) <= n,
    decreases ops.len() - k,
{
    reveal(new_end);
    if k < ops.len() {
        assert(ops[k].new_index == new_end(ops, k));
        lemma_new_ends_grow(ops, n, k + 1);
    }
}

/// The old lines of the runs before `k` end no later than those of all runs.
proof fn lemma_old_ends_grow(ops: Seq<LineOp>, n: int, k: int)
    requires
        tiles_old(ops, n),
        0 <= k <= ops.len(),
    ensures
        old_end(ops, k) <= n,
    decreases ops.len() - k,
{
    reveal(old_end);
    if k < ops.len() {
        assert(ops[k].old_index == old_end(ops, k));
        lemma_old_ends_grow(ops, n, k + 1);
    }
}

/// Lines `from..to` of `lines`, joined.
fn join_lines(lines: &Vec<String>, from: usize, to: usize) -> (r: String)
    requires
        from <= to <= lines@.len(),
    ensures
        r@ == views(lines@).subrange(from as int, to as int).flatten(),
{
    let mut acc = String::new();
    let mut j = from;
    while j < to
        invariant
            from <= j <= to <= lines@.len(),
            acc@ == views(lines@).subrange(from as int, j as int).flatten(),
        decreases to - j,
    {
        proof {
            let ls = views(lines@);
            assert(ls.subrange(from as int, j + 1) =~= ls.subrange(from as int, j as int).push(
                ls[j as int],
            ));
            ls.subrange(from as int, j as int).lemma_flatten_push(ls[j as int]);
        }
        acc.append(lines[j].as_str());
        j = j + 1;
    }
    acc
}

/// Every old line number that the script names fits a `u32`.
pub open spec fn old_lines_fit(ops: Seq<LineOp>) -> bool {
    forall|k: int| 0 <= k < ops.len() ==> #[trigger] ops[k].old_index + ops[k].old_len <= u32::MAX
}

/// The edit for one run that is not `Equal`, its new lines read from `new_lines`.
fn run_edit(op: LineOp, new_lines: &Vec<String>) -> (e: TextEdit)
    requires
        op.kind != OpKind::Equal,
        op.new_index + op.new_len <= new_lines.len(),
        op.old_index + op.old_len <= u32::MAX,
    ensures
        e@ == op_edit(op, views(new_lines@)),
{
    let start = Position { line: op.old_index as u32, character: 0 };
    let end = Position { line: (op.old_index + op.old_len) as u32, character: 0 };
    match op.kind {
        OpKind::Delete => TextEdit { range: Range { start, end }, new_text: String::new() },
        OpKind::Insert => {
            let text = join_lines(new_lines, op.new_index, op.new_index + op.new_len);
            TextEdit { range: Range { start, end: start }, new_text: text }
        },
        _ => {
            let text = join_lines(new_lines, op.new_index, op.new_index + op.new_len);
            TextEdit { range: Range { start, end }, new_text: text }
        },
    }
}

proof fn lemma_edits_of_step(ops: Seq<LineOp>, k: int, new: Seq<Seq<char>>)
    requires
        0 <= k < ops.len(),
    ensures
        edits_of(ops.take(k + 1), new) == if ops[k].kind == OpKind::Equal {
            edits_of(ops.take(k), new)
        } else {
            edits_of(ops.take(k), new).push(op_edit(ops[k], new))
        },
{
    reveal(edits_of);
    assert(ops.take(k + 1).drop_last() =~= ops.take(k));
    assert(ops.take(k + 1).last() == ops[k]);
}

/// Turns an edit script over the lines of a document into text edits. A
/// single cursor walks `new_lines` once, in script order: each run takes its
/// new lines from it, and at the end it has reached the last line.
pub fn edits_from_ops(ops: &Vec<LineOp>, new_lines: &Vec<String>) -> (r: Vec<TextEdit>)
    requires
        tiles_new(ops@, new_lines@.len() as int),
        old_lines_fit(ops@),
    ensures
        edit_views(r@) == edits_of(ops@, views(new_lines@)),
{
    let ghost new = views(new_lines@);
    let n = new_lines.len();
    let mut edits: Vec<TextEdit> = Vec::new();
    let mut cursor: usize = 0;
    let mut k: usize = 0;
    proof {
        lemma_end_step(ops@, 0);
        reveal(edits_of);
        assert(edit_views(edits@) =~= edits_of(ops@.take(0), new));
    }
    while k < ops.len()
        invariant
            k <= ops@.len(),
            new == views(new_lines@),
            n == new_lines@.len(),
            tiles_new(ops@, new_lines@.len() as int),
            old_lines_fit(ops@),
            cursor == new_end(ops@, k as int),
            edit_views(edits@) == edits_of(ops@.take(k as int), new),
        decreases ops@.len() - k,
    {
        let op = ops[k];
        proof {
            assert(op.new_index == cursor);
            assert(op.old_index + op.old_len <= u32::MAX);
            lemma_new_ends_grow(ops@, new_lines@.len() as int, k + 1);
            lemma_end_step(ops@, k as int);
            lemma_edits_of_step(ops@, k as int, new);
        }
        if op.kind != OpKind::Equal {
            let e = run_edit(op, new_lines);
            proof {
                lemma_edit_views_push(edits@, e);
            }
            edits.push(e);
        }
        cursor = cursor + op.new_len;
        k = k + 1;
    }
    proof {
        assert(ops@.take(ops@.len() as int) =~= ops@);
    }
    assert(cursor == new_lines@.len());
    edits
}

} // verus!

verus! {

/// Lines `a..b` of a text are its characters from the start of line `a` to
/// the start of line `b`.
proof fn lemma_line_slice(lines: Seq<Seq<char>>, a: int, b: int)
    requires
        0 <= a <= b <= lines.len(),
    ensures
        0 <= line_offset(lines, a) <= line_offset(lines, b) <= lines.flatten().len(),
        lines.flatten().subrange(line_offset(lines, a), line_offset(lines, b)) == lines.subrange(
            a,
            b,
        ).flatten(),
{
    assert(lines.take(b) =~= lines.take(a) + lines.subrange(a, b));
    lemma_flatten_concat(lines.take(a), lines.subrange(a, b));
    assert(lines =~= lines.take(b) + lines.skip(b));
    lemma_flatten_concat(lines.take(b), lines.skip(b));
    assert(lines.flatten().subrange(line_offset(lines, a), line_offset(lines, b))
        =~= lines.subrange(a, b).flatten());
}

/// Past the last edit, the spliced text grows by the original characters.
proof fn lemma_splice_extend(
    text: Seq<char>,
    lines: Seq<Seq<char>>,
    edits: Seq<(Range, Seq<char>)>,
    t1: int,
    t2: int,
)
    requires
        0 <= t1 <= t2 <= text.len(),
        edits.len() > 0 ==> 0 <= pos_offset(lines, edits.last().0.end) <= t1,
    ensures
        splice_upto(text, lines, edits, t2) == splice_upto(text, lines, edits, t1)
            + text.subrange(t1, t2),
{
    if edits.len() == 0 {
        assert(text.take(t2) =~= text.take(t1) + text.subrange(t1, t2));
    } else {
        let e = edits.last();
        let b = pos_offset(lines, e.0.end);
        assert(text.subrange(b, t2) =~= text.subrange(b, t1) + text.subrange(t1, t2));
    }
}

/// Applying the edits of the first `k` runs of a script to `o`, up to where
/// those runs end in `o`, gives `r` up to where they end in `r`.
proof fn lemma_script_prefix(o: Seq<char>, r: Seq<char>, ops: Seq<LineOp>, k: int)
    requires
        is_edit_script(ops, line_tokens(o), line_tokens(r)),
        o.len() <= u32::MAX,
        0 <= k <= ops.len(),
    ensures
        ({
            let lines = line_tokens(o);
            let edits = edits_of(ops.take(k), line_tokens(r));
            &&& splice_upto(o, lines, edits, line_offset(lines, old_end(ops, k)))
                == line_tokens(r).take(new_end(ops, k)).flatten()
            &&& edits.len() > 0 ==> 0 <= pos_offset(lines, edits.last().0.end) <= line_offset(
                lines,
                old_end(ops, k),
            )
        }),
    decreases k,
{
    let lines = line_tokens(o);
    let new = line_tokens(r);
    lemma_line_tokens(o);
    lemma_line_tokens(r);
    lemma_end_step(ops, k - 1);
    if k == 0 {
        reveal(edits_of);
        assert(ops.take(0) =~= Seq::<LineOp>::empty());
        assert(new.take(0) =~= Seq::<Seq<char>>::empty());
        assert(lines.take(0) =~= Seq::<Seq<char>>::empty());
        assert(o.take(0) =~= Seq::<char>::empty());
    } else {
        let j = k - 1;
        let op = ops[j];
        lemma_script_prefix(o, r, ops, j);
        lemma_edits_of_step(ops, j, new);
        lemma_old_ends_grow(ops, lines.len() as int, k);
        lemma_new_ends_grow(ops, new.len() as int, k);
        assert(op.old_index == old_end(ops, j));
        assert(op.new_index == new_end(ops, j));
        assert(run_holds(op, lines, new));
        let oi = op.old_index as int;
        let oe = op.old_index + op.old_len;
        let ni = op.new_index as int;
        let ne = op.new_index + op.new_len;
        lemma_line_slice(lines, oi, oe);
        assert(new.take(ne) =~= new.take(ni) + new.subrange(ni, ne));
        lemma_flatten_concat(new.take(ni), new.subrange(ni, ne));
        let prev = edits_of(ops.take(j), new);
        let t1 = line_offset(lines, oi);
        let t2 = line_offset(lines, oe);
        if op.kind == OpKind::Equal {
            lemma_splice_extend(o, lines, prev, t1, t2);
        } else {
            let e = op_edit(op, new);
            let cur = prev.push(e);
            assert(cur.drop_last() =~= prev);
            assert(pos_offset(lines, e.0.start) == t1);
            if op.kind == OpKind::Insert {
                assert(oe == oi);
                assert(o.subrange(t1, t1) =~= Seq::<char>::empty());
            } else {
                assert(pos_offset(lines, e.0.end) == t2);
                assert(o.subrange(t2, t2) =~= Seq::<char>::empty());
                if op.kind == OpKind::Delete {
                    assert(new.subrange(ni, ne) =~= Seq::<Seq<char>>::empty());
                }
            }
            assert(splice_upto(o, lines, cur, t2) =~= splice_upto(o, lines, prev, t1) + e.1
                + o.subrange(pos_offset(lines, e.0.end), t2));
        }
    }
}

/// A script of `Equal` runs only stands for no edit.
proof fn lemma_no_edits_when_equal(ops: Seq<LineOp>, new: Seq<Seq<char>>)
    requires
        forall|k: int| 0 <= k < ops.len() ==> (#[trigger] ops[k]).kind == OpKind::Equal,
    ensures
        edits_of(ops, new).len() == 0,
    decreases ops.len(),
{
    reveal(edits_of);
    if ops.len() > 0 {
        let init = ops.drop_last();
        assert forall|k: int| 0 <= k < init.len() implies (#[trigger] init[k]).kind == OpKind::Equal by {
            assert(init[k] == ops[k]);
        }
        assert(ops.last() == ops[ops.len() - 1]);
        lemma_no_edits_when_equal(init, new);
    }
}

/// Round trip: applying to `o` the edits made from an edit script between
/// the lines of `o` and those of `r` yields exactly `r`.
pub proof fn lemma_round_trip(o: Seq<char>, r: Seq<char>, ops: Seq<LineOp>)
    requires
        is_edit_script(ops, line_tokens(o), line_tokens(r)),
        o.len() <= u32::MAX,
    ensures
        apply_text_edits(o, edits_of(ops, line_tokens(r))) == r,
{
    let lines = line_tokens(o);
    let new = line_tokens(r);
    lemma_script_prefix(o, r, ops, ops.len() as int);
    lemma_line_tokens(o);
    lemma_line_tokens(r);
    assert(ops.take(ops.len() as int) =~= ops);
    assert(lines.take(lines.len() as int) =~= lines);
    assert(new.take(new.len() as int) =~= new);
}

/// The edits that turn `original` into `formatted`, one per changed run of
/// lines, found by a line diff. Each edit covers whole old lines, and its
/// text is the new lines of its run, each with its own line break (the last
/// one has none where `formatted` ends without one). Applied to `original`
/// they give `formatted`.
pub fn synthesize_edits(original: &str, formatted: &str) -> (r: Vec<TextEdit>)
    requires
        original@.len() <= u32::MAX,
    ensures
        is_edit_script(
            line_diff_of(original@, formatted@),
            line_tokens(original@),
            line_tokens(formatted@),
        ),
        edit_views(r@) == edits_of(line_diff_of(original@, formatted@), line_tokens(formatted@)),
        apply_text_edits(original@, edit_views(r@)) == formatted@,
        original@ == formatted@ ==> r@.len() == 0,
{
    let ops = line_diff(original, formatted);
    let new_lines = split_lines(formatted);
    proof {
        let lines = line_tokens(original@);
        lemma_line_tokens(original@);
        assert forall|k: int| 0 <= k < ops@.len() implies #[trigger] ops@[k].old_index
            + ops@[k].old_len <= u32::MAX by {
            lemma_end_step(ops@, k);
            lemma_old_ends_grow(ops@, lines.len() as int, k + 1);
        }
        lemma_round_trip(original@, formatted@, ops@);
        if original@ == formatted@ {
            lemma_no_edits_when_equal(ops@, line_tokens(formatted@));
        }
    }
    let r = edits_from_ops(&ops, &new_lines);
    proof {
        if original@ == formatted@ {
            assert(edit_views(r@).len() == r@.len());
        }
    }
    r
}

} // verus!

verus! {

/// Answers a format request for a document whose text is `original`, given
/// what the formatter gave back: its output, or its exit status when it
/// failed. A failure is returned as an error and yields no edit.
pub fn handle_formatting(original: &str, formatter: Result<String, Option<i32>>) -> (r: Result<
    Vec<TextEdit>,
    RequestError,
>)
    requires
        original@.len() <= u32::MAX,
    ensures
        match formatter {
            Err(status) => r == Err::<Vec<TextEdit>, RequestError>(
                RequestError::FormatterFailed(status),
            ),
            Ok(formatted) => match r {
                Ok(edits) => {
                    &&& is_edit_script(
                        line_diff_of(original@, formatted@),
                        line_tokens(original@),
                        line_tokens(formatted@),
                    )
                    &&& edit_views(edits@) == edits_of(
                        line_diff_of(original@, formatted@),
                        line_tokens(formatted@),
                    )
                    &&& apply_text_edits(original@, edit_views(edits@)) == formatted@
                    &&& original@ == formatted@ ==> edits@.len() == 0
                },
                Err(_) => false,
            },
        },
{
    match formatter {
        Err(status) => Err(rustfmt_failed(status)),
        Ok(formatted) => Ok(synthesize_edits(original, formatted.as_str())),
    }
}

} // verus!
