//! The live text of one open document, edited in place.

use vstd::prelude::*;

use crate::edit::{line_offset, pos_offset};
use crate::lines::line_tokens;
use crate::position::Range;

verus! {

#[verifier::external_type_specification]
#[verifier::external_body]
pub struct ExRope(ropey::Rope);

/// The characters that a rope holds.
pub uninterp spec fn rope_text(r: ropey::Rope) -> Seq<char>;

/// Whether `s` ends with a line break.
pub open spec fn ends_with_break(s: Seq<char>) -> bool {
    s.len() > 0 && (s.last() == '\n' || s.last() == '\r')
}

/// The number of lines of `s`: its line breaks, plus one.
pub open spec fn line_count(s: Seq<char>) -> int {
    if s.len() == 0 || ends_with_break(s) {
        line_tokens(s).len() + 1int
    } else {
        line_tokens(s).len() as int
    }
}

/// Relies on `ropey::Rope::from_str`: the rope holds the characters of `s`.
#[verifier::external_body]
fn rope_from(s: &str) -> (r: ropey::Rope)
    ensures
        rope_text(r) == s@,
{
    ropey::Rope::from_str(s)
}

/// Relies on `ropey::Rope::len_chars`: the number of characters held.
#[verifier::external_body]
fn rope_len_chars(r: &ropey::Rope) -> (n: usize)
    ensures
        n == rope_text(*r).len(),
{
    r.len_chars()
}

/// Relies on `ropey::Rope::len_lines`: the line breaks plus one, a break
/// being `\n`, `\r\n` or a lone `\r` (the `cr_lines` feature).
#[verifier::external_body]
fn rope_len_lines(r: &ropey::Rope) -> (n: usize)
    ensures
        n == line_count(rope_text(*r)),
{
    r.len_lines()
}

/// Relies on `ropey::Rope::line_to_char`: the index of the first character
/// of line `l`, or one past the end for the line after the last. It panics
/// past that.
#[verifier::external_body]
fn rope_line_to_char(r: &ropey::Rope, l: usize) -> (n: usize)
    requires
        l <= line_count(rope_text(*r)),
    ensures
        n == line_offset(line_tokens(rope_text(*r)), l as int),
{
    r.line_to_char(l)
}

/// Relies on `ropey::Rope::remove`: the characters `start..end` are taken
/// out. It panics unless `start <= end <= len_chars()`.
#[verifier::external_body]
fn rope_remove(r: &mut ropey::Rope, start: usize, end: usize)
    requires
        start <= end <= rope_text(*old(r)).len(),
    ensures
        rope_text(*final(r)) == rope_text(*old(r)).take(start as int) + rope_text(*old(r)).skip(
            end as int,
        ),
{
    r.remove(start..end)
}

/// Relies on `ropey::Rope::insert`: `s` goes in before character `at`. It
/// panics unless `at <= len_chars()`.
#[verifier::external_body]
fn rope_insert(r: &mut ropey::Rope, at: usize, s: &str)
    requires
        at <= rope_text(*old(r)).len(),
    ensures
        rope_text(*final(r)) == rope_text(*old(r)).take(at as int) + s@ + rope_text(*old(r)).skip(
            at as int,
        ),
{
    r.insert(at, s)
}

/// Relies on `String: From<&Rope>`: the characters held, in order.
#[verifier::external_body]
fn rope_string(r: &ropey::Rope) -> (s: String)
    ensures
        s@ == rope_text(*r),
{
    String::from(r)
}

/// One change sent for a document: the text of `range` replaced by `text`,
/// or with no range the whole text replaced.
#[derive(Clone, Debug)]
pub struct ContentChange {
    pub range: Option<Range>,
    pub text: String,
}

/// `text` with `change` applied, or `None` where its range does not address
/// `text`: a line past the one after the last, or end points out of order or
/// past the end. Positions count characters from the start of their line.
pub open spec fn change_applied(text: Seq<char>, change: ContentChange) -> Option<Seq<char>> {
    match change.range {
        None => Some(change.text@),
        Some(r) => {
            let lines = line_tokens(text);
            let a = pos_offset(lines, r.start);
            let b = pos_offset(lines, r.end);
            if r.start.line <= line_count(text) && r.end.line <= line_count(text) && a <= b
                <= text.len() {
                Some(text.take(a) + change.text@ + text.skip(b))
            } else {
                None
            }
        },
    }
}

/// `text` with `changes` applied in order, each in the coordinates left by
/// those before it; `None` if one of them does not apply.
pub open spec fn changes_applied(text: Seq<char>, changes: Seq<ContentChange>) -> Option<Seq<char>>
    decreases changes.len(),
{
    if changes.len() == 0 {
        Some(text)
    } else {
        match changes_applied(text, changes.drop_last()) {
            Some(t) => change_applied(t, changes.last()),
            None => None,
        }
    }
}

/// The text of an open document.
pub struct Document {
    rope: ropey::Rope,
}

impl View for Document {
    type V = Seq<char>;

    closed spec fn view(&self) -> Seq<char> {
        rope_text(self.rope)
    }
}

impl Document {
    /// A document holding `text`.
    pub fn new(text: &str) -> (d: Document)
        ensures
            d@ == text@,
    {
        Document { rope: rope_from(text) }
    }

    /// The whole text.
    pub fn text(&self) -> (s: String)
        ensures
            s@ == self@,
    {
        rope_string(&self.rope)
    }

    /// The character offset of `line`, `character`, if it lies within the text.
    fn offset_of(&self, line: u32, character: u32) -> (r: Option<usize>)
        ensures
            ({
                let lines = line_tokens(self@);
                let off = line_offset(lines, line as int) + character;
                match r {
                    Some(o) => line <= line_count(self@) && o == off && o <= self@.len(),
                    None => !(line <= line_count(self@) && off <= self@.len()),
                }
            }),
    {
        let n_lines = rope_len_lines(&self.rope);
        if line as usize > n_lines {
            return None;
        }
        let base = rope_line_to_char(&self.rope, line as usize);
        let len = rope_len_chars(&self.rope);
        if base > len || character as usize > len - base {
            None
        } else {
            Some(base + character as usize)
        }
    }

    /// Applies one change; returns whether it addressed the text. When it
    /// does not, the text is left as it was.
    pub fn apply_change(&mut self, change: &ContentChange) -> (ok: bool)
        ensures
            ok == (change_applied(old(self)@, *change) is Some),
            ok ==> final(self)@ == change_applied(old(self)@, *change)->0,
            !ok ==> final(self)@ == old(self)@,
    {
        match change.range {
            None => {
                self.rope = rope_from(change.text.as_str());
                true
            },
            Some(r) => {
                let a = self.offset_of(r.start.line, r.start.character);
                let b = self.offset_of(r.end.line, r.end.character);
                match (a, b) {
                    (Some(a), Some(b)) => {
                        if a <= b {
                            rope_remove(&mut self.rope, a, b);
                            rope_insert(&mut self.rope, a, change.text.as_str());
                            true
                        } else {
                            false
                        }
                    },
                    _ => false,
                }
            },
        }
    }
}

/// Applies `changes` to `doc` in order, stopping at the first one that does
/// not address the text: `Err(i)` names it, the changes before it applied.
pub fn handle_did_change(doc: &mut Document, changes: &Vec<ContentChange>) -> (r: Result<(), usize>)
    ensures
        match r {
            Ok(()) => changes_applied(old(doc)@, changes@) == Some(final(doc)@),
            Err(i) => i < changes@.len() && changes_applied(old(doc)@, changes@.take(i as int))
                == Some(final(doc)@) && change_applied(final(doc)@, changes@[i as int]) is None,
        },
{
    let mut k: usize = 0;
    while k < changes.len()
        invariant
            k <= changes@.len(),
            changes_applied(old(doc)@, changes@.take(k as int)) == Some(doc@),
        decreases changes@.len() - k,
    {
        proof {
            assert(changes@.take(k + 1).drop_last() =~= changes@.take(k as int));
        }
        if !doc.apply_change(&changes[k]) {
            return Err(k);
        }
        k = k + 1;
    }
    proof {
        assert(changes@.take(changes@.len() as int) =~= changes@);
    }
    Ok(())
}

} // verus!
