use vstd::prelude::*;

verus! {

/// A zero-based (line, character) coordinate in a document.
#[derive(Clone, Copy, Debug, PartialEq, Eq, Structural)]
pub struct Position {
    pub line: u32,
    pub character: u32,
}

/// A half-open span `[start, end)` of a document.
#[derive(Clone, Copy, Debug, PartialEq, Eq, Structural)]
pub struct Range {
    pub start: Position,
    pub end: Position,
}

/// `a` comes no later than `b` in (line, character) order.
pub open spec fn pos_le(a: Position, b: Position) -> bool {
    a.line < b.line || (a.line == b.line && a.character <= b.character)
}

/// Every position of `inner` lies inside `outer`.
pub open spec fn range_within(inner: Range, outer: Range) -> bool {
    pos_le(outer.start, inner.start) && pos_le(inner.end, outer.end)
}

impl Position {
    pub fn new(line: u32, character: u32) -> (r: Position)
        ensures
            r.line == line,
            r.character == character,
    {
        Position { line, character }
    }
}

impl Range {
    pub fn new(start: Position, end: Position) -> (r: Range)
        ensures
            r.start == start,
            r.end == end,
    {
        Range { start, end }
    }
}

/// Whether `inner` lies inside `outer`, end points included.
pub fn check_sub_range(inner: Range, outer: Range) -> (r: bool)
    ensures
        r == range_within(inner, outer),
{
    let starts_after = inner.start.line > outer.start.line || (inner.start.line
        == outer.start.line && inner.start.character >= outer.start.character);
    let ends_before = inner.end.line < outer.end.line || (inner.end.line == outer.end.line
        && inner.end.character <= outer.end.character);
    starts_after && ends_before
}

} // verus!
