use vstd::prelude::*;

verus! {

/// A position in the source text.
#[derive(Clone, Copy, Debug, PartialEq, Eq)]
pub struct Pos {
    /// Byte offset from the start of the source.
    pub offset: usize,
    /// Line number, counted from 1.
    pub line: usize,
    /// Column in characters, counted from 1.
    pub col: usize,
}

impl Pos {
    pub fn new(offset: usize, line: usize, col: usize) -> (p: Self)
        ensures
            p.offset == offset,
            p.line == line,
            p.col == col,
    {
        Pos { offset, line, col }
    }
}

/// A span between two positions (start inclusive, end exclusive).
#[derive(Clone, Copy, Debug)]
pub struct Span {
    pub start: Pos,
    pub end: Pos,
}

impl Span {
    pub fn new(start: Pos, end: Pos) -> (s: Self)
        ensures
            s.start == start,
            s.end == end,
    {
        Span { start, end }
    }
}

} // verus!
