//! Positions and spans in a source file: lines are 1-indexed, columns are
//! 0-indexed and counted in Unicode scalar values, never bytes.

use vstd::prelude::*;

verus! {

/// A position in the source file.
#[derive(Clone, Copy, Debug, PartialEq, Eq, Hash, Structural)]
pub struct Position {
    /// 1-indexed line.
    pub line: usize,
    /// 0-indexed column, in scalars.
    pub column: usize,
}

/// An inclusive range of source positions: `end` names the last scalar of the
/// covered region.
#[derive(Clone, Copy, Debug, PartialEq, Eq, Hash, Structural)]
pub struct Span {
    pub start: Position,
    pub end: Position,
}

/// Lexicographic order on positions by (line, column).
pub open spec fn position_le(a: Position, b: Position) -> bool {
    a.line < b.line || (a.line == b.line && a.column <= b.column)
}

/// A well-formed span does not end before it starts.
pub open spec fn span_ordered(s: Span) -> bool {
    position_le(s.start, s.end)
}

} // verus!
