use vstd::prelude::*;

verus! {

/// A place in the source text: zero-based line and column.
/// Diagnostics print it one-based.
#[derive(Clone, Copy, Debug, PartialEq, Eq, Structural)]
pub struct Position {
    pub line: usize,
    pub col: usize,
}

impl Position {
    /// The first column of the first line.
    pub fn start() -> (r: Position)
        ensures
            r.line == 0,
            r.col == 0,
    {
        Position { line: 0, col: 0 }
    }
}

} // verus!
