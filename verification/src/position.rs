//! Character indices and line/column positions, the two addressing schemes of
//! the engine. A `Position`'s column counts characters since the line start;
//! the terminating newline is an ordinary character of its line.

use vstd::prelude::*;

verus! {

/// Zero-based index of a character in the buffer text.
#[derive(Clone, Copy, PartialEq, Eq, Structural, Debug)]
pub struct CharIndex(pub usize);

/// Zero-based line/column position. The column is measured in characters from
/// the start of the line.
#[derive(Clone, Copy, PartialEq, Eq, Structural, Debug)]
pub struct Position {
    pub line: usize,
    pub column: usize,
}

impl Position {
    pub fn new(line: usize, column: usize) -> (res: Position)
        ensures
            res == (Position { line, column }),
    {
        Position { line, column }
    }
}

/// A position in the convention of the external editor protocol: the line is
/// a 0-based line index, `character` the 0-based column. The protocol has no
/// notion of a newline belonging to its own line; conversions clamp
/// accordingly.
#[derive(Clone, Copy, PartialEq, Eq, Structural, Debug)]
pub struct ProtocolPosition {
    pub line: u32,
    pub character: u32,
}

/// An edit sent to the external editor protocol: replace the text between two
/// positions (computed against the correct snapshot) with `new_text`.
#[derive(Clone, PartialEq, Eq, Debug)]
pub struct ProtocolDiffEdit {
    pub start: ProtocolPosition,
    pub end: ProtocolPosition,
    pub new_text: String,
}

} // verus!
