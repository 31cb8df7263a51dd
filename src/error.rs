//! What can go wrong when a shared result is read.

use vstd::prelude::*;

verus! {

/// Why a board does not meet the rules of the game.
#[derive(Clone, Copy, Debug, PartialEq, Eq, Structural)]
pub enum BoardDefect {
    /// No line of the board holds a row.
    NoRows,
    /// A row holds more tiles than a word has letters.
    RowTooLong { len: usize },
    /// The board has one row only, and not every tile of it is green.
    SingleRowNotGreen,
}

/// Why a shared result could not be read.
#[derive(Clone, Copy, Debug, PartialEq, Eq, Structural)]
pub enum ParseError {
    /// The first line is not a header of the form `Wordle 1,234 4/6*`.
    MalformedHeader,
    /// The first line is a header but for a day offset too large to hold.
    DayOffsetOutOfRange,
    /// A token of the board names no tile; `line` counts the board's lines
    /// from one.
    InvalidTileToken { line: usize },
    /// The board's rows break a rule of the game.
    MalformedBoard { defect: BoardDefect },
}

} // verus!
