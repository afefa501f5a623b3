use vstd::prelude::*;

verus! {

/// Why a textual board description was rejected.
#[derive(Debug, Clone, Copy, PartialEq, Eq, Structural)]
pub enum ParseError {
    /// No line holds a size token.
    MissingSize,
    /// A token is not a decimal number that fits in a byte.
    InvalidToken,
    /// A row does not hold exactly `size` numbers.
    RowLength,
    /// The number of rows differs from `size`.
    RowCount,
    /// The tiles hold no `0`.
    MissingBlank,
    /// The tiles are not the labels `0..size*size`, each exactly once.
    InvalidTiles,
}

/// The failures that the library reports.
#[derive(Debug, Clone, Copy, PartialEq, Eq, Structural)]
pub enum PuzzleError {
    /// The input text does not describe a board.
    Parse(ParseError),
    /// The board fails the parity test, so no search is attempted.
    Unsolvable,
    /// The frontier ran empty before the goal was reached.
    SearchExhausted,
    /// A move would push the blank over the edge of the board.
    InvalidMove,
    /// Replaying a move sequence does not end on the goal board.
    Verification,
    /// The selected heuristic has no implementation.
    UnsupportedHeuristic,
    /// The search settled as many boards as it can count.
    SearchLimit,
}

} // verus!
