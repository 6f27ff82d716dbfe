//! The ways in which a request to the library can fail.

use vstd::prelude::*;

verus! {

/// Why a move, an undo, a book or a table layout was refused.
#[derive(Clone, Copy, Debug, PartialEq, Eq, Structural)]
pub enum GameError {
    /// The column is out of range or full, or the move would complete four in a row.
    InvalidMove,
    /// There is no move to take back.
    EmptyHistory,
    /// The bytes of a book end early, name a board that does not fit, or
    /// hold a key of as many stones as the board has cells.
    MalformedBook,
    /// The tiers of a table do not cover every ply of the board exactly.
    TableConfigMismatch,
}

} // verus!
