//! Perfect-information solver for Connect Four on boards of arbitrary size.

use vstd::prelude::*;

pub mod error;
pub mod explorer;
pub mod game;
pub mod masks;
pub mod minimax;
pub mod mirror;
pub mod mirror_lines;
pub mod order;
pub mod rules;
pub mod solver;
pub mod symmetry;
pub mod value;

pub use error::GameError;
pub use explorer::Explorer;
pub use game::Connect4;
pub use game::State;
pub use solver::NegamaxResult;
pub use solver::Solver;

verus! {

/// A position of a game for two that can be searched by playing moves and taking them back.
pub trait GameState {
    /// Whether the value is a position of its game.
    spec fn valid(&self) -> bool;

    /// Whether move `a` can be played.
    fn can_play(&self, a: u16) -> (r: bool)
        requires
            self.valid(),
    ;

    /// The moves that can be played.
    fn possible_moves(&self) -> (res: Vec<u16>)
        requires
            self.valid(),
    ;

    /// Plays move `a`.
    fn play(&mut self, a: u16) -> (r: Result<(), GameError>)
        requires
            old(self).valid(),
        ensures
            final(self).valid(),
    ;

    /// Takes the last move back.
    fn unplay(&mut self) -> (r: Result<(), GameError>)
        requires
            old(self).valid(),
        ensures
            final(self).valid(),
    ;

    /// A word that identifies the position.
    fn key(&self) -> (k: u64)
        requires
            self.valid(),
    ;
}

} // verus!
