//! What the count of stones left says about a position's score.

use vstd::prelude::*;
use crate::game::state::{State, StateView};
use crate::rules::{lemma_position_bounds, mover_left, other_left, two_or_more};

verus! {

/// Either the score of a position that is decided at once, or the range in
/// which the score of any game from it must lie.
#[derive(Clone, Copy, Debug, PartialEq, Eq)]
pub enum StateResult {
    Immediate(i32),
    Bounds((i32, i32)),
}

impl StateView {
    /// Number of cells of the board.
    pub open spec fn total(self) -> int {
        self.width * self.height
    }

    /// Stones that the side to move can still place.
    pub open spec fn my_left(self) -> int {
        mover_left(self.total(), self.plies())
    }

    /// Stones that the other side can still place.
    pub open spec fn opponent_left(self) -> int {
        other_left(self.total(), self.plies())
    }

    /// Whether the side to move can complete four in a row with its next stone.
    pub open spec fn can_win_now(self) -> bool {
        self.my_wins() & self.moves() != 0
    }

    /// Whether the other side threatens to complete four in a row in two cells at once.
    pub open spec fn is_lost(self) -> bool {
        two_or_more(self.opponent_wins() & self.moves())
    }

    /// What the stones left say about the position: a win with the next
    /// stone scores the mover's stones left, a double threat of the other
    /// side scores minus that side's stones left, a full board is a draw, and
    /// any other position lies between the two.
    pub open spec fn bound(self) -> StateResult {
        if self.can_win_now() {
            StateResult::Immediate(self.my_left() as i32)
        } else if self.is_lost() {
            StateResult::Immediate((-self.opponent_left()) as i32)
        } else if self.plies() >= self.total() {
            StateResult::Immediate(0)
        } else {
            StateResult::Bounds(((-self.opponent_left()) as i32, self.my_left() as i32))
        }
    }
}

/// The stones left to the two sides are the empty cells, shared evenly but
/// for an odd cell, which goes to the side to move; after a move the sides
/// trade places.
pub proof fn lemma_stones_left(total: int, used: int)
    requires
        0 <= used <= total,
    ensures
        0 <= other_left(total, used) <= mover_left(total, used) <= other_left(total, used) + 1,
        mover_left(total, used) + other_left(total, used) == total - used,
        used < total ==> mover_left(total, used) >= 1,
        used < total ==> mover_left(total, used + 1) == other_left(total, used),
        used < total ==> other_left(total, used + 1) == mover_left(total, used) - 1,
{
}

impl State {
    /// Stones that the side to move can still place.
    pub fn my_left_stones(&self) -> (r: u16)
        requires
            self.wf(),
        ensures
            r == self@.my_left(),
    {
        let total_used = self.len() as u16;
        let total = self.game().total_stones();
        proof {
            lemma_stones_left(total as int, total_used as int);
        }
        let first_hand = total_used % 2;
        if total % 2 == 1 {
            (total / 2 + 1 - first_hand) - (total_used / 2)
        } else {
            (total / 2) - (total_used / 2)
        }
    }

    /// Stones that the other side can still place.
    pub fn opponent_left_stones(&self) -> (r: u16)
        requires
            self.wf(),
        ensures
            r == self@.opponent_left(),
    {
        let total_used = self.len() as u16;
        proof {
            lemma_stones_left(self@.total(), total_used as int);
        }
        self.game().total_stones() - total_used - self.my_left_stones()
    }

    /// The score if the position is decided at once, else the range of scores still open.
    pub fn bound(&self) -> (r: StateResult)
        requires
            self.wf(),
        ensures
            r == self@.bound(),
    {
        let moves_mask = self.possible_moves_mask();
        let me_winning_mask = self.me_winning_mask();
        let op_next_winning_mask = self.opponent_winning_mask() & moves_mask;
        let my_left_stones = self.my_left_stones();
        let op_left_stones = self.opponent_left_stones();
        if me_winning_mask & moves_mask > 0 {
            return StateResult::Immediate(my_left_stones as i32);
        }
        if (op_next_winning_mask > 0) && (op_next_winning_mask & (op_next_winning_mask - 1) > 0) {
            return StateResult::Immediate(-(op_left_stones as i32));
        }
        if self.len() as u16 >= self.game().total_stones() {
            return StateResult::Immediate(0);
        }
        StateResult::Bounds((-(op_left_stones as i32), my_left_stones as i32))
    }
}

} // verus!
