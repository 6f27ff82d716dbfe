//! The game as it is played, and that the search's score is the game's.
//!
//! The side to move wins if it can complete four in a row with its next
//! stone. A full board is a draw. In any other position the side to move
//! picks the column that leaves the other side worst off.

use vstd::prelude::*;
use crate::game::bound::{lemma_stones_left, StateResult};
use crate::masks::wins_of;
use crate::rules::{
    can_play_at, lemma_candidate_playable, lemma_play, lemma_play_stones, lemma_position_bounds,
    lemma_some_column, lemma_threat_stays, stones_of,
};
use crate::value::{best_upto, lemma_best, lemma_candidate_step, lemma_value_range, value, Position};

verus! {

impl Position {
    /// Whether a stone can be dropped into column `col`.
    pub open spec fn open_at(self, col: int) -> bool {
        can_play_at(self.mask, col, self.width, self.height)
    }

    /// Whether the side to move can complete four in a row with its next stone.
    pub open spec fn wins_now(self) -> bool {
        self.fresh().can_win_now()
    }

    /// Whether every cell holds a stone.
    pub open spec fn full(self) -> bool {
        self.fresh().plies() >= self.fresh().total()
    }

    /// What the move into column `col` leaves the mover with in the game as it is played.
    pub open spec fn outcome_of(self, col: int) -> int {
        -outcome(self.play(col as u8))
    }
}

/// A score below any that a game can have.
pub open spec fn no_score(p: Position) -> int {
    -(p.width * p.height) - 1
}

/// A stone dropped into a column that is not full leads to a position with less room.
pub proof fn lemma_open_step(p: Position, col: int)
    requires
        p.ok(),
        p.open_at(col),
    ensures
        p.play(col as u8).ok(),
        0 <= p.play(col as u8).room() < p.room(),
        stones_of(p.play(col as u8).mask, p.width, p.height) == stones_of(p.mask, p.width, p.height) + 1,
        stones_of(p.mask, p.width, p.height) < p.width * p.height,
{
    lemma_play(p.player, p.mask, p.width, p.height, col as u8);
    lemma_play_stones(p.player, p.mask, p.width, p.height, col as u8);
    let q = p.play(col as u8);
    lemma_position_bounds(q.player, q.mask, q.width, q.height);
}

/// The score of a position in the game as it is played, for the side to
/// move: its stones left if it can complete four in a row at once, zero on a
/// full board, and else the best that any column leaves it with.
pub open spec fn outcome(p: Position) -> int
    decreases p.room(), 1int, 0int,
{
    if p.wins_now() {
        p.high()
    } else if p.full() {
        0
    } else {
        outcome_upto(p, p.width as int)
    }
}

/// The best that any of the first `n` columns leaves the mover with, or a
/// score below any if none of them is open.
pub open spec fn outcome_upto(p: Position, n: int) -> int
    decreases p.room(), 0int, n,
{
    if n <= 0 || !p.ok() {
        no_score(p)
    } else {
        let rest = outcome_upto(p, n - 1);
        if p.open_at(n - 1) {
            proof {
                lemma_open_step(p, n - 1);
            }
            let worth = -outcome(p.play((n - 1) as u8));
            if worth > rest {
                worth
            } else {
                rest
            }
        } else {
            rest
        }
    }
}

/// What marks the best of the first `n` columns: it is no less than any open
/// column leaves, and it is what one of them leaves unless none is open.
pub proof fn lemma_outcome_best(p: Position, n: int)
    requires
        p.ok(),
        0 <= n <= p.width,
    ensures
        forall|c: int| 0 <= c < n && p.open_at(c) ==> outcome_upto(p, n) >= #[trigger] p.outcome_of(c),
        outcome_upto(p, n) == no_score(p) || exists|c: int| 0 <= c < n && p.open_at(c) && outcome_upto(p, n) == #[trigger] p.outcome_of(c),
    decreases n,
{
    if n > 0 {
        lemma_outcome_best(p, n - 1);
        let rest = outcome_upto(p, n - 1);
        if p.open_at(n - 1) {
            let worth = p.outcome_of(n - 1);
            if worth > rest {
                assert(outcome_upto(p, n) == worth);
            } else {
                assert(outcome_upto(p, n) == rest);
            }
        } else {
            assert(outcome_upto(p, n) == rest);
        }
        if outcome_upto(p, n) != no_score(p) {
            if outcome_upto(p, n) == rest {
                let c = choose|c: int| 0 <= c < n - 1 && p.open_at(c) && rest == #[trigger] p.outcome_of(c);
                assert(0 <= c < n && p.open_at(c) && outcome_upto(p, n) == p.outcome_of(c));
            } else {
                assert(p.open_at(n - 1) && outcome_upto(p, n) == p.outcome_of(n - 1));
            }
        }
    }
}

/// The score that the search works with is the score of the game as it is
/// played: counting a double threat of the other side as lost, and leaving
/// out the moves that hand the other side a win, changes no score.
pub proof fn lemma_value_is_outcome(p: Position)
    requires
        p.ok(),
    ensures
        value(p) == outcome(p),
    decreases p.room(),
{
    let w = p.width;
    let h = p.height;
    let v = p.fresh();
    let total = w * h;
    let used = stones_of(p.mask, w, h);
    lemma_position_bounds(p.player, p.mask, w, h);
    lemma_stones_left(total, used);
    lemma_value_range(p);
    let lines = wins_of(p.player ^ p.mask, h);
    if p.wins_now() {
    } else if p.full() {
        assert(!v.is_lost()) by {
            if v.is_lost() {
                lemma_some_burden(p);
            }
        }
    } else {
        lemma_some_column(p.mask, w, h);
        lemma_outcome_best(p, w as int);
        let b = outcome_upto(p, w as int);
        let open: int = if p.open_at(0) {
            0
        } else if p.open_at(1) {
            1
        } else if p.open_at(2) {
            2
        } else if p.open_at(3) {
            3
        } else if p.open_at(4) {
            4
        } else if p.open_at(5) {
            5
        } else if p.open_at(6) {
            6
        } else {
            7
        };
        assert(0 <= open < w && p.open_at(open));
        assert forall|c: int| 0 <= c < w && p.open_at(c) implies p.outcome_of(c) >= p.low() && (!p.candidate(c)
            ==> p.outcome_of(c) == p.low()) && (p.candidate(c) && !v.is_lost() ==> p.outcome_of(c) == p.worth(c)) by {
            let q = p.play(c as u8);
            lemma_open_step(p, c);
            lemma_value_is_outcome(q);
            lemma_value_range(q);
            lemma_stones_left(total, used + 1);
            lemma_threat_stays(lines, p.mask, c as u8, w, h);
            if v.is_lost() || !p.candidate(c) {
                assert(q.wins_now());
            }
        }
        assert(b >= p.outcome_of(open));
        assert(b != no_score(p));
        if v.is_lost() {
            let c = choose|c: int| 0 <= c < w && p.open_at(c) && b == #[trigger] p.outcome_of(c);
            assert(p.outcome_of(c) == p.low()) by {
                let q = p.play(c as u8);
                lemma_open_step(p, c);
                lemma_stones_left(total, used + 1);
                lemma_threat_stays(lines, p.mask, c as u8, w, h);
                assert(q.wins_now());
            }
        } else {
            lemma_best(p, w as int);
            let a = best_upto(p, w as int);
            assert forall|c: int| 0 <= c < w && p.candidate(c) implies p.open_at(c) by {
                lemma_candidate_playable(p.player, p.mask, c as u8, w, h);
            }
            if a != p.low() {
                let c = choose|c: int| 0 <= c < w && p.candidate(c) && a == #[trigger] p.worth(c);
                assert(p.open_at(c));
                assert(b >= p.outcome_of(c));
            }
            let d = choose|d: int| 0 <= d < w && p.open_at(d) && b == #[trigger] p.outcome_of(d);
            if p.candidate(d) {
                assert(a >= p.worth(d));
            }
        }
    }
}

/// Where the other side threatens, a move is on offer.
proof fn lemma_some_burden(p: Position)
    requires
        p.ok(),
        p.fresh().is_lost(),
    ensures
        !p.full(),
{
    lemma_position_bounds(p.player, p.mask, p.width, p.height);
    crate::rules::lemma_options_within_moves(
        crate::rules::opponent_wins_of(p.player, p.mask, p.width, p.height),
        crate::rules::moves_of(p.mask, p.width, p.height),
        0,
    );
}

} // verus!
