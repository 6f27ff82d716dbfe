//! The score of a position under best play by both sides.

use vstd::prelude::*;
use crate::game::bound::{lemma_stones_left, StateResult};
use crate::game::state::StateView;
use crate::masks::{board_of, bottom_of, fits, flip_of, lemma_flip_key, lemma_flip_stones};
use crate::mirror::{
    lemma_flip_move, lemma_flip_moves, lemma_flip_options, lemma_flip_packed, lemma_flip_position,
    lemma_flip_sum, lemma_flip_wins, lemma_sides_on_board,
};
use crate::rules::{
    candidate_at, key_of, lemma_candidate_playable, lemma_packed, lemma_play, lemma_play_stones,
    lemma_position_bounds, moves_of, packed_of, my_wins_of, opponent_wins_of, options_of, played_mask, played_player, position_ok,
    stones_of,
};

verus! {

/// A position without its history.
pub struct Position {
    pub width: u8,
    pub height: u8,
    /// Stones of the side to move.
    pub player: u64,
    /// Stones of both sides.
    pub mask: u64,
}

impl StateView {
    /// The position, without the history.
    pub open spec fn position(self) -> Position {
        Position { width: self.width, height: self.height, player: self.player, mask: self.mask }
    }
}

impl Position {
    /// Whether the board fits and the bitboards form a position.
    pub open spec fn ok(self) -> bool {
        fits(self.width, self.height) && position_ok(self.player, self.mask, self.width, self.height)
    }

    /// The position with an empty history.
    pub open spec fn fresh(self) -> StateView {
        StateView {
            width: self.width,
            height: self.height,
            player: self.player,
            mask: self.mask,
            history: Seq::<u8>::empty(),
        }
    }

    /// Number of empty cells, as far as the stones are on the board.
    pub open spec fn room(self) -> int {
        board_of(self.width, self.height) - self.mask
    }

    /// What the stones left say about the position.
    pub open spec fn bound(self) -> StateResult {
        self.fresh().bound()
    }

    /// The least score that the stones left allow: minus the other side's stones.
    pub open spec fn low(self) -> int {
        -self.fresh().opponent_left()
    }

    /// The highest score that the stones left allow: the mover's stones.
    pub open spec fn high(self) -> int {
        self.fresh().my_left()
    }

    /// Whether the search considers column `col`.
    pub open spec fn candidate(self, col: int) -> bool {
        candidate_at(self.player, self.mask, col, self.width, self.height)
    }

    /// The position after a stone was dropped into column `col`.
    pub open spec fn play(self, col: u8) -> Position {
        Position {
            player: played_player(self.player, self.mask),
            mask: played_mask(self.mask, col, self.height),
            ..self
        }
    }

    /// What the move into column `col` is worth to the mover.
    pub open spec fn worth(self, col: int) -> int
        recommends
            self.ok(),
            self.candidate(col),
    {
        -value(self.play(col as u8))
    }
}

/// A move that the search considers leads to a position with less room.
pub proof fn lemma_candidate_step(p: Position, col: int)
    requires
        p.ok(),
        p.candidate(col),
    ensures
        p.play(col as u8).ok(),
        0 <= p.play(col as u8).room() < p.room(),
        stones_of(p.play(col as u8).mask, p.width, p.height) == stones_of(p.mask, p.width, p.height) + 1,
        stones_of(p.mask, p.width, p.height) < p.width * p.height,
{
    lemma_candidate_playable(p.player, p.mask, col as u8, p.width, p.height);
    lemma_play(p.player, p.mask, p.width, p.height, col as u8);
    lemma_play_stones(p.player, p.mask, p.width, p.height, col as u8);
    let q = p.play(col as u8);
    lemma_position_bounds(q.player, q.mask, q.width, q.height);
}

/// The score of a position for the side to move when both sides play their
/// best: what the stones left say if the position is decided at once, else
/// the best of what the moves are worth, each being minus the score of the
/// position it leads to, and no less than the least score the stones allow.
pub open spec fn value(p: Position) -> int
    decreases p.room(), 1int, 0int,
{
    match p.bound() {
        StateResult::Immediate(v) => v as int,
        StateResult::Bounds(_) => best_upto(p, p.width as int),
    }
}

/// The best of what the moves into the first `n` columns are worth, and no
/// less than the least score the stones allow.
pub open spec fn best_upto(p: Position, n: int) -> int
    decreases p.room(), 0int, n,
{
    if n <= 0 || !p.ok() {
        p.low()
    } else {
        let rest = best_upto(p, n - 1);
        if p.candidate(n - 1) {
            proof {
                lemma_candidate_step(p, n - 1);
            }
            let worth = -value(p.play((n - 1) as u8));
            if worth > rest {
                worth
            } else {
                rest
            }
        } else {
            rest
        }
    }
}

/// What marks the best of the first `n` moves: it is no less than the least
/// score, no less than any of the moves is worth, and it is the least score
/// or what one of the moves is worth.
pub proof fn lemma_best(p: Position, n: int)
    requires
        p.ok(),
        0 <= n <= p.width,
    ensures
        best_upto(p, n) >= p.low(),
        forall|c: int| 0 <= c < n && p.candidate(c) ==> best_upto(p, n) >= #[trigger] p.worth(c),
        best_upto(p, n) == p.low() || exists|c: int| 0 <= c < n && p.candidate(c) && best_upto(p, n) == #[trigger] p.worth(c),
    decreases n,
{
    if n > 0 {
        lemma_best(p, n - 1);
        let rest = best_upto(p, n - 1);
        if p.candidate(n - 1) {
            let worth = p.worth(n - 1);
            if worth > rest {
                assert(best_upto(p, n) == worth);
            } else {
                assert(best_upto(p, n) == rest);
            }
        } else {
            assert(best_upto(p, n) == rest);
        }
        if best_upto(p, n) != p.low() {
            if best_upto(p, n) == rest {
                let c = choose|c: int| 0 <= c < n - 1 && p.candidate(c) && rest == #[trigger] p.worth(c);
                assert(0 <= c < n && p.candidate(c) && best_upto(p, n) == p.worth(c));
            } else {
                assert(p.candidate(n - 1) && best_upto(p, n) == p.worth(n - 1));
            }
        }
    }
}

/// The score of a position lies within what the stones left allow.
pub proof fn lemma_value_range(p: Position)
    requires
        p.ok(),
    ensures
        p.low() <= value(p) <= p.high(),
        -(p.width * p.height) <= p.low() <= 0,
        0 <= p.high() <= p.width * p.height,
        p.bound() is Bounds ==> p.low() < p.high(),
    decreases p.room(),
{
    let total = p.width * p.height;
    let used = stones_of(p.mask, p.width, p.height);
    lemma_position_bounds(p.player, p.mask, p.width, p.height);
    lemma_stones_left(total, used);
    match p.bound() {
        StateResult::Immediate(v) => {},
        StateResult::Bounds(_) => {
            lemma_best(p, p.width as int);
            let best = best_upto(p, p.width as int);
            if best != p.low() {
                let c = choose|c: int| 0 <= c < p.width && p.candidate(c) && best == #[trigger] p.worth(c);
                lemma_candidate_step(p, c);
                lemma_value_range(p.play(c as u8));
            }
        },
    }
}

impl Position {
    /// The position seen in a mirror: column `i` in the place of column `width - 1 - i`.
    pub open spec fn mirror(self) -> Position {
        Position {
            player: flip_of(self.player, self.width, self.height),
            mask: flip_of(self.mask, self.width, self.height),
            ..self
        }
    }
}

/// The mirror image of a position is a position with the same stones left
/// and the same verdict, in which the search considers the counterparts of
/// the columns it considers in the position, and whose moves lead to the
/// mirror images of the positions that the position's moves lead to.
pub proof fn lemma_mirror_step(p: Position)
    requires
        p.ok(),
    ensures
        p.mirror().ok(),
        p.mirror().mirror() == p,
        p.mirror().bound() == p.bound(),
        p.mirror().low() == p.low(),
        forall|c: int| 0 <= c < p.width ==> (#[trigger] p.mirror().candidate(p.width - 1 - c) <==> p.candidate(c)),
        forall|c: int| 0 <= c < p.width && p.candidate(c) ==> #[trigger] p.mirror().play((p.width - 1 - c) as u8) == p.play(c as u8).mirror(),
{
    let w = p.width;
    let h = p.height;
    let m = p.mirror();
    lemma_flip_position(p.player, p.mask, w, h);
    lemma_sides_on_board(p.player, p.mask, w, h);
    lemma_flip_moves(p.mask, w, h);
    lemma_flip_sum(p.mask, w, h);
    lemma_flip_stones((p.mask + bottom_of(w, h)) as u64, w, h);
    lemma_flip_wins(p.player, p.mask, w, h);
    lemma_flip_wins(p.player ^ p.mask, p.mask, w, h);
    let moves = moves_of(p.mask, w, h);
    let mine = my_wins_of(p.player, p.mask, w, h);
    let threats = opponent_wins_of(p.player, p.mask, w, h);
    lemma_flip_options(moves, mine, w, h);
    lemma_flip_options(moves, threats, w, h);
    assert(moves_of(m.mask, w, h) == flip_of(moves, w, h));
    assert(my_wins_of(m.player, m.mask, w, h) == flip_of(mine, w, h));
    assert(opponent_wins_of(m.player, m.mask, w, h) == flip_of(threats, w, h));
    assert(stones_of(m.mask, w, h) == stones_of(p.mask, w, h));
    assert(m.bound() == p.bound());
    let options = options_of(p.player, p.mask, w, h);
    assert(options_of(m.player, m.mask, w, h) == flip_of(options, w, h));
    assert(options & !board_of(w, h) == 0);
    assert forall|c: int| 0 <= c < w implies (#[trigger] m.candidate(w - 1 - c) <==> p.candidate(c)) by {
        lemma_flip_move(p.mask, options, c as u8, w, h);
    }
    assert forall|c: int| 0 <= c < w && p.candidate(c) implies #[trigger] m.play((w - 1 - c) as u8) == p.play(c as u8).mirror() by {
        lemma_flip_move(p.mask, options, c as u8, w, h);
    }
}

/// A position and its mirror image have the same score.
pub proof fn lemma_mirror_value(p: Position)
    requires
        p.ok(),
    ensures
        value(p.mirror()) == value(p),
    decreases p.room(),
{
    let m = p.mirror();
    let w = p.width as int;
    lemma_mirror_step(p);
    lemma_mirror_step(m);
    match p.bound() {
        StateResult::Immediate(v) => {},
        StateResult::Bounds(_) => {
            lemma_best(p, w);
            lemma_best(m, w);
            let a = best_upto(p, w);
            let b = best_upto(m, w);
            assert forall|c: int| 0 <= c < w && p.candidate(c) implies m.candidate(w - 1 - c) && m.worth(w - 1 - c) == p.worth(c) by {
                lemma_candidate_step(p, c);
                lemma_mirror_value(p.play(c as u8));
                assert(m.play((w - 1 - c) as u8) == p.play(c as u8).mirror());
            }
            if a != p.low() {
                let c = choose|c: int| 0 <= c < w && p.candidate(c) && a == #[trigger] p.worth(c);
                assert(m.candidate(w - 1 - c) && m.worth(w - 1 - c) == p.worth(c));
                assert(b >= m.worth(w - 1 - c));
            }
            if b != m.low() {
                let d = choose|d: int| 0 <= d < w && m.candidate(d) && b == #[trigger] m.worth(d);
                let c = w - 1 - d;
                assert(m.candidate(w - 1 - c));
                assert(p.candidate(c));
                assert(m.worth(w - 1 - c) == p.worth(c));
                assert(a >= p.worth(c));
            }
        },
    }
}

impl Position {
    /// The position's key.
    pub open spec fn key(self) -> u64 {
        key_of(self.player, self.mask, self.width, self.height)
    }
}

/// What the stones left say about a position does not depend on its history.
pub proof fn lemma_bound_of_position(v: StateView)
    ensures
        v.position().bound() == v.bound(),
        v.position().key() == v.key(),
        v.position().ok() == (fits(v.width, v.height) && position_ok(v.player, v.mask, v.width, v.height)),
{
}

/// Two positions of one board with the same key are the same position or
/// mirror images of each other, and have the same score.
pub proof fn lemma_same_key(p: Position, q: Position)
    requires
        p.ok(),
        q.ok(),
        p.width == q.width,
        p.height == q.height,
        p.key() == q.key(),
    ensures
        q == p || q == p.mirror(),
        value(q) == value(p),
{
    let w = p.width;
    let h = p.height;
    let pp = packed_of(p.player, p.mask, w, h);
    let qq = packed_of(q.player, q.mask, w, h);
    let m = p.mirror();
    lemma_packed(p.player, p.mask, w, h);
    lemma_packed(q.player, q.mask, w, h);
    lemma_flip_key(pp, w, h);
    lemma_flip_key(qq, w, h);
    lemma_mirror_step(p);
    lemma_flip_packed(p.player, p.mask, w, h);
    lemma_packed(m.player, m.mask, w, h);
    lemma_mirror_value(p);
    if qq == pp {
        assert(q.mask == p.mask && q.player == p.player);
    } else {
        assert(qq == flip_of(pp, w, h));
        assert(qq == packed_of(m.player, m.mask, w, h));
        assert(q.mask == m.mask && q.player == m.player);
    }
}

} // verus!
