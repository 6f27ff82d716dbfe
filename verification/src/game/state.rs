//! A position in play: the two bitboards and the moves that led to them.

use vstd::prelude::*;
use crate::error::GameError;
use crate::game::Connect4;
use crate::masks::{col_bottom_of, col_cells_of, fits, get_winning_mask};
use crate::rules::{
    can_play_at, empty_of, key_of, legal_at, lemma_moves_by_column, lemma_packed, lemma_play,
    lemma_play_stones, lemma_position_bounds, lemma_unplay, lemma_unplay_stones, move_bit_of,
    moves_of, my_wins_of, opponent_wins_of, played_mask, played_player, position_ok, stones_of,
    unplayed_mask, unplayed_player, wins_at, bit_count_of, candidate_at, lemma_bit_count_bound,
    lemma_bit_count_step, lemma_options_within_moves, options_of, score_of,
};
use crate::order::{lemma_search_order, ordered_moves};
use crate::GameState;

verus! {

/// Whether every move of `history`, taken back in turn, finds a stone in its column.
pub open spec fn history_ok(player: u64, mask: u64, history: Seq<u8>, width: u8, height: u8) -> bool
    decreases history.len(),
{
    if history.len() == 0 {
        true
    } else {
        let col = history.last();
        &&& col < width
        &&& mask & col_bottom_of(col, height) != 0
        &&& history_ok(
            unplayed_player(player, mask, col, height),
            unplayed_mask(mask, col, height),
            history.drop_last(),
            width,
            height,
        )
    }
}

/// Every move of a history that can be undone is a column of the board.
pub proof fn lemma_history_columns(player: u64, mask: u64, history: Seq<u8>, width: u8, height: u8)
    requires
        history_ok(player, mask, history, width, height),
    ensures
        forall|j: int| 0 <= j < history.len() ==> history[j] < width,
    decreases history.len(),
{
    if history.len() > 0 {
        let col = history.last();
        lemma_history_columns(
            unplayed_player(player, mask, col, height),
            unplayed_mask(mask, col, height),
            history.drop_last(),
            width,
            height,
        );
        assert forall|j: int| 0 <= j < history.len() implies history[j] < width by {
            if j < history.len() - 1 {
                assert(history.drop_last()[j] == history[j]);
            }
        }
    }
}

/// What a position is, apart from how it is stored.
pub struct StateView {
    pub width: u8,
    pub height: u8,
    /// Stones of the side to move.
    pub player: u64,
    /// Stones of both sides.
    pub mask: u64,
    /// Columns played since the position was set up, oldest first.
    pub history: Seq<u8>,
}

impl StateView {
    /// Whether the board fits, the bitboards form a position, and the history can be undone.
    pub open spec fn ok(self) -> bool {
        &&& fits(self.width, self.height)
        &&& position_ok(self.player, self.mask, self.width, self.height)
        &&& history_ok(self.player, self.mask, self.history, self.width, self.height)
    }

    /// Number of stones on the board.
    pub open spec fn plies(self) -> int {
        stones_of(self.mask, self.width, self.height)
    }

    /// Whether `play` accepts column `col`.
    pub open spec fn legal(self, col: int) -> bool {
        legal_at(self.player, self.mask, col, self.width, self.height)
    }

    /// The position after a stone was dropped into column `col`.
    pub open spec fn play(self, col: u8) -> StateView {
        StateView {
            player: played_player(self.player, self.mask),
            mask: played_mask(self.mask, col, self.height),
            history: self.history.push(col),
            ..self
        }
    }

    /// The position after the last move was taken back.
    pub open spec fn unplay(self) -> StateView {
        let col = self.history.last();
        StateView {
            player: unplayed_player(self.player, self.mask, col, self.height),
            mask: unplayed_mask(self.mask, col, self.height),
            history: self.history.drop_last(),
            ..self
        }
    }

    /// The position's key.
    pub open spec fn key(self) -> u64 {
        key_of(self.player, self.mask, self.width, self.height)
    }

    /// The lowest empty cell of every column that is not full.
    pub open spec fn moves(self) -> u64 {
        moves_of(self.mask, self.width, self.height)
    }

    /// The empty cells that would complete four in a row for the side to move.
    pub open spec fn my_wins(self) -> u64 {
        my_wins_of(self.player, self.mask, self.width, self.height)
    }

    /// The empty cells that would complete four in a row for the other side.
    pub open spec fn opponent_wins(self) -> u64 {
        opponent_wins_of(self.player, self.mask, self.width, self.height)
    }
}

/// A legal move leads to a position, and taking it back restores the
/// bitboards and the history exactly.
pub proof fn lemma_play_then_unplay(v: StateView, col: u8)
    requires
        v.ok(),
        v.legal(col as int),
    ensures
        v.play(col).ok(),
        v.play(col).plies() == v.plies() + 1,
        v.play(col).history.len() > 0,
        v.play(col).unplay() == v,
{
    lemma_play(v.player, v.mask, v.width, v.height, col);
    lemma_play_stones(v.player, v.mask, v.width, v.height, col);
    let w = v.play(col);
    assert(w.history.last() == col);
    assert(w.history.drop_last() =~= v.history);
}

/// Taking back a move of a position's history leads to a position with one stone less.
pub proof fn lemma_unplay_ok(v: StateView)
    requires
        v.ok(),
        v.history.len() > 0,
    ensures
        v.unplay().ok(),
        v.unplay().plies() == v.plies() - 1,
{
    let col = v.history.last();
    lemma_unplay(v.player, v.mask, v.width, v.height, col);
    lemma_unplay_stones(v.player, v.mask, v.width, v.height, col);
}

/// A position of the game with the moves that can be taken back.
pub struct State {
    game: Connect4,
    player: u64,
    mask: u64,
    moves: Vec<u8>,
    moves_num: usize,
}

impl View for State {
    type V = StateView;

    closed spec fn view(&self) -> StateView {
        StateView {
            width: self.game.width(),
            height: self.game.height(),
            player: self.player,
            mask: self.mask,
            history: self.moves@,
        }
    }
}

impl State {
    /// Whether the stored board and stone count agree with what the position shows.
    pub closed spec fn consistent(&self) -> bool {
        &&& self.game.wf()
        &&& self.moves_num == stones_of(self.mask, self.game.width(), self.game.height())
    }

    /// Whether this is a position of its board.
    pub open spec fn wf(&self) -> bool {
        self@.ok() && self.consistent()
    }

    /// The board that the position belongs to.
    pub closed spec fn spec_game(&self) -> Connect4 {
        self.game
    }

    /// A position of `game` with the given bitboards and no history.
    pub fn new(game: Connect4, player: u64, mask: u64, moves_num: usize) -> (s: Self)
        requires
            game.wf(),
            position_ok(player, mask, game.width(), game.height()),
            moves_num == stones_of(mask, game.width(), game.height()),
        ensures
            s.wf(),
            s.spec_game() == game,
            s@ == (StateView {
                width: game.width(),
                height: game.height(),
                player,
                mask,
                history: Seq::<u8>::empty(),
            }),
    {
        let len = game.total_stones() as usize;
        State { game, player, mask, moves: Vec::with_capacity(len), moves_num }
    }

    /// The board that the position belongs to.
    #[verifier::when_used_as_spec(spec_game)]
    pub fn game(&self) -> (g: Connect4)
        ensures
            g == self.spec_game(),
            self.wf() ==> g.wf() && g.width() == self@.width && g.height() == self@.height,
    {
        self.game
    }

    /// The columns played since the position was set up, oldest first.
    pub fn history(&self) -> (moves: &Vec<u8>)
        requires
            self.wf(),
        ensures
            moves@ == self@.history,
            forall|j: int| 0 <= j < moves.len() ==> moves[j] < self@.width,
    {
        proof {
            lemma_history_columns(self@.player, self@.mask, self@.history, self@.width, self@.height);
        }
        &self.moves
    }

    /// The stones of the side to move.
    pub fn player_bits(&self) -> (r: u64)
        ensures
            r == self@.player,
    {
        self.player
    }

    /// The stones of both sides.
    pub fn mask_bits(&self) -> (r: u64)
        ensures
            r == self@.mask,
    {
        self.mask
    }

    /// Number of stones on the board.
    pub fn len(&self) -> (n: usize)
        requires
            self.wf(),
        ensures
            n == self@.plies(),
            n <= self@.width * self@.height,
    {
        proof {
            lemma_position_bounds(self.player, self.mask, self.game.width(), self.game.height());
        }
        self.moves_num
    }

    /// The lowest empty cell of every column that is not full.
    pub fn possible_moves_mask(&self) -> (r: u64)
        requires
            self.wf(),
        ensures
            r == self@.moves(),
    {
        proof {
            lemma_position_bounds(self.player, self.mask, self.game.width(), self.game.height());
        }
        (self.mask + *self.game.mask_bottom()) & *self.game.mask_full()
    }

    /// The empty cells of the board.
    pub fn empty_space_mask(&self) -> (r: u64)
        requires
            self.wf(),
        ensures
            r == empty_of(self@.mask, self@.width, self@.height),
    {
        *self.game.mask_full() ^ self.mask
    }

    /// The empty cells that would complete four in a row for the side to move.
    pub fn me_winning_mask(&self) -> (r: u64)
        requires
            self.wf(),
        ensures
            r == self@.my_wins(),
    {
        let h = self.game.height();
        get_winning_mask(&self.player, &h) & self.empty_space_mask()
    }

    /// The empty cells that would complete four in a row for the other side.
    pub fn opponent_winning_mask(&self) -> (r: u64)
        requires
            self.wf(),
        ensures
            r == self@.opponent_wins(),
    {
        let opponent = self.player ^ self.mask;
        let h = self.game.height();
        get_winning_mask(&opponent, &h) & self.empty_space_mask()
    }

    /// Whether a stone dropped into column `a` completes four in a row for the side to move.
    pub fn is_winning_action(&self, a: u16) -> (r: bool)
        requires
            self.wf(),
            a < self@.width,
        ensures
            r == wins_at(self@.player, self@.mask, a as u8, self@.width, self@.height),
    {
        let col = a as u8;
        self.me_winning_mask() & self.possible_moves_mask() & self.game.mask_col(col) > 0
    }

    /// The ordering score of a move into column `a`.
    pub fn heuristic_action_score(&self, a: u16) -> (r: u16)
        requires
            self.wf(),
            a < self@.width,
        ensures
            r == score_of(self@.player, self@.mask, a as u8, self@.width, self@.height),
    {
        let col = a as u8;
        let move_mask = self.possible_moves_mask() & self.game.mask_col(col);
        let stones = self.player | move_mask;
        let h = self.game.height();
        let winning = get_winning_mask(&stones, &h) & self.empty_space_mask();
        let h_w = self.game.width() as i16 / 2;
        let col_i16 = col as i16;
        let count = bit_count(&winning) as u16;
        let away = if col_i16 >= h_w { col_i16 - h_w } else { h_w - col_i16 };
        assert(count * (h_w + 1) <= 320) by (nonlinear_arith)
            requires
                count <= 64,
                0 <= h_w <= 4,
        ;
        count * (h_w + 1) as u16 + (h_w - away) as u16
    }

    /// The columns worth searching, best first: none if the other side
    /// threatens two cells at once, only the threatened column if it
    /// threatens one, never a column whose stone would let the other side
    /// win right above it. The order is by falling score, and from left to
    /// right among equal scores.
    pub fn nonlosing_moves_sorted(&self) -> (res: Vec<u16>)
        requires
            self.wf(),
        ensures
            forall|c: u16| res@.contains(c) <==> candidate_at(self@.player, self@.mask, c as int, self@.width, self@.height),
            forall|i: int, j: int| 0 <= i < j < res.len() ==> before_in_order(self@, res[i], res[j]),
            res@ == ordered_moves(self@.position()),
    {
        let len: usize = self.game.width() as usize;
        let mut res: Vec<u16> = Vec::with_capacity(len);
        let mut scores: Vec<u16> = Vec::with_capacity(len);

        let mut options = self.possible_moves_mask();
        let opponent_winning = self.opponent_winning_mask();
        let opponent_winning_next = opponent_winning & options;

        if opponent_winning_next > 0 && (opponent_winning_next & (opponent_winning_next - 1)) > 0 {
            proof {
                assert forall|c: u16| !candidate_at(self@.player, self@.mask, c as int, self@.width, self@.height) by {
                    if c < self@.width {
                        lemma_options_within_moves(col_cells_of(c as u8, self@.height), 0, 0);
                    }
                }
                lemma_search_order(self@.position(), res@);
            }
            return res;
        } else if opponent_winning_next > 0 {
            options &= opponent_winning_next;
        }
        options &= !(opponent_winning >> 1);
        assert(options == options_of(self@.player, self@.mask, self@.width, self@.height));

        let w = self.game.width() as u16;
        for col in 0..w
            invariant
                self.wf(),
                w == self@.width,
                options == options_of(self@.player, self@.mask, self@.width, self@.height),
                res.len() == scores.len(),
                forall|k: int| 0 <= k < res.len() ==> #[trigger] res[k] < col,
                forall|k: int| 0 <= k < res.len() ==> #[trigger] scores[k] == score_of(self@.player, self@.mask, res[k] as u8, self@.width, self@.height),
                forall|c: u16| res@.contains(c) <==> c < col && candidate_at(self@.player, self@.mask, c as int, self@.width, self@.height),
                forall|i: int, j: int| 0 <= i < j < res.len() ==> before_in_order(self@, res[i], res[j]),
        {
            if (self.game.mask_col(col as u8) & options) > 0 {
                let ghost before = res@;
                let ghost before_scores = scores@;
                let score = self.heuristic_action_score(col);
                proof {
                    assert forall|i: int, j: int| 0 <= i < j < scores.len() implies scores[i] >= scores[j] by {
                        assert(before_in_order(self@, res[i], res[j]));
                    }
                }
                let at = insert_by_score(&mut res, &mut scores, col, score);
                proof {
                    assert forall|k: int| 0 <= k < res.len() implies #[trigger] res[k] < col + 1 && #[trigger] scores[k] == score_of(
                        self@.player,
                        self@.mask,
                        res[k] as u8,
                        self@.width,
                        self@.height,
                    ) by {
                        if k < at {
                            assert(res[k] == before[k] && scores[k] == before_scores[k]);
                        } else if k > at {
                            assert(res[k] == before[k - 1] && scores[k] == before_scores[k - 1]);
                        }
                    }
                    assert forall|i: int, j: int| 0 <= i < j < res.len() implies before_in_order(
                        self@,
                        res[i],
                        res[j],
                    ) by {
                        if i == at {
                            assert(res[j] == before[j - 1] && scores[j] == before_scores[j - 1]);
                        } else if j == at {
                            assert(res[i] == before[i] && scores[i] == before_scores[i]);
                        } else {
                            let oi = if i < at { i } else { i - 1 };
                            let oj = if j < at { j } else { j - 1 };
                            assert(res[i] == before[oi] && res[j] == before[oj]);
                            assert(before_in_order(self@, before[oi], before[oj]));
                        }
                    }
                    assert forall|c: u16| #[trigger] res@.contains(c) <==> (before.contains(c) || c == col) by {
                        if before.contains(c) {
                            let k = choose|k: int| 0 <= k < before.len() && before[k] == c;
                            if k < at {
                                assert(res@[k] == c);
                            } else {
                                assert(res@[k + 1] == c);
                            }
                        }
                        if c == col {
                            assert(res@[at as int] == c);
                        }
                        if res@.contains(c) {
                            let k = choose|k: int| 0 <= k < res@.len() && res@[k] == c;
                            if k < at {
                                assert(before[k] == c);
                            } else if k > at {
                                assert(before[k - 1] == c);
                            }
                        }
                    }
                }
            }
        }
        proof {
            assert forall|i: int, j: int| 0 <= i < j < res@.len() implies before_in_order(
                self@.position().fresh(),
                #[trigger] res@[i],
                #[trigger] res@[j],
            ) by {
                assert(before_in_order(self@, res[i], res[j]));
            }
            lemma_search_order(self@.position(), res@);
        }
        res
    }

    /// Plays the columns of `moves` in turn and stops at the first that is refused.
    pub fn play_multiple(&mut self, moves: &Vec<u16>) -> (r: Result<(), GameError>)
        requires
            old(self).wf(),
        ensures
            final(self).wf(),
            final(self).spec_game() == old(self).spec_game(),
            final(self)@.width == old(self)@.width,
            final(self)@.height == old(self)@.height,
            match r {
                Ok(()) => replay_ok(old(self)@, moves@) && final(self)@ == replay(old(self)@, moves@),
                Err(e) => {
                    &&& e == GameError::InvalidMove
                    &&& !replay_ok(old(self)@, moves@)
                    &&& stopped_at(old(self)@, moves@, final(self)@.history.len() - old(self)@.history.len())
                    &&& final(self)@ == replay(
                        old(self)@,
                        moves@.take(final(self)@.history.len() - old(self)@.history.len()),
                    )
                },
            },
    {
        let mut i: usize = 0;
        while i < moves.len()
            invariant
                i <= moves.len(),
                self.wf(),
                self.spec_game() == old(self).spec_game(),
                self@.width == old(self)@.width,
                self@.height == old(self)@.height,
                replay_ok(old(self)@, moves@.take(i as int)),
                self@ == replay(old(self)@, moves@.take(i as int)),
            decreases moves.len() - i,
        {
            let a = moves[i];
            proof {
                assert(moves@.take(i + 1).drop_last() =~= moves@.take(i as int));
                assert(moves@.take(i + 1).last() == a);
            }
            match self.play(a) {
                Ok(()) => {},
                Err(e) => {
                    proof {
                        lemma_replay_prefix(old(self)@, moves@, i + 1);
                        lemma_replay_history(old(self)@, moves@.take(i as int));
                    }
                    return Err(e);
                },
            }
            i += 1;
        }
        assert(moves@.take(i as int) =~= moves@);
        Ok(())
    }
}

/// Whether every column of `moves`, played in turn from `v`, is accepted.
pub open spec fn replay_ok(v: StateView, moves: Seq<u16>) -> bool
    decreases moves.len(),
{
    if moves.len() == 0 {
        true
    } else {
        replay_ok(v, moves.drop_last()) && replay(v, moves.drop_last()).legal(moves.last() as int)
    }
}

/// The position after the columns of `moves` were played in turn from `v`.
pub open spec fn replay(v: StateView, moves: Seq<u16>) -> StateView
    decreases moves.len(),
{
    if moves.len() == 0 {
        v
    } else {
        replay(v, moves.drop_last()).play(moves.last() as u8)
    }
}

/// Playing moves changes neither the board's size nor, if each move is
/// accepted, that the position is in order.
pub proof fn lemma_replay_board(v: StateView, moves: Seq<u16>)
    ensures
        replay(v, moves).width == v.width,
        replay(v, moves).height == v.height,
        v.ok() && replay_ok(v, moves) ==> replay(v, moves).ok(),
    decreases moves.len(),
{
    if moves.len() > 0 {
        lemma_replay_board(v, moves.drop_last());
        if v.ok() && replay_ok(v, moves) {
            lemma_play_then_unplay(replay(v, moves.drop_last()), moves.last() as u8);
        }
    }
}

/// Whether the first `k` columns of `moves`, played in turn from `v`, are
/// accepted and the next one is refused.
pub open spec fn stopped_at(v: StateView, moves: Seq<u16>, k: int) -> bool {
    &&& 0 <= k < moves.len()
    &&& replay_ok(v, moves.take(k))
    &&& !replay(v, moves.take(k)).legal(moves[k] as int)
}

/// Each move played adds one column to the history.
pub proof fn lemma_replay_history(v: StateView, moves: Seq<u16>)
    ensures
        replay(v, moves).history.len() == v.history.len() + moves.len(),
    decreases moves.len(),
{
    if moves.len() > 0 {
        lemma_replay_history(v, moves.drop_last());
    }
}

/// A sequence with a refused beginning is refused.
pub proof fn lemma_replay_prefix(v: StateView, moves: Seq<u16>, n: int)
    requires
        0 <= n <= moves.len(),
        !replay_ok(v, moves.take(n)),
    ensures
        !replay_ok(v, moves),
    decreases moves.len(),
{
    if n < moves.len() {
        assert(moves.drop_last().take(n) =~= moves.take(n));
        lemma_replay_prefix(v, moves.drop_last(), n);
    } else {
        assert(moves.take(n) =~= moves);
    }
}

impl GameState for State {
    open spec fn valid(&self) -> bool {
        self.wf()
    }

    /// Whether column `a` is on the board and not full.
    fn can_play(&self, a: u16) -> (r: bool)
        ensures
            r == can_play_at(self@.mask, a as int, self@.width, self@.height),
    {
        if a >= self.game.width() as u16 {
            return false;
        }
        self.mask & self.game.mask_col_top(a as u8) == 0
    }

    /// The columns that are not full, from left to right.
    fn possible_moves(&self) -> (res: Vec<u16>)
        ensures
            forall|i: int, j: int| 0 <= i < j < res.len() ==> res[i] < res[j],
            forall|c: u16| res@.contains(c) <==> can_play_at(self@.mask, c as int, self@.width, self@.height),
    {
        let options = self.possible_moves_mask();
        let mut res: Vec<u16> = Vec::with_capacity(self.game.width() as usize);
        let w = self.game.width();
        for col in 0..w
            invariant
                self.wf(),
                w == self@.width,
                options == self@.moves(),
                forall|i: int, j: int| 0 <= i < j < res.len() ==> res[i] < res[j],
                forall|i: int| 0 <= i < res.len() ==> res[i] < col,
                forall|c: u16| res@.contains(c) <==> c < col && can_play_at(self@.mask, c as int, self@.width, self@.height),
        {
            proof {
                lemma_moves_by_column(self.mask, w, self.game.height(), col);
            }
            let ghost before = res@;
            if (self.game.mask_col(col) & options) > 0 {
                res.push(col as u16);
                proof {
                    assert(res@ =~= before.push(col as u16));
                    assert forall|c: u16| #[trigger] res@.contains(c) <==> (before.contains(c) || c == col) by {
                        if before.contains(c) {
                            let k = choose|k: int| 0 <= k < before.len() && before[k] == c;
                            assert(res@[k] == c);
                        }
                        if c == col {
                            assert(res@[before.len() as int] == c);
                        }
                    }
                }
            }
        }
        res
    }

    /// Drops a stone of the side to move into column `a`, unless the column
    /// is off the board or full, or the stone would complete four in a row.
    fn play(&mut self, a: u16) -> (r: Result<(), GameError>)
        ensures
            final(self).spec_game() == old(self).spec_game(),
            match r {
                Ok(()) => old(self)@.legal(a as int) && final(self)@ == old(self)@.play(a as u8),
                Err(e) => e == GameError::InvalidMove && !old(self)@.legal(a as int) && final(self)@ == old(self)@,
            },
    {
        if !self.can_play(a) {
            return Err(GameError::InvalidMove);
        }
        if self.is_winning_action(a) {
            return Err(GameError::InvalidMove);
        }
        let col = a as u8;
        proof {
            lemma_play(self.player, self.mask, self.game.width(), self.game.height(), col);
            lemma_play_stones(self.player, self.mask, self.game.width(), self.game.height(), col);
            lemma_play_then_unplay(self@, col);
        }
        let move_mask = (self.mask + self.game.mask_col_bottom(col)) & self.game.mask_col(col);
        self.moves.push(col);
        self.player ^= self.mask;
        self.mask |= move_mask;
        self.moves_num += 1;
        Ok(())
    }

    /// Takes the last move back.
    fn unplay(&mut self) -> (r: Result<(), GameError>)
        ensures
            final(self).spec_game() == old(self).spec_game(),
            match r {
                Ok(()) => old(self)@.history.len() > 0 && final(self)@ == old(self)@.unplay(),
                Err(e) => e == GameError::EmptyHistory && old(self)@.history.len() == 0 && final(self)@ == old(self)@,
            },
    {
        proof {
            lemma_position_bounds(self.player, self.mask, self.game.width(), self.game.height());
        }
        if self.moves.len() == 0 {
            return Err(GameError::EmptyHistory);
        }
        proof {
            lemma_unplay_ok(self@);
            lemma_unplay(self.player, self.mask, self.game.width(), self.game.height(), self.moves@.last());
        }
        let col = match self.moves.pop() {
            Some(v) => v,
            None => { return Err(GameError::EmptyHistory); },
        };
        let stone_mask = ((self.mask & self.game.mask_col(col)) + self.game.mask_col_bottom(col)) >> 1;
        let keep = !stone_mask;
        self.mask &= keep;
        self.player &= keep;
        self.player ^= self.mask;
        self.moves_num -= 1;
        Ok(())
    }

    /// The key under which the position and its mirror image are stored.
    fn key(&self) -> (k: u64)
        ensures
            k == self@.key(),
    {
        proof {
            lemma_position_bounds(self.player, self.mask, self.game.width(), self.game.height());
        }
        let p_mask = self.player + (self.mask + *self.game.mask_bottom());
        let flipped = self.game.flip_c4_board(p_mask);
        if p_mask >= flipped { p_mask } else { flipped }
    }
}

/// Whether column `a` comes before column `b` in the search's order:
/// the higher score first and, of equal scores, the column further left.
pub open spec fn before_in_order(v: StateView, a: u16, b: u16) -> bool {
    let sa = score_of(v.player, v.mask, a as u8, v.width, v.height);
    let sb = score_of(v.player, v.mask, b as u8, v.width, v.height);
    sa > sb || (sa == sb && a < b)
}

/// Number of set bits of `stones`.
fn bit_count(stones: &u64) -> (count: u8)
    ensures
        count == bit_count_of(*stones),
        count <= 64,
{
    let mut count: u8 = 0;
    let mut n: u64 = *stones;
    proof {
        vstd::arithmetic::power2::lemma2_to64();
        lemma_bit_count_bound(*stones, 64);
    }
    while n > 0
        invariant
            count + bit_count_of(n) == bit_count_of(*stones),
            bit_count_of(*stones) <= 64,
        decreases n,
    {
        proof {
            lemma_bit_count_step(n);
        }
        n &= n - 1;
        count += 1;
    }
    count
}

/// Puts `col` with its `score` behind the last entry whose score is not
/// lower, and returns where it went.
fn insert_by_score(res: &mut Vec<u16>, scores: &mut Vec<u16>, col: u16, score: u16) -> (at: usize)
    requires
        old(res).len() == old(scores).len(),
        forall|i: int, j: int| 0 <= i < j < old(scores).len() ==> old(scores)[i] >= old(scores)[j],
    ensures
        at <= old(res).len(),
        final(res).len() == old(res).len() + 1,
        final(scores).len() == old(scores).len() + 1,
        final(res)[at as int] == col,
        final(scores)[at as int] == score,
        forall|k: int| 0 <= k < at ==> final(res)[k] == old(res)[k] && final(scores)[k] == old(scores)[k],
        forall|k: int| at < k <= old(res).len() ==> final(res)[k] == old(res)[k - 1] && final(scores)[k] == old(scores)[k - 1],
        forall|k: int| 0 <= k < at ==> old(scores)[k] >= score,
        forall|k: int| at <= k < old(scores).len() ==> old(scores)[k] < score,
{
    let mut i = res.len();
    scores.push(0);
    res.push(0);
    while i > 0 && scores[i - 1] < score
        invariant
            i <= old(res).len(),
            res.len() == old(res).len() + 1,
            scores.len() == res.len(),
            forall|i: int, j: int| 0 <= i < j < old(scores).len() ==> old(scores)[i] >= old(scores)[j],
            forall|k: int| 0 <= k < i ==> res[k] == old(res)[k] && scores[k] == old(scores)[k],
            forall|k: int| i < k < res.len() ==> res[k] == old(res)[k - 1] && scores[k] == old(scores)[k - 1],
            forall|k: int| i <= k < old(scores).len() ==> old(scores)[k] < score,
        decreases i,
    {
        let s = scores[i - 1];
        let c = res[i - 1];
        scores.set(i, s);
        res.set(i, c);
        i -= 1;
    }
    scores.set(i, score);
    res.set(i, col);
    i
}

} // verus!
