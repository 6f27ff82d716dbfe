//! The search: negamax with a window, over one position that is played on and taken back.

use vstd::prelude::*;
use crate::error::GameError;
use crate::game::bound::{lemma_stones_left, StateResult};
use crate::game::state::{lemma_play_then_unplay, lemma_unplay_ok, replay, replay_ok, StateView};
use crate::game::{Connect4, State};
use crate::masks::board_of;
use crate::rules::{lemma_candidate_legal, lemma_play, lemma_play_stones, lemma_position_bounds};
use crate::GameState;

pub mod game_table;
pub mod sound;
pub mod transposition;

use game_table::book::{book_bytes, load_error, loaded, u64_at};
use game_table::{
    lemma_grows, lemma_keeps, lemma_own_entry_kept, lemma_put_grows, lemma_put_keeps,
    lemma_put_within, C4GameTable,
    GameTableUsize,
    GameTableView,
};
use sound::{lemma_entry_sound, lemma_get_sound, lemma_put_sound, window_answer};
use crate::minimax::{lemma_value_is_outcome, outcome};
use crate::value::{best_upto, lemma_best, lemma_bound_of_position, lemma_value_range, value};

verus! {

/// A score as the search stores it.
pub type Score = i8;

/// A stored score: `Actual` if it is the position's score, `Pruned` if the
/// search was cut short and the position's score is no higher.
#[derive(Clone, Copy, PartialEq, Eq, Debug, Structural)]
pub enum NegamaxResult {
    Actual(Score),
    Pruned(Score),
}

/// A search with its store and the count of positions it has visited.
pub struct Solver {
    t: C4GameTable,
    count: usize,
    game: Connect4,
}

impl Solver {
    /// The store of scores.
    pub closed spec fn table(&self) -> C4GameTable {
        self.t
    }

    /// The board that the search plays on.
    pub closed spec fn spec_game(&self) -> Connect4 {
        self.game
    }

    /// Number of positions visited since the last reset.
    pub closed spec fn spec_count(&self) -> usize {
        self.count
    }

    /// Whether the store is in order and serves the search's board.
    pub open spec fn wf(&self) -> bool {
        &&& self.table().wf()
        &&& self.spec_game().wf()
        &&& self.table().spec_game() == self.spec_game()
    }

    /// Number of cells of the board.
    pub open spec fn total(&self) -> int {
        self.spec_game().width() * self.spec_game().height()
    }

    /// Whether position `s` is one of the search's board.
    pub open spec fn serves(&self, s: &State) -> bool {
        &&& s.wf()
        &&& s@.width == self.spec_game().width()
        &&& s@.height == self.spec_game().height()
    }

    /// A search on `game` with an empty store of one book for the first
    /// twelve plies and two tables for fifteen plies each.
    pub fn new(game: Connect4) -> (r: Result<Self, GameError>)
        requires
            game.wf(),
        ensures
            match r {
                Ok(solver) => {
                    &&& game.width() * game.height() == 42
                    &&& solver.wf()
                    &&& solver.spec_game() == game
                    &&& solver.count() == 0
                    &&& solver.table()@ == game_table::fresh(game.width(), game.height(), standard_sizes())
                    &&& solver.table()@.sound()
                    &&& solver.table()@.all_within()
                },
                Err(e) => e == GameError::TableConfigMismatch && game.width() * game.height() != 42,
            },
    {
        let sizes = standard_tiers();
        match C4GameTable::new(game, sizes) {
            Ok(t) => Ok(Self { t, count: 0, game }),
            Err(e) => Err(e),
        }
    }

    /// Number of positions visited since the last reset.
    #[verifier::when_used_as_spec(spec_count)]
    pub fn count(&self) -> (n: usize)
        ensures
            n == self.spec_count(),
    {
        self.count
    }

    /// The score of position `s` for the side to move, searched within the
    /// window `bound_opt`, or within what the stones left allow if there is
    /// none. A window may be of any width as long as its lower end is no
    /// higher than its upper end. The position is played on and restored. A
    /// position that is decided at once is answered without a change to the
    /// store. A search that tried every move offers its answer to the store:
    /// as an exact score if it had no window, else as a score that the
    /// position's does not exceed. If the store can be trusted, it can be
    /// trusted afterwards, and the answer is the position's score whenever
    /// the window holds that score; an answer below the window's upper end
    /// is never less than the score, and one above its lower end never more.
    #[verifier::rlimit(100)]
    pub fn negamax(&mut self, s: &mut State, bound_opt: Option<(i32, i32)>) -> (r: Result<i32, GameError>)
        requires
            old(self).wf(),
            old(self).serves(old(s)),
            match bound_opt {
                Some((lo, hi)) => lo <= hi || (-old(self).total() <= lo <= old(self).total() && -old(self).total() <= hi
                    <= old(self).total()),
                None => true,
            },
        ensures
            final(self).wf(),
            final(self).spec_game() == old(self).spec_game(),
            final(self).count() >= old(self).count(),
            old(self).count() < usize::MAX ==> final(self).count() > old(self).count(),
            old(self).table()@.grows_to(final(self).table()@),
            old(self).table()@.keeps_below(final(self).table()@, old(s)@.plies()),
            closed_at_once(old(s)@, old(self).table()@, bound_opt) ==> {
                &&& final(self).table()@ == old(self).table()@
                &&& old(self).count() < usize::MAX ==> final(self).count() == old(self).count() + 1
            },
            !closed_at_once(old(s)@, old(self).table()@, bound_opt) && (forall|c: int| !old(s)@.position().candidate(c))
                && old(self).count() < usize::MAX ==> final(self).count() == old(self).count() + 1,
            match r {
                Ok(score) => old(s)@.bound() is Bounds && !found_exact(old(s)@, old(self).table()@, bound_opt) && score
                    < upper_end(old(s)@, old(self).table()@, bound_opt) ==> final(self).table()@.get(
                    old(s)@.plies(),
                    old(s)@.key(),
                ) == old(self).table()@.put(old(s)@.plies(), old(s)@.key(), entry_for(bound_opt, score as int)).get(
                    old(s)@.plies(),
                    old(s)@.key(),
                ),
                Err(_) => true,
            },
            match r {
                Ok(score) => !closed_at_once(old(s)@, old(self).table()@, bound_opt) && raised(old(s)@, bound_opt)
                    < upper_end(old(s)@, old(self).table()@, bound_opt) && score >= upper_end(
                    old(s)@,
                    old(self).table()@,
                    bound_opt,
                ) ==> {
                    &&& old(self).table()@.tiers[old(s)@.plies()] is Book ==> final(self).table()@.get(
                        old(s)@.plies(),
                        old(s)@.key(),
                    ) == old(self).table()@.get(old(s)@.plies(), old(s)@.key())
                    &&& old(self).table()@.get(old(s)@.plies(), old(s)@.key()).is_none() ==> final(self).table()@.get(
                        old(s)@.plies(),
                        old(s)@.key(),
                    ).is_none()
                },
                Err(_) => true,
            },
            final(s).wf(),
            final(s)@ == old(s)@,
            final(s).spec_game() == old(s).spec_game(),
            match r {
                Ok(score) => -128 <= score <= 128,
                Err(_) => false,
            },
            old(self).table()@.all_within() ==> final(self).table()@.all_within() && match r {
                Ok(score) => -old(self).total() <= score <= old(self).total(),
                Err(_) => false,
            },
            match old(s)@.bound() {
                StateResult::Immediate(v) => r == Ok::<i32, GameError>(v),
                StateResult::Bounds(_) => true,
            },
            old(self).table()@.sound() && ordered(bound_opt) ==> final(self).table()@.sound() && match (r, bound_opt) {
                (Ok(score), Some((lo, hi))) => window_answer(
                    score as int,
                    value(old(s)@.position()),
                    lo as int,
                    hi as int,
                ),
                (Ok(score), None) => score == value(old(s)@.position()),
                (Err(_), _) => true,
            },
        decreases board_of(old(s)@.width, old(s)@.height) - old(s)@.mask,
    {
        if self.count < usize::MAX {
            self.count += 1;
        }
        let ghost total = self.total();
        let ghost v0 = s@;
        let ghost here = s@.position();
        let ghost t0 = self.table()@;
        let ghost trusted = t0.sound() && ordered(bound_opt);
        let ghost v = value(here);
        proof {
            lemma_grows(t0, t0, t0);
            lemma_keeps(t0, t0, t0, v0.plies() + 1, v0.plies());
            crate::rules::lemma_key_of(v0.player, v0.mask, v0.width, v0.height);
            lemma_position_bounds(v0.player, v0.mask, v0.width, v0.height);
            lemma_stones_left(total, v0.plies());
            lemma_bound_of_position(v0);
            lemma_value_range(here);
            assert(total <= 64) by (nonlinear_arith)
                requires
                    total == v0.width * v0.height,
                    v0.width <= 8,
                    v0.height <= 8,
            ;
        }
        let res = s.bound();
        let mut bound: (i32, i32);
        let ghost alpha: int;
        let ghost beta: int;
        match res {
            StateResult::Immediate(v) => {
                return Ok(v);
            },
            StateResult::Bounds(new_bound) => {
                if let Some(b) = bound_opt {
                    bound = b;
                    proof {
                        alpha = b.0 as int;
                        beta = b.1 as int;
                    }
                    if bound.0 < new_bound.0 {
                        bound.0 = new_bound.0;
                        if bound.0 >= bound.1 {
                            return Ok(bound.0);
                        }
                    }
                    if bound.1 > new_bound.1 {
                        bound.1 = new_bound.1;
                        if bound.0 >= bound.1 {
                            return Ok(bound.1);
                        }
                    }
                } else {
                    bound = new_bound;
                    proof {
                        alpha = new_bound.0 as int;
                        beta = new_bound.1 as int;
                    }
                }
            },
        };

        if bound_opt.is_some() {
            let hit: Option<NegamaxResult> = match self.t.get(s) {
                Some(found) => Some(*found),
                None => None,
            };
            if let Some(found) = hit {
                proof {
                    if trusted {
                        lemma_get_sound(t0, v0.plies(), here, found);
                    }
                }
                match found {
                    NegamaxResult::Actual(score) => {
                        return Ok(score as i32);
                    },
                    NegamaxResult::Pruned(score) => {
                        if (score as i32) < bound.1 {
                            bound.1 = score as i32;
                            if bound.0 >= bound.1 {
                                return Ok(bound.1);
                            }
                        }
                    },
                }
            }
        }

        let actions = s.nonlosing_moves_sorted();
        let mut n: usize = 0;
        while n < actions.len()
            invariant
                n <= actions.len(),
                self.wf(),
                self.spec_game() == old(self).spec_game(),
                self.count() >= old(self).count(),
                old(self).count() < usize::MAX ==> self.count() > old(self).count(),
                n == 0 && old(self).count() < usize::MAX ==> self.count() == old(self).count() + 1,
                !closed_at_once(v0, t0, bound_opt),
                t0.ok(),
                t0 == old(self).table()@,
                t0.grows_to(self.table()@),
                t0.all_within() ==> self.table()@.all_within(),
                t0.keeps_below(self.table()@, v0.plies() + 1),
                !found_exact(v0, t0, bound_opt) ==> bound.1 == upper_end(v0, t0, bound_opt),
                raised(v0, bound_opt) < upper_end(v0, t0, bound_opt) ==> bound.0 < bound.1,
                crate::masks::key_stones(v0.key(), t0.width, t0.height) == v0.plies(),
                0 <= v0.plies() < t0.total(),
                self.serves(s),
                s@ == v0,
                v0 == old(s)@,
                here == v0.position(),
                here.ok(),
                v == value(here),
                s.spec_game() == old(s).spec_game(),
                total == self.total(),
                total <= 64,
                v0.bound() is Bounds,
                here.bound() is Bounds,
                -total <= bound.0 <= total,
                -total <= bound.1 <= total,
                forall|c: u16| actions@.contains(c) ==> crate::rules::candidate_at(v0.player, v0.mask, c as int, v0.width, v0.height),
                trusted == (t0.sound() && ordered(bound_opt)),
                trusted ==> self.table()@.sound(),
                here.low() <= v <= here.high(),
                here.low() < here.high(),
                match bound_opt {
                    Some((lo, hi)) => alpha == lo && beta == hi,
                    None => alpha == here.low() && beta == here.high(),
                },
                trusted ==> {
                    &&& alpha <= beta
                    &&& bound.0 <= bound.1
                    &&& bound.0 > alpha ==> v >= bound.0
                    &&& bound.1 == beta || v <= bound.1
                    &&& bound.0 >= here.low()
                    &&& forall|j: int| 0 <= j < n ==> here.worth(#[trigger] actions@[j] as int) <= bound.0
                },
            decreases actions.len() - n,
        {
            let a = actions[n];
            let ghost next = here.play(a as u8);
            proof {
                assert(actions@.contains(a));
                assert(here.candidate(a as int));
                lemma_candidate_legal(v0.player, v0.mask, a as u8, v0.width, v0.height);
                lemma_play(v0.player, v0.mask, v0.width, v0.height, a as u8);
                lemma_play_then_unplay(v0, a as u8);
                let v1 = v0.play(a as u8);
                lemma_position_bounds(v1.player, v1.mask, v1.width, v1.height);
                assert(v1.position() == next);
                lemma_best(here, here.width as int);
                assert(here.candidate(a as int));
                assert(v >= here.worth(a as int));
            }
            match s.play(a) {
                Ok(()) => {},
                Err(e) => {
                    return Err(e);
                },
            }
            let ghost t1 = self.table()@;
            let child = match self.negamax(s, Some((-bound.1, -bound.0))) {
                Ok(child) => child,
                Err(e) => {
                    return Err(e);
                },
            };
            proof {
                lemma_grows(t0, t1, self.table()@);
                lemma_play_stones(v0.player, v0.mask, v0.width, v0.height, a as u8);
                lemma_keeps(t0, t1, self.table()@, v0.plies() + 1, v0.plies());
                if trusted {
                    assert(window_answer(child as int, value(next), -bound.1 as int, -bound.0 as int));
                    assert(here.worth(a as int) == -value(next));
                }
            }
            let score = -child;
            match s.unplay() {
                Ok(()) => {},
                Err(e) => {
                    return Err(e);
                },
            }
            let ghost was = bound.0;
            if score > bound.0 {
                bound.0 = score;
            }
            if score >= bound.1 {
                proof {
                    lemma_own_entry_kept(t0, self.table()@, v0.plies(), v0.key());
                    if trusted {
                        lemma_step(v, here.worth(a as int), score as int, was as int, bound.1 as int, alpha, beta);
                    }
                }
                return Ok(score);
            }
            proof {
                if trusted {
                    lemma_step(v, here.worth(a as int), score as int, was as int, bound.1 as int, alpha, beta);
                }
            }
            proof {
                if trusted {
                    assert forall|j: int| 0 <= j < n + 1 implies here.worth(#[trigger] actions@[j] as int) <= bound.0 by {
                        if j < n {
                            assert(here.worth(actions@[j] as int) <= was);
                        }
                    }
                }
            }
            n += 1;
        }
        proof {
            if actions.len() > 0 {
                assert(actions@.contains(actions@[0]));
                assert(here.candidate(actions@[0] as int));
            }
            if trusted {
                lemma_best(here, here.width as int);
                let best = best_upto(here, here.width as int);
                assert(v == best);
                if best != here.low() {
                    let c = choose|c: int| 0 <= c < here.width && here.candidate(c) && best == #[trigger] here.worth(c);
                    let cc = c as u16;
                    assert(cc as int == c);
                    assert(actions@.contains(cc));
                    let j = choose|j: int| 0 <= j < actions@.len() && actions@[j] == cc;
                    assert(here.worth(actions@[j] as int) <= bound.0);
                }
                assert(v <= bound.0);
            }
        }
        let ghost t1 = self.table()@;
        match bound_opt {
            None => {
                proof {
                    if trusted {
                        lemma_entry_sound(here, NegamaxResult::Actual(bound.0 as i8));
                        lemma_put_sound(t1, v0.plies(), v0.key(), NegamaxResult::Actual(bound.0 as i8));
                    }
                }
                self.t.put(s, NegamaxResult::Actual(bound.0 as i8));
            },
            Some(_) => {
                proof {
                    if trusted {
                        lemma_entry_sound(here, NegamaxResult::Pruned(bound.0 as i8));
                        lemma_put_sound(t1, v0.plies(), v0.key(), NegamaxResult::Pruned(bound.0 as i8));
                    }
                }
                self.t.put(s, NegamaxResult::Pruned(bound.0 as i8));
            },
        }
        proof {
            let entry = entry_for(bound_opt, bound.0 as int);
            if t1.all_within() {
                lemma_put_within(t1, v0.plies(), v0.key(), entry);
            }
            lemma_put_grows(t1, v0.plies(), v0.key(), entry);
            lemma_grows(t0, t1, self.table()@);
            lemma_put_keeps(t0, t1, v0.plies(), v0.key(), entry);
            lemma_put_keeps(t1, t1, v0.plies(), v0.key(), entry);
            lemma_keeps(t0, t1, self.table()@, v0.plies() + 1, v0.plies());
            lemma_keeps(t0, t1, self.table()@, v0.plies(), v0.plies());
        }
        Ok(bound.0)
    }

    /// Searches anew, without a window, every position whose score in the
    /// books is still to be made exact, and stores the exact score. Says
    /// whether there was such a position.
    #[verifier::rlimit(100)]
    pub fn finalize_pruned_in_books(&mut self) -> (r: Result<bool, GameError>)
        requires
            old(self).wf(),
        ensures
            final(self).wf(),
            final(self).spec_game() == old(self).spec_game(),
            final(self).count() >= old(self).count(),
            old(self).table()@.grows_to(final(self).table()@),
            r == Ok::<bool, GameError>(exists|k: u64| old(self).table()@.is_pruned(k)),
            forall|k: u64| old(self).table()@.is_pruned(k) ==> final(self).table()@.is_actual(k),
            old(self).table()@.sound() ==> final(self).table()@.sound(),
            old(self).table()@.all_within() ==> final(self).table()@.all_within(),
    {
        let wait = self.t.get_pruned_keys_in_books();
        let len = wait.len();
        let ghost t0 = self.table()@;
        let ghost total = self.total();
        proof {
            lemma_grows(t0, t0, t0);
        }
        let mut n: usize = 0;
        while n < wait.len()
            invariant
                n <= wait.len(),
                self.wf(),
                self.spec_game() == old(self).spec_game(),
                self.count() >= old(self).count(),
                total == self.total(),
                t0 == old(self).table()@,
                t0.ok(),
                t0.width == self.spec_game().width(),
                t0.height == self.spec_game().height(),
                t0.grows_to(self.table()@),
                forall|k: u64| wait@.contains(k) <==> t0.is_pruned(k),
                forall|j: int| 0 <= j < n ==> self.table()@.is_actual(#[trigger] wait@[j]),
                t0.sound() ==> self.table()@.sound(),
                t0.all_within() ==> self.table()@.all_within(),
            decreases wait.len() - n,
        {
            let key = wait[n];
            let ghost w = self.spec_game().width();
            let ghost h = self.spec_game().height();
            let ghost b: int;
            proof {
                assert(wait@.contains(key));
                assert(t0.is_pruned(key));
                b = choose|b: int| 0 <= b < t0.books.len() && b < t0.books.len() && #[trigger] t0.books[b].contains_key(key) && t0.books[b][key] is Pruned;
                crate::masks::lemma_key_parts(key, w, h);
                crate::masks::lemma_key_stones(key, w, h);
                assert(total <= 64) by (nonlinear_arith)
                    requires
                        total == w * h,
                        w <= 8,
                        h <= 8,
                ;
            }
            let mut s = self.game.start_from_mask(key);
            let score = match self.negamax(&mut s, None) {
                Ok(score) => score,
                Err(e) => {
                    return Err(e);
                },
            };
            let ghost t1 = self.table()@;
            let exact = narrow(score);
            proof {
                if t0.sound() {
                    lemma_bound_of_position(s@);
                    lemma_value_range(s@.position());
                    lemma_entry_sound(s@.position(), NegamaxResult::Actual(exact));
                    lemma_put_sound(t1, s@.plies(), s@.key(), NegamaxResult::Actual(exact));
                }
                if t0.all_within() {
                    lemma_put_within(t1, s@.plies(), s@.key(), NegamaxResult::Actual(exact));
                }
            }
            self.t.put(&s, NegamaxResult::Actual(exact));
            proof {
                let t2 = self.table()@;
                lemma_put_grows(t1, s@.plies(), s@.key(), NegamaxResult::Actual(exact));
                lemma_grows(t0, t1, t2);
                assert(s@.key() == key);
                assert(t1.serves(s@.plies(), b));
                assert(t2.books[b].contains_key(key) && t2.books[b][key] is Actual);
                assert(t2.is_actual(key));
                assert forall|j: int| 0 <= j < n + 1 implies t2.is_actual(#[trigger] wait@[j]) by {
                    if j < n {
                        let k = wait@[j];
                        assert(t1.is_actual(k));
                        let c = choose|c: int| 0 <= c < t1.books.len() && #[trigger] t1.books[c].contains_key(k) && t1.books[c][k] is Actual;
                        assert(t2.books[c].contains_key(k));
                    }
                }
            }
            n += 1;
        }
        proof {
            assert forall|k: u64| t0.is_pruned(k) implies self.table()@.is_actual(k) by {
                assert(wait@.contains(k));
                let j = choose|j: int| 0 <= j < wait@.len() && wait@[j] == k;
                assert(self.table()@.is_actual(wait@[j]));
            }
            if len > 0 {
                assert(wait@.contains(wait@[0]));
            }
        }
        Ok(len > 0)
    }

    /// The bytes of the exact scores in the books, in no stated order.
    pub fn write_to_book(&self) -> (bytes: Vec<u8>)
        requires
            self.wf(),
        ensures
            exists|entries: Seq<(u64, i8)>| {
                &&& bytes@ == book_bytes(self.spec_game().width(), self.spec_game().height(), entries)
                &&& entries.no_duplicates()
                &&& forall|e: (u64, i8)| entries.contains(e) <==> self.table()@.holds_actual(e)
            },
    {
        self.t.write_to_book()
    }

    /// A search on the board that the bytes of a book name, its store
    /// filled with the book's entries.
    pub fn new_with_book(bytes: &Vec<u8>) -> (r: Result<Self, GameError>)
        ensures
            match r {
                Ok(solver) => {
                    &&& load_error(bytes@, standard_sizes()).is_none()
                    &&& solver.wf()
                    &&& solver.count() == 0
                    &&& solver.spec_game().width() == bytes@[0]
                    &&& solver.spec_game().height() == bytes@[1]
                    &&& solver.table()@ == loaded(
                        game_table::fresh(bytes@[0], bytes@[1], standard_sizes()),
                        bytes@,
                        u64_at(bytes@, 2) as int,
                    )
                },
                Err(e) => load_error(bytes@, standard_sizes()) == Some(e),
            },
    {
        let sizes = standard_tiers();
        match C4GameTable::new_with_book(bytes, sizes) {
            Ok(t) => {
                let game = t.game();
                Ok(Self { t, game, count: 0 })
            },
            Err(e) => Err(e),
        }
    }

    /// Empties the tables, keeps the books, and starts the count of positions anew.
    pub fn reset(&mut self)
        requires
            old(self).wf(),
        ensures
            final(self).wf(),
            final(self).spec_game() == old(self).spec_game(),
            final(self).count() == 0,
            final(self).table()@.books == old(self).table()@.books,
            final(self).table()@.tiers == old(self).table()@.tiers,
            final(self).table()@.tables.len() == old(self).table()@.tables.len(),
            forall|j: int| 0 <= j < final(self).table()@.tables.len() ==> (#[trigger] final(self).table()@.tables[j]).len() == old(self).table()@.tables[j].len(),
            forall|j: int, i: int| 0 <= j < final(self).table()@.tables.len() && 0 <= i < final(self).table()@.tables[j].len() ==> (#[trigger] final(self).table()@.tables[j][i]).is_none(),
            old(self).table()@.grows_to(final(self).table()@),
            old(self).table()@.sound() ==> final(self).table()@.sound(),
            old(self).table()@.all_within() ==> final(self).table()@.all_within(),
    {
        self.t.reset();
        self.count = 0;
        proof {
            if old(self).table()@.sound() {
                sound::lemma_reset_sound(old(self).table()@, self.table()@);
            }
        }
    }

    /// Plays `moves` from the empty board and scores the position reached.
    #[verifier::rlimit(100)]
    pub fn solve(&mut self, moves: &Vec<u16>) -> (r: Result<(State, i32), GameError>)
        requires
            old(self).wf(),
        ensures
            final(self).wf(),
            final(self).spec_game() == old(self).spec_game(),
            final(self).count() >= old(self).count(),
            match r {
                Ok((s, score)) => {
                    &&& replay_ok(start_of(old(self).spec_game()), moves@)
                    &&& s.wf()
                    &&& s@ == replay(start_of(old(self).spec_game()), moves@)
                    &&& -128 <= score <= 128
                    &&& old(self).table()@.all_within() ==> -old(self).total() <= score <= old(self).total()
                    &&& match s@.bound() {
                        StateResult::Immediate(v) => score == v,
                        StateResult::Bounds(_) => true,
                    }
                    &&& old(self).table()@.sound() ==> score == value(s@.position()) && score == outcome(
                        s@.position(),
                    )
                },
                Err(e) => e == GameError::InvalidMove && !replay_ok(start_of(old(self).spec_game()), moves@),
            },
            old(self).table()@.grows_to(final(self).table()@),
            old(self).table()@.sound() ==> final(self).table()@.sound(),
            old(self).table()@.all_within() ==> final(self).table()@.all_within(),
            match r {
                Ok((s, _)) => match s@.bound() {
                    StateResult::Immediate(_) => final(self).count() == old(self).count() && final(self).table()@
                        == old(self).table()@,
                    StateResult::Bounds(_) => old(self).count() < usize::MAX ==> final(self).count() > old(
                        self,
                    ).count(),
                },
                Err(_) => final(self).count() == old(self).count() && final(self).table()@ == old(self).table()@,
            },
    {
        let mut s = self.game.start();
        proof {
            lemma_grows(self.table()@, self.table()@, self.table()@);
        }
        match s.play_multiple(moves) {
            Ok(()) => {},
            Err(e) => {
                return Err(e);
            },
        }
        let res = s.bound();
        proof {
            lemma_position_bounds(s@.player, s@.mask, s@.width, s@.height);
            lemma_stones_left(self.total(), s@.plies());
            lemma_bound_of_position(s@);
            lemma_value_range(s@.position());
            lemma_value_is_outcome(s@.position());
            assert(s@.width * s@.height <= 64) by (nonlinear_arith)
                requires
                    s@.width <= 8,
                    s@.height <= 8,
            ;
        }
        match res {
            StateResult::Immediate(score) => {
                return Ok((s, score));
            },
            StateResult::Bounds(bound) => {
                proof {
                    let p = s@.position();
                    assert(p.width * p.height <= 64) by (nonlinear_arith)
                        requires
                            p.width <= 8,
                            p.height <= 8,
                    ;
                    assert(p.bound() == StateResult::Bounds(bound));
                    assert(bound.0 == p.low());
                    assert(bound.1 == p.high());
                    assert(ordered(Some(bound)));
                }
                match self.negamax(&mut s, Some(bound)) {
                    Ok(score) => {
                        return Ok((s, score));
                    },
                    Err(e) => {
                        return Err(e);
                    },
                }
            },
        };
    }

    /// Searches the empty board without a window, which fills the store.
    pub fn log_from_start(&mut self) -> (r: Result<(), GameError>)
        requires
            old(self).wf(),
        ensures
            final(self).wf(),
            final(self).spec_game() == old(self).spec_game(),
            final(self).count() >= old(self).count(),
            old(self).count() < usize::MAX ==> final(self).count() > old(self).count(),
            r is Ok,
            old(self).table()@.grows_to(final(self).table()@),
            old(self).table()@.sound() ==> final(self).table()@.sound(),
            old(self).table()@.all_within() ==> final(self).table()@.all_within(),
            ({
                let start = start_of(old(self).spec_game());
                old(self).table()@.sound() && start.bound() is Bounds && value(start.position()) < start.my_left()
                    ==> final(self).table()@.get(start.plies(), start.key()) == old(self).table()@.put(
                    start.plies(),
                    start.key(),
                    NegamaxResult::Actual(value(start.position()) as i8),
                ).get(start.plies(), start.key())
            }),
    {
        let mut s = self.game.start();
        match self.negamax(&mut s, None) {
            Ok(_) => Ok(()),
            Err(e) => Err(e),
        }
    }

    /// The board that the search plays on.
    #[verifier::when_used_as_spec(spec_game)]
    pub fn game(&self) -> (g: Connect4)
        ensures
            g == self.spec_game(),
    {
        self.game
    }
}

/// An answer as a score of eight bits: itself, but for 128, the one
/// answer beyond them, which wraps around to -128.
pub open spec fn narrowed(score: int) -> i8 {
    if score == 128 {
        -128i8
    } else {
        score as i8
    }
}

/// The answer `score` as a score of eight bits.
fn narrow(score: i32) -> (r: i8)
    requires
        -128 <= score <= 128,
    ensures
        r == narrowed(score as int),
{
    if score == 128 {
        -128
    } else {
        score as i8
    }
}

/// Whether the search of a position ends before any move is tried: the
/// position is decided at once, or what the stones left say closes the
/// window, or the store holds an exact score for the position or a bound
/// that closes the window.
pub open spec fn closed_at_once(v: StateView, store: GameTableView, bound_opt: Option<(i32, i32)>) -> bool {
    v.bound() is Immediate || match bound_opt {
        None => false,
        Some((lo, hi)) => {
            let low = -v.opponent_left();
            let high = v.my_left();
            let raised = if lo < low { low } else { lo as int };
            let lowered = if hi > high { high } else { hi as int };
            ||| lo < low && low >= hi
            ||| hi > high && raised >= high
            ||| match store.get(v.plies(), v.key()) {
                Some(NegamaxResult::Actual(_)) => true,
                Some(NegamaxResult::Pruned(s)) => s < lowered && raised >= s,
                None => false,
            }
        },
    }
}

/// The lower end of the window within which the moves of a position are
/// searched: the greater of the window's own and minus the other side's
/// stones left.
pub open spec fn raised(v: StateView, bound_opt: Option<(i32, i32)>) -> int {
    let low = -v.opponent_left();
    match bound_opt {
        None => low,
        Some((lo, _)) => if lo < low { low } else { lo as int },
    }
}

/// Whether the search of a position with a window ends at the store: the
/// store holds an exact score for the position.
pub open spec fn found_exact(v: StateView, store: GameTableView, bound_opt: Option<(i32, i32)>) -> bool {
    bound_opt is Some && match store.get(v.plies(), v.key()) {
        Some(NegamaxResult::Actual(_)) => true,
        _ => false,
    }
}

/// The upper end of the window within which the moves of a position are
/// searched: the lesser of the window's own and the mover's stones left, and
/// less still if the store holds a lower bound from a search cut short. An
/// answer below it means that every move was searched.
pub open spec fn upper_end(v: StateView, store: GameTableView, bound_opt: Option<(i32, i32)>) -> int {
    match bound_opt {
        None => v.my_left(),
        Some((lo, hi)) => {
            let h = if hi > v.my_left() { v.my_left() } else { hi as int };
            match store.get(v.plies(), v.key()) {
                Some(NegamaxResult::Pruned(s)) => if s < h { s as int } else { h },
                _ => h,
            }
        },
    }
}

/// What a search that tried every move offers to the store: an exact score
/// if it had no window, else a score that the position's does not exceed.
pub open spec fn entry_for(bound_opt: Option<(i32, i32)>, score: int) -> NegamaxResult {
    match bound_opt {
        None => NegamaxResult::Actual(score as i8),
        Some(_) => NegamaxResult::Pruned(score as i8),
    }
}

/// Whether a window, if there is one, has its lower end no higher than its upper end.
pub open spec fn ordered(bound_opt: Option<(i32, i32)>) -> bool {
    match bound_opt {
        Some((lo, hi)) => lo <= hi,
        None => true,
    }
}

/// One move of the search. The window is from `a` to `b` when the move,
/// worth `worth` to the mover, is searched and answered with `score`. If
/// the answer reaches `b` it is the search's answer; else the move is worth
/// no more than the raised `a`.
pub proof fn lemma_step(v: int, worth: int, score: int, a: int, b: int, alpha: int, beta: int)
    requires
        alpha <= beta,
        a <= b,
        a > alpha ==> v >= a,
        b == beta || v <= b,
        v >= worth,
        score > a ==> worth >= score,
        score < b ==> worth <= score,
    ensures
        score >= b ==> window_answer(score, v, alpha, beta),
        score > a ==> v >= score,
        score < b ==> worth <= (if score > a { score } else { a }),
{
}

/// The empty position of `game`.
pub open spec fn start_of(game: Connect4) -> StateView {
    StateView {
        width: game.width(),
        height: game.height(),
        player: 0,
        mask: 0,
        history: Seq::<u8>::empty(),
    }
}

/// The tiers of every search: one book of a thousand entries for the first
/// twelve plies, then two tables of 4000037 slots for fifteen plies each.
pub open spec fn standard_sizes() -> game_table::Tiers {
    seq![
        (12usize, GameTableUsize::Book(1000)),
        (15usize, GameTableUsize::Table(4000037)),
        (15usize, GameTableUsize::Table(4000037)),
    ]
}

/// The tiers of every search.
fn standard_tiers() -> (sizes: Vec<(usize, GameTableUsize)>)
    ensures
        sizes@ == standard_sizes(),
        game_table::tiers_total(sizes@) == 42,
        forall|i: int| 0 <= i < sizes.len() ==> match #[trigger] sizes[i].1 {
            GameTableUsize::Book(_) => true,
            GameTableUsize::Table(v) => v > 0,
        },
{
    let mut sizes: Vec<(usize, GameTableUsize)> = Vec::new();
    sizes.push((12, GameTableUsize::Book(1000)));
    sizes.push((15, GameTableUsize::Table(4000037)));
    sizes.push((15, GameTableUsize::Table(4000037)));
    proof {
        assert(sizes@ =~= standard_sizes());
        let s3 = sizes@;
        let s2 = s3.drop_last();
        let s1 = s2.drop_last();
        let s0 = s1.drop_last();
        assert(s0.len() == 0);
        assert(game_table::tiers_total(s0) == 0);
        assert(game_table::tiers_total(s1) == 12);
        assert(game_table::tiers_total(s2) == 27);
        assert(game_table::tiers_total(s3) == 42);
    }
    sizes
}

} // verus!
