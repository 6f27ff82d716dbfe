//! A search that keeps one table for all plies and a book of what it found near the start.

use vstd::prelude::*;
use std::collections::HashMap;
use vstd::std_specs::iter::IteratorSpec;
use crate::error::GameError;
use crate::game::bound::{lemma_stones_left, StateResult};
use crate::game::display::{_format_board, bit_rows};
use crate::game::state::{lemma_play_then_unplay, replay, replay_ok, StateView};
use crate::game::{Connect4, State};
use crate::masks::board_of;
use crate::rules::{candidate_at, lemma_candidate_legal, lemma_play, lemma_position_bounds};
use crate::minimax::{lemma_value_is_outcome, outcome};
use crate::solver::sound::{entry_sound, lemma_entry_sound, window_answer};
use crate::solver::{lemma_step, start_of, NegamaxResult};
use crate::value::{best_upto, lemma_best, lemma_bound_of_position, lemma_value_range, value};
use crate::GameState;

pub mod transposition;

use transposition::TranspositionTable;

verus! {

broadcast use vstd::std_specs::hash::group_hash_axioms;

/// Whether the search of a position within the window from `lo` to `hi`
/// gets as far as its table: what the stones left say does not close the window.
pub open spec fn enters(v: StateView, lo: int, hi: int) -> bool {
    let low = -v.opponent_left();
    let high = v.my_left();
    let raised = if lo < low { low } else { lo };
    &&& !(lo < low && low >= hi)
    &&& !(hi > high && raised >= high)
}

/// The upper end of the window within which the moves of a position are
/// searched: the score that the table holds for it, if it holds one, else
/// the lesser of `hi` and the mover's stones left. An answer below it means
/// that every move was searched.
pub open spec fn upper_end(v: StateView, slots: Seq<Option<(u64, i8)>>, hi: int) -> int {
    match transposition::lookup(slots, v.key()) {
        Some(found) => found as int,
        None => if hi > v.my_left() { v.my_left() } else { hi },
    }
}

/// A search with its table, its book and the count of positions it has visited.
pub struct Explorer {
    t: TranspositionTable,
    count: usize,
    game: Connect4,
    book: HashMap<u64, i8>,
}

impl Explorer {
    /// The table.
    pub closed spec fn table(&self) -> TranspositionTable {
        self.t
    }

    /// The scores found for positions of fewer than fourteen stones while logging.
    pub closed spec fn book(&self) -> Map<u64, i8> {
        self.book@
    }

    /// The board that the search plays on.
    pub closed spec fn spec_game(&self) -> Connect4 {
        self.game
    }

    /// Number of positions visited since the last reset.
    pub closed spec fn spec_count(&self) -> usize {
        self.count
    }

    /// Number of cells of the board.
    pub open spec fn total(&self) -> int {
        self.spec_game().width() * self.spec_game().height()
    }

    /// Whether the board is in order, the table has slots, and every score in it fits the board.
    pub open spec fn wf(&self) -> bool {
        &&& self.spec_game().wf()
        &&& self.table().slots().len() > 0
        &&& self.table().within(self.total())
    }

    /// Whether position `s` is one of the search's board.
    pub open spec fn serves(&self, s: &State) -> bool {
        &&& s.wf()
        &&& s@.width == self.spec_game().width()
        &&& s@.height == self.spec_game().height()
    }

    /// A search on `game` with an empty table of 8388593 slots and an empty book.
    pub fn new(game: Connect4) -> (r: Self)
        requires
            game.wf(),
        ensures
            r.wf(),
            r.spec_game() == game,
            r.count() == 0,
            r.book() == Map::<u64, i8>::empty(),
            r.table().slots().len() == 8388593,
            r.sound(),
    {
        Self {
            t: TranspositionTable::new(8388593),
            count: 0,
            game,
            book: HashMap::with_capacity(1 << 23),
        }
    }

    /// Number of positions visited since the last reset.
    #[verifier::when_used_as_spec(spec_count)]
    pub fn count(&self) -> (n: usize)
        ensures
            n == self.spec_count(),
    {
        self.count
    }

    /// Whether the search of position `v` within the window from `lo` to
    /// `hi` ends before any move is tried: the position is decided at once,
    /// or what the stones left say closes the window, or the table holds a
    /// score for the position that closes it.
    pub open spec fn ends_at_once(&self, v: StateView, lo: int, hi: int) -> bool {
        let low = -v.opponent_left();
        let raised = if lo < low { low } else { lo };
        ||| v.bound() is Immediate
        ||| !enters(v, lo, hi)
        ||| match transposition::lookup(self.table().slots(), v.key()) {
            Some(found) => raised >= found,
            None => false,
        }
    }

    /// Whether every score in the table is no lower than the score of any
    /// position that its key stands for.
    pub open spec fn sound(&self) -> bool {
        forall|i: int| 0 <= i < self.table().slots().len() ==> match #[trigger] self.table().slots()[i] {
            Some((k, v)) => entry_sound(
                k,
                NegamaxResult::Pruned(v),
                self.spec_game().width(),
                self.spec_game().height(),
            ),
            None => true,
        }
    }

    /// The score of position `s` for the side to move, searched within the
    /// window `bound`. With `log` set, what is found for positions of fewer
    /// than fourteen stones goes to the book. A window may be of any width
    /// as long as its lower end is no higher than its upper end. The
    /// position is played on and restored. A search that ends before a move
    /// is tried changes neither table nor book and counts one position; one
    /// that tried every move stores its answer under the position's key. If
    /// the table can be trusted and the window's lower end is no higher than
    /// its upper end, the table can be trusted afterwards, an answer below
    /// the upper end is never less than the position's score, and one above
    /// the lower end never more.
    #[verifier::rlimit(100)]
    pub fn negamax(&mut self, s: &mut State, bound: (i32, i32), log: bool) -> (r: Result<i32, GameError>)
        requires
            old(self).wf(),
            old(self).serves(old(s)),
            bound.0 <= bound.1 || (-old(self).total() <= bound.0 <= old(self).total() && -old(self).total() <= bound.1
                <= old(self).total()),
        ensures
            final(self).wf(),
            final(self).spec_game() == old(self).spec_game(),
            final(self).count() >= old(self).count(),
            old(self).count() < usize::MAX ==> final(self).count() > old(self).count(),
            !log ==> final(self).book() == old(self).book(),
            final(self).table().slots().len() == old(self).table().slots().len(),
            !old(self).ends_at_once(old(s)@, bound.0 as int, bound.1 as int) && (forall|c: int| !old(s)@.position().candidate(c))
                && old(self).count() < usize::MAX ==> final(self).count() == old(self).count() + 1,
            old(self).ends_at_once(old(s)@, bound.0 as int, bound.1 as int) ==> {
                &&& final(self).table().slots() == old(self).table().slots()
                &&& final(self).table().kept() == old(self).table().kept()
                &&& final(self).book() == old(self).book()
                &&& old(self).count() < usize::MAX ==> final(self).count() == old(self).count() + 1
            },
            match r {
                Ok(score) => old(s)@.bound() is Bounds && enters(old(s)@, bound.0 as int, bound.1 as int) && score
                    < upper_end(old(s)@, old(self).table().slots(), bound.1 as int) ==> transposition::lookup(
                    final(self).table().slots(),
                    old(s)@.key(),
                ) == Some(score as i8),
                Err(_) => true,
            },
            match r {
                Ok(score) => log && old(s)@.plies() < 14 && old(s)@.bound() is Bounds && enters(
                    old(s)@,
                    bound.0 as int,
                    bound.1 as int,
                ) && score < upper_end(old(s)@, old(self).table().slots(), bound.1 as int) ==> final(self).book().contains_key(
                    old(s)@.key(),
                ) && final(self).book()[old(s)@.key()] == score as i8,
                Err(_) => true,
            },
            final(s).wf(),
            final(s)@ == old(s)@,
            final(s).spec_game() == old(s).spec_game(),
            match r {
                Ok(score) => -old(self).total() <= score <= old(self).total(),
                Err(_) => false,
            },
            match old(s)@.bound() {
                StateResult::Immediate(v) => r == Ok::<i32, GameError>(v),
                StateResult::Bounds(_) => true,
            },
            old(self).sound() && bound.0 <= bound.1 ==> final(self).sound() && match r {
                Ok(score) => window_answer(
                    score as int,
                    value(old(s)@.position()),
                    bound.0 as int,
                    bound.1 as int,
                ),
                Err(_) => true,
            },
        decreases board_of(old(s)@.width, old(s)@.height) - old(s)@.mask,
    {
        let ghost alpha = bound.0 as int;
        let ghost beta = bound.1 as int;
        let ghost trusted = self.sound() && bound.0 <= bound.1;
        let mut window = bound;
        if self.count < usize::MAX {
            self.count += 1;
        }
        let ghost total = self.total();
        let ghost v0 = s@;
        let ghost here = s@.position();
        let ghost v = value(here);
        proof {
            lemma_position_bounds(v0.player, v0.mask, v0.width, v0.height);
            lemma_stones_left(total, v0.plies());
            lemma_bound_of_position(v0);
            lemma_value_range(here);
            assert(total <= 64) by (nonlinear_arith)
                requires
                    total == v0.width * v0.height,
                    v0.width <= 8,
                    v0.height <= 8,
            ;
        }
        let new_bound = match s.bound() {
            StateResult::Immediate(v) => {
                return Ok(v);
            },
            StateResult::Bounds(new_bound) => new_bound,
        };
        if window.0 < new_bound.0 {
            window.0 = new_bound.0;
            if window.0 >= window.1 {
                return Ok(window.0);
            }
        }
        if window.1 > new_bound.1 {
            window.1 = new_bound.1;
            if window.0 >= window.1 {
                return Ok(window.1);
            }
        }
        let curr_key = s.key();
        if let Some(found) = self.t.get(curr_key) {
            proof {
                if trusted {
                    let slots = self.table().slots();
                    let i = transposition::slot_of(curr_key, slots.len() as int);
                    assert(0 <= i < slots.len());
                    assert(slots[i] == Some((curr_key, found)));
                    assert(entry_sound(curr_key, NegamaxResult::Pruned(found), here.width, here.height));
                    assert(crate::rules::key_of(here.player, here.mask, here.width, here.height) == curr_key);
                }
            }
            window.1 = found as i32;
            if window.0 >= window.1 {
                return Ok(window.1);
            }
        }
        let actions = s.nonlosing_moves_sorted();
        let mut n: usize = 0;
        while n < actions.len()
            invariant
                n <= actions.len(),
                self.wf(),
                self.spec_game() == old(self).spec_game(),
                self.count() >= old(self).count(),
                old(self).count() < usize::MAX ==> self.count() > old(self).count(),
                !log ==> self.book() == old(self).book(),
                self.serves(s),
                s@ == v0,
                v0 == old(s)@,
                here == v0.position(),
                here.ok(),
                v == value(here),
                s.spec_game() == old(s).spec_game(),
                curr_key == v0.key(),
                total == self.total(),
                total <= 64,
                v0.bound() is Bounds,
                here.bound() is Bounds,
                -total <= window.0 <= total,
                -total <= window.1 <= total,
                forall|c: u16| actions@.contains(c) ==> candidate_at(v0.player, v0.mask, c as int, v0.width, v0.height),
                self.table().slots().len() == old(self).table().slots().len(),
                n == 0 && old(self).count() < usize::MAX ==> self.count() == old(self).count() + 1,
                !old(self).ends_at_once(v0, bound.0 as int, bound.1 as int),
                enters(v0, bound.0 as int, bound.1 as int),
                window.1 == upper_end(v0, old(self).table().slots(), bound.1 as int),
                trusted == (old(self).sound() && bound.0 <= bound.1),
                trusted ==> self.sound(),
                alpha == bound.0,
                beta == bound.1,
                here.low() <= v <= here.high(),
                trusted ==> {
                    &&& alpha <= beta
                    &&& window.0 <= window.1
                    &&& window.0 > alpha ==> v >= window.0
                    &&& window.1 == beta || v <= window.1
                    &&& window.0 >= here.low()
                    &&& forall|j: int| 0 <= j < n ==> here.worth(#[trigger] actions@[j] as int) <= window.0
                },
            decreases actions.len() - n,
        {
            let a = actions[n];
            let ghost next = here.play(a as u8);
            proof {
                assert(actions@.contains(a));
                assert(here.candidate(a as int));
                lemma_candidate_legal(v0.player, v0.mask, a as u8, v0.width, v0.height);
                lemma_play(v0.player, v0.mask, v0.width, v0.height, a as u8);
                lemma_play_then_unplay(v0, a as u8);
                let v1 = v0.play(a as u8);
                lemma_position_bounds(v1.player, v1.mask, v1.width, v1.height);
                assert(v1.position() == next);
                lemma_best(here, here.width as int);
                assert(here.candidate(a as int));
                assert(v >= here.worth(a as int));
            }
            match s.play(a) {
                Ok(()) => {},
                Err(e) => {
                    return Err(e);
                },
            }
            let child = match self.negamax(s, (-window.1, -window.0), log) {
                Ok(child) => child,
                Err(e) => {
                    return Err(e);
                },
            };
            proof {
                if trusted {
                    assert(window_answer(child as int, value(next), -window.1 as int, -window.0 as int));
                    assert(here.worth(a as int) == -value(next));
                }
            }
            let score = -child;
            match s.unplay() {
                Ok(()) => {},
                Err(e) => {
                    return Err(e);
                },
            }
            let ghost was = window.0;
            if score > window.0 {
                window.0 = score;
            }
            proof {
                if trusted {
                    lemma_step(v, here.worth(a as int), score as int, was as int, window.1 as int, alpha, beta);
                }
            }
            if score >= window.1 {
                return Ok(score);
            }
            proof {
                if trusted {
                    assert forall|j: int| 0 <= j < n + 1 implies here.worth(#[trigger] actions@[j] as int) <= window.0 by {
                        if j < n {
                            assert(here.worth(actions@[j] as int) <= was);
                        }
                    }
                }
            }
            n += 1;
        }
        proof {
            if actions.len() > 0 {
                assert(actions@.contains(actions@[0]));
                assert(here.candidate(actions@[0] as int));
            }
            if trusted {
                lemma_best(here, here.width as int);
                let best = best_upto(here, here.width as int);
                assert(v == best);
                if best != here.low() {
                    let c = choose|c: int| 0 <= c < here.width && here.candidate(c) && best == #[trigger] here.worth(c);
                    let cc = c as u16;
                    assert(cc as int == c);
                    assert(actions@.contains(cc));
                    let j = choose|j: int| 0 <= j < actions@.len() && actions@[j] == cc;
                    assert(here.worth(actions@[j] as int) <= window.0);
                }
                assert(v <= window.0);
                lemma_entry_sound(here, NegamaxResult::Pruned(window.0 as i8));
            }
        }
        if log && s.len() < 14 {
            self.book.insert(curr_key, window.0 as i8);
        }
        let ghost slots = self.table().slots();
        self.t.put(curr_key, window.0 as i8, s.len() < 10);
        proof {
            assert forall|i: int| 0 <= i < self.table().slots().len() implies match #[trigger] self.table().slots()[i] {
                Some((_, v)) => -total <= v <= total,
                None => true,
            } by {
                if i != transposition::slot_of(curr_key, slots.len() as int) {
                    assert(self.table().slots()[i] == slots[i]);
                }
            }
            if trusted {
                assert forall|i: int| 0 <= i < self.table().slots().len() implies match #[trigger] self.table().slots()[i] {
                    Some((k, v)) => entry_sound(k, NegamaxResult::Pruned(v), here.width, here.height),
                    None => true,
                } by {
                    if i != transposition::slot_of(curr_key, slots.len() as int) {
                        assert(self.table().slots()[i] == slots[i]);
                    }
                }
            }
        }
        Ok(window.0)
    }

    /// Empties the table and starts the count of positions anew.
    pub fn reset(&mut self)
        requires
            old(self).wf(),
        ensures
            final(self).wf(),
            final(self).spec_game() == old(self).spec_game(),
            final(self).count() == 0,
            final(self).book() == old(self).book(),
            final(self).sound(),
            final(self).table().slots().len() == old(self).table().slots().len(),
            forall|i: int| 0 <= i < final(self).table().slots().len() ==> (#[trigger] final(self).table().slots()[i]).is_none(),
            final(self).table().kept() == old(self).table().kept(),
    {
        self.t.reset();
        self.count = 0;
    }

    /// Plays `moves` from the empty board and scores the position reached.
    pub fn solve(&mut self, moves: &Vec<u16>) -> (r: Result<(State, i32), GameError>)
        requires
            old(self).wf(),
        ensures
            final(self).wf(),
            final(self).spec_game() == old(self).spec_game(),
            final(self).count() >= old(self).count(),
            final(self).book() == old(self).book(),
            match r {
                Ok(_) => old(self).count() < usize::MAX ==> final(self).count() > old(self).count(),
                Err(_) => final(self).count() == old(self).count() && final(self).table().slots() == old(self).table().slots(),
            },
            match r {
                Ok((s, score)) => {
                    &&& replay_ok(start_of(old(self).spec_game()), moves@)
                    &&& s.wf()
                    &&& s@ == replay(start_of(old(self).spec_game()), moves@)
                    &&& -old(self).total() <= score <= old(self).total()
                    &&& match s@.bound() {
                        StateResult::Immediate(v) => score == v,
                        StateResult::Bounds(_) => true,
                    }
                    &&& old(self).sound() ==> score == value(s@.position()) && score == outcome(s@.position())
                },
                Err(e) => e == GameError::InvalidMove && !replay_ok(start_of(old(self).spec_game()), moves@),
            },
            old(self).sound() ==> final(self).sound(),
    {
        let mut s = self.game.start();
        match s.play_multiple(moves) {
            Ok(()) => {},
            Err(e) => {
                return Err(e);
            },
        }
        proof {
            let p = s@.position();
            lemma_position_bounds(s@.player, s@.mask, s@.width, s@.height);
            lemma_stones_left(self.total(), s@.plies());
            lemma_bound_of_position(s@);
            lemma_value_range(p);
            lemma_value_is_outcome(p);
            assert(p.width * p.height <= 64) by (nonlinear_arith)
                requires
                    p.width <= 8,
                    p.height <= 8,
            ;
        }
        let bound = match s.bound() {
            StateResult::Immediate(v) => (v, v),
            StateResult::Bounds(bound) => bound,
        };
        match self.negamax(&mut s, bound, false) {
            Ok(score) => Ok((s, score)),
            Err(e) => Err(e),
        }
    }

    /// Searches the empty board within what the stones left allow, and logs to the book.
    pub fn log_from_start(&mut self) -> (r: Result<(), GameError>)
        requires
            old(self).wf(),
        ensures
            final(self).wf(),
            final(self).spec_game() == old(self).spec_game(),
            final(self).count() >= old(self).count(),
            old(self).count() < usize::MAX ==> final(self).count() > old(self).count(),
            r is Ok,
            old(self).sound() ==> final(self).sound(),
            ({
                let start = start_of(old(self).spec_game());
                old(self).sound() && start.bound() is Bounds && value(start.position()) < upper_end(
                    start,
                    old(self).table().slots(),
                    start.my_left(),
                ) ==> transposition::lookup(final(self).table().slots(), start.key()) == Some(
                    value(start.position()) as i8,
                ) && final(self).book().contains_key(start.key()) && final(self).book()[start.key()] == value(
                    start.position(),
                ) as i8
            }),
    {
        let mut s = self.game.start();
        proof {
            let p = s@.position();
            crate::rules::lemma_empty_board(s@.width, s@.height);
            lemma_position_bounds(s@.player, s@.mask, s@.width, s@.height);
            lemma_stones_left(self.total(), s@.plies());
            lemma_bound_of_position(s@);
            lemma_value_range(p);
            assert(p.width * p.height <= 64) by (nonlinear_arith)
                requires
                    p.width <= 8,
                    p.height <= 8,
            ;
        }
        let bound = match s.bound() {
            StateResult::Immediate(v) => (v, v),
            StateResult::Bounds(bound) => bound,
        };
        match self.negamax(&mut s, bound, true) {
            Ok(_) => Ok(()),
            Err(e) => Err(e),
        }
    }

    /// The first twelve keys of the book, in the order in which the book
    /// yields them, each drawn as a board.
    pub fn compile_book(&self) -> (boards: Vec<String>)
        requires
            self.wf(),
        ensures
            boards.len() == (if self.book().dom().len() < 12 { self.book().dom().len() } else { 12 }),
            forall|i: int| 0 <= i < boards.len() ==> self.draws(#[trigger] boards[i]@),
    {
        let mut boards: Vec<String> = Vec::new();
        let mut count: usize = 0;
        let w = self.game.width();
        let h = self.game.height();
        let ghost v = vstd::std_specs::hash::spec_hash_map_iter(&self.book).remaining();
        let ghost mut walked: int = 0;
        for (k, _v) in it: self.book.iter()
            invariant
                it.seq() == v,
                v.len() == self.book().dom().len(),
                walked == it.index(),
                self.wf(),
                w == self.spec_game().width(),
                h == self.spec_game().height(),
                count == boards.len(),
                count == it.index(),
                count <= 11,
                forall|i: int| 0 <= i < boards.len() ==> self.draws(#[trigger] boards[i]@),
        {
            let ghost before = boards@;
            proof {
                walked = walked + 1;
                assert(it.index() < v.len());
                assert(self.book().contains_key(*v[it.index()].0));
            }
            let text = _format_board(*k, w, h);
            assert(self.draws(text@));
            boards.push(text);
            proof {
                assert forall|i: int| 0 <= i < boards.len() implies self.draws(#[trigger] boards[i]@) by {
                    if i < before.len() {
                        assert(boards[i] == before[i]);
                    }
                }
            }
            if count > 10 {
                return boards;
            } else {
                count += 1;
            }
        }
        assert(walked == v.len());
        boards
    }

    /// Whether `text` is the drawing of a key of the book.
    pub open spec fn draws(&self, text: Seq<char>) -> bool {
        exists|k: u64| #[trigger] self.book().contains_key(k) && text == bit_rows(
            k,
            self.spec_game().width(),
            self.spec_game().height(),
            (self.spec_game().height() + 1) as nat,
        )
    }
}

} // verus!
