//! When a store can be trusted: every score in it is true of every position
//! that its key stands for.

use vstd::prelude::*;
use crate::masks::fits;
use crate::rules::{key_of, position_ok};
use crate::solver::game_table::table::{lookup, slot_of, stored};
use crate::solver::game_table::{book_stored, fresh, GameTableUsize, GameTableView, Tiers};
use crate::solver::NegamaxResult;
use crate::value::{lemma_same_key, value, Position};

verus! {

/// Whether a stored score is true of a position whose score is `v`: an exact
/// score is the score, and one from a search cut short is no lower.
pub open spec fn agrees(e: NegamaxResult, v: int) -> bool {
    match e {
        NegamaxResult::Actual(s) => v == s,
        NegamaxResult::Pruned(s) => v <= s,
    }
}

/// Whether entry `e` under key `k` is true of every position of the board that has this key.
pub open spec fn entry_sound(k: u64, e: NegamaxResult, width: u8, height: u8) -> bool {
    forall|player: u64, mask: u64|
        position_ok(player, mask, width, height) && #[trigger] key_of(player, mask, width, height)
            == k ==> agrees(e, value(Position { width, height, player, mask }))
}

impl GameTableView {
    /// Whether every entry of every book and table is true of the positions it stands for.
    pub open spec fn sound(self) -> bool {
        &&& forall|b: int, k: u64|
            0 <= b < self.books.len() && #[trigger] self.books[b].contains_key(k) ==> entry_sound(
                k,
                self.books[b][k],
                self.width,
                self.height,
            )
        &&& forall|t: int, i: int|
            0 <= t < self.tables.len() && 0 <= i < self.tables[t].len() ==> match #[trigger] self.tables[t][i] {
                Some((k, e)) => entry_sound(k, e, self.width, self.height),
                None => true,
            }
    }
}

/// An empty store can be trusted.
pub proof fn lemma_fresh_sound(width: u8, height: u8, sizes: Tiers)
    ensures
        fresh(width, height, sizes).sound(),
{
}

/// A store that can be trusted can still be trusted after its tables were emptied.
pub proof fn lemma_reset_sound(v: GameTableView, w: GameTableView)
    requires
        v.sound(),
        w.width == v.width,
        w.height == v.height,
        w.books == v.books,
        forall|j: int, i: int| 0 <= j < w.tables.len() && 0 <= i < w.tables[j].len() ==> (#[trigger] w.tables[j][i]).is_none(),
    ensures
        w.sound(),
{
}

/// What is true of a position is true of every position with its key.
pub proof fn lemma_entry_sound(p: Position, e: NegamaxResult)
    requires
        p.ok(),
        agrees(e, value(p)),
    ensures
        entry_sound(p.key(), e, p.width, p.height),
{
    assert forall|player: u64, mask: u64|
        position_ok(player, mask, p.width, p.height) && #[trigger] key_of(player, mask, p.width, p.height)
            == p.key() implies agrees(e, value(Position { width: p.width, height: p.height, player, mask })) by {
        let q = Position { width: p.width, height: p.height, player, mask };
        lemma_same_key(p, q);
    }
}

/// A store that can be trusted can still be trusted after it was offered a true score.
pub proof fn lemma_put_sound(v: GameTableView, ply: int, key: u64, score: NegamaxResult)
    requires
        v.ok(),
        v.sound(),
        0 <= ply < v.total(),
        entry_sound(key, score, v.width, v.height),
    ensures
        v.put(ply, key, score).sound(),
{
    let w = v.put(ply, key, score);
    match v.tiers[ply] {
        GameTableUsize::Book(i) => {
            assert forall|b: int, k: u64| 0 <= b < w.books.len() && #[trigger] w.books[b].contains_key(k) implies entry_sound(
                k,
                w.books[b][k],
                w.width,
                w.height,
            ) by {
                if b == i && k == key {
                    if v.books[b].contains_key(k) {
                    }
                } else {
                    assert(v.books[b].contains_key(k));
                }
            }
            assert forall|t: int, j: int| 0 <= t < w.tables.len() && 0 <= j < w.tables[t].len() implies match #[trigger] w.tables[t][j] {
                Some((k, e)) => entry_sound(k, e, w.width, w.height),
                None => true,
            } by {
                assert(w.tables[t][j] == v.tables[t][j]);
            }
        },
        GameTableUsize::Table(i) => {
            assert forall|t: int, j: int| 0 <= t < w.tables.len() && 0 <= j < w.tables[t].len() implies match #[trigger] w.tables[t][j] {
                Some((k, e)) => entry_sound(k, e, w.width, w.height),
                None => true,
            } by {
                if t == i as int && j == slot_of(key, v.tables[t].len() as int) {
                } else {
                    assert(w.tables[t][j] == v.tables[t][j]);
                }
            }
            assert forall|b: int, k: u64| 0 <= b < w.books.len() && #[trigger] w.books[b].contains_key(k) implies entry_sound(
                k,
                w.books[b][k],
                w.width,
                w.height,
            ) by {
                assert(v.books[b].contains_key(k));
            }
        },
    }
}

/// What a store that can be trusted answers for a position is true of it.
pub proof fn lemma_get_sound(v: GameTableView, ply: int, p: Position, e: NegamaxResult)
    requires
        v.ok(),
        v.sound(),
        0 <= ply < v.total(),
        p.ok(),
        p.width == v.width,
        p.height == v.height,
        v.get(ply, p.key()) == Some(e),
    ensures
        agrees(e, value(p)),
{
    match v.tiers[ply] {
        GameTableUsize::Book(i) => {
            assert(v.books[i as int].contains_key(p.key()));
            assert(entry_sound(p.key(), e, v.width, v.height));
        },
        GameTableUsize::Table(i) => {
            let t = v.tables[i as int];
            let j = slot_of(p.key(), t.len() as int);
            assert(0 <= j < t.len());
            assert(t[j] == Some((p.key(), e)));
            assert(entry_sound(p.key(), e, v.width, v.height));
        },
    }
    assert(key_of(p.player, p.mask, p.width, p.height) == p.key());
}

/// What a search within the window from `lo` to `hi` may answer for a
/// position whose score is `v`: an answer below `hi` is no less than the
/// score, and an answer above `lo` is no more than the score.
pub open spec fn window_answer(answer: int, v: int, lo: int, hi: int) -> bool {
    &&& answer < hi ==> v <= answer
    &&& answer > lo ==> v >= answer
}

/// Any two windows that hold the score of a position get the same answer: the score.
pub proof fn lemma_windows_agree(v: int, first: int, lo1: int, hi1: int, second: int, lo2: int, hi2: int)
    requires
        lo1 <= v <= hi1,
        lo2 <= v <= hi2,
        window_answer(first, v, lo1, hi1),
        window_answer(second, v, lo2, hi2),
    ensures
        first == v,
        second == v,
{
}

} // verus!
