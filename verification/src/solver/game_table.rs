//! The store of scores, tiered by ply: books for the plies near the start,
//! where positions recur and nothing may be lost, fixed-size tables for the rest.

use vstd::prelude::*;
use std::collections::HashMap;
use vstd::std_specs::hash::spec_hash_map_iter;
use vstd::std_specs::iter::IteratorSpec;
use crate::error::GameError;
use crate::game::{Connect4, State};
use crate::masks::{fits, flip_of, key_shaped, key_stones};
use crate::solver::NegamaxResult;
use crate::GameState;

pub mod book;
pub mod table;

use table::{lookup, stored, Table};

verus! {

broadcast use vstd::std_specs::hash::group_hash_axioms;

/// In a layout given to `C4GameTable::new`: the kind of a tier and its
/// capacity. In the store: the kind of a ply's tier and its index among the
/// tiers of that kind.
#[derive(Clone, Copy, Debug, PartialEq, Eq, Structural)]
pub enum GameTableUsize {
    Book(usize),
    Table(usize),
}

/// A layout: for each tier the number of plies it serves, and its kind and capacity.
pub type Tiers = Seq<(usize, GameTableUsize)>;

/// Number of plies that the tiers serve together.
pub open spec fn tiers_total(sizes: Tiers) -> int
    decreases sizes.len(),
{
    if sizes.len() == 0 {
        0
    } else {
        tiers_total(sizes.drop_last()) + sizes.last().0
    }
}

/// Number of books among the tiers.
pub open spec fn count_books(sizes: Tiers) -> int
    decreases sizes.len(),
{
    if sizes.len() == 0 {
        0
    } else {
        count_books(sizes.drop_last()) + if sizes.last().1 is Book { 1int } else { 0int }
    }
}

/// Number of tables among the tiers.
pub open spec fn count_tables(sizes: Tiers) -> int
    decreases sizes.len(),
{
    if sizes.len() == 0 {
        0
    } else {
        count_tables(sizes.drop_last()) + if sizes.last().1 is Table { 1int } else { 0int }
    }
}

/// The capacities of the tables among the tiers, in order.
pub open spec fn capacities(sizes: Tiers) -> Seq<usize>
    decreases sizes.len(),
{
    if sizes.len() == 0 {
        Seq::empty()
    } else {
        match sizes.last().1 {
            GameTableUsize::Book(_) => capacities(sizes.drop_last()),
            GameTableUsize::Table(v) => capacities(sizes.drop_last()).push(v),
        }
    }
}

/// The tier of each ply: the plies of the first tier, then those of the
/// second, and so on, each marked with its tier's index among its kind.
pub open spec fn layout(sizes: Tiers) -> Seq<GameTableUsize>
    decreases sizes.len(),
{
    if sizes.len() == 0 {
        Seq::empty()
    } else {
        let rest = sizes.drop_last();
        let tier = match sizes.last().1 {
            GameTableUsize::Book(_) => GameTableUsize::Book(count_books(rest) as usize),
            GameTableUsize::Table(_) => GameTableUsize::Table(count_tables(rest) as usize),
        };
        layout(rest) + Seq::new(sizes.last().0 as nat, |i: int| tier)
    }
}

/// The tiers of a layout are counted, and its plies are the sum of their sizes.
pub proof fn lemma_layout(sizes: Tiers)
    ensures
        layout(sizes).len() == tiers_total(sizes),
        0 <= count_books(sizes) <= sizes.len(),
        0 <= count_tables(sizes) <= sizes.len(),
        capacities(sizes).len() == count_tables(sizes),
        forall|p: int| 0 <= p < layout(sizes).len() ==> match #[trigger] layout(sizes)[p] {
            GameTableUsize::Book(i) => i < count_books(sizes),
            GameTableUsize::Table(i) => i < count_tables(sizes),
        },
    decreases sizes.len(),
{
    if sizes.len() > 0 {
        lemma_layout(sizes.drop_last());
    }
}

/// The plies served by the first tiers of a layout are among those served by all.
pub proof fn lemma_tiers_total_grows(sizes: Tiers, n: int)
    requires
        0 <= n <= sizes.len(),
    ensures
        tiers_total(sizes.take(n)) <= tiers_total(sizes),
    decreases sizes.len(),
{
    if n < sizes.len() {
        assert(sizes.drop_last().take(n) =~= sizes.take(n));
        lemma_tiers_total_grows(sizes.drop_last(), n);
    } else {
        assert(sizes.take(n) =~= sizes);
    }
}

/// The score that an entry holds.
pub open spec fn score_in(v: NegamaxResult) -> int {
    match v {
        NegamaxResult::Actual(s) => s as int,
        NegamaxResult::Pruned(s) => s as int,
    }
}

/// Whether a score may stand in a store of a board of `total` cells: one
/// from a search cut short lies within the cells; an exact one, which may
/// come from a book, is taken as it is.
pub open spec fn score_fits(v: NegamaxResult, total: int) -> bool {
    match v {
        NegamaxResult::Actual(_) => true,
        NegamaxResult::Pruned(s) => -total <= s <= total,
    }
}

/// Whether key `k` may stand in a book with value `v`: the key of a score
/// that is still to be made exact has the shape of a key and is the greater
/// of the two keys of its position, so that the position can be set up and
/// searched again.
pub open spec fn book_entry_ok(k: u64, v: NegamaxResult, width: u8, height: u8) -> bool {
    v is Pruned ==> key_shaped(k, width, height) && flip_of(k, width, height) <= k
}

/// A book after `(key, score)` was offered: an exact entry stays, any other gives way.
pub open spec fn book_stored(m: Map<u64, NegamaxResult>, key: u64, score: NegamaxResult) -> Map<
    u64,
    NegamaxResult,
> {
    if m.contains_key(key) && m[key] is Actual {
        m
    } else {
        m.insert(key, score)
    }
}

/// What a store is, apart from how it is held.
pub struct GameTableView {
    pub width: u8,
    pub height: u8,
    /// For each ply its tier.
    pub tiers: Seq<GameTableUsize>,
    pub books: Seq<Map<u64, NegamaxResult>>,
    pub tables: Seq<Seq<Option<(u64, NegamaxResult)>>>,
}

impl GameTableView {
    /// Number of cells of the board.
    pub open spec fn total(self) -> int {
        self.width * self.height
    }

    /// Whether the positions of `ply` stones are kept in book `b`.
    pub open spec fn serves(self, ply: int, b: int) -> bool {
        match self.tiers[ply] {
            GameTableUsize::Book(i) => i == b,
            GameTableUsize::Table(_) => false,
        }
    }

    /// Whether every ply of the board has a tier that exists, every table has
    /// a slot, every score from a search cut short lies within the cells, and
    /// every key of a book counts the stones of a ply that the book serves.
    pub open spec fn ok(self) -> bool {
        &&& fits(self.width, self.height)
        &&& self.tiers.len() == self.total()
        &&& forall|p: int|
            0 <= p < self.tiers.len() ==> match #[trigger] self.tiers[p] {
                GameTableUsize::Book(i) => i < self.books.len(),
                GameTableUsize::Table(i) => i < self.tables.len() && self.tables[i as int].len() > 0,
            }
        &&& forall|b: int, k: u64|
            0 <= b < self.books.len() && #[trigger] self.books[b].contains_key(k) ==> {
                &&& score_fits(self.books[b][k], self.total())
                &&& book_entry_ok(k, self.books[b][k], self.width, self.height)
                &&& 0 <= key_stones(k, self.width, self.height) < self.total()
                &&& self.serves(key_stones(k, self.width, self.height), b)
            }
        &&& forall|t: int, i: int|
            0 <= t < self.tables.len() && 0 <= i < self.tables[t].len() ==> match #[trigger] self.tables[t][i] {
                Some((_, v)) => score_fits(v, self.total()),
                None => true,
            }
    }

    /// What the store answers for a position of `ply` stones with key `key`.
    pub open spec fn get(self, ply: int, key: u64) -> Option<NegamaxResult> {
        match self.tiers[ply] {
            GameTableUsize::Book(i) => if self.books[i as int].contains_key(key) {
                Some(self.books[i as int][key])
            } else {
                None
            },
            GameTableUsize::Table(i) => lookup(self.tables[i as int], key),
        }
    }

    /// The store after `score` was offered for a position of `ply` stones with key `key`.
    pub open spec fn put(self, ply: int, key: u64, score: NegamaxResult) -> GameTableView {
        match self.tiers[ply] {
            GameTableUsize::Book(i) => GameTableView {
                books: self.books.update(i as int, book_stored(self.books[i as int], key, score)),
                ..self
            },
            GameTableUsize::Table(i) => GameTableView {
                tables: self.tables.update(i as int, stored(self.tables[i as int], key, score)),
                ..self
            },
        }
    }

    /// Whether one of the first `n` books holds `k` with a score still to be made exact.
    pub open spec fn is_pruned_before(self, k: u64, n: int) -> bool {
        exists|b: int| 0 <= b < n && b < self.books.len() && #[trigger] self.books[b].contains_key(k) && self.books[b][k] is Pruned
    }

    /// Whether a book holds `k` with a score still to be made exact.
    pub open spec fn is_pruned(self, k: u64) -> bool {
        self.is_pruned_before(k, self.books.len() as int)
    }

    /// Whether a book holds `k` with an exact score.
    pub open spec fn is_actual(self, k: u64) -> bool {
        exists|b: int| 0 <= b < self.books.len() && #[trigger] self.books[b].contains_key(k) && self.books[b][k] is Actual
    }

    /// Whether `later` can have come from this store by offers alone: the
    /// tiers are the same, no book has lost a key, and no exact score in a
    /// book has changed.
    pub open spec fn grows_to(self, later: GameTableView) -> bool {
        &&& self.width == later.width
        &&& self.height == later.height
        &&& self.tiers == later.tiers
        &&& self.books.len() == later.books.len()
        &&& self.tables.len() == later.tables.len()
        &&& forall|b: int, k: u64|
            0 <= b < self.books.len() && #[trigger] self.books[b].contains_key(k) ==> {
                &&& later.books[b].contains_key(k)
                &&& self.books[b][k] is Actual ==> later.books[b][k] == self.books[b][k]
            }
    }

    /// Whether `later` differs from this store only by entries of positions
    /// of `ply` stones or more: the books hold under every other key what
    /// they held, and a slot of a table holds what it held or such an entry.
    pub open spec fn keeps_below(self, later: GameTableView, ply: int) -> bool {
        &&& self.books.len() == later.books.len()
        &&& self.tables.len() == later.tables.len()
        &&& forall|b: int, k: u64|
            #![trigger later.books[b].contains_key(k)]
            #![trigger self.books[b].contains_key(k)]
            0 <= b < self.books.len() && key_stones(k, self.width, self.height) < ply ==> {
                &&& later.books[b].contains_key(k) <==> self.books[b].contains_key(k)
                &&& self.books[b].contains_key(k) ==> later.books[b][k] == self.books[b][k]
            }
        &&& forall|t: int| 0 <= t < self.tables.len() ==> (#[trigger] later.tables[t]).len() == self.tables[t].len()
        &&& forall|t: int, i: int|
            0 <= t < self.tables.len() && 0 <= i < self.tables[t].len() ==> (#[trigger] later.tables[t][i])
                == self.tables[t][i] || match later.tables[t][i] {
                Some((k, _)) => key_stones(k, self.width, self.height) >= ply,
                None => false,
            }
    }

    /// Whether `score` may be offered for a position of `ply` stones with key `key`.
    pub open spec fn accepts(self, ply: int, key: u64, score: NegamaxResult) -> bool {
        &&& 0 <= ply < self.total()
        &&& score_fits(score, self.total())
        &&& key_stones(key, self.width, self.height) == ply
        &&& self.tiers[ply] is Book ==> book_entry_ok(key, score, self.width, self.height)
    }

    /// Whether every score in the store lies within the cells of the board.
    pub open spec fn all_within(self) -> bool {
        &&& forall|b: int, k: u64|
            0 <= b < self.books.len() && #[trigger] self.books[b].contains_key(k) ==> -self.total() <= score_in(
                self.books[b][k],
            ) <= self.total()
        &&& forall|t: int, i: int|
            0 <= t < self.tables.len() && 0 <= i < self.tables[t].len() ==> match #[trigger] self.tables[t][i] {
                Some((_, v)) => -self.total() <= score_in(v) <= self.total(),
                None => true,
            }
    }
}

/// A store stays in order when it is offered what it accepts.
pub proof fn lemma_put_ok(v: GameTableView, ply: int, key: u64, score: NegamaxResult)
    requires
        v.ok(),
        v.accepts(ply, key, score),
    ensures
        v.put(ply, key, score).ok(),
{
    let w = v.put(ply, key, score);
    match v.tiers[ply] {
        GameTableUsize::Book(i) => {
            assert forall|b: int, k: u64| 0 <= b < w.books.len() && #[trigger] w.books[b].contains_key(k) implies {
                &&& score_fits(w.books[b][k], w.total())
                &&& book_entry_ok(k, w.books[b][k], w.width, w.height)
                &&& 0 <= key_stones(k, w.width, w.height) < w.total()
                &&& w.serves(key_stones(k, w.width, w.height), b)
            } by {
                if b == i && k == key {
                } else {
                    assert(v.books[b].contains_key(k));
                }
            }
        },
        GameTableUsize::Table(i) => {
            assert forall|t: int, j: int| 0 <= t < w.tables.len() && 0 <= j < w.tables[t].len() implies match #[trigger] w.tables[t][j] {
                Some((_, x)) => score_fits(x, w.total()),
                None => true,
            } by {
                if t == i as int && j == table::slot_of(key, v.tables[t].len() as int) {
                } else {
                    assert(w.tables[t][j] == v.tables[t][j]);
                }
            }
            assert forall|p: int| 0 <= p < w.tiers.len() implies match #[trigger] w.tiers[p] {
                GameTableUsize::Book(j) => j < w.books.len(),
                GameTableUsize::Table(j) => j < w.tables.len() && w.tables[j as int].len() > 0,
            } by {
                assert(v.tiers[p] == w.tiers[p]);
            }
        },
    }
}

/// A store whose scores lie within the cells keeps them there when it is
/// offered such a score.
pub proof fn lemma_put_within(v: GameTableView, ply: int, key: u64, score: NegamaxResult)
    requires
        v.ok(),
        v.all_within(),
        0 <= ply < v.total(),
        -v.total() <= score_in(score) <= v.total(),
    ensures
        v.put(ply, key, score).all_within(),
{
    let w = v.put(ply, key, score);
    match v.tiers[ply] {
        GameTableUsize::Book(i) => {
            assert forall|b: int, k: u64| 0 <= b < w.books.len() && #[trigger] w.books[b].contains_key(k) implies -w.total()
                <= score_in(w.books[b][k]) <= w.total() by {
                if b == i && k == key {
                    if v.books[b].contains_key(k) {
                    }
                } else {
                    assert(v.books[b].contains_key(k));
                }
            }
            assert forall|t: int, j: int| 0 <= t < w.tables.len() && 0 <= j < w.tables[t].len() implies match #[trigger] w.tables[t][j] {
                Some((_, x)) => -w.total() <= score_in(x) <= w.total(),
                None => true,
            } by {
                assert(w.tables[t][j] == v.tables[t][j]);
            }
        },
        GameTableUsize::Table(i) => {
            assert forall|t: int, j: int| 0 <= t < w.tables.len() && 0 <= j < w.tables[t].len() implies match #[trigger] w.tables[t][j] {
                Some((_, x)) => -w.total() <= score_in(x) <= w.total(),
                None => true,
            } by {
                if t == i as int && j == table::slot_of(key, v.tables[t].len() as int) {
                } else {
                    assert(w.tables[t][j] == v.tables[t][j]);
                }
            }
            assert forall|b: int, k: u64| 0 <= b < w.books.len() && #[trigger] w.books[b].contains_key(k) implies -w.total()
                <= score_in(w.books[b][k]) <= w.total() by {
                assert(v.books[b].contains_key(k));
            }
        },
    }
}

/// Whether one of the first `n` entries that a walk through a book yields
/// holds `k` with a score still to be made exact.
pub open spec fn seen_pruned(seq: Seq<(&u64, &NegamaxResult)>, n: int, k: u64) -> bool {
    exists|i: int| 0 <= i < n && *(#[trigger] seq[i]).0 == k && *seq[i].1 is Pruned
}

/// The empty store of a board of `width` by `height` with the tiers of `sizes`.
pub open spec fn fresh(width: u8, height: u8, sizes: Tiers) -> GameTableView {
    GameTableView {
        width,
        height,
        tiers: layout(sizes),
        books: Seq::new(count_books(sizes) as nat, |b: int| Map::<u64, NegamaxResult>::empty()),
        tables: Seq::new(
            count_tables(sizes) as nat,
            |j: int| Seq::new(capacities(sizes)[j] as nat, |i: int| None::<(u64, NegamaxResult)>),
        ),
    }
}

/// Every store has grown to itself, and growth goes on through further growth.
pub proof fn lemma_grows(u: GameTableView, v: GameTableView, w: GameTableView)
    ensures
        u.grows_to(u),
        u.grows_to(v) && v.grows_to(w) ==> u.grows_to(w),
{
    if u.grows_to(v) && v.grows_to(w) {
        assert forall|b: int, k: u64| 0 <= b < u.books.len() && #[trigger] u.books[b].contains_key(k) implies {
            &&& w.books[b].contains_key(k)
            &&& u.books[b][k] is Actual ==> w.books[b][k] == u.books[b][k]
        } by {
            assert(v.books[b].contains_key(k));
        }
    }
}

/// What a store keeps through one change and then through another it keeps
/// through both, and what it keeps below one ply it keeps below any lower.
pub proof fn lemma_keeps(u: GameTableView, v: GameTableView, w: GameTableView, ply: int, lower: int)
    requires
        u.width == v.width,
        u.height == v.height,
        lower <= ply,
    ensures
        u.keeps_below(u, ply),
        u.keeps_below(v, ply) ==> u.keeps_below(v, lower),
        u.keeps_below(v, ply) && v.keeps_below(w, ply) ==> u.keeps_below(w, ply),
{
    if u.keeps_below(v, ply) && v.keeps_below(w, ply) {
        assert forall|b: int, k: u64|
            #![trigger w.books[b].contains_key(k)]
            #![trigger u.books[b].contains_key(k)]
            0 <= b < u.books.len() && key_stones(k, u.width, u.height) < ply implies {
                &&& w.books[b].contains_key(k) <==> u.books[b].contains_key(k)
                &&& u.books[b].contains_key(k) ==> w.books[b][k] == u.books[b][k]
            } by {
            assert(v.books[b].contains_key(k) <==> u.books[b].contains_key(k));
            assert(w.books[b].contains_key(k) <==> v.books[b].contains_key(k));
        }
        assert forall|t: int| 0 <= t < u.tables.len() implies (#[trigger] w.tables[t]).len() == u.tables[t].len() by {
            assert(v.tables[t].len() == u.tables[t].len());
        }
        assert forall|t: int, i: int| 0 <= t < u.tables.len() && 0 <= i < u.tables[t].len() implies (#[trigger] w.tables[t][i])
            == u.tables[t][i] || match w.tables[t][i] {
            Some((k, _)) => key_stones(k, u.width, u.height) >= ply,
            None => false,
        } by {
            assert(v.tables[t].len() == u.tables[t].len());
            assert(v.tables[t][i] == u.tables[t][i] || match v.tables[t][i] {
                Some((k, _)) => key_stones(k, u.width, u.height) >= ply,
                None => false,
            });
        }
    }
    if u.keeps_below(v, ply) {
        assert forall|t: int, i: int| 0 <= t < u.tables.len() && 0 <= i < u.tables[t].len() implies (#[trigger] v.tables[t][i])
            == u.tables[t][i] || match v.tables[t][i] {
            Some((k, _)) => key_stones(k, u.width, u.height) >= lower,
            None => false,
        } by {
        }
    }
}

/// An offer for a position of `ply` stones changes nothing but that
/// position's entry. And what the store then answers for the position
/// depends only on what its book held for it: two stores whose books agree
/// under the key answer alike.
pub proof fn lemma_put_keeps(u: GameTableView, v: GameTableView, ply: int, key: u64, score: NegamaxResult)
    requires
        u.ok(),
        v.ok(),
        u.accepts(ply, key, score),
        u.grows_to(v),
        u.keeps_below(v, ply + 1),
    ensures
        u.keeps_below(u.put(ply, key, score), ply),
        v.put(ply, key, score).get(ply, key) == u.put(ply, key, score).get(ply, key),
{
    let w = u.put(ply, key, score);
    match u.tiers[ply] {
        GameTableUsize::Book(i) => {
            assert(v.books[i as int].contains_key(key) <==> u.books[i as int].contains_key(key));
        },
        GameTableUsize::Table(i) => {
            assert(u.tables[i as int].len() > 0);
            assert(v.tables[i as int].len() > 0);
            assert(v.tables[i as int].len() == u.tables[i as int].len());
            assert forall|t: int, j: int| 0 <= t < u.tables.len() && 0 <= j < u.tables[t].len() implies (#[trigger] w.tables[t][j])
                == u.tables[t][j] || match w.tables[t][j] {
                Some((k, _)) => key_stones(k, u.width, u.height) >= ply,
                None => false,
            } by {
                if t == i as int && j == table::slot_of(key, u.tables[t].len() as int) {
                } else {
                    assert(w.tables[t][j] == u.tables[t][j]);
                }
            }
        },
    }
}

/// A store that differs from an earlier one only by entries of positions of
/// more than `ply` stones answers for a position of `ply` stones what the
/// earlier one answered, unless the entry was in a table and has given way;
/// and where the earlier had no answer it has none.
pub proof fn lemma_own_entry_kept(u: GameTableView, v: GameTableView, ply: int, key: u64)
    requires
        u.ok(),
        u.grows_to(v),
        u.keeps_below(v, ply + 1),
        0 <= ply < u.total(),
        key_stones(key, u.width, u.height) == ply,
    ensures
        u.tiers[ply] is Book ==> v.get(ply, key) == u.get(ply, key),
        u.get(ply, key).is_none() ==> v.get(ply, key).is_none(),
{
    match u.tiers[ply] {
        GameTableUsize::Book(i) => {
            assert(v.books[i as int].contains_key(key) <==> u.books[i as int].contains_key(key));
        },
        GameTableUsize::Table(i) => {
            let j = table::slot_of(key, u.tables[i as int].len() as int);
            assert(u.tables[i as int].len() > 0);
            assert(v.tables[i as int].len() == u.tables[i as int].len());
            assert(v.tables[i as int][j] == u.tables[i as int][j] || match v.tables[i as int][j] {
                Some((k, _)) => key_stones(k, u.width, u.height) >= ply + 1,
                None => false,
            });
        },
    }
}

/// A store grows by every offer.
pub proof fn lemma_put_grows(u: GameTableView, ply: int, key: u64, score: NegamaxResult)
    requires
        u.ok(),
        0 <= ply < u.total(),
    ensures
        u.grows_to(u.put(ply, key, score)),
{
}

/// The store of scores of one board.
pub struct C4GameTable {
    game: Connect4,
    indices: Vec<GameTableUsize>,
    books: Vec<HashMap<u64, NegamaxResult>>,
    tables: Vec<Table>,
    write_books: bool,
}

impl View for C4GameTable {
    type V = GameTableView;

    closed spec fn view(&self) -> GameTableView {
        GameTableView {
            width: self.game.width(),
            height: self.game.height(),
            tiers: self.indices@,
            books: Seq::new(self.books@.len(), |i: int| self.books@[i]@),
            tables: Seq::new(self.tables@.len(), |i: int| self.tables@[i]@),
        }
    }
}

impl C4GameTable {
    /// The board that the store serves.
    pub closed spec fn spec_game(&self) -> Connect4 {
        self.game
    }

    /// Whether the store is in order and its board is.
    pub open spec fn wf(&self) -> bool {
        &&& self@.ok()
        &&& self.spec_game().wf()
        &&& self.spec_game().width() == self@.width
        &&& self.spec_game().height() == self@.height
    }

    /// An empty store for `game` with the tiers of `sizes`, which must serve
    /// every ply of the board and no more.
    pub fn new(game: Connect4, sizes: Vec<(usize, GameTableUsize)>) -> (r: Result<Self, GameError>)
        requires
            game.wf(),
            forall|i: int| 0 <= i < sizes.len() ==> match #[trigger] sizes[i].1 {
                GameTableUsize::Book(_) => true,
                GameTableUsize::Table(v) => v > 0,
            },
        ensures
            match r {
                Ok(t) => {
                    &&& tiers_total(sizes@) == game.width() * game.height()
                    &&& t.wf()
                    &&& t.spec_game() == game
                    &&& t@ == fresh(game.width(), game.height(), sizes@)
                },
                Err(e) => e == GameError::TableConfigMismatch && tiers_total(sizes@) != game.width() * game.height(),
            },
    {
        let mut books_len: usize = 0;
        let mut tables_len: usize = 0;
        let total = game.total_stones() as usize;
        let mut indices: Vec<GameTableUsize> = Vec::with_capacity(total);
        let mut n: usize = 0;
        while n < sizes.len()
            invariant
                n <= sizes.len(),
                total == game.width() * game.height(),
                indices@ == layout(sizes@.take(n as int)),
                indices.len() <= total,
                books_len == count_books(sizes@.take(n as int)),
                tables_len == count_tables(sizes@.take(n as int)),
            decreases sizes.len() - n,
        {
            let size = sizes[n].0;
            let ghost head = sizes@.take(n as int);
            let ghost upto = sizes@.take(n + 1);
            proof {
                assert(upto.drop_last() =~= head);
                assert(upto.last() == sizes@[n as int]);
                lemma_layout(head);
                lemma_layout(upto);
            }
            if size > total - indices.len() {
                proof {
                    lemma_tiers_total_grows(sizes@, n + 1);
                }
                return Err(GameError::TableConfigMismatch);
            }
            let tier = match sizes[n].1 {
                GameTableUsize::Book(_) => GameTableUsize::Book(books_len),
                GameTableUsize::Table(_) => GameTableUsize::Table(tables_len),
            };
            let mut j: usize = 0;
            while j < size
                invariant
                    j <= size,
                    size <= total - layout(head).len(),
                    indices@ == layout(head) + Seq::new(j as nat, |i: int| tier),
                decreases size - j,
            {
                indices.push(tier);
                j += 1;
                assert(indices@ =~= layout(head) + Seq::new(j as nat, |i: int| tier));
            }
            match sizes[n].1 {
                GameTableUsize::Book(_) => {
                    books_len += 1;
                },
                GameTableUsize::Table(_) => {
                    tables_len += 1;
                },
            }
            n += 1;
        }
        proof {
            assert(sizes@.take(n as int) =~= sizes@);
            lemma_layout(sizes@);
        }
        if indices.len() != total {
            return Err(GameError::TableConfigMismatch);
        }
        let mut books: Vec<HashMap<u64, NegamaxResult>> = Vec::with_capacity(books_len);
        let mut tables: Vec<Table> = Vec::with_capacity(tables_len);
        let mut n: usize = 0;
        while n < sizes.len()
            invariant
                n <= sizes.len(),
                forall|i: int| 0 <= i < sizes.len() ==> match #[trigger] sizes[i].1 {
                    GameTableUsize::Book(_) => true,
                    GameTableUsize::Table(v) => v > 0,
                },
                books.len() == count_books(sizes@.take(n as int)),
                tables.len() == count_tables(sizes@.take(n as int)),
                forall|b: int| 0 <= b < books.len() ==> (#[trigger] books[b])@ == Map::<u64, NegamaxResult>::empty(),
                forall|j: int| 0 <= j < tables.len() ==> (#[trigger] tables[j])@.len() == capacities(sizes@.take(n as int))[j] && tables[j]@.len() > 0,
                forall|j: int, i: int| 0 <= j < tables.len() && 0 <= i < tables[j]@.len() ==> (#[trigger] tables[j]@[i]).is_none(),
            decreases sizes.len() - n,
        {
            proof {
                assert(sizes@.take(n + 1).drop_last() =~= sizes@.take(n as int));
                assert(sizes@.take(n + 1).last() == sizes@[n as int]);
                lemma_layout(sizes@.take(n as int));
            }
            match sizes[n].1 {
                GameTableUsize::Book(v) => {
                    books.push(HashMap::with_capacity(v));
                },
                GameTableUsize::Table(v) => {
                    tables.push(Table::new(v));
                },
            }
            n += 1;
        }
        proof {
            assert(sizes@.take(n as int) =~= sizes@);
        }
        let t = Self { game, indices, books, tables, write_books: true };
        proof {
            assert(t@.tiers == layout(sizes@));
            assert forall|p: int| 0 <= p < t@.tiers.len() implies match #[trigger] t@.tiers[p] {
                GameTableUsize::Book(i) => i < t@.books.len(),
                GameTableUsize::Table(i) => i < t@.tables.len() && t@.tables[i as int].len() > 0,
            } by {
                assert(t@.tiers[p] == layout(sizes@)[p]);
                match t@.tiers[p] {
                    GameTableUsize::Book(i) => {},
                    GameTableUsize::Table(i) => {
                        assert(t@.tables[i as int] == t.tables[i as int]@);
                    },
                }
            }
            assert forall|b: int, k: u64| 0 <= b < t@.books.len() implies !(#[trigger] t@.books[b].contains_key(k)) by {
                assert(t@.books[b] == t.books[b]@);
            }
            assert forall|j: int, i: int| 0 <= j < t@.tables.len() && 0 <= i < t@.tables[j].len() implies (#[trigger] t@.tables[j][i]).is_none() by {
                assert(t@.tables[j] == t.tables[j]@);
            }
            let f = fresh(game.width(), game.height(), sizes@);
            assert(t@.books =~= f.books) by {
                assert forall|b: int| 0 <= b < t@.books.len() implies t@.books[b] =~= f.books[b] by {
                    assert(t@.books[b] == t.books[b]@);
                }
            }
            assert(t@.tables =~= f.tables) by {
                assert forall|j: int| 0 <= j < t@.tables.len() implies t@.tables[j] =~= f.tables[j] by {
                    assert(t@.tables[j] == t.tables[j]@);
                }
            }
        }
        Ok(t)
    }

    /// Empties every table; the books stay.
    pub fn reset(&mut self)
        requires
            old(self).wf(),
        ensures
            final(self).wf(),
            final(self).spec_game() == old(self).spec_game(),
            final(self)@.tiers == old(self)@.tiers,
            final(self)@.books == old(self)@.books,
            final(self)@.tables.len() == old(self)@.tables.len(),
            forall|j: int| 0 <= j < final(self)@.tables.len() ==> (#[trigger] final(self)@.tables[j]).len() == old(self)@.tables[j].len(),
            forall|j: int, i: int| 0 <= j < final(self)@.tables.len() && 0 <= i < final(self)@.tables[j].len() ==> (#[trigger] final(self)@.tables[j][i]).is_none(),
            old(self)@.grows_to(final(self)@),
    {
        let n = self.tables.len();
        let mut j: usize = 0;
        while j < n
            invariant
                j <= n,
                self.tables.len() == n,
                self.game == old(self).game,
                self.indices == old(self).indices,
                self.books == old(self).books,
                forall|t: int| 0 <= t < n ==> (#[trigger] self.tables[t])@.len() == old(self).tables[t]@.len(),
                forall|t: int, i: int| 0 <= t < j && 0 <= i < self.tables[t]@.len() ==> (#[trigger] self.tables[t]@[i]).is_none(),
            decreases n - j,
        {
            self.tables[j].reset();
            j += 1;
        }
        proof {
            let v = old(self)@;
            let w = self@;
            assert(w.books =~= v.books);
            assert forall|p: int| 0 <= p < w.tiers.len() implies match #[trigger] w.tiers[p] {
                GameTableUsize::Book(i) => i < w.books.len(),
                GameTableUsize::Table(i) => i < w.tables.len() && w.tables[i as int].len() > 0,
            } by {
                assert(v.tiers[p] == w.tiers[p]);
                match w.tiers[p] {
                    GameTableUsize::Book(i) => {},
                    GameTableUsize::Table(i) => {
                        assert(v.tables[i as int].len() > 0);
                        assert(w.tables[i as int] == self.tables[i as int]@);
                    },
                }
            }
            assert forall|b: int, k: u64| 0 <= b < w.books.len() && #[trigger] w.books[b].contains_key(k) implies {
                &&& score_fits(w.books[b][k], w.total())
                &&& book_entry_ok(k, w.books[b][k], w.width, w.height)
                &&& 0 <= key_stones(k, w.width, w.height) < w.total()
                &&& w.serves(key_stones(k, w.width, w.height), b)
            } by {
                assert(v.books[b].contains_key(k));
            }
            assert forall|t: int, i: int| 0 <= t < w.tables.len() && 0 <= i < w.tables[t].len() implies (#[trigger] w.tables[t][i]).is_none() by {
                assert(w.tables[t] == self.tables[t]@);
            }
        }
    }

    /// Offers `score` for the position of `moves_num` stones with key `key`.
    /// A table takes it in the key's slot. A book takes it unless it holds
    /// an exact score for the key.
    pub fn insert_key(&mut self, moves_num: &usize, key: u64, score: NegamaxResult)
        requires
            old(self).wf(),
            old(self)@.accepts(*moves_num as int, key, score),
        ensures
            final(self).wf(),
            final(self).spec_game() == old(self).spec_game(),
            final(self)@ == old(self)@.put(*moves_num as int, key, score),
    {
        proof {
            lemma_put_ok(self@, *moves_num as int, key, score);
        }
        match self.indices[*moves_num] {
            GameTableUsize::Book(i) => {
                let book = &mut self.books[i];
                let keep = match book.get(&key) {
                    Some(NegamaxResult::Actual(_)) => true,
                    _ => false,
                };
                if !keep {
                    book.insert(key, score);
                }
                proof {
                    assert(self@.books =~= old(self)@.books.update(
                        i as int,
                        book_stored(old(self)@.books[i as int], key, score),
                    ));
                    assert(self@.tables =~= old(self)@.tables);
                }
            },
            GameTableUsize::Table(i) => {
                let table = &mut self.tables[i];
                table.put(key, score);
                proof {
                    assert(self@.tables =~= old(self)@.tables.update(
                        i as int,
                        stored(old(self)@.tables[i as int], key, score),
                    ));
                    assert(self@.books =~= old(self)@.books);
                }
            },
        }
    }

    /// Offers `score` for position `s`.
    pub fn put(&mut self, s: &State, score: NegamaxResult)
        requires
            old(self).wf(),
            s.wf(),
            s@.width == old(self)@.width,
            s@.height == old(self)@.height,
            s@.plies() < old(self)@.total(),
            score_fits(score, old(self)@.total()),
        ensures
            final(self).wf(),
            final(self).spec_game() == old(self).spec_game(),
            final(self)@ == old(self)@.put(s@.plies(), s@.key(), score),
    {
        let moves_num = s.len();
        proof {
            crate::rules::lemma_key_of(s@.player, s@.mask, s@.width, s@.height);
        }
        self.insert_key(&moves_num, s.key(), score);
    }

    /// The score stored for position `s`, if there is one.
    pub fn get(&self, s: &State) -> (r: Option<&NegamaxResult>)
        requires
            self.wf(),
            s.wf(),
            s@.width == self@.width,
            s@.height == self@.height,
            s@.plies() < self@.total(),
        ensures
            r == match self@.get(s@.plies(), s@.key()) {
                Some(v) => Some(&v),
                None => None,
            },
            match r {
                Some(v) => score_fits(*v, self@.total()),
                None => true,
            },
    {
        let moves_num = s.len();
        match self.indices[moves_num] {
            GameTableUsize::Book(i) => {
                let book = &self.books[i];
                let r = book.get(&s.key());
                proof {
                    assert(self@.books[i as int] == book@);
                }
                r
            },
            GameTableUsize::Table(i) => {
                let table = &self.tables[i];
                proof {
                    assert(self@.tables[i as int] == table@);
                    let j = table::slot_of(s@.key(), table@.len() as int);
                    assert(self@.tables[i as int][j] == table@[j]);
                }
                table.get(s.key())
            },
        }
    }

    /// The keys whose scores in the books are still to be made exact.
    pub fn get_pruned_keys_in_books(&self) -> (ans: Vec<u64>)
        requires
            self.wf(),
        ensures
            forall|k: u64| ans@.contains(k) <==> self@.is_pruned(k),
            ans@.no_duplicates(),
    {
        let mut ans: Vec<u64> = Vec::with_capacity(100);
        let mut b: usize = 0;
        while b < self.books.len()
            invariant
                b <= self.books.len(),
                self.wf(),
                ans@.no_duplicates(),
                forall|k: u64| ans@.contains(k) <==> self@.is_pruned_before(k, b as int),
            decreases self.books.len() - b,
        {
            let book = &self.books[b];
            let ghost before = ans@;
            proof {
                assert(self@.books[b as int] == book@);
            }
            let ghost v = spec_hash_map_iter(book).remaining();
            let ghost mut walked: int = 0;
            for (key, res) in it: book.iter()
                invariant
                    it.seq() == v,
                    walked == it.index(),
                    v.no_duplicates(),
                    self.wf(),
                    b < self.books.len(),
                    book@ == self@.books[b as int],
                    v == spec_hash_map_iter(book).remaining(),
                    ans@.no_duplicates(),
                    forall|k: u64| before.contains(k) <==> self@.is_pruned_before(k, b as int),
                    forall|k: u64| ans@.contains(k) <==> before.contains(k) || seen_pruned(v, walked, k),
            {
                let ghost inner = ans@;
                let ghost at = it.index();
                let ghost seq = it.seq();
                proof {
                    walked = walked + 1;
                    assert(book@.contains_key(*v[at].0) && book@[*v[at].0] == *v[at].1);
                    if inner.contains(*key) {
                        if before.contains(*key) {
                            let c = choose|c: int| 0 <= c < b && c < self@.books.len() && #[trigger] self@.books[c].contains_key(*key) && self@.books[c][*key] is Pruned;
                            assert(self@.books[b as int].contains_key(*key));
                            assert(self@.serves(key_stones(*key, self@.width, self@.height), c));
                            assert(self@.serves(key_stones(*key, self@.width, self@.height), b as int));
                        } else {
                            let i = choose|i: int| 0 <= i < at && *(#[trigger] v[i]).0 == *key && *v[i].1 is Pruned;
                            assert(book@.contains_key(*v[i].0) && book@[*v[i].0] == *v[i].1);
                            assert(v[i] == v[at]);
                        }
                    }
                    assert(!inner.contains(*key));
                    assert forall|k: u64| seen_pruned(seq, at + 1, k) <==> seen_pruned(seq, at, k) || (*seq[at].0 == k && *seq[at].1 is Pruned) by {
                        if seen_pruned(seq, at + 1, k) {
                            let i = choose|i: int| 0 <= i < at + 1 && *(#[trigger] seq[i]).0 == k && *seq[i].1 is Pruned;
                            if i < at {
                                assert(seen_pruned(seq, at, k));
                            }
                        }
                        if seen_pruned(seq, at, k) {
                            let i = choose|i: int| 0 <= i < at && *(#[trigger] seq[i]).0 == k && *seq[i].1 is Pruned;
                            assert(0 <= i < at + 1);
                        }
                    }
                }
                if let NegamaxResult::Pruned(_) = res {
                    ans.push(*key);
                    proof {
                        assert(ans@ =~= inner.push(*key));
                        assert forall|k: u64| ans@.contains(k) <==> inner.contains(k) || k == *key by {
                            if inner.contains(k) {
                                let j = choose|j: int| 0 <= j < inner.len() && inner[j] == k;
                                assert(ans@[j] == k);
                            }
                            if k == *key {
                                assert(ans@[inner.len() as int] == k);
                            }
                        }
                    }
                }
            }
            proof {
                assert(walked == v.len());
                assert forall|k: u64| self@.is_pruned_before(k, b + 1) implies ans@.contains(k) by {
                    let c = choose|c: int| 0 <= c < b + 1 && c < self@.books.len() && #[trigger] self@.books[c].contains_key(k) && self@.books[c][k] is Pruned;
                    if c < b {
                        assert(self@.is_pruned_before(k, b as int));
                        assert(before.contains(k));
                    } else {
                        assert(book@.contains_key(k) && book@[k] is Pruned);
                        assert(v.contains((&k, &book@[k])));
                        let i = choose|i: int| 0 <= i < v.len() && v[i] == (&k, &book@[k]);
                        assert(*v[i].0 == k && *v[i].1 is Pruned);
                        assert(seen_pruned(v, walked, k));
                    }
                    assert(before.contains(k) || seen_pruned(v, walked, k));
                }
                assert forall|k: u64| ans@.contains(k) implies self@.is_pruned_before(k, b + 1) by {
                    if before.contains(k) {
                        assert(self@.is_pruned_before(k, b as int));
                        let c = choose|c: int| 0 <= c < b && c < self@.books.len() && #[trigger] self@.books[c].contains_key(k) && self@.books[c][k] is Pruned;
                        assert(0 <= c < b + 1 && self@.books[c].contains_key(k));
                    } else {
                        assert(seen_pruned(v, v.len() as int, k));
                        let i = choose|i: int| 0 <= i < v.len() && *(#[trigger] v[i]).0 == k && *v[i].1 is Pruned;
                        assert(book@.contains_key(*v[i].0));
                        assert(book@[*v[i].0] == *v[i].1);
                        assert(self@.books[b as int].contains_key(k));
                        assert(self@.books[b as int][k] is Pruned);
                    }
                }
            }
            b += 1;
        }
        ans
    }

    /// The board that the store serves.
    #[verifier::when_used_as_spec(spec_game)]
    pub fn game(&self) -> (g: Connect4)
        ensures
            g == self.spec_game(),
    {
        self.game
    }
}

} // verus!
