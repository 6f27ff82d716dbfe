//! A store's books as bytes, and a store from such bytes.
//!
//! The bytes are the board's width and height, one byte each; the number of
//! entries, eight bytes; and for each entry its key, eight bytes, and its
//! score, one byte. Numbers stand with their highest byte first.

use vstd::prelude::*;
use std::collections::HashMap;
use vstd::std_specs::hash::spec_hash_map_iter;
use vstd::std_specs::iter::IteratorSpec;
use crate::error::GameError;
use crate::game::Connect4;
use crate::masks::{fits, key_stones};
use crate::solver::game_table::{
    capacities, count_books, count_tables, layout, tiers_total, C4GameTable, GameTableUsize,
    GameTableView, Tiers,
};
use crate::solver::NegamaxResult;

verus! {

broadcast use vstd::std_specs::hash::group_hash_axioms;

/// The eight bytes of `x`, highest first.
pub open spec fn u64_bytes(x: u64) -> Seq<u8> {
    seq![
        (x >> 56) as u8,
        ((x >> 48) & 0xff) as u8,
        ((x >> 40) & 0xff) as u8,
        ((x >> 32) & 0xff) as u8,
        ((x >> 24) & 0xff) as u8,
        ((x >> 16) & 0xff) as u8,
        ((x >> 8) & 0xff) as u8,
        (x & 0xff) as u8,
    ]
}

/// The number whose eight bytes, highest first, start at `at`.
pub open spec fn u64_at(b: Seq<u8>, at: int) -> u64 {
    ((b[at] as u64) << 56) | ((b[at + 1] as u64) << 48) | ((b[at + 2] as u64) << 40) | ((b[at
        + 3] as u64) << 32) | ((b[at + 4] as u64) << 24) | ((b[at + 5] as u64) << 16) | ((b[at
        + 6] as u64) << 8) | (b[at + 7] as u64)
}

/// The byte that stands for a score: its two's complement.
pub open spec fn score_byte(s: i8) -> u8 {
    if s >= 0 {
        s as u8
    } else {
        (s + 256) as u8
    }
}

/// The score that a byte stands for.
pub open spec fn byte_score(b: u8) -> i8 {
    if b < 128 {
        b as i8
    } else {
        (b - 256) as i8
    }
}

/// The nine bytes of an entry.
pub open spec fn record(entry: (u64, i8)) -> Seq<u8> {
    u64_bytes(entry.0).push(score_byte(entry.1))
}

/// The bytes of entries in a row.
pub open spec fn records(entries: Seq<(u64, i8)>) -> Seq<u8>
    decreases entries.len(),
{
    if entries.len() == 0 {
        Seq::empty()
    } else {
        records(entries.drop_last()) + record(entries.last())
    }
}

/// The bytes of a book of a board of `width` by `height` with `entries`.
pub open spec fn book_bytes(width: u8, height: u8, entries: Seq<(u64, i8)>) -> Seq<u8> {
    seq![width, height] + u64_bytes(entries.len() as u64) + records(entries)
}

/// Where entry `i` of a book's bytes starts.
pub open spec fn entry_start(i: int) -> int {
    10 + 9 * i
}

/// Entry `i` of a book's bytes.
pub open spec fn entry_at(b: Seq<u8>, i: int) -> (u64, i8) {
    (u64_at(b, entry_start(i)), byte_score(b[entry_start(i) + 8]))
}

/// Whether an entry can stand in the store of a board: its key counts fewer
/// stones than the board has cells, so that a tier serves it.
pub open spec fn entry_fits(entry: (u64, i8), width: u8, height: u8) -> bool {
    key_stones(entry.0, width, height) < width * height
}

/// The bytes of a number give the number back.
pub proof fn lemma_u64_bytes(x: u64)
    by (bit_vector)
    ensures
        (x >> 56) < 256,
        ((((x >> 56) as u64) << 56) | ((((x >> 48) & 0xff) as u64) << 48) | ((((x >> 40) & 0xff) as u64) << 40)
            | ((((x >> 32) & 0xff) as u64) << 32) | ((((x >> 24) & 0xff) as u64) << 24) | ((((x >> 16) & 0xff) as u64) << 16)
            | ((((x >> 8) & 0xff) as u64) << 8) | ((x & 0xff) as u64)) == x,
        (x >> 48) & 0xff < 256,
        (x >> 40) & 0xff < 256,
        (x >> 32) & 0xff < 256,
        (x >> 24) & 0xff < 256,
        (x >> 16) & 0xff < 256,
        (x >> 8) & 0xff < 256,
        x & 0xff < 256,
{
}

/// The bytes of a number, wherever they stand, give the number back.
pub proof fn lemma_u64_round_trip(b: Seq<u8>, at: int, x: u64)
    requires
        0 <= at,
        at + 8 <= b.len(),
        b.subrange(at, at + 8) == u64_bytes(x),
    ensures
        u64_at(b, at) == x,
{
    lemma_u64_bytes(x);
    let part = b.subrange(at, at + 8);
    assert(b[at] == part[0]);
    assert(b[at + 1] == part[1]);
    assert(b[at + 2] == part[2]);
    assert(b[at + 3] == part[3]);
    assert(b[at + 4] == part[4]);
    assert(b[at + 5] == part[5]);
    assert(b[at + 6] == part[6]);
    assert(b[at + 7] == part[7]);
}

/// Entries in a row take nine bytes each, and each stands where it is looked for.
pub proof fn lemma_records(entries: Seq<(u64, i8)>, i: int)
    requires
        0 <= i < entries.len(),
    ensures
        records(entries).len() == 9 * entries.len(),
        records(entries).subrange(9 * i, 9 * i + 9) == record(entries[i]),
    decreases entries.len(),
{
    let head = entries.drop_last();
    lemma_records_len(head);
    lemma_records_len(entries);
    if i < entries.len() - 1 {
        lemma_records(head, i);
        assert(records(entries).subrange(9 * i, 9 * i + 9) =~= records(head).subrange(9 * i, 9 * i + 9));
    } else {
        assert(records(entries).subrange(9 * i, 9 * i + 9) =~= record(entries.last()));
    }
}

/// Entries in a row take nine bytes each.
pub proof fn lemma_records_len(entries: Seq<(u64, i8)>)
    ensures
        records(entries).len() == 9 * entries.len(),
    decreases entries.len(),
{
    if entries.len() > 0 {
        lemma_records_len(entries.drop_last());
    }
}

/// A book's bytes tell its board, the number of its entries, and each entry.
pub proof fn lemma_book_round_trip(width: u8, height: u8, entries: Seq<(u64, i8)>, i: int)
    requires
        entries.len() <= u64::MAX,
        0 <= i < entries.len(),
    ensures
        book_bytes(width, height, entries).len() == entry_start(entries.len() as int),
        book_bytes(width, height, entries)[0] == width,
        book_bytes(width, height, entries)[1] == height,
        u64_at(book_bytes(width, height, entries), 2) == entries.len(),
        entry_at(book_bytes(width, height, entries), i) == entries[i],
{
    let b = book_bytes(width, height, entries);
    let n = entries.len() as u64;
    lemma_records(entries, i);
    assert(b.subrange(2, 10) =~= u64_bytes(n));
    lemma_u64_round_trip(b, 2, n);
    let at = entry_start(i);
    let rec = record(entries[i]);
    assert(b.subrange(at, at + 9) =~= records(entries).subrange(9 * i, 9 * i + 9));
    assert(b.subrange(at, at + 8) =~= u64_bytes(entries[i].0)) by {
        assert(b.subrange(at, at + 8) =~= b.subrange(at, at + 9).subrange(0, 8));
        assert(rec.subrange(0, 8) =~= u64_bytes(entries[i].0));
    }
    lemma_u64_round_trip(b, at, entries[i].0);
    assert(b[at + 8] == b.subrange(at, at + 9)[8]);
    assert(rec[8] == score_byte(entries[i].1));
}

/// Puts the eight bytes of `it` behind `v`.
fn push_u64_to_bytes(v: &mut Vec<u8>, it: u64)
    ensures
        final(v)@ == old(v)@ + u64_bytes(it),
{
    proof {
        lemma_u64_bytes(it);
    }
    v.push((it >> 56) as u8);
    v.push(((it >> 48) & 0xff) as u8);
    v.push(((it >> 40) & 0xff) as u8);
    v.push(((it >> 32) & 0xff) as u8);
    v.push(((it >> 24) & 0xff) as u8);
    v.push(((it >> 16) & 0xff) as u8);
    v.push(((it >> 8) & 0xff) as u8);
    v.push((it & 0xff) as u8);
    assert(v@ =~= old(v)@ + u64_bytes(it));
}

/// Puts the byte of `it` behind `v`.
fn push_i8_to_bytes(v: &mut Vec<u8>, it: i8)
    ensures
        final(v)@ == old(v)@.push(score_byte(it)),
{
    let b: u8 = if it >= 0 { it as u8 } else { (it as i16 + 256) as u8 };
    v.push(b);
}

/// The number whose eight bytes start at `at`.
fn read_u64(bytes: &Vec<u8>, at: usize) -> (x: u64)
    requires
        at + 8 <= bytes.len(),
    ensures
        x == u64_at(bytes@, at as int),
{
    ((bytes[at] as u64) << 56) | ((bytes[at + 1] as u64) << 48) | ((bytes[at + 2] as u64) << 40)
        | ((bytes[at + 3] as u64) << 32) | ((bytes[at + 4] as u64) << 24) | ((bytes[at + 5] as u64)
        << 16) | ((bytes[at + 6] as u64) << 8) | (bytes[at + 7] as u64)
}

/// The score that byte `b` stands for.
fn read_i8(b: u8) -> (s: i8)
    ensures
        s == byte_score(b),
{
    if b < 128 {
        b as i8
    } else {
        (b as i16 - 256) as i8
    }
}

/// Whether one of the first `n` entries that a walk through a book yields
/// is the key and the exact score of `e`.
pub open spec fn seen_actual(seq: Seq<(&u64, &NegamaxResult)>, n: int, e: (u64, i8)) -> bool {
    exists|i: int| 0 <= i < n && *(#[trigger] seq[i]).0 == e.0 && *seq[i].1 == NegamaxResult::Actual(e.1)
}

/// The store after the first `n` entries of the bytes `b` were offered to `start` in turn.
pub open spec fn loaded(start: GameTableView, b: Seq<u8>, n: int) -> GameTableView
    decreases n,
{
    if n <= 0 {
        start
    } else {
        let e = entry_at(b, n - 1);
        loaded(start, b, n - 1).put(
            key_stones(e.0, start.width, start.height),
            e.0,
            NegamaxResult::Actual(e.1),
        )
    }
}

/// Why the bytes `b` give no store with the tiers `sizes`, if they give none:
/// they are too short for a board, or name a board that does not fit; else
/// the tiers do not serve the board's plies; else the bytes are too short for
/// the entries they announce, or the key of an entry counts as many stones
/// as the board has cells, for which there is no tier. A score is taken as
/// it is, and so is a key that no position has.
pub open spec fn load_error(b: Seq<u8>, sizes: Tiers) -> Option<GameError> {
    if b.len() < 2 || !fits(b[0], b[1]) {
        Some(GameError::MalformedBook)
    } else if tiers_total(sizes) != b[0] * b[1] {
        Some(GameError::TableConfigMismatch)
    } else if b.len() < 10 || b.len() < entry_start(u64_at(b, 2) as int) || exists|i: int|
        0 <= i < u64_at(b, 2) && !entry_fits(#[trigger] entry_at(b, i), b[0], b[1]) {
        Some(GameError::MalformedBook)
    } else {
        None
    }
}

impl GameTableView {
    /// Whether a book holds `k` with the exact score `s`.
    pub open spec fn holds_actual(self, e: (u64, i8)) -> bool {
        self.holds_actual_before(e, self.books.len() as int)
    }

    /// Whether one of the first `n` books holds `k` with the exact score `s`.
    pub open spec fn holds_actual_before(self, e: (u64, i8), n: int) -> bool {
        exists|b: int| 0 <= b < n && b < self.books.len() && #[trigger] self.books[b].contains_key(e.0) && self.books[b][e.0] == NegamaxResult::Actual(e.1)
    }
}

impl C4GameTable {
    /// The bytes of the exact scores in the books, in no stated order.
    pub fn write_to_book(&self) -> (bytes: Vec<u8>)
        requires
            self.wf(),
        ensures
            exists|entries: Seq<(u64, i8)>| {
                &&& bytes@ == book_bytes(self@.width, self@.height, entries)
                &&& entries.no_duplicates()
                &&& forall|e: (u64, i8)| entries.contains(e) <==> self@.holds_actual(e)
            },
    {
        let mut body: Vec<u8> = Vec::new();
        let mut total_cases: u64 = 0;
        let ghost mut entries: Seq<(u64, i8)> = Seq::empty();
        let mut b: usize = 0;
        let n_books = self.books_len();
        while b < n_books
            invariant
                b <= n_books,
                n_books == self@.books.len(),
                self.wf(),
                body@ == records(entries),
                body.len() == 9 * entries.len(),
                total_cases == entries.len(),
                entries.no_duplicates(),
                forall|e: (u64, i8)| entries.contains(e) <==> self@.holds_actual_before(e, b as int),
            decreases n_books - b,
        {
            let book = self.book(b);
            let ghost before = entries;
            let ghost v = spec_hash_map_iter(book).remaining();
            let ghost mut walked: int = 0;
            for (key, res) in it: book.iter()
                invariant
                    it.seq() == v,
                    walked == it.index(),
                    body@ == records(entries),
                    body.len() == 9 * entries.len(),
                    total_cases == entries.len(),
                    v.no_duplicates(),
                    self.wf(),
                    b < self@.books.len(),
                    book@ == self@.books[b as int],
                    v == spec_hash_map_iter(book).remaining(),
                    entries.no_duplicates(),
                    forall|e: (u64, i8)| before.contains(e) <==> self@.holds_actual_before(e, b as int),
                    forall|e: (u64, i8)| entries.contains(e) <==> before.contains(e) || seen_actual(v, walked, e),
            {
                let ghost inner = entries;
                let ghost at = it.index();
                proof {
                    walked = walked + 1;
                    assert(book@.contains_key(*v[at].0) && book@[*v[at].0] == *v[at].1);
                    assert forall|e: (u64, i8)| e.0 == *key implies !inner.contains(e) by {
                        if inner.contains(e) {
                            if before.contains(e) {
                                let c = choose|c: int| 0 <= c < b && c < self@.books.len() && #[trigger] self@.books[c].contains_key(e.0) && self@.books[c][e.0] == NegamaxResult::Actual(e.1);
                                assert(self@.books[b as int].contains_key(e.0));
                                assert(self@.serves(key_stones(e.0, self@.width, self@.height), c));
                                assert(self@.serves(key_stones(e.0, self@.width, self@.height), b as int));
                            } else {
                                let i = choose|i: int| 0 <= i < at && *(#[trigger] v[i]).0 == e.0 && *v[i].1 == NegamaxResult::Actual(e.1);
                                assert(book@.contains_key(*v[i].0) && book@[*v[i].0] == *v[i].1);
                                assert(v[i] == v[at]);
                            }
                        }
                    }
                    assert forall|e: (u64, i8)| seen_actual(v, at + 1, e) <==> seen_actual(v, at, e) || (*v[at].0 == e.0 && *v[at].1 == NegamaxResult::Actual(e.1)) by {
                        if seen_actual(v, at + 1, e) {
                            let i = choose|i: int| 0 <= i < at + 1 && *(#[trigger] v[i]).0 == e.0 && *v[i].1 == NegamaxResult::Actual(e.1);
                            if i < at {
                                assert(seen_actual(v, at, e));
                            }
                        }
                        if seen_actual(v, at, e) {
                            let i = choose|i: int| 0 <= i < at && *(#[trigger] v[i]).0 == e.0 && *v[i].1 == NegamaxResult::Actual(e.1);
                            assert(0 <= i < at + 1);
                        }
                    }
                }
                if let NegamaxResult::Actual(score) = res {
                    let ghost old_body = body@;
                    push_u64_to_bytes(&mut body, *key);
                    push_i8_to_bytes(&mut body, *score);
                    total_cases += 1;
                    proof {
                        let e0 = (*key, *score);
                        entries = inner.push(e0);
                        assert(entries.drop_last() =~= inner);
                        assert(!inner.contains(e0));
                        assert forall|i: int, j: int| 0 <= i < entries.len() && 0 <= j < entries.len() && i != j implies entries[i] != entries[j] by {
                            if i < inner.len() && j < inner.len() {
                                assert(inner[i] != inner[j]);
                            } else if i < inner.len() {
                                assert(inner.contains(inner[i]));
                            } else {
                                assert(inner.contains(inner[j]));
                            }
                        }
                        assert(body@ =~= old_body + record(e0));
                        assert forall|e: (u64, i8)| entries.contains(e) <==> inner.contains(e) || e == e0 by {
                            if inner.contains(e) {
                                let j = choose|j: int| 0 <= j < inner.len() && inner[j] == e;
                                assert(entries[j] == e);
                            }
                            if e == e0 {
                                assert(entries[inner.len() as int] == e);
                            }
                        }
                    }
                }
            }
            proof {
                assert(walked == v.len());
                assert forall|e: (u64, i8)| self@.holds_actual_before(e, b + 1) implies entries.contains(e) by {
                    let c = choose|c: int| 0 <= c < b + 1 && c < self@.books.len() && #[trigger] self@.books[c].contains_key(e.0) && self@.books[c][e.0] == NegamaxResult::Actual(e.1);
                    if c < b {
                        assert(self@.holds_actual_before(e, b as int));
                        assert(before.contains(e));
                    } else {
                        assert(book@.contains_key(e.0) && book@[e.0] == NegamaxResult::Actual(e.1));
                        assert(v.contains((&e.0, &book@[e.0])));
                        let i = choose|i: int| 0 <= i < v.len() && v[i] == (&e.0, &book@[e.0]);
                        assert(*v[i].0 == e.0 && *v[i].1 == NegamaxResult::Actual(e.1));
                        assert(seen_actual(v, walked, e));
                    }
                    assert(before.contains(e) || seen_actual(v, walked, e));
                }
                assert forall|e: (u64, i8)| entries.contains(e) implies self@.holds_actual_before(e, b + 1) by {
                    if before.contains(e) {
                        assert(self@.holds_actual_before(e, b as int));
                        let c = choose|c: int| 0 <= c < b && c < self@.books.len() && #[trigger] self@.books[c].contains_key(e.0) && self@.books[c][e.0] == NegamaxResult::Actual(e.1);
                        assert(0 <= c < b + 1 && self@.books[c].contains_key(e.0));
                    } else {
                        assert(seen_actual(v, walked, e));
                        let i = choose|i: int| 0 <= i < v.len() && *(#[trigger] v[i]).0 == e.0 && *v[i].1 == NegamaxResult::Actual(e.1);
                        assert(book@.contains_key(*v[i].0));
                        assert(book@[*v[i].0] == *v[i].1);
                        assert(self@.books[b as int].contains_key(e.0));
                        assert(self@.books[b as int][e.0] == NegamaxResult::Actual(e.1));
                    }
                }
            }
            b += 1;
        }
        let g = self.game();
        let mut to_write: Vec<u8> = Vec::new();
        to_write.push(g.width());
        to_write.push(g.height());
        push_u64_to_bytes(&mut to_write, total_cases);
        to_write.append(&mut body);
        proof {
            assert(to_write@ =~= book_bytes(self@.width, self@.height, entries));
        }
        to_write
    }

    /// The store with the tiers of `sizes` for the board that the bytes
    /// name, filled with the entries that the bytes hold, each as an exact score.
    pub fn new_with_book(bytes: &Vec<u8>, sizes: Vec<(usize, GameTableUsize)>) -> (r: Result<Self, GameError>)
        requires
            forall|i: int| 0 <= i < sizes.len() ==> match #[trigger] sizes[i].1 {
                GameTableUsize::Book(_) => true,
                GameTableUsize::Table(v) => v > 0,
            },
        ensures
            match r {
                Ok(t) => {
                    &&& load_error(bytes@, sizes@).is_none()
                    &&& t.wf()
                    &&& t.spec_game().width() == bytes@[0]
                    &&& t.spec_game().height() == bytes@[1]
                    &&& t@ == loaded(
                        crate::solver::game_table::fresh(bytes@[0], bytes@[1], sizes@),
                        bytes@,
                        u64_at(bytes@, 2) as int,
                    )
                },
                Err(e) => load_error(bytes@, sizes@) == Some(e),
            },
    {
        if bytes.len() < 2 {
            return Err(GameError::MalformedBook);
        }
        let w = bytes[0];
        let h = bytes[1];
        if h < 1 || h > 8 || w > 8 {
            return Err(GameError::MalformedBook);
        }
        assert(w * (h + 1) <= 72) by (nonlinear_arith)
            requires
                w <= 8,
                h <= 8,
        ;
        if (w as u16) * (h as u16 + 1) > 64 {
            return Err(GameError::MalformedBook);
        }
        let game = Connect4::new(w, h);
        let mut me = match Self::new(game, sizes) {
            Ok(me) => me,
            Err(e) => {
                return Err(e);
            },
        };
        if bytes.len() < 10 {
            return Err(GameError::MalformedBook);
        }
        let total = read_u64(bytes, 2);
        let cells = game.total_stones() as usize;
        let ghost start = me@;
        let mut i: u64 = 0;
        let mut pos: usize = 10;
        while i < total
            invariant
                i <= total,
                total == u64_at(bytes@, 2),
                pos == entry_start(i as int),
                pos <= bytes.len(),
                bytes.len() >= 10,
                fits(w, h),
                w == bytes@[0],
                h == bytes@[1],
                tiers_total(sizes@) == w * h,
                me.wf(),
                me.spec_game() == game,
                game.wf(),
                game.width() == w,
                game.height() == h,
                cells == w * h,
                start.width == w,
                start.height == h,
                me@ == loaded(start, bytes@, i as int),
                forall|j: int| 0 <= j < i ==> entry_fits(#[trigger] entry_at(bytes@, j), w, h),
            decreases total - i,
        {
            if bytes.len() - pos < 9 {
                assert(bytes.len() < entry_start(total as int));
                return Err(GameError::MalformedBook);
            }
            let case = read_u64(bytes, pos);
            let score = read_i8(bytes[pos + 8]);
            let count = game.count_mask_stones(case);
            if count >= cells {
                assert(!entry_fits(entry_at(bytes@, i as int), w, h));
                return Err(GameError::MalformedBook);
            }
            assert(entry_fits(entry_at(bytes@, i as int), w, h));
            me.insert_key(&count, case, NegamaxResult::Actual(score));
            i += 1;
            pos += 9;
        }
        me.write_books = false;
        Ok(me)
    }

    /// Number of books.
    fn books_len(&self) -> (n: usize)
        ensures
            n == self@.books.len(),
    {
        self.books.len()
    }

    /// Book `b`.
    fn book(&self, b: usize) -> (book: &HashMap<u64, NegamaxResult>)
        requires
            b < self@.books.len(),
        ensures
            book@ == self@.books[b as int],
    {
        &self.books[b]
    }
}

} // verus!
