//! The board's geometry and the positions played on it.

use vstd::prelude::*;
use crate::masks::{
    board_bottom_mask, board_mask, board_of, bottom_of, col_bottom_of, col_cells_of, col_full_of,
    col_top_of, field_of, fits, flip_of, flip_upto, highest_bit, key_mask, key_mask_upto,
    key_player, key_shaped, key_stones, key_stones_upto, lemma_column_bounds, lemma_column_ends,
    lemma_flip_step, lemma_key_mask_step, lemma_key_parts, lemma_top_index, offset_of, top_index,
};

pub mod bound;
pub mod display;
pub mod state;

pub use state::State;
pub use display::_format_board;
pub use bound::StateResult;

verus! {

/// A board size with its two whole-board masks. It is a plain value: every
/// position holds its own copy.
#[derive(Clone, Copy, Debug)]
pub struct Connect4 {
    width: u8,
    height: u8,
    bottom: u64,
    full: u64,
}

impl Connect4 {
    /// Number of columns.
    pub closed spec fn spec_width(&self) -> u8 {
        self.width
    }

    /// Number of rows.
    pub closed spec fn spec_height(&self) -> u8 {
        self.height
    }

    /// Whether the two stored masks are those of the board's size.
    pub closed spec fn masks_cached(&self) -> bool {
        &&& self.bottom == bottom_of(self.width, self.height)
        &&& self.full == board_of(self.width, self.height)
    }

    /// Whether the size fits the encoding and the stored masks belong to it.
    pub open spec fn wf(&self) -> bool {
        fits(self.width(), self.height()) && self.masks_cached()
    }

    /// A board of `width` columns and `height` rows.
    pub fn new(width: u8, height: u8) -> (game: Self)
        requires
            fits(width, height),
        ensures
            game.wf(),
            game.width() == width,
            game.height() == height,
    {
        Connect4 {
            width,
            height,
            bottom: board_bottom_mask(width, height),
            full: board_mask(width, height),
        }
    }

    /// The empty position.
    pub fn start(&self) -> (s: State)
        requires
            self.wf(),
        ensures
            s.wf(),
            s@.width == self.width(),
            s@.height == self.height(),
            s@.player == 0,
            s@.mask == 0,
            s@.history == Seq::<u8>::empty(),
    {
        proof {
            crate::rules::lemma_empty_board(self.width, self.height);
        }
        State::new(*self, 0, 0, 0)
    }

    #[verifier::when_used_as_spec(spec_width)]
    pub fn width(&self) -> (r: u8)
        ensures
            r == self.spec_width(),
    {
        self.width
    }

    #[verifier::when_used_as_spec(spec_height)]
    pub fn height(&self) -> (r: u8)
        ensures
            r == self.spec_height(),
    {
        self.height
    }

    /// Number of cells of the board.
    pub fn total_stones(&self) -> (r: u16)
        requires
            self.wf(),
        ensures
            r == self.width() * self.height(),
    {
        assert(self.width * self.height <= 64) by (nonlinear_arith)
            requires
                self.width <= 8,
                self.height <= 8,
        ;
        (self.width * self.height) as u16
    }

    /// Index of the lowest bit of column `col`.
    fn offset(&self, col: u8) -> (r: u64)
        requires
            self.wf(),
            col < self.width(),
        ensures
            r == offset_of(col, self.height()),
            r + self.height() < 64,
    {
        proof {
            lemma_column_bounds(0, col, self.width, self.height);
        }
        (col as u64) * (self.height as u64 + 1)
    }

    /// The highest playable cell of column `col`.
    pub fn mask_col_top(&self, col: u8) -> (r: u64)
        requires
            self.wf(),
            col < self.width(),
        ensures
            r == col_top_of(col, self.height()),
    {
        proof {
            lemma_column_bounds(0, col, self.width, self.height);
        }
        1u64 << ((self.height as u64 - 1) + (col as u64) * (self.height as u64 + 1))
    }

    /// The lowest cell of column `col`.
    pub fn mask_col_bottom(&self, col: u8) -> (r: u64)
        requires
            self.wf(),
            col < self.width(),
        ensures
            r == col_bottom_of(col, self.height()),
    {
        1u64 << self.offset(col)
    }

    /// The playable cells of column `col`.
    pub fn mask_col(&self, col: u8) -> (r: u64)
        requires
            self.wf(),
            col < self.width(),
        ensures
            r == col_cells_of(col, self.height()),
    {
        proof {
            lemma_column_bounds(0, col, self.width, self.height);
        }
        ((1u64 << (self.height as u64)) - 1) << self.offset(col)
    }

    /// The playable cells of column `col` and the sentinel bit above them.
    pub fn mask_col_full(&self, col: u8) -> (r: u64)
        requires
            self.wf(),
            col < self.width(),
        ensures
            r == col_full_of(col, self.height()),
    {
        proof {
            lemma_column_bounds(0, col, self.width, self.height);
        }
        ((1u64 << (self.height as u64 + 1)) - 1) << self.offset(col)
    }

    /// The lowest cell of every column.
    pub fn mask_bottom(&self) -> (r: &u64)
        requires
            self.wf(),
        ensures
            *r == bottom_of(self.width(), self.height()),
    {
        &self.bottom
    }

    /// Every playable cell of the board.
    pub fn mask_full(&self) -> (r: &u64)
        requires
            self.wf(),
        ensures
            *r == board_of(self.width(), self.height()),
    {
        &self.full
    }

    /// The board mirrored left to right: column `i` trades places with column `width - 1 - i`.
    pub fn flip_c4_board(&self, p_mask: u64) -> (r: u64)
        requires
            self.wf(),
        ensures
            r == flip_of(p_mask, self.width(), self.height()),
    {
        let mut n_mask: u64 = 0;
        let w = self.width;
        proof {
            lemma_column_ends(p_mask, w, self.height);
        }
        for col in 0..w
            invariant
                self.wf(),
                w == self.width(),
                n_mask == flip_upto(p_mask, col, w, self.height()),
        {
            let n_col = w - 1 - col;
            proof {
                lemma_flip_step(p_mask, col, w, self.height);
            }
            let curr_col = (p_mask & self.mask_col_full(col)) >> self.offset(col);
            n_mask |= curr_col << self.offset(n_col);
        }
        n_mask
    }

    /// Number of stones of the position that the key `m` stands for: in each
    /// column, the height of its highest set bit.
    pub fn count_mask_stones(&self, m: u64) -> (count: usize)
        requires
            self.wf(),
        ensures
            count == key_stones(m, self.width(), self.height()),
            count <= self.width() * self.height(),
    {
        let w = self.width;
        let mut count = 0usize;
        for col in 0..w
            invariant
                self.wf(),
                w == self.width(),
                count == key_stones_upto(m, col, self.height()),
                count <= col * self.height(),
        {
            let curr_off = self.offset(col);
            let curr_col = m & self.mask_col_full(col);
            proof {
                lemma_column_bounds(m, col, w, self.height);
                assert((col + 1) * self.height == col * self.height + self.height) by (nonlinear_arith);
            }
            if curr_col > 0 {
                let top = highest_bit(curr_col);
                proof {
                    lemma_top_index(m, col, self.height, top);
                }
                count += (top as u64 - curr_off) as usize;
            }
        }
        count
    }

    /// The position that the key `m` stands for: its occupied cells, the
    /// stones of the side to move, and the number of stones.
    pub fn build_mask_and_player_from_combined(&self, m: u64) -> (r: (u64, u64, usize))
        requires
            self.wf(),
            key_shaped(m, self.width(), self.height()),
        ensures
            r.0 == key_mask(m, self.width(), self.height()),
            r.1 == key_player(m, self.width(), self.height()),
            r.2 == key_stones(m, self.width(), self.height()),
    {
        let w = self.width;
        let mut count = 0usize;
        let mut mask: u64 = 0;
        proof {
            lemma_column_ends(m, w, self.height);
        }
        for col in 0..w
            invariant
                self.wf(),
                w == self.width(),
                count == key_stones_upto(m, col, self.height()),
                count <= col * self.height(),
                mask == key_mask_upto(m, col, self.height()),
                key_shaped(m, w, self.height()),
        {
            let curr_off = self.offset(col);
            let curr_col = m & self.mask_col_full(col);
            let mut new_col_mask: u64 = 1;
            assert(curr_col != 0) by {
                assert(crate::masks::column_marked(m, col, w, self.height()));
            }
            proof {
                lemma_column_bounds(m, col, w, self.height);
                lemma_key_mask_step(m, col, w, self.height);
                assert((col + 1) * self.height == col * self.height + self.height) by (nonlinear_arith);
            }
            if curr_col > 0 {
                let top = highest_bit(curr_col);
                proof {
                    lemma_top_index(m, col, self.height, top);
                }
                let col_count = top as u64 - curr_off;
                count += col_count as usize;
                new_col_mask <<= col_count;
                new_col_mask -= 1;
            }
            mask |= new_col_mask << curr_off;
        }
        proof {
            lemma_key_parts(m, w, self.height);
        }
        (mask, m - (mask + self.bottom), count)
    }

    /// Whether `m` has the shape of a key of this board.
    pub fn is_key(&self, m: u64) -> (r: bool)
        requires
            self.wf(),
        ensures
            r == key_shaped(m, self.width(), self.height()),
    {
        let span = self.full | (self.full << 1u64);
        if m & !span != 0 {
            return false;
        }
        let w = self.width;
        for col in 0..w
            invariant
                self.wf(),
                w == self.width(),
                forall|c: u8| c < col ==> crate::masks::column_marked(m, c, w, self.height()),
        {
            if m & self.mask_col_full(col) == 0 {
                assert(!crate::masks::column_marked(m, col, w, self.height()));
                return false;
            }
        }
        assert(crate::masks::column_marked(m, 0, w, self.height()));
        assert(crate::masks::column_marked(m, 1, w, self.height()));
        assert(crate::masks::column_marked(m, 2, w, self.height()));
        assert(crate::masks::column_marked(m, 3, w, self.height()));
        assert(crate::masks::column_marked(m, 4, w, self.height()));
        assert(crate::masks::column_marked(m, 5, w, self.height()));
        assert(crate::masks::column_marked(m, 6, w, self.height()));
        assert(crate::masks::column_marked(m, 7, w, self.height()));
        true
    }

    /// A position without history, read off the key `m`.
    pub fn start_from_mask(&self, m: u64) -> (s: State)
        requires
            self.wf(),
            key_shaped(m, self.width(), self.height()),
        ensures
            s.wf(),
            s@.width == self.width(),
            s@.height == self.height(),
            s@.player == key_player(m, self.width(), self.height()),
            s@.mask == key_mask(m, self.width(), self.height()),
            s@.history == Seq::<u8>::empty(),
    {
        let (mask, player, moves_num) = self.build_mask_and_player_from_combined(m);
        proof {
            lemma_key_parts(m, self.width, self.height);
            crate::masks::lemma_key_stones(m, self.width, self.height);
        }
        State::new(*self, player, mask, moves_num)
    }
}

} // verus!
