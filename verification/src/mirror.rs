//! The board seen in a mirror: the rules do not tell left from right.

use vstd::prelude::*;
use crate::masks::{
    board_of, bottom_of, col_cells_of, col_top_of, direction_wins_of, fits, flip_of, span_of,
    vertical_wins_of, wins_of,
};
use crate::mirror_lines::{
    lemma_flip_join, lemma_flip_wins_falling, lemma_flip_wins_rising, lemma_flip_wins_straight,
};
use crate::rules::{
    empty_of, move_bit_of, moves_of, packed_of, played_mask, position_ok, two_or_more,
};

verus! {

/// The mirror image of a position is a position.
#[verifier::rlimit(100)]
pub proof fn lemma_flip_position(player: u64, mask: u64, width: u8, height: u8)
    by (bit_vector)
    requires
        fits(width, height),
        position_ok(player, mask, width, height),
    ensures
        position_ok(flip_of(player, width, height), flip_of(mask, width, height), width, height),
        flip_of(player ^ mask, width, height) == flip_of(player, width, height) ^ flip_of(mask, width, height),
        flip_of(flip_of(player, width, height), width, height) == player,
        flip_of(flip_of(mask, width, height), width, height) == mask,
        empty_of(flip_of(mask, width, height), width, height) == flip_of(empty_of(mask, width, height), width, height),
{
}

/// The packed word of the mirror image is the mirror image of the packed word.
#[verifier::rlimit(100)]
pub proof fn lemma_flip_packed(player: u64, mask: u64, width: u8, height: u8)
    by (bit_vector)
    requires
        fits(width, height),
        position_ok(player, mask, width, height),
    ensures
        packed_of(flip_of(player, width, height), flip_of(mask, width, height), width, height) == flip_of(packed_of(player, mask, width, height), width, height),
{
}

/// The moves on offer in the mirror image are the mirror image of the moves on offer.
#[verifier::rlimit(100)]
pub proof fn lemma_flip_moves(mask: u64, width: u8, height: u8)
    by (bit_vector)
    requires
        fits(width, height),
        mask & !board_of(width, height) == 0,
        mask & ((mask + bottom_of(width, height)) as u64) == 0,
    ensures
        moves_of(flip_of(mask, width, height), width, height) == flip_of(moves_of(mask, width, height), width, height),
{
}

/// A move into a column of the mirror image is the mirror image of the move
/// into the column's counterpart.
pub proof fn lemma_flip_move(mask: u64, x: u64, col: u8, width: u8, height: u8)
    by (bit_vector)
    requires
        fits(width, height),
        mask & !board_of(width, height) == 0,
        mask & ((mask + bottom_of(width, height)) as u64) == 0,
        x & !board_of(width, height) == 0,
        col < width,
    ensures
        flip_of(mask, width, height) & col_top_of((width - 1 - col) as u8, height) == 0 <==> mask & col_top_of(col, height) == 0,
        played_mask(flip_of(mask, width, height), (width - 1 - col) as u8, height) == flip_of(played_mask(mask, col, height), width, height),
        col_cells_of((width - 1 - col) as u8, height) & flip_of(x, width, height) != 0 <==> col_cells_of(col, height) & x != 0,
        flip_of(x, width, height) & col_cells_of((width - 1 - col) as u8, height) != 0 <==> x & col_cells_of(col, height) != 0,
{
}

/// Which threats can be met, whether there are two of them, and what is
/// left of the moves once the cells right below a threat are taken out: all
/// of it goes along with the mirror.
#[verifier::rlimit(100)]
pub proof fn lemma_flip_options(moves: u64, threats: u64, width: u8, height: u8)
    by (bit_vector)
    requires
        fits(width, height),
        moves & !board_of(width, height) == 0,
        threats & !board_of(width, height) == 0,
    ensures
        flip_of(threats, width, height) & flip_of(moves, width, height) == flip_of(threats & moves, width, height),
        flip_of(threats & moves, width, height) != 0 <==> threats & moves != 0,
        two_or_more(flip_of(threats & moves, width, height)) <==> two_or_more(threats & moves),
        (flip_of(moves, width, height) & flip_of(threats & moves, width, height)) & !(flip_of(threats, width, height) >> 1)
            == flip_of((moves & (threats & moves)) & !(threats >> 1), width, height),
        flip_of(moves, width, height) & !(flip_of(threats, width, height) >> 1) == flip_of(moves & !(threats >> 1), width, height),
        ((moves & (threats & moves)) & !(threats >> 1)) & !board_of(width, height) == 0,
        (moves & !(threats >> 1)) & !board_of(width, height) == 0,
        flip_of(0, width, height) == 0,
        0u64 & !board_of(width, height) == 0,
        (threats & moves) & !board_of(width, height) == 0,
{
}

/// Adding the bottom row goes along with the mirror.
#[verifier::rlimit(100)]
pub proof fn lemma_flip_sum(mask: u64, width: u8, height: u8)
    by (bit_vector)
    requires
        fits(width, height),
        mask & !board_of(width, height) == 0,
        mask & ((mask + bottom_of(width, height)) as u64) == 0,
    ensures
        ((flip_of(mask, width, height) + bottom_of(width, height)) as u64) == flip_of((mask + bottom_of(width, height)) as u64, width, height),
{
}

/// The stones of either side lie on the board.
pub proof fn lemma_sides_on_board(player: u64, mask: u64, width: u8, height: u8)
    by (bit_vector)
    requires
        fits(width, height),
        position_ok(player, mask, width, height),
    ensures
        player & !board_of(width, height) == 0,
        (player ^ mask) & !board_of(width, height) == 0,
        empty_of(mask, width, height) & !board_of(width, height) == 0,
        moves_of(mask, width, height) & !board_of(width, height) == 0,
{
}

/// The cells in which a side would complete four in a row are, in the
/// mirror image, the mirror images of those cells.
pub proof fn lemma_flip_wins(x: u64, mask: u64, width: u8, height: u8)
    requires
        fits(width, height),
        x & !board_of(width, height) == 0,
        mask & !board_of(width, height) == 0,
    ensures
        wins_of(flip_of(x, width, height), height) & empty_of(flip_of(mask, width, height), width, height)
            == flip_of(wins_of(x, height) & empty_of(mask, width, height), width, height),
        (wins_of(x, height) & empty_of(mask, width, height)) & !board_of(width, height) == 0,
{
    let fx = flip_of(x, width, height);
    lemma_flip_wins_straight(x, width, height);
    lemma_flip_wins_rising(x, width, height);
    lemma_flip_wins_falling(x, width, height);
    lemma_flip_empty(mask, width, height);
    lemma_flip_join(
        vertical_wins_of(fx),
        direction_wins_of((height + 1) as u8, fx),
        direction_wins_of(height, fx),
        direction_wins_of((height + 2) as u8, fx),
        vertical_wins_of(x),
        direction_wins_of((height + 1) as u8, x),
        direction_wins_of(height, x),
        direction_wins_of((height + 2) as u8, x),
        empty_of(mask, width, height),
        width,
        height,
    );
}

/// The empty cells of the mirror image are the mirror image of the empty cells.
pub proof fn lemma_flip_empty(mask: u64, width: u8, height: u8)
    by (bit_vector)
    requires
        fits(width, height),
        mask & !board_of(width, height) == 0,
    ensures
        empty_of(flip_of(mask, width, height), width, height) == flip_of(empty_of(mask, width, height), width, height),
        empty_of(mask, width, height) & !board_of(width, height) == 0,
{
}

} // verus!
