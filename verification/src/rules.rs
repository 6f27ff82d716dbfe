//! The rules of the game, stated on bitboards.
//!
//! A position is two words: `player`, the stones of the side to move, and
//! `mask`, the stones of both sides. Every function here is a closed formula
//! on those words and the board's size.

use vstd::prelude::*;
use crate::masks::{
    board_of, bottom_of, col_bottom_of, col_cells_of, col_top_of, fits, flip_of, key_mask,
    key_player, key_shaped, key_stones, wins_of, top_index, field_of, cells_term, column_marked, filled_term,
    span_of,
};

verus! {

/// Whether the two words describe a position: no stone outside the board,
/// the side to move owns only cells that hold a stone, and in every column
/// the stones are stacked from the bottom without a gap.
pub open spec fn position_ok(player: u64, mask: u64, width: u8, height: u8) -> bool {
    &&& mask & !board_of(width, height) == 0
    &&& player & !mask == 0
    &&& mask & ((mask + bottom_of(width, height)) as u64) == 0
}

/// The word that holds the position in a reversible way: one bit above the
/// stones of each column, and below it the stones of the side to move.
pub open spec fn packed_of(player: u64, mask: u64, width: u8, height: u8) -> u64 {
    (player + mask + bottom_of(width, height)) as u64
}

/// Number of stones on the board.
pub open spec fn stones_of(mask: u64, width: u8, height: u8) -> int {
    key_stones((mask + bottom_of(width, height)) as u64, width, height)
}

/// Whether a stone can be dropped into column `col`.
pub open spec fn can_play_at(mask: u64, col: int, width: u8, height: u8) -> bool {
    0 <= col < width && mask & col_top_of(col as u8, height) == 0
}

/// The lowest empty cell of column `col`.
pub open spec fn move_bit_of(mask: u64, col: u8, height: u8) -> u64 {
    ((mask + col_bottom_of(col, height)) as u64) & col_cells_of(col, height)
}

/// The lowest empty cell of every column that is not full.
pub open spec fn moves_of(mask: u64, width: u8, height: u8) -> u64 {
    ((mask + bottom_of(width, height)) as u64) & board_of(width, height)
}

/// The empty cells of the board.
pub open spec fn empty_of(mask: u64, width: u8, height: u8) -> u64 {
    board_of(width, height) ^ mask
}

/// The empty cells that would complete four in a row for the side to move.
pub open spec fn my_wins_of(player: u64, mask: u64, width: u8, height: u8) -> u64 {
    wins_of(player, height) & empty_of(mask, width, height)
}

/// The empty cells that would complete four in a row for the other side.
pub open spec fn opponent_wins_of(player: u64, mask: u64, width: u8, height: u8) -> u64 {
    wins_of(player ^ mask, height) & empty_of(mask, width, height)
}

/// Whether a stone dropped into column `col` completes four in a row for the side to move.
pub open spec fn wins_at(player: u64, mask: u64, col: u8, width: u8, height: u8) -> bool {
    my_wins_of(player, mask, width, height) & moves_of(mask, width, height) & col_cells_of(
        col,
        height,
    ) != 0
}

/// Whether `play` accepts column `col`: it is on the board, not full, and
/// does not complete four in a row for the side to move.
pub open spec fn legal_at(player: u64, mask: u64, col: int, width: u8, height: u8) -> bool {
    can_play_at(mask, col, width, height) && !wins_at(player, mask, col as u8, width, height)
}

/// The stones of the side to move after a stone was dropped.
pub open spec fn played_player(player: u64, mask: u64) -> u64 {
    player ^ mask
}

/// All stones after a stone was dropped into column `col`.
pub open spec fn played_mask(mask: u64, col: u8, height: u8) -> u64 {
    mask | move_bit_of(mask, col, height)
}

/// The highest stone of column `col`.
pub open spec fn top_stone_of(mask: u64, col: u8, height: u8) -> u64 {
    (((mask & col_cells_of(col, height)) + col_bottom_of(col, height)) as u64) >> 1
}

/// All stones after the highest stone of column `col` was taken away.
pub open spec fn unplayed_mask(mask: u64, col: u8, height: u8) -> u64 {
    mask & !top_stone_of(mask, col, height)
}

/// The stones of the side to move after the highest stone of column `col` was taken away.
pub open spec fn unplayed_player(player: u64, mask: u64, col: u8, height: u8) -> u64 {
    (player & !top_stone_of(mask, col, height)) ^ unplayed_mask(mask, col, height)
}

/// The key of a position: the larger of its packed word and that of its mirror image.
pub open spec fn key_of(player: u64, mask: u64, width: u8, height: u8) -> u64 {
    let p = packed_of(player, mask, width, height);
    let q = flip_of(p, width, height);
    if p >= q { p } else { q }
}

/// The empty board is a position without stones.
pub proof fn lemma_empty_board(width: u8, height: u8)
    by (bit_vector)
    requires
        fits(width, height),
    ensures
        position_ok(0, 0, width, height),
        stones_of(0, width, height) == 0,
{
}

/// Sums of a position's words with the bottom row fit a word, and its stones fit the board.
pub proof fn lemma_position_bounds(player: u64, mask: u64, width: u8, height: u8)
    by (bit_vector)
    requires
        fits(width, height),
        position_ok(player, mask, width, height),
    ensures
        mask + bottom_of(width, height) <= u64::MAX,
        player + mask + bottom_of(width, height) <= u64::MAX,
        mask <= board_of(width, height),
        0 <= stones_of(mask, width, height) <= width * height,
        stones_of(mask, width, height) == width * height <==> moves_of(mask, width, height) == 0,
{
}

/// What dropping a stone into a column that is not full does to a position.
pub proof fn lemma_play(player: u64, mask: u64, width: u8, height: u8, col: u8)
    by (bit_vector)
    requires
        fits(width, height),
        position_ok(player, mask, width, height),
        col < width,
        mask & col_top_of(col, height) == 0,
    ensures
        mask + col_bottom_of(col, height) <= u64::MAX,
        move_bit_of(mask, col, height) != 0,
        move_bit_of(mask, col, height) & mask == 0,
        move_bit_of(mask, col, height) & !board_of(width, height) == 0,
        move_bit_of(mask, col, height) == moves_of(mask, width, height) & col_cells_of(col, height),
        position_ok(played_player(player, mask), played_mask(mask, col, height), width, height),
        played_mask(mask, col, height) > mask,
        played_mask(mask, col, height) & col_bottom_of(col, height) != 0,
        top_stone_of(played_mask(mask, col, height), col, height) == move_bit_of(mask, col, height),
        unplayed_mask(played_mask(mask, col, height), col, height) == mask,
        unplayed_player(played_player(player, mask), played_mask(mask, col, height), col, height) == player,
{
}

/// What taking the highest stone out of a column that holds one does to a position.
pub proof fn lemma_unplay(player: u64, mask: u64, width: u8, height: u8, col: u8)
    by (bit_vector)
    requires
        fits(width, height),
        position_ok(player, mask, width, height),
        col < width,
        mask & col_bottom_of(col, height) != 0,
    ensures
        (mask & col_cells_of(col, height)) + col_bottom_of(col, height) <= u64::MAX,
        top_stone_of(mask, col, height) != 0,
        top_stone_of(mask, col, height) & !mask == 0,
        position_ok(unplayed_player(player, mask, col, height), unplayed_mask(mask, col, height), width, height),
        unplayed_mask(mask, col, height) & col_top_of(col, height) == 0,
{
}

/// A column offers a move exactly if it is not full.
pub proof fn lemma_moves_by_column(mask: u64, width: u8, height: u8, col: u8)
    by (bit_vector)
    requires
        fits(width, height),
        mask & !board_of(width, height) == 0,
        mask & ((mask + bottom_of(width, height)) as u64) == 0,
        col < width,
    ensures
        moves_of(mask, width, height) & col_cells_of(col, height) != 0 <==> mask & col_top_of(col, height) == 0,
        col_cells_of(col, height) & moves_of(mask, width, height) != 0 <==> mask & col_top_of(col, height) == 0,
{
}

/// Stones in column `c`, read off the bit above them.
pub open spec fn column_stones(mask: u64, c: u8, width: u8, height: u8) -> u64 {
    top_index(field_of((mask + bottom_of(width, height)) as u64, c, height))
}

/// How a move, an undo and the packing show in the number of stones of one column.
pub proof fn lemma_column_stones(player: u64, mask: u64, width: u8, height: u8, col: u8, c: u8)
    by (bit_vector)
    requires
        fits(width, height),
        position_ok(player, mask, width, height),
        col < width,
        c < width,
    ensures
        top_index(field_of(packed_of(player, mask, width, height), c, height)) == column_stones(mask, c, width, height),
        mask & col_top_of(col, height) == 0 ==> column_stones(played_mask(mask, col, height), c, width, height)
            == column_stones(mask, c, width, height) + (if c == col { 1u64 } else { 0u64 }),
        mask & col_bottom_of(col, height) != 0 ==> column_stones(unplayed_mask(mask, col, height), c, width, height)
            + (if c == col { 1u64 } else { 0u64 }) == column_stones(mask, c, width, height),
{
}

/// A position's packed word stays within the columns, and its mask is the
/// union of its columns.
pub proof fn lemma_packed_span(player: u64, mask: u64, width: u8, height: u8)
    by (bit_vector)
    requires
        fits(width, height),
        position_ok(player, mask, width, height),
    ensures
        packed_of(player, mask, width, height) & !span_of(width, height) == 0,
        mask == (mask & cells_term(0, width, height)) | (mask & cells_term(1, width, height))
            | (mask & cells_term(2, width, height)) | (mask & cells_term(3, width, height))
            | (mask & cells_term(4, width, height)) | (mask & cells_term(5, width, height))
            | (mask & cells_term(6, width, height)) | (mask & cells_term(7, width, height)),
{
}

/// Column `c` of a position's packed word holds a bit, and below its highest
/// bit lie the occupied cells of the column.
pub proof fn lemma_packed_column(player: u64, mask: u64, width: u8, height: u8, c: u8)
    by (bit_vector)
    requires
        fits(width, height),
        position_ok(player, mask, width, height),
        c < 8,
    ensures
        column_marked(packed_of(player, mask, width, height), c, width, height),
        filled_term(packed_of(player, mask, width, height), c, width, height) == mask & cells_term(c, width, height),
{
}

/// The packed word of a position has the shape of a key and gives the position back.
pub proof fn lemma_packed(player: u64, mask: u64, width: u8, height: u8)
    requires
        fits(width, height),
        position_ok(player, mask, width, height),
    ensures
        player + mask + bottom_of(width, height) <= u64::MAX,
        key_shaped(packed_of(player, mask, width, height), width, height),
        key_mask(packed_of(player, mask, width, height), width, height) == mask,
        key_player(packed_of(player, mask, width, height), width, height) == player,
        key_stones(packed_of(player, mask, width, height), width, height) == stones_of(mask, width, height),
{
    lemma_position_bounds(player, mask, width, height);
    lemma_packed_span(player, mask, width, height);
    lemma_packed_column(player, mask, width, height, 0);
    lemma_packed_column(player, mask, width, height, 1);
    lemma_packed_column(player, mask, width, height, 2);
    lemma_packed_column(player, mask, width, height, 3);
    lemma_packed_column(player, mask, width, height, 4);
    lemma_packed_column(player, mask, width, height, 5);
    lemma_packed_column(player, mask, width, height, 6);
    lemma_packed_column(player, mask, width, height, 7);
    if width > 0 { lemma_column_stones(player, mask, width, height, 0, 0); }
    if width > 1 { lemma_column_stones(player, mask, width, height, 0, 1); }
    if width > 2 { lemma_column_stones(player, mask, width, height, 0, 2); }
    if width > 3 { lemma_column_stones(player, mask, width, height, 0, 3); }
    if width > 4 { lemma_column_stones(player, mask, width, height, 0, 4); }
    if width > 5 { lemma_column_stones(player, mask, width, height, 0, 5); }
    if width > 6 { lemma_column_stones(player, mask, width, height, 0, 6); }
    if width > 7 { lemma_column_stones(player, mask, width, height, 0, 7); }
}

/// Dropping a stone adds one to the number of stones.
pub proof fn lemma_play_stones(player: u64, mask: u64, width: u8, height: u8, col: u8)
    requires
        fits(width, height),
        position_ok(player, mask, width, height),
        col < width,
        mask & col_top_of(col, height) == 0,
    ensures
        stones_of(played_mask(mask, col, height), width, height) == stones_of(mask, width, height) + 1,
        stones_of(mask, width, height) < width * height,
{
    lemma_play(player, mask, width, height, col);
    lemma_position_bounds(played_player(player, mask), played_mask(mask, col, height), width, height);
    lemma_position_bounds(player, mask, width, height);
    if width > 0 { lemma_column_stones(player, mask, width, height, col, 0); }
    if width > 1 { lemma_column_stones(player, mask, width, height, col, 1); }
    if width > 2 { lemma_column_stones(player, mask, width, height, col, 2); }
    if width > 3 { lemma_column_stones(player, mask, width, height, col, 3); }
    if width > 4 { lemma_column_stones(player, mask, width, height, col, 4); }
    if width > 5 { lemma_column_stones(player, mask, width, height, col, 5); }
    if width > 6 { lemma_column_stones(player, mask, width, height, col, 6); }
    if width > 7 { lemma_column_stones(player, mask, width, height, col, 7); }
}

/// Taking a stone away takes one off the number of stones.
pub proof fn lemma_unplay_stones(player: u64, mask: u64, width: u8, height: u8, col: u8)
    requires
        fits(width, height),
        position_ok(player, mask, width, height),
        col < width,
        mask & col_bottom_of(col, height) != 0,
    ensures
        stones_of(unplayed_mask(mask, col, height), width, height) == stones_of(mask, width, height) - 1,
{
    if width > 0 { lemma_column_stones(player, mask, width, height, col, 0); }
    if width > 1 { lemma_column_stones(player, mask, width, height, col, 1); }
    if width > 2 { lemma_column_stones(player, mask, width, height, col, 2); }
    if width > 3 { lemma_column_stones(player, mask, width, height, col, 3); }
    if width > 4 { lemma_column_stones(player, mask, width, height, col, 4); }
    if width > 5 { lemma_column_stones(player, mask, width, height, col, 5); }
    if width > 6 { lemma_column_stones(player, mask, width, height, col, 6); }
    if width > 7 { lemma_column_stones(player, mask, width, height, col, 7); }
}

/// Whether at least two bits of `x` are set.
pub open spec fn two_or_more(x: u64) -> bool {
    x != 0 && x & ((x - 1) as u64) != 0
}

/// Stones that the side to move can still place, of `total` cells with `used` filled:
/// half of the empty cells, and the odd one if there is one.
pub open spec fn mover_left(total: int, used: int) -> int {
    (total - used + 1) / 2
}

/// Stones that the other side can still place: half of the empty cells.
pub open spec fn other_left(total: int, used: int) -> int {
    (total - used) / 2
}

/// Number of set bits.
pub open spec fn bit_count_of(x: u64) -> nat
    decreases x,
{
    if x == 0 {
        0
    } else {
        (x % 2) as nat + bit_count_of(x / 2)
    }
}

/// What clearing the lowest set bit does to the halves of a word.
proof fn lemma_clear_lowest(x: u64)
    by (bit_vector)
    requires
        x != 0,
    ensures
        x % 2 == 1 ==> (x & ((x - 1) as u64)) % 2 == 0 && (x & ((x - 1) as u64)) / 2 == x / 2,
        x % 2 == 0 ==> (x & ((x - 1) as u64)) % 2 == 0 && x / 2 != 0 && (x & ((x - 1) as u64)) / 2 == (x / 2) & ((x / 2 - 1) as u64),
        (x & ((x - 1) as u64)) < x,
{
}

/// Clearing the lowest set bit takes one off the number of set bits.
pub proof fn lemma_bit_count_step(x: u64)
    requires
        x != 0,
    ensures
        bit_count_of(x & ((x - 1) as u64)) + 1 == bit_count_of(x),
        (x & ((x - 1) as u64)) < x,
    decreases x,
{
    lemma_clear_lowest(x);
    let y = x & ((x - 1) as u64);
    if x % 2 == 0 {
        lemma_bit_count_step(x / 2);
        if y != 0 {
        } else {
            assert(bit_count_of((x / 2) & ((x / 2 - 1) as u64)) == 0);
        }
    } else {
        if y != 0 {
        } else {
            assert(x / 2 == 0);
        }
    }
}

/// A word below `2^bits` has at most `bits` set bits.
pub proof fn lemma_bit_count_bound(x: u64, bits: nat)
    requires
        (x as int) < vstd::arithmetic::power2::pow2(bits),
    ensures
        bit_count_of(x) <= bits,
    decreases bits,
{
    if x != 0 {
        if bits == 0 {
            vstd::arithmetic::power2::lemma2_to64();
        } else {
            vstd::arithmetic::power2::lemma_pow2_unfold(bits);
            lemma_bit_count_bound(x / 2, (bits - 1) as nat);
        }
    }
}

/// Distance of column `col` from the nearer edge, at most half the width.
pub open spec fn centrality_of(col: int, width: int) -> int {
    let half = width / 2;
    if col >= half { half - (col - half) } else { half - (half - col) }
}

/// The ordering score of a move into column `col`: the number of empty cells
/// in which the mover would complete four in a row once the stone lies,
/// weighted above any preference for the centre, plus that preference.
pub open spec fn score_of(player: u64, mask: u64, col: u8, width: u8, height: u8) -> int {
    let stones = player | (moves_of(mask, width, height) & col_cells_of(col, height));
    let winning = wins_of(stones, height) & empty_of(mask, width, height);
    bit_count_of(winning) * (width / 2 + 1) + centrality_of(col as int, width as int)
}

/// The cells among which the search looks for its next move: none if the
/// other side threatens to win in two columns at once; only the threatened
/// cell if it threatens in one; and never a cell right below a cell in which
/// the other side would win.
pub open spec fn options_of(player: u64, mask: u64, width: u8, height: u8) -> u64 {
    let moves = moves_of(mask, width, height);
    let threats = opponent_wins_of(player, mask, width, height);
    let forced = threats & moves;
    if two_or_more(forced) {
        0
    } else if forced != 0 {
        (moves & forced) & !(threats >> 1)
    } else {
        moves & !(threats >> 1)
    }
}

/// Whether the search considers column `col`.
pub open spec fn candidate_at(player: u64, mask: u64, col: int, width: u8, height: u8) -> bool {
    0 <= col < width && col_cells_of(col as u8, height) & options_of(player, mask, width, height) != 0
}

/// A column that holds one of the search's options offers a move.
pub proof fn lemma_options_within_moves(cells: u64, moves: u64, threats: u64)
    by (bit_vector)
    ensures
        cells & ((moves & (threats & moves)) & !(threats >> 1)) != 0 ==> cells & moves != 0,
        cells & (moves & !(threats >> 1)) != 0 ==> cells & moves != 0,
        cells & 0 == 0,
{
}

/// Every column that the search considers is on the board and not full.
pub proof fn lemma_candidate_playable(player: u64, mask: u64, col: u8, width: u8, height: u8)
    requires
        fits(width, height),
        position_ok(player, mask, width, height),
        candidate_at(player, mask, col as int, width, height),
    ensures
        can_play_at(mask, col as int, width, height),
{
    lemma_options_within_moves(
        col_cells_of(col, height),
        moves_of(mask, width, height),
        opponent_wins_of(player, mask, width, height),
    );
    lemma_moves_by_column(mask, width, height, col);
}

/// The key of a position has the shape of a key, counts the position's
/// stones, and is the greater of itself and its mirror image.
pub proof fn lemma_key_of(player: u64, mask: u64, width: u8, height: u8)
    requires
        fits(width, height),
        position_ok(player, mask, width, height),
    ensures
        key_shaped(key_of(player, mask, width, height), width, height),
        key_stones(key_of(player, mask, width, height), width, height) == stones_of(mask, width, height),
        flip_of(key_of(player, mask, width, height), width, height) <= key_of(player, mask, width, height),
{
    let p = packed_of(player, mask, width, height);
    lemma_packed(player, mask, width, height);
    crate::masks::lemma_flip_key(p, width, height);
    crate::masks::lemma_flip_stones(p, width, height);
}

/// Where the mover has no winning cell among the moves, no column holds one.
pub proof fn lemma_no_win_in_column(wins: u64, moves: u64, cells: u64)
    by (bit_vector)
    requires
        wins & moves == 0,
    ensures
        wins & moves & cells == 0,
{
}

/// Every column that the search considers is a legal move, unless the mover
/// could win at once.
pub proof fn lemma_candidate_legal(player: u64, mask: u64, col: u8, width: u8, height: u8)
    requires
        fits(width, height),
        position_ok(player, mask, width, height),
        candidate_at(player, mask, col as int, width, height),
        my_wins_of(player, mask, width, height) & moves_of(mask, width, height) == 0,
    ensures
        legal_at(player, mask, col as int, width, height),
{
    lemma_candidate_playable(player, mask, col, width, height);
    lemma_no_win_in_column(
        my_wins_of(player, mask, width, height),
        moves_of(mask, width, height),
        col_cells_of(col, height),
    );
}

/// Which moves leave the other side a cell to complete four in a row;
/// `lines` are the cells that complete a line of that side's stones.
///
/// Against two threats no move helps: one of them is still on offer after
/// any move. And a move that the search leaves out, in a position without a
/// double threat, leaves a threat on offer: it either ignores the one threat
/// that is on offer or uncovers one right above it.
pub proof fn lemma_threat_stays(lines: u64, mask: u64, col: u8, width: u8, height: u8)
    by (bit_vector)
    requires
        fits(width, height),
        mask & !board_of(width, height) == 0,
        mask & ((mask + bottom_of(width, height)) as u64) == 0,
        col < width,
        mask & col_top_of(col, height) == 0,
    ensures
        two_or_more((lines & empty_of(mask, width, height)) & moves_of(mask, width, height))
            ==> (lines & empty_of(played_mask(mask, col, height), width, height)) & moves_of(played_mask(mask, col, height), width, height) != 0,
        (lines & empty_of(mask, width, height)) & moves_of(mask, width, height) != 0
            && col_cells_of(col, height) & ((moves_of(mask, width, height) & ((lines & empty_of(mask, width, height)) & moves_of(mask, width, height)))
                & !((lines & empty_of(mask, width, height)) >> 1)) == 0
            ==> (lines & empty_of(played_mask(mask, col, height), width, height)) & moves_of(played_mask(mask, col, height), width, height) != 0,
        (lines & empty_of(mask, width, height)) & moves_of(mask, width, height) == 0
            && col_cells_of(col, height) & (moves_of(mask, width, height) & !((lines & empty_of(mask, width, height)) >> 1)) == 0
            ==> (lines & empty_of(played_mask(mask, col, height), width, height)) & moves_of(played_mask(mask, col, height), width, height) != 0,
        moves_of(mask, width, height) != 0,
{
}

/// Where a move is on offer, one of the columns is not full.
pub proof fn lemma_some_column(mask: u64, width: u8, height: u8)
    by (bit_vector)
    requires
        fits(width, height),
        mask & !board_of(width, height) == 0,
        mask & ((mask + bottom_of(width, height)) as u64) == 0,
        moves_of(mask, width, height) != 0,
    ensures
        (0 < width && mask & col_top_of(0, height) == 0) || (1 < width && mask & col_top_of(1, height) == 0)
            || (2 < width && mask & col_top_of(2, height) == 0) || (3 < width && mask & col_top_of(3, height) == 0)
            || (4 < width && mask & col_top_of(4, height) == 0) || (5 < width && mask & col_top_of(5, height) == 0)
            || (6 < width && mask & col_top_of(6, height) == 0) || (7 < width && mask & col_top_of(7, height) == 0),
{
}

} // verus!
