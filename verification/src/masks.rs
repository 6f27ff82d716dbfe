//! Bit masks of a board whose columns each take `height + 1` bits of a word.
//!
//! Column `c` takes the bits from `c * (height + 1)` on: its cells from the
//! bottom up, and above them one bit that never holds a stone. A board has
//! at most eight columns of at most eight rows, so every mask is written out
//! column by column, which lets the facts about masks be settled by bit-vector
//! reasoning.

use vstd::prelude::*;

verus! {

/// Whether a board of this size fits the encoding: at least one row, at most
/// eight rows and eight columns, and no more than a word's worth of bits.
pub open spec fn fits(width: u8, height: u8) -> bool {
    1 <= height <= 8 && width <= 8 && width * (height + 1) <= 64
}

/// Index of the lowest bit of column `col`.
pub open spec fn offset_of(col: u8, height: u8) -> u64 {
    (col * (height + 1)) as u64
}

/// The lowest cell of column `col`.
pub open spec fn col_bottom_of(col: u8, height: u8) -> u64 {
    1u64 << offset_of(col, height)
}

/// The highest playable cell of column `col`.
pub open spec fn col_top_of(col: u8, height: u8) -> u64 {
    1u64 << ((height - 1) + col * (height + 1)) as u64
}

/// The playable cells of column `col`.
pub open spec fn col_cells_of(col: u8, height: u8) -> u64 {
    (((1u64 << height) - 1) as u64) << offset_of(col, height)
}

/// The playable cells of column `col` and the sentinel bit above them.
pub open spec fn col_full_of(col: u8, height: u8) -> u64 {
    (((1u64 << (height + 1) as u64) - 1) as u64) << offset_of(col, height)
}

/// The lowest cell of column `col` if the board has that column, else nothing.
pub open spec fn bottom_term(col: u8, width: u8, height: u8) -> u64 {
    if col < width { col_bottom_of(col, height) } else { 0u64 }
}

/// The lowest cell of every column.
pub open spec fn bottom_of(width: u8, height: u8) -> u64 {
    bottom_term(0, width, height) | bottom_term(1, width, height)
    | bottom_term(2, width, height) | bottom_term(3, width, height)
    | bottom_term(4, width, height) | bottom_term(5, width, height)
    | bottom_term(6, width, height) | bottom_term(7, width, height)
}

/// The playable cells of column `col` if the board has that column, else nothing.
pub open spec fn cells_term(col: u8, width: u8, height: u8) -> u64 {
    if col < width { col_cells_of(col, height) } else { 0u64 }
}

/// Every playable cell of the board.
pub open spec fn board_of(width: u8, height: u8) -> u64 {
    cells_term(0, width, height) | cells_term(1, width, height)
    | cells_term(2, width, height) | cells_term(3, width, height)
    | cells_term(4, width, height) | cells_term(5, width, height)
    | cells_term(6, width, height) | cells_term(7, width, height)
}

/// Column `col` of `x` moved to where its mirror image stands.
pub open spec fn flip_term(x: u64, col: u8, width: u8, height: u8) -> u64 {
    if col < width {
        ((x & col_full_of(col, height)) >> offset_of(col, height))
            << offset_of((width - 1 - col) as u8, height)
    } else {
        0u64
    }
}

/// The board mirrored left to right.
pub open spec fn flip_of(x: u64, width: u8, height: u8) -> u64 {
    flip_term(x, 0, width, height) | flip_term(x, 1, width, height)
    | flip_term(x, 2, width, height) | flip_term(x, 3, width, height)
    | flip_term(x, 4, width, height) | flip_term(x, 5, width, height)
    | flip_term(x, 6, width, height) | flip_term(x, 7, width, height)
}

/// Cells that complete a vertical line of four of `my`.
pub open spec fn vertical_wins_of(my: u64) -> u64 {
    (my << 1) & (my << 2) & (my << 3)
}

/// Cells that complete a line of four of `my` whose cells lie `shf` bits apart.
pub open spec fn direction_wins_of(shf: u8, my: u64) -> u64 {
    let s1 = shf as u64;
    let s2 = (2 * shf) as u64;
    let s3 = (3 * shf) as u64;
    ((my << s1) & (my << s2) & (my << s3))
    | ((my << s1) & (my << s2) & (my >> s1))
    | ((my >> s1) & (my >> s2) & (my >> s3))
    | ((my >> s1) & (my >> s2) & (my << s1))
}

/// Cells that complete a line of four of `my` in any direction.
pub open spec fn wins_of(my: u64, height: u8) -> u64 {
    vertical_wins_of(my)
    | direction_wins_of((height + 1) as u8, my)
    | direction_wins_of(height, my)
    | direction_wins_of((height + 2) as u8, my)
}

/// One more column adds its lowest cell to the bottom row.
proof fn lemma_bottom_step(col: u8, height: u8)
    by (bit_vector)
    requires
        1 <= height <= 8,
        col < 8,
        (col + 1) * (height + 1) <= 64,
    ensures
        bottom_of((col + 1) as u8, height) == bottom_of(col, height) | (1u64 << (((height + 1) as u64) * (col as u64)) as u64),
        ((height + 1) as u64) * (col as u64) < 64,
{
}

/// The bottom row times a full column of ones is the board, and fits a word.
proof fn lemma_board_is_product(width: u8, height: u8)
    by (bit_vector)
    requires
        fits(width, height),
    ensures
        bottom_of(width, height) * (((1u64 << (height as u64)) - 1) as u64) == board_of(width, height),
        (1u64 << (height as u64)) >= 1,
{
}

/// The mask with the lowest cell of each of the `width` columns set.
pub fn board_bottom_mask(width: u8, height: u8) -> (res: u64)
    requires
        fits(width, height),
    ensures
        res == bottom_of(width, height),
{
    let mut res: u64 = 0;
    let col_shift: u64 = height as u64 + 1;
    proof {
        lemma_column_ends(0, width, height);
    }
    for i in 0..width
        invariant
            fits(width, height),
            col_shift == height + 1,
            res == bottom_of(i, height),
    {
        proof {
            lemma_bottom_step(i, height);
        }
        res |= 1u64 << (col_shift * (i as u64));
    }
    res
}

/// The mask with every playable cell set.
pub fn board_mask(width: u8, height: u8) -> (res: u64)
    requires
        fits(width, height),
    ensures
        res == board_of(width, height),
{
    proof {
        lemma_board_is_product(width, height);
    }
    board_bottom_mask(width, height) * ((1u64 << (height as u64)) - 1)
}

/// The cells directly above three stacked stones of `my`.
pub fn get_vertical_winning_mask(my: &u64) -> (res: u64)
    ensures
        res == vertical_wins_of(*my),
{
    (*my << 1u64) & (*my << 2u64) & (*my << 3u64)
}

/// The cells that would complete four of `my` in a row along stride `shf`.
pub fn get_winning_mask_with_direction(shf: u8, my: &u64) -> (res: u64)
    requires
        3 * shf < 64,
    ensures
        res == direction_wins_of(shf, *my),
{
    let shf1: u64 = shf as u64;
    let shf2: u64 = shf1 * 2;
    let shf3: u64 = shf1 * 3;
    let my: u64 = *my;

    let mut two: u64 = (my << shf1) & (my << shf2);
    let mut res: u64 = two & (my << shf3);
    res |= two & (my >> shf1);
    two = (my >> shf1) & (my >> shf2);
    res |= two & (my >> shf3);
    res |= two & (my << shf1);
    assert(res == direction_wins_of(shf, my)) by (bit_vector)
        requires
            3 * shf < 64,
            shf1 == shf as u64,
            shf2 == shf1 * 2,
            shf3 == shf1 * 3,
            res == ((((my << shf1) & (my << shf2)) & (my << shf3))
                | (((my << shf1) & (my << shf2)) & (my >> shf1))
                | (((my >> shf1) & (my >> shf2)) & (my >> shf3))
                | (((my >> shf1) & (my >> shf2)) & (my << shf1))),
    ;
    res
}

/// The cells that would complete four of `my` in a row in any direction.
pub fn get_winning_mask(my: &u64, height: &u8) -> (res: u64)
    requires
        3 * (*height + 2) < 64,
    ensures
        res == wins_of(*my, *height),
{
    let mut res: u64 = get_vertical_winning_mask(my);
    res |= get_winning_mask_with_direction(*height + 1, my);
    res |= get_winning_mask_with_direction(*height, my);
    res |= get_winning_mask_with_direction(*height + 2, my);
    res
}

/// Column `col` of `m`, moved down to the lowest bits.
pub open spec fn field_of(m: u64, col: u8, height: u8) -> u64 {
    (m & col_full_of(col, height)) >> offset_of(col, height)
}

/// Index of the highest set bit of a column's field; 0 for an empty field.
pub open spec fn top_index(f: u64) -> u64 {
    if f >= 256 {
        8
    } else if f >= 128 {
        7
    } else if f >= 64 {
        6
    } else if f >= 32 {
        5
    } else if f >= 16 {
        4
    } else if f >= 8 {
        3
    } else if f >= 4 {
        2
    } else if f >= 2 {
        1
    } else {
        0
    }
}

/// Column `col` of `x` mirrored, if `col` is among the first `upto` columns.
pub open spec fn flip_term_upto(x: u64, col: u8, upto: u8, width: u8, height: u8) -> u64 {
    if col < upto { flip_term(x, col, width, height) } else { 0u64 }
}

/// The first `upto` columns of `x` mirrored.
pub open spec fn flip_upto(x: u64, upto: u8, width: u8, height: u8) -> u64 {
    flip_term_upto(x, 0, upto, width, height) | flip_term_upto(x, 1, upto, width, height)
    | flip_term_upto(x, 2, upto, width, height) | flip_term_upto(x, 3, upto, width, height)
    | flip_term_upto(x, 4, upto, width, height) | flip_term_upto(x, 5, upto, width, height)
    | flip_term_upto(x, 6, upto, width, height) | flip_term_upto(x, 7, upto, width, height)
}

/// Stones in column `col` of a key `m`, if `col` is among the first `upto` columns.
pub open spec fn stones_term(m: u64, col: u8, upto: u8, height: u8) -> u64 {
    if col < upto { top_index(field_of(m, col, height)) } else { 0u64 }
}

/// Stones in the first `upto` columns of a key `m`.
pub open spec fn key_stones_upto(m: u64, upto: u8, height: u8) -> int {
    stones_term(m, 0, upto, height) + stones_term(m, 1, upto, height)
    + stones_term(m, 2, upto, height) + stones_term(m, 3, upto, height)
    + stones_term(m, 4, upto, height) + stones_term(m, 5, upto, height)
    + stones_term(m, 6, upto, height) + stones_term(m, 7, upto, height)
}

/// Stones of the position that the key `m` stands for.
pub open spec fn key_stones(m: u64, width: u8, height: u8) -> int {
    key_stones_upto(m, width, height)
}

/// The filled cells of column `col` of a key `m`, if `col` is among the first `upto`.
pub open spec fn filled_term(m: u64, col: u8, upto: u8, height: u8) -> u64 {
    if col < upto {
        (((1u64 << top_index(field_of(m, col, height))) - 1) as u64) << offset_of(col, height)
    } else {
        0u64
    }
}

/// The filled cells of the first `upto` columns of a key `m`.
pub open spec fn key_mask_upto(m: u64, upto: u8, height: u8) -> u64 {
    filled_term(m, 0, upto, height) | filled_term(m, 1, upto, height)
    | filled_term(m, 2, upto, height) | filled_term(m, 3, upto, height)
    | filled_term(m, 4, upto, height) | filled_term(m, 5, upto, height)
    | filled_term(m, 6, upto, height) | filled_term(m, 7, upto, height)
}

/// The occupied cells of the position that the key `m` stands for.
pub open spec fn key_mask(m: u64, width: u8, height: u8) -> u64 {
    key_mask_upto(m, width, height)
}

/// The stones of the side to move in the position that the key `m` stands for.
pub open spec fn key_player(m: u64, width: u8, height: u8) -> u64 {
    (m - key_mask(m, width, height) - bottom_of(width, height)) as u64
}

/// Every bit of every column, sentinels included.
pub open spec fn span_of(width: u8, height: u8) -> u64 {
    board_of(width, height) | ((board_of(width, height) << 1) as u64)
}

/// Whether column `col` of `m` holds a bit, or the board has no such column.
pub open spec fn column_marked(m: u64, col: u8, width: u8, height: u8) -> bool {
    col >= width || m & col_full_of(col, height) != 0
}

/// Whether `m` has the shape of a key: nothing outside the columns, and in
/// each column at least the bit that marks its first empty cell.
pub open spec fn key_shaped(m: u64, width: u8, height: u8) -> bool {
    &&& m & !span_of(width, height) == 0
    &&& column_marked(m, 0, width, height)
    &&& column_marked(m, 1, width, height)
    &&& column_marked(m, 2, width, height)
    &&& column_marked(m, 3, width, height)
    &&& column_marked(m, 4, width, height)
    &&& column_marked(m, 5, width, height)
    &&& column_marked(m, 6, width, height)
    &&& column_marked(m, 7, width, height)
}

/// Bounds on the shifts that reach column `col`.
pub proof fn lemma_column_bounds(x: u64, col: u8, width: u8, height: u8)
    by (bit_vector)
    requires
        fits(width, height),
        col < width,
    ensures
        col * (height + 1) + height < 64,
        offset_of(col, height) == col * (height + 1),
        (width - 1 - col) * (height + 1) + height < 64,
        (1u64 << (height as u64)) >= 1,
        (1u64 << ((height as u64) + 1) as u64) >= 1,
        (1u64 << top_index(field_of(x, col, height))) >= 1,
        top_index(field_of(x, col, height)) <= height,
        (x & col_full_of(col, height)) == 0 ==> top_index(field_of(x, col, height)) == 0,
{
}

/// What one more column adds to a mirrored board.
pub proof fn lemma_flip_step(x: u64, col: u8, width: u8, height: u8)
    by (bit_vector)
    requires
        fits(width, height),
        col < width,
    ensures
        flip_upto(x, (col + 1) as u8, width, height) == flip_upto(x, col, width, height)
            | (((x & col_full_of(col, height)) >> offset_of(col, height))
                << offset_of((width - 1 - col) as u8, height)),
{
}

/// What one more column adds to the occupied cells read off a key.
pub proof fn lemma_key_mask_step(x: u64, col: u8, width: u8, height: u8)
    by (bit_vector)
    requires
        fits(width, height),
        col < width,
    ensures
        key_mask_upto(x, (col + 1) as u8, height) == key_mask_upto(x, col, height)
            | ((((1u64 << top_index(field_of(x, col, height))) - 1) as u64) << offset_of(col, height)),
{
}

/// The closed forms at their ends: nothing before the first column, all after the last.
pub proof fn lemma_column_ends(x: u64, width: u8, height: u8)
    by (bit_vector)
    requires
        fits(width, height),
    ensures
        bottom_of(0, height) == 0,
        flip_upto(x, 0, width, height) == 0,
        flip_upto(x, width, width, height) == flip_of(x, width, height),
        key_mask_upto(x, 0, height) == 0,
{
}

/// Where the highest set bit of a column lies, counted from the column's foot.
pub proof fn lemma_top_index(m: u64, col: u8, height: u8, r: u32)
    by (bit_vector)
    requires
        1 <= height <= 8,
        col < 8,
        (col + 1) * (height + 1) <= 64,
        (m & col_full_of(col, height)) != 0,
        r < 64,
        (m & col_full_of(col, height)) >> (r as u64) == 1,
    ensures
        r >= offset_of(col, height),
        r - offset_of(col, height) == top_index(field_of(m, col, height)),
{
}

/// A key splits into the stones of the side to move, the occupied cells and the bottom row.
pub proof fn lemma_key_parts(m: u64, width: u8, height: u8)
    by (bit_vector)
    requires
        fits(width, height),
        key_shaped(m, width, height),
    ensures
        key_mask(m, width, height) + bottom_of(width, height) <= m,
        key_mask(m, width, height) & !board_of(width, height) == 0,
        key_player(m, width, height) & !key_mask(m, width, height) == 0,
        key_mask(m, width, height) & ((key_mask(m, width, height) + bottom_of(width, height)) as u64) == 0,
{
}

/// In each column the highest bit of a key lies where the bit above the
/// occupied cells lies.
pub proof fn lemma_key_stones_column(m: u64, width: u8, height: u8, c: u8)
    by (bit_vector)
    requires
        fits(width, height),
        key_shaped(m, width, height),
        c < width,
    ensures
        top_index(field_of(m, c, height)) == top_index(
            field_of((key_mask(m, width, height) + bottom_of(width, height)) as u64, c, height),
        ),
{
}

/// A key counts as many stones as the occupied cells read off it.
pub proof fn lemma_key_stones(m: u64, width: u8, height: u8)
    requires
        fits(width, height),
        key_shaped(m, width, height),
    ensures
        key_stones(m, width, height) == key_stones(
            (key_mask(m, width, height) + bottom_of(width, height)) as u64,
            width,
            height,
        ),
{
    if width > 0 { lemma_key_stones_column(m, width, height, 0); }
    if width > 1 { lemma_key_stones_column(m, width, height, 1); }
    if width > 2 { lemma_key_stones_column(m, width, height, 2); }
    if width > 3 { lemma_key_stones_column(m, width, height, 3); }
    if width > 4 { lemma_key_stones_column(m, width, height, 4); }
    if width > 5 { lemma_key_stones_column(m, width, height, 5); }
    if width > 6 { lemma_key_stones_column(m, width, height, 6); }
    if width > 7 { lemma_key_stones_column(m, width, height, 7); }
}

/// The mirror image of a key is a key, and mirroring it again gives the key back.
pub proof fn lemma_flip_key(m: u64, width: u8, height: u8)
    by (bit_vector)
    requires
        fits(width, height),
        key_shaped(m, width, height),
    ensures
        key_shaped(flip_of(m, width, height), width, height),
        flip_of(flip_of(m, width, height), width, height) == m,
{
}

/// Column `c` of a mirrored board is column `width - 1 - c` of the board.
pub proof fn lemma_flip_field(m: u64, width: u8, height: u8, c: u8)
    by (bit_vector)
    requires
        fits(width, height),
        c < width,
    ensures
        field_of(flip_of(m, width, height), c, height) == field_of(m, (width - 1 - c) as u8, height),
{
}

/// A key and its mirror image count the same number of stones.
pub proof fn lemma_flip_stones(m: u64, width: u8, height: u8)
    requires
        fits(width, height),
    ensures
        key_stones(flip_of(m, width, height), width, height) == key_stones(m, width, height),
{
    if width > 0 { lemma_flip_field(m, width, height, 0); }
    if width > 1 { lemma_flip_field(m, width, height, 1); }
    if width > 2 { lemma_flip_field(m, width, height, 2); }
    if width > 3 { lemma_flip_field(m, width, height, 3); }
    if width > 4 { lemma_flip_field(m, width, height, 4); }
    if width > 5 { lemma_flip_field(m, width, height, 5); }
    if width > 6 { lemma_flip_field(m, width, height, 6); }
    if width > 7 { lemma_flip_field(m, width, height, 7); }
}

/// Whether bit `i` of `x` is set.
pub open spec fn bit_set(x: u64, i: u64) -> bool {
    i < 64 && (x >> i) & 1 == 1
}

/// Whether the bits of `my` that lie `s`, `2s` and `3s` below bit `i` are set.
pub open spec fn three_below(my: u64, i: u64, s: u64) -> bool {
    i >= 3 * s && bit_set(my, (i - s) as u64) && bit_set(my, (i - 2 * s) as u64) && bit_set(
        my,
        (i - 3 * s) as u64,
    )
}

/// Whether the bits of `my` that lie `s`, `2s` and `3s` above bit `i` are set.
pub open spec fn three_above(my: u64, i: u64, s: u64) -> bool {
    bit_set(my, (i + s) as u64) && bit_set(my, (i + 2 * s) as u64) && bit_set(my, (i + 3 * s) as u64)
}

/// Whether two bits of `my` below bit `i` and one above, each `s` from the next, are set.
pub open spec fn two_below_one_above(my: u64, i: u64, s: u64) -> bool {
    i >= 2 * s && bit_set(my, (i - s) as u64) && bit_set(my, (i - 2 * s) as u64) && bit_set(
        my,
        (i + s) as u64,
    )
}

/// Whether one bit of `my` below bit `i` and two above, each `s` from the next, are set.
pub open spec fn one_below_two_above(my: u64, i: u64, s: u64) -> bool {
    i >= s && bit_set(my, (i - s) as u64) && bit_set(my, (i + s) as u64) && bit_set(
        my,
        (i + 2 * s) as u64,
    )
}

/// The bottom row has the lowest bit of each column, the board the bits of
/// each column but the highest, and nothing else.
pub proof fn lemma_board_bits(width: u8, height: u8, i: u64)
    by (bit_vector)
    requires
        fits(width, height),
        i < 64,
    ensures
        bit_set(bottom_of(width, height), i) <==> i % ((height + 1) as u64) == 0 && i / ((height + 1) as u64) < width,
        bit_set(board_of(width, height), i) <==> i % ((height + 1) as u64) < height && i / ((height + 1) as u64) < width,
{
}

/// Row `row` of column `col` of the mirrored board is row `row` of column
/// `width - 1 - col` of the board.
pub proof fn lemma_flip_bits(x: u64, width: u8, height: u8, col: u8, row: u8)
    by (bit_vector)
    requires
        fits(width, height),
        col < width,
        row <= height,
    ensures
        bit_set(flip_of(x, width, height), (col * (height + 1) + row) as u64) == bit_set(
            x,
            ((width - 1 - col) * (height + 1) + row) as u64,
        ),
{
}

/// Beyond its columns the mirrored board is empty.
pub proof fn lemma_flip_beyond(x: u64, width: u8, height: u8, i: u64)
    by (bit_vector)
    requires
        fits(width, height),
        width * (height + 1) <= i,
    ensures
        !bit_set(flip_of(x, width, height), i),
{
}

/// A bit of the vertical winning mask is set exactly if the three bits
/// below it are set. A bit of the winning mask of a stride is set exactly if
/// three bits on the line through it, each one stride from the next and the
/// nearest one stride from it, are set.
pub proof fn lemma_wins_bits(my: u64, shf: u8, i: u64)
    by (bit_vector)
    requires
        1 <= shf,
        3 * shf < 64,
        i < 64,
    ensures
        bit_set(vertical_wins_of(my), i) <==> three_below(my, i, 1),
        bit_set(direction_wins_of(shf, my), i) <==> three_below(my, i, shf as u64) || three_above(my, i, shf as u64)
            || two_below_one_above(my, i, shf as u64) || one_below_two_above(my, i, shf as u64),
{
}

/// Index of the highest set bit of `x`.
///
/// Calls `u64::ilog2`, the base-2 logarithm rounded down: the result `r` is
/// the one index below 64 with `2^r <= x < 2^(r+1)`. Zero, for which the
/// call panics, is left out.
#[verifier::external_body]
pub(crate) fn highest_bit(x: u64) -> (r: u32)
    requires
        x > 0,
    ensures
        r < 64,
        x >> (r as u64) == 1,
{
    x.ilog2()
}

} // verus!
