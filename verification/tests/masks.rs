use learn_connect4::masks::{
    board_bottom_mask, board_mask, get_vertical_winning_mask, get_winning_mask,
    get_winning_mask_with_direction,
};

#[test]
fn check_board_bottom_mask_w7h6() {
    let got = board_bottom_mask(7, 6);
    let expected = 0b0000001_0000001_0000001_0000001_0000001_0000001_0000001;
    assert_eq!(got, expected);
}

#[test]
fn check_board_mask_w7h6() {
    let got = board_mask(7, 6);
    let expected = 0b0111111_0111111_0111111_0111111_0111111_0111111_0111111;
    assert_eq!(got, expected);
}

#[test]
fn check_vertical_winning_w7h6() {
    let my: u64 = 0b0000111_0000111_0000111_0000111_0000111_0000111_0000111;
    let got = get_vertical_winning_mask(&my);
    let expected: u64 = 0b0001000_0001000_0001000_0001000_0001000_0001000_0001000;
    assert_eq!(got, expected);
}

#[test]
fn check_horizontal_winning_w7h6() {
    let my: u64 = 0b0000000_0000111_0000111_0000111_0000000_0000000_0000111;
    let got = get_winning_mask_with_direction(7, &my);
    let expected: u64 = 0b0000111_0000000_0000000_0000000_0000111_0000000_0000000;

    assert_eq!(got, expected);
}

#[test]
fn check_down_diag_winning_w7h6() {
    let my: u64 = 0b0000000_0000111_0000111_0000111_0000000_0000000_0000111;
    let got = get_winning_mask_with_direction(8, &my);
    let expected: u64 = 0b0001000_0000000_0000000_0000000_0000000_1000000_0000000;

    assert_eq!(got, expected);
}

#[test]
fn check_up_diag_winning_w7h6() {
    let my: u64 = 0b0000000_0000111_0000111_0000111_0000000_0000000_0000111;
    let got = get_winning_mask_with_direction(6, &my);
    let expected: u64 = 0b0000000_1000000_0000000_0000000_0001000_0000000_0000000;

    assert_eq!(got, expected);
}

#[test]
fn bottom_and_board_masks_of_small_boards() {
    assert_eq!(board_bottom_mask(0, 6), 0);
    assert_eq!(board_bottom_mask(1, 1), 0b1);
    assert_eq!(board_mask(1, 1), 0b1);
    assert_eq!(board_bottom_mask(3, 2), 0b001_001_001);
    assert_eq!(board_mask(3, 2), 0b011_011_011);
    assert_eq!(board_bottom_mask(8, 7), 0x0101_0101_0101_0101);
    assert_eq!(board_mask(8, 7), 0x7f7f_7f7f_7f7f_7f7f);
    assert_eq!(board_bottom_mask(7, 8), 0x0040_2010_0804_0201);
}

#[test]
fn winning_mask_joins_the_four_directions() {
    let my: u64 = 0b0000000_0000111_0000111_0000111_0000000_0000000_0000111;
    let all = get_winning_mask(&my, &6);
    let parts = get_vertical_winning_mask(&my) | get_winning_mask_with_direction(7, &my)
        | get_winning_mask_with_direction(6, &my) | get_winning_mask_with_direction(8, &my);
    assert_eq!(all, parts);
    assert_eq!(get_winning_mask(&0, &6), 0);
    // Three in a row on the bottom: both ends complete the line.
    let row: u64 = (1 << 7) | (1 << 14) | (1 << 21);
    assert_eq!(get_winning_mask(&row, &6) & ((1 << 0) | (1 << 28)), (1 << 0) | (1 << 28));
}
