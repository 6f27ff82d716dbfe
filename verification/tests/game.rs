use learn_connect4::{Connect4, GameState};

#[test]
fn col_mask_check_for_w7h6() {
    let game = Connect4::new(7, 6);
    assert_eq!(0b111111, game.mask_col(0));
    assert_eq!(0b111111_0000000, game.mask_col(1));
    assert_eq!(0b111111_0000000_0000000, game.mask_col(2));
}

#[test]
fn col_top_mask_check_for_w7h6() {
    let game = Connect4::new(7, 6);
    assert_eq!(0b100000, game.mask_col_top(0));
    assert_eq!(0b100000_0000000, game.mask_col_top(1));
}

#[test]
fn col_bottom_mask_check_for_w7h6() {
    let game = Connect4::new(7, 6);
    assert_eq!(0b1, game.mask_col_bottom(0));
    assert_eq!(0b1_0000000, game.mask_col_bottom(1));
}

#[test]
fn check_flip_board_for_w7h6() {
    let game = Connect4::new(7, 6);
    let ipt: u64 = 0b0111111_0011111_0001111_0000111_0000011_0000001_0000000;
    let expected: u64 = 0b0000000_0000001_0000011_0000111_0001111_0011111_0111111;
    assert_eq!(game.flip_c4_board(ipt), expected);
}

#[test]
fn check_display() {
    let game = Connect4::new(7, 6);
    let mut s = game.start();
    assert_eq!(s.to_text(), r#"
Log: 
Num: 0
.......
.......
.......
.......
.......
.......
"#);
    assert!(s.play(1).is_ok());
    assert_eq!(s.to_text(), r#"
Log: 2
Num: 1
.......
.......
.......
.......
.......
.o.....
"#);
    assert!(s.play(1).is_ok());
    assert!(s.play(1).is_ok());
    assert!(s.play(1).is_ok());
    assert!(s.play(1).is_ok());
    assert!(s.play(1).is_ok());
    assert_eq!(s.to_text(), r#"
Log: 222222
Num: 6
.x.....
.o.....
.x.....
.o.....
.x.....
.o.....
"#);
    assert!(s.play(1).is_err());
}

#[test]
fn check_retrieve_player_and_mask() {
    let game = Connect4::new(7, 6);
    let ipt: u64 = 0b0000001_0000001_0000010_0000001_0000001_0000001_0000001;
    let expected_mask: u64 = 0b0000000_0000000_0000001_0000000_0000000_0000000_0000000;
    let expected_player: u64 = 0b0000000_0000000_0000000_0000000_0000000_0000000_0000000;
    assert_eq!(game.build_mask_and_player_from_combined(ipt), (expected_mask, expected_player, 1));
}

#[test]
fn geometry_getters() {
    let game = Connect4::new(7, 6);
    assert_eq!(game.width(), 7);
    assert_eq!(game.height(), 6);
    assert_eq!(game.total_stones(), 42);
    assert_eq!(*game.mask_bottom(), 0b0000001_0000001_0000001_0000001_0000001_0000001_0000001);
    assert_eq!(*game.mask_full(), 0b0111111_0111111_0111111_0111111_0111111_0111111_0111111);
    assert_eq!(game.mask_col_full(0), 0b1111111);
    assert_eq!(game.mask_col_full(6), 0b1111111 << 42);
    assert_eq!(game.mask_col_top(6), 1 << 47);
    let small = Connect4::new(8, 7);
    assert_eq!(small.total_stones(), 56);
    assert_eq!(small.mask_col_full(7), 0xff << 56);
}

#[test]
fn flip_is_its_own_inverse_and_keeps_the_middle() {
    let game = Connect4::new(7, 6);
    let ipt: u64 = 0b0111111_0011111_0001111_0000111_0000011_0000001_0000000;
    assert_eq!(game.flip_c4_board(game.flip_c4_board(ipt)), ipt);
    let middle: u64 = 0b1010101 << 21;
    assert_eq!(game.flip_c4_board(middle), middle);
    let even = Connect4::new(4, 3);
    assert_eq!(even.flip_c4_board(0b0001_0010_0100_1000), 0b1000_0100_0010_0001);
}

#[test]
fn key_shape_is_told_apart() {
    let game = Connect4::new(7, 6);
    let empty = game.start().key();
    assert!(game.is_key(empty));
    assert!(!game.is_key(0));
    assert!(!game.is_key(empty | (1 << 49)));
    assert!(!game.is_key(empty & !1));
    assert!(game.is_key(0b1000000_1000000_1000000_1000000_1000000_1000000_1000000));
}

#[test]
fn start_from_mask_gives_the_position_back() {
    let game = Connect4::new(7, 6);
    let mut s = game.start();
    let actions: Vec<u16> = vec![3, 3, 3, 4, 4, 4, 4, 3, 1, 1, 0];
    assert!(s.play_multiple(&actions).is_ok());
    let packed = s.player_bits() + s.mask_bits() + *game.mask_bottom();
    let t = game.start_from_mask(packed);
    assert_eq!(t.player_bits(), s.player_bits());
    assert_eq!(t.mask_bits(), s.mask_bits());
    assert_eq!(t.len(), 11);
    assert!(t.history().is_empty());
    assert_eq!(game.count_mask_stones(packed), 11);
    assert_eq!(game.count_mask_stones(s.key()), 11);
}
