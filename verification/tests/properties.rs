use learn_connect4::game::StateResult;
use learn_connect4::{Connect4, GameError, GameState, Solver};

fn moves_of(action_str: &str) -> Vec<u16> {
    action_str.chars().map(|c| -> u16 { c as u16 - '1' as u16 }).collect()
}

#[test]
fn play_then_unplay_restores_the_position() {
    let game = Connect4::new(7, 6);
    let mut s = game.start();
    let line: Vec<u16> = vec![3, 3, 4, 2, 4, 0, 1, 1, 6, 5, 5, 3];
    for a in line.iter() {
        for col in 0..7u16 {
            let player = s.player_bits();
            let mask = s.mask_bits();
            let history = s.history().clone();
            let key = s.key();
            let len = s.len();
            if s.play(col).is_ok() {
                assert_eq!(s.len(), len + 1);
                assert_eq!(s.unplay(), Ok(()));
            }
            assert_eq!(s.player_bits(), player);
            assert_eq!(s.mask_bits(), mask);
            assert_eq!(s.history(), &history);
            assert_eq!(s.key(), key);
            assert_eq!(s.len(), len);
        }
        assert_eq!(s.play(*a), Ok(()));
    }
}

#[test]
fn unplay_needs_a_move() {
    let game = Connect4::new(7, 6);
    let mut s = game.start();
    assert_eq!(s.unplay(), Err(GameError::EmptyHistory));
    assert_eq!(s.len(), 0);
    assert_eq!(s.play(3), Ok(()));
    assert_eq!(s.unplay(), Ok(()));
    assert_eq!(s.unplay(), Err(GameError::EmptyHistory));
    let mut t = game.start_from_mask(0b0000001_0000001_0000010_0000001_0000001_0000001_0000001);
    assert_eq!(t.len(), 1);
    assert_eq!(t.unplay(), Err(GameError::EmptyHistory));
    assert_eq!(t.len(), 1);
}

#[test]
fn mirrored_sequences_have_one_key() {
    let game = Connect4::new(7, 6);
    let line: Vec<u16> = moves_of("4453512217766");
    let mirrored: Vec<u16> = line.iter().map(|c| 6 - c).collect();
    let mut s0 = game.start();
    let mut s1 = game.start();
    for (a, b) in line.iter().zip(mirrored.iter()) {
        assert_eq!(s0.play(*a), Ok(()));
        assert_eq!(s1.play(*b), Ok(()));
        assert_eq!(s0.key(), s1.key());
        assert_eq!(s0.len(), s1.len());
    }
    assert_ne!(s0.mask_bits(), s1.mask_bits());
    let even = Connect4::new(4, 5);
    let mut e0 = even.start();
    let mut e1 = even.start();
    assert!(e0.play_multiple(&vec![0, 1, 1, 3]).is_ok());
    assert!(e1.play_multiple(&vec![3, 2, 2, 0]).is_ok());
    assert_eq!(e0.key(), e1.key());
}

#[test]
fn key_is_the_larger_of_the_two_packed_words() {
    let game = Connect4::new(7, 6);
    let mut s = game.start();
    assert!(s.play(0).is_ok());
    let packed = s.player_bits() + s.mask_bits() + *game.mask_bottom();
    let flipped = game.flip_c4_board(packed);
    assert!(flipped > packed);
    assert_eq!(s.key(), flipped);
    assert_eq!(packed, 0b0000001_0000001_0000001_0000001_0000001_0000001_0000010);
}

#[test]
fn windows_that_hold_the_score_agree() {
    let game = Connect4::new(7, 6);
    let moves = moves_of("46752767677675322662553253523341");
    for window in [(-5, 5), (-2, 5), (-5, -1), (-2, -2), (-5, -2), (-2, 0), (-3, 4)] {
        let mut solver = Solver::new(game).unwrap();
        let mut s = game.start();
        assert!(s.play_multiple(&moves).is_ok());
        assert_eq!(s.bound(), StateResult::Bounds((-5, 5)));
        let before = s.key();
        assert_eq!(solver.negamax(&mut s, Some(window)), Ok(-2), "window {:?}", window);
        assert_eq!(s.key(), before);
        assert_eq!(s.len(), 32);
    }
    let mut solver = Solver::new(game).unwrap();
    let mut s = game.start();
    assert!(s.play_multiple(&moves).is_ok());
    assert_eq!(solver.negamax(&mut s, None), Ok(-2));
}

#[test]
fn open_position_has_a_window() {
    let game = Connect4::new(7, 6);
    let mut s = game.start();
    assert_eq!(s.play(3), Ok(()));
    assert_eq!(s.bound(), StateResult::Bounds((-20, 21)));
    assert_eq!(s.my_left_stones(), 21);
    assert_eq!(s.opponent_left_stones(), 20);
    assert_eq!(game.start().bound(), StateResult::Bounds((-21, 21)));
}

#[test]
fn full_column_refuses_a_seventh_stone() {
    let game = Connect4::new(7, 6);
    let mut s = game.start();
    assert_eq!(s.play_multiple(&moves_of("222222")), Ok(()));
    assert!(!s.can_play(1));
    assert_eq!(s.play(1), Err(GameError::InvalidMove));
    assert_eq!(s.len(), 6);
    assert_eq!(s.possible_moves(), vec![0, 2, 3, 4, 5, 6]);
    assert!(!s.can_play(7));
    assert!(!s.can_play(256));
    assert_eq!(s.play(7), Err(GameError::InvalidMove));
    assert_eq!(s.play(256), Err(GameError::InvalidMove));
    let mut t = game.start();
    assert_eq!(t.play_multiple(&moves_of("2222222")), Err(GameError::InvalidMove));
}

#[test]
fn winning_move_is_refused_by_play() {
    let game = Connect4::new(7, 6);
    let mut s = game.start();
    assert_eq!(s.play_multiple(&vec![3, 3, 3, 4, 4, 4, 4, 3, 1, 1, 0, 2]), Ok(()));
    assert!(s.can_play(2));
    assert_ne!(s.me_winning_mask() & s.possible_moves_mask() & game.mask_col(2), 0);
    assert!(s.is_winning_action(2));
    assert!(!s.is_winning_action(3));
    assert_eq!(s.play(2), Err(GameError::InvalidMove));
    assert_eq!(s.len(), 12);
    assert_eq!(s.bound(), StateResult::Immediate(15));
}

#[test]
fn double_threat_is_a_loss() {
    let game = Connect4::new(7, 6);
    let mut s = game.start();
    // The first player holds three in a row on the bottom with both ends open.
    assert_eq!(s.play_multiple(&vec![2, 2, 3, 3, 4]), Ok(()));
    assert_eq!(s.len(), 5);
    assert_eq!(s.opponent_winning_mask() & s.possible_moves_mask(), (1 << 7) | (1 << 35));
    assert_eq!(s.opponent_left_stones(), 18);
    assert_eq!(s.bound(), StateResult::Immediate(-18));
    assert!(s.nonlosing_moves_sorted().is_empty());
    let mut solver = Solver::new(game).unwrap();
    assert_eq!(solver.solve(&vec![2, 2, 3, 3, 4]).unwrap().1, -18);
}

#[test]
fn endgame_window_and_score() {
    let game = Connect4::new(7, 6);
    let moves = moves_of("2252576253462244111563365343671351441");
    let mut s = game.start();
    assert_eq!(s.play_multiple(&moves), Ok(()));
    assert_eq!(s.len(), 37);
    assert_eq!(s.bound(), StateResult::Bounds((-2, 3)));
    let mut solver = Solver::new(game).unwrap();
    let score = solver.negamax(&mut s, None).unwrap();
    assert!(-2 <= score && score <= 3);
    assert_eq!(score, -1);
}

#[test]
fn full_board_is_a_draw() {
    let game = Connect4::new(7, 6);
    let moves = moves_of("643426421252331361731565754636221447775751");
    assert_eq!(moves.len(), 42);
    let mut s = game.start();
    assert_eq!(s.play_multiple(&moves), Ok(()));
    assert_eq!(s.len(), 42);
    assert_eq!(s.bound(), StateResult::Immediate(0));
    assert_eq!(s.my_left_stones(), 0);
    assert_eq!(s.opponent_left_stones(), 0);
    assert!(s.possible_moves().is_empty());
    assert_eq!(s.possible_moves_mask(), 0);
    let mut solver = Solver::new(game).unwrap();
    let (end, score) = solver.solve(&moves).unwrap();
    assert_eq!(score, 0);
    assert_eq!(end.len(), 42);
}

#[test]
fn stones_left_on_a_board_with_an_odd_number_of_cells() {
    let game = Connect4::new(5, 5);
    let mut s = game.start();
    assert_eq!(s.my_left_stones(), 13);
    assert_eq!(s.opponent_left_stones(), 12);
    assert_eq!(s.play(2), Ok(()));
    assert_eq!(s.my_left_stones(), 12);
    assert_eq!(s.opponent_left_stones(), 12);
    assert_eq!(s.bound(), StateResult::Bounds((-12, 12)));
}

#[test]
fn move_scores_follow_the_formula() {
    let game = Connect4::new(7, 6);
    let s = game.start();
    let scores: Vec<u16> = (0..7u16).map(|a| s.heuristic_action_score(a)).collect();
    assert_eq!(scores, vec![0, 1, 2, 3, 2, 1, 0]);
    assert_eq!(s.nonlosing_moves_sorted(), vec![3, 2, 4, 1, 5, 0, 6]);
    let even = Connect4::new(4, 4);
    let e = even.start();
    let scores: Vec<u16> = (0..4u16).map(|a| e.heuristic_action_score(a)).collect();
    assert_eq!(scores, vec![0, 1, 2, 1]);
    assert_eq!(e.nonlosing_moves_sorted(), vec![2, 1, 3, 0]);
}

#[test]
fn windows_of_any_width_agree() {
    let game = Connect4::new(7, 6);
    let moves = moves_of("46752767677675322662553253523341");
    for window in [(i32::MIN, i32::MAX), (-1000, 1000), (-2, i32::MAX), (i32::MIN, -2), (-43, 43)] {
        let mut solver = Solver::new(game).unwrap();
        let mut s = game.start();
        assert!(s.play_multiple(&moves).is_ok());
        assert_eq!(solver.negamax(&mut s, Some(window)), Ok(-2), "window {:?}", window);
        assert_eq!(s.len(), 32);
    }
}

#[test]
fn refused_sequence_keeps_what_was_played() {
    let game = Connect4::new(7, 6);
    let mut s = game.start();
    let moves: Vec<u16> = vec![1, 1, 1, 1, 1, 1, 1, 3];
    assert_eq!(s.play_multiple(&moves), Err(GameError::InvalidMove));
    assert_eq!(s.len(), 6);
    assert_eq!(s.history(), &vec![1u8, 1, 1, 1, 1, 1]);
    assert!(s.can_play(3));
    assert_eq!(s.mask_bits() & game.mask_col(3), 0);
    assert_eq!(s.mask_bits(), game.mask_col(1));
}

#[test]
fn count_stands_still_without_a_search() {
    let game = Connect4::new(7, 6);
    let mut solver = Solver::new(game).unwrap();
    assert_eq!(solver.solve(&vec![1, 1, 1, 1, 1, 1, 1]).err(), Some(GameError::InvalidMove));
    assert_eq!(solver.count(), 0);
    let (s, score) = solver.solve(&vec![3, 3, 3, 4, 4, 4, 4, 3, 1, 1, 0, 2]).unwrap();
    assert_eq!(score, 15);
    assert_eq!(s.len(), 12);
    assert_eq!(solver.count(), 0);
    let (_, score) = solver.solve(&moves_of("2252576253462244111563365343671351441")).unwrap();
    assert_eq!(score, -1);
    assert_eq!(solver.count(), 3);
    // With its tables emptied the solver searches as it did when it was new.
    solver.reset();
    assert_eq!(solver.count(), 0);
    let (_, score) = solver.solve(&moves_of("2252576253462244111563365343671351441")).unwrap();
    assert_eq!(score, -1);
    assert_eq!(solver.count(), 3);
}
