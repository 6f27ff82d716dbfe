use learn_connect4::game::StateResult;
use learn_connect4::solver::game_table::table::Table;
use learn_connect4::solver::game_table::{C4GameTable, GameTableUsize};
use learn_connect4::solver::transposition::TranspositionTable;
use learn_connect4::{Connect4, GameError, GameState, NegamaxResult, Solver};

const END_CASES: &str = "2252576253462244111563365343671351441 -1
6763525635134453444361412671365712277 1
54554152522732631657474136221 7
221423263634136234417656774426 -6
5366654457224645455133142123226 6
46752767677675322662553253523341 -2
471725127157745651424741261426236 -4
3726624564552261322144747416677175 4
74646437555253715576133731376116162 4
627254625766215626334511525313771731 3
3634625443552754311446323267561715622 3
23141553626264753554415324343711277217 2
114431713577663256657653165342315772222 2
1136516217674167252351245476543775363342 0
75322572656123475651431656332113612777444 0
56327141664411726775261272316 7
211126435216123371677775637266 6
1761561123576253637222412515576 6
65647176746356556753451723221447 5
672473716332452643676246132443727 5
4754731735355632133154262165277221 4
44532366441721422211735164126767765 4
167257634535143352514654321467367116 0
7465553661532632465326472327173251117 3
16675622477315316433627547342411314672 2
736364274661742217713725523566241331154 -1
2467123627716223172546375761343515561345 1
62217371731235324552634411372176567554664 0
";

const MIDDLE_CASES: &str = "12242436322545264111456451 8
1571313272111756236764652 -8
626175436577424731735275365 8
672741164766522562267253473 -7
4156417631577512141233757357 7
567416527241123171571474227 8
";

#[test]
fn bebug_place() {
    let game = Connect4::new(7, 6);
    let mut solver = Solver::new(game).unwrap();

    let mut s = game.start();
    let action_str = "6763525635134453444361412671365712277";
    let actions: Vec<u16> = action_str.chars().map(|c| -> u16 { c as u16 - '1' as u16 }).collect();
    assert!(s.play_multiple(&actions).is_ok());
    println!("{}", s.to_text());
    println!("{:?}", s.nonlosing_moves_sorted());
    match s.bound() {
        StateResult::Bounds(bound) => println!("[{} {}]", bound.0, bound.1),
        StateResult::Immediate(score) => println!("[{} {}]", score, score),
    }
    println!("{}", solver.negamax(&mut s, Some((-2, 3))).unwrap());
}

fn read_moves_to_vec(action_str: &str, actions: &mut Vec<u16>) {
    for c in action_str.chars() {
        actions.push(c as u16 - '1' as u16);
    }
}

fn check_state(actions_str: &str, expected_str: &str, actions: &mut Vec<u16>, solver: &mut Solver) {
    solver.reset();
    actions.clear();
    read_moves_to_vec(actions_str, actions);
    let res = solver.solve(&actions);
    assert!(res.is_ok());
    let expected_res = expected_str.parse::<i32>();
    assert!(expected_res.is_ok());
    assert_eq!(res.unwrap().1, expected_res.unwrap(), "Testing {}", actions_str);
}

fn parse_testcase_string(f: &str) -> Vec<(&str, &str)> {
    let count = f.chars().filter(|c| *c == '\n').count();
    let mut res: Vec<(&str, &str)> = Vec::with_capacity(count + 2);
    let mut prev_start: usize = 0;
    let mut prev_space: usize = 0;
    for (i, c) in f.char_indices() {
        match c {
            ' ' => {
                prev_space = i;
            }
            '\n' => {
                let actions_str = &f[prev_start..prev_space];
                let expected_str = &f[(prev_space + 1)..i];
                res.push((actions_str, expected_str));
                prev_start = i + 1;
            }
            _ => (),
        }
    }
    res
}

#[test]
fn check_l3_r1() {
    let game = Connect4::new(7, 6);
    let mut solver = Solver::new(game).unwrap();
    let mut actions: Vec<u16> = Vec::with_capacity(7 * 6);
    let cases = parse_testcase_string(END_CASES);
    println!("Total number of cases: {}...", cases.len());
    assert_eq!(cases.len(), 28);
    for (actions_str, expected_str) in cases {
        check_state(actions_str, expected_str, &mut actions, &mut solver);
    }
}

#[test]
fn check_l2_r1() {
    let game = Connect4::new(7, 6);
    let mut solver = Solver::new(game).unwrap();
    let mut actions: Vec<u16> = Vec::with_capacity(7 * 6);
    let cases = parse_testcase_string(MIDDLE_CASES);
    println!("Total number of cases: {}...", cases.len());
    assert_eq!(cases.len(), 6);
    for (actions_str, expected_str) in cases {
        check_state(actions_str, expected_str, &mut actions, &mut solver);
    }
}

#[test]
fn game_table_check_put_get() -> Result<(), GameError> {
    let game = Connect4::new(7, 6);
    let sizes: Vec<(usize, GameTableUsize)> =
        vec![(5, GameTableUsize::Book(100)), (37, GameTableUsize::Table(8388593))];
    let mut t = C4GameTable::new(game, sizes)?;
    let s = game.start();

    t.put(&s, NegamaxResult::Actual(-1));
    assert_eq!(t.get(&s), Some(NegamaxResult::Actual(-1)).as_ref());
    Ok(())
}

#[test]
fn debug() {
    let a: i8 = -1;
    println!("{:b} -> {:b}", a, a.to_le_bytes()[0]);
}

#[test]
fn transposition_check_put_get() {
    let mut t = TranspositionTable::new(7);
    t.put(100, -1);
    assert_eq!(t.get(100), Some(-1));
}

#[test]
fn a_draw_is_stored_like_any_score() {
    let mut t = TranspositionTable::new(7);
    assert_eq!(t.get(0), None);
    assert_eq!(t.get(5), None);
    t.put(5, 0);
    assert_eq!(t.get(5), Some(0));
    t.put(0, 0);
    assert_eq!(t.get(0), Some(0));
    t.put(100, 5);
    t.put(107, 3);
    assert_eq!(t.get(100), None);
    assert_eq!(t.get(107), Some(3));
    assert_eq!(t.get(5), Some(0));
    t.put(107, 0);
    assert_eq!(t.get(107), Some(0));
    t.reset();
    assert_eq!(t.get(107), None);
    assert_eq!(t.get(5), None);
    assert_eq!(t.get(0), None);
}

#[test]
fn table_evicts_on_collision_and_misses_the_other_key() {
    let mut t = Table::new(7);
    assert_eq!(t.get(100), None);
    t.put(100, NegamaxResult::Pruned(4));
    assert_eq!(t.get(100), Some(&NegamaxResult::Pruned(4)));
    // 107 shares the slot of 100 in a table of seven slots.
    assert_eq!(t.get(107), None);
    t.put(107, NegamaxResult::Actual(-2));
    assert_eq!(t.get(107), Some(&NegamaxResult::Actual(-2)));
    assert_eq!(t.get(100), None);
    t.put(101, NegamaxResult::Actual(1));
    assert_eq!(t.get(107), Some(&NegamaxResult::Actual(-2)));
    t.reset();
    assert_eq!(t.get(107), None);
    assert_eq!(t.get(101), None);
}

#[test]
fn tiers_must_cover_every_ply() {
    let game = Connect4::new(7, 6);
    let short = vec![(5, GameTableUsize::Book(100)), (36, GameTableUsize::Table(11))];
    assert_eq!(C4GameTable::new(game, short).err(), Some(GameError::TableConfigMismatch));
    let long = vec![(5, GameTableUsize::Book(100)), (38, GameTableUsize::Table(11))];
    assert_eq!(C4GameTable::new(game, long).err(), Some(GameError::TableConfigMismatch));
    let huge = vec![(usize::MAX, GameTableUsize::Book(1)), (usize::MAX, GameTableUsize::Table(11))];
    assert_eq!(C4GameTable::new(game, huge).err(), Some(GameError::TableConfigMismatch));
    let exact = vec![(42, GameTableUsize::Table(11))];
    assert!(C4GameTable::new(game, exact).is_ok());
    assert_eq!(Solver::new(Connect4::new(6, 5)).err(), Some(GameError::TableConfigMismatch));
    assert!(Solver::new(Connect4::new(6, 7)).is_ok());
}

#[test]
fn book_keeps_exact_scores_and_tables_overwrite() {
    let game = Connect4::new(7, 6);
    let sizes = vec![(5, GameTableUsize::Book(100)), (37, GameTableUsize::Table(7))];
    let mut t = C4GameTable::new(game, sizes).unwrap();
    let mut s = game.start();
    assert_eq!(t.get(&s), None);
    t.put(&s, NegamaxResult::Pruned(3));
    assert_eq!(t.get(&s), Some(&NegamaxResult::Pruned(3)));
    assert_eq!(t.get_pruned_keys_in_books(), vec![s.key()]);
    t.put(&s, NegamaxResult::Pruned(2));
    assert_eq!(t.get(&s), Some(&NegamaxResult::Pruned(2)));
    t.put(&s, NegamaxResult::Actual(1));
    assert_eq!(t.get(&s), Some(&NegamaxResult::Actual(1)));
    t.put(&s, NegamaxResult::Pruned(0));
    assert_eq!(t.get(&s), Some(&NegamaxResult::Actual(1)));
    t.put(&s, NegamaxResult::Actual(-1));
    assert_eq!(t.get(&s), Some(&NegamaxResult::Actual(1)));
    assert!(t.get_pruned_keys_in_books().is_empty());

    // Ply five is served by the table, where the last offer wins.
    assert!(s.play_multiple(&vec![3, 3, 4, 2, 4]).is_ok());
    assert_eq!(s.len(), 5);
    t.put(&s, NegamaxResult::Actual(2));
    t.put(&s, NegamaxResult::Pruned(1));
    assert_eq!(t.get(&s), Some(&NegamaxResult::Pruned(1)));
    assert!(t.get_pruned_keys_in_books().is_empty());
    t.reset();
    assert_eq!(t.get(&s), None);
    assert_eq!(t.get(&game.start()), Some(&NegamaxResult::Actual(1)));
    assert_eq!(t.game().width(), 7);
}

#[test]
fn mirrored_positions_share_an_entry() {
    let game = Connect4::new(7, 6);
    let sizes = vec![(12, GameTableUsize::Book(100)), (30, GameTableUsize::Table(7))];
    let mut t = C4GameTable::new(game, sizes).unwrap();
    let mut left = game.start();
    let mut right = game.start();
    assert!(left.play_multiple(&vec![0, 1, 1]).is_ok());
    assert!(right.play_multiple(&vec![6, 5, 5]).is_ok());
    t.put(&left, NegamaxResult::Actual(2));
    assert_eq!(t.get(&right), Some(&NegamaxResult::Actual(2)));
}

#[test]
fn book_bytes_have_the_stated_layout() {
    let game = Connect4::new(7, 6);
    let sizes = vec![(12, GameTableUsize::Book(100)), (30, GameTableUsize::Table(7))];
    let mut t = C4GameTable::new(game, sizes).unwrap();
    assert_eq!(t.write_to_book(), vec![7, 6, 0, 0, 0, 0, 0, 0, 0, 0]);
    let s = game.start();
    t.put(&s, NegamaxResult::Actual(-3));
    let mut pruned = game.start();
    assert!(pruned.play(3).is_ok());
    t.put(&pruned, NegamaxResult::Pruned(5));
    let key = s.key();
    assert_eq!(key, 0b0000001_0000001_0000001_0000001_0000001_0000001_0000001);
    let mut expected: Vec<u8> = vec![7, 6, 0, 0, 0, 0, 0, 0, 0, 1];
    expected.extend_from_slice(&key.to_be_bytes());
    expected.push(0xfd);
    assert_eq!(t.write_to_book(), expected);
}

#[test]
fn book_survives_writing_and_reading() {
    let game = Connect4::new(7, 6);
    let sizes = vec![(12, GameTableUsize::Book(100)), (30, GameTableUsize::Table(7))];
    let mut t = C4GameTable::new(game, sizes).unwrap();
    let mut s = game.start();
    t.put(&s, NegamaxResult::Actual(1));
    assert!(s.play(3).is_ok());
    t.put(&s, NegamaxResult::Actual(-1));
    assert!(s.play(2).is_ok());
    t.put(&s, NegamaxResult::Pruned(4));
    let bytes = t.write_to_book();
    assert_eq!(bytes.len(), 10 + 2 * 9);
    assert_eq!(&bytes[..10], &[7, 6, 0, 0, 0, 0, 0, 0, 0, 2]);

    let sizes = vec![(12, GameTableUsize::Book(100)), (30, GameTableUsize::Table(7))];
    let back = C4GameTable::new_with_book(&bytes, sizes).unwrap();
    assert_eq!(back.game().width(), 7);
    assert_eq!(back.game().height(), 6);
    let mut s = game.start();
    assert_eq!(back.get(&s), Some(&NegamaxResult::Actual(1)));
    assert!(s.play(3).is_ok());
    assert_eq!(back.get(&s), Some(&NegamaxResult::Actual(-1)));
    assert!(s.play(2).is_ok());
    assert_eq!(back.get(&s), None);
}

#[test]
fn malformed_books_are_refused() {
    let sizes = || vec![(12, GameTableUsize::Book(100)), (30, GameTableUsize::Table(7))];
    let key: u64 = 0b0000001_0000001_0000001_0000001_0000001_0000001_0000001;
    let mut good: Vec<u8> = vec![7, 6, 0, 0, 0, 0, 0, 0, 0, 1];
    good.extend_from_slice(&key.to_be_bytes());
    good.push(2);
    assert!(C4GameTable::new_with_book(&good, sizes()).is_ok());

    assert_eq!(C4GameTable::new_with_book(&vec![], sizes()).err(), Some(GameError::MalformedBook));
    assert_eq!(C4GameTable::new_with_book(&vec![7], sizes()).err(), Some(GameError::MalformedBook));
    assert_eq!(
        C4GameTable::new_with_book(&vec![7, 6, 0, 0, 0], sizes()).err(),
        Some(GameError::MalformedBook)
    );
    // The last byte of the one entry is missing.
    assert_eq!(
        C4GameTable::new_with_book(&good[..18].to_vec(), sizes()).err(),
        Some(GameError::MalformedBook)
    );
    // A board that does not fit a word.
    assert_eq!(
        C4GameTable::new_with_book(&vec![9, 9, 0, 0, 0, 0, 0, 0, 0, 0], sizes()).err(),
        Some(GameError::MalformedBook)
    );
    // A board whose plies the tiers do not serve.
    assert_eq!(
        C4GameTable::new_with_book(&vec![6, 5, 0, 0, 0, 0, 0, 0, 0, 0], sizes()).err(),
        Some(GameError::TableConfigMismatch)
    );
    // A key that counts as many stones as the board has cells has no tier.
    let full: u64 = 0b1000000_1000000_1000000_1000000_1000000_1000000_1000000;
    let mut full_key = good.clone();
    full_key[10..18].copy_from_slice(&full.to_be_bytes());
    assert_eq!(C4GameTable::new_with_book(&full_key, sizes()).err(), Some(GameError::MalformedBook));
    // Bytes beyond the entries that are announced are not looked at.
    let mut longer = good.clone();
    longer.extend_from_slice(&[1, 2, 3]);
    assert!(C4GameTable::new_with_book(&longer, sizes()).is_ok());
}

#[test]
fn complete_books_are_taken_as_they_are() {
    let sizes = || vec![(12, GameTableUsize::Book(100)), (30, GameTableUsize::Table(7))];
    let game = Connect4::new(7, 6);
    let key = game.start().key();
    // A score beyond the cells of the board.
    let mut bytes: Vec<u8> = vec![7, 6, 0, 0, 0, 0, 0, 0, 0, 3];
    bytes.extend_from_slice(&key.to_be_bytes());
    bytes.push(100);
    // A key with an empty column, which no position has; it counts no stone.
    bytes.extend_from_slice(&0u64.to_be_bytes());
    bytes.push((-128i8) as u8);
    // The first key again: the first entry stays.
    bytes.extend_from_slice(&key.to_be_bytes());
    bytes.push(1);
    let t = C4GameTable::new_with_book(&bytes, sizes()).unwrap();
    assert_eq!(t.get(&game.start()), Some(&NegamaxResult::Actual(100)));
    assert!(t.get_pruned_keys_in_books().is_empty());
    let written = t.write_to_book();
    assert_eq!(written.len(), 10 + 2 * 9);
    assert_eq!(&written[..10], &[7, 6, 0, 0, 0, 0, 0, 0, 0, 2]);

    let mut solver = Solver::new_with_book(&bytes).unwrap();
    assert_eq!(solver.count(), 0);
    let (_, score) = solver.solve(&vec![]).unwrap();
    assert_eq!(score, 100);
    assert_eq!(solver.count(), 1);
    assert_eq!(solver.finalize_pruned_in_books(), Ok(false));
}

#[test]
fn solver_reads_a_book_and_trusts_it() {
    let game = Connect4::new(7, 6);
    let mut s = game.start();
    let moves: Vec<u16> = vec![3, 3, 3, 3, 3, 2, 2, 2, 2, 4, 4];
    assert!(s.play_multiple(&moves).is_ok());
    assert_eq!(s.len(), 11);
    let mut bytes: Vec<u8> = vec![7, 6, 0, 0, 0, 0, 0, 0, 0, 1];
    bytes.extend_from_slice(&s.key().to_be_bytes());
    bytes.push(9);
    let mut solver = Solver::new_with_book(&bytes).unwrap();
    assert_eq!(solver.game().width(), 7);
    assert_eq!(solver.count(), 0);
    // The stored score is outside what the search would find, which shows that it was taken.
    let (end, score) = solver.solve(&moves).unwrap();
    assert_eq!(score, 9);
    assert_eq!(end.len(), 11);
    assert_eq!(solver.count(), 1);
    assert_eq!(solver.write_to_book(), bytes);
    assert_eq!(solver.finalize_pruned_in_books(), Ok(false));
}

#[test]
fn count_grows_and_reset_clears_it() {
    let game = Connect4::new(7, 6);
    let mut solver = Solver::new(game).unwrap();
    assert_eq!(solver.count(), 0);
    let moves: Vec<u16> =
        "2252576253462244111563365343671351441".chars().map(|c| c as u16 - '1' as u16).collect();
    let (end, score) = solver.solve(&moves).unwrap();
    assert_eq!(score, -1);
    assert_eq!(end.len(), 37);
    assert_eq!(end.history().len(), 37);
    let first = solver.count();
    assert!(first > 0);
    let (_, again) = solver.solve(&moves).unwrap();
    assert_eq!(again, -1);
    assert!(solver.count() >= first);
    solver.reset();
    assert_eq!(solver.count(), 0);
    assert_eq!(solver.solve(&vec![0, 0, 0, 0, 0, 0, 0]).err(), Some(GameError::InvalidMove));
    assert_eq!(solver.solve(&vec![7]).err(), Some(GameError::InvalidMove));
}

#[test]
fn pruned_book_entries_are_made_exact() {
    let game = Connect4::new(7, 6);
    let mut solver = Solver::new(game).unwrap();
    // The mover must answer a threat on the bottom row and thereby uncovers one above it.
    let moves: Vec<u16> = vec![3, 3, 3, 4, 4, 4, 4, 3, 1, 1, 0];
    let (end, score) = solver.solve(&moves).unwrap();
    assert_eq!(score, -15);
    assert_eq!(end.len(), 11);
    assert_eq!(solver.write_to_book(), vec![7, 6, 0, 0, 0, 0, 0, 0, 0, 0]);
    assert_eq!(solver.finalize_pruned_in_books(), Ok(true));
    let mut expected: Vec<u8> = vec![7, 6, 0, 0, 0, 0, 0, 0, 0, 1];
    expected.extend_from_slice(&end.key().to_be_bytes());
    expected.push((-15i8) as u8);
    assert_eq!(solver.write_to_book(), expected);
    assert_eq!(solver.finalize_pruned_in_books(), Ok(false));
    solver.reset();
    assert_eq!(solver.write_to_book(), expected);
    assert_eq!(solver.solve(&moves).unwrap().1, -15);
    assert_eq!(solver.count(), 1);

    let mut again = Solver::new_with_book(&expected).unwrap();
    assert_eq!(again.solve(&moves).unwrap().1, -15);
    assert_eq!(again.count(), 1);
}

#[test]
fn narrow_board_refuses_what_does_not_fit_it() {
    // Six columns of seven rows have forty-two cells, which the solver's tiers serve.
    let game = Connect4::new(6, 7);
    let mut solver = Solver::new(game).unwrap();
    assert_eq!(solver.solve(&vec![0, 0, 0, 0, 0, 0, 0, 0]).err(), Some(GameError::InvalidMove));
    assert_eq!(solver.solve(&vec![6]).err(), Some(GameError::InvalidMove));
    assert_eq!(solver.count(), 0);
}
