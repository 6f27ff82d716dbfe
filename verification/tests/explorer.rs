use learn_connect4::explorer::transposition::TranspositionTable;
use learn_connect4::{Connect4, Explorer, GameError};

const END_CASES: &str = "2252576253462244111563365343671351441 -1
6763525635134453444361412671365712277 1
54554152522732631657474136221 7
221423263634136234417656774426 -6
5366654457224645455133142123226 6
46752767677675322662553253523341 -2
471725127157745651424741261426236 -4
3726624564552261322144747416677175 4
74646437555253715576133731376116162 4
627254625766215626334511525313771731 3
3634625443552754311446323267561715622 3
23141553626264753554415324343711277217 2
114431713577663256657653165342315772222 2
1136516217674167252351245476543775363342 0
75322572656123475651431656332113612777444 0
";

#[test]
fn run() -> Result<(), GameError> {
    // A board of four by four is small enough to be searched from the start.
    let game = Connect4::new(4, 4);
    let mut explorer = Explorer::new(game);
    explorer.log_from_start()?;
    let boards = explorer.compile_book();
    assert!(!boards.is_empty());
    assert!(boards.len() <= 12);
    for board in boards.iter() {
        assert_eq!(board.len(), 5 * 5);
        println!("{}", board);
    }
    Ok(())
}

fn read_moves_to_vec(action_str: &str, actions: &mut Vec<u16>) {
    for c in action_str.chars() {
        actions.push(c as u16 - '1' as u16);
    }
}

fn check_state(actions_str: &str, expected_str: &str, actions: &mut Vec<u16>, solver: &mut Explorer) {
    solver.reset();
    actions.clear();
    read_moves_to_vec(actions_str, actions);
    let res = solver.solve(&actions);
    assert!(res.is_ok());
    let expected_res = expected_str.parse::<i32>();
    assert!(expected_res.is_ok());
    assert_eq!(res.unwrap().1, expected_res.unwrap(), "Testing {}", actions_str);
}

fn parse_testcase_string(f: &str) -> Vec<(&str, &str)> {
    let count = f.chars().filter(|c| *c == '\n').count();
    let mut res: Vec<(&str, &str)> = Vec::with_capacity(count + 2);
    let mut prev_start: usize = 0;
    let mut prev_space: usize = 0;
    for (i, c) in f.char_indices() {
        match c {
            ' ' => {
                prev_space = i;
            }
            '\n' => {
                let actions_str = &f[prev_start..prev_space];
                let expected_str = &f[(prev_space + 1)..i];
                res.push((actions_str, expected_str));
                prev_start = i + 1;
            }
            _ => (),
        }
    }
    res
}

#[test]
fn test_check_l3_r1() {
    let game = Connect4::new(7, 6);
    let mut solver = Explorer::new(game);
    let mut actions: Vec<u16> = Vec::with_capacity(7 * 6);
    let cases = parse_testcase_string(END_CASES);
    println!("Total number of cases: {}...", cases.len());
    assert_eq!(cases.len(), 15);
    for (actions_str, expected_str) in cases {
        check_state(actions_str, expected_str, &mut actions, &mut solver);
    }
}

#[test]
fn check_put_get() {
    let mut t = TranspositionTable::new(7);
    t.put(100, -1, false);
    assert_eq!(t.get(100), Some(-1));
}

#[test]
fn explorer_table_misses_after_eviction() {
    let mut t = TranspositionTable::new(7);
    assert_eq!(t.get(100), None);
    t.put(100, -1, false);
    t.put(107, 3, true);
    assert_eq!(t.get(100), None);
    assert_eq!(t.get(107), Some(3));
    t.put(101, 0, false);
    assert_eq!(t.get(101), Some(0));
    t.reset();
    assert_eq!(t.get(107), None);
}

#[test]
fn explorer_counts_and_refuses_illegal_moves() {
    let game = Connect4::new(7, 6);
    let mut explorer = Explorer::new(game);
    assert_eq!(explorer.count(), 0);
    let moves: Vec<u16> =
        "6763525635134453444361412671365712277".chars().map(|c| c as u16 - '1' as u16).collect();
    let (end, score) = explorer.solve(&moves).unwrap();
    assert_eq!(score, 1);
    assert_eq!(end.len(), 37);
    assert!(explorer.count() > 0);
    explorer.reset();
    assert_eq!(explorer.count(), 0);
    assert_eq!(explorer.solve(&vec![1, 1, 1, 1, 1, 1, 1]).err(), Some(GameError::InvalidMove));
    assert!(explorer.compile_book().is_empty());
}

#[test]
fn explorer_counts_every_call_and_forgets_on_reset() {
    let game = Connect4::new(7, 6);
    let mut explorer = Explorer::new(game);
    assert_eq!(explorer.solve(&vec![1, 1, 1, 1, 1, 1, 1]).err(), Some(GameError::InvalidMove));
    assert_eq!(explorer.count(), 0);
    let (_, score) = explorer.solve(&vec![3, 3, 3, 4, 4, 4, 4, 3, 1, 1, 0, 2]).unwrap();
    assert_eq!(score, 15);
    assert_eq!(explorer.count(), 1);
    explorer.reset();
    assert_eq!(explorer.count(), 0);
}

#[test]
fn book_of_a_small_board_is_drawn_up_to_twelve_times() {
    let game = Connect4::new(4, 4);
    let mut explorer = Explorer::new(game);
    assert!(explorer.compile_book().is_empty());
    assert_eq!(explorer.log_from_start(), Ok(()));
    assert_eq!(explorer.compile_book().len(), 12);
}
