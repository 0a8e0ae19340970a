use nonogram::board::{Board, Cell, Rule};
use nonogram::game::{Mode, Nonogram};

#[test]
fn drawing_derives_rules_and_checks_solvability() {
    let mut game = Nonogram::new(2, 2);
    assert_eq!(game.mode, Mode::Create);
    game.click(0, 0, false);
    assert_eq!(game.create_board.data[0][0], Cell::On);
    let hints: Vec<Vec<usize>> = game.create_board.rules.iter().map(|r| r.hints.clone()).collect();
    assert_eq!(hints, vec![vec![1], vec![], vec![1], vec![]]);
    assert!(game.is_solvable);
    game.click(0, 0, false);
    assert_eq!(game.create_board.data[0][0], Cell::Undetermined);
    game.click(5, 0, false);
    assert_eq!(game.create_board.data[0][0], Cell::Undetermined);
}

#[test]
fn playing_detects_the_win() {
    let mut game = Nonogram::new(2, 2);
    game.click(0, 0, false);
    game.click(0, 1, false);
    game.change_mode();
    assert_eq!(game.mode, Mode::Play);
    assert_eq!(game.play_board.data, vec![vec![Cell::Undetermined; 2]; 2]);
    game.click(0, 0, false);
    assert!(!game.is_solved);
    game.click(1, 1, true);
    assert_eq!(game.play_board.data[1][1], Cell::Off);
    assert!(!game.is_solved);
    game.click(0, 1, false);
    assert!(game.is_solved);
    game.change_mode();
    assert_eq!(game.mode, Mode::Create);
}

#[test]
fn solve_key_fills_the_active_board() {
    let rules = vec![
        Rule::new(0, false, vec![2]),
        Rule::new(1, false, vec![]),
        Rule::new(0, true, vec![1]),
        Rule::new(1, true, vec![1]),
    ];
    let mut game = Nonogram::play_with_board(Board::new(2, 2, rules));
    game.solve_active();
    assert_eq!(
        game.play_board.data,
        vec![vec![Cell::On, Cell::On], vec![Cell::Off, Cell::Off]]
    );
}
