use nonogram::board::{Board, Cell, Rule};

fn line(s: &str) -> Vec<Cell> {
    s.chars().map(Cell::from_char).collect::<Vec<_>>()
}

fn text(row: &Vec<Cell>) -> String {
    row.iter().map(|c| c.as_char()).collect()
}

#[test]
fn get_consecutive_regions() {
    let row = line(".XX..X XX.. X");
    let len = row.len();

    let regions = Board::get_consecutive_regions(&row, true, Some((3, len - 1)));

    assert_eq!(regions, vec![(5, 4), (11, 2)]);
}

#[test]
fn regions_of_painted_cells_over_whole_line() {
    let row = line(".XX..X XX.. X");
    assert_eq!(
        Board::get_consecutive_regions(&row, false, None),
        vec![(1, 2), (5, 1), (7, 2), (12, 1)]
    );
}

#[test]
fn regions_of_empty_line_and_empty_interval() {
    assert_eq!(Board::get_consecutive_regions(&Vec::new(), true, None), vec![]);
    assert_eq!(Board::get_consecutive_regions(&line("....."), true, None), vec![]);
    assert_eq!(Board::get_consecutive_regions(&line("XXX"), true, Some((2, 1))), vec![]);
}

#[test]
fn cell_characters_round_trip() {
    for c in [Cell::On, Cell::Off, Cell::Undetermined] {
        assert_eq!(Cell::from_char(c.as_char()), c);
    }
    assert_eq!(Cell::On.as_char(), 'X');
    assert_eq!(Cell::Off.as_char(), '.');
    assert_eq!(Cell::Undetermined.as_char(), ' ');
    assert_eq!(Cell::from_char('?'), Cell::Undetermined);
}

#[test]
fn flip_cycles_through_editor_states() {
    assert_eq!(Cell::Undetermined.flip(), Cell::On);
    assert_eq!(Cell::On.flip(), Cell::Undetermined);
    assert_eq!(Cell::Off.flip(), Cell::On);
}

#[test]
fn count_block_length_both_ways() {
    let row = line("XXX.XX");
    assert_eq!(Board::count_block_length(&row, 0, false), 3);
    assert_eq!(Board::count_block_length(&row, 2, true), 3);
    assert_eq!(Board::count_block_length(&row, 5, true), 2);
    assert_eq!(Board::count_block_length(&row, 3, false), 0);
    assert_eq!(Board::count_block_length(&row, 6, false), 0);
    assert_eq!(Board::count_block_length(&row, 9, true), 0);
}

#[test]
fn find_first_cell_such_that() {
    let row = line(".. X");
    let open = |cell: &Cell| matches!(cell, Cell::On | Cell::Undetermined);
    assert_eq!(Board::find_first_cell_such_that(&row, open, false), Some(2));
    assert_eq!(Board::find_first_cell_such_that(&row, open, true), Some(3));
    assert_eq!(
        Board::find_first_cell_such_that(&line("...."), open, false),
        None
    );
}

#[test]
fn new_board_is_undetermined_and_clear_resets() {
    let mut board = Board::new(2, 3, vec![Rule::new(0, false, vec![1])]);
    assert_eq!(board.data, vec![vec![Cell::Undetermined; 3]; 2]);
    board.data[1][2] = Cell::On;
    board.clear_board();
    assert_eq!(board.data, vec![vec![Cell::Undetermined; 3]; 2]);
    assert_eq!(board.rules.len(), 1);
}

#[test]
fn rows_and_columns_are_read_and_written() {
    let mut board = Board::new(2, 3, vec![]);
    board.set_row(0, line("X.X"));
    board.set_col(1, line("XX"));
    assert_eq!(text(&board.get_row(0)), "XXX");
    assert_eq!(text(&board.get_row(1)), " X ");
    assert_eq!(text(&board.get_col(2)), "X ");
}

#[test]
fn boards_compare_by_painted_cells_only() {
    let mut a = Board::new(2, 2, vec![]);
    let mut b = Board::new(2, 2, vec![]);
    a.set_row(0, line("X."));
    b.set_row(0, line("X "));
    assert!(a.boards_are_equal(&b));
    b.set_row(1, line(" X"));
    assert!(!a.boards_are_equal(&b));
    assert!(!a.boards_are_equal(&Board::new(2, 3, vec![])));
}

#[test]
fn rules_are_derived_from_painted_cells() {
    let mut board = Board::new(2, 3, vec![]);
    board.set_row(0, line("X.X"));
    board.set_row(1, line("XX "));
    let rules = board.generate_new_rules_according_to_board();
    let got: Vec<(usize, bool, Vec<usize>)> =
        rules.iter().map(|r| (r.n, r.is_col, r.hints.clone())).collect();
    assert_eq!(
        got,
        vec![
            (0, false, vec![1, 1]),
            (1, false, vec![2]),
            (0, true, vec![2]),
            (1, true, vec![1]),
            (2, true, vec![1]),
        ]
    );
}

#[test]
fn snapshot_is_independent_copy() {
    let mut board = Board::new(1, 2, vec![Rule::new(0, false, vec![2])]);
    let copy = board.snapshot();
    board.set_row(0, line("XX"));
    assert_eq!(text(&copy.get_row(0)), "  ");
    assert_eq!(copy.rules[0].hints, vec![2]);
}
