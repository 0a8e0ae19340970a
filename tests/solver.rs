use nonogram::board::{Board, Cell, Rule};
use nonogram::solver::{
    cross_impossible_region, fill_first_and_last_block_if_possible, hints_fit, is_solved,
    mark_complete_row, propagate, rules_are_valid, simple_boxes, solve, solve_line,
    trim_finished_hints,
};

fn line(s: &str) -> Vec<Cell> {
    s.chars().map(Cell::from_char).collect::<Vec<_>>()
}

fn text(row: &Vec<Cell>) -> String {
    row.iter().map(|c| c.as_char()).collect()
}

fn boxes(size: usize, hints: Vec<usize>, input: &str) -> String {
    let mut row = if input.is_empty() {
        vec![Cell::Undetermined; size]
    } else {
        line(input)
    };
    simple_boxes(&hints, &mut row);
    text(&row)
}

#[test]
fn simple_boxes_examples() {
    assert_eq!(boxes(8, vec![4, 3], "        "), "XXXX XXX");
    assert_eq!(boxes(10, vec![8], ""), "  XXXXXX  ");
    assert_eq!(boxes(10, vec![4, 3], ""), "  XX   X  ");
    assert_eq!(boxes(10, vec![4, 3], ".        ."), ".XXXX XXX.");
    assert_eq!(boxes(10, vec![4, 3], "        .."), "XXXX XXX..");
}

#[test]
fn forced_overlap_on_line_of_eight() {
    let mut row = vec![Cell::Undetermined; 8];
    let rule = Rule::new(0, false, vec![4, 3]);
    solve_line(&rule, &mut row);
    assert_eq!(text(&row), "XXXX.XXX");
}

#[test]
fn simple_boxes_never_marks_empty_nor_overwrites() {
    let mut row = line(".   .   ..");
    simple_boxes(&vec![3, 3], &mut row);
    assert_eq!(text(&row), ".XXX.XXX..");
}

#[test]
fn trim_consumes_matched_ends() {
    let mut row = line(".XX..X XX.. X");
    let ((start, end), hints) = trim_finished_hints(&vec![2, 4, 2], &mut row);
    assert_eq!(hints, vec![4, 2]);
    assert_eq!((start, end), (5, 12));
}

#[test]
fn trim_marks_separators_and_reports_empty_interval() {
    let mut row = line("XX  XX");
    let ((start, end), hints) = trim_finished_hints(&vec![2, 2], &mut row);
    assert_eq!(text(&row), "XX..XX");
    assert_eq!((start, end), (6, -1));
    assert!(hints.is_empty());

    let mut row = line("X   X");
    let ((start, end), hints) = trim_finished_hints(&vec![1, 1, 1], &mut row);
    assert_eq!(text(&row), "X. .X");
    assert_eq!((start, end), (2, 2));
    assert_eq!(hints, vec![1]);
}

#[test]
fn trim_stops_on_mismatched_run() {
    let mut row = line("XXX   ");
    let ((start, end), hints) = trim_finished_hints(&vec![2, 1], &mut row);
    assert_eq!(text(&row), "XXX   ");
    assert_eq!((start, end), (0, 5));
    assert_eq!(hints, vec![2, 1]);
}

#[test]
fn first_and_last_blocks_are_completed() {
    let mut row = line(".X X  .XX X");
    fill_first_and_last_block_if_possible(&vec![1, 3, 4], &mut row);
    assert_eq!(text(&row), ".X.XXX.XXXX");
}

#[test]
fn impossible_region_is_crossed_out() {
    let mut row = line(".. .      ");
    cross_impossible_region(&vec![4, 3], &mut row);
    assert_eq!(text(&row), "....      ");

    let mut row = vec![Cell::Undetermined; 10];
    cross_impossible_region(&vec![4, 3], &mut row);
    assert_eq!(text(&row), "          ");

    let mut row = line("   .  .   ");
    cross_impossible_region(&vec![3, 3], &mut row);
    assert_eq!(text(&row), "   ....   ");
}

#[test]
fn saturated_line_is_closed() {
    let rule = Rule::new(0, false, vec![1, 1]);
    let mut row = line("X X  ");
    mark_complete_row(&rule, &mut row);
    assert_eq!(text(&row), "X.X..");

    let mut row = line("X    ");
    mark_complete_row(&rule, &mut row);
    assert_eq!(text(&row), "X    ");
}

#[test]
fn empty_hints_blank_the_line() {
    let rule = Rule::new(0, false, vec![]);
    let mut row = line("  .  ");
    solve_line(&rule, &mut row);
    assert_eq!(text(&row), ".....");
}

fn letter_rules() -> Vec<Rule> {
    vec![
        Rule::new(0, false, vec![5]),
        Rule::new(1, false, vec![1, 1]),
        Rule::new(2, false, vec![1, 1]),
        Rule::new(3, false, vec![1, 1]),
        Rule::new(4, false, vec![5]),
        Rule::new(5, false, vec![1, 1]),
        Rule::new(6, false, vec![7]),
        Rule::new(7, false, vec![2]),
        Rule::new(0, true, vec![1]),
        Rule::new(1, true, vec![7]),
        Rule::new(2, true, vec![1, 1, 2]),
        Rule::new(3, true, vec![1, 1, 2]),
        Rule::new(4, true, vec![1, 1, 1]),
        Rule::new(5, true, vec![7]),
        Rule::new(6, true, vec![1]),
        Rule::new(7, true, vec![]),
    ]
}

const LETTER: [&str; 8] = [
    ".XXXXX..", ".X...X..", ".X...X..", ".X...X..", ".XXXXX..", ".X...X..", "XXXXXXX.",
    "..XX....",
];

#[test]
fn eight_by_eight_puzzle_is_solved() {
    let mut board = Board::new(8, 8, letter_rules());
    assert!(rules_are_valid(&board));
    assert!(solve(&mut board, true));
    for (n, row) in LETTER.iter().enumerate() {
        assert_eq!(text(&board.get_row(n)), *row);
    }
    assert!(is_solved(&board));
}

#[test]
fn solving_a_stable_grid_changes_nothing() {
    let mut board = Board::new(8, 8, letter_rules());
    solve(&mut board, true);
    let before = board.data.clone();
    assert!(solve(&mut board, false));
    assert_eq!(board.data, before);
    assert_eq!(propagate(&mut board), 0);
    assert_eq!(board.data, before);
}

#[test]
fn solving_never_changes_decided_cells() {
    let mut board = Board::new(8, 8, letter_rules());
    board.set_row(7, line("..XX...."));
    let before = board.data.clone();
    solve(&mut board, false);
    for i in 0..8 {
        for j in 0..8 {
            if before[i][j] != Cell::Undetermined {
                assert_eq!(board.data[i][j], before[i][j]);
            }
        }
    }
}

#[test]
fn passes_are_bounded_by_cell_count() {
    let mut board = Board::new(8, 8, letter_rules());
    let passes = propagate(&mut board);
    assert!(passes >= 1);
    assert!(passes <= 64);
}

#[test]
fn derived_rules_solve_back_to_the_picture() {
    let mut picture = Board::new(8, 8, vec![]);
    for (n, row) in LETTER.iter().enumerate() {
        picture.set_row(n, line(row));
    }
    picture.rules = picture.generate_new_rules_according_to_board();
    let mut copy = Board::new(8, 8, picture.rules.clone());
    assert!(solve(&mut copy, true));
    assert!(picture.boards_are_equal(&copy));
    assert_eq!(copy.data, picture.data);
}

#[test]
fn ambiguous_puzzle_stays_undetermined() {
    let rules = vec![
        Rule::new(0, false, vec![1]),
        Rule::new(1, false, vec![1]),
        Rule::new(0, true, vec![1]),
        Rule::new(1, true, vec![1]),
    ];
    let mut board = Board::new(2, 2, rules);
    assert!(!solve(&mut board, true));
    assert_eq!(text(&board.get_row(0)), "  ");
}

#[test]
fn invalid_rules_are_reported() {
    assert!(hints_fit(&vec![2, 2], 5));
    assert!(!hints_fit(&vec![3, 2], 5));
    assert!(hints_fit(&vec![], 0));
    let board = Board::new(2, 2, vec![Rule::new(2, false, vec![1])]);
    assert!(!rules_are_valid(&board));
    let board = Board::new(2, 2, vec![Rule::new(0, true, vec![1, 1])]);
    assert!(!rules_are_valid(&board));
    let board = Board::new(2, 2, vec![Rule::new(1, true, vec![2])]);
    assert!(rules_are_valid(&board));
}

#[test]
fn sample_puzzle_shape() {
    let board = nonogram::nonogram_solver::run_nonogram_solver();
    assert_eq!((board.rows, board.cols, board.rules.len()), (20, 30, 50));
    assert!(rules_are_valid(&board));
}

fn intersect(size: usize, hints: Vec<usize>, input: &str) -> String {
    let mut row = if input.is_empty() {
        vec![Cell::Undetermined; size]
    } else {
        line(input)
    };
    nonogram::solver::block_intersection(&Rule::new(0, false, hints), &mut row);
    text(&row)
}

#[test]
fn simple_block_intersection() {
    assert_eq!(intersect(8, vec![4, 3], "        "), "XXXX.XXX");
    assert_eq!(intersect(10, vec![8], ""), "  XXXXXX  ");
    assert_eq!(intersect(10, vec![4, 3], ""), "  XX   X  ");
    assert_eq!(intersect(8, vec![3, 3], ".       "), ".XXX.XXX");
}

#[test]
fn longest_block_is_enclosed() {
    let rule = Rule::new(0, false, vec![1, 3]);
    let mut row = line("X  XXX  ");
    nonogram::solver::enclose_completed_region(&rule, &mut row);
    assert_eq!(text(&row), "X .XXX. ");

    let mut row = line("X  XX   ");
    nonogram::solver::enclose_completed_region(&rule, &mut row);
    assert_eq!(text(&row), "X  XX   ");
}

#[test]
fn hint_with_one_possible_region_is_placed() {
    let rule = Rule::new(0, false, vec![4]);
    let mut row = line(" X  X ..");
    nonogram::solver::fill_only_one_possible_hint_region(&rule, &mut row);
    assert_eq!(text(&row), " XXXX ..");

    let rule = Rule::new(0, false, vec![2]);
    let mut row = line("  .  ");
    nonogram::solver::fill_only_one_possible_hint_region(&rule, &mut row);
    assert_eq!(text(&row), "  .  ");
}

#[test]
fn unique_picture_beyond_line_propagation() {
    let picture = ["XXXX", ".XX.", "XXX.", ".X.X"];
    let mut drawn = Board::new(4, 4, vec![]);
    for (n, row) in picture.iter().enumerate() {
        drawn.set_row(n, line(row));
    }
    let rules = drawn.generate_new_rules_according_to_board();
    let mut board = Board::new(4, 4, rules);
    assert!(!solve(&mut board, true));
    assert_eq!(text(&board.get_row(2)), " XX ");
    for i in 0..4 {
        for j in 0..4 {
            let c = board.data[i][j];
            if c != Cell::Undetermined {
                assert_eq!(c, drawn.data[i][j]);
            }
        }
    }
}
