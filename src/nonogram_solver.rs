//! A sample puzzle to play.
use vstd::prelude::*;

use crate::board::{blank, Board, Rule};

verus! {

/// The hints of the sample puzzle: its 20 rows, then its 30 columns.
pub open spec fn sample_hints() -> Seq<Seq<usize>> {
    seq![
        seq![8, 7, 5, 7],
        seq![5, 4, 3, 3],
        seq![3, 3, 2, 3],
        seq![4, 3, 2, 2],
        seq![3, 3, 2, 2],
        seq![3, 4, 2, 2],
        seq![4, 5, 2],
        seq![3, 5, 1],
        seq![4, 3, 2],
        seq![3, 4, 2],
        seq![4, 4, 2],
        seq![3, 6, 2],
        seq![3, 2, 3, 1],
        seq![4, 3, 4, 2],
        seq![3, 2, 3, 2],
        seq![6, 5],
        seq![4, 5],
        seq![3, 3],
        seq![3, 3],
        seq![1, 1],
        seq![1],
        seq![1],
        seq![2],
        seq![4],
        seq![7],
        seq![9],
        seq![2, 8],
        seq![1, 8],
        seq![8],
        seq![1, 9],
        seq![2, 7],
        seq![3, 4],
        seq![6, 4],
        seq![8, 5],
        seq![1, 11],
        seq![1, 7],
        seq![8],
        seq![1, 4, 8],
        seq![6, 8],
        seq![4, 7],
        seq![2, 4],
        seq![1, 4],
        seq![5],
        seq![1, 4],
        seq![1, 5],
        seq![7],
        seq![5],
        seq![3],
        seq![1],
        seq![1],
    ]
}

/// A 20 by 30 puzzle, undetermined, with one rule per row (first) and one per column.
pub fn run_nonogram_solver() -> (board: Board)
    ensures
        board.wf(),
        board.rows == 20,
        board.cols == 30,
        board.rules@.len() == 50,
        forall|i: int| 0 <= i < 20 ==> (#[trigger] board.rules@[i]).n == i && !board.rules@[i].is_col,
        forall|j: int| 20 <= j < 50 ==> (#[trigger] board.rules@[j]).n == j - 20 && board.rules@[j].is_col,
        board.cells() == blank(20, 30),
        forall|k: int| 0 <= k < 50 ==> (#[trigger] board.rules@[k]).hints@ == sample_hints()[k],
{
    let rules = vec![
        Rule::new(0, false, vec![8, 7, 5, 7]),
        Rule::new(1, false, vec![5, 4, 3, 3]),
        Rule::new(2, false, vec![3, 3, 2, 3]),
        Rule::new(3, false, vec![4, 3, 2, 2]),
        Rule::new(4, false, vec![3, 3, 2, 2]),
        Rule::new(5, false, vec![3, 4, 2, 2]),
        Rule::new(6, false, vec![4, 5, 2]),
        Rule::new(7, false, vec![3, 5, 1]),
        Rule::new(8, false, vec![4, 3, 2]),
        Rule::new(9, false, vec![3, 4, 2]),
        Rule::new(10, false, vec![4, 4, 2]),
        Rule::new(11, false, vec![3, 6, 2]),
        Rule::new(12, false, vec![3, 2, 3, 1]),
        Rule::new(13, false, vec![4, 3, 4, 2]),
        Rule::new(14, false, vec![3, 2, 3, 2]),
        Rule::new(15, false, vec![6, 5]),
        Rule::new(16, false, vec![4, 5]),
        Rule::new(17, false, vec![3, 3]),
        Rule::new(18, false, vec![3, 3]),
        Rule::new(19, false, vec![1, 1]),
        Rule::new(0, true, vec![1]),
        Rule::new(1, true, vec![1]),
        Rule::new(2, true, vec![2]),
        Rule::new(3, true, vec![4]),
        Rule::new(4, true, vec![7]),
        Rule::new(5, true, vec![9]),
        Rule::new(6, true, vec![2, 8]),
        Rule::new(7, true, vec![1, 8]),
        Rule::new(8, true, vec![8]),
        Rule::new(9, true, vec![1, 9]),
        Rule::new(10, true, vec![2, 7]),
        Rule::new(11, true, vec![3, 4]),
        Rule::new(12, true, vec![6, 4]),
        Rule::new(13, true, vec![8, 5]),
        Rule::new(14, true, vec![1, 11]),
        Rule::new(15, true, vec![1, 7]),
        Rule::new(16, true, vec![8]),
        Rule::new(17, true, vec![1, 4, 8]),
        Rule::new(18, true, vec![6, 8]),
        Rule::new(19, true, vec![4, 7]),
        Rule::new(20, true, vec![2, 4]),
        Rule::new(21, true, vec![1, 4]),
        Rule::new(22, true, vec![5]),
        Rule::new(23, true, vec![1, 4]),
        Rule::new(24, true, vec![1, 5]),
        Rule::new(25, true, vec![7]),
        Rule::new(26, true, vec![5]),
        Rule::new(27, true, vec![3]),
        Rule::new(28, true, vec![1]),
        Rule::new(29, true, vec![1]),
    ];
    Board::new(20, 30, rules)
}

} // verus!
