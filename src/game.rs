//! The state of the puzzle editor and player around two boards.
use vstd::prelude::*;

use crate::board::{blank, grid_determined, hints_of, grid_col, Board, Cell, copy_rules};
use crate::solver::{
    is_stable, iterate, lemma_same_rules_iterate, lemma_same_rules_pass, rules_are_valid, same_rules, solvable, solve,
};

verus! {

/// Whether the user draws a puzzle or plays one.
#[derive(Clone, Copy, Debug, PartialEq, Eq, Structural)]
pub enum Mode {
    Create,
    Play,
}

/// A board being drawn, a board being played, and what the solver said of the active one.
pub struct Nonogram {
    pub create_board: Board,
    pub play_board: Board,
    pub is_solvable: bool,
    pub is_solved: bool,
    pub mode: Mode,
}

/// `g` is the grid at which solving `board` from an undetermined grid comes to rest.
pub open spec fn solution_of(board: Board, g: Seq<Seq<Cell>>) -> bool {
    &&& is_stable(g, board.rules@)
    &&& exists|n: nat| g == iterate(blank(board.rows as int, board.cols as int), board.rules@, n)
}

/// Solving `board` from scratch decides every cell.
pub open spec fn solves_fully(board: Board) -> bool {
    solvable(board) && exists|g: Seq<Seq<Cell>>| solution_of(board, g) && grid_determined(g)
}

/// The painted cells of `board` are those of the grid at which solving it from scratch rests.
pub open spec fn matches_solution(board: Board) -> bool {
    solvable(board) && exists|g: Seq<Seq<Cell>>|
        solution_of(board, g) && forall|i: int, j: int|
            0 <= i < board.rows && 0 <= j < board.cols ==> (board.cells()[i][j] == Cell::On) == (
            g[i][j] == Cell::On)
}

/// A board of the given shape with no rules and no decided cell.
pub open spec fn is_blank(b: Board, rows: int, cols: int) -> bool {
    &&& b.wf()
    &&& b.rows == rows
    &&& b.cols == cols
    &&& b.rules@.len() == 0
    &&& b.cells() == blank(rows, cols)
}

impl Nonogram {
    pub open spec fn wf(&self) -> bool {
        self.create_board.wf() && self.play_board.wf()
    }

    /// The board that the current mode works on.
    pub open spec fn active(&self) -> Board {
        if self.mode == Mode::Play {
            self.play_board
        } else {
            self.create_board
        }
    }

    /// Starts drawing a new puzzle of the given shape.
    pub fn new(rows: usize, cols: usize) -> (r: Self)
        ensures
            r.wf(),
            is_blank(r.create_board, rows as int, cols as int),
            is_blank(r.play_board, rows as int, cols as int),
            r.mode == Mode::Create,
            !r.is_solvable,
            !r.is_solved,
    {
        let create_board = Board::new(rows, cols, Vec::new());
        let play_board = Board::new(rows, cols, Vec::new());
        Nonogram { create_board, play_board, is_solvable: false, mode: Mode::Create, is_solved: false }
    }

    /// Starts playing the given puzzle.
    pub fn play_with_board(board: Board) -> (r: Self)
        requires
            board.wf(),
        ensures
            r.wf(),
            is_blank(r.create_board, board.rows as int, board.cols as int),
            r.play_board == board,
            r.mode == Mode::Play,
            !r.is_solvable,
            !r.is_solved,
    {
        let create_board = Board::new(board.rows, board.cols, Vec::new());
        Nonogram { create_board, play_board: board, is_solvable: false, mode: Mode::Play, is_solved: false }
    }

    /// Switches between drawing and playing; going to play clears the play board and
    /// gives it the rules of the drawn puzzle.
    pub fn change_mode(&mut self)
        requires
            old(self).wf(),
        ensures
            final(self).wf(),
            final(self).create_board == old(self).create_board,
            final(self).is_solvable == old(self).is_solvable,
            final(self).is_solved == old(self).is_solved,
            old(self).mode == Mode::Play ==> final(self).mode == Mode::Create && final(self).play_board
                == old(self).play_board,
            old(self).mode == Mode::Create ==> {
                &&& final(self).mode == Mode::Play
                &&& final(self).play_board.rows == old(self).play_board.rows
                &&& final(self).play_board.cols == old(self).play_board.cols
                &&& final(self).play_board.cells() == blank(old(self).play_board.rows as int, old(self).play_board.cols as int)
                &&& same_rules(final(self).play_board.rules@, old(self).create_board.rules@)
            },
    {
        self.mode = match self.mode {
            Mode::Create => {
                self.play_board.clear_board();
                self.play_board.rules = copy_rules(&self.create_board.rules);
                Mode::Play
            },
            Mode::Play => Mode::Create,
        };
    }

    /// Handles a click on cell (`n_row`, `n_col`) of the active board: a right click marks
    /// it empty, a left click flips it. While drawing, the rules are then derived from the
    /// painted cells. The active board is then solved from scratch on a copy; while playing,
    /// the player has won when the painted cells match that solution.
    /// A click outside the board changes nothing.
    pub fn click(&mut self, n_row: usize, n_col: usize, right_button: bool)
        requires
            old(self).wf(),
        ensures
            final(self).wf(),
            final(self).mode == old(self).mode,
            old(self).mode == Mode::Play ==> final(self).create_board == old(self).create_board,
            old(self).mode == Mode::Create ==> final(self).play_board == old(self).play_board,
            !(n_row < old(self).active().rows && n_col < old(self).active().cols) ==> *final(self) == *old(self),
            n_row < old(self).active().rows && n_col < old(self).active().cols ==> {
                let a = old(self).active();
                let b = final(self).active();
                let c = a.cells()[n_row as int][n_col as int];
                let c2 = if right_button { Cell::Off } else if c == Cell::On { Cell::Undetermined } else { Cell::On };
                &&& b.rows == a.rows
                &&& b.cols == a.cols
                &&& b.cells() == a.cells().update(n_row as int, a.cells()[n_row as int].update(n_col as int, c2))
                &&& old(self).mode == Mode::Play ==> b.rules == a.rules
                &&& old(self).mode == Mode::Create ==> b.rules@.len() == b.rows + b.cols
                    && (forall|i: int| 0 <= i < b.rows ==> (#[trigger] b.rules@[i]).n == i && !b.rules@[i].is_col
                        && hints_of(b.cells()[i], b.rules@[i].hints@))
                    && (forall|j: int| 0 <= j < b.cols ==> (#[trigger] b.rules@[b.rows + j]).n == j
                        && b.rules@[b.rows + j].is_col && hints_of(grid_col(b.cells(), j), b.rules@[b.rows + j].hints@))
                &&& final(self).is_solvable == solves_fully(b)
                &&& final(self).is_solved == if old(self).mode == Mode::Play {
                    matches_solution(b)
                } else {
                    old(self).is_solved
                }
            },
    {
        let is_play = self.mode == Mode::Play;
        let in_range = if is_play {
            n_row < self.play_board.rows && n_col < self.play_board.cols
        } else {
            n_row < self.create_board.rows && n_col < self.create_board.cols
        };
        if !in_range {
            return;
        }
        if is_play {
            paint(&mut self.play_board, n_row, n_col, right_button);
            let (solvable_now, solved_now) = check_board(&self.play_board, true);
            self.is_solvable = solvable_now;
            self.is_solved = solved_now;
        } else {
            paint(&mut self.create_board, n_row, n_col, right_button);
            self.create_board.rules = self.create_board.generate_new_rules_according_to_board();
            let (solvable_now, _) = check_board(&self.create_board, false);
            self.is_solvable = solvable_now;
        }
    }

    /// Replaces the active board by its solution from scratch, where its rules allow solving.
    pub fn solve_active(&mut self)
        requires
            old(self).wf(),
        ensures
            final(self).wf(),
            final(self).mode == old(self).mode,
            final(self).is_solvable == old(self).is_solvable,
            final(self).is_solved == old(self).is_solved,
            old(self).mode == Mode::Play ==> final(self).create_board == old(self).create_board,
            old(self).mode == Mode::Create ==> final(self).play_board == old(self).play_board,
            !solvable(old(self).active()) ==> *final(self) == *old(self),
            solvable(old(self).active()) ==> {
                let a = old(self).active();
                let b = final(self).active();
                &&& b.rows == a.rows
                &&& b.cols == a.cols
                &&& same_rules(b.rules@, a.rules@)
                &&& solution_of(a, b.cells())
            },
    {
        if self.mode == Mode::Play {
            if rules_are_valid(&self.play_board) {
                self.play_board = solved_copy(&self.play_board);
            }
        } else {
            if rules_are_valid(&self.create_board) {
                self.create_board = solved_copy(&self.create_board);
            }
        }
    }
}

/// Sets one cell as a click does: empty for a right click, else flipped.
fn paint(board: &mut Board, n_row: usize, n_col: usize, right_button: bool)
    requires
        old(board).wf(),
        n_row < old(board).rows,
        n_col < old(board).cols,
    ensures
        final(board).wf(),
        final(board).rows == old(board).rows,
        final(board).cols == old(board).cols,
        final(board).rules == old(board).rules,
        final(board).cells() == old(board).cells().update(
            n_row as int,
            old(board).cells()[n_row as int].update(
                n_col as int,
                if right_button {
                    Cell::Off
                } else if old(board).cells()[n_row as int][n_col as int] == Cell::On {
                    Cell::Undetermined
                } else {
                    Cell::On
                },
            ),
        ),
{
    let mut row = board.get_row(n_row);
    let c = if right_button {
        Cell::Off
    } else {
        row[n_col].flip()
    };
    row.set(n_col, c);
    board.set_row(n_row, row);
}

/// The board solved from scratch, on a copy; the board must be solvable.
fn solved_copy(board: &Board) -> (r: Board)
    requires
        solvable(*board),
    ensures
        r.wf(),
        r.rows == board.rows,
        r.cols == board.cols,
        same_rules(r.rules@, board.rules@),
        solution_of(*board, r.cells()),
{
    let mut copy = board.snapshot();
    proof {
        assert(same_rules(copy.rules@, board.rules@));
        assert forall|k: int| 0 <= k < copy.rules@.len() implies crate::solver::rule_fits(#[trigger] copy.rules@[k], copy.rows as int, copy.cols as int) by {
            assert(crate::solver::rule_fits(board.rules@[k], board.rows as int, board.cols as int));
        }
    }
    solve(&mut copy, true);
    proof {
        let n = choose|n: nat| copy.cells() == iterate(blank(board.rows as int, board.cols as int), copy.rules@, n);
        lemma_same_rules_iterate(blank(board.rows as int, board.cols as int), copy.rules@, board.rules@, n);
        lemma_same_rules_pass(copy.cells(), copy.rules@, board.rules@);
    }
    copy
}

/// Solves a copy of the board from scratch where its rules allow: tells whether that
/// decides every cell and, when `compare` is set, whether the board paints exactly the
/// cells of that solution.
fn check_board(board: &Board, compare: bool) -> (r: (bool, bool))
    requires
        board.wf(),
    ensures
        r.0 == solves_fully(*board),
        compare ==> r.1 == matches_solution(*board),
{
    if !rules_are_valid(board) {
        return (false, false);
    }
    let copy = solved_copy(board);
    let solved = crate::solver::is_solved(&copy);
    let same = if compare {
        board.boards_are_equal(&copy)
    } else {
        false
    };
    proof {
        let g = copy.cells();
        if solved {
            assert(solution_of(*board, g) && grid_determined(g));
        }
        if solves_fully(*board) {
            let g2 = choose|g2: Seq<Seq<Cell>>| solution_of(*board, g2) && grid_determined(g2);
            lemma_solution_unique(*board, g, g2);
        }
        if compare && same {
            assert(solution_of(*board, g));
        }
        if compare && matches_solution(*board) {
            let g2 = choose|g2: Seq<Seq<Cell>>| solution_of(*board, g2) && forall|i: int, j: int|
                0 <= i < board.rows && 0 <= j < board.cols ==> (board.cells()[i][j] == Cell::On) == (
                g2[i][j] == Cell::On);
            lemma_solution_unique(*board, g, g2);
        }
    }
    (solved, same)
}

/// Solving from scratch comes to rest at one grid only.
pub proof fn lemma_solution_unique(board: Board, g1: Seq<Seq<Cell>>, g2: Seq<Seq<Cell>>)
    requires
        solution_of(board, g1),
        solution_of(board, g2),
    ensures
        g1 == g2,
{
    let b = blank(board.rows as int, board.cols as int);
    let n1 = choose|n: nat| g1 == iterate(b, board.rules@, n);
    let n2 = choose|n: nat| g2 == iterate(b, board.rules@, n);
    if n1 <= n2 {
        lemma_iterate_add(b, board.rules@, n1, (n2 - n1) as nat);
        crate::solver::lemma_stable_passes(g1, board.rules@, (n2 - n1) as nat);
    } else {
        lemma_iterate_add(b, board.rules@, n2, (n1 - n2) as nat);
        crate::solver::lemma_stable_passes(g2, board.rules@, (n1 - n2) as nat);
    }
}

/// `m` passes after `n` passes are `n + m` passes.
pub proof fn lemma_iterate_add(g: Seq<Seq<Cell>>, rules: Seq<crate::board::Rule>, n: nat, m: nat)
    ensures
        iterate(iterate(g, rules, n), rules, m) == iterate(g, rules, n + m),
    decreases m,
{
    if m > 0 {
        lemma_iterate_add(g, rules, n, (m - 1) as nat);
    }
}

} // verus!
