use vstd::prelude::*;

use crate::line::{counts, is_regions, run_back, run_fwd};
use crate::solver::{lemma_derived_hints_fit, line_of, rules_fit};

verus! {

/// The state of one cell of the grid.
#[derive(Copy, Clone, Debug, PartialEq, Eq, Structural)]
pub enum Cell {
    /// Not decided yet: the cell may end up painted or not.
    Undetermined,
    /// The cell is painted.
    On,
    /// The cell is known to stay blank.
    Off,
}

/// The character that stands for a cell in text: `X`, `.` or a space.
pub open spec fn cell_char(c: Cell) -> char {
    match c {
        Cell::On => 'X',
        Cell::Off => '.',
        Cell::Undetermined => ' ',
    }
}

impl Cell {
    /// The character that stands for the cell.
    pub fn as_char(&self) -> (r: char)
        ensures
            r == cell_char(*self),
    {
        match self {
            Cell::On => 'X',
            Cell::Off => '.',
            Cell::Undetermined => ' ',
        }
    }

    /// Reads a cell from its character; any unknown character is an undetermined cell.
    pub fn from_char(ch: char) -> (r: Self)
        ensures
            r == (if ch == 'X' {
                Cell::On
            } else if ch == '.' {
                Cell::Off
            } else {
                Cell::Undetermined
            }),
            ch == cell_char(r) || r == Cell::Undetermined,
    {
        if ch == Cell::On.as_char() {
            Cell::On
        } else if ch == Cell::Off.as_char() {
            Cell::Off
        } else {
            Cell::Undetermined
        }
    }

    /// The cell after a click in the editor: a painted cell is cleared, any other one painted.
    pub fn flip(&self) -> (r: Self)
        ensures
            r == (if *self == Cell::On {
                Cell::Undetermined
            } else {
                Cell::On
            }),
    {
        match self {
            Cell::Undetermined => Cell::On,
            Cell::On => Cell::Undetermined,
            Cell::Off => Cell::On,
        }
    }
}


/// The hints of one line: `n` is the row (or, with `is_col`, the column) they constrain.
#[derive(Clone, Debug)]
pub struct Rule {
    pub n: usize,
    pub is_col: bool,
    pub hints: Vec<usize>,
}

impl Rule {
    /// The rule with hints `hints` for row `n`, or for column `n` with `is_col`.
    pub fn new(n: usize, is_col: bool, hints: Vec<usize>) -> (r: Self)
        ensures
            r.n == n,
            r.is_col == is_col,
            r.hints@ == hints@,
    {
        Rule { n, is_col, hints }
    }
}

/// A grid of `rows` by `cols` cells with the rules of its lines.
#[derive(Clone, Debug)]
pub struct Board {
    pub rows: usize,
    pub cols: usize,
    pub data: Vec<Vec<Cell>>,
    pub rules: Vec<Rule>,
}

/// A grid of `rows` rows of `cols` cells each.
pub open spec fn grid_shape(g: Seq<Seq<Cell>>, rows: int, cols: int) -> bool {
    &&& g.len() == rows
    &&& forall|i: int| 0 <= i < rows ==> (#[trigger] g[i]).len() == cols
}

/// Column `n` of a grid.
pub open spec fn grid_col(g: Seq<Seq<Cell>>, n: int) -> Seq<Cell> {
    Seq::new(g.len(), |i: int| g[i][n])
}

/// A grid of `rows` by `cols` undetermined cells.
pub open spec fn blank(rows: int, cols: int) -> Seq<Seq<Cell>> {
    Seq::new(rows as nat, |i: int| Seq::new(cols as nat, |j: int| Cell::Undetermined))
}

/// Whether the grid holds no undetermined cell.
pub open spec fn grid_determined(g: Seq<Seq<Cell>>) -> bool {
    forall|i: int, j: int| 0 <= i < g.len() && 0 <= j < g[i].len() ==> g[i][j] != Cell::Undetermined
}

impl Board {
    /// The cells of the board, row by row.
    pub open spec fn cells(&self) -> Seq<Seq<Cell>> {
        self.data@.map_values(|r: Vec<Cell>| r@)
    }

    /// The grid has `rows` rows of `cols` cells.
    pub open spec fn wf(&self) -> bool {
        grid_shape(self.cells(), self.rows as int, self.cols as int)
    }

    /// An undetermined grid of the given shape.
    pub fn new(rows: usize, cols: usize, rules: Vec<Rule>) -> (b: Self)
        ensures
            b.wf(),
            b.rows == rows,
            b.cols == cols,
            b.rules@ == rules@,
            b.cells() == blank(rows as int, cols as int),
    {
        let b = Board { rows, cols, data: blank_grid(rows, cols), rules };
        assert forall|i: int| 0 <= i < rows implies #[trigger] b.cells()[i] == blank(rows as int, cols as int)[i] by {
            assert(b.cells()[i] =~= blank(rows as int, cols as int)[i]);
        }
        assert(b.cells() =~= blank(rows as int, cols as int));
        b
    }

    /// Resets every cell to undetermined.
    pub fn clear_board(&mut self)
        ensures
            final(self).wf(),
            final(self).rows == old(self).rows,
            final(self).cols == old(self).cols,
            final(self).rules == old(self).rules,
            final(self).cells() == blank(old(self).rows as int, old(self).cols as int),
    {
        self.data = blank_grid(self.rows, self.cols);
        assert forall|i: int| 0 <= i < self.rows implies #[trigger] self.cells()[i] == blank(
            self.rows as int,
            self.cols as int,
        )[i] by {
            assert(self.cells()[i] =~= blank(self.rows as int, self.cols as int)[i]);
        }
        assert(self.cells() =~= blank(self.rows as int, self.cols as int));
    }

    /// Whether the two boards have the same shape and paint the same cells; empty and
    /// undetermined cells count alike.
    pub fn boards_are_equal(&self, board: &Board) -> (r: bool)
        requires
            self.wf(),
            board.wf(),
        ensures
            r == (self.rows == board.rows && self.cols == board.cols && forall|i: int, j: int|
                0 <= i < self.rows && 0 <= j < self.cols ==> (self.cells()[i][j] == Cell::On) == (
                board.cells()[i][j] == Cell::On)),
    {
        if self.rows != board.rows || self.cols != board.cols {
            return false;
        }
        let mut i: usize = 0;
        while i < self.rows
            invariant
                self.wf(),
                board.wf(),
                self.rows == board.rows,
                self.cols == board.cols,
                i <= self.rows,
                forall|a: int, b: int| 0 <= a < i && 0 <= b < self.cols ==> (self.cells()[a][b] == Cell::On) == (
                    board.cells()[a][b] == Cell::On),
            decreases self.rows - i,
        {
            assert(self.cells()[i as int].len() == self.cols);
            assert(board.cells()[i as int].len() == self.cols);
            let mut j: usize = 0;
            while j < self.cols
                invariant
                    self.wf(),
                    board.wf(),
                    self.rows == board.rows,
                    self.cols == board.cols,
                    i < self.rows,
                    j <= self.cols,
                    self.cells()[i as int].len() == self.cols,
                    board.cells()[i as int].len() == self.cols,
                    forall|b: int| 0 <= b < j ==> (self.cells()[i as int][b] == Cell::On) == (
                        board.cells()[i as int][b] == Cell::On),
                decreases self.cols - j,
            {
                if (self.data[i][j] == Cell::On) != (board.data[i][j] == Cell::On) {
                    return false;
                }
                j += 1;
            }
            i += 1;
        }
        true
    }

    /// Derives the rules of the board from its painted cells: one per row, then one per
    /// column, each listing the lengths of the line's runs of painted cells.
    pub fn generate_new_rules_according_to_board(&self) -> (rules: Vec<Rule>)
        requires
            self.wf(),
        ensures
            rules@.len() == self.rows + self.cols,
            forall|i: int| 0 <= i < self.rows ==> {
                &&& (#[trigger] rules@[i]).n == i
                &&& !rules@[i].is_col
                &&& hints_of(self.cells()[i], rules@[i].hints@)
            },
            forall|j: int| 0 <= j < self.cols ==> {
                &&& (#[trigger] rules@[self.rows + j]).n == j
                &&& rules@[self.rows + j].is_col
                &&& hints_of(grid_col(self.cells(), j), rules@[self.rows + j].hints@)
            },
            rules_fit(rules@, self.rows as int, self.cols as int),
            forall|k: int| 0 <= k < rules@.len() ==> hints_of(line_of(self.cells(), #[trigger] rules@[k]), rules@[k].hints@),
    {
        let mut rules: Vec<Rule> = Vec::new();
        let mut n_row: usize = 0;
        while n_row < self.rows
            invariant
                self.wf(),
                n_row <= self.rows,
                rules@.len() == n_row,
                forall|i: int| 0 <= i < n_row ==> {
                    &&& (#[trigger] rules@[i]).n == i
                    &&& !rules@[i].is_col
                    &&& hints_of(self.cells()[i], rules@[i].hints@)
                },
                rules_fit(rules@, self.rows as int, self.cols as int),
            decreases self.rows - n_row,
        {
            let row = self.get_row(n_row);
            let rule = Rule::new(n_row, false, run_lengths(&row));
            proof {
                lemma_derived_hints_fit(row@, rule.hints@);
            }
            rules.push(rule);
            n_row += 1;
        }
        let mut n_col: usize = 0;
        while n_col < self.cols
            invariant
                self.wf(),
                n_col <= self.cols,
                rules@.len() == self.rows + n_col,
                forall|i: int| 0 <= i < self.rows ==> {
                    &&& (#[trigger] rules@[i]).n == i
                    &&& !rules@[i].is_col
                    &&& hints_of(self.cells()[i], rules@[i].hints@)
                },
                forall|j: int| 0 <= j < n_col ==> {
                    &&& (#[trigger] rules@[self.rows + j]).n == j
                    &&& rules@[self.rows + j].is_col
                    &&& hints_of(grid_col(self.cells(), j), rules@[self.rows + j].hints@)
                },
                rules_fit(rules@, self.rows as int, self.cols as int),
            decreases self.cols - n_col,
        {
            let col = self.get_col(n_col);
            let rule = Rule::new(n_col, true, run_lengths(&col));
            proof {
                lemma_derived_hints_fit(col@, rule.hints@);
            }
            rules.push(rule);
            n_col += 1;
        }
        assert forall|k: int| 0 <= k < rules@.len() implies hints_of(line_of(self.cells(), #[trigger] rules@[k]), rules@[k].hints@) by {
            if k >= self.rows {
                let j = k - self.rows;
                assert(rules@[self.rows + j] == rules@[k]);
            }
        }
        rules
    }

    /// Index of the first cell, or with `reverse` the last one, for which `f` holds.
    pub fn find_first_cell_such_that<F: Fn(&Cell) -> bool>(row: &Vec<Cell>, f: F, reverse: bool) -> (r: Option<usize>)
        requires
            forall|c: Cell| call_requires(f, (&c,)),
        ensures
            r matches Some(i) ==> i < row@.len() && call_ensures(f, (&row@[i as int],), true),
            reverse && r is Some ==> forall|j: int| r->0 < j < row@.len() ==> call_ensures(f, (&row@[j],), false),
            !reverse && r is Some ==> forall|j: int| 0 <= j < r->0 ==> call_ensures(f, (&row@[j],), false),
            r is None ==> forall|j: int| 0 <= j < row@.len() ==> call_ensures(f, (&row@[j],), false),
    {
        let len = row.len();
        if reverse {
            let mut i: usize = len;
            while i > 0
                invariant
                    reverse,
                    len == row@.len(),
                    i <= len,
                    forall|c: Cell| call_requires(f, (&c,)),
                    forall|j: int| i <= j < len ==> call_ensures(f, (&row@[j],), false),
                decreases i,
            {
                i -= 1;
                if f(&row[i]) {
                    return Some(i);
                }
            }
        } else {
            let mut i: usize = 0;
            while i < len
                invariant
                    !reverse,
                    len == row@.len(),
                    i <= len,
                    forall|c: Cell| call_requires(f, (&c,)),
                    forall|j: int| 0 <= j < i ==> call_ensures(f, (&row@[j],), false),
                decreases len - i,
            {
                if f(&row[i]) {
                    return Some(i);
                }
                i += 1;
            }
        }
        None
    }

    /// A copy of the board.
    pub fn snapshot(&self) -> (b: Board)
        ensures
            b.rows == self.rows,
            b.cols == self.cols,
            b.cells() == self.cells(),
            b.rules@.len() == self.rules@.len(),
            forall|k: int| 0 <= k < self.rules@.len() ==> (#[trigger] b.rules@[k]).n == self.rules@[k].n
                && b.rules@[k].is_col == self.rules@[k].is_col && b.rules@[k].hints@ == self.rules@[k].hints@,
    {
        let mut data: Vec<Vec<Cell>> = Vec::new();
        let mut i: usize = 0;
        while i < self.data.len()
            invariant
                i <= self.data@.len(),
                data@.len() == i,
                forall|k: int| 0 <= k < i ==> (#[trigger] data@[k])@ == self.data@[k]@,
            decreases self.data@.len() - i,
        {
            data.push(self.data[i].clone());
            i += 1;
        }
        let b = Board { rows: self.rows, cols: self.cols, data, rules: copy_rules(&self.rules) };
        assert(b.cells() =~= self.cells());
        b
    }

    /// A copy of row `n`.
    pub fn get_row(&self, n: usize) -> (r: Vec<Cell>)
        requires
            self.wf(),
            n < self.rows,
        ensures
            r@ == self.cells()[n as int],
    {
        self.data[n].clone()
    }

    /// A copy of column `n`.
    pub fn get_col(&self, n: usize) -> (r: Vec<Cell>)
        requires
            self.wf(),
            n < self.cols,
        ensures
            r@ == grid_col(self.cells(), n as int),
    {
        let mut r: Vec<Cell> = Vec::new();
        let mut i: usize = 0;
        while i < self.rows
            invariant
                self.wf(),
                n < self.cols,
                i <= self.rows,
                r@ == grid_col(self.cells(), n as int).take(i as int),
            decreases self.rows - i,
        {
            assert(self.cells()[i as int].len() == self.cols);
            r.push(self.data[i][n]);
            i += 1;
        }
        assert(r@ =~= grid_col(self.cells(), n as int));
        r
    }

    /// Writes `line` over row `n`.
    pub fn set_row(&mut self, n: usize, line: Vec<Cell>)
        requires
            old(self).wf(),
            n < old(self).rows,
            line@.len() == old(self).cols,
        ensures
            final(self).wf(),
            final(self).rows == old(self).rows,
            final(self).cols == old(self).cols,
            final(self).rules == old(self).rules,
            final(self).cells() == old(self).cells().update(n as int, line@),
    {
        self.data.set(n, line);
        assert(self.cells() =~= old(self).cells().update(n as int, line@));
    }

    /// Writes `line` over column `n`.
    pub fn set_col(&mut self, n: usize, line: Vec<Cell>)
        requires
            old(self).wf(),
            n < old(self).cols,
            line@.len() == old(self).rows,
        ensures
            final(self).wf(),
            final(self).rows == old(self).rows,
            final(self).cols == old(self).cols,
            final(self).rules == old(self).rules,
            final(self).cells() == Seq::new(
                old(self).rows as nat,
                |i: int| old(self).cells()[i].update(n as int, line@[i]),
            ),
    {
        let ghost d0 = self.data@;
        let mut i: usize = 0;
        while i < self.rows
            invariant
                self.rows == old(self).rows,
                self.cols == old(self).cols,
                self.rules == old(self).rules,
                d0 == old(self).data@,
                old(self).wf(),
                self.data@.len() == self.rows,
                n < self.cols,
                line@.len() == self.rows,
                i <= self.rows,
                forall|k: int| 0 <= k < i ==> (#[trigger] self.data@[k])@ == d0[k]@.update(n as int, line@[k]),
                forall|k: int| i <= k < self.rows ==> #[trigger] self.data@[k] == d0[k],
            decreases self.rows - i,
        {
            assert(old(self).cells()[i as int].len() == self.cols);
            let mut row = self.data[i].clone();
            row.set(n, line[i]);
            self.data.set(i, row);
            i += 1;
        }
        assert(self.cells() =~= Seq::new(
            old(self).rows as nat,
            |i: int| old(self).cells()[i].update(n as int, line@[i]),
        ));
        assert forall|k: int| 0 <= k < self.rows implies (#[trigger] self.cells()[k]).len() == self.cols by {
            assert(old(self).cells()[k].len() == self.cols);
        }
    }

    /// Length of the run of painted cells that starts at `pos` and goes forward,
    /// or backward with `count_backward`; 0 where `row[pos]` is not painted.
    pub fn count_block_length(row: &Vec<Cell>, pos: usize, count_backward: bool) -> (r: usize)
        ensures
            r == (if count_backward {
                run_back(row@, pos as int)
            } else {
                run_fwd(row@, pos as int)
            }),
    {
        let mut length: usize = 0;
        if count_backward {
            let len = row.len();
            if pos >= len {
                return 0;
            }
            while length <= pos && row[pos - length] == Cell::On
                invariant
                    len == row@.len(),
                    pos < len,
                    length <= pos + 1,
                    run_back(row@, pos as int) == length + run_back(row@, pos - length),
                decreases pos + 1 - length,
            {
                length += 1;
            }
        } else {
            while pos < row.len() && length < row.len() - pos && row[pos + length] == Cell::On
                invariant
                    pos < row@.len() ==> length <= row@.len() - pos,
                    pos >= row@.len() ==> length == 0,
                    run_fwd(row@, pos as int) == length + run_fwd(row@, pos + length),
                decreases row@.len() - pos - length,
            {
                length += 1;
            }
        }
        length
    }

    /// The maximal runs of painted cells (and, with `include_none_cells`, undetermined
    /// ones) inside the inclusive interval, by default the whole line, as (start, length).
    pub fn get_consecutive_regions(
        row: &Vec<Cell>,
        include_none_cells: bool,
        incl_interval: Option<(usize, usize)>,
    ) -> (regions: Vec<(usize, usize)>)
        requires
            incl_interval matches Some((_, end)) ==> end < row@.len(),
        ensures
            is_regions(
                row@,
                include_none_cells,
                match incl_interval {
                    Some((s, _)) => s as int,
                    None => 0,
                },
                match incl_interval {
                    Some((_, e)) => e as int,
                    None => row@.len() - 1,
                },
                regions@,
            ),
    {
        let mut regions: Vec<(usize, usize)> = Vec::new();
        if row.len() == 0 {
            return regions;
        }
        let (start, end) = match incl_interval {
            Some(iv) => iv,
            None => (0, row.len() - 1),
        };
        if start > end {
            return regions;
        }
        let ghost s = row@;
        let ghost incl = include_none_cells;
        let len = row.len();
        let mut pos: usize = start;
        let mut length: usize = 0;
        let mut i: usize = start;
        while i <= end
            invariant
                s == row@,
                incl == include_none_cells,
                start <= i <= end + 1,
                end < len,
                len == s.len(),
                length > 0 ==> pos + length == i && start <= pos && (pos == start || !counts(s[pos - 1], incl)),
                length > 0 ==> forall|x: int| pos <= x < i ==> counts(#[trigger] s[x], incl),
                length == 0 ==> (i == start || !counts(s[i - 1], incl)),
                forall|k: int| #![trigger regions@[k]] 0 <= k < regions@.len() ==> {
                    &&& regions@[k].1 > 0
                    &&& start <= regions@[k].0
                    &&& regions@[k].0 + regions@[k].1 < i
                    &&& (regions@[k].0 == start || !counts(s[regions@[k].0 - 1], incl))
                    &&& !counts(s[regions@[k].0 + regions@[k].1], incl)
                    &&& forall|j: int| regions@[k].0 <= j < regions@[k].0 + regions@[k].1 ==> counts(#[trigger] s[j], incl)
                    &&& (length > 0 ==> regions@[k].0 + regions@[k].1 < pos)
                },
                forall|k: int| 0 <= k < regions@.len() - 1 ==> #[trigger] regions@[k].0 + regions@[k].1 < regions@[k + 1].0,
                forall|j: int| start <= j < i && #[trigger] counts(s[j], incl) ==>
                    (length > 0 && pos <= j) || exists|k: int|
                        0 <= k < regions@.len() && #[trigger] regions@[k].0 <= j < regions@[k].0 + regions@[k].1,
            decreases end + 1 - i,
        {
            let c = row[i];
            if c == Cell::On || (include_none_cells && c == Cell::Undetermined) {
                if length == 0 {
                    pos = i;
                }
                length += 1;
            } else if length > 0 {
                let ghost old_regions = regions@;
                regions.push((pos, length));
                proof {
                    assert(regions@[regions@.len() - 1] == (pos, length));
                    assert forall|j: int| start <= j < i + 1 && #[trigger] counts(s[j], incl) implies
                        exists|k: int| 0 <= k < regions@.len() && #[trigger] regions@[k].0 <= j < regions@[k].0 + regions@[k].1 by {
                        if pos <= j {
                            assert(regions@[old_regions.len() as int].0 <= j);
                        } else {
                            let k = choose|k: int| 0 <= k < old_regions.len() && #[trigger] old_regions[k].0 <= j < old_regions[k].0 + old_regions[k].1;
                            assert(regions@[k] == old_regions[k]);
                        }
                    }
                }
                length = 0;
            }
            i += 1;
        }
        if length > 0 {
            let ghost old_regions = regions@;
            regions.push((pos, length));
            proof {
                assert(regions@[regions@.len() - 1] == (pos, length));
                assert forall|j: int| start <= j <= end && #[trigger] counts(s[j], incl) implies
                    exists|k: int| 0 <= k < regions@.len() && #[trigger] regions@[k].0 <= j < regions@[k].0 + regions@[k].1 by {
                    if pos <= j {
                        assert(regions@[old_regions.len() as int].0 <= j);
                    } else {
                        let k = choose|k: int| 0 <= k < old_regions.len() && #[trigger] old_regions[k].0 <= j < old_regions[k].0 + old_regions[k].1;
                        assert(regions@[k] == old_regions[k]);
                    }
                }
            }
        }
        regions
    }
}

/// `h` lists, left to right, the lengths of the maximal runs of painted cells of `s`.
pub open spec fn hints_of(s: Seq<Cell>, h: Seq<usize>) -> bool {
    exists|r: Seq<(usize, usize)>|
        #[trigger] is_regions(s, false, 0, s.len() - 1, r) && h == r.map_values(|p: (usize, usize)| p.1)
}

/// The lengths of the maximal runs of painted cells of a line, left to right.
fn run_lengths(line: &Vec<Cell>) -> (h: Vec<usize>)
    ensures
        hints_of(line@, h@),
{
    let regions = Board::get_consecutive_regions(line, false, None);
    let mut h: Vec<usize> = Vec::new();
    let mut k: usize = 0;
    while k < regions.len()
        invariant
            k <= regions@.len(),
            h@ == regions@.take(k as int).map_values(|p: (usize, usize)| p.1),
        decreases regions@.len() - k,
    {
        h.push(regions[k].1);
        k += 1;
        assert(h@ =~= regions@.take(k as int).map_values(|p: (usize, usize)| p.1));
    }
    assert(regions@.take(regions@.len() as int) =~= regions@);
    h
}

/// A copy of each rule.
pub fn copy_rules(rules: &Vec<Rule>) -> (r: Vec<Rule>)
    ensures
        r@.len() == rules@.len(),
        forall|k: int| 0 <= k < rules@.len() ==> (#[trigger] r@[k]).n == rules@[k].n && r@[k].is_col
            == rules@[k].is_col && r@[k].hints@ == rules@[k].hints@,
{
    let mut r: Vec<Rule> = Vec::new();
    let mut k: usize = 0;
    while k < rules.len()
        invariant
            k <= rules@.len(),
            r@.len() == k,
            forall|x: int| 0 <= x < k ==> (#[trigger] r@[x]).n == rules@[x].n && r@[x].is_col
                == rules@[x].is_col && r@[x].hints@ == rules@[x].hints@,
        decreases rules@.len() - k,
    {
        let rule = &rules[k];
        r.push(Rule::new(rule.n, rule.is_col, rule.hints.clone()));
        k += 1;
    }
    r
}

/// A grid of `rows` rows of `cols` undetermined cells.
fn blank_grid(rows: usize, cols: usize) -> (g: Vec<Vec<Cell>>)
    ensures
        g@.len() == rows,
        forall|i: int| 0 <= i < rows ==> (#[trigger] g@[i])@.len() == cols,
        forall|i: int, j: int| 0 <= i < rows && 0 <= j < cols ==> g@[i]@[j] == Cell::Undetermined,
{
    let mut g: Vec<Vec<Cell>> = Vec::new();
    let mut i: usize = 0;
    while i < rows
        invariant
            i <= rows,
            g@.len() == i,
            forall|k: int| 0 <= k < i ==> (#[trigger] g@[k])@.len() == cols,
            forall|k: int, j: int| 0 <= k < i && 0 <= j < cols ==> g@[k]@[j] == Cell::Undetermined,
        decreases rows - i,
    {
        let mut row: Vec<Cell> = Vec::new();
        let mut j: usize = 0;
        while j < cols
            invariant
                j <= cols,
                row@.len() == j,
                forall|x: int| 0 <= x < j ==> row@[x] == Cell::Undetermined,
            decreases cols - j,
        {
            row.push(Cell::Undetermined);
            j += 1;
        }
        g.push(row);
        i += 1;
    }
    g
}

} // verus!
