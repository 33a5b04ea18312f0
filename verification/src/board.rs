//! The board: a square matrix of gems, the substrate that the combination
//! detector and the possible-move scanner operate on.

use crate::constants::{BOARD_SIZE, MIN_COMB_SIZE};
use crate::detector;
use crate::detector::{all_on_grid, scan_hit};
use crate::gem::Gem;
use crate::gem_combination::{
    all_wf, covered, pairwise_disjoint, run_absorbed, run_coords, GemCombination,
};
use crate::scanner;
use crate::scanner::scan_signals;
use vstd::prelude::*;

verus! {

/// A square matrix of gems. Invariant ([`grid_wf`]): every row has as many
/// cells as there are rows, and every cell holds exactly one gem.
pub struct Board {
    pub board: Vec<Vec<Gem>>,
}

impl View for Board {
    type V = Seq<Seq<Gem>>;

    open spec fn view(&self) -> Seq<Seq<Gem>> {
        self.board@.map_values(|row: Vec<Gem>| row@)
    }
}

/// Well-formedness of a grid: a square matrix.
pub open spec fn grid_wf(g: Seq<Seq<Gem>>) -> bool {
    forall|i: int| 0 <= i < g.len() ==> (#[trigger] g[i]).len() == g.len()
}

/// The transpose of a grid: cell `(row, col)` of the result holds cell
/// `(col, row)` of the source.
pub open spec fn transpose_of(g: Seq<Seq<Gem>>) -> Seq<Seq<Gem>> {
    Seq::new(g.len(), |i: int| Seq::new(g.len(), |j: int| g[j][i]))
}

/// The cells `(row, col)` through `(row, col + MIN_COMB_SIZE - 1)` exist
/// and share one color: one matched window of the horizontal scan.
pub open spec fn window_match(g: Seq<Seq<Gem>>, row: int, col: int) -> bool {
    &&& 0 <= row < g.len()
    &&& 0 <= col
    &&& col + MIN_COMB_SIZE <= g.len()
    &&& forall|k: int|
        0 <= k < MIN_COMB_SIZE ==> (#[trigger] g[row][col + k]).color == g[row][col].color
}

/// The cells `(row, col)` through `(row + MIN_COMB_SIZE - 1, col)` exist
/// and share one color: a vertical run of minimal length.
pub open spec fn column_match(g: Seq<Seq<Gem>>, row: int, col: int) -> bool {
    &&& 0 <= col < g.len()
    &&& 0 <= row
    &&& row + MIN_COMB_SIZE <= g.len()
    &&& forall|k: int|
        0 <= k < MIN_COMB_SIZE ==> (#[trigger] g[row + k][col]).color == g[row][col].color
}

/// The cell in column `x` of row `y` lies inside a horizontal run of at
/// least `MIN_COMB_SIZE` same-colored cells.
pub open spec fn in_row_run(g: Seq<Seq<Gem>>, x: int, y: int) -> bool {
    exists|c: int| c <= x < c + MIN_COMB_SIZE && #[trigger] window_match(g, y, c)
}

/// The cell in column `x` of row `y` lies inside a vertical run of at
/// least `MIN_COMB_SIZE` same-colored cells.
pub open spec fn in_column_run(g: Seq<Seq<Gem>>, x: int, y: int) -> bool {
    exists|r: int| r <= y < r + MIN_COMB_SIZE && #[trigger] column_match(g, r, x)
}

/// A matched window of a transposed grid is a vertical run of the grid
/// itself, at swapped coordinates, and vice versa.
pub proof fn lemma_transpose_window(g: Seq<Seq<Gem>>, row: int, col: int)
    ensures
        window_match(transpose_of(g), row, col) <==> column_match(g, col, row),
{
    let t = transpose_of(g);
    if window_match(t, row, col) {
        assert forall|k: int|
            0 <= k < MIN_COMB_SIZE implies (#[trigger] g[col + k][row]).color
            == g[col][row].color by {
            assert(t[row][col + k] == g[col + k][row]);
            assert(t[row][col] == g[col][row]);
        }
    }
    if column_match(g, col, row) {
        assert forall|k: int|
            0 <= k < MIN_COMB_SIZE implies (#[trigger] t[row][col + k]).color
            == t[row][col].color by {
            assert(t[row][col + k] == g[col + k][row]);
            assert(t[row][col] == g[col][row]);
        }
    }
}

/// A cell lies in a horizontal run of the transposed grid exactly when
/// the swapped cell lies in a vertical run of the grid itself.
pub proof fn lemma_transpose_runs(g: Seq<Seq<Gem>>, x: int, y: int)
    ensures
        in_row_run(transpose_of(g), x, y) <==> in_column_run(g, y, x),
{
    let t = transpose_of(g);
    if in_row_run(t, x, y) {
        let c = choose|c: int| c <= x < c + MIN_COMB_SIZE && #[trigger] window_match(t, y, c);
        lemma_transpose_window(g, y, c);
        assert(column_match(g, c, y));
    }
    if in_column_run(g, y, x) {
        let r = choose|r: int| r <= x < r + MIN_COMB_SIZE && #[trigger] column_match(g, r, y);
        lemma_transpose_window(g, y, r);
        assert(window_match(t, y, r));
    }
}

impl Board {
    /// A board of the canonical size filled with random gems.
    pub fn new() -> (result: Board)
        ensures
            result@.len() == BOARD_SIZE,
            grid_wf(result@),
    {
        let mut board: Vec<Vec<Gem>> = Vec::new();
        let mut row_num: usize = 0;
        while row_num < BOARD_SIZE
            invariant
                row_num <= BOARD_SIZE,
                board@.len() == row_num,
                forall|i: int| 0 <= i < row_num ==> (#[trigger] board@[i])@.len() == BOARD_SIZE,
            decreases BOARD_SIZE - row_num,
        {
            let mut row: Vec<Gem> = Vec::new();
            let mut col_num: usize = 0;
            while col_num < BOARD_SIZE
                invariant
                    col_num <= BOARD_SIZE,
                    row@.len() == col_num,
                decreases BOARD_SIZE - col_num,
            {
                row.push(Gem::random());
                col_num = col_num + 1;
            }
            board.push(row);
            row_num = row_num + 1;
        }
        Board { board }
    }

    /// Wraps a caller-supplied square matrix of gems.
    pub fn from(board: Vec<Vec<Gem>>) -> (result: Board)
        ensures
            result@ == board@.map_values(|row: Vec<Gem>| row@),
    {
        Board { board }
    }

    /// A new board holding this board's cells mirrored along the main
    /// diagonal; no cell is shared with the source.
    pub fn transpose(&self) -> (result: Board)
        requires
            grid_wf(self@),
        ensures
            result@ == transpose_of(self@),
            result@.len() == self@.len(),
            grid_wf(result@),
    {
        let n = self.board.len();
        let mut transposed_board: Vec<Vec<Gem>> = Vec::new();
        let mut row_num: usize = 0;
        while row_num < n
            invariant
                grid_wf(self@),
                n == self@.len(),
                row_num <= n,
                transposed_board@.len() == row_num,
                forall|i: int|
                    0 <= i < row_num ==> (#[trigger] transposed_board@[i])@ == transpose_of(
                        self@,
                    )[i],
            decreases n - row_num,
        {
            let mut new_row: Vec<Gem> = Vec::new();
            let mut col_num: usize = 0;
            while col_num < n
                invariant
                    grid_wf(self@),
                    n == self@.len(),
                    row_num < n,
                    col_num <= n,
                    new_row@.len() == col_num,
                    forall|j: int| 0 <= j < col_num ==> new_row@[j] == self@[j][row_num as int],
                decreases n - col_num,
            {
                let column = &self.board[col_num];
                proof {
                    assert(column@ == self@[col_num as int]);
                }
                new_row.push(column[row_num]);
                col_num = col_num + 1;
            }
            proof {
                assert(new_row@ =~= transpose_of(self@)[row_num as int]);
            }
            transposed_board.push(new_row);
            row_num = row_num + 1;
        }
        let result = Board { board: transposed_board };
        proof {
            assert(result@ =~~= transpose_of(self@));
        }
        result
    }

    /// True when some single swap of two adjacent cells could create a
    /// run of at least [`MIN_COMB_SIZE`] same-colored gems: the scanner
    /// signals on this grid or on its transpose.
    pub fn contains_possible_combinations(&self) -> (result: bool)
        requires
            grid_wf(self@),
        ensures
            result == (scan_signals(self@) || scan_signals(transpose_of(self@))),
    {
        scanner::contains_possible_combinations(self) || scanner::contains_possible_combinations(
            &self.transpose(),
        )
    }

    /// Finds every combination of this board: each maximal group of
    /// overlapping same-colored runs of length at least
    /// [`MIN_COMB_SIZE`], along rows and columns, as one combination.
    /// Coordinates are `(column, row)` pairs; no two returned
    /// combinations share a coordinate, and together they cover exactly
    /// the cells lying in such runs.
    pub fn find_combinations(&self) -> (result: Vec<GemCombination>)
        requires
            grid_wf(self@),
        ensures
            all_wf(result@),
            all_on_grid(self@, result@, false),
            pairwise_disjoint(result@),
            forall|k: int|
                0 <= k < result@.len() ==> (#[trigger] result@[k]).combinations@.len()
                    >= MIN_COMB_SIZE,
            forall|p: (usize, usize)| #[trigger] covered(result@, p) <==> scan_hit(self@, p, false),
            forall|row: int, col: int|
                #[trigger] window_match(self@, row, col) ==> run_absorbed(
                    result@,
                    run_coords(row as usize, col as usize, false),
                    self@[row][col].color,
                ),
            forall|row: int, col: int|
                #[trigger] column_match(self@, row, col) ==> run_absorbed(
                    result@,
                    run_coords(col as usize, row as usize, true),
                    self@[row][col].color,
                ),
    {
        detector::find_combinations(self, false)
    }
}

} // verus!
