//! The possible-move scanner: decides whether a single swap of two
//! adjacent cells could create a run of at least [`MIN_COMB_SIZE`]
//! same-colored gems, without materializing any future grid state.
//!
//! Two sub-scans run over every row. The first slides a window of
//! [`POSSIBLE_COMB_SIZE`] identically colored cells and inspects the up
//! to six cells that one swap could bring into line with the pair. The
//! second slides a window of [`MIN_COMB_SIZE`] cells and inspects the
//! cells directly above and below its middle. The window and offset
//! arithmetic, including which checks are skipped near the edges, is
//! part of the scanner's definition and is written out exactly by the
//! target-list specification functions below. The caller runs the
//! scanner over the grid and over its transpose to cover both swap
//! axes.

use crate::board::{grid_wf, Board};
use crate::constants::{MIN_COMB_SIZE, POSSIBLE_COMB_SIZE};
use crate::detector::gems_are_matching;
use crate::gem::Gem;
use crate::gem_color::GemColor;
use vstd::prelude::*;

verus! {

pub open spec fn pair_target_above_before(g: Seq<Seq<Gem>>, r: int, i: int) -> Seq<Gem> {
    if i > 0 && r > 0 {
        seq![g[r - 1][i - 1]]
    } else {
        seq![]
    }
}

pub open spec fn pair_target_below_before(g: Seq<Seq<Gem>>, r: int, i: int) -> Seq<Gem> {
    if i > 0 && r < g.len() - 1 {
        seq![g[r + 1][i - 1]]
    } else {
        seq![]
    }
}

pub open spec fn pair_target_two_before(g: Seq<Seq<Gem>>, r: int, i: int) -> Seq<Gem> {
    if i > 1 {
        seq![g[r][i - 2]]
    } else {
        seq![]
    }
}

pub open spec fn pair_target_above_after(g: Seq<Seq<Gem>>, r: int, i: int) -> Seq<Gem> {
    if i + 3 < g.len() && r > 0 {
        seq![g[r - 1][i + 2]]
    } else {
        seq![]
    }
}

pub open spec fn pair_target_below_after(g: Seq<Seq<Gem>>, r: int, i: int) -> Seq<Gem> {
    if i + 3 < g.len() && r < g.len() - 1 {
        seq![g[r + 1][i + 2]]
    } else {
        seq![]
    }
}

pub open spec fn pair_target_three_after(g: Seq<Seq<Gem>>, r: int, i: int) -> Seq<Gem> {
    if i + 4 < g.len() {
        seq![g[r][i + 3]]
    } else {
        seq![]
    }
}

/// The cells that the pair sub-scan inspects around the pair window at
/// columns `i`, `i + 1` of row `r`: the cells above and below the cell
/// one step before the window, the cell two steps before it in the same
/// row, the cells above and below the cell one step after the window,
/// and the cell two steps after it in the same row — each only where
/// the scanner's offset arithmetic keeps it.
pub open spec fn pair_targets(g: Seq<Seq<Gem>>, r: int, i: int) -> Seq<Gem> {
    pair_target_above_before(g, r, i) + pair_target_below_before(g, r, i) + pair_target_two_before(
        g,
        r,
        i,
    ) + pair_target_above_after(g, r, i) + pair_target_below_after(g, r, i)
        + pair_target_three_after(g, r, i)
}

/// The pair window at columns `i`, `i + 1` of row `r` holds two cells of
/// one color, and some inspected cell holds that color too: a single
/// swap completes a run.
pub open spec fn pair_window_hit(g: Seq<Seq<Gem>>, r: int, i: int) -> bool {
    let c = g[r][i].color;
    &&& g[r][i + 1].color == c
    &&& exists|k: int|
        #![trigger pair_targets(g, r, i)[k]]
        0 <= k < pair_targets(g, r, i).len() && pair_targets(g, r, i)[k].color == c
}

/// The cells that the second sub-scan inspects around the window of
/// [`MIN_COMB_SIZE`] cells starting at column `i` of row `r`: the cells
/// directly above and below the window's middle. The check below the
/// window is skipped on the last row.
pub open spec fn triple_targets(g: Seq<Seq<Gem>>, r: int, i: int) -> Seq<Gem> {
    let n = g.len();
    (if r > 0 {
        seq![g[r - 1][i + 1]]
    } else {
        seq![]
    }) + (if r + 2 < n {
        seq![g[r + 1][i + 1]]
    } else {
        seq![]
    })
}

/// Some cell inspected by the second sub-scan around the window starting
/// at column `i` of row `r` holds the color of the window's first cell.
pub open spec fn triple_window_hit(g: Seq<Seq<Gem>>, r: int, i: int) -> bool {
    exists|k: int|
        #![trigger triple_targets(g, r, i)[k]]
        0 <= k < triple_targets(g, r, i).len() && triple_targets(g, r, i)[k].color
            == g[r][i].color
}

/// Some window of the grid's rows signals a possible combination.
pub open spec fn scan_signals(g: Seq<Seq<Gem>>) -> bool {
    let n = g.len();
    ||| (exists|r: int, i: int|
        0 <= r < n && 0 <= i && i + POSSIBLE_COMB_SIZE <= n && #[trigger] pair_window_hit(g, r, i))
    ||| (exists|r: int, i: int|
        0 <= r < n && 0 <= i && i + MIN_COMB_SIZE <= n && #[trigger] triple_window_hit(g, r, i))
}

/// How many of the gems have the given color.
pub open spec fn count_matching(s: Seq<Gem>, c: GemColor) -> int
    decreases s.len(),
{
    if s.len() == 0 {
        0
    } else {
        count_matching(s.drop_last(), c) + (if s.last().color == c {
            1int
        } else {
            0int
        })
    }
}

proof fn lemma_count_matching_pos(s: Seq<Gem>, c: GemColor)
    ensures
        count_matching(s, c) >= 0,
        count_matching(s, c) > 0 <==> exists|k: int| 0 <= k < s.len() && s[k].color == c,
    decreases s.len(),
{
    if s.len() > 0 {
        lemma_count_matching_pos(s.drop_last(), c);
        if s.last().color == c {
            assert(s[s.len() - 1].color == c);
        } else if exists|k: int| 0 <= k < s.len() && s[k].color == c {
            let k = choose|k: int| 0 <= k < s.len() && s[k].color == c;
            assert(s.drop_last()[k].color == c);
        }
    }
}

/// Number of gems of the given color among the listed ones.
pub fn count_color_occurrence(gems: &Vec<Gem>, gem_color: &GemColor) -> (result: i32)
    requires
        gems@.len() <= 0x7fff_ffff,
    ensures
        result == count_matching(gems@, *gem_color),
        (result > 0) <==> (exists|k: int| 0 <= k < gems@.len() && gems@[k].color == *gem_color),
{
    let mut result: i32 = 0;
    let mut k: usize = 0;
    while k < gems.len()
        invariant
            gems@.len() <= 0x7fff_ffff,
            k <= gems@.len(),
            result == count_matching(gems@.take(k as int), *gem_color),
            result >= 0,
            result <= k,
        decreases gems@.len() - k,
    {
        proof {
            assert(gems@.take(k + 1).drop_last() =~= gems@.take(k as int));
            assert(gems@.take(k + 1).last() == gems@[k as int]);
        }
        if gems[k].color == *gem_color {
            result = result + 1;
        }
        k = k + 1;
    }
    proof {
        assert(gems@.take(gems@.len() as int) =~= gems@);
        lemma_count_matching_pos(gems@, *gem_color);
    }
    result
}

/// Collects the cells that the pair sub-scan inspects around the
/// window at columns `iter`, `iter + 1` of row `row_num`.
#[verifier::rlimit(100)]
#[verifier::spinoff_prover]
fn collect_pair_targets(board: &Board, row_num: usize, iter: usize) -> (result: Vec<Gem>)
    requires
        grid_wf(board@),
        row_num < board@.len(),
        iter + POSSIBLE_COMB_SIZE <= board@.len(),
    ensures
        result@ == pair_targets(board@, row_num as int, iter as int),
{
    let n = board.board.len();
    let row = &board.board[row_num];
    proof {
        assert(row@ == board@[row_num as int]);
        assert(row@.len() == n);
    }
    let ghost r = row_num as int;
    let ghost i = iter as int;
    let mut target_gems: Vec<Gem> = Vec::new();
    if iter > 0 {
        if row_num > 0 {
            let above = &board.board[row_num - 1];
            proof {
                assert(above@ == board@[row_num - 1]);
            }
            target_gems.push(above[iter - 1]);
        }
        if row_num < n - 1 {
            let below = &board.board[row_num + 1];
            proof {
                assert(below@ == board@[row_num + 1]);
            }
            target_gems.push(below[iter - 1]);
        }
    }
    proof {
        assert(target_gems@ =~= pair_target_above_before(board@, r, i) + pair_target_below_before(
            board@,
            r,
            i,
        ));
    }
    let ghost first_two = target_gems@;
    if iter > 1 {
        target_gems.push(row[iter - 2]);
    }
    proof {
        assert(target_gems@ =~= first_two + pair_target_two_before(board@, r, i));
    }
    let ghost first_three = target_gems@;
    if iter < n.saturating_sub(3) {
        if row_num > 0 {
            let above = &board.board[row_num - 1];
            proof {
                assert(above@ == board@[row_num - 1]);
            }
            target_gems.push(above[iter + 2]);
        }
        if row_num < n - 1 {
            let below = &board.board[row_num + 1];
            proof {
                assert(below@ == board@[row_num + 1]);
            }
            target_gems.push(below[iter + 2]);
        }
    }
    proof {
        assert(target_gems@ =~= first_three + pair_target_above_after(board@, r, i)
            + pair_target_below_after(board@, r, i));
    }
    let ghost first_five = target_gems@;
    if iter < n.saturating_sub(4) {
        target_gems.push(row[iter + 3]);
    }
    proof {
        assert(target_gems@ =~= first_five + pair_target_three_after(board@, r, i));
        assert(target_gems@ =~= pair_targets(board@, r, i));
    }
    target_gems
}

/// One step of the pair sub-scan: collects the inspected cells around
/// the window at columns `iter`, `iter + 1` of row `row_num` and checks
/// them against the pair's color.
fn pair_window_signals(board: &Board, row_num: usize, iter: usize) -> (result: bool)
    requires
        grid_wf(board@),
        row_num < board@.len(),
        iter + POSSIBLE_COMB_SIZE <= board@.len(),
    ensures
        result == pair_window_hit(board@, row_num as int, iter as int),
{
    let n = board.board.len();
    let row = &board.board[row_num];
    proof {
        assert(row@ == board@[row_num as int]);
        assert(row@.len() == n);
    }
    let gems = &row.as_slice()[iter..iter + POSSIBLE_COMB_SIZE];
    proof {
        assert(gems@[0] == board@[row_num as int][iter as int]);
        assert(gems@[1] == board@[row_num as int][iter + 1]);
    }
    if !gems_are_matching(gems) {
        return false;
    }
    let target_color = gems[0].color;
    let target_gems = collect_pair_targets(board, row_num, iter);
    let color_occurrence = count_color_occurrence(&target_gems, &target_color);
    color_occurrence > 0
}

/// One step of the second sub-scan: checks the cells above and below the
/// middle of the window starting at column `iter` of row `row_num`
/// against the color of the window's first cell.
#[verifier::rlimit(60)]
#[verifier::spinoff_prover]
fn triple_window_signals(board: &Board, row_num: usize, iter: usize) -> (result: bool)
    requires
        grid_wf(board@),
        row_num < board@.len(),
        iter + MIN_COMB_SIZE <= board@.len(),
    ensures
        result == triple_window_hit(board@, row_num as int, iter as int),
{
    let n = board.board.len();
    let row = &board.board[row_num];
    proof {
        assert(row@ == board@[row_num as int]);
        assert(row@.len() == n);
    }
    let mut target_gems: Vec<Gem> = Vec::new();
    if row_num > 0 {
        let above = &board.board[row_num - 1];
        proof {
            assert(above@ == board@[row_num - 1]);
        }
        target_gems.push(above[iter + 1]);
    }
    if row_num < n.saturating_sub(2) {
        let below = &board.board[row_num + 1];
        proof {
            assert(below@ == board@[row_num + 1]);
        }
        target_gems.push(below[iter + 1]);
    }
    proof {
        assert(target_gems@ =~= triple_targets(board@, row_num as int, iter as int));
    }
    let target_color = row[iter].color;
    let color_occurrence = count_color_occurrence(&target_gems, &target_color);
    color_occurrence > 0
}

/// Runs both sub-scans over the rows of one grid. The caller covers the
/// other swap axis by passing the transposed grid as well.
pub fn contains_possible_combinations(board: &Board) -> (result: bool)
    requires
        grid_wf(board@),
    ensures
        result == scan_signals(board@),
{
    let n = board.board.len();
    let mut row_num: usize = 0;
    while row_num < n
        invariant
            grid_wf(board@),
            n == board@.len(),
            row_num <= n,
            forall|r: int, i: int|
                0 <= r < row_num && 0 <= i && i + POSSIBLE_COMB_SIZE <= n ==> !(
                #[trigger] pair_window_hit(board@, r, i)),
        decreases n - row_num,
    {
        if n >= POSSIBLE_COMB_SIZE {
            let last_start = n - POSSIBLE_COMB_SIZE;
            let mut iter: usize = 0;
            while iter <= last_start
                invariant
                    grid_wf(board@),
                    n == board@.len(),
                    n >= POSSIBLE_COMB_SIZE,
                    last_start == n - POSSIBLE_COMB_SIZE,
                    row_num < n,
                    iter <= last_start + 1,
                    forall|i: int|
                        0 <= i < iter ==> !(#[trigger] pair_window_hit(board@, row_num as int, i)),
                decreases last_start + 1 - iter,
            {
                if pair_window_signals(board, row_num, iter) {
                    proof {
                        assert(scan_signals(board@));
                    }
                    return true;
                }
                iter = iter + 1;
            }
        }
        proof {
            assert forall|i: int|
                0 <= i && i + POSSIBLE_COMB_SIZE <= n implies !(#[trigger] pair_window_hit(
                board@,
                row_num as int,
                i,
            )) by {}
        }
        row_num = row_num + 1;
    }
    let mut row_num: usize = 0;
    while row_num < n
        invariant
            grid_wf(board@),
            n == board@.len(),
            row_num <= n,
            forall|r: int, i: int|
                0 <= r < n && 0 <= i && i + POSSIBLE_COMB_SIZE <= n ==> !(
                #[trigger] pair_window_hit(board@, r, i)),
            forall|r: int, i: int|
                0 <= r < row_num && 0 <= i && i + MIN_COMB_SIZE <= n ==> !(
                #[trigger] triple_window_hit(board@, r, i)),
        decreases n - row_num,
    {
        if n >= MIN_COMB_SIZE {
            let last_start = n - MIN_COMB_SIZE;
            let mut iter: usize = 0;
            while iter <= last_start
                invariant
                    grid_wf(board@),
                    n == board@.len(),
                    n >= MIN_COMB_SIZE,
                    last_start == n - MIN_COMB_SIZE,
                    row_num < n,
                    iter <= last_start + 1,
                    forall|r: int, i: int|
                        0 <= r < n && 0 <= i && i + POSSIBLE_COMB_SIZE <= n ==> !(
                        #[trigger] pair_window_hit(board@, r, i)),
                    forall|i: int|
                        0 <= i < iter ==> !(#[trigger] triple_window_hit(
                            board@,
                            row_num as int,
                            i,
                        )),
                decreases last_start + 1 - iter,
            {
                if triple_window_signals(board, row_num, iter) {
                    proof {
                        assert(scan_signals(board@));
                    }
                    return true;
                }
                iter = iter + 1;
            }
        }
        proof {
            assert forall|i: int|
                0 <= i && i + MIN_COMB_SIZE <= n implies !(#[trigger] triple_window_hit(
                board@,
                row_num as int,
                i,
            )) by {}
        }
        row_num = row_num + 1;
    }
    false
}

} // verus!
