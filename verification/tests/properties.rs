//! Laws of the merge step and the scans, exercised on concrete values.

use gem_board::board::Board;
use gem_board::detector::{
    combinations_should_be_merged, contains_mergeable_combinations, find_combinations,
    gems_are_matching, merge_combinations, merge_until_stable,
};
use gem_board::gem::Gem;
use gem_board::gem_color::GemColor;
use gem_board::gem_combination::GemCombination;
use gem_board::scanner::count_color_occurrence;
use gem_board::utilities::board_from_string;

/// One horizontal red run in the top-left corner; nothing else matches.
const SINGLE_RUN_BOARD: &str = "
    🟥🟥🟥🟦🟨🟦🟨🟦
    🟨🟦🟨🟦🟨🟦🟨🟦
    🟩🟥🟩🟥🟩🟥🟩🟥
    🟩🟥🟩🟥🟩🟥🟩🟥
    🟪🟦🟪🟦🟪🟦🟪🟦
    🟪🟦🟪🟦🟪🟦🟪🟦
    🟨🟩🟨🟩🟨🟩🟨🟩
    🟨🟩🟨🟩🟨🟩🟨🟩
";

/// The transpose of `SINGLE_RUN_BOARD`: one vertical red run in the
/// top-left corner.
const SINGLE_COLUMN_RUN_BOARD: &str = "
    🟥🟨🟩🟩🟪🟪🟨🟨
    🟥🟦🟥🟥🟦🟦🟩🟩
    🟥🟨🟩🟩🟪🟪🟨🟨
    🟦🟦🟥🟥🟦🟦🟩🟩
    🟨🟨🟩🟩🟪🟪🟨🟨
    🟦🟦🟥🟥🟦🟦🟩🟩
    🟨🟨🟩🟩🟪🟪🟨🟨
    🟦🟦🟥🟥🟦🟦🟩🟩
";

const FOUR_COMBINATION_BOARD: &str = "
    🟨🟥🟪🟥🟨🟩🟩🟨
    🟨🟪🟥🟩🟦🟥🟦🟥
    🟥🟥🟩🟪🟦🟨🟩🟪
    🟥🟦🟦🟦🟨🟩🟩🟦
    🟩🟩🟩🟩🟥🟥🟥🟨
    🟩🟥🟩🟦🟩🟩🟨🟨
    🟦🟦🟨🟨🟦🟨🟨🟦
    🟦🟦🟥🟦🟪🟩🟨🟨
";

fn combo(color: GemColor, coords: Vec<(usize, usize)>) -> GemCombination {
    GemCombination::new_with_combinations(&color, coords)
}

fn snapshot(combos: &Vec<GemCombination>) -> Vec<(GemColor, Vec<(usize, usize)>)> {
    combos
        .iter()
        .map(|c| (c.color, c.combinations.clone()))
        .collect()
}

fn all_coordinates(combos: &Vec<GemCombination>) -> Vec<(usize, usize)> {
    let mut all = Vec::new();
    for c in combos {
        for p in &c.combinations {
            all.push(*p);
        }
    }
    all.sort();
    all
}

/// Every cell of `board` that lies in a horizontal or vertical run of
/// three or more same-colored cells, recomputed the slow way.
fn matched_cells(board: &Board) -> Vec<(usize, usize)> {
    let g = &board.board;
    let n = g.len();
    let mut cells = Vec::new();
    for y in 0..n {
        for x in 0..n {
            let mut hit = false;
            for s in 0..n {
                if s <= x && x < s + 3 && s + 3 <= n {
                    if g[y][s].color == g[y][s + 1].color && g[y][s].color == g[y][s + 2].color {
                        hit = true;
                    }
                }
                if s <= y && y < s + 3 && s + 3 <= n {
                    if g[s][x].color == g[s + 1][x].color && g[s][x].color == g[s + 2][x].color {
                        hit = true;
                    }
                }
            }
            if hit {
                cells.push((x, y));
            }
        }
    }
    cells.sort();
    cells
}

#[test]
fn merge_step_is_idempotent() {
    let a = combo(GemColor::Red, vec![(0, 0), (1, 0), (2, 0)]);
    let b = combo(GemColor::Red, vec![(2, 0), (3, 0), (4, 0)]);
    let c = combo(GemColor::Blue, vec![(0, 5), (0, 6), (0, 7)]);
    let merged = merge_until_stable(vec![a, b, c]);
    assert_eq!(2, merged.len());
    let first = snapshot(&merged);
    let again = merge_until_stable(merged);
    assert_eq!(first, snapshot(&again));
}

#[test]
fn merging_conserves_coordinates() {
    let a = combo(GemColor::Red, vec![(0, 0), (1, 0), (2, 0)]);
    let b = combo(GemColor::Red, vec![(2, 0), (2, 1), (2, 2)]);
    let c = combo(GemColor::Green, vec![(5, 5), (5, 6), (5, 7)]);
    let before = all_coordinates(&vec![
        combo(GemColor::Red, vec![(0, 0), (1, 0), (2, 0)]),
        combo(GemColor::Red, vec![(2, 1), (2, 2)]),
        combo(GemColor::Green, vec![(5, 5), (5, 6), (5, 7)]),
    ]);
    let merged = merge_until_stable(vec![a, b, c]);
    assert_eq!(2, merged.len());
    assert_eq!(before, all_coordinates(&merged));
}

#[test]
fn found_combinations_cover_exactly_the_matched_runs() {
    let board = board_from_string(FOUR_COMBINATION_BOARD);
    let combos = board.find_combinations();
    let covered = all_coordinates(&combos);
    for w in covered.windows(2) {
        assert!(w[0] != w[1], "a coordinate belongs to two combinations");
    }
    assert_eq!(matched_cells(&board), covered);
}

#[test]
fn a_run_is_always_reported() {
    let board = board_from_string(SINGLE_RUN_BOARD);
    let combos = board.find_combinations();
    assert_eq!(1, combos.len());
    assert_eq!(GemColor::Red, combos[0].color);
    for p in [(0usize, 0usize), (1, 0), (2, 0)] {
        assert!(combos[0].combinations.contains(&p));
    }
}

#[test]
fn transposed_scan_is_the_vertical_pass() {
    let board = board_from_string(SINGLE_COLUMN_RUN_BOARD);
    let transposed = board.transpose();
    let vertical_pass = find_combinations(&transposed, true);
    assert_eq!(1, vertical_pass.len());
    assert_eq!(GemColor::Red, vertical_pass[0].color);
    let mut coords = vertical_pass[0].combinations.clone();
    coords.sort();
    assert_eq!(vec![(0usize, 0usize), (0, 1), (0, 2)], coords);
    let direct = board.find_combinations();
    assert_eq!(snapshot(&vertical_pass), snapshot(&direct));
}

#[test]
fn colors_round_trip_through_their_glyphs() {
    let colors = [
        GemColor::Blue,
        GemColor::Green,
        GemColor::Red,
        GemColor::Yellow,
        GemColor::Purple,
    ];
    for color in colors {
        assert_eq!(color, GemColor::from_char(color.as_char()));
    }
    assert_eq!('🟦', GemColor::Blue.as_char());
    assert_eq!(GemColor::Yellow, GemColor::from_char('🟨'));
}

#[test]
fn from_match_builds_window_coordinates() {
    let gems = vec![
        Gem::new(GemColor::Purple),
        Gem::new(GemColor::Purple),
        Gem::new(GemColor::Purple),
    ];
    let plain = GemCombination::from_match(&gems, 2, 1, false);
    assert_eq!(GemColor::Purple, plain.color);
    assert_eq!(vec![(1usize, 2usize), (2, 2), (3, 2)], plain.combinations);
    let inverted = GemCombination::from_match(&gems, 2, 1, true);
    assert_eq!(vec![(2usize, 1usize), (2, 2), (2, 3)], inverted.combinations);
}

#[test]
fn merging_two_runs_unions_their_coordinates() {
    let a = combo(GemColor::Red, vec![(0, 0), (1, 0), (2, 0)]);
    let b = combo(GemColor::Red, vec![(2, 0), (3, 0), (4, 0)]);
    let merged = merge_combinations(a, b);
    assert_eq!(GemColor::Red, merged.color);
    assert_eq!(
        vec![(0usize, 0usize), (1, 0), (2, 0), (3, 0), (4, 0)],
        merged.combinations
    );
}

#[test]
fn mergeability_needs_shared_color_and_coordinate() {
    let red_left = combo(GemColor::Red, vec![(0, 0), (1, 0), (2, 0)]);
    let red_cross = combo(GemColor::Red, vec![(2, 0), (2, 1), (2, 2)]);
    let blue_cross = combo(GemColor::Blue, vec![(2, 0), (2, 1), (2, 2)]);
    let red_apart = combo(GemColor::Red, vec![(5, 5), (6, 5), (7, 5)]);
    assert!(combinations_should_be_merged(&red_left, &red_cross));
    assert!(!combinations_should_be_merged(&red_left, &blue_cross));
    assert!(!combinations_should_be_merged(&red_left, &red_apart));
}

#[test]
fn shared_coordinates_are_detected() {
    let overlapping = vec![
        combo(GemColor::Red, vec![(0, 0), (1, 0), (2, 0)]),
        combo(GemColor::Red, vec![(2, 0), (3, 0), (4, 0)]),
    ];
    assert!(contains_mergeable_combinations(&overlapping));
    let disjoint = vec![
        combo(GemColor::Red, vec![(0, 0), (1, 0), (2, 0)]),
        combo(GemColor::Red, vec![(3, 0), (4, 0), (5, 0)]),
    ];
    assert!(!contains_mergeable_combinations(&disjoint));
}

#[test]
fn color_occurrences_are_counted_exactly() {
    let gems = vec![
        Gem::new(GemColor::Red),
        Gem::new(GemColor::Blue),
        Gem::new(GemColor::Red),
        Gem::new(GemColor::Green),
    ];
    assert_eq!(2, count_color_occurrence(&gems, &GemColor::Red));
    assert_eq!(1, count_color_occurrence(&gems, &GemColor::Blue));
    assert_eq!(0, count_color_occurrence(&gems, &GemColor::Purple));
}

#[test]
fn matching_needs_every_gem_to_agree() {
    let same = vec![
        Gem::new(GemColor::Green),
        Gem::new(GemColor::Green),
        Gem::new(GemColor::Green),
    ];
    assert!(gems_are_matching(&same));
    let mixed = vec![
        Gem::new(GemColor::Green),
        Gem::new(GemColor::Green),
        Gem::new(GemColor::Red),
    ];
    assert!(!gems_are_matching(&mixed));
}

#[test]
fn random_board_has_the_canonical_size() {
    let board = Board::new();
    assert_eq!(8, board.board.len());
    for row in &board.board {
        assert_eq!(8, row.len());
    }
}

#[test]
fn transposing_mirrors_cells_along_the_diagonal() {
    let board = board_from_string(SINGLE_RUN_BOARD);
    let transposed = board.transpose();
    for y in 0..8 {
        for x in 0..8 {
            assert_eq!(board.board[y][x], transposed.board[x][y]);
        }
    }
}

#[test]
fn a_right_edge_pair_is_found_through_its_left_neighbor() {
    // The pair sits in the last two columns, where the checks past the
    // window are skipped; the matching cell two columns to its left is
    // still inspected.
    let board_str = "
        🟨🟦🟨🟦🟨🟦🟨🟦
        🟨🟦🟨🟦🟨🟦🟨🟦
        🟩🟥🟩🟥🟩🟥🟩🟥
        🟩🟥🟩🟥🟥🟩🟥🟥
        🟪🟦🟪🟦🟪🟦🟪🟦
        🟪🟦🟪🟦🟪🟦🟪🟦
        🟨🟩🟨🟩🟨🟩🟨🟩
        🟨🟩🟨🟩🟨🟩🟨🟩
    ";
    let board = board_from_string(board_str);
    assert!(board.find_combinations().is_empty());
    assert!(board.contains_possible_combinations());
}
