//! Laws of the detector, stated over its specification vocabulary and
//! proved once and for all.

use crate::board::{
    column_match, in_column_run, in_row_run, lemma_transpose_runs, lemma_transpose_window,
    transpose_of, window_match,
};
use crate::gem::Gem;
use crate::gem_combination::{
    absorbed_in, absorbs, color_covered_by, colors_from, combo_subset, covered, GemCombination,
};
use vstd::prelude::*;

verus! {

/// Coordinate conservation: merging never drops or invents a
/// coordinate. Whenever nothing of `input` is dropped — each of its
/// combinations is absorbed into some combination of `output` — and
/// nothing is invented — every coordinate of `output` stems from
/// `input` — as the merge pass and the fixed-point merge ensure of
/// their results, the two sets cover exactly the same coordinates.
pub proof fn lemma_coordinate_conservation(
    input: Seq<GemCombination>,
    output: Seq<GemCombination>,
)
    requires
        absorbed_in(input, output),
        colors_from(output, input),
    ensures
        forall|p: (usize, usize)| #[trigger] covered(output, p) <==> covered(input, p),
{
    assert forall|p: (usize, usize)| #[trigger] covered(output, p) <==> covered(input, p) by {
        if covered(output, p) {
            let k = choose|k: int| 0 <= k < output.len() && #[trigger] output[k].covers(p);
            assert(color_covered_by(input, p, output[k].color));
            let m = choose|m: int|
                0 <= m < input.len() && #[trigger] input[m].covers(p) && input[m].color
                    == output[k].color;
            assert(covered(input, p));
        }
        if covered(input, p) {
            let k = choose|k: int| 0 <= k < input.len() && #[trigger] input[k].covers(p);
            assert(absorbs(output, input[k]));
            let m = choose|m: int|
                #![trigger output[m]]
                0 <= m < output.len() && output[m].color == input[k].color && combo_subset(
                    input[k],
                    output[m],
                );
            assert(output[m].covers(p));
        }
    }
}

/// Orientation symmetry: a horizontal window of the transposed grid
/// matches exactly when the corresponding vertical window of the grid
/// itself does, and a cell of the transposed grid lies in a horizontal
/// run exactly when the swapped cell lies in a vertical run. Scanning
/// the transpose for rows is the detector's vertical pass.
pub proof fn lemma_orientation_symmetry(g: Seq<Seq<Gem>>)
    ensures
        forall|row: int, col: int|
            #[trigger] window_match(transpose_of(g), row, col) <==> column_match(g, col, row),
        forall|x: int, y: int|
            #[trigger] in_row_run(transpose_of(g), x, y) <==> in_column_run(g, y, x),
{
    assert forall|row: int, col: int|
        #[trigger] window_match(transpose_of(g), row, col) <==> column_match(g, col, row) by {
        lemma_transpose_window(g, row, col);
    }
    assert forall|x: int, y: int|
        #[trigger] in_row_run(transpose_of(g), x, y) <==> in_column_run(g, y, x) by {
        lemma_transpose_runs(g, x, y);
    }
}

} // verus!
